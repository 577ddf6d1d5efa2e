//! What the compiler emits, as mathematical functions from a syntax tree and the
//! state of compilation to the next state and the diagnostics.

use vstd::prelude::*;
use crate::assembly::Instruction;
use crate::ast::{
    BinaryOperator, CallView, ExpressionView, FunctionView, IfSegmentView, StatementView,
    UnaryOperator,
};
use crate::error_handling::{located, unlocated, ErrorView, FileRef};
use crate::text::{decimal, parse_i32_spec};

verus! {

/// The number of signals that a program can read from or write to.
pub const SIGNAL_COUNT: i32 = 5;

/// What the linker knows of a function.
#[derive(Copy, Clone, Debug)]
pub struct FunctionInfo {
    pub arg_count: usize,
    pub returns_value: bool,
    pub id: i32,
    pub start_offset: i32,
}

/// The functions of a module by name.
pub type FunctionTable = Map<Seq<char>, FunctionInfo>;

/// What kind of scope is open: a loop keeps the places of the jumps that leave
/// its body early, which get their target when the loop is complete.
pub enum ScopeKind {
    While { continue_addresses: Seq<int>, break_addresses: Seq<int> },
    Other,
}

/// An open scope: its variables as offsets from the bottom of the frame, and the
/// stack size at which it was opened.
pub struct ScopeModel {
    pub vars: Map<Seq<char>, i32>,
    pub starting_stack_size: i32,
    pub kind: ScopeKind,
}

/// The state of compilation within a function.
pub struct Context {
    pub instructions: Seq<Instruction>,
    /// The tracked size of the stack, relative to the bottom of the frame.
    pub stack_size: i32,
    /// The open scopes, outermost first.
    pub scopes: Seq<ScopeModel>,
    /// The offset of the slot for the return value, in a function that returns one.
    pub return_value_save_offset: Option<i32>,
}

/// The state after a step of compilation, and the diagnostics of the step.
pub struct Lowered {
    pub ctx: Context,
    pub result: Result<(), Seq<ErrorView>>,
}

/// A step that went well.
pub open spec fn done(ctx: Context) -> Lowered {
    Lowered { ctx, result: Ok(()) }
}

/// A step that ends in one diagnostic at `position`.
pub open spec fn rejected(ctx: Context, position: FileRef, msg: Seq<char>) -> Lowered {
    Lowered { ctx, result: Err(located(position, msg)) }
}

/// By how much an instruction changes the tracked size of the stack.
pub open spec fn stack_effect(instruction: Instruction) -> i32 {
    match instruction {
        Instruction::Load(_) | Instruction::Constant(_) => 1i32,
        Instruction::Jump(_)
        | Instruction::JumpSubRoutine(_)
        | Instruction::Return
        | Instruction::Not => 0i32,
        _ => -1i32,
    }
}

/// The address of the instruction that will be emitted next: addresses count from 1.
pub open spec fn next_address(ctx: Context) -> i32 {
    (ctx.instructions.len() as i32).wrapping_add(1)
}

/// The state after `instruction` is emitted.
pub open spec fn emit(ctx: Context, instruction: Instruction) -> Context {
    Context {
        instructions: ctx.instructions.push(instruction),
        stack_size: ctx.stack_size.wrapping_add(stack_effect(instruction)),
        ..ctx
    }
}

/// The state after `count` times `Pop` is emitted.
pub open spec fn emit_pops(ctx: Context, count: int) -> Context
    decreases count,
{
    if count <= 0 {
        ctx
    } else {
        emit_pops(emit(ctx, Instruction::Pop), count - 1)
    }
}

/// The state after the instruction at `index` is replaced.
pub open spec fn patch(ctx: Context, index: int, instruction: Instruction) -> Context {
    if 0 <= index < ctx.instructions.len() {
        Context { instructions: ctx.instructions.update(index, instruction), ..ctx }
    } else {
        ctx
    }
}

/// The state after each of the instructions at `indices`, from `from` on, is replaced.
pub open spec fn patch_all(ctx: Context, indices: Seq<int>, from: int, instruction: Instruction)
    -> Context
    decreases indices.len() - from,
{
    if 0 <= from < indices.len() {
        patch_all(patch(ctx, indices[from], instruction), indices, from + 1, instruction)
    } else {
        ctx
    }
}

/// The state after a scope of the given kind is opened.
pub open spec fn open_scope(ctx: Context, kind: ScopeKind) -> Context {
    Context {
        scopes: ctx.scopes.push(
            ScopeModel { vars: Map::empty(), starting_stack_size: ctx.stack_size, kind },
        ),
        ..ctx
    }
}

/// The state after the innermost scope is closed, with what it had put on the
/// stack popped, and the kind of that scope.
pub open spec fn end_scope(ctx: Context) -> (Context, ScopeKind) {
    if ctx.scopes.len() == 0 {
        (ctx, ScopeKind::Other)
    } else {
        let scope = ctx.scopes.last();
        (
            emit_pops(
                Context { scopes: ctx.scopes.drop_last(), ..ctx },
                ctx.stack_size.wrapping_sub(scope.starting_stack_size) as int,
            ),
            scope.kind,
        )
    }
}

/// `count` times `Pop`.
pub open spec fn pops(count: int) -> Seq<Instruction> {
    Seq::new(
        if count > 0 {
            count as nat
        } else {
            0
        },
        |i: int| Instruction::Pop,
    )
}

/// The state before control leaves the scope at `scope_idx` early: what the
/// scopes from there on have put on the stack is popped, but the tracked stack
/// size stays, since the code that follows is not reached this way.
pub open spec fn prepare_for_premature_scope_end(ctx: Context, scope_idx: int) -> Context {
    if 0 <= scope_idx < ctx.scopes.len() {
        Context {
            instructions: ctx.instructions + pops(
                ctx.stack_size.wrapping_sub(ctx.scopes[scope_idx].starting_stack_size) as int,
            ),
            ..ctx
        }
    } else {
        ctx
    }
}

/// The offset of the variable `name` in the first scope, from `from` on, that has it.
pub open spec fn variable_pos(scopes: Seq<ScopeModel>, name: Seq<char>, from: int) -> Option<i32>
    decreases scopes.len() - from,
{
    if 0 <= from < scopes.len() {
        if scopes[from].vars.contains_key(name) {
            Some(scopes[from].vars[name])
        } else {
            variable_pos(scopes, name, from + 1)
        }
    } else {
        None
    }
}

/// Whether `name` is the name of a signal: it starts with `signal_`.
pub open spec fn is_signal_name(name: Seq<char>) -> bool {
    name.len() >= 7 && name.subrange(0, 7) == "signal_"@
}

/// The address by which `Load` (`reading`) or `Save` reaches the variable `name`,
/// or the message of the diagnostic.
///
/// A signal has a fixed negative address. A variable on the stack is addressed
/// from the top of the stack, where 1 is the topmost value.
pub open spec fn variable_address(ctx: Context, name: Seq<char>, reading: bool) -> Result<
    i32,
    Seq<char>,
> {
    if is_signal_name(name) {
        match parse_i32_spec(name.subrange(7, name.len() as int)) {
            None => Err("Signal number must be a valid integer"@),
            Some(signal_number) => if signal_number <= 0 || signal_number > SIGNAL_COUNT {
                Err("Invalid signal number. Must be in range [0-5]"@)
            } else if reading {
                Ok((-(SIGNAL_COUNT + signal_number)) as i32)
            } else {
                Ok((-signal_number) as i32)
            },
        }
    } else {
        match variable_pos(ctx.scopes, name, 0) {
            Some(offset) => Ok(ctx.stack_size.wrapping_sub(offset)),
            None => Err("No variable exists with this name"@),
        }
    }
}

/// The state after the value on top of the stack is saved to the variable `name`.
pub open spec fn save_to_variable(ctx: Context, name: Seq<char>, name_ref: FileRef) -> Lowered {
    match variable_address(ctx, name, false) {
        Ok(address) => done(emit(ctx, Instruction::Save(address))),
        Err(msg) => rejected(ctx, name_ref, msg),
    }
}

/// The state after the variable `name` is loaded onto the stack.
pub open spec fn load_from_variable(ctx: Context, name: Seq<char>, name_ref: FileRef) -> Lowered {
    match variable_address(ctx, name, true) {
        Ok(address) => done(emit(ctx, Instruction::Load(address))),
        Err(msg) => rejected(ctx, name_ref, msg),
    }
}

/// The state after the value on top of the stack is made the variable `name` of
/// the innermost scope.
pub open spec fn add_variable(ctx: Context, name: Seq<char>) -> Context {
    if ctx.scopes.len() == 0 {
        ctx
    } else {
        let scope = ctx.scopes.last();
        Context {
            scopes: ctx.scopes.drop_last().push(
                ScopeModel { vars: scope.vars.insert(name, ctx.stack_size.wrapping_sub(1)), ..scope },
            ),
            ..ctx
        }
    }
}

/// The instruction that computes a binary operator.
pub open spec fn binary_instruction(operator: BinaryOperator) -> Instruction {
    match operator {
        BinaryOperator::Add => Instruction::Add,
        BinaryOperator::Subtract => Instruction::Subtract,
        BinaryOperator::Multiply => Instruction::Multiply,
        BinaryOperator::Divide => Instruction::Divide,
        BinaryOperator::And => Instruction::And,
        BinaryOperator::Or => Instruction::Or,
        BinaryOperator::Xor => Instruction::Xor,
        BinaryOperator::ShiftLeft => Instruction::ShiftLeft,
        BinaryOperator::ShiftRight => Instruction::ShiftRight,
        BinaryOperator::Equals => Instruction::Equal,
        BinaryOperator::NotEquals => Instruction::NotEqual,
        BinaryOperator::GreaterThan => Instruction::GreaterThan,
        BinaryOperator::LessThan => Instruction::LessThan,
        BinaryOperator::GreaterThanOrEqual => Instruction::GreaterThanOrEqual,
        BinaryOperator::Remainder => Instruction::Remainder,
        BinaryOperator::LessThanOrEqual => Instruction::LessThanOrEqual,
        BinaryOperator::Power => Instruction::Power,
    }
}

/// The message for a call of a function that does not exist.
pub open spec fn no_function_message(name: Seq<char>) -> Seq<char> {
    "No function exists with name "@ + name
}

/// The message for a call with the wrong number of arguments.
pub open spec fn wrong_argument_count_message(expected: nat, got: nat) -> Seq<char> {
    "Wrong number of arguments, expected "@ + decimal(expected) + ", got "@ + decimal(got)
}

/// The state after the expression is lowered: its value is on top of the stack.
///
/// Of a binary operator the right operand is lowered first, so that the left one
/// is topmost when the operator fires. A negated literal becomes one constant.
pub open spec fn emit_expression(expr: ExpressionView, ctx: Context, functions: FunctionTable)
    -> Lowered
    decreases expr, 0int,
{
    match expr {
        ExpressionView::Binary { left, right, operator } => {
            let first = emit_expression(*right, ctx, functions);
            if first.result is Err {
                first
            } else {
                let second = emit_expression(*left, first.ctx, functions);
                if second.result is Err {
                    second
                } else {
                    done(emit(second.ctx, binary_instruction(operator)))
                }
            }
        },
        ExpressionView::Unary { value, operator } => match operator {
            UnaryOperator::Not => {
                let inner = emit_expression(*value, ctx, functions);
                if inner.result is Err {
                    inner
                } else {
                    done(emit(inner.ctx, Instruction::Not))
                }
            },
            UnaryOperator::Negate => match *value {
                ExpressionView::Literal(literal) => done(
                    emit(ctx, Instruction::Constant(0i32.wrapping_sub(literal))),
                ),
                _ => {
                    let inner = emit_expression(
                        *value,
                        emit(ctx, Instruction::Constant(-1i32)),
                        functions,
                    );
                    if inner.result is Err {
                        inner
                    } else {
                        done(emit(inner.ctx, Instruction::Multiply))
                    }
                },
            },
        },
        ExpressionView::Call(call) => emit_call(call, ctx, functions, true),
        ExpressionView::Variable { name, pos } => load_from_variable(ctx, name, pos),
        ExpressionView::Literal(value) => done(emit(ctx, Instruction::Constant(value))),
    }
}

/// The state after the arguments from `from` on are lowered, the first one first.
pub open spec fn emit_arguments(
    arguments: Seq<ExpressionView>,
    from: int,
    ctx: Context,
    functions: FunctionTable,
) -> Lowered
    decreases arguments, arguments.len() - from,
{
    if 0 <= from < arguments.len() {
        let first = emit_expression(arguments[from], ctx, functions);
        if first.result is Err {
            first
        } else {
            emit_arguments(arguments, from + 1, first.ctx, functions)
        }
    } else {
        done(ctx)
    }
}

/// The state after a call is lowered.
///
/// The caller pushes a slot for the return value, if there is one, then the
/// arguments from left to right; after the call it pops the arguments and, where
/// the value is not used, the slot.
pub open spec fn emit_call(
    call: CallView,
    ctx: Context,
    functions: FunctionTable,
    using_return_value: bool,
) -> Lowered
    decreases call, 0int,
{
    if !functions.contains_key(call.function_name) {
        rejected(ctx, call.function_name_ref, no_function_message(call.function_name))
    } else {
        let info = functions[call.function_name];
        if !info.returns_value && using_return_value {
            rejected(
                ctx,
                call.function_name_ref,
                "Cannot use a function that does not return a value within an expression"@,
            )
        } else if info.arg_count != call.arguments.len() {
            rejected(
                ctx,
                call.arguments_ref,
                wrong_argument_count_message(info.arg_count as nat, call.arguments.len()),
            )
        } else {
            let reserved = if info.returns_value {
                emit(ctx, Instruction::Constant(0i32))
            } else {
                ctx
            };
            let pushed = emit_arguments(call.arguments, 0, reserved, functions);
            if pushed.result is Err {
                pushed
            } else {
                let called = emit(pushed.ctx, Instruction::JumpSubRoutine(info.id));
                let popped = emit_pops(called, call.arguments.len() as int);
                if !using_return_value && info.returns_value {
                    done(emit(popped, Instruction::Pop))
                } else {
                    done(popped)
                }
            }
        }
    }
}

/// The index of the innermost loop scope among the first `count` scopes.
pub open spec fn innermost_loop(scopes: Seq<ScopeModel>, count: int) -> Option<int>
    decreases count,
{
    if count <= 0 || count > scopes.len() {
        None
    } else if scopes[count - 1].kind is While {
        Some(count - 1)
    } else {
        innermost_loop(scopes, count - 1)
    }
}

/// The scopes after the address `address` of a jump is noted in the loop scope at `index`.
pub open spec fn note_jump(scopes: Seq<ScopeModel>, index: int, is_continue: bool, address: int)
    -> Seq<ScopeModel> {
    match scopes[index].kind {
        ScopeKind::While { continue_addresses, break_addresses } => scopes.update(
            index,
            ScopeModel {
                kind: if is_continue {
                    ScopeKind::While {
                        continue_addresses: continue_addresses.push(address),
                        break_addresses,
                    }
                } else {
                    ScopeKind::While {
                        continue_addresses,
                        break_addresses: break_addresses.push(address),
                    }
                },
                ..scopes[index]
            },
        ),
        ScopeKind::Other => scopes,
    }
}

/// The state after `continue` or `break` is lowered: what the loop body has put
/// on the stack is popped, and a jump follows whose target the loop fills in.
pub open spec fn emit_loop_control_flow(ctx: Context, is_continue: bool, keyword_ref: FileRef)
    -> Lowered {
    match innermost_loop(ctx.scopes, ctx.scopes.len() as int) {
        Some(scope_idx) => {
            let noted = Context {
                scopes: note_jump(
                    ctx.scopes,
                    scope_idx,
                    is_continue,
                    ctx.instructions.len() as int + pops(
                        ctx.stack_size.wrapping_sub(
                            ctx.scopes[scope_idx].starting_stack_size,
                        ) as int,
                    ).len(),
                ),
                ..ctx
            };
            done(
                emit(prepare_for_premature_scope_end(noted, scope_idx), Instruction::Jump(-1i32)),
            )
        },
        None => rejected(
            ctx,
            keyword_ref,
            "Not in a loop scope - cannot use break or continue keywords"@,
        ),
    }
}

/// The state after a return is lowered: the whole frame is popped.
pub open spec fn emit_return(ctx: Context) -> Context {
    emit(prepare_for_premature_scope_end(ctx, 0), Instruction::Return)
}

/// The state after the block of a scope is lowered and the scope is closed
/// again, or the state in which lowering failed.
pub open spec fn emit_scoped_block(
    block: Seq<StatementView>,
    ctx: Context,
    functions: FunctionTable,
    kind: ScopeKind,
) -> (Lowered, ScopeKind)
    decreases block, block.len() + 1,
{
    let body = emit_block(block, 0, open_scope(ctx, kind), seq![], functions);
    if body.result is Err {
        (body, ScopeKind::Other)
    } else {
        let (closed, kind) = end_scope(body.ctx);
        (done(closed), kind)
    }
}

/// The state after the statements from `from` on are lowered. A statement that
/// fails does not stop the ones after it; `errors` holds the diagnostics so far.
pub open spec fn emit_block(
    block: Seq<StatementView>,
    from: int,
    ctx: Context,
    errors: Seq<ErrorView>,
    functions: FunctionTable,
) -> Lowered
    decreases block, block.len() - from,
{
    if 0 <= from < block.len() {
        let first = emit_statement(block[from], ctx, functions);
        emit_block(
            block,
            from + 1,
            first.ctx,
            match first.result {
                Ok(_) => errors,
                Err(more) => errors + more,
            },
            functions,
        )
    } else if errors.len() == 0 {
        done(ctx)
    } else {
        Lowered { ctx, result: Err(errors) }
    }
}

/// The state after the segments of an `if` statement from `from` on are lowered,
/// and the places of the jumps that leave the chain.
///
/// Each segment tests its condition and jumps over its block if it is zero. A
/// block that is not the end of the chain is followed by a jump that leaves it.
pub open spec fn emit_segments(
    segments: Seq<IfSegmentView>,
    from: int,
    has_else: bool,
    ctx: Context,
    exits: Seq<int>,
    functions: FunctionTable,
) -> (Lowered, Seq<int>)
    decreases segments, segments.len() - from,
{
    if 0 <= from < segments.len() {
        let tested = emit_expression(segments[from].condition, ctx, functions);
        if tested.result is Err {
            (tested, exits)
        } else {
            let jump_inst_idx = tested.ctx.instructions.len() as int;
            let (body, _) = emit_scoped_block(
                segments[from].block,
                emit(tested.ctx, Instruction::JumpIfZero(-1i32)),
                functions,
                ScopeKind::Other,
            );
            if body.result is Err {
                (body, exits)
            } else {
                let is_last = from + 1 == segments.len();
                let left = if !is_last || has_else {
                    emit(body.ctx, Instruction::Jump(-1i32))
                } else {
                    body.ctx
                };
                let exits = if !is_last || has_else {
                    exits.push(body.ctx.instructions.len() as int)
                } else {
                    exits
                };
                emit_segments(
                    segments,
                    from + 1,
                    has_else,
                    patch(left, jump_inst_idx, Instruction::JumpIfZero(next_address(left))),
                    exits,
                    functions,
                )
            }
        }
    } else {
        (done(ctx), exits)
    }
}

/// The state after an assignment is lowered. The first assignment to a name that
/// is no signal's declares it: the value stays on the stack and becomes the
/// variable. A later one saves the value to the variable. An assignment to a
/// signal saves the value to it, and is rejected at the name where there is no
/// such signal.
pub open spec fn emit_assignment(
    variable_name: Seq<char>,
    variable_name_ref: FileRef,
    value: ExpressionView,
    ctx: Context,
    functions: FunctionTable,
) -> Lowered {
    let valued = emit_expression(value, ctx, functions);
    if valued.result is Err {
        valued
    } else {
        let saved = save_to_variable(valued.ctx, variable_name, variable_name_ref);
        if saved.result is Err && !is_signal_name(variable_name) {
            done(add_variable(valued.ctx, variable_name))
        } else {
            saved
        }
    }
}

/// The state after an `if` statement is lowered: the segments, the `else` block
/// if there is one, and then the jumps that leave the chain get the address
/// behind it.
pub open spec fn emit_if(statement: StatementView, ctx: Context, functions: FunctionTable)
    -> Lowered
    decreases statement, 0int,
{
    match statement {
        StatementView::If { segments, else_block } => {
            let (chain, exits) = emit_segments(
                segments,
                0,
                else_block is Some,
                ctx,
                seq![],
                functions,
            );
            if chain.result is Err {
                chain
            } else {
                let last = match else_block {
                    Some(block) => emit_scoped_block(
                        block,
                        chain.ctx,
                        functions,
                        ScopeKind::Other,
                    ).0,
                    None => chain,
                };
                if last.result is Err {
                    last
                } else {
                    done(
                        patch_all(
                            last.ctx,
                            exits,
                            0,
                            Instruction::Jump(next_address(last.ctx)),
                        ),
                    )
                }
            }
        },
        _ => done(ctx),
    }
}

/// The state after a `while` statement is lowered: a jump to the test, the body,
/// the test, and a jump back to the body if the test is not zero. The jumps of
/// `continue` get the address of the test, those of `break` the address behind
/// the loop.
pub open spec fn emit_while(
    condition: ExpressionView,
    block: Seq<StatementView>,
    ctx: Context,
    functions: FunctionTable,
) -> Lowered
    decreases block, block.len() + 2,
{
    let uncond_jump_idx = ctx.instructions.len() as int;
    let (body, kind) = emit_scoped_block(
        block,
        emit(ctx, Instruction::Jump(-1i32)),
        functions,
        ScopeKind::While { continue_addresses: seq![], break_addresses: seq![] },
    );
    if body.result is Err {
        body
    } else {
        let (continue_addresses, break_addresses) = match kind {
            ScopeKind::While { continue_addresses, break_addresses } => (
                continue_addresses,
                break_addresses,
            ),
            ScopeKind::Other => (seq![], seq![]),
        };
        let continue_instruction = Instruction::Jump(next_address(body.ctx));
        let entered = patch_all(
            patch(body.ctx, uncond_jump_idx, continue_instruction),
            continue_addresses,
            0,
            continue_instruction,
        );
        let tested = emit_expression(condition, entered, functions);
        if tested.result is Err {
            tested
        } else {
            let looped = emit(
                tested.ctx,
                Instruction::JumpIfNonZero((uncond_jump_idx as i32).wrapping_add(2)),
            );
            done(patch_all(looped, break_addresses, 0, Instruction::Jump(next_address(looped))))
        }
    }
}

/// The state after `return` with a value is lowered: the value is saved to the
/// slot that the caller reserved, and the frame is popped.
pub open spec fn emit_return_value(
    value: ExpressionView,
    value_ref: FileRef,
    ctx: Context,
    functions: FunctionTable,
) -> Lowered {
    match ctx.return_value_save_offset {
        Some(offset) => {
            let valued = emit_expression(value, ctx, functions);
            if valued.result is Err {
                valued
            } else {
                done(
                    emit_return(
                        emit(
                            valued.ctx,
                            Instruction::Save(valued.ctx.stack_size.wrapping_sub(offset)),
                        ),
                    ),
                )
            }
        },
        None => rejected(ctx, value_ref, "Cannot return a value from this function"@),
    }
}

/// The state after a statement is lowered.
pub open spec fn emit_statement(statement: StatementView, ctx: Context, functions: FunctionTable)
    -> Lowered
    decreases statement, 1int,
{
    match statement {
        StatementView::Assignment { variable_name, variable_name_ref, value } => emit_assignment(
            variable_name,
            variable_name_ref,
            value,
            ctx,
            functions,
        ),
        StatementView::If { .. } => emit_if(statement, ctx, functions),
        StatementView::While { condition, block } => emit_while(condition, block, ctx, functions),
        StatementView::Call(call) => emit_call(call, ctx, functions, false),
        StatementView::Return(position) => if ctx.return_value_save_offset is Some {
            rejected(ctx, position, "Must return a value from this function"@)
        } else {
            done(emit_return(ctx))
        },
        StatementView::ReturnValue { value, value_ref } => emit_return_value(
            value,
            value_ref,
            ctx,
            functions,
        ),
        StatementView::Continue(position) => emit_loop_control_flow(ctx, true, position),
        StatementView::Break(position) => emit_loop_control_flow(ctx, false, position),
    }
}

/// The offset of the first argument of a function with `count` parameters: the
/// arguments lie below the return address, which lies below the frame.
pub open spec fn arguments_start(count: nat) -> i32 {
    (-1i32).wrapping_sub(count as i32)
}

/// The variables that the first `count` parameters make: one slot each, from
/// `arguments_start` upwards.
pub open spec fn argument_variables(names: Seq<Seq<char>>, count: int) -> Map<Seq<char>, i32>
    decreases count,
{
    if count <= 0 || count > names.len() {
        Map::empty()
    } else {
        argument_variables(names, count - 1).insert(
            names[count - 1],
            arguments_start(names.len()).wrapping_add((count - 1) as i32),
        )
    }
}

/// The state in which the body of `function` is lowered.
pub open spec fn function_entry(function: FunctionView) -> Context {
    Context {
        instructions: seq![],
        stack_size: 0,
        scopes: seq![
            ScopeModel {
                vars: argument_variables(
                    function.argument_names,
                    function.argument_names.len() as int,
                ),
                starting_stack_size: 0,
                kind: ScopeKind::Other,
            },
        ],
        return_value_save_offset: if function.returns_value {
            Some(arguments_start(function.argument_names.len()).wrapping_sub(1))
        } else {
            None
        },
    }
}

/// The instructions with a closing `Return`, unless they end with one.
pub open spec fn with_final_return(ctx: Context) -> Context {
    if ctx.instructions.len() > 0 && ctx.instructions.last() == Instruction::Return {
        ctx
    } else {
        emit(ctx, Instruction::Return)
    }
}

/// The code of one function, with jump targets that count from its own start and
/// calls that name the function's id.
pub open spec fn compile_function(function: FunctionView, functions: FunctionTable) -> Result<
    Seq<Instruction>,
    Seq<ErrorView>,
> {
    let body = emit_block(function.block, 0, function_entry(function), seq![], functions);
    match body.result {
        Err(errors) => Err(errors),
        Ok(_) => Ok(with_final_return(end_scope(body.ctx).0).instructions),
    }
}

/// What is known of the function at `index` before it is linked.
pub open spec fn function_info(function: FunctionView, index: int) -> FunctionInfo {
    FunctionInfo {
        id: index as i32,
        arg_count: function.argument_names.len() as usize,
        returns_value: function.returns_value,
        start_offset: -1i32,
    }
}

/// The table of the first `count` functions, or the diagnostic for the first
/// function whose name an earlier one has.
pub open spec fn function_table(module: Seq<FunctionView>, count: int) -> Result<
    FunctionTable,
    Seq<ErrorView>,
>
    decreases count,
{
    if count <= 0 || count > module.len() {
        Ok(Map::empty())
    } else {
        match function_table(module, count - 1) {
            Err(errors) => Err(errors),
            Ok(table) => if table.contains_key(module[count - 1].name) {
                Err(
                    located(
                        module[count - 1].name_ref,
                        "A function with this name already exists - overloading is not supported"@,
                    ),
                )
            } else {
                Ok(table.insert(module[count - 1].name, function_info(module[count - 1], count - 1)))
            },
        }
    }
}

/// The code of each function that compiles, and the diagnostics of the others.
pub struct Compiled {
    pub codes: Seq<Seq<Instruction>>,
    pub errors: Seq<ErrorView>,
}

/// The functions from `from` on compiled one by one, after those in `so_far`.
pub open spec fn compile_functions(
    module: Seq<FunctionView>,
    from: int,
    functions: FunctionTable,
    so_far: Compiled,
) -> Compiled
    decreases module.len() - from,
{
    if 0 <= from < module.len() {
        compile_functions(
            module,
            from + 1,
            functions,
            match compile_function(module[from], functions) {
                Ok(code) => Compiled { codes: so_far.codes.push(code), ..so_far },
                Err(errors) => Compiled { errors: so_far.errors + errors, ..so_far },
            },
        )
    } else {
        so_far
    }
}

/// The id of the entry point `main`, which takes no arguments and returns
/// nothing, or the diagnostic.
pub open spec fn entry_point(functions: FunctionTable) -> Result<i32, Seq<ErrorView>> {
    if functions.contains_key("main"@) {
        let main = functions["main"@];
        if main.returns_value {
            Err(unlocated("Entry point cannot return a value"@))
        } else if main.arg_count != 0 {
            Err(unlocated("Entry point must have no arguments"@))
        } else {
            Ok(main.id)
        }
    } else {
        Err(
            unlocated(
                "No entry point found: A zero-arg function returning void called main should be created"@,
            ),
        )
    }
}

/// An instruction of a function that is placed `offset` instructions into the
/// program: jumps within the function move with it.
pub open spec fn relocate(instruction: Instruction, offset: i32) -> Instruction {
    match instruction {
        Instruction::Jump(addr) => Instruction::Jump(addr.wrapping_add(offset)),
        Instruction::JumpIfZero(addr) => Instruction::JumpIfZero(addr.wrapping_add(offset)),
        Instruction::JumpIfNonZero(addr) => Instruction::JumpIfNonZero(addr.wrapping_add(offset)),
        _ => instruction,
    }
}

/// The code of a function placed `offset` instructions into the program.
pub open spec fn relocated(code: Seq<Instruction>, offset: i32) -> Seq<Instruction> {
    Seq::new(code.len(), |i: int| relocate(code[i], offset))
}

/// The two instructions before the first function: a call of `main`, and a jump
/// to the address -1, at which the machine halts.
pub open spec fn prologue(main_id: i32) -> Seq<Instruction> {
    seq![Instruction::JumpSubRoutine(main_id), Instruction::Jump(-1i32)]
}

/// The number of instructions that precede the code of the function at `index`.
pub open spec fn start_offset(codes: Seq<Seq<Instruction>>, index: int) -> int
    decreases index,
{
    if index <= 0 {
        2
    } else {
        start_offset(codes, index - 1) + codes[index - 1].len()
    }
}

/// The program up to and without the function at `count`: the prologue and the
/// code of each earlier function, placed one behind the other.
pub open spec fn placed(codes: Seq<Seq<Instruction>>, main_id: i32, count: int) -> Seq<
    Instruction,
>
    decreases count,
{
    if count <= 0 {
        prologue(main_id)
    } else {
        placed(codes, main_id, count - 1) + relocated(
            codes[count - 1],
            start_offset(codes, count - 1) as i32,
        )
    }
}

/// A call with the id of a function replaced by the address of its first instruction.
pub open spec fn resolve(instruction: Instruction, codes: Seq<Seq<Instruction>>) -> Instruction {
    match instruction {
        Instruction::JumpSubRoutine(id) => if 0 <= id < codes.len() {
            Instruction::JumpSubRoutine((start_offset(codes, id as int) as i32).wrapping_add(1))
        } else {
            instruction
        },
        _ => instruction,
    }
}

/// The linked program: the placed code with every call resolved.
pub open spec fn link(codes: Seq<Seq<Instruction>>, main_id: i32) -> Seq<Instruction> {
    let program = placed(codes, main_id, codes.len() as int);
    Seq::new(program.len(), |i: int| resolve(program[i], codes))
}

/// The program of a module, or the diagnostics.
pub open spec fn compile_module(module: Seq<FunctionView>) -> Result<
    Seq<Instruction>,
    Seq<ErrorView>,
> {
    match function_table(module, module.len() as int) {
        Err(errors) => Err(errors),
        Ok(functions) => {
            let compiled = compile_functions(
                module,
                0,
                functions,
                Compiled { codes: seq![], errors: seq![] },
            );
            if compiled.errors.len() > 0 {
                Err(compiled.errors)
            } else {
                match entry_point(functions) {
                    Err(errors) => Err(errors),
                    Ok(main_id) => Ok(link(compiled.codes, main_id)),
                }
            }
        },
    }
}

} // verus!
