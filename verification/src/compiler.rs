//! Compiles the syntax tree into the code of the stack machine.

use vstd::hash_map::StringHashMap;
use vstd::prelude::*;
use crate::assembly::Instruction;
use crate::ast::{
    expressions_view, functions_view, names_view, segments_view, statements_view,
    BinaryOperator, Call, Expression, Function, IfSegment, Statement, UnaryOperator,
};
use crate::error_handling::{
    append_errors, error_at, errors_view, located, untagged_error, CompileErrors, CompileResult,
    ErrorView, FileRef, FileTaggedError,
};
use crate::lowering;
use crate::lowering::{
    Compiled, Context, FunctionInfo, FunctionTable, Lowered, ScopeKind, ScopeModel, SIGNAL_COUNT,
};
use crate::text::{chars_of, matches_word, parse_i32, push_decimal, push_str};

verus! {

/// Keeps track of information in a particular scope.
enum ScopeState {
    /// The places of the `continue` and `break` jumps of a loop, which get the
    /// correct address once it is known.
    While { continue_inst_addresses: Vec<usize>, break_inst_addresses: Vec<usize> },
    Other,
}

/// Each scope pops off its local variables when it exits.
struct Scope {
    /// The variables in the scope, as an offset from the bottom of the stack;
    /// `0` is the first local variable.
    scope_vars: StringHashMap<i32>,
    /// The stack size before the scope was opened.
    starting_stack_size: i32,
    scope_type: ScopeState,
}

/// Keeps track of the state of compilation within a particular function.
struct CompileCtx<'a> {
    instructions: Vec<Instruction>,
    /// The current size of the stack. `Load` and `Save` are relative to the top
    /// of the stack, so that stack values can serve as local variables.
    stack_size: i32,
    /// The scopes that are currently open, from outermost first to innermost last.
    scopes: Vec<Scope>,
    /// The offset of the return value from the bottom of the stack of this function.
    return_value_save_offset: Option<i32>,
    function_ids_in_module: &'a StringHashMap<FunctionInfo>,
}

spec fn addresses_view(addresses: Seq<usize>) -> Seq<int> {
    addresses.map_values(|a: usize| a as int)
}

impl ScopeState {
    spec fn view(&self) -> ScopeKind {
        match self {
            ScopeState::While { continue_inst_addresses, break_inst_addresses } => {
                ScopeKind::While {
                    continue_addresses: addresses_view(continue_inst_addresses@),
                    break_addresses: addresses_view(break_inst_addresses@),
                }
            },
            ScopeState::Other => ScopeKind::Other,
        }
    }
}

impl Scope {
    spec fn view(&self) -> ScopeModel {
        ScopeModel {
            vars: self.scope_vars@,
            starting_stack_size: self.starting_stack_size,
            kind: self.scope_type@,
        }
    }
}

spec fn scopes_view(scopes: Seq<Scope>) -> Seq<ScopeModel> {
    scopes.map_values(|s: Scope| s@)
}

/// The state and the result of a step, as the model has them.
spec fn step(ctx: Context, r: CompileResult<()>) -> Lowered {
    Lowered {
        ctx,
        result: match r {
            Ok(_) => Ok(()),
            Err(errors) => Err(errors@),
        },
    }
}

impl<'a> CompileCtx<'a> {
    spec fn view(&self) -> Context {
        Context {
            instructions: self.instructions@,
            stack_size: self.stack_size,
            scopes: scopes_view(self.scopes@),
            return_value_save_offset: self.return_value_save_offset,
        }
    }

    spec fn functions(&self) -> FunctionTable {
        self.function_ids_in_module@
    }

    /// Creates a new scope with the given state.
    fn open_scope(&mut self, scope_type: ScopeState)
        ensures
            final(self)@ == lowering::open_scope(old(self)@, scope_type@),
            final(self).functions() == old(self).functions(),
    {
        let scope = Scope {
            scope_type,
            scope_vars: StringHashMap::new(),
            starting_stack_size: self.stack_size,
        };
        assert(scopes_view(self.scopes@.push(scope)) =~= scopes_view(self.scopes@).push(scope@));
        self.scopes.push(scope);
    }

    /// Emits `count` times `Pop`.
    fn emit_pops(&mut self, count: usize)
        ensures
            final(self)@ == lowering::emit_pops(old(self)@, count as int),
            final(self).functions() == old(self).functions(),
    {
        let mut i: usize = 0;
        while i < count
            invariant
                i <= count,
                lowering::emit_pops(self@, count - i) == lowering::emit_pops(
                    old(self)@,
                    count as int,
                ),
                self.functions() == old(self).functions(),
            decreases count - i,
        {
            self.emit(Instruction::Pop);
            i += 1;
        }
    }

    /// Ends the current scope and returns its state.
    fn end_scope(&mut self) -> (scope_type: ScopeState)
        ensures
            (final(self)@, scope_type@) == lowering::end_scope(old(self)@),
            final(self).functions() == old(self).functions(),
    {
        let ghost before = self.scopes@;
        match self.scopes.pop() {
            Some(scope) => {
                assert(scopes_view(self.scopes@) =~= scopes_view(before).drop_last());
                assert(scopes_view(before).last() == scope@);
                let added = self.stack_size.wrapping_sub(scope.starting_stack_size);
                self.emit_pops(
                    if added > 0 {
                        added as usize
                    } else {
                        0
                    },
                );
                scope.scope_type
            },
            None => ScopeState::Other,
        }
    }

    /// Prepares for an early end to a scope, i.e. with a return, continue or
    /// break statement; `scope_idx` is the last scope that will be removed.
    ///
    /// Pops without modifying the tracked stack size, so that the instructions
    /// that follow still have the correct stack length.
    fn prepare_for_premature_scope_end(&mut self, scope_idx: usize)
        ensures
            final(self)@ == lowering::prepare_for_premature_scope_end(
                old(self)@,
                scope_idx as int,
            ),
            final(self).functions() == old(self).functions(),
    {
        if scope_idx < self.scopes.len() {
            let count = self.stack_size.wrapping_sub(self.scopes[scope_idx].starting_stack_size);
            let mut i: i32 = 0;
            while i < count
                invariant
                    0 <= i,
                    i <= count || count < 0,
                    count < 0 ==> i == 0,
                    self.instructions@ == old(self).instructions@ + lowering::pops(i as int),
                    self.stack_size == old(self).stack_size,
                    self.scopes == old(self).scopes,
                    self.return_value_save_offset == old(self).return_value_save_offset,
                    self.functions() == old(self).functions(),
                decreases count - i,
            {
                self.instructions.push(Instruction::Pop);
                i += 1;
                assert(self.instructions@ =~= old(self).instructions@ + lowering::pops(
                    i as int,
                ));
            }
            assert(lowering::pops(i as int) =~= lowering::pops(count as int));
        }
    }

    /// Writes `instruction` over the one at `index`.
    fn patch(&mut self, index: usize, instruction: Instruction)
        ensures
            final(self)@ == lowering::patch(old(self)@, index as int, instruction),
            final(self).functions() == old(self).functions(),
    {
        if index < self.instructions.len() {
            self.instructions.set(index, instruction);
        }
    }

    /// Writes `instruction` over each of those at `indices`.
    fn patch_all(&mut self, indices: &Vec<usize>, instruction: Instruction)
        ensures
            final(self)@ == lowering::patch_all(
                old(self)@,
                addresses_view(indices@),
                0,
                instruction,
            ),
            final(self).functions() == old(self).functions(),
    {
        let mut i: usize = 0;
        while i < indices.len()
            invariant
                i <= indices@.len(),
                lowering::patch_all(self@, addresses_view(indices@), i as int, instruction)
                    == lowering::patch_all(
                    old(self)@,
                    addresses_view(indices@),
                    0,
                    instruction,
                ),
                self.functions() == old(self).functions(),
            decreases indices@.len() - i,
        {
            self.patch(indices[i], instruction);
            i += 1;
        }
    }

    /// The address of the instruction that is emitted next.
    fn next_address(&self) -> (address: i32)
        ensures
            address == lowering::next_address(self@),
    {
        (#[verifier::truncate]
        (self.instructions.len() as i32)).wrapping_add(1)
    }

    fn emit(&mut self, instruction: Instruction)
        ensures
            final(self)@ == lowering::emit(old(self)@, instruction),
            final(self).functions() == old(self).functions(),
    {
        self.instructions.push(instruction);
        let effect: i32 = match instruction {
            Instruction::JumpIfNonZero(_) => -1,
            Instruction::JumpIfZero(_) => -1,
            Instruction::Save(_) => -1,
            Instruction::Load(_) => 1,
            Instruction::Constant(_) => 1,
            Instruction::Add => -1,
            Instruction::Subtract => -1,
            Instruction::Divide => -1,
            Instruction::Multiply => -1,
            Instruction::Power => -1,
            Instruction::Remainder => -1,
            Instruction::ShiftLeft => -1,
            Instruction::ShiftRight => -1,
            Instruction::And => -1,
            Instruction::Or => -1,
            Instruction::Xor => -1,
            Instruction::Equal => -1,
            Instruction::NotEqual => -1,
            Instruction::GreaterThan => -1,
            Instruction::LessThan => -1,
            Instruction::GreaterThanOrEqual => -1,
            Instruction::LessThanOrEqual => -1,
            Instruction::Pop => -1,
            _ => 0,
        };
        self.stack_size = self.stack_size.wrapping_add(effect);
    }

    fn get_variable_pos(&self, name: &str, name_ref: FileRef) -> (r: CompileResult<i32>)
        ensures
            match r {
                Ok(offset) => lowering::variable_pos(self@.scopes, name@, 0) == Some(offset),
                Err(errors) => lowering::variable_pos(self@.scopes, name@, 0) is None
                    && errors@ == located(name_ref, "No variable exists with this name"@),
            },
    {
        let mut i: usize = 0;
        while i < self.scopes.len()
            invariant
                i <= self.scopes@.len(),
                lowering::variable_pos(self@.scopes, name@, i as int) == lowering::variable_pos(
                    self@.scopes,
                    name@,
                    0,
                ),
            decreases self.scopes@.len() - i,
        {
            match self.scopes[i].scope_vars.get(name) {
                Some(offset) => {
                    return Ok(*offset);
                },
                None => {},
            }
            i += 1;
        }
        Err(error_at(name_ref, "No variable exists with this name".to_owned()))
    }

    fn get_variable_address(&self, name: &str, name_ref: FileRef, reading: bool) -> (r:
        CompileResult<i32>)
        ensures
            match r {
                Ok(address) => lowering::variable_address(self@, name@, reading) == Ok::<
                    i32,
                    Seq<char>,
                >(address),
                Err(errors) => match lowering::variable_address(self@, name@, reading) {
                    Ok(_) => false,
                    Err(msg) => errors@ == located(name_ref, msg),
                },
            },
    {
        let chars = chars_of(name);
        if chars.len() >= 7 && matches_word(&chars, 0, 7, "signal_") {
            let signal_number = match parse_i32(&chars, 7, chars.len()) {
                Some(num) => num,
                None => {
                    return Err(
                        error_at(name_ref, "Signal number must be a valid integer".to_owned()),
                    );
                },
            };

            if signal_number <= 0 || signal_number > SIGNAL_COUNT {
                Err(
                    error_at(
                        name_ref,
                        "Invalid signal number. Must be in range [0-5]".to_owned(),
                    ),
                )
            } else {
                Ok(
                    if reading {
                        -(SIGNAL_COUNT + signal_number)
                    } else {
                        -signal_number
                    },
                )
            }
        } else {
            match self.get_variable_pos(name, name_ref) {
                // Stack addresses are 1 indexed, 1 is the topmost value in the stack
                Ok(offset_from_bottom_of_stack) => Ok(
                    self.stack_size.wrapping_sub(offset_from_bottom_of_stack),
                ),
                Err(errors) => Err(errors),
            }
        }
    }

    fn save_to_variable(&mut self, name: &str, name_ref: FileRef) -> (r: CompileResult<()>)
        ensures
            step(final(self)@, r) == lowering::save_to_variable(old(self)@, name@, name_ref),
            final(self).functions() == old(self).functions(),
    {
        match self.get_variable_address(name, name_ref, false) {
            Ok(address) => {
                self.emit(Instruction::Save(address));
                Ok(())
            },
            Err(errors) => Err(errors),
        }
    }

    fn load_from_variable(&mut self, name: &str, name_ref: FileRef) -> (r: CompileResult<()>)
        ensures
            step(final(self)@, r) == lowering::load_from_variable(old(self)@, name@, name_ref),
            final(self).functions() == old(self).functions(),
    {
        match self.get_variable_address(name, name_ref, true) {
            Ok(address) => {
                self.emit(Instruction::Load(address));
                Ok(())
            },
            Err(errors) => Err(errors),
        }
    }

    fn add_variable(&mut self, name: String)
        ensures
            final(self)@ == lowering::add_variable(old(self)@, name@),
            final(self).functions() == old(self).functions(),
    {
        let ghost before = self.scopes@;
        match self.scopes.pop() {
            Some(scope) => {
                let mut scope = scope;
                let ghost model = scope@;
                scope.scope_vars.insert(name, self.stack_size.wrapping_sub(1));
                assert(scopes_view(before).last() == model);
                assert(scopes_view(self.scopes@.push(scope)) =~= scopes_view(
                    before,
                ).drop_last().push(scope@));
                self.scopes.push(scope);
            },
            None => {},
        }
    }
}

/// Whether `name` is the name of a signal.
fn names_signal(name: &str) -> (r: bool)
    ensures
        r == lowering::is_signal_name(name@),
{
    let chars = chars_of(name);
    chars.len() >= 7 && matches_word(&chars, 0, 7, "signal_")
}

fn binary_instruction(operator: BinaryOperator) -> (instruction: Instruction)
    ensures
        instruction == lowering::binary_instruction(operator),
{
    match operator {
        BinaryOperator::Add => Instruction::Add,
        BinaryOperator::Subtract => Instruction::Subtract,
        BinaryOperator::Multiply => Instruction::Multiply,
        BinaryOperator::Divide => Instruction::Divide,
        BinaryOperator::And => Instruction::And,
        BinaryOperator::Or => Instruction::Or,
        BinaryOperator::Xor => Instruction::Xor,
        BinaryOperator::ShiftLeft => Instruction::ShiftLeft,
        BinaryOperator::ShiftRight => Instruction::ShiftRight,
        BinaryOperator::Equals => Instruction::Equal,
        BinaryOperator::NotEquals => Instruction::NotEqual,
        BinaryOperator::GreaterThan => Instruction::GreaterThan,
        BinaryOperator::LessThan => Instruction::LessThan,
        BinaryOperator::GreaterThanOrEqual => Instruction::GreaterThanOrEqual,
        BinaryOperator::Remainder => Instruction::Remainder,
        BinaryOperator::LessThanOrEqual => Instruction::LessThanOrEqual,
        BinaryOperator::Power => Instruction::Power,
    }
}

fn no_function_error(call: &Call) -> (errors: CompileErrors)
    ensures
        errors@ == located(
            call.function_name_ref,
            lowering::no_function_message(call.function_name@),
        ),
{
    let mut msg = "No function exists with name ".to_owned();
    push_str(&mut msg, call.function_name.as_str());
    error_at(call.function_name_ref.clone(), msg)
}

fn wrong_argument_count_error(call: &Call, expected: usize) -> (errors: CompileErrors)
    ensures
        errors@ == located(
            call.arguments_ref,
            lowering::wrong_argument_count_message(expected as nat, call.arguments@.len()),
        ),
{
    let mut msg = "Wrong number of arguments, expected ".to_owned();
    push_decimal(&mut msg, expected as u64);
    push_str(&mut msg, ", got ");
    push_decimal(&mut msg, call.arguments.len() as u64);
    error_at(call.arguments_ref.clone(), msg)
}

#[verifier::loop_isolation(false)]
fn emit_call(call: &Call, ctx: &mut CompileCtx, using_return_value: bool) -> (r: CompileResult<
    (),
>)
    ensures
        step(final(ctx)@, r) == lowering::emit_call(
            call.view(),
            old(ctx)@,
            old(ctx).functions(),
            using_return_value,
        ),
        final(ctx).functions() == old(ctx).functions(),
    decreases call, 0int,
{
    let ghost functions = ctx.functions();
    let info = match ctx.function_ids_in_module.get(call.function_name.as_str()) {
        Some(info) => *info,
        None => {
            return Err(no_function_error(call));
        },
    };

    if !info.returns_value && using_return_value {
        return Err(
            error_at(
                call.function_name_ref.clone(),
                "Cannot use a function that does not return a value within an expression".to_owned(),
            ),
        );
    }
    if info.arg_count != call.arguments.len() {
        return Err(wrong_argument_count_error(call, info.arg_count));
    }
    if info.returns_value {
        ctx.emit(Instruction::Constant(0));  // Add space for the return value
    }
    let ghost reserved = ctx@;
    let ghost arguments = expressions_view(call.arguments@);
    proof {
        crate::ast::lemma_expressions_view(call.arguments@);
    }

    let arg_count = call.arguments.len();
    let mut i: usize = 0;
    while i < arg_count
        invariant
            i <= arg_count,
            arg_count == call.arguments@.len(),
            arguments == expressions_view(call.arguments@),
            arguments.len() == arg_count,
            forall|k: int| 0 <= k < arg_count ==> arguments[k] == call.arguments@[k].view(),
            ctx.functions() == functions,
            lowering::emit_arguments(arguments, i as int, ctx@, functions)
                == lowering::emit_arguments(arguments, 0, reserved, functions),
        decreases arg_count - i,
    {
        match emit_expression(&call.arguments[i], ctx) {
            Ok(_) => {},
            Err(errors) => {
                return Err(errors);
            },
        }
        i += 1;
    }

    // This is overwritten with the correct address in the linking stage.
    ctx.emit(Instruction::JumpSubRoutine(info.id));

    ctx.emit_pops(arg_count);

    // Get rid of return value if not needed
    if !using_return_value && info.returns_value {
        ctx.emit(Instruction::Pop);
    }
    Ok(())
}

fn emit_expression(expr: &Expression, ctx: &mut CompileCtx) -> (r: CompileResult<()>)
    ensures
        step(final(ctx)@, r) == lowering::emit_expression(
            expr.view(),
            old(ctx)@,
            old(ctx).functions(),
        ),
        final(ctx).functions() == old(ctx).functions(),
    decreases expr, 0int,
{
    match expr {
        Expression::Binary { left, right, operator } => {
            match emit_expression(right, ctx) {
                Ok(_) => {},
                Err(errors) => {
                    return Err(errors);
                },
            }
            match emit_expression(left, ctx) {
                Ok(_) => {},
                Err(errors) => {
                    return Err(errors);
                },
            }
            ctx.emit(binary_instruction(*operator));
            Ok(())
        },
        Expression::Unary { value, operator } => {
            match operator {
                UnaryOperator::Not => {
                    match emit_expression(value, ctx) {
                        Ok(_) => {},
                        Err(errors) => {
                            return Err(errors);
                        },
                    }
                    ctx.emit(Instruction::Not);
                    Ok(())
                },
                UnaryOperator::Negate => {
                    let inner: &Expression = value;
                    match inner {
                        Expression::Literal(literal) => {
                            ctx.emit(Instruction::Constant(0i32.wrapping_sub(*literal)));
                            Ok(())
                        },
                        _ => {
                            ctx.emit(Instruction::Constant(-1));
                            match emit_expression(value, ctx) {
                                Ok(_) => {},
                                Err(errors) => {
                                    return Err(errors);
                                },
                            }
                            ctx.emit(Instruction::Multiply);
                            Ok(())
                        },
                    }
                },
            }
        },
        Expression::Call(call) => emit_call(call, ctx, true),
        Expression::Variable { name, pos } => ctx.load_from_variable(name.as_str(), pos.clone()),
        Expression::Literal(value) => {
            ctx.emit(Instruction::Constant(*value));
            Ok(())
        },
    }
}

/// Notes the place `address` of a jump in the loop scope `scope`.
fn note_jump(scope: Scope, is_continue: bool, address: usize) -> (noted: Scope)
    ensures
        noted@ == (ScopeModel {
            kind: match scope@.kind {
                ScopeKind::While { continue_addresses, break_addresses } => if is_continue {
                    ScopeKind::While {
                        continue_addresses: continue_addresses.push(address as int),
                        break_addresses,
                    }
                } else {
                    ScopeKind::While {
                        continue_addresses,
                        break_addresses: break_addresses.push(address as int),
                    }
                },
                ScopeKind::Other => ScopeKind::Other,
            },
            ..scope@
        }),
{
    let Scope { scope_vars, starting_stack_size, scope_type } = scope;
    let scope_type = match scope_type {
        ScopeState::While { continue_inst_addresses, break_inst_addresses } => {
            let mut continue_inst_addresses = continue_inst_addresses;
            let mut break_inst_addresses = break_inst_addresses;
            if is_continue {
                assert(addresses_view(continue_inst_addresses@.push(address))
                    =~= addresses_view(continue_inst_addresses@).push(address as int));
                continue_inst_addresses.push(address);
            } else {
                assert(addresses_view(break_inst_addresses@.push(address)) =~= addresses_view(
                    break_inst_addresses@,
                ).push(address as int));
                break_inst_addresses.push(address);
            }
            ScopeState::While { continue_inst_addresses, break_inst_addresses }
        },
        ScopeState::Other => ScopeState::Other,
    };
    Scope { scope_vars, starting_stack_size, scope_type }
}

fn try_emit_loop_control_flow(is_continue: bool, keyword_ref: FileRef, ctx: &mut CompileCtx) -> (r:
    CompileResult<()>)
    ensures
        step(final(ctx)@, r) == lowering::emit_loop_control_flow(
            old(ctx)@,
            is_continue,
            keyword_ref,
        ),
        final(ctx).functions() == old(ctx).functions(),
{
    // Find the first while loop
    let mut count: usize = ctx.scopes.len();
    while count > 0
        invariant
            count <= ctx.scopes@.len(),
            *ctx == *old(ctx),
            lowering::innermost_loop(ctx@.scopes, count as int) == lowering::innermost_loop(
                ctx@.scopes,
                ctx@.scopes.len() as int,
            ),
        decreases count,
    {
        let scope_idx = count - 1;
        let is_loop = match &ctx.scopes[scope_idx].scope_type {
            ScopeState::While { .. } => true,
            ScopeState::Other => false,
        };
        if is_loop {
            let ghost before = ctx@;
            ctx.prepare_for_premature_scope_end(scope_idx);
            // The place of the jump that is emitted next.
            let address = ctx.instructions.len();
            let ghost scopes = ctx.scopes@;
            let scope = ctx.scopes.remove(scope_idx);
            let noted = note_jump(scope, is_continue, address);
            proof {
                assert(scopes_view(scopes)[scope_idx as int] == scope@);
                assert(scopes_view(ctx.scopes@.insert(scope_idx as int, noted))
                    =~= lowering::note_jump(
                    before.scopes,
                    scope_idx as int,
                    is_continue,
                    address as int,
                ));
            }
            ctx.scopes.insert(scope_idx, noted);
            ctx.emit(Instruction::Jump(-1));
            return Ok(());
        }
        count -= 1;
    }
    Err(
        error_at(
            keyword_ref,
            "Not in a loop scope - cannot use break or continue keywords".to_owned(),
        ),
    )
}

fn emit_return(ctx: &mut CompileCtx)
    ensures
        final(ctx)@ == lowering::emit_return(old(ctx)@),
        final(ctx).functions() == old(ctx).functions(),
{
    ctx.prepare_for_premature_scope_end(0);
    ctx.emit(Instruction::Return);
}

/// Lowers a block in a scope of its own. After an error the scope stays open.
fn emit_scoped_block(block: &Vec<Statement>, ctx: &mut CompileCtx, scope_type: ScopeState) -> (r:
    (CompileResult<()>, ScopeState))
    ensures
        (step(final(ctx)@, r.0), r.1@) == lowering::emit_scoped_block(
            statements_view(block@),
            old(ctx)@,
            old(ctx).functions(),
            scope_type@,
        ),
        final(ctx).functions() == old(ctx).functions(),
    decreases block, 1int,
{
    ctx.open_scope(scope_type);
    match emit_block(block, ctx) {
        Ok(_) => {},
        Err(errors) => {
            return (Err(errors), ScopeState::Other);
        },
    }
    let closed = ctx.end_scope();
    (Ok(()), closed)
}

#[verifier::loop_isolation(false)]
fn emit_block(block: &Vec<Statement>, ctx: &mut CompileCtx) -> (r: CompileResult<()>)
    ensures
        step(final(ctx)@, r) == lowering::emit_block(
            statements_view(block@),
            0,
            old(ctx)@,
            seq![],
            old(ctx).functions(),
        ),
        final(ctx).functions() == old(ctx).functions(),
    decreases block, 0int,
{
    let ghost functions = ctx.functions();
    let ghost statements = statements_view(block@);
    let mut errors: Vec<FileTaggedError> = Vec::new();
    assert(errors_view(errors@) =~= Seq::empty());

    let mut i: usize = 0;
    while i < block.len()
        invariant
            i <= block@.len(),
            ctx.functions() == functions,
            lowering::emit_block(statements, i as int, ctx@, errors_view(errors@), functions)
                == lowering::emit_block(statements, 0, old(ctx)@, seq![], functions),
        decreases block@.len() - i,
    {
        assert(statements[i as int] == block@[i as int].view());
        match emit_statement(&block[i], ctx) {
            Ok(_) => {},
            Err(err) => {
                append_errors(&mut errors, err);
            },
        }
        i += 1;
    }

    if errors.len() == 0 {
        Ok(())
    } else {
        Err(CompileErrors(errors))
    }
}

/// Lowers the segments of an `if` statement; hands back the places of the jumps
/// that leave the chain.
#[verifier::loop_isolation(false)]
fn emit_segments(segments: &Vec<IfSegment>, has_else: bool, ctx: &mut CompileCtx) -> (r: (
    CompileResult<()>,
    Vec<usize>,
))
    ensures
        (step(final(ctx)@, r.0), addresses_view(r.1@)) == lowering::emit_segments(
            segments_view(segments@),
            0,
            has_else,
            old(ctx)@,
            seq![],
            old(ctx).functions(),
        ),
        final(ctx).functions() == old(ctx).functions(),
    decreases segments, 0int,
{
    let ghost functions = ctx.functions();
    let ghost views = segments_view(segments@);
    let mut skip_else_instruction_idxs: Vec<usize> = Vec::new();
    assert(addresses_view(skip_else_instruction_idxs@) =~= Seq::empty());

    let count = segments.len();
    let mut idx: usize = 0;
    while idx < count
        invariant
            idx <= count,
            count == segments@.len(),
            ctx.functions() == functions,
            lowering::emit_segments(
                views,
                idx as int,
                has_else,
                ctx@,
                addresses_view(skip_else_instruction_idxs@),
                functions,
            ) == lowering::emit_segments(views, 0, has_else, old(ctx)@, seq![], functions),
        decreases count - idx,
    {
        let segment = &segments[idx];
        assert(views[idx as int] == segment.view());
        let is_last = idx + 1 == count;

        match emit_expression(&segment.condition, ctx) {
            Ok(_) => {},
            Err(errors) => {
                return (Err(errors), skip_else_instruction_idxs);
            },
        }
        let jump_inst_idx = ctx.instructions.len();
        ctx.emit(Instruction::JumpIfZero(-1));  // The address is filled in below.

        match emit_scoped_block(&segment.block, ctx, ScopeState::Other).0 {
            Ok(_) => {},
            Err(errors) => {
                return (Err(errors), skip_else_instruction_idxs);
            },
        }

        // After each if segment, add an instruction to skip the rest of the chain.
        if !is_last || has_else {
            assert(addresses_view(skip_else_instruction_idxs@.push(ctx.instructions.len()))
                =~= addresses_view(skip_else_instruction_idxs@).push(
                ctx.instructions.len() as int,
            ));
            skip_else_instruction_idxs.push(ctx.instructions.len());
            ctx.emit(Instruction::Jump(-1));  // The address is filled in after the chain.
        }
        // Skip over the if block if the condition is false

        let target = ctx.next_address();
        ctx.patch(jump_inst_idx, Instruction::JumpIfZero(target));
        idx += 1;
    }
    (Ok(()), skip_else_instruction_idxs)
}

/// Lowers an `if` statement: the segments, the `else` block if there is one, and
/// the targets of the jumps that leave the chain.
fn emit_if_statement(statement: &Statement, ctx: &mut CompileCtx) -> (r: CompileResult<()>)
    requires
        statement is If,
    ensures
        step(final(ctx)@, r) == lowering::emit_if(
            statement.view(),
            old(ctx)@,
            old(ctx).functions(),
        ),
        final(ctx).functions() == old(ctx).functions(),
    decreases statement, 0int,
{
    match statement {
        Statement::If { segments, else_block } => {
            let (chain, skip_else_instruction_idxs) = emit_segments(
                segments,
                else_block.is_some(),
                ctx,
            );
            match chain {
                Ok(_) => {},
                Err(errors) => {
                    return Err(errors);
                },
            }
            match else_block {
                Some(block) => {
                    match emit_scoped_block(block, ctx, ScopeState::Other).0 {
                        Ok(_) => {},
                        Err(errors) => {
                            return Err(errors);
                        },
                    }
                },
                None => {},
            }
            let target = ctx.next_address();
            ctx.patch_all(&skip_else_instruction_idxs, Instruction::Jump(target));
            Ok(())
        },
        _ => Ok(()),
    }
}

fn emit_while_statement(condition: &Expression, block: &Vec<Statement>, ctx: &mut CompileCtx) -> (r:
    CompileResult<()>)
    ensures
        step(final(ctx)@, r) == lowering::emit_while(
            condition.view(),
            statements_view(block@),
            old(ctx)@,
            old(ctx).functions(),
        ),
        final(ctx).functions() == old(ctx).functions(),
    decreases block, 2int,
{
    // Unconditional jump to the test at the end of the loop
    let uncond_jump_idx = ctx.instructions.len();
    ctx.emit(Instruction::Jump(-1));  // The address is filled in below.

    let loop_scope = ScopeState::While {
        continue_inst_addresses: Vec::new(),
        break_inst_addresses: Vec::new(),
    };
    assert(loop_scope@ == (ScopeKind::While {
        continue_addresses: seq![],
        break_addresses: seq![],
    })) by {
        assert(addresses_view(Seq::<usize>::empty()) =~= Seq::<int>::empty());
    }
    let (body, scope_state) = emit_scoped_block(block, ctx, loop_scope);
    match body {
        Ok(_) => {},
        Err(errors) => {
            return Err(errors);
        },
    }

    let (continue_inst_addresses, break_inst_addresses) = match scope_state {
        ScopeState::While { continue_inst_addresses, break_inst_addresses } => (
            continue_inst_addresses,
            break_inst_addresses,
        ),
        ScopeState::Other => {
            assert(addresses_view(Seq::<usize>::empty()) =~= Seq::<int>::empty());
            (Vec::new(), Vec::new())
        },
    };

    let continue_instruction = Instruction::Jump(ctx.next_address());

    ctx.patch(uncond_jump_idx, continue_instruction);
    ctx.patch_all(&continue_inst_addresses, continue_instruction);

    match emit_expression(condition, ctx) {
        Ok(_) => {},
        Err(errors) => {
            return Err(errors);
        },
    }
    ctx.emit(
        Instruction::JumpIfNonZero(
            (#[verifier::truncate]
            (uncond_jump_idx as i32)).wrapping_add(2),
        ),
    );

    let break_instruction = Instruction::Jump(ctx.next_address());
    ctx.patch_all(&break_inst_addresses, break_instruction);

    Ok(())
}

fn emit_statement(statement: &Statement, ctx: &mut CompileCtx) -> (r: CompileResult<()>)
    ensures
        step(final(ctx)@, r) == lowering::emit_statement(
            statement.view(),
            old(ctx)@,
            old(ctx).functions(),
        ),
        final(ctx).functions() == old(ctx).functions(),
    decreases statement, 1int,
{
    match statement {
        Statement::Assignment { variable_name, value, variable_name_ref } => {
            match emit_expression(value, ctx) {
                Ok(_) => {},
                Err(errors) => {
                    return Err(errors);
                },
            }
            match ctx.save_to_variable(variable_name.as_str(), variable_name_ref.clone()) {
                Ok(_) => Ok(()),
                Err(errors) => if names_signal(variable_name.as_str()) {
                    Err(errors)
                } else {
                    ctx.add_variable(variable_name.clone());
                    Ok(())
                },
            }
        },
        Statement::If { .. } => emit_if_statement(statement, ctx),
        Statement::While { condition, block } => emit_while_statement(condition, block, ctx),
        Statement::Return(position) => if ctx.return_value_save_offset.is_some() {
            Err(error_at(position.clone(), "Must return a value from this function".to_owned()))
        } else {
            emit_return(ctx);
            Ok(())
        },
        Statement::ReturnValue { value, value_ref } => match ctx.return_value_save_offset {
            Some(offset) => {
                match emit_expression(value, ctx) {
                    Ok(_) => {},
                    Err(errors) => {
                        return Err(errors);
                    },
                }

                ctx.emit(Instruction::Save(ctx.stack_size.wrapping_sub(offset)));
                emit_return(ctx);
                Ok(())
            },
            None => Err(
                error_at(value_ref.clone(), "Cannot return a value from this function".to_owned()),
            ),
        },
        Statement::Continue(pos) => try_emit_loop_control_flow(true, pos.clone(), ctx),
        Statement::Break(pos) => try_emit_loop_control_flow(false, pos.clone(), ctx),
        Statement::Call(call) => emit_call(call, ctx, false),
    }
}

/// What a compilation hands back, with the instructions as a sequence.
pub open spec fn code_outcome(r: CompileResult<Vec<Instruction>>) -> Result<
    Seq<Instruction>,
    Seq<ErrorView>,
> {
    match r {
        Ok(code) => Ok(code@),
        Err(errors) => Err(errors@),
    }
}

spec fn codes_view(codes: Seq<Vec<Instruction>>) -> Seq<Seq<Instruction>> {
    codes.map_values(|code: Vec<Instruction>| code@)
}

/// Compiles one function. The calling convention is to push
/// - a space for the return value to end up,
/// - the arguments,
/// followed by a `JumpSubRoutine`, which pushes a return address. So the first
/// variable of the function has offset 0, the return address -1, the arguments
/// start below it, and the return value lies below them.
#[verifier::loop_isolation(false)]
fn compile_function(function: &Function, functions_in_module: &StringHashMap<FunctionInfo>) -> (r:
    CompileResult<Vec<Instruction>>)
    ensures
        code_outcome(r) == lowering::compile_function(function.view(), functions_in_module@),
{
    let mut scope_vars: StringHashMap<i32> = StringHashMap::new();
    let ghost names = names_view(function.argument_names@);

    let count = function.argument_names.len();
    let arguments_start = (-1i32).wrapping_sub(#[verifier::truncate] (count as i32));
    let mut idx: usize = 0;
    while idx < count
        invariant
            idx <= count,
            scope_vars@ == lowering::argument_variables(names, idx as int),
        decreases count - idx,
    {
        assert(names[idx as int] == function.argument_names@[idx as int]@);
        scope_vars.insert(
            function.argument_names[idx].clone(),
            arguments_start.wrapping_add(#[verifier::truncate] (idx as i32)),
        );
        idx += 1;
    }

    let mut scopes: Vec<Scope> = Vec::new();
    let outermost = Scope {
        scope_type: ScopeState::Other,
        starting_stack_size: 0,
        scope_vars,
    };
    scopes.push(outermost);
    assert(scopes_view(scopes@) =~= seq![outermost@]);
    let mut ctx = CompileCtx {
        instructions: Vec::new(),
        stack_size: 0,
        scopes,
        return_value_save_offset: if function.returns_value {
            Some(arguments_start.wrapping_sub(1))
        } else {
            None
        },
        function_ids_in_module: functions_in_module,
    };
    assert(ctx@ == lowering::function_entry(function.view()));

    match emit_block(&function.block, &mut ctx) {
        Ok(_) => {},
        Err(errors) => {
            return Err(errors);
        },
    }

    ctx.end_scope();
    let length = ctx.instructions.len();
    let ends_with_return = length > 0 && match ctx.instructions[length - 1] {
        Instruction::Return => true,
        _ => false,
    };
    if !ends_with_return {
        ctx.emit(Instruction::Return);
    }

    Ok(ctx.instructions)
}

fn relocate(instruction: Instruction, offset: i32) -> (moved: Instruction)
    ensures
        moved == lowering::relocate(instruction, offset),
{
    match instruction {
        Instruction::Jump(addr) => Instruction::Jump(addr.wrapping_add(offset)),
        Instruction::JumpIfZero(addr) => Instruction::JumpIfZero(addr.wrapping_add(offset)),
        Instruction::JumpIfNonZero(addr) => Instruction::JumpIfNonZero(addr.wrapping_add(offset)),
        _ => instruction,
    }
}

/// Writes all the functions one by one behind the prologue, offsetting the jump
/// instructions in each function by the start of that function. Hands back the
/// program and the start of each function.
#[verifier::loop_isolation(false)]
fn place_functions(compiled_funs: &Vec<Vec<Instruction>>, main_idx: i32) -> (r: (
    Vec<Instruction>,
    Vec<i32>,
))
    ensures
        r.0@ == lowering::placed(
            codes_view(compiled_funs@),
            main_idx,
            compiled_funs@.len() as int,
        ),
        r.1@.len() == compiled_funs@.len(),
        forall|k: int|
            0 <= k < r.1@.len() ==> #[trigger] r.1@[k] == lowering::start_offset(
                codes_view(compiled_funs@),
                k,
            ) as i32,
{
    let ghost codes = codes_view(compiled_funs@);
    let mut program: Vec<Instruction> = Vec::new();
    program.push(Instruction::JumpSubRoutine(main_idx));
    program.push(Instruction::Jump(-1));
    assert(program@ =~= lowering::prologue(main_idx));
    let mut start_offsets: Vec<i32> = Vec::new();

    let mut idx: usize = 0;
    while idx < compiled_funs.len()
        invariant
            idx <= compiled_funs@.len(),
            program@ == lowering::placed(codes, main_idx, idx as int),
            program@.len() == lowering::start_offset(codes, idx as int),
            start_offsets@.len() == idx,
            forall|k: int|
                0 <= k < idx ==> #[trigger] start_offsets@[k] == lowering::start_offset(
                    codes,
                    k,
                ) as i32,
        decreases compiled_funs@.len() - idx,
    {
        let offset = #[verifier::truncate]
        (program.len() as i32);
        start_offsets.push(offset);
        let code = &compiled_funs[idx];
        assert(codes[idx as int] == code@);
        let ghost before = program@;
        let ghost moved = lowering::relocated(code@, offset);

        let mut k: usize = 0;
        while k < code.len()
            invariant
                k <= code@.len(),
                program@ == before + moved.take(k as int),
            decreases code@.len() - k,
        {
            program.push(relocate(code[k], offset));
            k += 1;
            assert(program@ =~= before + moved.take(k as int));
        }
        assert(moved.take(code@.len() as int) =~= moved);
        idx += 1;
    }
    (program, start_offsets)
}

/// Overwrites the id in each `JumpSubRoutine` by the address at which the
/// function starts.
#[verifier::loop_isolation(false)]
fn resolve_calls(
    program: Vec<Instruction>,
    start_offsets: &Vec<i32>,
    Ghost(codes): Ghost<Seq<Seq<Instruction>>>,
) -> (resolved: Vec<Instruction>)
    requires
        start_offsets@.len() == codes.len(),
        forall|k: int|
            0 <= k < start_offsets@.len() ==> #[trigger] start_offsets@[k]
                == lowering::start_offset(codes, k) as i32,
    ensures
        resolved@ == Seq::new(program@.len(), |i: int| lowering::resolve(program@[i], codes)),
{
    let ghost unresolved = program@;
    let mut program = program;
    let mut i: usize = 0;
    while i < program.len()
        invariant
            i <= program@.len(),
            program@.len() == unresolved.len(),
            forall|j: int| 0 <= j < i ==> program@[j] == lowering::resolve(unresolved[j], codes),
            forall|j: int| i <= j < program@.len() ==> program@[j] == unresolved[j],
        decreases program@.len() - i,
    {
        match program[i] {
            Instruction::JumpSubRoutine(id) => {
                if 0 <= id && (id as usize) < start_offsets.len() {
                    program.set(
                        i,
                        Instruction::JumpSubRoutine(start_offsets[id as usize].wrapping_add(1)),
                    );
                }
            },
            _ => {},
        }
        i += 1;
    }
    assert(program@ =~= Seq::new(
        unresolved.len(),
        |i: int| lowering::resolve(unresolved[i], codes),
    ));
    program
}

/// Finds the entry point, which takes no arguments and returns nothing.
fn find_entry_point(functions_by_name: &StringHashMap<FunctionInfo>) -> (r: CompileResult<i32>)
    ensures
        match r {
            Ok(id) => lowering::entry_point(functions_by_name@) == Ok::<i32, Seq<ErrorView>>(id),
            Err(errors) => lowering::entry_point(functions_by_name@) == Err::<
                i32,
                Seq<ErrorView>,
            >(errors@),
        },
{
    match functions_by_name.get("main") {
        Some(main) => {
            if main.returns_value {
                return Err(untagged_error("Entry point cannot return a value".to_owned()));
            }
            if main.arg_count != 0 {
                return Err(untagged_error("Entry point must have no arguments".to_owned()));
            }
            Ok(main.id)
        },
        None => Err(
            untagged_error(
                "No entry point found: A zero-arg function returning void called main should be created".to_owned(),
            ),
        ),
    }
}

/// Compiles the functions of a module and links them into one program.
#[verifier::loop_isolation(false)]
pub fn compile_module(module: Vec<Function>) -> (r: CompileResult<Vec<Instruction>>)
    ensures
        code_outcome(r) == lowering::compile_module(functions_view(module@)),
        match r {
            Ok(program) => program@.len() >= 3 && program@[0] is JumpSubRoutine && program@[1]
                == Instruction::Jump(-1i32),
            Err(errors) => errors@.len() > 0,
        },
{
    let ghost functions = functions_view(module@);
    let mut functions_by_name: StringHashMap<FunctionInfo> = StringHashMap::new();
    let mut idx: usize = 0;
    while idx < module.len()
        invariant
            idx <= module@.len(),
            lowering::function_table(functions, idx as int) == Ok::<
                FunctionTable,
                Seq<ErrorView>,
            >(functions_by_name@),
        decreases module@.len() - idx,
    {
        let function = &module[idx];
        assert(functions[idx as int] == function.view());
        if functions_by_name.contains_key(function.name.as_str()) {
            proof {
                lemma_function_table_fails(functions, idx as int + 1, module@.len() as int);
            }
            return Err(
                error_at(
                    function.name_ref.clone(),
                    "A function with this name already exists - overloading is not supported".to_owned(),
                ),
            );
        }
        functions_by_name.insert(
            function.name.clone(),
            FunctionInfo {
                id: #[verifier::truncate]
                (idx as i32),
                arg_count: function.argument_names.len(),
                returns_value: function.returns_value,
                start_offset: -1,
            },
        );
        idx += 1;
    }

    let mut compiled_funs: Vec<Vec<Instruction>> = Vec::new();
    let mut errors: Vec<FileTaggedError> = Vec::new();
    assert(codes_view(compiled_funs@) =~= Seq::empty());
    assert(errors_view(errors@) =~= Seq::empty());
    let mut idx: usize = 0;
    while idx < module.len()
        invariant
            idx <= module@.len(),
            lowering::compile_functions(
                functions,
                idx as int,
                functions_by_name@,
                Compiled { codes: codes_view(compiled_funs@), errors: errors_view(errors@) },
            ) == lowering::compile_functions(
                functions,
                0,
                functions_by_name@,
                Compiled { codes: seq![], errors: seq![] },
            ),
        decreases module@.len() - idx,
    {
        assert(functions[idx as int] == module@[idx as int].view());
        match compile_function(&module[idx], &functions_by_name) {
            Ok(code) => {
                assert(codes_view(compiled_funs@.push(code)) =~= codes_view(
                    compiled_funs@,
                ).push(code@));
                compiled_funs.push(code);
            },
            Err(err) => {
                append_errors(&mut errors, err);
            },
        }
        idx += 1;
    }

    if errors.len() != 0 {
        return Err(CompileErrors(errors));
    }
    let main_idx = match find_entry_point(&functions_by_name) {
        Ok(id) => id,
        Err(errors) => {
            return Err(errors);
        },
    };

    // Now link it: write all functions one by one into a new array of
    // instructions, keep track of the start of each function, and overwrite the
    // `JumpSubRoutine` instructions with the address to jump to.
    let (program, start_offsets) = place_functions(&compiled_funs, main_idx);
    let program = resolve_calls(program, &start_offsets, Ghost(codes_view(compiled_funs@)));
    proof {
        crate::linking::lemma_program_prologue(functions, program@);
    }
    Ok(program)
}

/// Once the table fails for some number of functions, it fails for every larger number.
proof fn lemma_function_table_fails(module: Seq<crate::ast::FunctionView>, count: int, more: int)
    requires
        0 < count <= more <= module.len(),
        lowering::function_table(module, count) is Err,
    ensures
        lowering::function_table(module, more) == lowering::function_table(module, count),
    decreases more - count,
{
    if count < more {
        lemma_function_table_fails(module, count, more - 1);
    }
}

} // verus!
