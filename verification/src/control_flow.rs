//! What holds of the code of every function that compiles: the size of the stack
//! can be told for each instruction, it is zero at each `Return`, and each jump
//! lands in the function's code or just behind it.

use vstd::prelude::*;
use crate::assembly::Instruction;
use crate::ast::{CallView, ExpressionView, FunctionView, IfSegmentView, StatementView};
use crate::error_handling::{ErrorView, FileRef};
use crate::linking::{
    lemma_find_function, lemma_program_layout, module_codes, lemma_arguments_calls,
    lemma_block_calls, lemma_expression_calls, lemma_scoped_block_calls, lemma_segments_calls,
    lemma_statement_calls,
};
use crate::lowering::{
    compile_module, function_table, relocate, resolve, start_offset, add_variable,
    binary_instruction, compile_function, emit, emit_arguments, emit_block, emit_call,
    emit_expression, emit_if, emit_loop_control_flow, emit_pops, emit_return,
    emit_scoped_block, emit_segments, emit_statement, emit_while, end_scope, function_entry,
    innermost_loop, next_address, note_jump, open_scope, patch, patch_all, pops,
    prepare_for_premature_scope_end, save_to_variable, stack_effect, with_final_return,
    Context, FunctionTable, Lowered, ScopeKind, ScopeModel,
};

verus! {

/// The largest number of instructions of a function whose addresses fit 32 bits.
pub open spec fn code_limit() -> int {
    i32::MAX - 1
}

/// Whether the instruction is a jump within a function.
pub open spec fn is_jump(instruction: Instruction) -> bool {
    instruction is Jump || instruction is JumpIfZero || instruction is JumpIfNonZero
}

/// The address to which a jump goes.
pub open spec fn jump_target(instruction: Instruction) -> int {
    match instruction {
        Instruction::Jump(t) => t as int,
        Instruction::JumpIfZero(t) => t as int,
        Instruction::JumpIfNonZero(t) => t as int,
        _ => 0,
    }
}

/// Whether the stack sizes agree with what the instruction at `i` does, where
/// `depths[j]` is the size of the stack before the instruction at `j`, and
/// `depths[code.len()]` the size behind the last instruction.
///
/// The stack is empty at a `Return`. A jump lands where the stack has the size
/// that the jump leaves; a target of -1 stands for one that is not yet known. A
/// conditional jump takes the tested value off the stack on both ways. Behind any
/// other instruction the size is changed by the effect of the instruction.
pub open spec fn flows(code: Seq<Instruction>, depths: Seq<int>, i: int) -> bool {
    let here = depths[i];
    match code[i] {
        Instruction::Return => here == 0,
        Instruction::Jump(t) => t == -1 || (1 <= t <= code.len() + 1 && depths[t - 1] == here),
        Instruction::JumpIfZero(t) | Instruction::JumpIfNonZero(t) => depths[i + 1] == here - 1
            && (t == -1 || (1 <= t <= code.len() + 1 && depths[t - 1] == here - 1)),
        other => depths[i + 1] == here + stack_effect(other),
    }
}

/// Whether each of the noted places holds a jump that leaves the stack with the
/// size `start`.
pub open spec fn noted_jumps(code: Seq<Instruction>, depths: Seq<int>, places: Seq<int>, start: int)
    -> bool {
    forall|j: int|
        0 <= j < places.len() ==> 0 <= #[trigger] places[j] < code.len() && code[places[j]]
            is Jump && depths[places[j]] == start
}

/// Whether the jumps that a loop scope has noted leave the stack as the scope
/// found it.
pub open spec fn scope_jumps(code: Seq<Instruction>, depths: Seq<int>, scope: ScopeModel) -> bool {
    match scope.kind {
        ScopeKind::While { continue_addresses, break_addresses } => noted_jumps(
            code,
            depths,
            continue_addresses,
            scope.starting_stack_size as int,
        ) && noted_jumps(code, depths, break_addresses, scope.starting_stack_size as int),
        ScopeKind::Other => true,
    }
}

/// The state of compilation is sound: the tracked stack size is the size behind
/// the last instruction, the stack sizes agree with the instructions, and each
/// scope started at a size that the stack still has.
pub open spec fn good(ctx: Context, depths: Seq<int>) -> bool {
    let len = ctx.instructions.len();
    &&& len <= code_limit()
    &&& depths.len() == len + 1
    &&& depths[len as int] == ctx.stack_size
    &&& ctx.stack_size <= len
    &&& ctx.scopes.len() >= 1
    &&& ctx.scopes[0].starting_stack_size == 0
    &&& forall|k: int|
        0 <= k < ctx.scopes.len() ==> 0 <= (#[trigger] ctx.scopes[k]).starting_stack_size
            <= ctx.stack_size
    &&& forall|k: int, m: int|
        0 <= k <= m < ctx.scopes.len() ==> (#[trigger] ctx.scopes[k]).starting_stack_size <= (
        #[trigger] ctx.scopes[m]).starting_stack_size
    &&& forall|i: int| 0 <= i < len ==> #[trigger] flows(ctx.instructions, depths, i)
    &&& forall|i: int| 0 <= i <= len ==> #[trigger] depths[i] >= 0
    &&& forall|k: int|
        0 <= k < ctx.scopes.len() ==> scope_jumps(
            ctx.instructions,
            depths,
            #[trigger] ctx.scopes[k],
        )
}

/// The step from `ctx` to `out` keeps what was there: the instructions, their
/// stack sizes, and where the return value goes.
pub open spec fn extends(ctx: Context, depths: Seq<int>, out: Context, depths2: Seq<int>) -> bool {
    &&& out.instructions.len() >= ctx.instructions.len()
    &&& depths2.len() == out.instructions.len() + 1
    &&& out.return_value_save_offset == ctx.return_value_save_offset
    &&& forall|i: int|
        0 <= i < ctx.instructions.len() ==> #[trigger] out.instructions[i]
            == ctx.instructions[i]
    &&& forall|i: int| 0 <= i <= ctx.instructions.len() ==> #[trigger] depths2[i] == depths[i]
}

/// Whether the list `after` is `before` with places from `from` on appended.
pub open spec fn list_grows(before: Seq<int>, after: Seq<int>, from: int) -> bool {
    &&& before.len() <= after.len()
    &&& forall|j: int| 0 <= j < before.len() ==> #[trigger] after[j] == before[j]
    &&& forall|j: int| before.len() <= j < after.len() ==> #[trigger] after[j] >= from
}

/// Whether a scope is as before, but for places from `from` on that a loop has noted.
pub open spec fn kind_grows(before: ScopeKind, after: ScopeKind, from: int) -> bool {
    match (before, after) {
        (
            ScopeKind::While { continue_addresses: c0, break_addresses: b0 },
            ScopeKind::While { continue_addresses: c1, break_addresses: b1 },
        ) => list_grows(c0, c1, from) && list_grows(b0, b1, from),
        (ScopeKind::Other, ScopeKind::Other) => true,
        _ => false,
    }
}

/// The scopes are those of before: as many, started at the same sizes, and of
/// the same kinds, but for places from `from` on that loops have noted.
pub open spec fn scopes_kept(before: Seq<ScopeModel>, after: Seq<ScopeModel>, from: int) -> bool {
    &&& after.len() == before.len()
    &&& forall|k: int|
        0 <= k < before.len() ==> (#[trigger] after[k]).starting_stack_size
            == before[k].starting_stack_size && kind_grows(before[k].kind, after[k].kind, from)
}

/// Whether a scope has noted the place `i`.
pub open spec fn noted_in(kind: ScopeKind, i: int) -> bool {
    match kind {
        ScopeKind::While { continue_addresses, break_addresses } => continue_addresses.contains(i)
            || break_addresses.contains(i),
        ScopeKind::Other => false,
    }
}

/// Whether one of the scopes has noted the place `i`.
pub open spec fn noted(scopes: Seq<ScopeModel>, i: int) -> bool {
    exists|k: int| 0 <= k < scopes.len() && noted_in(#[trigger] scopes[k].kind, i)
}

/// Whether each jump in `code[from..to]` has its target, but for the jumps that
/// the scopes, the scope `left` or the list `exits` have noted.
pub open spec fn resolved(
    code: Seq<Instruction>,
    from: int,
    to: int,
    scopes: Seq<ScopeModel>,
    left: ScopeKind,
    exits: Seq<int>,
) -> bool {
    forall|i: int|
        from <= i < to && is_jump(#[trigger] code[i]) && jump_target(code[i]) == -1 ==> code[i]
            is Jump && (noted(scopes, i) || noted_in(left, i) || exits.contains(i))
}

/// Emitting an instruction whose own stack sizes agree keeps the state sound.
pub proof fn lemma_emit(ctx: Context, depths: Seq<int>, instruction: Instruction) -> (depths2: Seq<
    int,
>)
    requires
        good(ctx, depths),
        ctx.instructions.len() < code_limit(),
        ctx.stack_size + stack_effect(instruction) >= ctx.scopes.last().starting_stack_size,
        flows(
            ctx.instructions.push(instruction),
            depths.push(ctx.stack_size + stack_effect(instruction)),
            ctx.instructions.len() as int,
        ),
    ensures
        depths2 == depths.push(ctx.stack_size + stack_effect(instruction)),
        good(emit(ctx, instruction), depths2),
        extends(ctx, depths, emit(ctx, instruction), depths2),
        emit(ctx, instruction).stack_size == ctx.stack_size + stack_effect(instruction),
        emit(ctx, instruction).scopes == ctx.scopes,
        emit(ctx, instruction).instructions.len() == ctx.instructions.len() + 1,
{
    let out = emit(ctx, instruction);
    let depths2 = depths.push(ctx.stack_size + stack_effect(instruction));
    let len = ctx.instructions.len() as int;
    assert forall|i: int| 0 <= i < out.instructions.len() implies #[trigger] flows(
        out.instructions,
        depths2,
        i,
    ) by {
        if i < len {
            assert(flows(ctx.instructions, depths, i));
            assert(out.instructions[i] == ctx.instructions[i]);
        }
    }
    assert forall|k: int| 0 <= k < out.scopes.len() implies scope_jumps(
        out.instructions,
        depths2,
        #[trigger] out.scopes[k],
    ) by {
        assert(scope_jumps(ctx.instructions, depths, ctx.scopes[k]));
        lemma_scope_jumps_kept(ctx.instructions, depths, out.instructions, depths2, ctx.scopes[k]);
    }
    depths2
}

/// What a scope has noted stays in order when instructions are appended or a jump
/// gets another target.
pub proof fn lemma_scope_jumps_kept(
    code: Seq<Instruction>,
    depths: Seq<int>,
    code2: Seq<Instruction>,
    depths2: Seq<int>,
    scope: ScopeModel,
)
    requires
        scope_jumps(code, depths, scope),
        code2.len() >= code.len(),
        forall|i: int| 0 <= i < code.len() && code[i] is Jump ==> #[trigger] code2[i] is Jump,
        forall|i: int| 0 <= i < code.len() ==> #[trigger] depths2[i] == depths[i],
    ensures
        scope_jumps(code2, depths2, scope),
{
    match scope.kind {
        ScopeKind::While { continue_addresses, break_addresses } => {
            assert forall|j: int| 0 <= j < continue_addresses.len() implies 0
                <= #[trigger] continue_addresses[j] < code2.len()
                && code2[continue_addresses[j]] is Jump && depths2[continue_addresses[j]]
                == scope.starting_stack_size by {
                let a = continue_addresses[j];
                assert(code2[a] is Jump);
                assert(depths2[a] == depths[a]);
            }
            assert forall|j: int| 0 <= j < break_addresses.len() implies 0
                <= #[trigger] break_addresses[j] < code2.len() && code2[break_addresses[j]]
                is Jump && depths2[break_addresses[j]] == scope.starting_stack_size by {
                let a = break_addresses[j];
                assert(code2[a] is Jump);
                assert(depths2[a] == depths[a]);
            }
        },
        ScopeKind::Other => {},
    }
}

/// Emitting pops, down to no less than the innermost scope started with, keeps
/// the state sound.
pub proof fn lemma_emit_pops(ctx: Context, depths: Seq<int>, times: int) -> (depths2: Seq<int>)
    requires
        good(ctx, depths),
        times >= 0,
        ctx.instructions.len() + times <= code_limit(),
        ctx.stack_size - times >= ctx.scopes.last().starting_stack_size,
    ensures
        good(emit_pops(ctx, times), depths2),
        extends(ctx, depths, emit_pops(ctx, times), depths2),
        emit_pops(ctx, times).stack_size == ctx.stack_size - times,
        emit_pops(ctx, times).scopes == ctx.scopes,
        emit_pops(ctx, times).instructions.len() == ctx.instructions.len() + times,
        forall|i: int|
            ctx.instructions.len() <= i < emit_pops(ctx, times).instructions.len() ==> !is_jump(
                #[trigger] emit_pops(ctx, times).instructions[i],
            ),
    decreases times,
{
    if times <= 0 {
        depths
    } else {
        let d1 = lemma_emit(ctx, depths, Instruction::Pop);
        let next = emit(ctx, Instruction::Pop);
        let d2 = lemma_emit_pops(next, d1, times - 1);
        let out = emit_pops(ctx, times);
        assert forall|i: int| ctx.instructions.len() <= i < out.instructions.len() implies !is_jump(
            #[trigger] out.instructions[i],
        ) by {
            if i == ctx.instructions.len() {
                assert(out.instructions[i] == next.instructions[i]);
            }
        }
        d2
    }
}

/// The number of instructions after pops are emitted.
pub proof fn lemma_emit_pops_length(ctx: Context, times: int)
    ensures
        emit_pops(ctx, times).instructions.len() == ctx.instructions.len() + if times > 0 {
            times
        } else {
            0
        },
    decreases times,
{
    if times > 0 {
        lemma_emit_pops_length(emit(ctx, Instruction::Pop), times - 1);
    }
}

/// Replacing instructions changes nothing but instructions, and not their number.
pub proof fn lemma_patch_all_frame(ctx: Context, places: Seq<int>, from: int, instruction: Instruction)
    ensures
        patch_all(ctx, places, from, instruction).instructions.len() == ctx.instructions.len(),
        patch_all(ctx, places, from, instruction).stack_size == ctx.stack_size,
        patch_all(ctx, places, from, instruction).scopes == ctx.scopes,
        patch_all(ctx, places, from, instruction).return_value_save_offset
            == ctx.return_value_save_offset,
    decreases places.len() - from,
{
    if 0 <= from < places.len() {
        lemma_patch_all_frame(patch(ctx, places[from], instruction), places, from + 1, instruction);
    }
}

/// Giving a jump its target, where the stack has the size that the jump leaves,
/// keeps the state sound.
pub proof fn lemma_patch(ctx: Context, depths: Seq<int>, index: int, instruction: Instruction)
    requires
        good(ctx, depths),
        0 <= index < ctx.instructions.len(),
        is_jump(instruction),
        (instruction is Jump) == (ctx.instructions[index] is Jump),
        flows(ctx.instructions.update(index, instruction), depths, index),
    ensures
        good(patch(ctx, index, instruction), depths),
        patch(ctx, index, instruction).instructions == ctx.instructions.update(
            index,
            instruction,
        ),
{
    let out = patch(ctx, index, instruction);
    assert forall|i: int| 0 <= i < out.instructions.len() implies #[trigger] flows(
        out.instructions,
        depths,
        i,
    ) by {
        if i != index {
            assert(flows(ctx.instructions, depths, i));
        }
    }
    assert forall|k: int| 0 <= k < out.scopes.len() implies scope_jumps(
        out.instructions,
        depths,
        #[trigger] out.scopes[k],
    ) by {
        assert(scope_jumps(ctx.instructions, depths, ctx.scopes[k]));
        lemma_scope_jumps_kept(ctx.instructions, depths, out.instructions, depths, ctx.scopes[k]);
    }
}

/// Giving the noted jumps their target, where the stack has the size that they
/// leave, keeps the state sound. Nothing else changes.
pub proof fn lemma_patch_all(
    ctx: Context,
    depths: Seq<int>,
    places: Seq<int>,
    from: int,
    target: i32,
    start: int,
)
    requires
        good(ctx, depths),
        0 <= from,
        noted_jumps(ctx.instructions, depths, places, start),
        1 <= target <= ctx.instructions.len() + 1,
        depths[target - 1] == start,
    ensures
        good(patch_all(ctx, places, from, Instruction::Jump(target)), depths),
        forall|j: int|
            from <= j < places.len() ==> patch_all(
                ctx,
                places,
                from,
                Instruction::Jump(target),
            ).instructions[#[trigger] places[j]] == Instruction::Jump(target),
        forall|i: int|
            0 <= i < ctx.instructions.len() ==> #[trigger] patch_all(
                ctx,
                places,
                from,
                Instruction::Jump(target),
            ).instructions[i] == ctx.instructions[i] || (places.contains(i)
                && ctx.instructions[i] is Jump && patch_all(
                ctx,
                places,
                from,
                Instruction::Jump(target),
            ).instructions[i] == Instruction::Jump(target)),
    decreases places.len() - from,
{
    let jump = Instruction::Jump(target);
    lemma_patch_all_frame(ctx, places, from, jump);
    if from < places.len() {
        let a = places[from];
        assert(0 <= a < ctx.instructions.len() && ctx.instructions[a] is Jump && depths[a]
            == start);
        lemma_patch(ctx, depths, a, jump);
        let next = patch(ctx, a, jump);
        assert(noted_jumps(next.instructions, depths, places, start)) by {
            assert forall|j: int| 0 <= j < places.len() implies 0 <= #[trigger] places[j]
                < next.instructions.len() && next.instructions[places[j]] is Jump
                && depths[places[j]] == start by {
                assert(0 <= places[j] < ctx.instructions.len() && ctx.instructions[places[j]]
                    is Jump);
            }
        }
        lemma_patch_all(next, depths, places, from + 1, target, start);
        lemma_patch_all_frame(next, places, from + 1, jump);
        let out = patch_all(ctx, places, from, jump);
        assert(out == patch_all(next, places, from + 1, jump));
        assert forall|j: int| from <= j < places.len() implies out.instructions[#[trigger] places[j]]
            == jump by {
            if j == from {
                assert(out.instructions[a] == next.instructions[a] || out.instructions[a]
                    == jump);
            }
        }
    }
}

/// A step that leaves the scopes alone, emits no jump, and changes the size of
/// the stack by `delta`.
pub open spec fn pushes(ctx: Context, depths: Seq<int>, out: Context, depths2: Seq<int>, delta: int)
    -> bool {
    &&& good(out, depths2)
    &&& extends(ctx, depths, out, depths2)
    &&& out.scopes == ctx.scopes
    &&& out.stack_size == ctx.stack_size + delta
    &&& forall|i: int|
        ctx.instructions.len() <= i < out.instructions.len() ==> !is_jump(
            #[trigger] out.instructions[i],
        )
}

/// Two such steps in a row make one.
pub proof fn lemma_pushes_then(
    ctx: Context,
    depths: Seq<int>,
    mid: Context,
    depths1: Seq<int>,
    out: Context,
    depths2: Seq<int>,
    delta1: int,
    delta2: int,
)
    requires
        pushes(ctx, depths, mid, depths1, delta1),
        pushes(mid, depths1, out, depths2, delta2),
    ensures
        pushes(ctx, depths, out, depths2, delta1 + delta2),
{
    assert forall|i: int| 0 <= i < ctx.instructions.len() implies #[trigger] out.instructions[i]
        == ctx.instructions[i] by {
        assert(mid.instructions[i] == ctx.instructions[i]);
    }
    assert forall|i: int| 0 <= i <= ctx.instructions.len() implies #[trigger] depths2[i]
        == depths[i] by {
        assert(depths1[i] == depths[i]);
    }
    assert forall|i: int| ctx.instructions.len() <= i < out.instructions.len() implies !is_jump(
        #[trigger] out.instructions[i],
    ) by {
        if i < mid.instructions.len() {
            assert(out.instructions[i] == mid.instructions[i]);
        }
    }
}

/// Emitting an instruction that is neither a jump nor a return changes the size
/// of the stack by its effect.
pub proof fn lemma_emit_plain(ctx: Context, depths: Seq<int>, instruction: Instruction) -> (depths2:
    Seq<int>)
    requires
        good(ctx, depths),
        ctx.instructions.len() < code_limit(),
        !is_jump(instruction),
        !(instruction is Return),
        ctx.stack_size + stack_effect(instruction) >= ctx.scopes.last().starting_stack_size,
    ensures
        pushes(ctx, depths, emit(ctx, instruction), depths2, stack_effect(instruction) as int),
        emit(ctx, instruction).instructions.len() == ctx.instructions.len() + 1,
{
    lemma_emit(ctx, depths, instruction)
}

/// Lowering an expression that compiles leaves its value on the stack and keeps
/// the state sound.
pub proof fn lemma_expression_flow(
    expr: ExpressionView,
    ctx: Context,
    functions: FunctionTable,
    depths: Seq<int>,
) -> (depths2: Seq<int>)
    requires
        good(ctx, depths),
        emit_expression(expr, ctx, functions).result is Ok,
        emit_expression(expr, ctx, functions).ctx.instructions.len() <= code_limit(),
    ensures
        pushes(ctx, depths, emit_expression(expr, ctx, functions).ctx, depths2, 1),
        emit_expression(expr, ctx, functions).ctx.instructions.len() > ctx.instructions.len(),
    decreases expr, 0int,
{
    let out = emit_expression(expr, ctx, functions).ctx;
    match expr {
        ExpressionView::Binary { left, right, operator } => {
            let first = emit_expression(*right, ctx, functions);
            let second = emit_expression(*left, first.ctx, functions);
            lemma_expression_calls(*left, first.ctx, functions, 0);
            let d1 = lemma_expression_flow(*right, ctx, functions, depths);
            let d2 = lemma_expression_flow(*left, first.ctx, functions, d1);
            let d3 = lemma_emit_plain(second.ctx, d2, binary_instruction(operator));
            lemma_pushes_then(ctx, depths, first.ctx, d1, second.ctx, d2, 1, 1);
            lemma_pushes_then(ctx, depths, second.ctx, d2, out, d3, 2, -1);
            d3
        },
        ExpressionView::Unary { value, operator } => match operator {
            crate::ast::UnaryOperator::Not => {
                let inner = emit_expression(*value, ctx, functions);
                let d1 = lemma_expression_flow(*value, ctx, functions, depths);
                let d2 = lemma_emit_plain(inner.ctx, d1, Instruction::Not);
                lemma_pushes_then(ctx, depths, inner.ctx, d1, out, d2, 1, 0);
                d2
            },
            crate::ast::UnaryOperator::Negate => match *value {
                ExpressionView::Literal(literal) => lemma_emit_plain(
                    ctx,
                    depths,
                    Instruction::Constant(0i32.wrapping_sub(literal)),
                ),
                _ => {
                    let pushed = emit(ctx, Instruction::Constant(-1i32));
                    let inner = emit_expression(*value, pushed, functions);
                    lemma_expression_calls(*value, pushed, functions, 0);
                    let d1 = lemma_emit_plain(ctx, depths, Instruction::Constant(-1i32));
                    let d2 = lemma_expression_flow(*value, pushed, functions, d1);
                    let d3 = lemma_emit_plain(inner.ctx, d2, Instruction::Multiply);
                    lemma_pushes_then(ctx, depths, pushed, d1, inner.ctx, d2, 1, 1);
                    lemma_pushes_then(ctx, depths, inner.ctx, d2, out, d3, 2, -1);
                    d3
                },
            },
        },
        ExpressionView::Call(call) => lemma_call_flow(call, ctx, functions, true, depths),
        ExpressionView::Variable { name, pos } => {
            let address = crate::lowering::variable_address(ctx, name, true)->Ok_0;
            lemma_emit_plain(ctx, depths, Instruction::Load(address))
        },
        ExpressionView::Literal(value) => lemma_emit_plain(
            ctx,
            depths,
            Instruction::Constant(value),
        ),
    }
}

/// Lowering arguments that compile leaves their values on the stack and keeps the
/// state sound.
pub proof fn lemma_arguments_flow(
    arguments: Seq<ExpressionView>,
    from: int,
    ctx: Context,
    functions: FunctionTable,
    depths: Seq<int>,
) -> (depths2: Seq<int>)
    requires
        0 <= from <= arguments.len(),
        good(ctx, depths),
        emit_arguments(arguments, from, ctx, functions).result is Ok,
        emit_arguments(arguments, from, ctx, functions).ctx.instructions.len() <= code_limit(),
    ensures
        pushes(
            ctx,
            depths,
            emit_arguments(arguments, from, ctx, functions).ctx,
            depths2,
            arguments.len() - from,
        ),
    decreases arguments, arguments.len() - from,
{
    if from < arguments.len() {
        let first = emit_expression(arguments[from], ctx, functions);
        lemma_arguments_calls(arguments, from + 1, first.ctx, functions, 0);
        let d1 = lemma_expression_flow(arguments[from], ctx, functions, depths);
        let d2 = lemma_arguments_flow(arguments, from + 1, first.ctx, functions, d1);
        lemma_pushes_then(
            ctx,
            depths,
            first.ctx,
            d1,
            emit_arguments(arguments, from, ctx, functions).ctx,
            d2,
            1,
            arguments.len() - from - 1,
        );
        d2
    } else {
        depths
    }
}

/// Lowering a call that compiles leaves the value of the call on the stack, if it
/// is used, and nothing else; it keeps the state sound.
pub proof fn lemma_call_flow(
    call: CallView,
    ctx: Context,
    functions: FunctionTable,
    using_return_value: bool,
    depths: Seq<int>,
) -> (depths2: Seq<int>)
    requires
        good(ctx, depths),
        emit_call(call, ctx, functions, using_return_value).result is Ok,
        emit_call(call, ctx, functions, using_return_value).ctx.instructions.len()
            <= code_limit(),
    ensures
        pushes(
            ctx,
            depths,
            emit_call(call, ctx, functions, using_return_value).ctx,
            depths2,
            if using_return_value {
                1
            } else {
                0
            },
        ),
        emit_call(call, ctx, functions, using_return_value).ctx.instructions.len()
            > ctx.instructions.len(),
    decreases call, 0int,
{
    let out = emit_call(call, ctx, functions, using_return_value).ctx;
    let info = functions[call.function_name];
    let count = call.arguments.len() as int;
    let reserved = if info.returns_value {
        emit(ctx, Instruction::Constant(0i32))
    } else {
        ctx
    };
    let slot: int = if info.returns_value {
        1
    } else {
        0
    };
    let pushed = emit_arguments(call.arguments, 0, reserved, functions);
    let called = emit(pushed.ctx, Instruction::JumpSubRoutine(info.id));
    let popped = emit_pops(called, count);
    lemma_emit_pops_length(called, count);
    lemma_arguments_calls(call.arguments, 0, reserved, functions, 0);
    let d0 = if info.returns_value {
        lemma_emit_plain(ctx, depths, Instruction::Constant(0i32))
    } else {
        depths
    };
    assert(pushes(ctx, depths, reserved, d0, slot));
    let d1 = lemma_arguments_flow(call.arguments, 0, reserved, functions, d0);
    lemma_pushes_then(ctx, depths, reserved, d0, pushed.ctx, d1, slot, count);
    let d2 = lemma_emit_plain(pushed.ctx, d1, Instruction::JumpSubRoutine(info.id));
    lemma_pushes_then(ctx, depths, pushed.ctx, d1, called, d2, slot + count, 0);
    let d3 = lemma_emit_pops(called, d2, count);
    assert(pushes(called, d2, popped, d3, -count));
    lemma_pushes_then(ctx, depths, called, d2, popped, d3, slot + count, -count);
    if !using_return_value && info.returns_value {
        let d4 = lemma_emit_plain(popped, d3, Instruction::Pop);
        lemma_pushes_then(ctx, depths, popped, d3, out, d4, slot, -1);
        d4
    } else {
        d3
    }
}

/// Emitting pops appends them.
pub proof fn lemma_emit_pops_code(ctx: Context, times: int)
    ensures
        emit_pops(ctx, times).instructions == ctx.instructions + pops(times),
    decreases times,
{
    if times > 0 {
        lemma_emit_pops_code(emit(ctx, Instruction::Pop), times - 1);
        assert(ctx.instructions.push(Instruction::Pop) + pops(times - 1)
            =~= ctx.instructions + pops(times));
    } else {
        assert(ctx.instructions + pops(times) =~= ctx.instructions);
    }
}

/// The code of a call that compiles: a slot for the value, if the function
/// returns one; the arguments, from the first to the last; the call, by the id
/// of the function that the call names; one `Pop` for each argument; and, where
/// the function returns a value that is not used, one `Pop` for the slot. Behind
/// the call the stack holds the value, if it is used, and nothing else that it
/// did not hold before.
pub proof fn lemma_call_code(
    call: CallView,
    ctx: Context,
    functions: FunctionTable,
    using_return_value: bool,
    depths: Seq<int>,
)
    requires
        good(ctx, depths),
        emit_call(call, ctx, functions, using_return_value).result is Ok,
        emit_call(call, ctx, functions, using_return_value).ctx.instructions.len()
            <= code_limit(),
    ensures
        ({
            let out = emit_call(call, ctx, functions, using_return_value).ctx;
            let info = functions[call.function_name];
            let slot = if info.returns_value {
                seq![Instruction::Constant(0i32)]
            } else {
                seq![]
            };
            let reserved = if info.returns_value {
                emit(ctx, Instruction::Constant(0i32))
            } else {
                ctx
            };
            let pushed = emit_arguments(call.arguments, 0, reserved, functions).ctx;
            let unused = if info.returns_value && !using_return_value {
                seq![Instruction::Pop]
            } else {
                seq![]
            };
            &&& functions.contains_key(call.function_name)
            &&& info.arg_count == call.arguments.len()
            &&& using_return_value ==> info.returns_value
            &&& reserved.instructions == ctx.instructions + slot
            &&& pushed.instructions.len() >= reserved.instructions.len()
            &&& pushed.instructions.subrange(0, reserved.instructions.len() as int)
                == reserved.instructions
            &&& pushed.stack_size == reserved.stack_size + call.arguments.len()
            &&& out.instructions == pushed.instructions + seq![
                Instruction::JumpSubRoutine(info.id),
            ] + pops(call.arguments.len() as int) + unused
            &&& out.stack_size == ctx.stack_size + if using_return_value {
                1int
            } else {
                0int
            }
            &&& out.scopes == ctx.scopes
        }),
{
    let out = emit_call(call, ctx, functions, using_return_value).ctx;
    let info = functions[call.function_name];
    let count = call.arguments.len() as int;
    let reserved = if info.returns_value {
        emit(ctx, Instruction::Constant(0i32))
    } else {
        ctx
    };
    let pushed = emit_arguments(call.arguments, 0, reserved, functions);
    let called = emit(pushed.ctx, Instruction::JumpSubRoutine(info.id));
    let popped = emit_pops(called, count);
    lemma_call_flow(call, ctx, functions, using_return_value, depths);
    lemma_emit_pops_length(called, count);
    lemma_emit_pops_code(called, count);
    lemma_arguments_calls(call.arguments, 0, reserved, functions, 0);
    let d0 = if info.returns_value {
        lemma_emit_plain(ctx, depths, Instruction::Constant(0i32))
    } else {
        depths
    };
    let d1 = lemma_arguments_flow(call.arguments, 0, reserved, functions, d0);
    assert(pushed.ctx.instructions.subrange(0, reserved.instructions.len() as int)
        =~= reserved.instructions);
    if info.returns_value {
        assert(reserved.instructions =~= ctx.instructions + seq![Instruction::Constant(0i32)]);
    } else {
        assert(reserved.instructions =~= ctx.instructions + Seq::<Instruction>::empty());
    }
    if !using_return_value && info.returns_value {
        assert(out.instructions =~= pushed.ctx.instructions + seq![
            Instruction::JumpSubRoutine(info.id),
        ] + pops(count) + seq![Instruction::Pop]);
    } else {
        assert(out.instructions =~= pushed.ctx.instructions + seq![
            Instruction::JumpSubRoutine(info.id),
        ] + pops(count) + Seq::<Instruction>::empty());
    }
}

/// A list that grows keeps what it holds.
pub proof fn lemma_list_grows_contains(before: Seq<int>, after: Seq<int>, from: int, i: int)
    requires
        list_grows(before, after, from),
        before.contains(i),
    ensures
        after.contains(i),
{
    let j = choose|j: int| 0 <= j < before.len() && before[j] == i;
    assert(after[j] == i);
}

/// Scopes that are kept keep what they have noted.
pub proof fn lemma_noted_kept(before: Seq<ScopeModel>, after: Seq<ScopeModel>, from: int, i: int)
    requires
        scopes_kept(before, after, from),
        noted(before, i),
    ensures
        noted(after, i),
{
    let k = choose|k: int| 0 <= k < before.len() && noted_in(#[trigger] before[k].kind, i);
    assert(kind_grows(before[k].kind, after[k].kind, from));
    match (before[k].kind, after[k].kind) {
        (
            ScopeKind::While { continue_addresses: c0, break_addresses: b0 },
            ScopeKind::While { continue_addresses: c1, break_addresses: b1 },
        ) => {
            if c0.contains(i) {
                lemma_list_grows_contains(c0, c1, from, i);
            } else {
                lemma_list_grows_contains(b0, b1, from, i);
            }
        },
        _ => {},
    }
    assert(noted_in(after[k].kind, i));
}

/// Keeping scopes twice is keeping them.
pub proof fn lemma_scopes_kept_then(
    first: Seq<ScopeModel>,
    second: Seq<ScopeModel>,
    third: Seq<ScopeModel>,
    from: int,
    later: int,
)
    requires
        scopes_kept(first, second, from),
        scopes_kept(second, third, later),
        from <= later,
    ensures
        scopes_kept(first, third, from),
{
    assert forall|k: int| 0 <= k < first.len() implies (#[trigger] third[k]).starting_stack_size
        == first[k].starting_stack_size && kind_grows(first[k].kind, third[k].kind, from) by {
        assert(second[k].starting_stack_size == first[k].starting_stack_size);
        assert(kind_grows(first[k].kind, second[k].kind, from));
        assert(kind_grows(second[k].kind, third[k].kind, later));
        match (first[k].kind, second[k].kind, third[k].kind) {
            (
                ScopeKind::While { continue_addresses: c0, break_addresses: b0 },
                ScopeKind::While { continue_addresses: c1, break_addresses: b1 },
                ScopeKind::While { continue_addresses: c2, break_addresses: b2 },
            ) => {
                assert forall|j: int| 0 <= j < c0.len() implies #[trigger] c2[j] == c0[j] by {
                    assert(c1[j] == c0[j]);
                }
                assert forall|j: int| c0.len() <= j < c2.len() implies #[trigger] c2[j]
                    >= from by {
                    if j < c1.len() {
                        assert(c2[j] == c1[j]);
                    }
                }
                assert forall|j: int| 0 <= j < b0.len() implies #[trigger] b2[j] == b0[j] by {
                    assert(b1[j] == b0[j]);
                }
                assert forall|j: int| b0.len() <= j < b2.len() implies #[trigger] b2[j]
                    >= from by {
                    if j < b1.len() {
                        assert(b2[j] == b1[j]);
                    }
                }
            },
            _ => {},
        }
    }
}

/// Scopes that do not change are kept.
pub proof fn lemma_scopes_kept_same(scopes: Seq<ScopeModel>, from: int)
    ensures
        scopes_kept(scopes, scopes, from),
{
}

/// Jumps that had their target keep it when scopes note more, a list of exits
/// grows, and jumps get targets.
pub proof fn lemma_resolved_kept(
    code: Seq<Instruction>,
    code2: Seq<Instruction>,
    from: int,
    to: int,
    scopes: Seq<ScopeModel>,
    scopes2: Seq<ScopeModel>,
    grown_from: int,
    left: ScopeKind,
    exits: Seq<int>,
    exits2: Seq<int>,
)
    requires
        resolved(code, from, to, scopes, left, exits),
        scopes_kept(scopes, scopes2, grown_from),
        list_grows(exits, exits2, grown_from),
        forall|i: int|
            from <= i < to ==> #[trigger] code2[i] == code[i] || (is_jump(code2[i])
                && jump_target(code2[i]) != -1) || !is_jump(code2[i]),
    ensures
        resolved(code2, from, to, scopes2, left, exits2),
{
    assert forall|i: int|
        from <= i < to && is_jump(#[trigger] code2[i]) && jump_target(code2[i])
            == -1 implies code2[i] is Jump && (noted(scopes2, i) || noted_in(left, i)
        || exits2.contains(i)) by {
        assert(code2[i] == code[i]);
        if noted(scopes, i) {
            lemma_noted_kept(scopes, scopes2, grown_from, i);
        } else if exits.contains(i) {
            lemma_list_grows_contains(exits, exits2, grown_from, i);
        }
    }
}

/// A step that keeps the state sound and the scopes, does not shrink the stack,
/// and leaves no jump without target but those that a scope of the state, the
/// scope `left` or the list `exits` has noted.
pub open spec fn advances(
    ctx: Context,
    depths: Seq<int>,
    out: Context,
    depths2: Seq<int>,
    left: ScopeKind,
    exits: Seq<int>,
) -> bool {
    &&& good(out, depths2)
    &&& extends(ctx, depths, out, depths2)
    &&& scopes_kept(ctx.scopes, out.scopes, ctx.instructions.len() as int)
    &&& ctx.stack_size <= out.stack_size
    &&& resolved(
        out.instructions,
        ctx.instructions.len() as int,
        out.instructions.len() as int,
        out.scopes,
        left,
        exits,
    )
}

/// A step that emits no jump and does not shrink the stack advances.
pub proof fn lemma_pushes_advances(
    ctx: Context,
    depths: Seq<int>,
    out: Context,
    depths2: Seq<int>,
    delta: int,
)
    requires
        pushes(ctx, depths, out, depths2, delta),
        delta >= 0,
    ensures
        advances(ctx, depths, out, depths2, ScopeKind::Other, seq![]),
{
}

/// Keeping what was there twice is keeping it.
pub proof fn lemma_extends_then(
    ctx: Context,
    depths: Seq<int>,
    mid: Context,
    depths1: Seq<int>,
    out: Context,
    depths2: Seq<int>,
)
    requires
        extends(ctx, depths, mid, depths1),
        extends(mid, depths1, out, depths2),
    ensures
        extends(ctx, depths, out, depths2),
{
    assert forall|i: int| 0 <= i < ctx.instructions.len() implies #[trigger] out.instructions[i]
        == ctx.instructions[i] by {
        assert(mid.instructions[i] == ctx.instructions[i]);
    }
    assert forall|i: int| 0 <= i <= ctx.instructions.len() implies #[trigger] depths2[i]
        == depths[i] by {
        assert(depths1[i] == depths[i]);
    }
}

/// Two steps that advance make one that advances.
pub proof fn lemma_advances_then(
    ctx: Context,
    depths: Seq<int>,
    mid: Context,
    depths1: Seq<int>,
    out: Context,
    depths2: Seq<int>,
)
    requires
        advances(ctx, depths, mid, depths1, ScopeKind::Other, seq![]),
        advances(mid, depths1, out, depths2, ScopeKind::Other, seq![]),
    ensures
        advances(ctx, depths, out, depths2, ScopeKind::Other, seq![]),
{
    lemma_extends_then(ctx, depths, mid, depths1, out, depths2);
    lemma_scopes_kept_then(
        ctx.scopes,
        mid.scopes,
        out.scopes,
        ctx.instructions.len() as int,
        mid.instructions.len() as int,
    );
    lemma_resolved_kept(
        mid.instructions,
        out.instructions,
        ctx.instructions.len() as int,
        mid.instructions.len() as int,
        mid.scopes,
        out.scopes,
        mid.instructions.len() as int,
        ScopeKind::Other,
        seq![],
        seq![],
    );
}

/// A block compiles only if nothing was wrong before it.
pub proof fn lemma_block_clean(
    block: Seq<StatementView>,
    from: int,
    ctx: Context,
    errors: Seq<ErrorView>,
    functions: FunctionTable,
)
    requires
        emit_block(block, from, ctx, errors, functions).result is Ok,
    ensures
        errors.len() == 0,
    decreases block.len() - from,
{
    if 0 <= from < block.len() {
        let first = emit_statement(block[from], ctx, functions);
        lemma_block_clean(
            block,
            from + 1,
            first.ctx,
            match first.result {
                Ok(_) => errors,
                Err(more) => errors + more,
            },
            functions,
        );
    }
}

/// The innermost loop scope is a loop scope.
pub proof fn lemma_innermost_loop(scopes: Seq<ScopeModel>, count: int)
    requires
        0 <= count <= scopes.len(),
    ensures
        match innermost_loop(scopes, count) {
            Some(k) => 0 <= k < count && scopes[k].kind is While,
            None => true,
        },
    decreases count,
{
    if count > 0 && !(scopes[count - 1].kind is While) {
        lemma_innermost_loop(scopes, count - 1);
    }
}

/// Whether a loop scope is among the first `count` scopes.
pub open spec fn in_loop(scopes: Seq<ScopeModel>, count: int) -> bool {
    exists|k: int| 0 <= k < count && (#[trigger] scopes[k]).kind is While
}

/// A loop scope is found exactly where there is one.
pub proof fn lemma_loop_found(scopes: Seq<ScopeModel>, count: int)
    requires
        0 <= count <= scopes.len(),
    ensures
        innermost_loop(scopes, count) is Some <==> in_loop(scopes, count),
    decreases count,
{
    if count > 0 {
        if scopes[count - 1].kind is While {
            assert(in_loop(scopes, count));
        } else {
            lemma_loop_found(scopes, count - 1);
            if in_loop(scopes, count) {
                let k = choose|k: int| 0 <= k < count && (#[trigger] scopes[k]).kind is While;
                assert(k < count - 1);
                assert(in_loop(scopes, count - 1));
            }
        }
    }
}

/// `continue` and `break` are lowered exactly inside a loop. Outside every loop
/// each is rejected with one diagnostic at the keyword, and the state stays as
/// it is.
pub proof fn lemma_loop_control_needs_loop(
    ctx: Context,
    functions: FunctionTable,
    is_continue: bool,
    keyword_ref: FileRef,
)
    ensures
        emit_statement(StatementView::Continue(keyword_ref), ctx, functions)
            == emit_loop_control_flow(ctx, true, keyword_ref),
        emit_statement(StatementView::Break(keyword_ref), ctx, functions)
            == emit_loop_control_flow(ctx, false, keyword_ref),
        emit_loop_control_flow(ctx, is_continue, keyword_ref).result is Ok <==> in_loop(
            ctx.scopes,
            ctx.scopes.len() as int,
        ),
        !in_loop(ctx.scopes, ctx.scopes.len() as int) ==> emit_loop_control_flow(
            ctx,
            is_continue,
            keyword_ref,
        ) == (Lowered {
            ctx,
            result: Err(
                seq![
                    ErrorView {
                        position: Some(keyword_ref),
                        msg: "Not in a loop scope - cannot use break or continue keywords"@,
                    },
                ],
            ),
        }),
{
    lemma_loop_found(ctx.scopes, ctx.scopes.len() as int);
}

/// The stack sizes of the pops that leave scopes early and of the instruction
/// behind them: from `size` down by one for each pop; behind the last
/// instruction the size is `size` again, since what follows is not reached
/// this way.
pub open spec fn leaving(depths: Seq<int>, size: int, times: int) -> Seq<int> {
    depths + Seq::new(times as nat, |j: int| size - 1 - j) + seq![size]
}

/// Leaving the scopes from `scope_idx` on early, with pops and then a jump
/// without target or, from the outermost scope, a return, keeps the state sound.
#[verifier::rlimit(60)]
pub proof fn lemma_leave(ctx: Context, depths: Seq<int>, scope_idx: int, last: Instruction) -> (depths2:
    Seq<int>)
    requires
        good(ctx, depths),
        0 <= scope_idx < ctx.scopes.len(),
        last == Instruction::Jump(-1i32) || (last is Return && scope_idx == 0),
        emit(prepare_for_premature_scope_end(ctx, scope_idx), last).instructions.len()
            <= code_limit(),
    ensures
        good(emit(prepare_for_premature_scope_end(ctx, scope_idx), last), depths2),
        extends(
            ctx,
            depths,
            emit(prepare_for_premature_scope_end(ctx, scope_idx), last),
            depths2,
        ),
        emit(prepare_for_premature_scope_end(ctx, scope_idx), last).scopes == ctx.scopes,
        emit(prepare_for_premature_scope_end(ctx, scope_idx), last).stack_size
            == ctx.stack_size,
        ({
            let out = emit(prepare_for_premature_scope_end(ctx, scope_idx), last);
            let place = out.instructions.len() - 1;
            &&& place >= ctx.instructions.len()
            &&& out.instructions[place] == last
            &&& depths2[place] == ctx.scopes[scope_idx].starting_stack_size
            &&& forall|i: int|
                ctx.instructions.len() <= i < place ==> !is_jump(#[trigger] out.instructions[i])
        }),
{
    let start = ctx.scopes[scope_idx].starting_stack_size;
    let times = ctx.stack_size - start;
    let len = ctx.instructions.len() as int;
    let prepared = prepare_for_premature_scope_end(ctx, scope_idx);
    let out = emit(prepared, last);
    let depths2 = leaving(depths, ctx.stack_size as int, times);
    assert(ctx.stack_size.wrapping_sub(start) == times);
    assert(prepared.instructions =~= ctx.instructions + pops(times));
    assert(out.instructions.len() == len + times + 1);
    assert(forall|i: int| 0 <= i <= len ==> #[trigger] depths2[i] == depths[i]);
    assert(forall|i: int|
        len <= i <= len + times ==> #[trigger] depths2[i] == ctx.stack_size - (i - len));
    assert(depths2[len + times + 1] == ctx.stack_size);
    assert forall|i: int| 0 <= i < out.instructions.len() implies #[trigger] flows(
        out.instructions,
        depths2,
        i,
    ) by {
        if i < len {
            assert(flows(ctx.instructions, depths, i));
            assert(out.instructions[i] == ctx.instructions[i]);
            assert(depths2[i] == depths[i]);
            assert(depths2[i + 1] == depths[i + 1]);
            match ctx.instructions[i] {
                Instruction::Jump(t) => {
                    if t != -1 {
                        assert(depths2[t - 1] == depths[t - 1]);
                    }
                },
                Instruction::JumpIfZero(t) => {
                    if t != -1 {
                        assert(depths2[t - 1] == depths[t - 1]);
                    }
                },
                Instruction::JumpIfNonZero(t) => {
                    if t != -1 {
                        assert(depths2[t - 1] == depths[t - 1]);
                    }
                },
                _ => {},
            }
        } else if i < len + times {
            assert(out.instructions[i] == Instruction::Pop);
            assert(depths2[i] == ctx.stack_size - (i - len));
            assert(depths2[i + 1] == ctx.stack_size - (i + 1 - len));
        } else {
            assert(out.instructions[i] == last);
            assert(depths2[i] == ctx.stack_size - (i - len));
        }
    }
    assert forall|k: int| 0 <= k < out.scopes.len() implies scope_jumps(
        out.instructions,
        depths2,
        #[trigger] out.scopes[k],
    ) by {
        assert(scope_jumps(ctx.instructions, depths, ctx.scopes[k]));
        lemma_scope_jumps_kept(ctx.instructions, depths, out.instructions, depths2, ctx.scopes[k]);
    }
    assert forall|i: int| len <= i < len + times implies !is_jump(#[trigger] out.instructions[i]) by {
        assert(out.instructions[i] == Instruction::Pop);
    }
    depths2
}

/// Lowering `continue` or `break` in a loop keeps the state sound; the jump is
/// noted in the loop's scope.
#[verifier::rlimit(60)]
pub proof fn lemma_loop_control_flow(
    ctx: Context,
    depths: Seq<int>,
    is_continue: bool,
    keyword_ref: FileRef,
) -> (depths2: Seq<int>)
    requires
        good(ctx, depths),
        emit_loop_control_flow(ctx, is_continue, keyword_ref).result is Ok,
        emit_loop_control_flow(ctx, is_continue, keyword_ref).ctx.instructions.len()
            <= code_limit(),
    ensures
        advances(
            ctx,
            depths,
            emit_loop_control_flow(ctx, is_continue, keyword_ref).ctx,
            depths2,
            ScopeKind::Other,
            seq![],
        ),
{
    lemma_innermost_loop(ctx.scopes, ctx.scopes.len() as int);
    let k = innermost_loop(ctx.scopes, ctx.scopes.len() as int)->Some_0;
    let out = emit_loop_control_flow(ctx, is_continue, keyword_ref).ctx;
    let jump = Instruction::Jump(-1i32);
    let plain = emit(prepare_for_premature_scope_end(ctx, k), jump);
    let start = ctx.scopes[k].starting_stack_size;
    let times = ctx.stack_size - start;
    assert(ctx.stack_size.wrapping_sub(start) == times);
    let place = ctx.instructions.len() + times;
    assert(pops(times).len() == times);
    let scopes2 = note_jump(ctx.scopes, k, is_continue, place);
    assert(scopes2[k].starting_stack_size == start);
    assert(out.instructions == plain.instructions);
    assert(out.scopes == scopes2);
    let depths2 = lemma_leave(ctx, depths, k, jump);
    assert(plain.instructions.len() - 1 == place);
    assert forall|m: int| 0 <= m < out.scopes.len() implies scope_jumps(
        out.instructions,
        depths2,
        #[trigger] out.scopes[m],
    ) by {
        assert(scope_jumps(plain.instructions, depths2, plain.scopes[m]));
        if m == k {
            match ctx.scopes[k].kind {
                ScopeKind::While { continue_addresses, break_addresses } => {
                    let more = if is_continue {
                        continue_addresses.push(place)
                    } else {
                        break_addresses.push(place)
                    };
                    let old = if is_continue {
                        continue_addresses
                    } else {
                        break_addresses
                    };
                    assert forall|j: int| 0 <= j < more.len() implies 0 <= #[trigger] more[j]
                        < out.instructions.len() && out.instructions[more[j]] is Jump
                        && depths2[more[j]] == start by {
                        if j < old.len() {
                            assert(more[j] == old[j]);
                        }
                    }
                },
                ScopeKind::Other => {},
            }
        }
    }
    assert(scopes_kept(ctx.scopes, out.scopes, ctx.instructions.len() as int)) by {
        assert forall|m: int| 0 <= m < ctx.scopes.len() implies (
        #[trigger] out.scopes[m]).starting_stack_size == ctx.scopes[m].starting_stack_size
            && kind_grows(ctx.scopes[m].kind, out.scopes[m].kind, ctx.instructions.len() as int) by {
            if m != k {
                assert(out.scopes[m] == ctx.scopes[m]);
            }
        }
    }
    assert(noted(out.scopes, place)) by {
        match ctx.scopes[k].kind {
            ScopeKind::While { continue_addresses, break_addresses } => {
                if is_continue {
                    assert(continue_addresses.push(place).last() == place);
                } else {
                    assert(break_addresses.push(place).last() == place);
                }
            },
            ScopeKind::Other => {},
        }
        assert(noted_in(out.scopes[k].kind, place));
    }
    depths2
}

/// Lowering a return keeps the state sound: the stack is empty at the `Return`.
pub proof fn lemma_return_flow(ctx: Context, depths: Seq<int>) -> (depths2: Seq<int>)
    requires
        good(ctx, depths),
        emit_return(ctx).instructions.len() <= code_limit(),
    ensures
        advances(ctx, depths, emit_return(ctx), depths2, ScopeKind::Other, seq![]),
        emit_return(ctx).stack_size == ctx.stack_size,
{
    let depths2 = lemma_leave(ctx, depths, 0, Instruction::Return);
    lemma_scopes_kept_same(ctx.scopes, ctx.instructions.len() as int);
    depths2
}

/// Whether a scope has noted nothing yet.
pub open spec fn fresh(kind: ScopeKind) -> bool {
    match kind {
        ScopeKind::While { continue_addresses, break_addresses } => continue_addresses.len() == 0
            && break_addresses.len() == 0,
        ScopeKind::Other => true,
    }
}

/// Whether the jumps that a scope which was closed had noted leave the stack with
/// the size `start`.
pub open spec fn left_jumps(code: Seq<Instruction>, depths: Seq<int>, left: ScopeKind, start: int)
    -> bool {
    match left {
        ScopeKind::While { continue_addresses, break_addresses } => noted_jumps(
            code,
            depths,
            continue_addresses,
            start,
        ) && noted_jumps(code, depths, break_addresses, start),
        ScopeKind::Other => true,
    }
}

/// Lowering a block in a scope of its own keeps the state sound and leaves the
/// stack as it was. The jumps that the scope has noted are left to be resolved.
#[verifier::rlimit(60)]
pub proof fn lemma_scoped_block_flow(
    block: Seq<StatementView>,
    ctx: Context,
    functions: FunctionTable,
    kind: ScopeKind,
    depths: Seq<int>,
) -> (depths2: Seq<int>)
    requires
        good(ctx, depths),
        fresh(kind),
        emit_scoped_block(block, ctx, functions, kind).0.result is Ok,
        emit_scoped_block(block, ctx, functions, kind).0.ctx.instructions.len() <= code_limit(),
    ensures
        ({
            let (step, left) = emit_scoped_block(block, ctx, functions, kind);
            &&& advances(ctx, depths, step.ctx, depths2, left, seq![])
            &&& step.ctx.stack_size == ctx.stack_size
            &&& kind_grows(kind, left, ctx.instructions.len() as int)
            &&& left_jumps(step.ctx.instructions, depths2, left, ctx.stack_size as int)
        }),
    decreases block, block.len() + 1,
{
    let opened = open_scope(ctx, kind);
    let body = emit_block(block, 0, opened, seq![], functions);
    let (closed, left) = end_scope(body.ctx);
    let len = ctx.instructions.len() as int;
    // The state with the new scope is sound.
    assert(good(opened, depths)) by {
        assert forall|k: int| 0 <= k < opened.scopes.len() implies 0 <= (
        #[trigger] opened.scopes[k]).starting_stack_size <= opened.stack_size by {
            if k < ctx.scopes.len() {
                assert(opened.scopes[k] == ctx.scopes[k]);
            }
        }
        assert forall|k: int, m: int| 0 <= k <= m < opened.scopes.len() implies (
        #[trigger] opened.scopes[k]).starting_stack_size <= (
        #[trigger] opened.scopes[m]).starting_stack_size by {
            if m < ctx.scopes.len() {
                assert(opened.scopes[k] == ctx.scopes[k]);
                assert(opened.scopes[m] == ctx.scopes[m]);
            } else if k < ctx.scopes.len() {
                assert(opened.scopes[k] == ctx.scopes[k]);
            }
        }
        assert forall|k: int| 0 <= k < opened.scopes.len() implies scope_jumps(
            opened.instructions,
            depths,
            #[trigger] opened.scopes[k],
        ) by {
            if k < ctx.scopes.len() {
                assert(opened.scopes[k] == ctx.scopes[k]);
                assert(scope_jumps(ctx.instructions, depths, ctx.scopes[k]));
            }
        }
        assert(opened.scopes[0] == ctx.scopes[0]);
    }
    let inner = body.ctx;
    let last = inner.scopes.last();
    let times = inner.stack_size - last.starting_stack_size;
    let bare = Context { scopes: inner.scopes.drop_last(), ..inner };
    lemma_emit_pops_length(bare, inner.stack_size.wrapping_sub(last.starting_stack_size) as int);
    let d1 = lemma_block_flow(block, 0, opened, seq![], functions, depths);
    assert(inner.scopes.len() == ctx.scopes.len() + 1);
    assert(last.starting_stack_size == ctx.stack_size) by {
        assert(inner.scopes[ctx.scopes.len() as int].starting_stack_size
            == opened.scopes[ctx.scopes.len() as int].starting_stack_size);
    }
    assert(inner.stack_size.wrapping_sub(last.starting_stack_size) == times);
    assert(good(bare, d1)) by {
        assert forall|k: int| 0 <= k < bare.scopes.len() implies 0 <= (
        #[trigger] bare.scopes[k]).starting_stack_size <= bare.stack_size by {
            assert(bare.scopes[k] == inner.scopes[k]);
        }
        assert forall|k: int, m: int| 0 <= k <= m < bare.scopes.len() implies (
        #[trigger] bare.scopes[k]).starting_stack_size <= (
        #[trigger] bare.scopes[m]).starting_stack_size by {
            assert(bare.scopes[k] == inner.scopes[k]);
            assert(bare.scopes[m] == inner.scopes[m]);
        }
        assert forall|k: int| 0 <= k < bare.scopes.len() implies scope_jumps(
            bare.instructions,
            d1,
            #[trigger] bare.scopes[k],
        ) by {
            assert(bare.scopes[k] == inner.scopes[k]);
            assert(scope_jumps(inner.instructions, d1, inner.scopes[k]));
        }
        assert(bare.scopes[0] == inner.scopes[0]);
    }
    assert(bare.scopes.last().starting_stack_size <= last.starting_stack_size) by {
        let n = ctx.scopes.len() as int;
        assert(bare.scopes.last() == inner.scopes[n - 1]);
        assert(inner.scopes[n - 1].starting_stack_size <= inner.scopes[n].starting_stack_size);
    }
    let d2 = lemma_emit_pops(bare, d1, times);
    assert(closed == emit_pops(bare, times));
    lemma_extends_then(ctx, depths, inner, d1, closed, d2);
    assert(scopes_kept(ctx.scopes, closed.scopes, len)) by {
        assert forall|k: int| 0 <= k < ctx.scopes.len() implies (
        #[trigger] closed.scopes[k]).starting_stack_size == ctx.scopes[k].starting_stack_size
            && kind_grows(ctx.scopes[k].kind, closed.scopes[k].kind, len) by {
            assert(closed.scopes[k] == inner.scopes[k]);
            assert(opened.scopes[k] == ctx.scopes[k]);
            assert(kind_grows(opened.scopes[k].kind, inner.scopes[k].kind, len));
        }
    }
    assert(kind_grows(kind, left, len)) by {
        let n = ctx.scopes.len() as int;
        assert(opened.scopes[n].kind == kind);
        assert(kind_grows(opened.scopes[n].kind, inner.scopes[n].kind, len));
    }
    assert(left_jumps(closed.instructions, d2, left, ctx.stack_size as int)) by {
        assert(scope_jumps(inner.instructions, d1, inner.scopes[ctx.scopes.len() as int]));
        lemma_scope_jumps_kept(inner.instructions, d1, closed.instructions, d2, last);
    }
    assert forall|i: int|
        len <= i < closed.instructions.len() && is_jump(#[trigger] closed.instructions[i])
            && jump_target(closed.instructions[i]) == -1 implies closed.instructions[i] is Jump
        && (noted(closed.scopes, i) || noted_in(left, i) || Seq::<int>::empty().contains(i)) by {
        if i < inner.instructions.len() {
            assert(closed.instructions[i] == inner.instructions[i]);
            assert(noted(inner.scopes, i));
            let k = choose|k: int|
                0 <= k < inner.scopes.len() && noted_in(#[trigger] inner.scopes[k].kind, i);
            if k < ctx.scopes.len() {
                assert(closed.scopes[k] == inner.scopes[k]);
                assert(noted_in(closed.scopes[k].kind, i));
            }
        }
    }
    d2
}

/// Lowering the statements of a block keeps the state sound.
pub proof fn lemma_block_flow(
    block: Seq<StatementView>,
    from: int,
    ctx: Context,
    errors: Seq<ErrorView>,
    functions: FunctionTable,
    depths: Seq<int>,
) -> (depths2: Seq<int>)
    requires
        0 <= from <= block.len(),
        good(ctx, depths),
        emit_block(block, from, ctx, errors, functions).result is Ok,
        emit_block(block, from, ctx, errors, functions).ctx.instructions.len() <= code_limit(),
    ensures
        advances(
            ctx,
            depths,
            emit_block(block, from, ctx, errors, functions).ctx,
            depths2,
            ScopeKind::Other,
            seq![],
        ),
    decreases block, block.len() - from,
{
    if from < block.len() {
        let first = emit_statement(block[from], ctx, functions);
        let more = match first.result {
            Ok(_) => errors,
            Err(e) => errors + e,
        };
        lemma_block_clean(block, from + 1, first.ctx, more, functions);
        lemma_statement_calls(block[from], ctx, functions, 0);
        lemma_block_calls(block, from + 1, first.ctx, more, functions, 0);
        let d1 = lemma_statement_flow(block[from], ctx, functions, depths);
        let d2 = lemma_block_flow(block, from + 1, first.ctx, more, functions, d1);
        lemma_advances_then(
            ctx,
            depths,
            first.ctx,
            d1,
            emit_block(block, from, ctx, errors, functions).ctx,
            d2,
        );
        d2
    } else {
        lemma_scopes_kept_same(ctx.scopes, ctx.instructions.len() as int);
        depths
    }
}

/// Lowering a statement keeps the state sound.
pub proof fn lemma_statement_flow(
    statement: StatementView,
    ctx: Context,
    functions: FunctionTable,
    depths: Seq<int>,
) -> (depths2: Seq<int>)
    requires
        good(ctx, depths),
        emit_statement(statement, ctx, functions).result is Ok,
        emit_statement(statement, ctx, functions).ctx.instructions.len() <= code_limit(),
    ensures
        advances(
            ctx,
            depths,
            emit_statement(statement, ctx, functions).ctx,
            depths2,
            ScopeKind::Other,
            seq![],
        ),
    decreases statement, 1int,
{
    let out = emit_statement(statement, ctx, functions).ctx;
    match statement {
        StatementView::Assignment { variable_name, variable_name_ref, value } => {
            let valued = emit_expression(value, ctx, functions);
            let saved = save_to_variable(valued.ctx, variable_name, variable_name_ref);
            let d1 = lemma_expression_flow(value, ctx, functions, depths);
            if saved.result is Err {
                lemma_add_variable(valued.ctx, d1, variable_name);
                lemma_pushes_advances(ctx, depths, valued.ctx, d1, 1);
                lemma_scopes_kept_then(
                    ctx.scopes,
                    valued.ctx.scopes,
                    out.scopes,
                    ctx.instructions.len() as int,
                    valued.ctx.instructions.len() as int,
                );
                d1
            } else {
                let address = crate::lowering::variable_address(
                    valued.ctx,
                    variable_name,
                    false,
                )->Ok_0;
                let d2 = lemma_emit_plain(valued.ctx, d1, Instruction::Save(address));
                lemma_pushes_then(ctx, depths, valued.ctx, d1, out, d2, 1, -1);
                lemma_pushes_advances(ctx, depths, out, d2, 0);
                d2
            }
        },
        StatementView::If { .. } => lemma_if_flow(statement, ctx, functions, depths),
        StatementView::While { condition, block } => lemma_while_flow(
            condition,
            block,
            ctx,
            functions,
            depths,
        ),
        StatementView::Call(call) => {
            let d1 = lemma_call_flow(call, ctx, functions, false, depths);
            lemma_pushes_advances(ctx, depths, out, d1, 0);
            d1
        },
        StatementView::Return(position) => lemma_return_flow(ctx, depths),
        StatementView::ReturnValue { value, value_ref } => {
            let offset = ctx.return_value_save_offset->Some_0;
            let valued = emit_expression(value, ctx, functions);
            let saved = emit(
                valued.ctx,
                Instruction::Save(valued.ctx.stack_size.wrapping_sub(offset)),
            );
            assert(out == emit_return(saved));
            assert(out.instructions.len() >= saved.instructions.len()) by {
                assert(out.instructions.len() == prepare_for_premature_scope_end(
                    saved,
                    0,
                ).instructions.len() + 1);
            }
            let d1 = lemma_expression_flow(value, ctx, functions, depths);
            let d2 = lemma_emit_plain(
                valued.ctx,
                d1,
                Instruction::Save(valued.ctx.stack_size.wrapping_sub(offset)),
            );
            lemma_pushes_then(ctx, depths, valued.ctx, d1, saved, d2, 1, -1);
            lemma_pushes_advances(ctx, depths, saved, d2, 0);
            let d3 = lemma_return_flow(saved, d2);
            lemma_advances_then(ctx, depths, saved, d2, out, d3);
            d3
        },
        StatementView::Continue(position) => lemma_loop_control_flow(
            ctx,
            depths,
            true,
            position,
        ),
        StatementView::Break(position) => lemma_loop_control_flow(ctx, depths, false, position),
    }
}

/// Declaring a variable keeps the state sound and the scopes.
pub proof fn lemma_add_variable(ctx: Context, depths: Seq<int>, name: Seq<char>)
    requires
        good(ctx, depths),
    ensures
        good(add_variable(ctx, name), depths),
        scopes_kept(ctx.scopes, add_variable(ctx, name).scopes, ctx.instructions.len() as int),
        add_variable(ctx, name).instructions == ctx.instructions,
        add_variable(ctx, name).stack_size == ctx.stack_size,
        add_variable(ctx, name).return_value_save_offset == ctx.return_value_save_offset,
{
    let out = add_variable(ctx, name);
    let n = ctx.scopes.len() as int;
    assert forall|k: int| 0 <= k < n implies (#[trigger] out.scopes[k]).starting_stack_size
        == ctx.scopes[k].starting_stack_size && out.scopes[k].kind == ctx.scopes[k].kind by {
        if k < n - 1 {
            assert(out.scopes[k] == ctx.scopes[k]);
        }
    }
    assert forall|k: int| 0 <= k < out.scopes.len() implies scope_jumps(
        out.instructions,
        depths,
        #[trigger] out.scopes[k],
    ) by {
        assert(scope_jumps(ctx.instructions, depths, ctx.scopes[k]));
    }
    assert forall|k: int| 0 <= k < out.scopes.len() implies 0 <= (
    #[trigger] out.scopes[k]).starting_stack_size <= out.stack_size by {
        assert(0 <= ctx.scopes[k].starting_stack_size <= ctx.stack_size);
    }
    assert forall|k: int, m: int| 0 <= k <= m < out.scopes.len() implies (
    #[trigger] out.scopes[k]).starting_stack_size <= (
    #[trigger] out.scopes[m]).starting_stack_size by {
        assert(ctx.scopes[k].starting_stack_size <= ctx.scopes[m].starting_stack_size);
    }
}

/// Noted jumps stay in order when instructions are appended or jumps get targets.
pub proof fn lemma_noted_jumps_kept(
    code: Seq<Instruction>,
    depths: Seq<int>,
    code2: Seq<Instruction>,
    depths2: Seq<int>,
    places: Seq<int>,
    start: int,
)
    requires
        noted_jumps(code, depths, places, start),
        code2.len() >= code.len(),
        forall|i: int| 0 <= i < code.len() && code[i] is Jump ==> #[trigger] code2[i] is Jump,
        forall|i: int| 0 <= i < code.len() ==> #[trigger] depths2[i] == depths[i],
    ensures
        noted_jumps(code2, depths2, places, start),
{
    assert forall|j: int| 0 <= j < places.len() implies 0 <= #[trigger] places[j] < code2.len()
        && code2[places[j]] is Jump && depths2[places[j]] == start by {
        let a = places[j];
        assert(0 <= a < code.len() && code[a] is Jump);
        assert(code2[a] is Jump);
        assert(depths2[a] == depths[a]);
    }
}

/// Scopes that are kept from some place on are kept from any earlier place on.
pub proof fn lemma_scopes_kept_from(
    before: Seq<ScopeModel>,
    after: Seq<ScopeModel>,
    from: int,
    earlier: int,
)
    requires
        scopes_kept(before, after, from),
        earlier <= from,
    ensures
        scopes_kept(before, after, earlier),
{
    assert forall|k: int| 0 <= k < before.len() implies (#[trigger] after[k]).starting_stack_size
        == before[k].starting_stack_size && kind_grows(before[k].kind, after[k].kind, earlier) by {
        assert(kind_grows(before[k].kind, after[k].kind, from));
    }
}

/// Lowering a `while` statement keeps the state sound: the jumps of the loop
/// land where the stack has the size that it had before the loop.
#[verifier::rlimit(60)]
pub proof fn lemma_while_flow(
    condition: ExpressionView,
    block: Seq<StatementView>,
    ctx: Context,
    functions: FunctionTable,
    depths: Seq<int>,
) -> (depths2: Seq<int>)
    requires
        good(ctx, depths),
        emit_while(condition, block, ctx, functions).result is Ok,
        emit_while(condition, block, ctx, functions).ctx.instructions.len() <= code_limit(),
    ensures
        advances(
            ctx,
            depths,
            emit_while(condition, block, ctx, functions).ctx,
            depths2,
            ScopeKind::Other,
            seq![],
        ),
    decreases block, block.len() + 2,
{
    let out = emit_while(condition, block, ctx, functions).ctx;
    let u = ctx.instructions.len() as int;
    let size = ctx.stack_size as int;
    let jump0 = Instruction::Jump(-1i32);
    let c0 = emit(ctx, jump0);
    let kind0 = ScopeKind::While { continue_addresses: seq![], break_addresses: seq![] };
    let (body, kind) = emit_scoped_block(block, c0, functions, kind0);
    let (continues, breaks) = match kind {
        ScopeKind::While { continue_addresses, break_addresses } => (
            continue_addresses,
            break_addresses,
        ),
        ScopeKind::Other => (seq![], seq![]),
    };
    let jump1 = Instruction::Jump(next_address(body.ctx));
    let patched = patch(body.ctx, u, jump1);
    let entered = patch_all(patched, continues, 0, jump1);
    let tested = emit_expression(condition, entered, functions);
    let back = Instruction::JumpIfNonZero((u as i32).wrapping_add(2));
    let looped = emit(tested.ctx, back);
    let jump2 = Instruction::Jump(next_address(looped));
    assert(out == patch_all(looped, breaks, 0, jump2));

    // No step takes instructions away, so each state is within the limit.
    lemma_scoped_block_calls(block, c0, functions, kind0, 0);
    lemma_patch_all_frame(patched, continues, 0, jump1);
    lemma_expression_calls(condition, entered, functions, 0);
    lemma_patch_all_frame(looped, breaks, 0, jump2);
    assert(c0.instructions.len() == u + 1);
    assert(body.ctx.instructions.len() >= u + 1);
    assert(patched.instructions.len() == body.ctx.instructions.len());
    assert(entered.instructions.len() == body.ctx.instructions.len());
    assert(looped.instructions.len() == tested.ctx.instructions.len() + 1);
    assert(out.instructions.len() == looped.instructions.len());

    let d0 = lemma_emit(ctx, depths, jump0);
    let d1 = lemma_scoped_block_flow(block, c0, functions, kind0, d0);
    assert(kind is While);
    let blen = body.ctx.instructions.len() as int;
    assert(body.ctx.instructions[u] == jump0);
    assert(d1[u] == size && d1[u + 1] == size && d1[blen] == size) by {
        assert(d0[u] == depths[u]);
        assert(d1[u] == d0[u]);
        assert(d1[u + 1] == d0[u + 1]);
    }
    assert(next_address(body.ctx) == blen + 1);
    lemma_patch(body.ctx, d1, u, jump1);
    assert(noted_jumps(patched.instructions, d1, continues, size)
        && noted_jumps(patched.instructions, d1, breaks, size)) by {
        lemma_noted_jumps_kept(
            body.ctx.instructions,
            d1,
            patched.instructions,
            d1,
            continues,
            size,
        );
        lemma_noted_jumps_kept(body.ctx.instructions, d1, patched.instructions, d1, breaks, size);
    }
    lemma_patch_all(patched, d1, continues, 0, next_address(body.ctx), size);
    let d2 = lemma_expression_flow(condition, entered, functions, d1);
    assert(d2[u + 1] == size) by {
        assert(d2[u + 1] == d1[u + 1]);
    }
    let d3 = lemma_emit(tested.ctx, d2, back);
    let llen = looped.instructions.len() as int;
    assert(next_address(looped) == llen + 1);
    assert(noted_jumps(looped.instructions, d3, breaks, size)) by {
        lemma_noted_jumps_kept(
            patched.instructions,
            d1,
            entered.instructions,
            d1,
            breaks,
            size,
        );
        assert forall|i: int|
            0 <= i < entered.instructions.len() && entered.instructions[i]
                is Jump implies #[trigger] looped.instructions[i] is Jump by {
            assert(tested.ctx.instructions[i] == entered.instructions[i]);
            assert(looped.instructions[i] == tested.ctx.instructions[i]);
        }
        assert forall|i: int| 0 <= i < entered.instructions.len() implies #[trigger] d3[i]
            == d1[i] by {
            assert(d2[i] == d1[i]);
            assert(d3[i] == d2[i]);
        }
        lemma_noted_jumps_kept(entered.instructions, d1, looped.instructions, d3, breaks, size);
    }
    lemma_patch_all(looped, d3, breaks, 0, next_address(looped), size);

    // What was there before the loop is kept.
    assert(forall|j: int| 0 <= j < continues.len() ==> #[trigger] continues[j] >= u + 1);
    assert(forall|j: int| 0 <= j < breaks.len() ==> #[trigger] breaks[j] >= u + 1);
    assert forall|i: int| 0 <= i < out.instructions.len() && i < blen implies (
    #[trigger] out.instructions[i]) == body.ctx.instructions[i] || (is_jump(out.instructions[i])
        && jump_target(out.instructions[i]) != -1) by {
        assert(patched.instructions[i] == body.ctx.instructions[i] || i == u);
        assert(entered.instructions[i] == patched.instructions[i] || entered.instructions[i]
            == jump1);
        assert(tested.ctx.instructions[i] == entered.instructions[i]);
        assert(looped.instructions[i] == tested.ctx.instructions[i]);
        assert(out.instructions[i] == looped.instructions[i] || out.instructions[i] == jump2);
    }
    assert forall|i: int| 0 <= i < u implies #[trigger] out.instructions[i]
        == ctx.instructions[i] by {
        assert(c0.instructions[i] == ctx.instructions[i]);
        assert(body.ctx.instructions[i] == c0.instructions[i]);
        assert(patched.instructions[i] == body.ctx.instructions[i]);
        assert(!continues.contains(i));
        assert(!breaks.contains(i));
        assert(entered.instructions[i] == patched.instructions[i]);
        assert(tested.ctx.instructions[i] == entered.instructions[i]);
        assert(looped.instructions[i] == tested.ctx.instructions[i]);
        assert(out.instructions[i] == looped.instructions[i]);
    }
    assert forall|i: int| 0 <= i <= u implies #[trigger] d3[i] == depths[i] by {
        assert(d0[i] == depths[i]);
        assert(d1[i] == d0[i]);
        assert(d2[i] == d1[i]);
        assert(d3[i] == d2[i]);
    }
    assert(scopes_kept(ctx.scopes, out.scopes, u)) by {
        lemma_scopes_kept_from(c0.scopes, body.ctx.scopes, u + 1, u);
    }
    // Each jump of the loop has its target.
    assert forall|i: int|
        u <= i < out.instructions.len() && is_jump(#[trigger] out.instructions[i])
            && jump_target(out.instructions[i]) == -1 implies out.instructions[i] is Jump && (
    noted(out.scopes, i) || noted_in(ScopeKind::Other, i) || Seq::<int>::empty().contains(
        i,
    )) by {
        if i == u {
            assert(patched.instructions[u] == jump1);
            assert(out.instructions[u] == jump1 || out.instructions[u] == jump2);
        } else if i < blen {
            assert(out.instructions[i] == body.ctx.instructions[i]);
            if continues.contains(i) {
                let j = choose|j: int| 0 <= j < continues.len() && continues[j] == i;
                assert(entered.instructions[continues[j]] == jump1);
                assert(tested.ctx.instructions[i] == entered.instructions[i]);
                assert(looped.instructions[i] == tested.ctx.instructions[i]);
                assert(out.instructions[i] == jump1 || out.instructions[i] == jump2);
            } else if breaks.contains(i) {
                let j = choose|j: int| 0 <= j < breaks.len() && breaks[j] == i;
                assert(out.instructions[breaks[j]] == jump2);
            } else {
                assert(noted(body.ctx.scopes, i) || noted_in(kind, i));
            }
        } else if i < tested.ctx.instructions.len() {
            assert(!is_jump(tested.ctx.instructions[i]));
            assert(looped.instructions[i] == tested.ctx.instructions[i]);
            assert(out.instructions[i] == looped.instructions[i] || out.instructions[i]
                == jump2);
        } else {
            assert(looped.instructions[i] == back);
            assert(out.instructions[i] == looped.instructions[i] || out.instructions[i]
                == jump2);
        }
    }
    d3
}

/// Lowering the segments of an `if` statement keeps the state sound. The jumps
/// that leave the chain are left to be resolved.
#[verifier::rlimit(60)]
pub proof fn lemma_segments_flow(
    segments: Seq<IfSegmentView>,
    from: int,
    has_else: bool,
    ctx: Context,
    exits: Seq<int>,
    functions: FunctionTable,
    depths: Seq<int>,
) -> (depths2: Seq<int>)
    requires
        0 <= from <= segments.len(),
        good(ctx, depths),
        noted_jumps(ctx.instructions, depths, exits, ctx.stack_size as int),
        emit_segments(segments, from, has_else, ctx, exits, functions).0.result is Ok,
        emit_segments(segments, from, has_else, ctx, exits, functions).0.ctx.instructions.len()
            <= code_limit(),
    ensures
        ({
            let (step, exits2) = emit_segments(segments, from, has_else, ctx, exits, functions);
            &&& advances(ctx, depths, step.ctx, depths2, ScopeKind::Other, exits2)
            &&& step.ctx.stack_size == ctx.stack_size
            &&& noted_jumps(step.ctx.instructions, depths2, exits2, ctx.stack_size as int)
            &&& list_grows(exits, exits2, ctx.instructions.len() as int)
        }),
    decreases segments, segments.len() - from,
{
    if from < segments.len() {
        let u = ctx.instructions.len() as int;
        let size = ctx.stack_size as int;
        let (step, exits2) = emit_segments(segments, from, has_else, ctx, exits, functions);
        let tested = emit_expression(segments[from].condition, ctx, functions);
        let j = tested.ctx.instructions.len() as int;
        let test = Instruction::JumpIfZero(-1i32);
        let c1 = emit(tested.ctx, test);
        let (body, left) = emit_scoped_block(segments[from].block, c1, functions, ScopeKind::Other);
        let is_last = from + 1 == segments.len();
        let leaves = !is_last || has_else;
        let exit = Instruction::Jump(-1i32);
        let gone = if leaves {
            emit(body.ctx, exit)
        } else {
            body.ctx
        };
        let exits1 = if leaves {
            exits.push(body.ctx.instructions.len() as int)
        } else {
            exits
        };
        let skip = Instruction::JumpIfZero(next_address(gone));
        let next = patch(gone, j, skip);
        assert((step, exits2) == emit_segments(
            segments,
            from + 1,
            has_else,
            next,
            exits1,
            functions,
        ));

        lemma_segments_calls(segments, from + 1, has_else, next, exits1, functions, 0);
        lemma_scoped_block_calls(segments[from].block, c1, functions, ScopeKind::Other, 0);
        assert(next.instructions.len() == gone.instructions.len());
        assert(gone.instructions.len() >= body.ctx.instructions.len());
        assert(c1.instructions.len() == j + 1);

        let d0 = lemma_expression_flow(segments[from].condition, ctx, functions, depths);
        let d1 = lemma_emit(tested.ctx, d0, test);
        let d2 = lemma_scoped_block_flow(segments[from].block, c1, functions, ScopeKind::Other, d1);
        let blen = body.ctx.instructions.len() as int;
        let d3 = if leaves {
            lemma_emit(body.ctx, d2, exit)
        } else {
            d2
        };
        let glen = gone.instructions.len() as int;
        assert(good(gone, d3));
        assert(gone.stack_size == size);
        assert(gone.scopes == body.ctx.scopes);
        assert(forall|i: int| 0 <= i <= blen ==> #[trigger] d3[i] == d2[i]);
        assert(forall|i: int| 0 <= i < blen ==> #[trigger] gone.instructions[i]
            == body.ctx.instructions[i]);
        assert(gone.instructions[j] == test) by {
            assert(body.ctx.instructions[j] == c1.instructions[j]);
        }
        assert(d3[j] == size + 1 && d3[j + 1] == size) by {
            assert(d1[j] == d0[j]);
            assert(d2[j] == d1[j] && d2[j + 1] == d1[j + 1]);
        }
        assert(next_address(gone) == glen + 1);
        lemma_patch(gone, d3, j, skip);
        assert(noted_jumps(next.instructions, d3, exits1, size)) by {
            assert forall|m: int| 0 <= m < exits1.len() implies 0 <= #[trigger] exits1[m]
                < next.instructions.len() && next.instructions[exits1[m]] is Jump
                && d3[exits1[m]] == size by {
                if m < exits.len() {
                    let a = exits[m];
                    assert(exits1[m] == a);
                    assert(0 <= a < u && ctx.instructions[a] is Jump && depths[a] == size);
                    assert(tested.ctx.instructions[a] == ctx.instructions[a]);
                    assert(c1.instructions[a] == tested.ctx.instructions[a]);
                    assert(body.ctx.instructions[a] == c1.instructions[a]);
                    assert(gone.instructions[a] == body.ctx.instructions[a]);
                    assert(d0[a] == depths[a]);
                    assert(d1[a] == d0[a]);
                    assert(d2[a] == d1[a]);
                } else {
                    assert(exits1[m] == blen);
                    assert(gone.instructions[blen] == exit);
                    assert(d3[blen] == d2[blen]);
                }
            }
        }
        let d4 = lemma_segments_flow(segments, from + 1, has_else, next, exits1, functions, d3);

        // What was there before the segment is kept.
        assert(extends(ctx, depths, next, d3)) by {
            assert forall|i: int| 0 <= i < u implies #[trigger] next.instructions[i]
                == ctx.instructions[i] by {
                assert(tested.ctx.instructions[i] == ctx.instructions[i]);
                assert(c1.instructions[i] == tested.ctx.instructions[i]);
                assert(body.ctx.instructions[i] == c1.instructions[i]);
                assert(gone.instructions[i] == body.ctx.instructions[i]);
            }
            assert forall|i: int| 0 <= i <= u implies #[trigger] d3[i] == depths[i] by {
                assert(d0[i] == depths[i]);
                assert(d1[i] == d0[i]);
                assert(d2[i] == d1[i]);
            }
        }
        lemma_extends_then(ctx, depths, next, d3, step.ctx, d4);
        assert(scopes_kept(ctx.scopes, next.scopes, u)) by {
            lemma_scopes_kept_from(c1.scopes, body.ctx.scopes, j + 1, u);
        }
        lemma_scopes_kept_then(ctx.scopes, next.scopes, step.ctx.scopes, u, glen);
        assert(list_grows(exits, exits2, u)) by {
            assert(list_grows(exits1, exits2, glen));
            assert forall|m: int| 0 <= m < exits.len() implies #[trigger] exits2[m]
                == exits[m] by {
                assert(exits2[m] == exits1[m]);
            }
            assert forall|m: int| exits.len() <= m < exits2.len() implies #[trigger] exits2[m]
                >= u by {
                if m < exits1.len() {
                    assert(exits2[m] == exits1[m]);
                }
            }
        }
        // Each jump of the segment has its target or is an exit.
        assert(resolved(next.instructions, u, glen, next.scopes, ScopeKind::Other, exits1)) by {
            assert forall|i: int|
                u <= i < glen && is_jump(#[trigger] next.instructions[i]) && jump_target(
                    next.instructions[i],
                ) == -1 implies next.instructions[i] is Jump && (noted(next.scopes, i)
                || noted_in(ScopeKind::Other, i) || exits1.contains(i)) by {
                if i < j {
                    assert(!is_jump(tested.ctx.instructions[i]));
                    assert(c1.instructions[i] == tested.ctx.instructions[i]);
                    assert(body.ctx.instructions[i] == c1.instructions[i]);
                    assert(gone.instructions[i] == body.ctx.instructions[i]);
                } else if i == j {
                    assert(next.instructions[j] == skip);
                } else if i < blen {
                    assert(gone.instructions[i] == body.ctx.instructions[i]);
                    assert(noted(body.ctx.scopes, i) || noted_in(left, i));
                    assert(kind_grows(ScopeKind::Other, left, j + 1));
                } else {
                    assert(exits1.last() == blen);
                }
            }
        }
        lemma_resolved_kept(
            next.instructions,
            step.ctx.instructions,
            u,
            glen,
            next.scopes,
            step.ctx.scopes,
            glen,
            ScopeKind::Other,
            exits1,
            exits2,
        );
        d4
    } else {
        lemma_scopes_kept_same(ctx.scopes, ctx.instructions.len() as int);
        depths
    }
}

/// Lowering an `if` statement keeps the state sound: the jumps of the chain land
/// where the stack has the size that it had before the statement.
#[verifier::rlimit(60)]
pub proof fn lemma_if_flow(
    statement: StatementView,
    ctx: Context,
    functions: FunctionTable,
    depths: Seq<int>,
) -> (depths2: Seq<int>)
    requires
        good(ctx, depths),
        statement is If,
        emit_if(statement, ctx, functions).result is Ok,
        emit_if(statement, ctx, functions).ctx.instructions.len() <= code_limit(),
    ensures
        advances(
            ctx,
            depths,
            emit_if(statement, ctx, functions).ctx,
            depths2,
            ScopeKind::Other,
            seq![],
        ),
    decreases statement, 0int,
{
    match statement {
        StatementView::If { segments, else_block } => {
            let out = emit_if(statement, ctx, functions).ctx;
            let u = ctx.instructions.len() as int;
            let size = ctx.stack_size as int;
            let (chain, exits) = emit_segments(
                segments,
                0,
                else_block is Some,
                ctx,
                seq![],
                functions,
            );
            let last = match else_block {
                Some(block) => emit_scoped_block(block, chain.ctx, functions, ScopeKind::Other).0,
                None => chain,
            };
            let jump = Instruction::Jump(next_address(last.ctx));
            assert(out == patch_all(last.ctx, exits, 0, jump));
            lemma_patch_all_frame(last.ctx, exits, 0, jump);
            match else_block {
                Some(block) => {
                    lemma_scoped_block_calls(block, chain.ctx, functions, ScopeKind::Other, 0);
                },
                None => {},
            }
            let d1 = lemma_segments_flow(
                segments,
                0,
                else_block is Some,
                ctx,
                seq![],
                functions,
                depths,
            );
            let clen = chain.ctx.instructions.len() as int;
            let d2 = match else_block {
                Some(block) => lemma_scoped_block_flow(
                    block,
                    chain.ctx,
                    functions,
                    ScopeKind::Other,
                    d1,
                ),
                None => {
                    lemma_scopes_kept_same(chain.ctx.scopes, clen);
                    d1
                },
            };
            let llen = last.ctx.instructions.len() as int;
            assert(good(last.ctx, d2));
            assert(extends(chain.ctx, d1, last.ctx, d2));
            assert(last.ctx.stack_size == size);
            assert(scopes_kept(chain.ctx.scopes, last.ctx.scopes, clen));
            assert(resolved(
                last.ctx.instructions,
                clen,
                llen,
                last.ctx.scopes,
                ScopeKind::Other,
                seq![],
            )) by {
                match else_block {
                    Some(block) => {
                        let left = emit_scoped_block(
                            block,
                            chain.ctx,
                            functions,
                            ScopeKind::Other,
                        ).1;
                        assert(kind_grows(ScopeKind::Other, left, clen));
                    },
                    None => {},
                }
            }
            lemma_noted_jumps_kept(
                chain.ctx.instructions,
                d1,
                last.ctx.instructions,
                d2,
                exits,
                size,
            );
            assert(next_address(last.ctx) == llen + 1);
            lemma_patch_all(last.ctx, d2, exits, 0, next_address(last.ctx), size);
            lemma_extends_then(ctx, depths, chain.ctx, d1, last.ctx, d2);
            lemma_scopes_kept_then(ctx.scopes, chain.ctx.scopes, last.ctx.scopes, u, clen);
            assert(forall|m: int| 0 <= m < exits.len() ==> #[trigger] exits[m] >= u);
            assert forall|i: int| 0 <= i < u implies #[trigger] out.instructions[i]
                == ctx.instructions[i] by {
                assert(last.ctx.instructions[i] == ctx.instructions[i]);
                assert(!exits.contains(i));
            }
            assert forall|i: int|
                u <= i < out.instructions.len() && is_jump(#[trigger] out.instructions[i])
                    && jump_target(out.instructions[i]) == -1 implies out.instructions[i]
                is Jump && (noted(out.scopes, i) || noted_in(ScopeKind::Other, i) || Seq::<
                int,
            >::empty().contains(i)) by {
                assert(out.instructions[i] == last.ctx.instructions[i]);
                if exits.contains(i) {
                    let m = choose|m: int| 0 <= m < exits.len() && exits[m] == i;
                    assert(out.instructions[exits[m]] == jump);
                } else if i < clen {
                    assert(last.ctx.instructions[i] == chain.ctx.instructions[i]);
                    assert(noted(chain.ctx.scopes, i));
                    lemma_noted_kept(chain.ctx.scopes, last.ctx.scopes, clen, i);
                }
            }
            d2
        },
        _ => depths,
    }
}

/// Emitting pops does not look at the scopes.
pub proof fn lemma_emit_pops_scopes(ctx: Context, scopes: Seq<ScopeModel>, times: int)
    ensures
        emit_pops(Context { scopes, ..ctx }, times) == (Context {
            scopes,
            ..emit_pops(ctx, times)
        }),
    decreases times,
{
    if times > 0 {
        lemma_emit_pops_scopes(emit(ctx, Instruction::Pop), scopes, times - 1);
        assert(emit(Context { scopes, ..ctx }, Instruction::Pop) == (Context {
            scopes,
            ..emit(ctx, Instruction::Pop)
        }));
    }
}

/// Whether the stack is in balance throughout the code of a function:
/// `depths[i]` is the size of the stack, above the frame of the caller, before
/// the instruction at `i`, and `depths[code.len()]` the size behind the last
/// instruction. The function starts with an empty stack and returns with an
/// empty stack, no size is negative, each instruction changes the size by its
/// effect, and each jump
/// lands in the code or just behind it, where the stack has the size that the
/// jump leaves.
pub open spec fn balanced(code: Seq<Instruction>, depths: Seq<int>) -> bool {
    &&& depths.len() == code.len() + 1
    &&& depths[0] == 0
    &&& forall|i: int| 0 <= i <= code.len() ==> #[trigger] depths[i] >= 0
    &&& forall|i: int| 0 <= i < code.len() ==> #[trigger] flows(code, depths, i)
    &&& forall|i: int|
        0 <= i < code.len() && is_jump(#[trigger] code[i]) ==> 1 <= jump_target(code[i])
            <= code.len() + 1
}

/// Whether the code of the function gets a `Return` of its own at the end: the
/// code of its block, with its variables popped, does not end with one.
pub open spec fn closing_return_added(function: FunctionView, functions: FunctionTable) -> bool {
    let closed = end_scope(
        emit_block(function.block, 0, function_entry(function), seq![], functions).ctx,
    ).0;
    !(closed.instructions.len() > 0 && closed.instructions.last() == Instruction::Return)
}

/// Whether a jump in the code lands just behind it.
pub open spec fn falls_off_end(code: Seq<Instruction>) -> bool {
    exists|i: int|
        0 <= i < code.len() && is_jump(#[trigger] code[i]) && jump_target(code[i]) == code.len()
            + 1
}

/// The code of every function that compiles ends with `Return`.
pub proof fn lemma_function_returns(function: FunctionView, functions: FunctionTable)
    requires
        compile_function(function, functions) is Ok,
    ensures
        compile_function(function, functions)->Ok_0.len() > 0,
        compile_function(function, functions)->Ok_0.last() == Instruction::Return,
{
}

/// In the code of every function that compiles the stack is in balance: it is
/// empty at each `Return`. Where the code gets a `Return` of its own at the end,
/// no jump lands behind the code.
#[verifier::rlimit(60)]
pub proof fn lemma_function_balanced(function: FunctionView, functions: FunctionTable) -> (depths:
    Seq<int>)
    requires
        compile_function(function, functions) is Ok,
        compile_function(function, functions)->Ok_0.len() <= code_limit(),
    ensures
        balanced(compile_function(function, functions)->Ok_0, depths),
        closing_return_added(function, functions) ==> !falls_off_end(
            compile_function(function, functions)->Ok_0,
        ),
{
    let code = compile_function(function, functions)->Ok_0;
    let entry = function_entry(function);
    let body = emit_block(function.block, 0, entry, seq![], functions);
    let inner = body.ctx;
    let closed = end_scope(inner).0;
    let last = with_final_return(closed);
    assert(code == last.instructions);
    let d0 = seq![0int];
    assert(good(entry, d0));
    let times = inner.stack_size.wrapping_sub(inner.scopes.last().starting_stack_size) as int;
    lemma_block_calls(function.block, 0, entry, seq![], functions, 0);
    lemma_emit_pops_length(Context { scopes: inner.scopes.drop_last(), ..inner }, times);
    let d1 = lemma_block_flow(function.block, 0, entry, seq![], functions, d0);
    assert(inner.scopes.len() == 1);
    assert(inner.scopes[0].starting_stack_size == 0);
    assert(inner.scopes[0].kind is Other) by {
        assert(kind_grows(entry.scopes[0].kind, inner.scopes[0].kind, 0));
    }
    assert(times == inner.stack_size);
    lemma_emit_pops_scopes(inner, inner.scopes.drop_last(), times);
    let whole = emit_pops(inner, times);
    assert(closed.instructions == whole.instructions);
    assert(closed.stack_size == whole.stack_size);
    let d2 = lemma_emit_pops(inner, d1, times);
    let ends = closed.instructions.len() > 0 && closed.instructions.last() == Instruction::Return;
    let d3 = if ends {
        d2
    } else {
        lemma_emit(whole, d2, Instruction::Return)
    };
    let done = if ends {
        whole
    } else {
        emit(whole, Instruction::Return)
    };
    assert(done.instructions == code);
    assert(good(done, d3));
    if !ends {
        assert forall|i: int|
            0 <= i < code.len() && is_jump(#[trigger] code[i]) implies jump_target(code[i])
            != code.len() + 1 by {
            if i < whole.instructions.len() {
                assert(flows(whole.instructions, d2, i));
                assert(code[i] == whole.instructions[i]);
            }
        }
    }
    assert(d3[0] == 0) by {
        assert(d1[0] == d0[0]);
        assert(d2[0] == d1[0]);
    }
    assert forall|i: int| 0 <= i < code.len() && is_jump(#[trigger] code[i]) implies 1
        <= jump_target(code[i]) <= code.len() + 1 by {
        assert(flows(code, d3, i));
        if i < inner.instructions.len() {
            assert(whole.instructions[i] == inner.instructions[i]);
            assert(code[i] == whole.instructions[i]);
            if jump_target(code[i]) == -1 {
                assert(noted(inner.scopes, i));
                let k = choose|k: int|
                    0 <= k < inner.scopes.len() && noted_in(#[trigger] inner.scopes[k].kind, i);
                assert(false);
            }
        } else if i < whole.instructions.len() {
            assert(!is_jump(whole.instructions[i]));
            assert(code[i] == whole.instructions[i]);
        }
    }
    d3
}

/// In the code of each function of a module that compiles the stack is in
/// balance.
pub proof fn lemma_stack_balanced(module: Seq<FunctionView>, k: int) -> (depths: Seq<int>)
    requires
        compile_module(module) is Ok,
        compile_module(module)->Ok_0.len() <= i32::MAX,
        0 <= k < module.len(),
    ensures
        k < module_codes(module).len(),
        balanced(module_codes(module)[k], depths),
{
    let program = compile_module(module)->Ok_0;
    let codes = module_codes(module);
    let functions = function_table(module, module.len() as int)->Ok_0;
    lemma_program_layout(module, program);
    assert(start_offset(codes, k + 1) == start_offset(codes, k) + codes[k].len());
    assert(compile_function(module[k], functions) == Ok::<Seq<Instruction>, Seq<ErrorView>>(
        codes[k],
    ));
    lemma_function_balanced(module[k], functions)
}

/// Every jump of a program but the halt in the prologue lands in the code of
/// its own function or just behind it. `k` is the place of the function in the
/// module.
pub proof fn lemma_jumps_stay_in_function(
    module: Seq<FunctionView>,
    program: Seq<Instruction>,
    i: int,
) -> (k: int)
    requires
        compile_module(module) == Ok::<Seq<Instruction>, Seq<ErrorView>>(program),
        program.len() < i32::MAX,
        2 <= i < program.len(),
        is_jump(program[i]),
    ensures
        0 <= k < module.len(),
        k < module_codes(module).len(),
        start_offset(module_codes(module), k) <= i < start_offset(module_codes(module), k)
            + module_codes(module)[k].len(),
        start_offset(module_codes(module), k) + module_codes(module)[k].len() <= program.len(),
        start_offset(module_codes(module), k) + 1 <= jump_target(program[i]) <= start_offset(
            module_codes(module),
            k,
        ) + module_codes(module)[k].len() + 1,
        !falls_off_end(module_codes(module)[k]) ==> 1 <= jump_target(program[i])
            <= program.len(),
{
    let codes = module_codes(module);
    lemma_program_layout(module, program);
    let k = lemma_find_function(codes, codes.len() as int, i);
    let base = start_offset(codes, k);
    let j = i - base;
    assert(start_offset(codes, k + 1) == base + codes[k].len());
    assert(start_offset(codes, k + 1) <= program.len());
    lemma_stack_balanced(module, k);
    assert(program[base + j] == resolve(relocate(codes[k][j], base as i32), codes));
    assert(is_jump(codes[k][j]));
    assert(1 <= jump_target(codes[k][j]) <= codes[k].len() + 1);
    assert(jump_target(program[i]) == jump_target(codes[k][j]) + base);
    k
}

/// In a program whose functions each get a `Return` of their own at the end,
/// every jump but the halt in the prologue lands on an instruction of the
/// program.
pub proof fn lemma_jumps_in_range(module: Seq<FunctionView>, program: Seq<Instruction>, i: int)
    requires
        compile_module(module) == Ok::<Seq<Instruction>, Seq<ErrorView>>(program),
        program.len() < i32::MAX,
        2 <= i < program.len(),
        is_jump(program[i]),
        forall|k: int|
            0 <= k < module.len() ==> closing_return_added(
                #[trigger] module[k],
                function_table(module, module.len() as int)->Ok_0,
            ),
    ensures
        1 <= jump_target(program[i]) <= program.len(),
{
    let k = lemma_jumps_stay_in_function(module, program, i);
    let functions = function_table(module, module.len() as int)->Ok_0;
    lemma_program_layout(module, program);
    assert(closing_return_added(module[k], functions));
    lemma_function_balanced(module[k], functions);
}

} // verus!
