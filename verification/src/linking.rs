//! What holds of the calls in every program that the compiler makes: each call
//! reaches the first instruction of a function of the module.

use vstd::prelude::*;
use crate::assembly::Instruction;
use crate::ast::{CallView, ExpressionView, FunctionView, IfSegmentView, StatementView};
use crate::error_handling::ErrorView;
use crate::lowering::{
    compile_function, compile_functions, compile_module, emit, emit_arguments, emit_block,
    emit_call, emit_expression, emit_if, emit_loop_control_flow, emit_pops, emit_scoped_block,
    emit_segments, emit_statement, emit_while, end_scope, entry_point, function_entry,
    function_info,
    function_table, link, open_scope, patch, patch_all, placed, prologue, relocate, resolve,
    start_offset, Compiled, Context, FunctionTable, Lowered, ScopeKind,
};

verus! {

/// The code of each function of a module that compiles, in the order of the module.
pub open spec fn module_codes(module: Seq<FunctionView>) -> Seq<Seq<Instruction>> {
    match function_table(module, module.len() as int) {
        Ok(functions) => compile_functions(
            module,
            0,
            functions,
            Compiled { codes: seq![], errors: seq![] },
        ).codes,
        Err(_) => seq![],
    }
}

/// The address of the first instruction of the function at `index`; addresses
/// count from 1.
pub open spec fn function_address(module: Seq<FunctionView>, index: int) -> int {
    start_offset(module_codes(module), index) + 1
}

/// Whether every call in `code` names a function by an id below `count`.
pub open spec fn calls_name_functions(code: Seq<Instruction>, count: int) -> bool {
    forall|i: int|
        0 <= i < code.len() ==> (#[trigger] code[i] matches Instruction::JumpSubRoutine(id)
            ==> 0 <= id < count)
}

/// Whether every function of the table has an id below `count`.
pub open spec fn ids_below(functions: FunctionTable, count: int) -> bool {
    forall|name: Seq<char>| #[trigger]
        functions.contains_key(name) ==> 0 <= functions[name].id < count
}

/// Whether a step from `ctx` to `out` keeps the calls naming functions of the
/// table, and takes no instruction away.
pub open spec fn keeps_calls(ctx: Context, out: Context, functions: FunctionTable, count: int)
    -> bool {
    &&& out.instructions.len() >= ctx.instructions.len()
    &&& calls_name_functions(ctx.instructions, count) && ids_below(functions, count)
        ==> calls_name_functions(out.instructions, count)
}

/// Whether a step that fails has a diagnostic to show.
pub open spec fn reports(step: Lowered) -> bool {
    match step.result {
        Ok(_) => true,
        Err(errors) => errors.len() > 0,
    }
}

proof fn lemma_emit_pops_calls(ctx: Context, times: int, functions: FunctionTable, count: int)
    ensures
        keeps_calls(ctx, emit_pops(ctx, times), functions, count),
    decreases times,
{
    if times > 0 {
        lemma_emit_pops_calls(emit(ctx, Instruction::Pop), times - 1, functions, count);
    }
}

proof fn lemma_patch_all_calls(
    ctx: Context,
    indices: Seq<int>,
    from: int,
    instruction: Instruction,
    functions: FunctionTable,
    count: int,
)
    requires
        !(instruction is JumpSubRoutine),
    ensures
        keeps_calls(ctx, patch_all(ctx, indices, from, instruction), functions, count),
    decreases indices.len() - from,
{
    if 0 <= from < indices.len() {
        lemma_patch_all_calls(
            patch(ctx, indices[from], instruction),
            indices,
            from + 1,
            instruction,
            functions,
            count,
        );
    }
}

proof fn lemma_end_scope_calls(ctx: Context, functions: FunctionTable, count: int)
    ensures
        keeps_calls(ctx, end_scope(ctx).0, functions, count),
{
    if ctx.scopes.len() > 0 {
        lemma_emit_pops_calls(
            Context { scopes: ctx.scopes.drop_last(), ..ctx },
            ctx.stack_size.wrapping_sub(ctx.scopes.last().starting_stack_size) as int,
            functions,
            count,
        );
    }
}

/// Lowering an expression keeps the calls naming functions, and takes no
/// instruction away.
pub proof fn lemma_expression_calls(
    expr: ExpressionView,
    ctx: Context,
    functions: FunctionTable,
    count: int,
)
    ensures
        keeps_calls(ctx, emit_expression(expr, ctx, functions).ctx, functions, count),
        reports(emit_expression(expr, ctx, functions)),
    decreases expr, 0int,
{
    match expr {
        ExpressionView::Binary { left, right, operator } => {
            lemma_expression_calls(*right, ctx, functions, count);
            let first = emit_expression(*right, ctx, functions);
            lemma_expression_calls(*left, first.ctx, functions, count);
        },
        ExpressionView::Unary { value, operator } => {
            lemma_expression_calls(*value, ctx, functions, count);
            lemma_expression_calls(
                *value,
                emit(ctx, Instruction::Constant(-1i32)),
                functions,
                count,
            );
        },
        ExpressionView::Call(call) => {
            lemma_call_calls(call, ctx, functions, true, count);
        },
        ExpressionView::Variable { name, pos } => {},
        ExpressionView::Literal(value) => {},
    }
}

/// Lowering arguments keeps the calls naming functions, and takes no instruction away.
pub proof fn lemma_arguments_calls(
    arguments: Seq<ExpressionView>,
    from: int,
    ctx: Context,
    functions: FunctionTable,
    count: int,
)
    ensures
        keeps_calls(ctx, emit_arguments(arguments, from, ctx, functions).ctx, functions, count),
        reports(emit_arguments(arguments, from, ctx, functions)),
    decreases arguments, arguments.len() - from,
{
    if 0 <= from < arguments.len() {
        lemma_expression_calls(arguments[from], ctx, functions, count);
        let first = emit_expression(arguments[from], ctx, functions);
        if first.result is Ok {
            lemma_arguments_calls(arguments, from + 1, first.ctx, functions, count);
        }
    }
}

/// Lowering a call keeps the calls naming functions, and takes no instruction away.
pub proof fn lemma_call_calls(
    call: CallView,
    ctx: Context,
    functions: FunctionTable,
    using_return_value: bool,
    count: int,
)
    ensures
        keeps_calls(
            ctx,
            emit_call(call, ctx, functions, using_return_value).ctx,
            functions,
            count,
        ),
        reports(emit_call(call, ctx, functions, using_return_value)),
    decreases call, 0int,
{
    if functions.contains_key(call.function_name) {
        let info = functions[call.function_name];
        let reserved = if info.returns_value {
            emit(ctx, Instruction::Constant(0i32))
        } else {
            ctx
        };
        lemma_arguments_calls(call.arguments, 0, reserved, functions, count);
        let pushed = emit_arguments(call.arguments, 0, reserved, functions);
        let called = emit(pushed.ctx, Instruction::JumpSubRoutine(info.id));
        lemma_emit_pops_calls(called, call.arguments.len() as int, functions, count);
    }
}

/// Lowering `continue` or `break` keeps the calls naming functions, and takes no
/// instruction away.
pub proof fn lemma_loop_control_calls(
    ctx: Context,
    is_continue: bool,
    keyword_ref: crate::error_handling::FileRef,
    functions: FunctionTable,
    count: int,
)
    ensures
        keeps_calls(
            ctx,
            emit_loop_control_flow(ctx, is_continue, keyword_ref).ctx,
            functions,
            count,
        ),
        reports(emit_loop_control_flow(ctx, is_continue, keyword_ref)),
{
}

/// Lowering a block in its scope keeps the calls naming functions, and takes no
/// instruction away.
pub proof fn lemma_scoped_block_calls(
    block: Seq<StatementView>,
    ctx: Context,
    functions: FunctionTable,
    kind: ScopeKind,
    count: int,
)
    ensures
        keeps_calls(ctx, emit_scoped_block(block, ctx, functions, kind).0.ctx, functions, count),
        reports(emit_scoped_block(block, ctx, functions, kind).0),
    decreases block, block.len() + 1,
{
    lemma_block_calls(block, 0, open_scope(ctx, kind), seq![], functions, count);
    let body = emit_block(block, 0, open_scope(ctx, kind), seq![], functions);
    lemma_end_scope_calls(body.ctx, functions, count);
}

/// Lowering a block keeps the calls naming functions, and takes no instruction away.
pub proof fn lemma_block_calls(
    block: Seq<StatementView>,
    from: int,
    ctx: Context,
    errors: Seq<ErrorView>,
    functions: FunctionTable,
    count: int,
)
    ensures
        keeps_calls(ctx, emit_block(block, from, ctx, errors, functions).ctx, functions, count),
        reports(emit_block(block, from, ctx, errors, functions)),
    decreases block, block.len() - from,
{
    if 0 <= from < block.len() {
        lemma_statement_calls(block[from], ctx, functions, count);
        let first = emit_statement(block[from], ctx, functions);
        lemma_block_calls(
            block,
            from + 1,
            first.ctx,
            match first.result {
                Ok(_) => errors,
                Err(more) => errors + more,
            },
            functions,
            count,
        );
    }
}

/// Lowering the segments of an `if` statement keeps the calls naming functions,
/// and takes no instruction away.
pub proof fn lemma_segments_calls(
    segments: Seq<IfSegmentView>,
    from: int,
    has_else: bool,
    ctx: Context,
    exits: Seq<int>,
    functions: FunctionTable,
    count: int,
)
    ensures
        keeps_calls(
            ctx,
            emit_segments(segments, from, has_else, ctx, exits, functions).0.ctx,
            functions,
            count,
        ),
        reports(emit_segments(segments, from, has_else, ctx, exits, functions).0),
    decreases segments, segments.len() - from,
{
    if 0 <= from < segments.len() {
        lemma_expression_calls(segments[from].condition, ctx, functions, count);
        let tested = emit_expression(segments[from].condition, ctx, functions);
        if tested.result is Ok {
            let jump_inst_idx = tested.ctx.instructions.len() as int;
            lemma_scoped_block_calls(
                segments[from].block,
                emit(tested.ctx, Instruction::JumpIfZero(-1i32)),
                functions,
                ScopeKind::Other,
                count,
            );
            let (body, _) = emit_scoped_block(
                segments[from].block,
                emit(tested.ctx, Instruction::JumpIfZero(-1i32)),
                functions,
                ScopeKind::Other,
            );
            if body.result is Ok {
                let is_last = from + 1 == segments.len();
                let left = if !is_last || has_else {
                    emit(body.ctx, Instruction::Jump(-1i32))
                } else {
                    body.ctx
                };
                let exits = if !is_last || has_else {
                    exits.push(body.ctx.instructions.len() as int)
                } else {
                    exits
                };
                lemma_segments_calls(
                    segments,
                    from + 1,
                    has_else,
                    patch(
                        left,
                        jump_inst_idx,
                        Instruction::JumpIfZero(crate::lowering::next_address(left)),
                    ),
                    exits,
                    functions,
                    count,
                );
            }
        }
    }
}

/// Lowering an `if` statement keeps the calls naming functions, and takes no
/// instruction away.
pub proof fn lemma_if_calls(
    statement: StatementView,
    ctx: Context,
    functions: FunctionTable,
    count: int,
)
    ensures
        keeps_calls(ctx, emit_if(statement, ctx, functions).ctx, functions, count),
        reports(emit_if(statement, ctx, functions)),
    decreases statement, 0int,
{
    match statement {
        StatementView::If { segments, else_block } => {
            lemma_segments_calls(segments, 0, else_block is Some, ctx, seq![], functions, count);
            let (chain, exits) = emit_segments(
                segments,
                0,
                else_block is Some,
                ctx,
                seq![],
                functions,
            );
            if chain.result is Ok {
                match else_block {
                    Some(block) => {
                        lemma_scoped_block_calls(
                            block,
                            chain.ctx,
                            functions,
                            ScopeKind::Other,
                            count,
                        );
                    },
                    None => {},
                }
                let last = match else_block {
                    Some(block) => emit_scoped_block(
                        block,
                        chain.ctx,
                        functions,
                        ScopeKind::Other,
                    ).0,
                    None => chain,
                };
                lemma_patch_all_calls(
                    last.ctx,
                    exits,
                    0,
                    Instruction::Jump(crate::lowering::next_address(last.ctx)),
                    functions,
                    count,
                );
            }
        },
        _ => {},
    }
}

/// Lowering a `while` statement keeps the calls naming functions, and takes no
/// instruction away.
pub proof fn lemma_while_calls(
    condition: ExpressionView,
    block: Seq<StatementView>,
    ctx: Context,
    functions: FunctionTable,
    count: int,
)
    ensures
        keeps_calls(ctx, emit_while(condition, block, ctx, functions).ctx, functions, count),
        reports(emit_while(condition, block, ctx, functions)),
    decreases block, block.len() + 2,
{
    let uncond_jump_idx = ctx.instructions.len() as int;
    let kind0 = ScopeKind::While { continue_addresses: seq![], break_addresses: seq![] };
    lemma_scoped_block_calls(block, emit(ctx, Instruction::Jump(-1i32)), functions, kind0, count);
    let (body, kind) = emit_scoped_block(
        block,
        emit(ctx, Instruction::Jump(-1i32)),
        functions,
        kind0,
    );
    if body.result is Ok {
        let (continue_addresses, break_addresses) = match kind {
            ScopeKind::While { continue_addresses, break_addresses } => (
                continue_addresses,
                break_addresses,
            ),
            ScopeKind::Other => (seq![], seq![]),
        };
        let continue_instruction = Instruction::Jump(crate::lowering::next_address(body.ctx));
        lemma_patch_all_calls(
            patch(body.ctx, uncond_jump_idx, continue_instruction),
            continue_addresses,
            0,
            continue_instruction,
            functions,
            count,
        );
        let entered = patch_all(
            patch(body.ctx, uncond_jump_idx, continue_instruction),
            continue_addresses,
            0,
            continue_instruction,
        );
        lemma_expression_calls(condition, entered, functions, count);
        let tested = emit_expression(condition, entered, functions);
        if tested.result is Ok {
            let looped = emit(
                tested.ctx,
                Instruction::JumpIfNonZero((uncond_jump_idx as i32).wrapping_add(2)),
            );
            lemma_patch_all_calls(
                looped,
                break_addresses,
                0,
                Instruction::Jump(crate::lowering::next_address(looped)),
                functions,
                count,
            );
        }
    }
}

/// Lowering a statement keeps the calls naming functions, and takes no
/// instruction away.
pub proof fn lemma_statement_calls(
    statement: StatementView,
    ctx: Context,
    functions: FunctionTable,
    count: int,
)
    ensures
        keeps_calls(ctx, emit_statement(statement, ctx, functions).ctx, functions, count),
        reports(emit_statement(statement, ctx, functions)),
    decreases statement, 1int,
{
    match statement {
        StatementView::Assignment { variable_name, variable_name_ref, value } => {
            lemma_expression_calls(value, ctx, functions, count);
        },
        StatementView::If { .. } => {
            lemma_if_calls(statement, ctx, functions, count);
        },
        StatementView::While { condition, block } => {
            lemma_while_calls(condition, block, ctx, functions, count);
        },
        StatementView::Call(call) => {
            lemma_call_calls(call, ctx, functions, false, count);
        },
        StatementView::Return(position) => {},
        StatementView::ReturnValue { value, value_ref } => {
            lemma_expression_calls(value, ctx, functions, count);
        },
        StatementView::Continue(position) => {
            lemma_loop_control_calls(ctx, true, position, functions, count);
        },
        StatementView::Break(position) => {
            lemma_loop_control_calls(ctx, false, position, functions, count);
        },
    }
}

/// Every call in the code of a function names a function of the table.
pub proof fn lemma_function_calls(function: FunctionView, functions: FunctionTable, count: int)
    requires
        ids_below(functions, count),
    ensures
        match compile_function(function, functions) {
            Ok(code) => calls_name_functions(code, count) && code.len() > 0,
            Err(errors) => errors.len() > 0,
        },
{
    let entry = function_entry(function);
    lemma_block_calls(function.block, 0, entry, seq![], functions, count);
    let body = emit_block(function.block, 0, entry, seq![], functions);
    lemma_block_errors(function.block, 0, entry, seq![], functions);
    lemma_end_scope_calls(body.ctx, functions, count);
}

/// A block fails with at least one diagnostic.
pub proof fn lemma_block_errors(
    block: Seq<StatementView>,
    from: int,
    ctx: Context,
    errors: Seq<ErrorView>,
    functions: FunctionTable,
)
    ensures
        match emit_block(block, from, ctx, errors, functions).result {
            Ok(_) => true,
            Err(all) => all.len() > 0,
        },
    decreases block.len() - from,
{
    if 0 <= from < block.len() {
        let first = emit_statement(block[from], ctx, functions);
        lemma_block_errors(
            block,
            from + 1,
            first.ctx,
            match first.result {
                Ok(_) => errors,
                Err(more) => errors + more,
            },
            functions,
        );
    }
}

/// The table of the first `count` functions gives each the id of its place.
pub proof fn lemma_table_ids(module: Seq<FunctionView>, count: int)
    requires
        0 <= count <= module.len(),
        count <= i32::MAX,
    ensures
        match function_table(module, count) {
            Ok(functions) => ids_below(functions, count),
            Err(_) => true,
        },
    decreases count,
{
    if count > 0 {
        lemma_table_ids(module, count - 1);
    }
}

/// Where no function fails, there is one code for each function, and every call
/// in it names a function of the module.
pub proof fn lemma_compiled_functions(
    module: Seq<FunctionView>,
    from: int,
    functions: FunctionTable,
    so_far: Compiled,
)
    requires
        0 <= from <= module.len(),
        ids_below(functions, module.len() as int),
        so_far.errors.len() == 0 ==> so_far.codes.len() == from,
        forall|k: int|
            0 <= k < so_far.codes.len() ==> calls_name_functions(
                #[trigger] so_far.codes[k],
                module.len() as int,
            ) && so_far.codes[k].len() > 0,
    ensures
        ({
            let all = compile_functions(module, from, functions, so_far);
            &&& all.errors.len() == 0 ==> all.codes.len() == module.len()
            &&& forall|k: int|
                0 <= k < all.codes.len() ==> calls_name_functions(
                    #[trigger] all.codes[k],
                    module.len() as int,
                ) && all.codes[k].len() > 0
        }),
    decreases module.len() - from,
{
    if from < module.len() {
        lemma_function_calls(module[from], functions, module.len() as int);
        let next = match compile_function(module[from], functions) {
            Ok(code) => Compiled { codes: so_far.codes.push(code), ..so_far },
            Err(errors) => Compiled { errors: so_far.errors + errors, ..so_far },
        };
        lemma_compiled_functions(module, from + 1, functions, next);
    }
}

/// The place of each instruction of each function in the program before calls
/// are resolved.
pub proof fn lemma_placed(codes: Seq<Seq<Instruction>>, main_id: i32, count: int)
    requires
        0 <= count <= codes.len(),
    ensures
        placed(codes, main_id, count).len() == start_offset(codes, count),
        placed(codes, main_id, count).subrange(0, 2) == prologue(main_id),
        forall|k: int, j: int|
            0 <= k < count && 0 <= j < codes[k].len() ==> #[trigger] placed(
                codes,
                main_id,
                count,
            )[start_offset(codes, k) + j] == relocate(
                #[trigger] codes[k][j],
                start_offset(codes, k) as i32,
            ),
        forall|k: int| 0 <= k <= count ==> 2 <= #[trigger] start_offset(codes, k) <= start_offset(codes, count),
    decreases count,
{
    if count > 0 {
        lemma_placed(codes, main_id, count - 1);
        let before = placed(codes, main_id, count - 1);
        let all = placed(codes, main_id, count);
        assert(all.subrange(0, 2) =~= before.subrange(0, 2));
        assert forall|k: int, j: int| 0 <= k < count && 0 <= j < codes[k].len() implies #[trigger] all[start_offset(
            codes,
            k,
        ) + j] == relocate(#[trigger] codes[k][j], start_offset(codes, k) as i32) by {
            if k < count - 1 {
                assert(start_offset(codes, k + 1) <= start_offset(codes, count - 1));
                assert(all[start_offset(codes, k) + j] == before[start_offset(codes, k) + j]);
            }
        }
    } else {
        assert(placed(codes, main_id, 0).subrange(0, 2) =~= prologue(main_id));
    }
}

/// Every index of the placed program behind the prologue lies in the code of
/// one function.
pub proof fn lemma_find_function(codes: Seq<Seq<Instruction>>, count: int, i: int) -> (k: int)
    requires
        0 <= count <= codes.len(),
        2 <= i < start_offset(codes, count),
    ensures
        0 <= k < count,
        start_offset(codes, k) <= i < start_offset(codes, k) + codes[k].len(),
    decreases count,
{
    if i >= start_offset(codes, count - 1) {
        count - 1
    } else {
        lemma_find_function(codes, count - 1, i)
    }
}

/// Every `JumpSubRoutine` of a program calls a function of the module: its
/// argument is the address of the first instruction of that function's code.
pub proof fn lemma_calls_reach_functions(
    module: Seq<FunctionView>,
    program: Seq<Instruction>,
    i: int,
) -> (k: int)
    requires
        compile_module(module) == Ok::<Seq<Instruction>, Seq<ErrorView>>(program),
        program.len() <= i32::MAX,
        0 <= i < program.len(),
        program[i] is JumpSubRoutine,
    ensures
        0 <= k < module.len(),
        module_codes(module).len() == module.len(),
        program[i] == Instruction::JumpSubRoutine(function_address(module, k) as i32),
        1 <= function_address(module, k) <= program.len(),
{
    let functions = function_table(module, module.len() as int)->Ok_0;
    let empty = Compiled { codes: seq![], errors: seq![] };
    let compiled = compile_functions(module, 0, functions, empty);
    let codes = compiled.codes;
    let main_id = entry_point(functions)->Ok_0;
    let count = codes.len() as int;
    let raw = placed(codes, main_id, count);
    assert(program == link(codes, main_id));
    assert(program[i] == resolve(raw[i], codes));
    lemma_placed(codes, main_id, count);
    // Each function has at least one instruction, so the module is not longer
    // than the program.
    lemma_codes_fit(module, functions, codes, main_id);
    lemma_table_ids(module, module.len() as int);
    lemma_compiled_functions(module, 0, functions, empty);
    let id = raw[i]->JumpSubRoutine_0;
    assert(0 <= id < count) by {
        if i < 2 {
            assert(raw.subrange(0, 2)[i] == raw[i]);
            assert(i == 0);
            assert(functions.contains_key("main"@));
        } else {
            let f = lemma_find_function(codes, count, i);
            let j = i - start_offset(codes, f);
            assert(raw[start_offset(codes, f) + j] == relocate(
                codes[f][j],
                start_offset(codes, f) as i32,
            ));
            assert(codes[f][j] is JumpSubRoutine);
        }
    }
    assert(module_codes(module) == codes);
    assert(start_offset(codes, id + 1) == start_offset(codes, id as int) + codes[id as int].len());
    assert(start_offset(codes, id + 1) <= start_offset(codes, count));
    assert(codes[id as int].len() > 0);
    assert(program.len() == start_offset(codes, count));
    id as int
}

/// Whether the table gives each of its names the place, among the first `count`
/// functions of the module, of the function that has the name.
pub open spec fn names_its_functions(
    functions: FunctionTable,
    module: Seq<FunctionView>,
    count: int,
) -> bool {
    forall|name: Seq<char>| #[trigger]
        functions.contains_key(name) ==> 0 <= functions[name].id < count
            && module[functions[name].id as int].name == name
}

/// The id that the table of a module gives to a name is the place of the
/// function of that name in the module.
pub proof fn lemma_table_names(module: Seq<FunctionView>, count: int)
    requires
        0 <= count <= module.len(),
        count <= i32::MAX,
    ensures
        match function_table(module, count) {
            Ok(functions) => names_its_functions(functions, module, count),
            Err(_) => true,
        },
    decreases count,
{
    if count > 0 {
        lemma_table_names(module, count - 1);
    }
}

/// A call of the function `name` is linked to that function: in a program, the
/// `JumpSubRoutine` that a call emits with the id of `name` has become a jump to
/// the address of the first instruction of the function of the module that has
/// this name.
pub proof fn lemma_call_linked(
    module: Seq<FunctionView>,
    program: Seq<Instruction>,
    name: Seq<char>,
) -> (k: int)
    requires
        compile_module(module) == Ok::<Seq<Instruction>, Seq<ErrorView>>(program),
        program.len() <= i32::MAX,
        function_table(module, module.len() as int)->Ok_0.contains_key(name),
    ensures
        0 <= k < module.len(),
        module[k].name == name,
        function_table(module, module.len() as int)->Ok_0[name].id == k,
        resolve(Instruction::JumpSubRoutine(k as i32), module_codes(module))
            == Instruction::JumpSubRoutine(function_address(module, k) as i32),
        1 <= function_address(module, k) <= program.len(),
{
    let functions = function_table(module, module.len() as int)->Ok_0;
    let codes = module_codes(module);
    let main_id = entry_point(functions)->Ok_0;
    let count = codes.len() as int;
    assert(program == link(codes, main_id));
    lemma_placed(codes, main_id, count);
    lemma_codes_fit(module, functions, codes, main_id);
    lemma_table_names(module, module.len() as int);
    let id = functions[name].id;
    assert(start_offset(codes, id + 1) == start_offset(codes, id as int) + codes[id as int].len());
    assert(start_offset(codes, id + 1) <= start_offset(codes, count));
    assert(codes[id as int].len() > 0);
    assert(program.len() == start_offset(codes, count));
    id as int
}

/// The first instruction of a program calls `main`: it jumps to the address of
/// the first instruction of the function of the module that has this name.
pub proof fn lemma_program_calls_main(module: Seq<FunctionView>, program: Seq<Instruction>) -> (k:
    int)
    requires
        compile_module(module) == Ok::<Seq<Instruction>, Seq<ErrorView>>(program),
        program.len() <= i32::MAX,
    ensures
        0 <= k < module.len(),
        module[k].name == "main"@,
        !module[k].returns_value,
        program[0] == Instruction::JumpSubRoutine(function_address(module, k) as i32),
        program[1] == Instruction::Jump(-1i32),
{
    let functions = function_table(module, module.len() as int)->Ok_0;
    let codes = module_codes(module);
    let main_id = entry_point(functions)->Ok_0;
    let count = codes.len() as int;
    assert(functions.contains_key("main"@));
    let k = lemma_call_linked(module, program, "main"@);
    lemma_program_prologue(module, program);
    lemma_placed(codes, main_id, count);
    let raw = placed(codes, main_id, count);
    assert(program == link(codes, main_id));
    assert(raw.subrange(0, 2)[0] == raw[0]);
    assert(program[0] == resolve(raw[0], codes));
    lemma_codes_fit(module, functions, codes, main_id);
    assert(program.len() == start_offset(codes, count));
    lemma_table_info(module, module.len() as int);
    k
}

/// What the table of a module knows of a function is what the function says.
proof fn lemma_table_info(module: Seq<FunctionView>, count: int)
    requires
        0 <= count <= module.len(),
        count <= i32::MAX,
    ensures
        match function_table(module, count) {
            Ok(functions) => forall|name: Seq<char>| #[trigger]
                functions.contains_key(name) ==> 0 <= functions[name].id < count
                    && functions[name] == function_info(
                    module[functions[name].id as int],
                    functions[name].id as int,
                ),
            Err(_) => true,
        },
    decreases count,
{
    if count > 0 {
        lemma_table_info(module, count - 1);
    }
}

/// With no function failing, the module is not longer than any of its programs.
proof fn lemma_codes_fit(
    module: Seq<FunctionView>,
    functions: FunctionTable,
    codes: Seq<Seq<Instruction>>,
    main_id: i32,
)
    requires
        compile_module(module) is Ok,
        function_table(module, module.len() as int) == Ok::<FunctionTable, Seq<ErrorView>>(
            functions,
        ),
        codes == compile_functions(
            module,
            0,
            functions,
            Compiled { codes: seq![], errors: seq![] },
        ).codes,
    ensures
        codes.len() == module.len(),
        module.len() + 2 <= start_offset(codes, codes.len() as int),
        forall|k: int| 0 <= k < codes.len() ==> (#[trigger] codes[k]).len() > 0,
{
    let empty = Compiled { codes: seq![], errors: seq![] };
    lemma_compiled_any(module, 0, functions, empty);
    lemma_offsets_grow(codes, codes.len() as int);
}

/// Where no function fails, there is one nonempty code for each function.
proof fn lemma_compiled_any(
    module: Seq<FunctionView>,
    from: int,
    functions: FunctionTable,
    so_far: Compiled,
)
    requires
        0 <= from <= module.len(),
        so_far.errors.len() == 0 ==> so_far.codes.len() == from,
        forall|k: int| 0 <= k < so_far.codes.len() ==> (#[trigger] so_far.codes[k]).len() > 0,
    ensures
        ({
            let all = compile_functions(module, from, functions, so_far);
            &&& all.errors.len() == 0 ==> all.codes.len() == module.len()
            &&& forall|k: int| 0 <= k < all.codes.len() ==> (#[trigger] all.codes[k]).len() > 0
        }),
    decreases module.len() - from,
{
    if from < module.len() {
        let entry = function_entry(module[from]);
        lemma_block_errors(module[from].block, 0, entry, seq![], functions);
        let next = match compile_function(module[from], functions) {
            Ok(code) => Compiled { codes: so_far.codes.push(code), ..so_far },
            Err(errors) => Compiled { errors: so_far.errors + errors, ..so_far },
        };
        lemma_compiled_any(module, from + 1, functions, next);
    }
}

/// Codes that each hold an instruction start at least one instruction apart.
proof fn lemma_offsets_grow(codes: Seq<Seq<Instruction>>, count: int)
    requires
        0 <= count <= codes.len(),
        forall|k: int| 0 <= k < codes.len() ==> (#[trigger] codes[k]).len() > 0,
    ensures
        count + 2 <= start_offset(codes, count),
    decreases count,
{
    if count > 0 {
        lemma_offsets_grow(codes, count - 1);
    }
}

/// Where no function fails, the code at each place is that of the function at
/// that place.
pub proof fn lemma_compiled_codes(
    module: Seq<FunctionView>,
    from: int,
    functions: FunctionTable,
    so_far: Compiled,
)
    requires
        0 <= from <= module.len(),
        so_far.errors.len() == 0 ==> so_far.codes.len() == from,
        so_far.errors.len() == 0 ==> forall|k: int|
            0 <= k < from ==> compile_function(#[trigger] module[k], functions) == Ok::<
                Seq<Instruction>,
                Seq<ErrorView>,
            >(so_far.codes[k]),
    ensures
        ({
            let all = compile_functions(module, from, functions, so_far);
            all.errors.len() == 0 ==> all.codes.len() == module.len() && forall|k: int|
                0 <= k < module.len() ==> compile_function(#[trigger] module[k], functions)
                    == Ok::<Seq<Instruction>, Seq<ErrorView>>(all.codes[k])
        }),
    decreases module.len() - from,
{
    if from < module.len() {
        let entry = function_entry(module[from]);
        lemma_block_errors(module[from].block, 0, entry, seq![], functions);
        let next = match compile_function(module[from], functions) {
            Ok(code) => Compiled { codes: so_far.codes.push(code), ..so_far },
            Err(errors) => Compiled { errors: so_far.errors + errors, ..so_far },
        };
        lemma_compiled_codes(module, from + 1, functions, next);
    }
}

/// In a module that compiles, the code of each function is what the function
/// compiles to, and the program is the prologue and the codes, one behind the
/// other, with jumps moved and calls resolved.
pub proof fn lemma_program_layout(module: Seq<FunctionView>, program: Seq<Instruction>)
    requires
        compile_module(module) == Ok::<Seq<Instruction>, Seq<ErrorView>>(program),
    ensures
        module_codes(module).len() == module.len(),
        program.len() == start_offset(module_codes(module), module.len() as int),
        forall|k: int|
            0 <= k < module.len() ==> compile_function(
                #[trigger] module[k],
                function_table(module, module.len() as int)->Ok_0,
            ) == Ok::<Seq<Instruction>, Seq<ErrorView>>(module_codes(module)[k]),
        forall|k: int|
            0 <= k <= module.len() ==> 2 <= #[trigger] start_offset(module_codes(module), k)
                <= program.len(),
        forall|k: int, j: int|
            0 <= k < module.len() && 0 <= j < module_codes(module)[k].len()
                ==> #[trigger] program[start_offset(module_codes(module), k) + j] == resolve(
                relocate(
                    #[trigger] module_codes(module)[k][j],
                    start_offset(module_codes(module), k) as i32,
                ),
                module_codes(module),
            ),
{
    let functions = function_table(module, module.len() as int)->Ok_0;
    let empty = Compiled { codes: seq![], errors: seq![] };
    let codes = module_codes(module);
    let main_id = entry_point(functions)->Ok_0;
    lemma_compiled_codes(module, 0, functions, empty);
    lemma_placed(codes, main_id, codes.len() as int);
    let raw = placed(codes, main_id, codes.len() as int);
    assert(program == link(codes, main_id));
    assert forall|k: int, j: int|
        0 <= k < module.len() && 0 <= j < codes[k].len() implies #[trigger] program[start_offset(
            codes,
            k,
        ) + j] == resolve(
        relocate(#[trigger] codes[k][j], start_offset(codes, k) as i32),
        codes,
    ) by {
        assert(start_offset(codes, k + 1) == start_offset(codes, k) + codes[k].len());
        assert(start_offset(codes, k + 1) <= start_offset(codes, codes.len() as int));
        let at = start_offset(codes, k) + j;
        assert(program[at] == resolve(raw[at], codes));
        assert(raw[start_offset(codes, k) + j] == relocate(
            codes[k][j],
            start_offset(codes, k) as i32,
        ));
    }
}

/// A program begins with the prologue: the call of `main`, and the jump to
/// the address -1, at which the machine halts. The code of a function follows.
pub proof fn lemma_program_prologue(module: Seq<FunctionView>, program: Seq<Instruction>)
    requires
        compile_module(module) == Ok::<Seq<Instruction>, Seq<ErrorView>>(program),
    ensures
        program.len() >= 3,
        program[0] is JumpSubRoutine,
        program[1] == Instruction::Jump(-1i32),
{
    let functions = function_table(module, module.len() as int)->Ok_0;
    let codes = module_codes(module);
    let main_id = entry_point(functions)->Ok_0;
    lemma_codes_fit(module, functions, codes, main_id);
    lemma_placed(codes, main_id, codes.len() as int);
    let raw = placed(codes, main_id, codes.len() as int);
    assert(program == link(codes, main_id));
    assert(raw.subrange(0, 2)[0] == raw[0]);
    assert(raw.subrange(0, 2)[1] == raw[1]);
    assert(functions.contains_key("main"@));
    assert(module.len() > 0) by {
        if module.len() == 0 {
            assert(function_table(module, 0) == Ok::<FunctionTable, Seq<ErrorView>>(
                Map::empty(),
            ));
        }
    }
}

} // verus!
