//! The code that the compiler emits does not depend on where the syntax stood in
//! the source: two pieces of syntax that differ in nothing but the places of their
//! parts are lowered to the same instructions, and one fails where the other does.
//! So a compound assignment compiles to the code of the assignment for which it
//! stands.

use vstd::prelude::*;
use crate::ast::{CallView, ExpressionView, FunctionView, IfSegmentView, StatementView};
use crate::error_handling::ErrorView;
use crate::assembly::Instruction;
use crate::grammar::{compound_operator, statement, Tokens};
use crate::lexer::TokenView;
use crate::linking::{lemma_block_errors, lemma_statement_calls, reports};
use crate::lowering::{
    compile_function, compile_functions, compile_module, emit, emit_arguments, emit_block,
    emit_call, emit_expression, emit_if, emit_scoped_block, emit_segments, emit_statement,
    emit_while, function_entry, function_table, next_address, open_scope, patch, patch_all,
    Compiled, Context, FunctionTable, Lowered, ScopeKind,
};
use crate::writing::{
    bare_call, bare_expression, bare_expressions, bare_function, bare_functions, bare_segments,
    bare_statement, bare_statements, lemma_compound_assignment_read, spelled_out,
    writable_expression, written_at, written_compound, written_statement,
};

verus! {

/// Whether two steps end in the same state, both well or both with diagnostics.
pub open spec fn alike(a: Lowered, b: Lowered) -> bool {
    a.ctx == b.ctx && (a.result is Ok <==> b.result is Ok)
}

/// Expressions that differ only in places are lowered alike.
pub proof fn lemma_expression_places(
    a: ExpressionView,
    b: ExpressionView,
    ctx: Context,
    functions: FunctionTable,
)
    requires
        bare_expression(a) == bare_expression(b),
    ensures
        alike(emit_expression(a, ctx, functions), emit_expression(b, ctx, functions)),
    decreases a, 0int,
{
    match (a, b) {
        (
            ExpressionView::Binary { left: l1, right: r1, operator: o1 },
            ExpressionView::Binary { left: l2, right: r2, operator: o2 },
        ) => {
            lemma_expression_places(*r1, *r2, ctx, functions);
            let first = emit_expression(*r1, ctx, functions);
            lemma_expression_places(*l1, *l2, first.ctx, functions);
        },
        (
            ExpressionView::Unary { value: v1, operator: o1 },
            ExpressionView::Unary { value: v2, operator: o2 },
        ) => {
            lemma_expression_places(*v1, *v2, ctx, functions);
            lemma_expression_places(
                *v1,
                *v2,
                emit(ctx, Instruction::Constant(-1i32)),
                functions,
            );
        },
        (ExpressionView::Call(c1), ExpressionView::Call(c2)) => {
            lemma_call_places(c1, c2, ctx, functions, true);
        },
        _ => {},
    }
}

/// Arguments that differ only in places are lowered alike.
pub proof fn lemma_arguments_places(
    a: Seq<ExpressionView>,
    b: Seq<ExpressionView>,
    from: int,
    ctx: Context,
    functions: FunctionTable,
)
    requires
        bare_expressions(a) == bare_expressions(b),
        0 <= from <= a.len(),
    ensures
        a.len() == b.len(),
        alike(emit_arguments(a, from, ctx, functions), emit_arguments(b, from, ctx, functions)),
    decreases a, a.len() - from,
{
    assert(bare_expressions(a).len() == a.len());
    assert(bare_expressions(b).len() == b.len());
    if from < a.len() {
        assert(bare_expressions(a)[from] == bare_expression(a[from]));
        assert(bare_expressions(b)[from] == bare_expression(b[from]));
        lemma_expression_places(a[from], b[from], ctx, functions);
        let first = emit_expression(a[from], ctx, functions);
        if first.result is Ok {
            lemma_arguments_places(a, b, from + 1, first.ctx, functions);
        }
    }
}

/// Calls that differ only in places are lowered alike.
pub proof fn lemma_call_places(
    a: CallView,
    b: CallView,
    ctx: Context,
    functions: FunctionTable,
    using_return_value: bool,
)
    requires
        bare_call(a) == bare_call(b),
    ensures
        alike(
            emit_call(a, ctx, functions, using_return_value),
            emit_call(b, ctx, functions, using_return_value),
        ),
    decreases a, 0int,
{
    if functions.contains_key(a.function_name) {
        let info = functions[a.function_name];
        let reserved = if info.returns_value {
            emit(ctx, Instruction::Constant(0i32))
        } else {
            ctx
        };
        lemma_arguments_places(a.arguments, b.arguments, 0, reserved, functions);
    } else {
        assert(bare_expressions(a.arguments).len() == a.arguments.len());
        assert(bare_expressions(b.arguments).len() == b.arguments.len());
    }
}

/// Blocks that differ only in places are lowered alike in a scope of their own.
pub proof fn lemma_scoped_block_places(
    a: Seq<StatementView>,
    b: Seq<StatementView>,
    ctx: Context,
    functions: FunctionTable,
    kind: ScopeKind,
)
    requires
        bare_statements(a) == bare_statements(b),
    ensures
        alike(
            emit_scoped_block(a, ctx, functions, kind).0,
            emit_scoped_block(b, ctx, functions, kind).0,
        ),
        emit_scoped_block(a, ctx, functions, kind).1 == emit_scoped_block(
            b,
            ctx,
            functions,
            kind,
        ).1,
    decreases a, a.len() + 1,
{
    lemma_block_places(a, b, 0, open_scope(ctx, kind), seq![], seq![], functions);
}

/// Statements that differ only in places are lowered alike, one after the other.
pub proof fn lemma_block_places(
    a: Seq<StatementView>,
    b: Seq<StatementView>,
    from: int,
    ctx: Context,
    errors_a: Seq<ErrorView>,
    errors_b: Seq<ErrorView>,
    functions: FunctionTable,
)
    requires
        bare_statements(a) == bare_statements(b),
        0 <= from <= a.len(),
        errors_a.len() == 0 <==> errors_b.len() == 0,
    ensures
        a.len() == b.len(),
        alike(
            emit_block(a, from, ctx, errors_a, functions),
            emit_block(b, from, ctx, errors_b, functions),
        ),
    decreases a, a.len() - from,
{
    assert(bare_statements(a).len() == a.len());
    assert(bare_statements(b).len() == b.len());
    if from < a.len() {
        assert(bare_statements(a)[from] == bare_statement(a[from]));
        assert(bare_statements(b)[from] == bare_statement(b[from]));
        lemma_statement_places(a[from], b[from], ctx, functions);
        lemma_statement_calls(a[from], ctx, functions, 0);
        lemma_statement_calls(b[from], ctx, functions, 0);
        let first_a = emit_statement(a[from], ctx, functions);
        let first_b = emit_statement(b[from], ctx, functions);
        assert(reports(first_a) && reports(first_b));
        let next_a = match first_a.result {
            Ok(_) => errors_a,
            Err(more) => errors_a + more,
        };
        let next_b = match first_b.result {
            Ok(_) => errors_b,
            Err(more) => errors_b + more,
        };
        lemma_block_places(a, b, from + 1, first_a.ctx, next_a, next_b, functions);
    }
}

/// Segments that differ only in places are lowered alike.
pub proof fn lemma_segments_places(
    a: Seq<IfSegmentView>,
    b: Seq<IfSegmentView>,
    from: int,
    has_else: bool,
    ctx: Context,
    exits: Seq<int>,
    functions: FunctionTable,
)
    requires
        bare_segments(a) == bare_segments(b),
        0 <= from <= a.len(),
    ensures
        a.len() == b.len(),
        alike(
            emit_segments(a, from, has_else, ctx, exits, functions).0,
            emit_segments(b, from, has_else, ctx, exits, functions).0,
        ),
        emit_segments(a, from, has_else, ctx, exits, functions).0.result is Ok ==> emit_segments(
            a,
            from,
            has_else,
            ctx,
            exits,
            functions,
        ).1 == emit_segments(b, from, has_else, ctx, exits, functions).1,
    decreases a, a.len() - from,
{
    assert(bare_segments(a).len() == a.len());
    assert(bare_segments(b).len() == b.len());
    if from < a.len() {
        assert(bare_segments(a)[from] == (IfSegmentView {
            condition: bare_expression(a[from].condition),
            block: bare_statements(a[from].block),
        }));
        assert(bare_segments(b)[from] == (IfSegmentView {
            condition: bare_expression(b[from].condition),
            block: bare_statements(b[from].block),
        }));
        lemma_expression_places(a[from].condition, b[from].condition, ctx, functions);
        let tested = emit_expression(a[from].condition, ctx, functions);
        if tested.result is Ok {
            let entered = emit(tested.ctx, Instruction::JumpIfZero(-1i32));
            lemma_scoped_block_places(
                a[from].block,
                b[from].block,
                entered,
                functions,
                ScopeKind::Other,
            );
            let (body, _) = emit_scoped_block(a[from].block, entered, functions, ScopeKind::Other);
            if body.result is Ok {
                let jump_inst_idx = tested.ctx.instructions.len() as int;
                let is_last = from + 1 == a.len();
                let left = if !is_last || has_else {
                    emit(body.ctx, Instruction::Jump(-1i32))
                } else {
                    body.ctx
                };
                let more = if !is_last || has_else {
                    exits.push(body.ctx.instructions.len() as int)
                } else {
                    exits
                };
                lemma_segments_places(
                    a,
                    b,
                    from + 1,
                    has_else,
                    patch(
                        left,
                        jump_inst_idx,
                        Instruction::JumpIfZero(next_address(left)),
                    ),
                    more,
                    functions,
                );
            }
        }
    }
}

/// `if` statements that differ only in places are lowered alike.
pub proof fn lemma_if_places(
    a: StatementView,
    b: StatementView,
    ctx: Context,
    functions: FunctionTable,
)
    requires
        a is If,
        bare_statement(a) == bare_statement(b),
    ensures
        alike(emit_if(a, ctx, functions), emit_if(b, ctx, functions)),
    decreases a, 0int,
{
    match (a, b) {
        (
            StatementView::If { segments: s1, else_block: e1 },
            StatementView::If { segments: s2, else_block: e2 },
        ) => {
            lemma_segments_places(s1, s2, 0, e1 is Some, ctx, seq![], functions);
            let (chain, exits) = emit_segments(s1, 0, e1 is Some, ctx, seq![], functions);
            if chain.result is Ok {
                match (e1, e2) {
                    (Some(block1), Some(block2)) => {
                        lemma_scoped_block_places(
                            block1,
                            block2,
                            chain.ctx,
                            functions,
                            ScopeKind::Other,
                        );
                    },
                    _ => {},
                }
            }
        },
        _ => {},
    }
}

/// `while` statements that differ only in places are lowered alike.
pub proof fn lemma_while_places(
    condition_a: ExpressionView,
    block_a: Seq<StatementView>,
    condition_b: ExpressionView,
    block_b: Seq<StatementView>,
    ctx: Context,
    functions: FunctionTable,
)
    requires
        bare_expression(condition_a) == bare_expression(condition_b),
        bare_statements(block_a) == bare_statements(block_b),
    ensures
        alike(
            emit_while(condition_a, block_a, ctx, functions),
            emit_while(condition_b, block_b, ctx, functions),
        ),
    decreases block_a, block_a.len() + 2,
{
    let kind = ScopeKind::While { continue_addresses: seq![], break_addresses: seq![] };
    let entered = emit(ctx, Instruction::Jump(-1i32));
    lemma_scoped_block_places(block_a, block_b, entered, functions, kind);
    let (body, left) = emit_scoped_block(block_a, entered, functions, kind);
    if body.result is Ok {
        let continue_addresses = match left {
            ScopeKind::While { continue_addresses, break_addresses } => continue_addresses,
            ScopeKind::Other => seq![],
        };
        let continue_instruction = Instruction::Jump(next_address(body.ctx));
        let tested_from = patch_all(
            patch(
                body.ctx,
                ctx.instructions.len() as int,
                continue_instruction,
            ),
            continue_addresses,
            0,
            continue_instruction,
        );
        lemma_expression_places(condition_a, condition_b, tested_from, functions);
    }
}

/// Statements that differ only in places are lowered alike.
pub proof fn lemma_statement_places(
    a: StatementView,
    b: StatementView,
    ctx: Context,
    functions: FunctionTable,
)
    requires
        bare_statement(a) == bare_statement(b),
    ensures
        alike(emit_statement(a, ctx, functions), emit_statement(b, ctx, functions)),
    decreases a, 1int,
{
    match (a, b) {
        (
            StatementView::Assignment { variable_name: n1, variable_name_ref: r1, value: v1 },
            StatementView::Assignment { variable_name: n2, variable_name_ref: r2, value: v2 },
        ) => {
            lemma_expression_places(v1, v2, ctx, functions);
        },
        (StatementView::If { .. }, StatementView::If { .. }) => {
            lemma_if_places(a, b, ctx, functions);
        },
        (
            StatementView::While { condition: c1, block: b1 },
            StatementView::While { condition: c2, block: b2 },
        ) => {
            lemma_while_places(c1, b1, c2, b2, ctx, functions);
        },
        (StatementView::Call(c1), StatementView::Call(c2)) => {
            lemma_call_places(c1, c2, ctx, functions, false);
        },
        (
            StatementView::ReturnValue { value: v1, value_ref: r1 },
            StatementView::ReturnValue { value: v2, value_ref: r2 },
        ) => {
            lemma_expression_places(v1, v2, ctx, functions);
        },
        _ => {},
    }
}

/// Functions that differ only in the places of their parts compile to the same
/// code, and one compiles where the other does.
pub proof fn lemma_function_places(a: FunctionView, b: FunctionView, functions: FunctionTable)
    requires
        bare_function(a) == bare_function(b),
    ensures
        compile_function(a, functions) is Ok <==> compile_function(b, functions) is Ok,
        compile_function(a, functions) is Ok ==> compile_function(a, functions)
            == compile_function(b, functions),
{
    let entry = function_entry(a);
    assert(function_entry(b) == entry);
    lemma_block_places(a.block, b.block, 0, entry, seq![], seq![], functions);
}

/// The tables of modules that differ only in places are the same, and one module
/// has a table where the other has.
pub proof fn lemma_table_places(a: Seq<FunctionView>, b: Seq<FunctionView>, count: int)
    requires
        bare_functions(a) == bare_functions(b),
        0 <= count <= a.len(),
    ensures
        a.len() == b.len(),
        function_table(a, count) is Ok <==> function_table(b, count) is Ok,
        function_table(a, count) is Ok ==> function_table(a, count) == function_table(b, count),
    decreases count,
{
    assert(bare_functions(a).len() == a.len());
    assert(bare_functions(b).len() == b.len());
    if count > 0 {
        lemma_table_places(a, b, count - 1);
        assert(bare_functions(a)[count - 1] == bare_function(a[count - 1]));
        assert(bare_functions(b)[count - 1] == bare_function(b[count - 1]));
    }
}

/// The functions of modules that differ only in places compile to the same
/// codes, and all of one compile where all of the other do.
pub proof fn lemma_functions_places(
    a: Seq<FunctionView>,
    b: Seq<FunctionView>,
    from: int,
    functions: FunctionTable,
    so_far_a: Compiled,
    so_far_b: Compiled,
)
    requires
        bare_functions(a) == bare_functions(b),
        0 <= from <= a.len(),
        so_far_a.errors.len() == 0 <==> so_far_b.errors.len() == 0,
        so_far_a.errors.len() == 0 ==> so_far_a.codes == so_far_b.codes,
    ensures
        compile_functions(a, from, functions, so_far_a).errors.len() == 0 <==> compile_functions(
            b,
            from,
            functions,
            so_far_b,
        ).errors.len() == 0,
        compile_functions(a, from, functions, so_far_a).errors.len() == 0 ==> compile_functions(
            a,
            from,
            functions,
            so_far_a,
        ).codes == compile_functions(b, from, functions, so_far_b).codes,
    decreases a.len() - from,
{
    assert(bare_functions(a).len() == a.len());
    assert(bare_functions(b).len() == b.len());
    if from < a.len() {
        assert(bare_functions(a)[from] == bare_function(a[from]));
        assert(bare_functions(b)[from] == bare_function(b[from]));
        lemma_function_places(a[from], b[from], functions);
        lemma_block_errors(a[from].block, 0, function_entry(a[from]), seq![], functions);
        lemma_block_errors(b[from].block, 0, function_entry(b[from]), seq![], functions);
        let next_a = match compile_function(a[from], functions) {
            Ok(code) => Compiled { codes: so_far_a.codes.push(code), ..so_far_a },
            Err(errors) => Compiled { errors: so_far_a.errors + errors, ..so_far_a },
        };
        let next_b = match compile_function(b[from], functions) {
            Ok(code) => Compiled { codes: so_far_b.codes.push(code), ..so_far_b },
            Err(errors) => Compiled { errors: so_far_b.errors + errors, ..so_far_b },
        };
        lemma_functions_places(a, b, from + 1, functions, next_a, next_b);
    }
}

/// Modules that differ only in the places of their parts compile to the same
/// program, and one compiles where the other does.
pub proof fn lemma_module_places(a: Seq<FunctionView>, b: Seq<FunctionView>)
    requires
        bare_functions(a) == bare_functions(b),
    ensures
        compile_module(a) is Ok <==> compile_module(b) is Ok,
        compile_module(a) is Ok ==> compile_module(a) == compile_module(b),
{
    lemma_table_places(a, b, a.len() as int);
    if function_table(a, a.len() as int) is Ok {
        let functions = function_table(a, a.len() as int)->Ok_0;
        let empty = Compiled { codes: seq![], errors: seq![] };
        lemma_functions_places(a, b, 0, functions, empty, empty);
    }
}

/// A compound assignment compiles to the code of the assignment for which it
/// stands: what the parser makes of `x += e;` and what it makes of
/// `x = (x) + (e);` are lowered alike, in every state.
pub proof fn lemma_compound_assignment_code(
    name: Seq<char>,
    sign: TokenView,
    value: ExpressionView,
    short: Tokens,
    at: int,
    long: Tokens,
    from: int,
    ctx: Context,
    functions: FunctionTable,
)
    requires
        compound_operator(sign) is Some,
        writable_expression(value),
        written_at(short, at, written_compound(name, sign, value)),
        written_at(
            long,
            from,
            written_statement(spelled_out(name, compound_operator(sign)->Some_0, value)),
        ),
    ensures
        statement(short, at).result is Ok,
        statement(long, from).result is Ok,
        alike(
            emit_statement(statement(short, at).result->Ok_0, ctx, functions),
            emit_statement(statement(long, from).result->Ok_0, ctx, functions),
        ),
{
    lemma_compound_assignment_read(name, sign, value, short, at, long, from);
    lemma_statement_places(
        statement(short, at).result->Ok_0,
        statement(long, from).result->Ok_0,
        ctx,
        functions,
    );
}

} // verus!
