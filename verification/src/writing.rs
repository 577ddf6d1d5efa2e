//! How a syntax tree is written down as tokens, and that the parser reads what
//! was written back as the same tree, whatever the places of the tokens.

use vstd::prelude::*;
use crate::ast::{
    BinaryOperator, CallView, ExpressionView, FunctionView, IfSegmentView, StatementView,
    UnaryOperator,
};
use crate::error_handling::{ErrorView, FileRef};
use crate::grammar::{
    argument_list, arguments, binary_operator, block, block_items, call, closed_by_semicolon,
    compound_operator,
    else_chain, expression, fold_level, fold_levels, fold_operators, function,
    identifier_statement_body, if_segment, modify_in_place, module, module_items, operand_row,
    parameters, precedence_level, return_statement, statement, unary_expression, went_forward,
    OperandRow, Parsed, Tokens,
};
use crate::lexer::TokenView;

verus! {

/// The tokens that stand for a binary operator. Three operators of the syntax
/// tree have no tokens: no text is read as one of them.
pub open spec fn operator_tokens(operator: BinaryOperator) -> Seq<TokenView> {
    match operator {
        BinaryOperator::Add => seq![TokenView::Plus],
        BinaryOperator::Subtract => seq![TokenView::Minus],
        BinaryOperator::Multiply => seq![TokenView::Star],
        BinaryOperator::Divide => seq![TokenView::ForwardSlash],
        BinaryOperator::And => seq![TokenView::Ampersand],
        BinaryOperator::Remainder => seq![TokenView::Percent],
        BinaryOperator::Or => seq![TokenView::Bar],
        BinaryOperator::Power => seq![TokenView::Carat],
        BinaryOperator::Equals => seq![TokenView::Equals, TokenView::Equals],
        BinaryOperator::NotEquals => seq![TokenView::Bang, TokenView::Equals],
        BinaryOperator::LessThan => seq![TokenView::LeftArrow],
        BinaryOperator::LessThanOrEqual => seq![TokenView::LeftArrow, TokenView::Equals],
        BinaryOperator::GreaterThan => seq![TokenView::RightArrow],
        BinaryOperator::GreaterThanOrEqual => seq![TokenView::RightArrow, TokenView::Equals],
        BinaryOperator::Xor | BinaryOperator::ShiftLeft | BinaryOperator::ShiftRight => seq![],
    }
}

/// Whether the operator has tokens.
pub open spec fn can_be_written(operator: BinaryOperator) -> bool {
    !(operator is Xor || operator is ShiftLeft || operator is ShiftRight)
}

/// `tokens` between parentheses.
pub open spec fn in_parentheses(tokens: Seq<TokenView>) -> Seq<TokenView> {
    seq![TokenView::OpenParen] + tokens + seq![TokenView::CloseParen]
}

/// An expression written without ambiguity: every operand of an operator stands
/// in parentheses.
pub open spec fn written_expression(expr: ExpressionView) -> Seq<TokenView>
    decreases expr, 0int,
{
    match expr {
        ExpressionView::Binary { left, right, operator } => in_parentheses(
            written_expression(*left),
        ) + operator_tokens(operator) + in_parentheses(written_expression(*right)),
        ExpressionView::Unary { value, operator } => seq![
            match operator {
                UnaryOperator::Negate => TokenView::Minus,
                UnaryOperator::Not => TokenView::Tilda,
            },
        ] + in_parentheses(written_expression(*value)),
        ExpressionView::Call(call) => written_call(call),
        ExpressionView::Variable { name, pos } => seq![TokenView::Identifier(name)],
        ExpressionView::Literal(value) => seq![TokenView::Number(value)],
    }
}

/// The arguments from `from` on, with commas between them.
pub open spec fn written_arguments(arguments: Seq<ExpressionView>, from: int) -> Seq<TokenView>
    decreases arguments, arguments.len() - from,
{
    if 0 <= from < arguments.len() {
        if from + 1 == arguments.len() {
            written_expression(arguments[from])
        } else {
            written_expression(arguments[from]) + seq![TokenView::Comma] + written_arguments(
                arguments,
                from + 1,
            )
        }
    } else {
        seq![]
    }
}

/// A call: the name of the function and the arguments in parentheses.
pub open spec fn written_call(call: CallView) -> Seq<TokenView>
    decreases call, 0int,
{
    seq![TokenView::Identifier(call.function_name)] + in_parentheses(
        written_arguments(call.arguments, 0),
    )
}

/// Whether the expression can be written: each of its operators has tokens.
pub open spec fn writable_expression(expr: ExpressionView) -> bool
    decreases expr, 0int,
{
    match expr {
        ExpressionView::Binary { left, right, operator } => can_be_written(operator)
            && writable_expression(*left) && writable_expression(*right),
        ExpressionView::Unary { value, operator } => writable_expression(*value),
        ExpressionView::Call(call) => writable_call(call),
        ExpressionView::Variable { name, pos } => true,
        ExpressionView::Literal(value) => true,
    }
}

/// Whether the arguments from `from` on can be written.
pub open spec fn writable_arguments(arguments: Seq<ExpressionView>, from: int) -> bool
    decreases arguments, arguments.len() - from,
{
    if 0 <= from < arguments.len() {
        writable_expression(arguments[from]) && writable_arguments(arguments, from + 1)
    } else {
        true
    }
}

/// Whether the call can be written.
pub open spec fn writable_call(call: CallView) -> bool
    decreases call, 0int,
{
    writable_arguments(call.arguments, 0)
}

/// The place that stands for every place where places are left out of account.
pub open spec fn nowhere() -> FileRef {
    arbitrary()
}

/// The expression without the places of its parts.
pub open spec fn bare_expression(expr: ExpressionView) -> ExpressionView
    decreases expr, 0int,
{
    match expr {
        ExpressionView::Binary { left, right, operator } => ExpressionView::Binary {
            left: Box::new(bare_expression(*left)),
            right: Box::new(bare_expression(*right)),
            operator,
        },
        ExpressionView::Unary { value, operator } => ExpressionView::Unary {
            value: Box::new(bare_expression(*value)),
            operator,
        },
        ExpressionView::Call(call) => ExpressionView::Call(bare_call(call)),
        ExpressionView::Variable { name, pos } => ExpressionView::Variable {
            name,
            pos: nowhere(),
        },
        ExpressionView::Literal(value) => ExpressionView::Literal(value),
    }
}

/// The expressions without the places of their parts.
pub open spec fn bare_expressions(expressions: Seq<ExpressionView>) -> Seq<ExpressionView>
    decreases expressions, 0int,
{
    Seq::new(
        expressions.len(),
        |i: int|
            if 0 <= i < expressions.len() {
                bare_expression(expressions[i])
            } else {
                arbitrary()
            },
    )
}

/// The call without the places of its parts.
pub open spec fn bare_call(call: CallView) -> CallView
    decreases call, 1int,
{
    CallView {
        function_name: call.function_name,
        function_name_ref: nowhere(),
        arguments: bare_expressions(call.arguments),
        arguments_ref: nowhere(),
    }
}

/// Whether the tokens from `pos` on are `written`, in order.
pub open spec fn written_at(tokens: Tokens, pos: int, written: Seq<TokenView>) -> bool {
    &&& 0 <= pos
    &&& pos + written.len() <= tokens.len()
    &&& forall|i: int| 0 <= i < written.len() ==> (#[trigger] tokens[pos + i]).0 == written[i]
}

/// Whether the token at `pos` is one that can follow an expression: it neither
/// begins an operator nor opens the arguments of a call.
pub open spec fn expression_ends_at(tokens: Tokens, pos: int) -> bool {
    &&& 0 <= pos < tokens.len()
    &&& (tokens[pos].0 is CloseParen || tokens[pos].0 is Semicolon || tokens[pos].0 is Comma
        || tokens[pos].0 is OpenBrace)
}

/// What is written in two parts stands part behind part.
pub proof fn lemma_written_parts(
    tokens: Tokens,
    pos: int,
    first: Seq<TokenView>,
    second: Seq<TokenView>,
)
    requires
        written_at(tokens, pos, first + second),
    ensures
        written_at(tokens, pos, first),
        written_at(tokens, pos + first.len(), second),
{
    assert forall|i: int| 0 <= i < first.len() implies (#[trigger] tokens[pos + i]).0
        == first[i] by {
        assert((first + second)[i] == first[i]);
    }
    assert forall|i: int| 0 <= i < second.len() implies (#[trigger] tokens[pos + first.len()
        + i]).0 == second[i] by {
        assert(tokens[pos + (first.len() + i)].0 == (first + second)[first.len() as int + i]);
    }
}

/// What is written between parentheses stands between the two parentheses.
pub proof fn lemma_written_in_parentheses(tokens: Tokens, pos: int, inner: Seq<TokenView>)
    requires
        written_at(tokens, pos, in_parentheses(inner)),
    ensures
        pos + inner.len() + 2 <= tokens.len(),
        tokens[pos].0 is OpenParen,
        written_at(tokens, pos + 1, inner),
        tokens[pos + 1 + inner.len()].0 is CloseParen,
{
    let all = in_parentheses(inner);
    assert(tokens[pos + 0].0 == all[0]);
    assert forall|i: int| 0 <= i < inner.len() implies (#[trigger] tokens[pos + 1 + i]).0
        == inner[i] by {
        assert(tokens[pos + (1 + i)].0 == all[1 + i]);
    }
    assert(tokens[pos + (1 + inner.len())].0 == all[1 + inner.len() as int]);
}

/// A single operand with no operator is the expression.
pub proof fn lemma_fold_one(operand: ExpressionView)
    ensures
        fold_operators(seq![operand], seq![]) == operand,
{
    reveal_with_fuel(fold_levels, 6);
    let operands = seq![operand];
    let operators = Seq::<BinaryOperator>::empty();
    assert(fold_level(operands, operators, 0, 0) == (operands, operators));
    assert(fold_level(operands, operators, 1, 0) == (operands, operators));
    assert(fold_level(operands, operators, 2, 0) == (operands, operators));
    assert(fold_level(operands, operators, 3, 0) == (operands, operators));
    assert(fold_level(operands, operators, 4, 0) == (operands, operators));
}

/// Two operands with an operator between them are the operator applied to them.
#[verifier::rlimit(60)]
pub proof fn lemma_fold_two(left: ExpressionView, right: ExpressionView, operator: BinaryOperator)
    ensures
        fold_operators(seq![left, right], seq![operator]) == (ExpressionView::Binary {
            left: Box::new(left),
            right: Box::new(right),
            operator,
        }),
{
    reveal_with_fuel(fold_levels, 6);
    reveal_with_fuel(fold_level, 3);
    let operands = seq![left, right];
    let operators = seq![operator];
    let joined = seq![ExpressionView::Binary {
        left: Box::new(left),
        right: Box::new(right),
        operator,
    }];
    let none = Seq::<BinaryOperator>::empty();
    let own = precedence_level(operator);
    assert forall|level: int| level != own implies fold_level(operands, operators, level, 1) == (
        operands,
        operators,
    ) by {
        let (folded, kept) = fold_level(operands, operators, level, 0);
        assert(folded =~= seq![left]);
        assert(fold_level(operands, operators, level, 1).0 =~= operands);
        assert(fold_level(operands, operators, level, 1).1 =~= operators);
    }
    assert(fold_level(operands, operators, own, 1) == (joined, none)) by {
        let (folded, kept) = fold_level(operands, operators, own, 0);
        assert(folded =~= seq![left]);
        assert(folded.drop_last() =~= Seq::<ExpressionView>::empty());
        assert(fold_level(operands, operators, own, 1).0 =~= joined);
    }
    assert forall|level: int| fold_level(joined, none, level, 0) == (joined, none) by {
        assert(fold_level(joined, none, level, 0).0 =~= joined);
    }
    let l0 = fold_levels(operands, operators, 0);
    let l1 = fold_levels(operands, operators, 1);
    let l2 = fold_levels(operands, operators, 2);
    let l3 = fold_levels(operands, operators, 3);
    let l4 = fold_levels(operands, operators, 4);
    let l5 = fold_levels(operands, operators, 5);
    assert(l0 == (operands, operators));
    assert(l1 == fold_level(l0.0, l0.1, 0, l0.1.len() as int));
    assert(l2 == fold_level(l1.0, l1.1, 1, l1.1.len() as int));
    assert(l3 == fold_level(l2.0, l2.1, 2, l2.1.len() as int));
    assert(l4 == fold_level(l3.0, l3.1, 3, l3.1.len() as int));
    assert(l5 == fold_level(l4.0, l4.1, 4, l4.1.len() as int));
    assert(l5.0[0] == joined[0]);
}

/// No operator begins with a token that can follow an expression.
pub proof fn lemma_no_operator(tokens: Tokens, pos: int)
    requires
        expression_ends_at(tokens, pos),
    ensures
        binary_operator(tokens, pos) == (None::<BinaryOperator>, pos),
{
}

/// The tokens of an operator, followed by `(`, are read as the operator.
pub proof fn lemma_operator_read(tokens: Tokens, pos: int, operator: BinaryOperator)
    requires
        can_be_written(operator),
        written_at(tokens, pos, operator_tokens(operator)),
        pos + operator_tokens(operator).len() < tokens.len(),
        tokens[pos + operator_tokens(operator).len()].0 is OpenParen,
    ensures
        binary_operator(tokens, pos) == (Some(operator), pos + operator_tokens(operator).len()),
        operator_tokens(operator).len() >= 1,
{
    let written = operator_tokens(operator);
    assert(tokens[pos + 0].0 == written[0]);
    if written.len() == 2 {
        assert(tokens[pos + 1].0 == written[1]);
    }
}

/// Whether reading gave, up to `end`, a piece of syntax that is `expected` but
/// for the places of its parts.
pub open spec fn reads_expression(read: Parsed<ExpressionView>, end: int, expected: ExpressionView)
    -> bool {
    &&& read.position == end
    &&& read.result is Ok
    &&& bare_expression(read.result->Ok_0) == bare_expression(expected)
}

/// Whether the expressions are, place by place, those from `from` on of
/// `expected`, but for the places of their parts.
pub open spec fn same_expressions(
    read: Seq<ExpressionView>,
    expected: Seq<ExpressionView>,
    from: int,
) -> bool {
    &&& read.len() == expected.len() - from
    &&& forall|i: int|
        0 <= i < read.len() ==> bare_expression(#[trigger] read[i]) == bare_expression(
            expected[from + i],
        )
}

/// An expression in parentheses is read as an operand.
pub proof fn lemma_atom_read(expr: ExpressionView, tokens: Tokens, pos: int)
    requires
        writable_expression(expr),
        written_at(tokens, pos, in_parentheses(written_expression(expr))),
    ensures
        reads_expression(
            unary_expression(tokens, pos),
            pos + written_expression(expr).len() + 2,
            expr,
        ),
    decreases expr, 3int,
{
    let inner = written_expression(expr);
    lemma_written_in_parentheses(tokens, pos, inner);
    lemma_expression_read(expr, tokens, pos + 1);
}

/// A written expression is read back.
#[verifier::rlimit(60)]
pub proof fn lemma_expression_read(expr: ExpressionView, tokens: Tokens, pos: int)
    requires
        writable_expression(expr),
        written_at(tokens, pos, written_expression(expr)),
        expression_ends_at(tokens, pos + written_expression(expr).len()),
    ensures
        reads_expression(expression(tokens, pos), pos + written_expression(expr).len(), expr),
    decreases expr, 2int,
{
    let end = pos + written_expression(expr).len();
    match expr {
        ExpressionView::Binary { left, right, operator } => {
            let first = in_parentheses(written_expression(*left));
            let sign = operator_tokens(operator);
            let second = in_parentheses(written_expression(*right));
            lemma_written_parts(tokens, pos, first + sign, second);
            lemma_written_parts(tokens, pos, first, sign);
            let at1 = pos + first.len();
            let at2 = at1 + sign.len();
            lemma_atom_read(*left, tokens, pos);
            lemma_written_in_parentheses(tokens, at2, written_expression(*right));
            lemma_operator_read(tokens, at1, operator);
            lemma_atom_read(*right, tokens, at2);
            lemma_no_operator(tokens, end);
            let one = unary_expression(tokens, pos).result->Ok_0;
            let two = unary_expression(tokens, at2).result->Ok_0;
            assert(operand_row(tokens, at2) == (Parsed {
                result: Ok::<OperandRow, Seq<ErrorView>>(
                    OperandRow { operands: seq![two], operators: seq![] },
                ),
                position: end,
            }));
            assert(went_forward(tokens, pos, at2));
            assert(seq![one] + seq![two] =~= seq![one, two]);
            assert(seq![operator] + Seq::<BinaryOperator>::empty() =~= seq![operator]);
            assert(operand_row(tokens, pos) == (Parsed {
                result: Ok::<OperandRow, Seq<ErrorView>>(
                    OperandRow { operands: seq![one, two], operators: seq![operator] },
                ),
                position: end,
            }));
            lemma_fold_two(one, two, operator);
        },
        _ => {
            lemma_operand_read(expr, tokens, pos);
            lemma_no_operator(tokens, end);
            let one = unary_expression(tokens, pos).result->Ok_0;
            assert(operand_row(tokens, pos) == (Parsed {
                result: Ok::<OperandRow, Seq<ErrorView>>(
                    OperandRow { operands: seq![one], operators: seq![] },
                ),
                position: end,
            }));
            lemma_fold_one(one);
        },
    }
}

/// A written expression that is no operation on two operands is read back as an
/// operand.
pub proof fn lemma_operand_read(expr: ExpressionView, tokens: Tokens, pos: int)
    requires
        writable_expression(expr),
        !(expr is Binary),
        written_at(tokens, pos, written_expression(expr)),
        expression_ends_at(tokens, pos + written_expression(expr).len()),
    ensures
        reads_expression(
            unary_expression(tokens, pos),
            pos + written_expression(expr).len(),
            expr,
        ),
    decreases expr, 1int,
{
    let written = written_expression(expr);
    match expr {
        ExpressionView::Unary { value, operator } => {
            let sign = seq![
                match operator {
                    UnaryOperator::Negate => TokenView::Minus,
                    UnaryOperator::Not => TokenView::Tilda,
                },
            ];
            lemma_written_parts(tokens, pos, sign, in_parentheses(written_expression(*value)));
            assert(tokens[pos + 0].0 == sign[0]);
            lemma_atom_read(*value, tokens, pos + 1);
            assert(went_forward(tokens, pos, pos + 1));
        },
        ExpressionView::Call(call) => {
            lemma_call_read(call, tokens, pos);
            let name = seq![TokenView::Identifier(call.function_name)];
            lemma_written_parts(
                tokens,
                pos,
                name,
                in_parentheses(written_arguments(call.arguments, 0)),
            );
            lemma_written_in_parentheses(tokens, pos + 1, written_arguments(call.arguments, 0));
            assert(tokens[pos + 0].0 == name[0]);
        },
        ExpressionView::Variable { name, pos: place } => {
            assert(tokens[pos + 0].0 == written[0]);
        },
        ExpressionView::Literal(value) => {
            assert(tokens[pos + 0].0 == written[0]);
        },
        _ => {},
    }
}

/// Written arguments, closed by `)`, are read back.
#[verifier::rlimit(60)]
pub proof fn lemma_arguments_read(
    arguments_written: Seq<ExpressionView>,
    from: int,
    tokens: Tokens,
    pos: int,
)
    requires
        0 <= from < arguments_written.len(),
        writable_arguments(arguments_written, from),
        written_at(
            tokens,
            pos,
            written_arguments(arguments_written, from) + seq![TokenView::CloseParen],
        ),
    ensures
        arguments(tokens, pos).position == pos + written_arguments(arguments_written, from).len(),
        arguments(tokens, pos).result is Ok,
        same_expressions(arguments(tokens, pos).result->Ok_0, arguments_written, from),
    decreases arguments_written, arguments_written.len() - from,
{
    let first = written_expression(arguments_written[from]);
    let close = seq![TokenView::CloseParen];
    if from + 1 == arguments_written.len() {
        lemma_written_parts(tokens, pos, first, close);
        assert(tokens[pos + first.len() + 0].0 == close[0]);
        lemma_expression_read(arguments_written[from], tokens, pos);
    } else {
        let comma = seq![TokenView::Comma];
        let rest = written_arguments(arguments_written, from + 1);
        assert(written_arguments(arguments_written, from) + close =~= first + (comma + (rest
            + close)));
        lemma_written_parts(tokens, pos, first, comma + (rest + close));
        lemma_written_parts(tokens, pos + first.len(), comma, rest + close);
        assert(tokens[pos + first.len() + 0].0 == comma[0]);
        lemma_expression_read(arguments_written[from], tokens, pos);
        let next = pos + first.len() + 1;
        lemma_arguments_read(arguments_written, from + 1, tokens, next);
        assert(went_forward(tokens, pos, next));
        let one = expression(tokens, pos).result->Ok_0;
        let others = arguments(tokens, next).result->Ok_0;
        let all = seq![one] + others;
        assert(arguments(tokens, pos).result == Ok::<Seq<ExpressionView>, Seq<ErrorView>>(all));
        assert forall|i: int| 0 <= i < all.len() implies bare_expression(#[trigger] all[i])
            == bare_expression(arguments_written[from + i]) by {
            if i > 0 {
                assert(all[i] == others[i - 1]);
            }
        }
    }
}

/// A written call is read back.
#[verifier::rlimit(60)]
pub proof fn lemma_call_read(written: CallView, tokens: Tokens, pos: int)
    requires
        writable_call(written),
        written_at(tokens, pos, written_call(written)),
    ensures
        call(tokens, pos).position == pos + written_call(written).len(),
        call(tokens, pos).result is Ok,
        bare_call(call(tokens, pos).result->Ok_0) == bare_call(written),
    decreases written, 0int,
{
    let name = seq![TokenView::Identifier(written.function_name)];
    let inner = written_arguments(written.arguments, 0);
    lemma_written_parts(tokens, pos, name, in_parentheses(inner));
    lemma_written_in_parentheses(tokens, pos + 1, inner);
    assert(tokens[pos + 0].0 == name[0]);
    let at2 = pos + 2;
    assert(went_forward(tokens, pos, at2));
    if written.arguments.len() == 0 {
        assert(tokens[at2].0 is CloseParen);
        assert(argument_list(tokens, at2).result == Ok::<
            Seq<ExpressionView>,
            Seq<ErrorView>,
        >(Seq::empty()));
        let read = call(tokens, pos).result->Ok_0;
        assert(bare_expressions(read.arguments) =~= bare_expressions(written.arguments));
    } else {
        assert(written_at(tokens, at2, inner + seq![TokenView::CloseParen])) by {
            let all = inner + seq![TokenView::CloseParen];
            assert forall|i: int| 0 <= i < all.len() implies (#[trigger] tokens[at2 + i]).0
                == all[i] by {
                if i < inner.len() {
                    assert(tokens[pos + 1 + 1 + i].0 == inner[i]);
                }
            }
        }
        lemma_arguments_read(written.arguments, 0, tokens, at2);
        lemma_expression_begins(written.arguments[0]);
        assert(tokens[at2 + 0].0 == written_expression(written.arguments[0])[0]) by {
            let all = inner + seq![TokenView::CloseParen];
            assert(all[0] == written_expression(written.arguments[0])[0]);
        }
        assert(argument_list(tokens, at2) == arguments(tokens, at2));
        let read = call(tokens, pos).result->Ok_0;
        assert(bare_expressions(read.arguments) =~= bare_expressions(written.arguments));
    }
}

/// The statements from `from` on, one behind the other.
pub open spec fn written_statements(statements: Seq<StatementView>, from: int) -> Seq<TokenView>
    decreases statements, statements.len() - from,
{
    if 0 <= from < statements.len() {
        written_statement(statements[from]) + written_statements(statements, from + 1)
    } else {
        seq![]
    }
}

/// A block: its statements in braces.
pub open spec fn written_block(statements: Seq<StatementView>) -> Seq<TokenView>
    decreases statements, statements.len() + 1,
{
    seq![TokenView::OpenBrace] + written_statements(statements, 0) + seq![
        TokenView::CloseBrace,
    ]
}

/// The segments of an `if` statement from `from` on: each a condition and a
/// block, with `else if` between them.
pub open spec fn written_segments(segments: Seq<IfSegmentView>, from: int) -> Seq<TokenView>
    decreases segments, segments.len() - from,
{
    if 0 <= from < segments.len() {
        written_expression(segments[from].condition) + written_block(segments[from].block)
            + if from + 1 < segments.len() {
            seq![TokenView::Else, TokenView::If] + written_segments(segments, from + 1)
        } else {
            seq![]
        }
    } else {
        seq![]
    }
}

/// A statement written without ambiguity.
pub open spec fn written_statement(statement: StatementView) -> Seq<TokenView>
    decreases statement, 1int,
{
    match statement {
        StatementView::Assignment { variable_name, variable_name_ref, value } => seq![
            TokenView::Identifier(variable_name),
            TokenView::Equals,
        ] + written_expression(value) + seq![TokenView::Semicolon],
        StatementView::If { segments, else_block } => seq![TokenView::If] + written_segments(
            segments,
            0,
        ) + match else_block {
            Some(block) => seq![TokenView::Else] + written_block(block),
            None => seq![],
        },
        StatementView::While { condition, block } => seq![TokenView::While] + written_expression(
            condition,
        ) + written_block(block),
        StatementView::Call(call) => written_call(call) + seq![TokenView::Semicolon],
        StatementView::Return(position) => seq![TokenView::Return, TokenView::Semicolon],
        StatementView::ReturnValue { value, value_ref } => seq![TokenView::Return]
            + written_expression(value) + seq![TokenView::Semicolon],
        StatementView::Continue(position) => seq![TokenView::Continue, TokenView::Semicolon],
        StatementView::Break(position) => seq![TokenView::Break, TokenView::Semicolon],
    }
}

/// Whether the statements from `from` on can be written.
pub open spec fn writable_statements(statements: Seq<StatementView>, from: int) -> bool
    decreases statements, statements.len() - from,
{
    if 0 <= from < statements.len() {
        writable_statement(statements[from]) && writable_statements(statements, from + 1)
    } else {
        true
    }
}

/// Whether the segments from `from` on can be written.
pub open spec fn writable_segments(segments: Seq<IfSegmentView>, from: int) -> bool
    decreases segments, segments.len() - from,
{
    if 0 <= from < segments.len() {
        writable_expression(segments[from].condition) && writable_statements(
            segments[from].block,
            0,
        ) && writable_segments(segments, from + 1)
    } else {
        true
    }
}

/// Whether the statement can be written: its expressions can, and an `if`
/// statement has a segment.
pub open spec fn writable_statement(statement: StatementView) -> bool
    decreases statement, 1int,
{
    match statement {
        StatementView::Assignment { variable_name, variable_name_ref, value } => {
            writable_expression(value)
        },
        StatementView::If { segments, else_block } => segments.len() > 0 && writable_segments(
            segments,
            0,
        ) && match else_block {
            Some(block) => writable_statements(block, 0),
            None => true,
        },
        StatementView::While { condition, block } => writable_expression(condition)
            && writable_statements(block, 0),
        StatementView::Call(call) => writable_call(call),
        StatementView::ReturnValue { value, value_ref } => writable_expression(value),
        _ => true,
    }
}

/// The statements without the places of their parts.
pub open spec fn bare_statements(statements: Seq<StatementView>) -> Seq<StatementView>
    decreases statements, 0int,
{
    Seq::new(
        statements.len(),
        |i: int|
            if 0 <= i < statements.len() {
                bare_statement(statements[i])
            } else {
                arbitrary()
            },
    )
}

/// The segments without the places of their parts.
pub open spec fn bare_segments(segments: Seq<IfSegmentView>) -> Seq<IfSegmentView>
    decreases segments, 0int,
{
    Seq::new(
        segments.len(),
        |i: int|
            if 0 <= i < segments.len() {
                IfSegmentView {
                    condition: bare_expression(segments[i].condition),
                    block: bare_statements(segments[i].block),
                }
            } else {
                arbitrary()
            },
    )
}

/// The statement without the places of its parts.
pub open spec fn bare_statement(statement: StatementView) -> StatementView
    decreases statement, 1int,
{
    match statement {
        StatementView::Assignment { variable_name, variable_name_ref, value } => {
            StatementView::Assignment {
                variable_name,
                variable_name_ref: nowhere(),
                value: bare_expression(value),
            }
        },
        StatementView::If { segments, else_block } => StatementView::If {
            segments: bare_segments(segments),
            else_block: match else_block {
                Some(block) => Some(bare_statements(block)),
                None => None,
            },
        },
        StatementView::While { condition, block } => StatementView::While {
            condition: bare_expression(condition),
            block: bare_statements(block),
        },
        StatementView::Call(call) => StatementView::Call(bare_call(call)),
        StatementView::Return(position) => StatementView::Return(nowhere()),
        StatementView::ReturnValue { value, value_ref } => StatementView::ReturnValue {
            value: bare_expression(value),
            value_ref: nowhere(),
        },
        StatementView::Continue(position) => StatementView::Continue(nowhere()),
        StatementView::Break(position) => StatementView::Break(nowhere()),
    }
}

/// The parameter names from `from` on, with commas between them.
pub open spec fn written_parameters(names: Seq<Seq<char>>, from: int) -> Seq<TokenView>
    decreases names.len() - from,
{
    if 0 <= from < names.len() {
        if from + 1 == names.len() {
            seq![TokenView::Identifier(names[from])]
        } else {
            seq![TokenView::Identifier(names[from]), TokenView::Comma] + written_parameters(
                names,
                from + 1,
            )
        }
    } else {
        seq![]
    }
}

/// A function definition: what it returns, its name, its parameters in
/// parentheses and its block.
pub open spec fn written_function(function: FunctionView) -> Seq<TokenView> {
    seq![
        if function.returns_value {
            TokenView::Int
        } else {
            TokenView::Void
        },
        TokenView::Identifier(function.name),
    ] + in_parentheses(written_parameters(function.argument_names, 0)) + written_block(
        function.block,
    )
}

/// The functions from `from` on, one behind the other.
pub open spec fn written_functions(functions: Seq<FunctionView>, from: int) -> Seq<TokenView>
    decreases functions.len() - from,
{
    if 0 <= from < functions.len() {
        written_function(functions[from]) + written_functions(functions, from + 1)
    } else {
        seq![]
    }
}

/// A module: its functions, and `EndOfFile` behind the last.
pub open spec fn written_module(functions: Seq<FunctionView>) -> Seq<TokenView> {
    written_functions(functions, 0) + seq![TokenView::EndOfFile]
}

/// Whether the functions from `from` on can be written.
pub open spec fn writable_functions(functions: Seq<FunctionView>, from: int) -> bool
    decreases functions.len() - from,
{
    if 0 <= from < functions.len() {
        writable_statements(functions[from].block, 0) && writable_functions(functions, from + 1)
    } else {
        true
    }
}

/// The function without the places of its parts.
pub open spec fn bare_function(function: FunctionView) -> FunctionView {
    FunctionView {
        name: function.name,
        name_ref: nowhere(),
        argument_names: function.argument_names,
        block: bare_statements(function.block),
        returns_value: function.returns_value,
    }
}

/// The functions without the places of their parts.
pub open spec fn bare_functions(functions: Seq<FunctionView>) -> Seq<FunctionView> {
    Seq::new(functions.len(), |i: int| bare_function(functions[i]))
}

/// Whether reading gave, up to `end`, a statement that is `expected` but for the
/// places of its parts.
pub open spec fn reads_statement(read: Parsed<StatementView>, end: int, expected: StatementView)
    -> bool {
    &&& read.position == end
    &&& read.result is Ok
    &&& bare_statement(read.result->Ok_0) == bare_statement(expected)
}

/// Whether the statements are, place by place, those from `from` on of
/// `expected`, but for the places of their parts.
pub open spec fn same_statements(
    read: Seq<StatementView>,
    expected: Seq<StatementView>,
    from: int,
) -> bool {
    &&& read.len() == expected.len() - from
    &&& forall|i: int|
        0 <= i < read.len() ==> bare_statement(#[trigger] read[i]) == bare_statement(
            expected[from + i],
        )
}

/// Whether the segments are, place by place, the first `count` of `expected`,
/// but for the places of their parts.
pub open spec fn same_segments(read: Seq<IfSegmentView>, expected: Seq<IfSegmentView>, count: int)
    -> bool {
    &&& read.len() == count
    &&& count <= expected.len()
    &&& forall|i: int|
        0 <= i < count ==> bare_expression((#[trigger] read[i]).condition) == bare_expression(
            expected[i].condition,
        ) && bare_statements(read[i].block) == bare_statements(expected[i].block)
}

/// Whether the token at `pos` can follow a statement: it is there and is no `else`.
pub open spec fn statement_ends_at(tokens: Tokens, pos: int) -> bool {
    0 <= pos < tokens.len() && !(tokens[pos].0 is Else)
}

/// Whether a statement can begin with the token.
pub open spec fn begins_statement(token: TokenView) -> bool {
    token is Identifier || token is If || token is While || token is Continue || token is Break
        || token is Return
}

/// A written expression begins with a token that begins an operand.
pub proof fn lemma_expression_begins(expr: ExpressionView)
    ensures
        written_expression(expr).len() > 0,
        written_expression(expr)[0] is OpenParen || written_expression(expr)[0] is Minus
            || written_expression(expr)[0] is Tilda || written_expression(expr)[0]
            is Identifier || written_expression(expr)[0] is Number,
{
    match expr {
        ExpressionView::Call(call) => {
            assert(written_call(call)[0] == TokenView::Identifier(call.function_name));
        },
        _ => {},
    }
}

/// A written statement begins with a token that begins a statement.
pub proof fn lemma_statement_begins(statement: StatementView)
    ensures
        written_statement(statement).len() > 0,
        begins_statement(written_statement(statement)[0]),
{
    match statement {
        StatementView::Call(call) => {
            assert(written_call(call)[0] == TokenView::Identifier(call.function_name));
        },
        _ => {},
    }
}

/// The tokens behind written statements in a block begin a statement or close
/// the block.
pub proof fn lemma_statements_begin(statements: Seq<StatementView>, from: int)
    requires
        0 <= from <= statements.len(),
    ensures
        ({
            let written = written_statements(statements, from) + seq![TokenView::CloseBrace];
            written.len() > 0 && (begins_statement(written[0]) || written[0] is CloseBrace)
        }),
{
    if from < statements.len() {
        lemma_statement_begins(statements[from]);
        let first = written_statement(statements[from]);
        let written = written_statements(statements, from) + seq![TokenView::CloseBrace];
        assert(written[0] == first[0]);
    }
}

/// Written statements, closed by `}`, are read back.
#[verifier::rlimit(60)]
pub proof fn lemma_statements_read(
    statements: Seq<StatementView>,
    from: int,
    tokens: Tokens,
    pos: int,
)
    requires
        0 <= from <= statements.len(),
        writable_statements(statements, from),
        written_at(
            tokens,
            pos,
            written_statements(statements, from) + seq![TokenView::CloseBrace],
        ),
    ensures
        block_items(tokens, pos).position == pos + written_statements(statements, from).len()
            + 1,
        block_items(tokens, pos).errors.len() == 0,
        same_statements(block_items(tokens, pos).items, statements, from),
    decreases statements, statements.len() - from,
{
    let close = seq![TokenView::CloseBrace];
    if from < statements.len() {
        let first = written_statement(statements[from]);
        let rest = written_statements(statements, from + 1);
        assert(written_statements(statements, from) + close =~= first + (rest + close));
        lemma_written_parts(tokens, pos, first, rest + close);
        lemma_statement_begins(statements[from]);
        lemma_statements_begin(statements, from + 1);
        assert(tokens[pos + 0].0 == first[0]);
        let next = pos + first.len();
        assert(tokens[next + 0].0 == (rest + close)[0]);
        lemma_statement_read(statements[from], tokens, pos);
        lemma_statements_read(statements, from + 1, tokens, next);
        assert(went_forward(tokens, pos, next));
        let one = statement(tokens, pos).result->Ok_0;
        let others = block_items(tokens, next);
        let all = seq![one] + others.items;
        assert(block_items(tokens, pos).items == all);
        assert forall|i: int| 0 <= i < all.len() implies bare_statement(#[trigger] all[i])
            == bare_statement(statements[from + i]) by {
            if i > 0 {
                assert(all[i] == others.items[i - 1]);
            }
        }
    } else {
        assert(tokens[pos + 0].0 == close[0]);
    }
}

/// A written block is read back.
pub proof fn lemma_block_read(statements: Seq<StatementView>, tokens: Tokens, pos: int)
    requires
        writable_statements(statements, 0),
        written_at(tokens, pos, written_block(statements)),
    ensures
        block(tokens, pos).position == pos + written_block(statements).len(),
        block(tokens, pos).result is Ok,
        bare_statements(block(tokens, pos).result->Ok_0) == bare_statements(statements),
    decreases statements, statements.len() + 1,
{
    let open = seq![TokenView::OpenBrace];
    let inner = written_statements(statements, 0);
    let close = seq![TokenView::CloseBrace];
    assert(written_block(statements) =~= open + (inner + close));
    lemma_written_parts(tokens, pos, open, inner + close);
    assert(tokens[pos + 0].0 == open[0]);
    lemma_statements_read(statements, 0, tokens, pos + 1);
    assert(went_forward(tokens, pos, pos + 1));
    let read = block(tokens, pos).result->Ok_0;
    assert(bare_statements(read) =~= bare_statements(statements));
}

/// What follows the segments of an `if` statement: `else` and a block, or nothing.
pub open spec fn written_else(else_block: Option<Seq<StatementView>>) -> Seq<TokenView> {
    match else_block {
        Some(statements) => seq![TokenView::Else] + written_block(statements),
        None => seq![],
    }
}

/// Whether what follows the segments of an `if` statement can be written.
pub open spec fn writable_else(else_block: Option<Seq<StatementView>>) -> bool {
    match else_block {
        Some(statements) => writable_statements(statements, 0),
        None => true,
    }
}

/// The segments of an `if` statement; of another statement, none.
pub open spec fn segments_of(statement: StatementView) -> Seq<IfSegmentView> {
    match statement {
        StatementView::If { segments, else_block } => segments,
        _ => seq![],
    }
}

/// The `else` block of an `if` statement, if it has one.
pub open spec fn else_of(statement: StatementView) -> Option<Seq<StatementView>> {
    match statement {
        StatementView::If { segments, else_block } => else_block,
        _ => None,
    }
}

/// A written segment of an `if` statement is read back.
#[verifier::rlimit(60)]
pub proof fn lemma_segment_read(expected: StatementView, from: int, tokens: Tokens, pos: int)
    requires
        expected is If,
        0 <= from < segments_of(expected).len(),
        writable_segments(segments_of(expected), from),
        written_at(
            tokens,
            pos,
            written_expression(segments_of(expected)[from].condition) + written_block(
                segments_of(expected)[from].block,
            ),
        ),
    ensures
        if_segment(tokens, pos).result is Ok,
        if_segment(tokens, pos).position == pos + written_expression(
            segments_of(expected)[from].condition,
        ).len() + written_block(segments_of(expected)[from].block).len(),
        went_forward(tokens, pos, if_segment(tokens, pos).position),
        bare_expression((if_segment(tokens, pos).result->Ok_0).condition) == bare_expression(
            segments_of(expected)[from].condition,
        ),
        bare_statements((if_segment(tokens, pos).result->Ok_0).block) == bare_statements(
            segments_of(expected)[from].block,
        ),
    decreases expected, 0int,
{
    let segments = segments_of(expected);
    let condition = written_expression(segments[from].condition);
    let body = written_block(segments[from].block);
    lemma_written_parts(tokens, pos, condition, body);
    let at1 = pos + condition.len();
    assert(tokens[at1 + 0].0 == body[0]);
    lemma_expression_begins(segments[from].condition);
    lemma_expression_read(segments[from].condition, tokens, pos);
    lemma_block_read(segments[from].block, tokens, at1);
}

/// What is written behind the last segment of an `if` statement is read back
/// and closes the statement.
pub proof fn lemma_chain_end_read(
    expected: StatementView,
    tokens: Tokens,
    pos: int,
    read: Seq<IfSegmentView>,
)
    requires
        expected is If,
        writable_else(else_of(expected)),
        same_segments(read, segments_of(expected), segments_of(expected).len() as int),
        written_at(tokens, pos, written_else(else_of(expected))),
        statement_ends_at(tokens, pos + written_else(else_of(expected)).len()),
    ensures
        reads_statement(
            else_chain(tokens, pos, read),
            pos + written_else(else_of(expected)).len(),
            expected,
        ),
    decreases expected, 0int,
{
    let segments = segments_of(expected);
    assert(bare_segments(read) =~= bare_segments(segments));
    match else_of(expected) {
        Some(statements) => {
            let word = seq![TokenView::Else];
            lemma_written_parts(tokens, pos, word, written_block(statements));
            assert(tokens[pos + 0].0 == word[0]);
            assert(tokens[pos + 1 + 0].0 == written_block(statements)[0]);
            lemma_block_read(statements, tokens, pos + 1);
            assert(went_forward(tokens, pos, pos + 1));
        },
        None => {},
    }
}

/// What is written from the segment at `from` on is read back and closes the
/// `if` statement.
#[verifier::rlimit(60)]
pub proof fn lemma_chain_read(
    expected: StatementView,
    from: int,
    tokens: Tokens,
    pos: int,
    so_far: Seq<IfSegmentView>,
)
    requires
        expected is If,
        0 <= from < segments_of(expected).len(),
        writable_segments(segments_of(expected), from),
        writable_else(else_of(expected)),
        same_segments(so_far, segments_of(expected), from),
        written_at(
            tokens,
            pos,
            written_segments(segments_of(expected), from) + written_else(else_of(expected)),
        ),
        statement_ends_at(
            tokens,
            pos + written_segments(segments_of(expected), from).len() + written_else(
                else_of(expected),
            ).len(),
        ),
    ensures
        if_segment(tokens, pos).result is Ok,
        went_forward(tokens, pos, if_segment(tokens, pos).position),
        reads_statement(
            else_chain(
                tokens,
                if_segment(tokens, pos).position,
                so_far.push(if_segment(tokens, pos).result->Ok_0),
            ),
            pos + written_segments(segments_of(expected), from).len() + written_else(
                else_of(expected),
            ).len(),
            expected,
        ),
    decreases expected, segments_of(expected).len() - from,
{
    let segments = segments_of(expected);
    let one = written_expression(segments[from].condition) + written_block(
        segments[from].block,
    );
    let more = if from + 1 < segments.len() {
        seq![TokenView::Else, TokenView::If] + written_segments(segments, from + 1)
    } else {
        seq![]
    };
    let last = written_else(else_of(expected));
    assert(written_segments(segments, from) + last =~= one + (more + last));
    lemma_written_parts(tokens, pos, one, more + last);
    lemma_segment_read(expected, from, tokens, pos);
    let at2 = pos + one.len();
    let segment = if_segment(tokens, pos).result->Ok_0;
    let read = so_far.push(segment);
    assert(same_segments(read, segments, from + 1)) by {
        assert forall|i: int| 0 <= i < from + 1 implies bare_expression(
            (#[trigger] read[i]).condition,
        ) == bare_expression(segments[i].condition) && bare_statements(read[i].block)
            == bare_statements(segments[i].block) by {
            if i < from {
                assert(read[i] == so_far[i]);
            }
        }
    }
    if from + 1 < segments.len() {
        let link = seq![TokenView::Else, TokenView::If];
        assert(more + last =~= link + (written_segments(segments, from + 1) + last));
        lemma_written_parts(tokens, at2, link, written_segments(segments, from + 1) + last);
        assert(tokens[at2 + 0].0 == link[0]);
        assert(tokens[at2 + 1].0 == link[1]);
        lemma_chain_read(expected, from + 1, tokens, at2 + 2, read);
        assert(went_forward(tokens, at2, at2 + 1));
    } else {
        assert(more + last =~= last);
        lemma_chain_end_read(expected, tokens, at2, read);
    }
}

/// A written `if` statement is read back.
pub proof fn lemma_if_read(expected: StatementView, tokens: Tokens, pos: int)
    requires
        expected is If,
        writable_statement(expected),
        written_at(tokens, pos, written_statement(expected)),
        statement_ends_at(tokens, pos + written_statement(expected).len()),
    ensures
        reads_statement(
            statement(tokens, pos),
            pos + written_statement(expected).len(),
            expected,
        ),
    decreases expected, segments_of(expected).len() + 1,
{
    let segments = segments_of(expected);
    let word = seq![TokenView::If];
    let last = written_else(else_of(expected));
    assert(written_statement(expected) =~= word + (written_segments(segments, 0) + last));
    lemma_written_parts(tokens, pos, word, written_segments(segments, 0) + last);
    assert(tokens[pos + 0].0 == word[0]);
    lemma_chain_read(expected, 0, tokens, pos + 1, seq![]);
    assert(went_forward(tokens, pos, pos + 1));
    let first = if_segment(tokens, pos + 1);
    assert(Seq::<IfSegmentView>::empty().push(first.result->Ok_0) =~= seq![first.result->Ok_0]);
}

/// A written assignment is read back.
pub proof fn lemma_assignment_read(expected: StatementView, tokens: Tokens, pos: int)
    requires
        expected is Assignment,
        writable_statement(expected),
        written_at(tokens, pos, written_statement(expected)),
    ensures
        reads_statement(
            statement(tokens, pos),
            pos + written_statement(expected).len(),
            expected,
        ),
    decreases expected, 0int,
{
    match expected {
        StatementView::Assignment { variable_name, variable_name_ref, value } => {
            let semicolon = seq![TokenView::Semicolon];
            let head = seq![TokenView::Identifier(variable_name), TokenView::Equals];
            let body = written_expression(value);
            assert(written_statement(expected) =~= head + (body + semicolon));
            lemma_written_parts(tokens, pos, head, body + semicolon);
            lemma_written_parts(tokens, pos + 2, body, semicolon);
            assert(tokens[pos + 0].0 == head[0]);
            assert(tokens[pos + 1].0 == head[1]);
            assert(tokens[pos + 2 + body.len() + 0].0 == semicolon[0]);
            lemma_expression_read(value, tokens, pos + 2);
            let read = identifier_statement_body(tokens, pos, variable_name);
            assert(read.position == pos + 2 + body.len());
        },
        _ => {},
    }
}

/// The tokens of the compound assignment `name sign= value;`.
pub open spec fn written_compound(name: Seq<char>, sign: TokenView, value: ExpressionView) -> Seq<
    TokenView,
> {
    seq![TokenView::Identifier(name), sign, TokenView::Equals] + written_expression(value) + seq![
        TokenView::Semicolon,
    ]
}

/// The assignment for which a compound assignment stands: `name = name operator value`.
pub open spec fn spelled_out(name: Seq<char>, operator: BinaryOperator, value: ExpressionView)
    -> StatementView {
    StatementView::Assignment {
        variable_name: name,
        variable_name_ref: nowhere(),
        value: ExpressionView::Binary {
            left: Box::new(ExpressionView::Variable { name, pos: nowhere() }),
            right: Box::new(value),
            operator,
        },
    }
}

/// A compound assignment is read as the assignment for which it stands: from
/// `x += e;` the parser makes, but for the places of the parts, what it makes
/// from `x = (x) + (e);`, the assignment of `x + e` to `x`; and so for each of
/// the signs `+ - * / ^ & |`, where `^` gives `Power`.
pub proof fn lemma_compound_assignment_read(
    name: Seq<char>,
    sign: TokenView,
    value: ExpressionView,
    short: Tokens,
    at: int,
    long: Tokens,
    from: int,
)
    requires
        compound_operator(sign) is Some,
        writable_expression(value),
        written_at(short, at, written_compound(name, sign, value)),
        written_at(
            long,
            from,
            written_statement(spelled_out(name, compound_operator(sign)->Some_0, value)),
        ),
    ensures
        reads_statement(
            statement(short, at),
            at + written_compound(name, sign, value).len(),
            spelled_out(name, compound_operator(sign)->Some_0, value),
        ),
        reads_statement(
            statement(long, from),
            from + written_statement(
                spelled_out(name, compound_operator(sign)->Some_0, value),
            ).len(),
            spelled_out(name, compound_operator(sign)->Some_0, value),
        ),
        bare_statement(statement(short, at).result->Ok_0) == bare_statement(
            statement(long, from).result->Ok_0,
        ),
        sign is Carat ==> compound_operator(sign) == Some(BinaryOperator::Power),
{
    let operator = compound_operator(sign)->Some_0;
    let expected = spelled_out(name, operator, value);
    let left = ExpressionView::Variable { name, pos: nowhere() };
    let joined = ExpressionView::Binary {
        left: Box::new(left),
        right: Box::new(value),
        operator,
    };
    assert(can_be_written(operator));
    assert(writable_expression(left));
    assert(writable_expression(joined));
    assert(writable_statement(expected));
    lemma_assignment_read(expected, long, from);
    let semicolon = seq![TokenView::Semicolon];
    let head = seq![TokenView::Identifier(name), sign, TokenView::Equals];
    let body = written_expression(value);
    assert(written_compound(name, sign, value) =~= head + (body + semicolon));
    lemma_written_parts(short, at, head, body + semicolon);
    lemma_written_parts(short, at + 3, body, semicolon);
    assert(short[at + 0].0 == head[0]);
    assert(short[at + 1].0 == head[1]);
    assert(short[at + 2].0 == head[2]);
    assert(short[at + 3 + body.len() + 0].0 == semicolon[0]);
    lemma_expression_read(value, short, at + 3);
    let read = identifier_statement_body(short, at, name);
    assert(read == modify_in_place(short, at + 2, name, short[at].1, operator));
    assert(read.position == at + 3 + body.len());
    let right = expression(short, at + 3).result->Ok_0;
    let made = StatementView::Assignment {
        variable_name: name,
        variable_name_ref: short[at].1,
        value: ExpressionView::Binary {
            left: Box::new(ExpressionView::Variable { name, pos: short[at + 2].1 }),
            right: Box::new(right),
            operator,
        },
    };
    assert(read.result == Ok::<StatementView, Seq<ErrorView>>(made));
    assert(statement(short, at) == closed_by_semicolon(short, read.position, made));
    assert(bare_expression(right) == bare_expression(value));
    assert(bare_expression(ExpressionView::Variable { name, pos: short[at + 2].1 })
        == bare_expression(left));
    assert(bare_expression(made->Assignment_value) == bare_expression(joined));
    assert(bare_statement(made) == bare_statement(expected));
}

/// A written `while` statement is read back.
pub proof fn lemma_while_read(expected: StatementView, tokens: Tokens, pos: int)
    requires
        expected is While,
        writable_statement(expected),
        written_at(tokens, pos, written_statement(expected)),
    ensures
        reads_statement(
            statement(tokens, pos),
            pos + written_statement(expected).len(),
            expected,
        ),
    decreases expected, 0int,
{
    match expected {
        StatementView::While { condition, block: body } => {
            let word = seq![TokenView::While];
            let test = written_expression(condition);
            let inner = written_block(body);
            assert(written_statement(expected) =~= word + (test + inner));
            lemma_written_parts(tokens, pos, word, test + inner);
            lemma_written_parts(tokens, pos + 1, test, inner);
            assert(tokens[pos + 0].0 == word[0]);
            assert(tokens[pos + 1 + test.len() + 0].0 == inner[0]);
            lemma_expression_begins(condition);
            lemma_expression_read(condition, tokens, pos + 1);
            lemma_block_read(body, tokens, pos + 1 + test.len());
            assert(went_forward(tokens, pos, pos + 1));
        },
        _ => {},
    }
}

/// A written call statement is read back.
pub proof fn lemma_call_statement_read(expected: StatementView, tokens: Tokens, pos: int)
    requires
        expected is Call,
        writable_statement(expected),
        written_at(tokens, pos, written_statement(expected)),
    ensures
        reads_statement(
            statement(tokens, pos),
            pos + written_statement(expected).len(),
            expected,
        ),
    decreases expected, 0int,
{
    match expected {
        StatementView::Call(expected_call) => {
            let semicolon = seq![TokenView::Semicolon];
            let body = written_call(expected_call);
            lemma_written_parts(tokens, pos, body, semicolon);
            assert(tokens[pos + body.len() + 0].0 == semicolon[0]);
            let name = seq![TokenView::Identifier(expected_call.function_name)];
            lemma_written_parts(
                tokens,
                pos,
                name,
                in_parentheses(written_arguments(expected_call.arguments, 0)),
            );
            lemma_written_in_parentheses(
                tokens,
                pos + 1,
                written_arguments(expected_call.arguments, 0),
            );
            assert(tokens[pos + 0].0 == name[0]);
            lemma_call_read(expected_call, tokens, pos);
            let read = identifier_statement_body(
                tokens,
                pos,
                expected_call.function_name,
            );
            assert(read.position == pos + body.len());
        },
        _ => {},
    }
}

/// A written `return` with a value is read back.
pub proof fn lemma_return_value_read(expected: StatementView, tokens: Tokens, pos: int)
    requires
        expected is ReturnValue,
        writable_statement(expected),
        written_at(tokens, pos, written_statement(expected)),
    ensures
        reads_statement(
            statement(tokens, pos),
            pos + written_statement(expected).len(),
            expected,
        ),
    decreases expected, 0int,
{
    match expected {
        StatementView::ReturnValue { value, value_ref } => {
            let semicolon = seq![TokenView::Semicolon];
            let word = seq![TokenView::Return];
            let body = written_expression(value);
            assert(written_statement(expected) =~= word + (body + semicolon));
            lemma_written_parts(tokens, pos, word, body + semicolon);
            lemma_written_parts(tokens, pos + 1, body, semicolon);
            assert(tokens[pos + 0].0 == word[0]);
            assert(tokens[pos + 1 + body.len() + 0].0 == semicolon[0]);
            lemma_expression_begins(value);
            assert(tokens[pos + 1 + 0].0 == body[0]);
            lemma_expression_read(value, tokens, pos + 1);
            let read = return_statement(tokens, pos + 1);
            assert(read.position == pos + 2 + body.len());
        },
        _ => {},
    }
}

/// A written statement of a keyword alone is read back.
pub proof fn lemma_keyword_read(expected: StatementView, tokens: Tokens, pos: int)
    requires
        expected is Return || expected is Continue || expected is Break,
        written_at(tokens, pos, written_statement(expected)),
    ensures
        reads_statement(
            statement(tokens, pos),
            pos + written_statement(expected).len(),
            expected,
        ),
{
    let written = written_statement(expected);
    assert(tokens[pos + 0].0 == written[0]);
    assert(tokens[pos + 1].0 == written[1]);
}

/// The number of steps that reading a statement back takes at most before it
/// reads a part of the statement.
pub open spec fn reading_steps(statement: StatementView) -> int {
    segments_of(statement).len() as int + 2
}

/// A written statement is read back.
pub proof fn lemma_statement_read(expected: StatementView, tokens: Tokens, pos: int)
    requires
        writable_statement(expected),
        written_at(tokens, pos, written_statement(expected)),
        statement_ends_at(tokens, pos + written_statement(expected).len()),
    ensures
        reads_statement(
            statement(tokens, pos),
            pos + written_statement(expected).len(),
            expected,
        ),
    decreases expected, reading_steps(expected),
{
    match expected {
        StatementView::Assignment { .. } => lemma_assignment_read(expected, tokens, pos),
        StatementView::If { .. } => lemma_if_read(expected, tokens, pos),
        StatementView::While { .. } => lemma_while_read(expected, tokens, pos),
        StatementView::Call(_) => lemma_call_statement_read(expected, tokens, pos),
        StatementView::ReturnValue { .. } => lemma_return_value_read(expected, tokens, pos),
        _ => lemma_keyword_read(expected, tokens, pos),
    }
}

/// Written parameter names, closed by `)`, are read back.
pub proof fn lemma_parameters_read(
    names: Seq<Seq<char>>,
    from: int,
    tokens: Tokens,
    pos: int,
    owed: bool,
)
    requires
        0 <= from <= names.len(),
        from == names.len() ==> from == 0 && !owed,
        written_at(tokens, pos, written_parameters(names, from) + seq![TokenView::CloseParen]),
    ensures
        parameters(tokens, pos, owed).position == pos + written_parameters(names, from).len(),
        parameters(tokens, pos, owed).result == Ok::<Seq<Seq<char>>, Seq<ErrorView>>(
            names.subrange(from, names.len() as int),
        ),
    decreases names.len() - from,
{
    let close = seq![TokenView::CloseParen];
    let written = written_parameters(names, from) + close;
    assert(tokens[pos + 0].0 == written[0]);
    if from < names.len() {
        assert(tokens[pos + 1].0 == written[1]);
        if from + 1 == names.len() {
            assert(seq![names[from]] =~= names.subrange(from, names.len() as int));
        } else {
            let head = seq![TokenView::Identifier(names[from]), TokenView::Comma];
            let rest = written_parameters(names, from + 1);
            assert(written =~= head + (rest + close));
            lemma_written_parts(tokens, pos, head, rest + close);
            lemma_parameters_read(names, from + 1, tokens, pos + 2, true);
            assert(went_forward(tokens, pos, pos + 2));
            assert(seq![names[from]] + names.subrange(from + 1, names.len() as int)
                =~= names.subrange(from, names.len() as int));
        }
    } else {
        assert(Seq::<Seq<char>>::empty() =~= names.subrange(from, names.len() as int));
    }
}

/// A written function is read back.
#[verifier::rlimit(60)]
pub proof fn lemma_function_read(expected: FunctionView, tokens: Tokens, pos: int)
    requires
        writable_statements(expected.block, 0),
        written_at(tokens, pos, written_function(expected)),
    ensures
        function(tokens, pos).position == pos + written_function(expected).len(),
        function(tokens, pos).result is Ok,
        bare_function(function(tokens, pos).result->Ok_0) == bare_function(expected),
{
    reveal(function);
    let head = seq![
        if expected.returns_value {
            TokenView::Int
        } else {
            TokenView::Void
        },
        TokenView::Identifier(expected.name),
    ];
    let names = written_parameters(expected.argument_names, 0);
    let body = written_block(expected.block);
    assert(written_function(expected) =~= head + (in_parentheses(names) + body));
    lemma_written_parts(tokens, pos, head, in_parentheses(names) + body);
    lemma_written_parts(tokens, pos + 2, in_parentheses(names), body);
    lemma_written_in_parentheses(tokens, pos + 2, names);
    assert(tokens[pos + 0].0 == head[0]);
    assert(tokens[pos + 1].0 == head[1]);
    let at3 = pos + 3;
    assert(written_at(tokens, at3, names + seq![TokenView::CloseParen])) by {
        let all = names + seq![TokenView::CloseParen];
        assert forall|i: int| 0 <= i < all.len() implies (#[trigger] tokens[at3 + i]).0
            == all[i] by {
            if i < names.len() {
                assert(tokens[pos + 2 + 1 + i].0 == names[i]);
            }
        }
    }
    lemma_parameters_read(expected.argument_names, 0, tokens, at3, false);
    assert(expected.argument_names.subrange(0, expected.argument_names.len() as int)
        =~= expected.argument_names);
    let closing = at3 + names.len();
    assert(tokens[closing].0 is CloseParen) by {
        let all = names + seq![TokenView::CloseParen];
        assert(tokens[at3 + names.len()].0 == all[names.len() as int]);
    }
    let after = closing + 1;
    assert(tokens[after + 0].0 == body[0]);
    lemma_block_read(expected.block, tokens, after);
}

/// Whether the functions are, place by place, those from `from` on of
/// `expected`, but for the places of their parts.
pub open spec fn same_functions(read: Seq<FunctionView>, expected: Seq<FunctionView>, from: int)
    -> bool {
    &&& read.len() == expected.len() - from
    &&& forall|i: int|
        0 <= i < read.len() ==> bare_function(#[trigger] read[i]) == bare_function(
            expected[from + i],
        )
}

/// Written functions, closed by `EndOfFile`, are read back.
pub proof fn lemma_functions_read(
    functions: Seq<FunctionView>,
    from: int,
    tokens: Tokens,
    pos: int,
)
    requires
        0 <= from <= functions.len(),
        writable_functions(functions, from),
        written_at(tokens, pos, written_functions(functions, from) + seq![TokenView::EndOfFile]),
    ensures
        module_items(tokens, pos).position == pos + written_functions(functions, from).len()
            + 1,
        module_items(tokens, pos).errors.len() == 0,
        same_functions(module_items(tokens, pos).items, functions, from),
    decreases functions.len() - from,
{
    let end = seq![TokenView::EndOfFile];
    if from < functions.len() {
        let first = written_function(functions[from]);
        let rest = written_functions(functions, from + 1);
        assert(written_functions(functions, from) + end =~= first + (rest + end));
        lemma_written_parts(tokens, pos, first, rest + end);
        assert(tokens[pos + 0].0 == first[0]);
        lemma_function_read(functions[from], tokens, pos);
        let next = pos + first.len();
        lemma_functions_read(functions, from + 1, tokens, next);
        assert(went_forward(tokens, pos, next));
        let one = function(tokens, pos).result->Ok_0;
        let others = module_items(tokens, next);
        let all = seq![one] + others.items;
        assert(module_items(tokens, pos).items == all);
        assert forall|i: int| 0 <= i < all.len() implies bare_function(#[trigger] all[i])
            == bare_function(functions[from + i]) by {
            if i > 0 {
                assert(all[i] == others.items[i - 1]);
            }
        }
    } else {
        assert(tokens[pos + 0].0 == end[0]);
    }
}

/// Reading what was written gives the tree that was written, but for the places
/// of its parts: if the tokens are those of a module written without ambiguity,
/// whatever their places, the parser reads the module back.
pub proof fn lemma_module_read_back(functions: Seq<FunctionView>, tokens: Tokens)
    requires
        writable_functions(functions, 0),
        tokens.len() == written_module(functions).len(),
        written_at(tokens, 0, written_module(functions)),
    ensures
        module(tokens, 0).result is Ok,
        module(tokens, 0).position == tokens.len(),
        bare_functions(module(tokens, 0).result->Ok_0) == bare_functions(functions),
{
    lemma_functions_read(functions, 0, tokens, 0);
    let read = module(tokens, 0).result->Ok_0;
    assert(bare_functions(read) =~= bare_functions(functions));
}

} // verus!
