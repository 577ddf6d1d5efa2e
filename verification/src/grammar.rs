//! What the parser makes of a sequence of tokens, as mathematical functions from
//! a token sequence and a position to a syntax tree (or diagnostics) and the
//! position where reading stopped.
//!
//! The functions are defined for every token sequence and position. On tokens
//! that end with `EndOfFile` every piece of syntax is read from a token that is
//! there and reading goes forward, which `went_forward` says; only for the sake
//! of other sequences, on which reading would not end, the functions stop where
//! it does not hold.

use vstd::prelude::*;
use crate::ast::{
    BinaryOperator, CallView, ExpressionView, FunctionView, IfSegmentView, StatementView,
    UnaryOperator,
};
use crate::error_handling::{located, ErrorView, FileRef};
use crate::lexer::TokenView;

verus! {

/// A sequence of tokens, each with its place in the source.
pub type Tokens = Seq<(TokenView, FileRef)>;

/// What reading a piece of syntax gives: the piece or the diagnostics, and the
/// position of the next token to read.
pub struct Parsed<T> {
    pub result: Result<T, Seq<ErrorView>>,
    pub position: int,
}

/// What reading a list of items with recovery gives: the items that were read,
/// the diagnostics of those that were not, and the position after the list.
pub struct ParsedList<T> {
    pub items: Seq<T>,
    pub errors: Seq<ErrorView>,
    pub position: int,
}

impl<T> ParsedList<T> {
    /// The list as one result: the items if all were read, else every diagnostic.
    pub open spec fn outcome(self) -> Parsed<Seq<T>> {
        Parsed {
            result: if self.errors.len() == 0 {
                Ok(self.items)
            } else {
                Err(self.errors)
            },
            position: self.position,
        }
    }
}

/// A token sequence that the parser can read: it ends with `EndOfFile`.
pub open spec fn ends_with_end_of_file(tokens: Tokens) -> bool {
    tokens.len() > 0 && tokens.last().0 is EndOfFile
}

/// The token at `pos`; behind the end, the last token.
pub open spec fn token_at(tokens: Tokens, pos: int) -> TokenView {
    if 0 <= pos < tokens.len() {
        tokens[pos].0
    } else {
        tokens.last().0
    }
}

/// The place of the token at `pos`; behind the end, that of the last token.
pub open spec fn place_at(tokens: Tokens, pos: int) -> FileRef {
    if 0 <= pos < tokens.len() {
        tokens[pos].1
    } else {
        tokens.last().1
    }
}

/// The position after reading the token at `pos`. Reading never moves behind the end.
pub open spec fn advance(tokens: Tokens, pos: int) -> int {
    if pos < tokens.len() {
        pos + 1
    } else {
        pos
    }
}

/// The number of tokens from `pos` to the end.
pub open spec fn steps_left(tokens: Tokens, pos: int) -> nat {
    if pos < tokens.len() {
        (tokens.len() - pos) as nat
    } else {
        0
    }
}

/// Whether reading went forward from `pos` to `next`, with a token at `pos`.
pub open spec fn went_forward(tokens: Tokens, pos: int, next: int) -> bool {
    0 <= pos < tokens.len() && pos < next
}

/// A failure at `position` with a diagnostic on the token read last.
pub open spec fn failure<T>(tokens: Tokens, position: int, msg: Seq<char>) -> Parsed<T> {
    Parsed { result: Err(located(place_at(tokens, position - 1), msg)), position }
}

/// The place that reaches from the token at `from` to the token at `to`. Where the
/// two stand on different lines it is the first character of the first.
pub open spec fn place_range(tokens: Tokens, from: int, to: int) -> FileRef {
    let start = tokens[from].1;
    let end = tokens[to].1;
    let end_char_index = if start.line_index != end.line_index {
        start.begin_char_index.wrapping_add(1)
    } else {
        end.begin_char_index.wrapping_add(end.length)
    };
    FileRef {
        file: start.file,
        line_index: start.line_index,
        begin_char_index: start.begin_char_index,
        length: end_char_index.wrapping_sub(start.begin_char_index),
    }
}

/// The rung of the precedence ladder on which `operator` stands; 0 binds tightest.
pub open spec fn precedence_level(operator: BinaryOperator) -> int {
    match operator {
        BinaryOperator::Power | BinaryOperator::ShiftLeft | BinaryOperator::ShiftRight => 0,
        BinaryOperator::Multiply | BinaryOperator::Divide | BinaryOperator::Remainder => 1,
        BinaryOperator::Add | BinaryOperator::Subtract => 2,
        BinaryOperator::NotEquals
        | BinaryOperator::Equals
        | BinaryOperator::GreaterThan
        | BinaryOperator::GreaterThanOrEqual
        | BinaryOperator::LessThan
        | BinaryOperator::LessThanOrEqual => 3,
        BinaryOperator::And | BinaryOperator::Or | BinaryOperator::Xor => 4,
    }
}

/// The number of rungs of the precedence ladder.
pub open spec fn precedence_levels() -> int {
    5
}

/// The binary operator that starts at `pos`, made of one or two tokens, and the
/// position behind it. A lone `=` or `!` is no operator; without an operator the
/// position is `pos`, as nothing was read.
pub open spec fn binary_operator(tokens: Tokens, pos: int) -> (Option<BinaryOperator>, int) {
    let at1 = pos + 1;
    let second_is_equals = token_at(tokens, at1) is Equals;
    let at2 = pos + 2;
    match token_at(tokens, pos) {
        TokenView::Plus => (Some(BinaryOperator::Add), at1),
        TokenView::Minus => (Some(BinaryOperator::Subtract), at1),
        TokenView::Star => (Some(BinaryOperator::Multiply), at1),
        TokenView::ForwardSlash => (Some(BinaryOperator::Divide), at1),
        TokenView::Ampersand => (Some(BinaryOperator::And), at1),
        TokenView::Percent => (Some(BinaryOperator::Remainder), at1),
        TokenView::Bar => (Some(BinaryOperator::Or), at1),
        TokenView::Carat => (Some(BinaryOperator::Power), at1),
        TokenView::Equals => if second_is_equals {
            (Some(BinaryOperator::Equals), at2)
        } else {
            (None, pos)
        },
        TokenView::LeftArrow => if second_is_equals {
            (Some(BinaryOperator::LessThanOrEqual), at2)
        } else {
            (Some(BinaryOperator::LessThan), at1)
        },
        TokenView::RightArrow => if second_is_equals {
            (Some(BinaryOperator::GreaterThanOrEqual), at2)
        } else {
            (Some(BinaryOperator::GreaterThan), at1)
        },
        TokenView::Bang => if second_is_equals {
            (Some(BinaryOperator::NotEquals), at2)
        } else {
            (None, pos)
        },
        _ => (None, pos),
    }
}

/// The operands and operators of one rung, folded from the left over the first
/// `count` operators: an operator of the rung joins its two neighbours, any other
/// stays between them.
pub open spec fn fold_level(
    operands: Seq<ExpressionView>,
    operators: Seq<BinaryOperator>,
    level: int,
    count: int,
) -> (Seq<ExpressionView>, Seq<BinaryOperator>)
    decreases count,
{
    if count <= 0 {
        (seq![operands[0]], seq![])
    } else {
        let (folded, kept) = fold_level(operands, operators, level, count - 1);
        let operator = operators[count - 1];
        let next = operands[count];
        if precedence_level(operator) == level {
            (
                folded.drop_last().push(
                    ExpressionView::Binary {
                        left: Box::new(folded.last()),
                        right: Box::new(next),
                        operator,
                    },
                ),
                kept,
            )
        } else {
            (folded.push(next), kept.push(operator))
        }
    }
}

/// The operands and operators after folding the rungs below `levels`, the
/// tightest first.
pub open spec fn fold_levels(
    operands: Seq<ExpressionView>,
    operators: Seq<BinaryOperator>,
    levels: int,
) -> (Seq<ExpressionView>, Seq<BinaryOperator>)
    decreases levels,
{
    if levels <= 0 {
        (operands, operators)
    } else {
        let (below, kept) = fold_levels(operands, operators, levels - 1);
        fold_level(below, kept, levels - 1, kept.len() as int)
    }
}

/// The expression that a row of operands with operators between them denotes.
pub open spec fn fold_operators(
    operands: Seq<ExpressionView>,
    operators: Seq<BinaryOperator>,
) -> ExpressionView {
    fold_levels(operands, operators, precedence_levels()).0[0]
}

/// A row of operands and the operators between them.
pub struct OperandRow {
    pub operands: Seq<ExpressionView>,
    pub operators: Seq<BinaryOperator>,
}

/// The expression that starts at `pos`.
pub open spec fn expression(tokens: Tokens, pos: int) -> Parsed<ExpressionView>
    decreases steps_left(tokens, pos), 3int,
{
    let read = operand_row(tokens, pos);
    match read.result {
        Ok(row) => Parsed {
            result: Ok(fold_operators(row.operands, row.operators)),
            position: read.position,
        },
        Err(errors) => Parsed { result: Err(errors), position: read.position },
    }
}

/// The operands that start at `pos`, up to the first that no binary operator follows.
pub open spec fn operand_row(tokens: Tokens, pos: int) -> Parsed<OperandRow>
    decreases steps_left(tokens, pos), 2int,
{
    let first = unary_expression(tokens, pos);
    match first.result {
        Err(errors) => Parsed { result: Err(errors), position: first.position },
        Ok(operand) => {
            let (operator, next) = binary_operator(tokens, first.position);
            match operator {
                Some(operator) if went_forward(tokens, pos, next) => {
                    let rest = operand_row(tokens, next);
                    match rest.result {
                        Err(errors) => Parsed { result: Err(errors), position: rest.position },
                        Ok(row) => Parsed {
                            result: Ok(
                                OperandRow {
                                    operands: seq![operand] + row.operands,
                                    operators: seq![operator] + row.operators,
                                },
                            ),
                            position: rest.position,
                        },
                    }
                },
                _ => Parsed {
                    result: Ok(OperandRow { operands: seq![operand], operators: seq![] }),
                    position: next,
                },
            }
        },
    }
}

/// `operator` applied to what a reading gave.
pub open spec fn apply_unary(inner: Parsed<ExpressionView>, operator: UnaryOperator) -> Parsed<
    ExpressionView,
> {
    match inner.result {
        Ok(value) => Parsed {
            result: Ok(ExpressionView::Unary { value: Box::new(value), operator }),
            position: inner.position,
        },
        Err(errors) => Parsed { result: Err(errors), position: inner.position },
    }
}

/// The operand that starts at `pos`: a negated or inverted operand, a call, a
/// variable, a number or an expression in parentheses.
pub open spec fn unary_expression(tokens: Tokens, pos: int) -> Parsed<ExpressionView>
    decreases steps_left(tokens, pos), 1int,
{
    let at1 = advance(tokens, pos);
    match token_at(tokens, pos) {
        TokenView::Minus if went_forward(tokens, pos, at1) => apply_unary(
            unary_expression(tokens, at1),
            UnaryOperator::Negate,
        ),
        TokenView::Tilda if went_forward(tokens, pos, at1) => apply_unary(
            unary_expression(tokens, at1),
            UnaryOperator::Not,
        ),
        TokenView::Identifier(name) => {
            if token_at(tokens, at1) is OpenParen {
                let read = call(tokens, pos);
                match read.result {
                    Ok(call) => Parsed {
                        result: Ok(ExpressionView::Call(call)),
                        position: read.position,
                    },
                    Err(errors) => Parsed { result: Err(errors), position: read.position },
                }
            } else {
                Parsed {
                    result: Ok(
                        ExpressionView::Variable { name, pos: place_at(tokens, pos) },
                    ),
                    position: at1,
                }
            }
        },
        TokenView::Number(n) => Parsed { result: Ok(ExpressionView::Literal(n)), position: at1 },
        TokenView::OpenParen if went_forward(tokens, pos, at1) => {
            let inner = expression(tokens, at1);
            match inner.result {
                Err(errors) => Parsed { result: Err(errors), position: inner.position },
                Ok(value) => {
                    let after = advance(tokens, inner.position);
                    if token_at(tokens, inner.position) is CloseParen {
                        Parsed { result: Ok(value), position: after }
                    } else {
                        failure(tokens, after, "Expected `)`"@)
                    }
                },
            }
        },
        _ => failure(tokens, at1, "Expected unary expression"@),
    }
}

/// The arguments that start at `pos`: one expression, and one more behind each
/// comma. An argument that cannot be read fails the list with its diagnostics.
/// The position is that of the token behind the last argument.
pub open spec fn arguments(tokens: Tokens, pos: int) -> Parsed<Seq<ExpressionView>>
    decreases steps_left(tokens, pos), 4int,
{
    let first = expression(tokens, pos);
    match first.result {
        Err(errors) => Parsed { result: Err(errors), position: first.position },
        Ok(argument) => {
            let next = advance(tokens, first.position);
            if token_at(tokens, first.position) is Comma && went_forward(tokens, pos, next) {
                let rest = arguments(tokens, next);
                match rest.result {
                    Err(errors) => Parsed { result: Err(errors), position: rest.position },
                    Ok(more) => Parsed {
                        result: Ok(seq![argument] + more),
                        position: rest.position,
                    },
                }
            } else {
                Parsed { result: Ok(seq![argument]), position: first.position }
            }
        },
    }
}

/// The arguments between the parentheses of a call, from `pos` behind the `(`:
/// none where `)` stands there, else a list of them.
pub open spec fn argument_list(tokens: Tokens, pos: int) -> Parsed<Seq<ExpressionView>>
    decreases steps_left(tokens, pos), 5int,
{
    if token_at(tokens, pos) is CloseParen {
        Parsed { result: Ok(seq![]), position: pos }
    } else {
        arguments(tokens, pos)
    }
}

/// The call that starts at `pos`: a name and arguments in parentheses.
pub open spec fn call(tokens: Tokens, pos: int) -> Parsed<CallView>
    decreases steps_left(tokens, pos), 0int,
{
    let at1 = advance(tokens, pos);
    let at2 = advance(tokens, at1);
    match token_at(tokens, pos) {
        TokenView::Identifier(function_name) => {
            if !(token_at(tokens, at1) is OpenParen) {
                failure(tokens, at2, "Expected `(`"@)
            } else if !went_forward(tokens, pos, at2) {
                failure(tokens, at2, "Expected `)`"@)
            } else {
                let listed = argument_list(tokens, at2);
                match listed.result {
                    Err(errors) => Parsed { result: Err(errors), position: listed.position },
                    Ok(arguments) => {
                        let closing = listed.position;
                        let after = advance(tokens, closing);
                        if token_at(tokens, closing) is CloseParen {
                            Parsed {
                                result: Ok(
                                    CallView {
                                        function_name,
                                        function_name_ref: place_at(tokens, pos),
                                        arguments,
                                        arguments_ref: place_range(tokens, at2, closing - 1),
                                    },
                                ),
                                position: after,
                            }
                        } else {
                            failure(tokens, after, "Expected `)`"@)
                        }
                    },
                }
            }
        },
        _ => failure(tokens, at1, "Expected identifier"@),
    }
}

/// `value` if a semicolon stands at `pos`, else a failure.
pub open spec fn closed_by_semicolon<T>(tokens: Tokens, pos: int, value: T) -> Parsed<T> {
    let after = advance(tokens, pos);
    if token_at(tokens, pos) is Semicolon {
        Parsed { result: Ok(value), position: after }
    } else {
        failure(tokens, after, "Expected `;`"@)
    }
}

/// The rest of a compound assignment to `name`, whose operator sign has been read
/// and whose `=` stands at `pos`: `name = name operator expression`.
pub open spec fn modify_in_place(
    tokens: Tokens,
    pos: int,
    name: Seq<char>,
    name_ref: FileRef,
    operator: BinaryOperator,
) -> Parsed<StatementView> {
    let at1 = advance(tokens, pos);
    if !(token_at(tokens, pos) is Equals) {
        failure(tokens, at1, "Expected `=`"@)
    } else {
        let right = expression(tokens, at1);
        match right.result {
            Err(errors) => Parsed { result: Err(errors), position: right.position },
            Ok(value) => Parsed {
                result: Ok(
                    StatementView::Assignment {
                        variable_name: name,
                        variable_name_ref: name_ref,
                        value: ExpressionView::Binary {
                            left: Box::new(
                                ExpressionView::Variable { name, pos: place_at(tokens, pos) },
                            ),
                            right: Box::new(value),
                            operator,
                        },
                    },
                ),
                position: right.position,
            },
        }
    }
}

/// The operator of a compound assignment that the token names.
pub open spec fn compound_operator(token: TokenView) -> Option<BinaryOperator> {
    match token {
        TokenView::Plus => Some(BinaryOperator::Add),
        TokenView::Minus => Some(BinaryOperator::Subtract),
        TokenView::Star => Some(BinaryOperator::Multiply),
        TokenView::ForwardSlash => Some(BinaryOperator::Divide),
        TokenView::Carat => Some(BinaryOperator::Power),
        TokenView::Ampersand => Some(BinaryOperator::And),
        TokenView::Bar => Some(BinaryOperator::Or),
        _ => None,
    }
}

/// The statement that starts with the identifier `name` at `pos`, up to its
/// closing semicolon: an assignment, a compound assignment or a call.
pub open spec fn identifier_statement_body(tokens: Tokens, pos: int, name: Seq<char>) -> Parsed<
    StatementView,
> {
    let at1 = advance(tokens, pos);
    let at2 = advance(tokens, at1);
    let name_ref = place_at(tokens, pos);
    let second = token_at(tokens, at1);
    if second is Equals {
        let value = expression(tokens, at2);
        match value.result {
            Err(errors) => Parsed { result: Err(errors), position: value.position },
            Ok(value_read) => Parsed {
                result: Ok(
                    StatementView::Assignment {
                        variable_name: name,
                        variable_name_ref: name_ref,
                        value: value_read,
                    },
                ),
                position: value.position,
            },
        }
    } else if second is OpenParen {
        let read = call(tokens, pos);
        match read.result {
            Err(errors) => Parsed { result: Err(errors), position: read.position },
            Ok(call) => Parsed { result: Ok(StatementView::Call(call)), position: read.position },
        }
    } else {
        match compound_operator(second) {
            Some(operator) => modify_in_place(tokens, at2, name, name_ref, operator),
            None => failure(tokens, at2, "Expected valid statement"@),
        }
    }
}

/// The statement that starts with the identifier `name` at `pos`, closed by a semicolon.
pub open spec fn identifier_statement(tokens: Tokens, pos: int, name: Seq<char>) -> Parsed<
    StatementView,
> {
    let body = identifier_statement_body(tokens, pos, name);
    match body.result {
        Ok(statement) => closed_by_semicolon(tokens, body.position, statement),
        Err(_) => body,
    }
}

/// The `return` statement whose keyword stands just before `pos`.
pub open spec fn return_statement(tokens: Tokens, pos: int) -> Parsed<StatementView> {
    let at1 = advance(tokens, pos);
    if token_at(tokens, pos) is Semicolon {
        Parsed { result: Ok(StatementView::Return(place_at(tokens, pos - 1))), position: at1 }
    } else {
        let start = pos;
        let value = expression(tokens, start);
        match value.result {
            Err(errors) => Parsed { result: Err(errors), position: value.position },
            Ok(value_read) => closed_by_semicolon(
                tokens,
                value.position,
                StatementView::ReturnValue {
                    value: value_read,
                    value_ref: place_range(tokens, start, value.position - 1),
                },
            ),
        }
    }
}

/// The statement that starts at `pos`.
pub open spec fn statement(tokens: Tokens, pos: int) -> Parsed<StatementView>
    decreases steps_left(tokens, pos), 3int,
{
    let at1 = advance(tokens, pos);
    match token_at(tokens, pos) {
        TokenView::Identifier(name) => identifier_statement(tokens, pos, name),
        TokenView::If if went_forward(tokens, pos, at1) => if_statement(tokens, at1),
        TokenView::While if went_forward(tokens, pos, at1) => {
            let condition = expression(tokens, at1);
            match condition.result {
                Err(errors) => Parsed { result: Err(errors), position: condition.position },
                Ok(condition_read) => if went_forward(tokens, pos, condition.position) {
                    let body = block(tokens, condition.position);
                    match body.result {
                        Err(errors) => Parsed { result: Err(errors), position: body.position },
                        Ok(statements) => Parsed {
                            result: Ok(
                                StatementView::While {
                                    condition: condition_read,
                                    block: statements,
                                },
                            ),
                            position: body.position,
                        },
                    }
                } else {
                    Parsed { result: Err(seq![]), position: condition.position }
                },
            }
        },
        TokenView::Continue => closed_by_semicolon(
            tokens,
            at1,
            StatementView::Continue(place_at(tokens, pos)),
        ),
        TokenView::Break => closed_by_semicolon(
            tokens,
            at1,
            StatementView::Break(place_at(tokens, pos)),
        ),
        TokenView::Return => return_statement(tokens, at1),
        _ => failure(tokens, at1, "Expected statement"@),
    }
}

/// The condition and the block of one segment of an `if` statement, from `pos`.
pub open spec fn if_segment(tokens: Tokens, pos: int) -> Parsed<IfSegmentView>
    decreases steps_left(tokens, pos), 0int,
{
    let condition = expression(tokens, pos);
    match condition.result {
        Err(errors) => Parsed { result: Err(errors), position: condition.position },
        Ok(condition_read) => if went_forward(tokens, pos, condition.position) {
            let body = block(tokens, condition.position);
            match body.result {
                Err(errors) => Parsed { result: Err(errors), position: body.position },
                Ok(statements) => Parsed {
                    result: Ok(IfSegmentView { condition: condition_read, block: statements }),
                    position: body.position,
                },
            }
        } else {
            Parsed { result: Err(seq![]), position: condition.position }
        },
    }
}

/// The `if` statement whose keyword stands just before `pos`.
pub open spec fn if_statement(tokens: Tokens, pos: int) -> Parsed<StatementView>
    decreases steps_left(tokens, pos), 2int,
{
    let first = if_segment(tokens, pos);
    match first.result {
        Err(errors) => Parsed { result: Err(errors), position: first.position },
        Ok(segment) => if went_forward(tokens, pos, first.position) {
            else_chain(tokens, first.position, seq![segment])
        } else {
            Parsed { result: Err(seq![]), position: first.position }
        },
    }
}

/// What follows the segments read so far: `else if` with another segment, any
/// number of times, then perhaps `else` with a last block.
pub open spec fn else_chain(tokens: Tokens, pos: int, segments: Seq<IfSegmentView>) -> Parsed<
    StatementView,
>
    decreases steps_left(tokens, pos), 1int,
{
    let at1 = advance(tokens, pos);
    let at2 = advance(tokens, at1);
    if !(token_at(tokens, pos) is Else) {
        Parsed {
            result: Ok(StatementView::If { segments, else_block: None }),
            position: pos,
        }
    } else if !went_forward(tokens, pos, at1) {
        Parsed { result: Err(seq![]), position: at2 }
    } else if token_at(tokens, at1) is If {
        let next = if_segment(tokens, at2);
        match next.result {
            Err(errors) => Parsed { result: Err(errors), position: next.position },
            Ok(segment) => if went_forward(tokens, pos, next.position) {
                else_chain(tokens, next.position, segments.push(segment))
            } else {
                Parsed { result: Err(seq![]), position: next.position }
            },
        }
    } else {
        let last = block(tokens, at1);
        match last.result {
            Err(errors) => Parsed { result: Err(errors), position: last.position },
            Ok(statements) => Parsed {
                result: Ok(StatementView::If { segments, else_block: Some(statements) }),
                position: last.position,
            },
        }
    }
}

/// The position behind the first token from `pos` on that ends a statement
/// which could not be read: `}` for one that starts with `if` or `while`, `;` for
/// any other, and `EndOfFile` in any case.
pub open spec fn skip_statement(tokens: Tokens, pos: int, block_statement: bool) -> int
    decreases steps_left(tokens, pos),
{
    let at1 = advance(tokens, pos);
    let token = token_at(tokens, pos);
    if token is EndOfFile || (token is CloseBrace && block_statement) || (token is Semicolon
        && !block_statement) || !went_forward(tokens, pos, at1) {
        at1
    } else {
        skip_statement(tokens, at1, block_statement)
    }
}

/// The statements from `pos` up to the `}` that closes the block. Where
/// `EndOfFile` comes first, the `}` is missing, which is a diagnostic there.
///
/// After a statement that could not be read, reading goes on behind the token
/// that ends it, counted from the token on which it failed: where that token is
/// the one that ends the statement, the next statement starts right behind it.
pub open spec fn block_items(tokens: Tokens, pos: int) -> ParsedList<StatementView>
    decreases steps_left(tokens, pos), 4int,
{
    let at1 = advance(tokens, pos);
    let token = token_at(tokens, pos);
    if token is CloseBrace {
        ParsedList { items: seq![], errors: seq![], position: at1 }
    } else if token is EndOfFile {
        ParsedList {
            items: seq![],
            errors: located(place_at(tokens, at1 - 1), "Expected `}`"@),
            position: at1,
        }
    } else {
        let block_statement = token is If || token is While;
        let first = statement(tokens, pos);
        let next = match first.result {
            Ok(_) => first.position,
            Err(_) => skip_statement(tokens, first.position - 1, block_statement),
        };
        if !went_forward(tokens, pos, next) {
            ParsedList { items: seq![], errors: seq![], position: next }
        } else {
            let rest = block_items(tokens, next);
            match first.result {
                Ok(statement) => ParsedList { items: seq![statement] + rest.items, ..rest },
                Err(errors) => ParsedList { errors: errors + rest.errors, ..rest },
            }
        }
    }
}

/// The block that starts with `{` at `pos`.
pub open spec fn block(tokens: Tokens, pos: int) -> Parsed<Seq<StatementView>>
    decreases steps_left(tokens, pos), 5int,
{
    let at1 = advance(tokens, pos);
    if !(token_at(tokens, pos) is OpenBrace) {
        failure(tokens, at1, "Expected `{`"@)
    } else if !went_forward(tokens, pos, at1) {
        Parsed { result: Err(seq![]), position: at1 }
    } else {
        block_items(tokens, at1).outcome()
    }
}

/// The parameter names that start at `pos`, separated by commas. Behind a comma a
/// name is `owed`: any other token there is a diagnostic. The position is that
/// of the token behind the last name.
pub open spec fn parameters(tokens: Tokens, pos: int, owed: bool) -> Parsed<Seq<Seq<char>>>
    decreases steps_left(tokens, pos),
{
    let at1 = advance(tokens, pos);
    let at2 = advance(tokens, at1);
    match token_at(tokens, pos) {
        TokenView::Identifier(name) => if token_at(tokens, at1) is Comma && went_forward(
            tokens,
            pos,
            at2,
        ) {
            let rest = parameters(tokens, at2, true);
            match rest.result {
                Err(errors) => Parsed { result: Err(errors), position: rest.position },
                Ok(more) => Parsed { result: Ok(seq![name] + more), position: rest.position },
            }
        } else {
            Parsed { result: Ok(seq![name]), position: at1 }
        },
        _ => if owed {
            failure(tokens, at1, "Expected parameter name"@)
        } else {
            Parsed { result: Ok(seq![]), position: pos }
        },
    }
}

/// The function definition that starts at `pos`: `int` or `void`, a name, the
/// parameter names in parentheses and a block.
#[verifier::opaque]
pub open spec fn function(tokens: Tokens, pos: int) -> Parsed<FunctionView> {
    let at1 = advance(tokens, pos);
    let at2 = advance(tokens, at1);
    let at3 = advance(tokens, at2);
    let kind = token_at(tokens, pos);
    if !(kind is Void || kind is Int) {
        failure(tokens, at1, "Expected function return type: `int` or `void`"@)
    } else {
        match token_at(tokens, at1) {
            TokenView::Identifier(name) => {
                if !(token_at(tokens, at2) is OpenParen) {
                    failure(tokens, at3, "Expected `(`"@)
                } else {
                    let listed = parameters(tokens, at3, false);
                    let closing = listed.position;
                    let after = advance(tokens, closing);
                    match listed.result {
                        Err(errors) => Parsed { result: Err(errors), position: closing },
                        Ok(argument_names) => if !(token_at(tokens, closing) is CloseParen) {
                            failure(tokens, after, "Expected ')'"@)
                        } else {
                            let body = block(tokens, after);
                            match body.result {
                                Err(errors) => Parsed {
                                    result: Err(errors),
                                    position: body.position,
                                },
                                Ok(statements) => Parsed {
                                    result: Ok(
                                        FunctionView {
                                            name,
                                            name_ref: place_at(tokens, at1),
                                            argument_names,
                                            block: statements,
                                            returns_value: kind is Int,
                                        },
                                    ),
                                    position: body.position,
                                },
                            }
                        },
                    }
                }
            },
            _ => failure(tokens, at2, "Expected function name"@),
        }
    }
}

/// The position of the first `int`, `void` or `EndOfFile` from `pos` on.
pub open spec fn skip_to_function(tokens: Tokens, pos: int) -> int
    decreases steps_left(tokens, pos),
{
    let token = token_at(tokens, pos);
    if token is Int || token is Void || token is EndOfFile || !(0 <= pos < tokens.len()) {
        pos
    } else {
        skip_to_function(tokens, pos + 1)
    }
}

/// The functions from `pos` up to `EndOfFile`. After a function that could not be
/// read, reading goes on at the first `int` or `void` from the token on which it
/// failed.
pub open spec fn module_items(tokens: Tokens, pos: int) -> ParsedList<FunctionView>
    decreases steps_left(tokens, pos),
{
    let at1 = advance(tokens, pos);
    if token_at(tokens, pos) is EndOfFile {
        ParsedList { items: seq![], errors: seq![], position: at1 }
    } else {
        let first = function(tokens, pos);
        let next = match first.result {
            Ok(_) => first.position,
            Err(_) => skip_to_function(tokens, first.position - 1),
        };
        if !went_forward(tokens, pos, next) {
            ParsedList { items: seq![], errors: seq![], position: next }
        } else {
            let rest = module_items(tokens, next);
            match first.result {
                Ok(function) => ParsedList { items: seq![function] + rest.items, ..rest },
                Err(errors) => ParsedList { errors: errors + rest.errors, ..rest },
            }
        }
    }
}

/// The functions of a module, read from `pos` to the end.
pub open spec fn module(tokens: Tokens, pos: int) -> Parsed<Seq<FunctionView>> {
    module_items(tokens, pos).outcome()
}

} // verus!
