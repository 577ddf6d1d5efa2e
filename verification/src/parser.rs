//! Parses the tokens generated by the lexer to create an abstract syntax tree.

use vstd::prelude::*;
use crate::ast::{
    expressions_view, functions_view, lemma_expressions_view, lemma_expressions_view_drop_last,
    lemma_expressions_view_push, lemma_segments_view_push, lemma_statements_view_push,
    names_view, segments_view, statements_view, BinaryOperator, Call, Expression, ExpressionView, Function,
    IfSegment, Statement, StatementView, UnaryOperator,
};
use crate::error_handling::{
    append_errors, error_at, errors_view, CompileErrors, CompileResult, ErrorView, FileRef,
    FileTaggedError,
};
use crate::grammar::{
    advance, argument_list, arguments, binary_operator, block, block_items, call, compound_operator,
    else_chain, ends_with_end_of_file, expression, fold_level, fold_levels, function,
    identifier_statement, identifier_statement_body, if_segment, if_statement, modify_in_place,
    module, module_items, operand_row, parameters, place_at, place_range, precedence_level,
    return_statement, skip_statement, skip_to_function, statement, steps_left, token_at,
    unary_expression, went_forward, OperandRow, Parsed, ParsedList, Tokens,
};
use crate::lexer::{tokens_view, Token};

verus! {

/// Iterates through the tokens in a file.
pub struct TokenIterator {
    tokens: Vec<(Token, FileRef)>,
    position: usize,
}

impl TokenIterator {
    /// The tokens that the iterator reads.
    #[verifier::opaque]
    pub closed spec fn tokens(&self) -> Tokens {
        tokens_view(self.tokens@)
    }

    /// The index of the token that is read next.
    pub closed spec fn position(&self) -> int {
        self.position as int
    }

    /// The iterator can be read: its tokens end with `EndOfFile`, and its position
    /// is not behind their end.
    pub open spec fn wf(&self) -> bool {
        &&& ends_with_end_of_file(self.tokens())
        &&& 0 <= self.position() <= self.tokens().len()
    }

    /// Creates a new token iterator from a list of tokens and the locations of
    /// each token within a source file.
    pub fn new(tokens: Vec<(Token, FileRef)>) -> (iter: Self)
        requires
            ends_with_end_of_file(tokens_view(tokens@)),
        ensures
            iter.wf(),
            iter.tokens() == tokens_view(tokens@),
            iter.position() == 0,
    {
        let iter = Self { tokens, position: 0 };
        proof {
            reveal(TokenIterator::tokens);
        }
        iter
    }

    fn get_token_or_eof(&self, position: usize) -> (r: &(Token, FileRef))
        requires
            self.tokens().len() > 0,
        ensures
            r.0@ == token_at(self.tokens(), position as int),
            r.1 == place_at(self.tokens(), position as int),
    {
        proof {
            reveal(TokenIterator::tokens);
        }
        if position < self.tokens.len() {
            &self.tokens[position]
        } else {
            &self.tokens[self.tokens.len() - 1]
        }
    }

    /// Gets the next token, and advances the iterator forwards.
    fn consume(&mut self) -> (token: Token)
        requires
            old(self).wf(),
        ensures
            final(self).wf(),
            final(self).tokens() == old(self).tokens(),
            final(self).position() == advance(old(self).tokens(), old(self).position()),
            token@ == token_at(old(self).tokens(), old(self).position()),
    {
        let token = self.get_token_or_eof(self.position).0.clone();
        proof {
            reveal(TokenIterator::tokens);
        }
        if self.position < self.tokens.len() {
            self.position += 1;
        }
        token
    }

    /// Moves back to the previous token.
    fn move_back(&mut self)
        requires
            old(self).wf(),
            old(self).position() > 0,
        ensures
            final(self).wf(),
            final(self).tokens() == old(self).tokens(),
            final(self).position() == old(self).position() - 1,
    {
        proof {
            reveal(TokenIterator::tokens);
        }
        self.position -= 1;
    }

    /// Goes back to `position`, an earlier position of this iterator.
    fn return_to(&mut self, position: usize)
        requires
            old(self).wf(),
            position <= old(self).position(),
        ensures
            final(self).wf(),
            final(self).tokens() == old(self).tokens(),
            final(self).position() == position,
    {
        proof {
            reveal(TokenIterator::tokens);
        }
        self.position = position;
    }

    /// The token that is read next; the iterator stays where it is.
    fn next_token(&self) -> (token: &Token)
        requires
            self.wf(),
        ensures
            token@ == token_at(self.tokens(), self.position()),
    {
        &self.get_token_or_eof(self.position).0
    }

    /// Returns the location of the token just consumed from the file.
    fn prev_token_ref(&self) -> (r: FileRef)
        requires
            self.wf(),
            self.position() > 0,
        ensures
            r == place_at(self.tokens(), self.position() - 1),
    {
        self.get_token_or_eof(self.position - 1).1.clone()
    }

    /// The index of the next token.
    fn next_token_index(&self) -> (index: usize)
        ensures
            index == self.position(),
    {
        self.position
    }

    /// The index of the token just consumed.
    fn prev_token_index(&self) -> (index: usize)
        requires
            self.position() > 0,
        ensures
            index == self.position() - 1,
    {
        self.position - 1
    }

    /// The location of the token at `index`.
    fn get_ref_at(&self, index: usize) -> (r: FileRef)
        requires
            index < self.tokens().len(),
        ensures
            r == self.tokens()[index as int].1,
    {
        proof {
            reveal(TokenIterator::tokens);
        }
        self.tokens[index].1.clone()
    }

    /// Creates a `FileRef` ranging between two tokens in the iterator, to
    /// highlight a whole expression.
    fn get_ref_range(&mut self, from: usize, to: usize) -> (r: FileRef)
        requires
            from < old(self).tokens().len(),
            to < old(self).tokens().len(),
        ensures
            *final(self) == *old(self),
            r == place_range(old(self).tokens(), from as int, to as int),
    {
        proof {
            reveal(TokenIterator::tokens);
        }
        let start_token = self.tokens[from].1.clone();
        let end_token = self.tokens[to].1.clone();
        let end_char_index = if start_token.line_index != end_token.line_index {
            start_token.begin_char_index.wrapping_add(1)
        } else {
            end_token.begin_char_index.wrapping_add(end_token.length)
        };
        FileRef {
            file: start_token.file,
            line_index: start_token.line_index,
            begin_char_index: start_token.begin_char_index,
            length: end_char_index.wrapping_sub(start_token.begin_char_index),
        }
    }
}

/// A single error on the token just consumed.
fn prev_token_error(iter: &TokenIterator, msg: &str) -> (errors: CompileErrors)
    requires
        iter.wf(),
        iter.position() > 0,
    ensures
        errors@ == crate::error_handling::located(
            place_at(iter.tokens(), iter.position() - 1),
            msg@,
        ),
{
    error_at(iter.prev_token_ref(), msg.to_owned())
}

/// Parses a binary operator, which may be made up of multiple tokens, e.g. `!=` or `==`.
/// If returning `None` the iterator stands where it stood before.
fn parse_binary_operator(iter: &mut TokenIterator) -> (r: Option<BinaryOperator>)
    requires
        old(iter).wf(),
    ensures
        final(iter).wf(),
        final(iter).tokens() == old(iter).tokens(),
        (r, final(iter).position()) == binary_operator(
            old(iter).tokens(),
            old(iter).position(),
        ),
        r is None ==> final(iter).position() == old(iter).position(),
        r is Some ==> final(iter).position() > old(iter).position(),
{
    let start = iter.next_token_index();
    let operator = match iter.consume() {
        Token::Plus => Some(BinaryOperator::Add),
        Token::Minus => Some(BinaryOperator::Subtract),
        Token::Star => Some(BinaryOperator::Multiply),
        Token::ForwardSlash => Some(BinaryOperator::Divide),
        Token::Ampersand => Some(BinaryOperator::And),
        Token::Percent => Some(BinaryOperator::Remainder),
        Token::Bar => Some(BinaryOperator::Or),
        Token::Carat => Some(BinaryOperator::Power),
        Token::Equals => {
            match iter.consume() {
                Token::Equals => Some(BinaryOperator::Equals),
                _ => None,
            }
        },
        Token::LeftArrow => {
            match iter.consume() {
                Token::Equals => Some(BinaryOperator::LessThanOrEqual),
                _ => {
                    iter.move_back();
                    Some(BinaryOperator::LessThan)
                },
            }
        },
        Token::RightArrow => {
            match iter.consume() {
                Token::Equals => Some(BinaryOperator::GreaterThanOrEqual),
                _ => {
                    iter.move_back();
                    Some(BinaryOperator::GreaterThan)
                },
            }
        },
        Token::Bang => {
            match iter.consume() {
                Token::Equals => Some(BinaryOperator::NotEquals),
                _ => None,
            }
        },
        _ => None,
    };
    match operator {
        Some(_) => {},
        None => iter.return_to(start),
    }
    operator
}

/// What a parse function hands back, with the syntax tree taken by its view.
pub open spec fn expression_outcome(r: CompileResult<Expression>) -> Result<
    ExpressionView,
    Seq<ErrorView>,
> {
    match r {
        Ok(expression) => Ok(expression.view()),
        Err(errors) => Err(errors@),
    }
}

/// What `parse_call` hands back, with the call taken by its view.
pub open spec fn call_outcome(r: CompileResult<Call>) -> Result<
    crate::ast::CallView,
    Seq<ErrorView>,
> {
    match r {
        Ok(call) => Ok(call.view()),
        Err(errors) => Err(errors@),
    }
}

/// The iterator went from `before` to `after` over the same tokens, and what was
/// read is what the grammar gives.
pub open spec fn reads<V>(
    before: TokenIterator,
    after: TokenIterator,
    outcome: Result<V, Seq<ErrorView>>,
    expected: Parsed<V>,
) -> bool {
    &&& after.wf()
    &&& after.tokens() == before.tokens()
    &&& after.position() == expected.position
    &&& outcome == expected.result
}

/// Whether a failure has a diagnostic to show.
pub open spec fn shows_why<T>(r: CompileResult<T>) -> bool {
    match r {
        Ok(_) => true,
        Err(errors) => errors@.len() > 0,
    }
}

/// The iterator did not go back, and went forward if there was a token to read.
pub open spec fn moved_on(before: TokenIterator, after: TokenIterator) -> bool {
    &&& after.position() >= before.position()
    &&& before.position() < before.tokens().len() ==> after.position() > before.position()
}

/// What the arguments `prefix` and then those of `rest` are together.
spec fn extend_arguments(prefix: Seq<ExpressionView>, rest: Parsed<Seq<ExpressionView>>) -> Parsed<
    Seq<ExpressionView>,
> {
    match rest.result {
        Ok(more) => Parsed { result: Ok(prefix + more), position: rest.position },
        Err(errors) => Parsed { result: Err(errors), position: rest.position },
    }
}

spec fn extend_row(
    operands: Seq<ExpressionView>,
    operators: Seq<BinaryOperator>,
    rest: Parsed<OperandRow>,
) -> Parsed<OperandRow> {
    match rest.result {
        Ok(row) => Parsed {
            result: Ok(
                OperandRow {
                    operands: operands + row.operands,
                    operators: operators + row.operators,
                },
            ),
            position: rest.position,
        },
        Err(errors) => Parsed { result: Err(errors), position: rest.position },
    }
}

fn level_of(operator: BinaryOperator) -> (level: u8)
    ensures
        level == precedence_level(operator),
{
    match operator {
        BinaryOperator::Power | BinaryOperator::ShiftLeft | BinaryOperator::ShiftRight => 0,
        BinaryOperator::Multiply | BinaryOperator::Divide | BinaryOperator::Remainder => 1,
        BinaryOperator::Add | BinaryOperator::Subtract => 2,
        BinaryOperator::NotEquals
        | BinaryOperator::Equals
        | BinaryOperator::GreaterThan
        | BinaryOperator::GreaterThanOrEqual
        | BinaryOperator::LessThan
        | BinaryOperator::LessThanOrEqual => 3,
        BinaryOperator::And | BinaryOperator::Or | BinaryOperator::Xor => 4,
    }
}

/// Joins, from the left, the neighbours of every operator that stands on the
/// rung `level`.
fn reduce_level(expressions: Vec<Expression>, operators: &Vec<BinaryOperator>, level: u8) -> (r: (
    Vec<Expression>,
    Vec<BinaryOperator>,
))
    requires
        expressions@.len() == operators@.len() + 1,
    ensures
        (expressions_view(r.0@), r.1@) == fold_level(
            expressions_view(expressions@),
            operators@,
            level as int,
            operators@.len() as int,
        ),
        r.0@.len() == r.1@.len() + 1,
        forall|k: int|
            0 <= k < r.1@.len() ==> precedence_level(#[trigger] r.1@[k]) != level
                && operators@.contains(r.1@[k]),
{
    let ghost operands = expressions_view(expressions@);
    let count = operators.len();
    proof {
        lemma_expressions_view(expressions@);
    }
    // The expressions are taken from the end of a reversed list, the first one first.
    let mut pending: Vec<Expression> = Vec::new();
    let mut source = expressions;
    while source.len() > 0
        invariant
            source@.len() + pending@.len() == count + 1,
            count == operators@.len(),
            operands.len() == count + 1,
            forall|i: int| 0 <= i < source@.len() ==> (#[trigger] source@[i]).view() == operands[i],
            forall|j: int|
                0 <= j < pending@.len() ==> (#[trigger] pending@[j]).view() == operands[count
                    - j],
        decreases source@.len(),
    {
        let last = source.pop().unwrap();
        pending.push(last);
    }
    let mut reduced: Vec<Expression> = Vec::new();
    let mut kept: Vec<BinaryOperator> = Vec::new();
    let first = pending.pop().unwrap();
    reduced.push(first);
    proof {
        lemma_expressions_view(reduced@);
        assert(expressions_view(reduced@) =~= seq![operands[0]]);
    }
    let mut done: usize = 0;
    while done < count
        invariant
            count == operators@.len(),
            operands.len() == count + 1,
            done <= count,
            pending@.len() == count - done,
            forall|j: int|
                0 <= j < pending@.len() ==> (#[trigger] pending@[j]).view() == operands[count
                    - j],
            (expressions_view(reduced@), kept@) == fold_level(
                operands,
                operators@,
                level as int,
                done as int,
            ),
            reduced@.len() == kept@.len() + 1,
            forall|k: int|
                0 <= k < kept@.len() ==> precedence_level(#[trigger] kept@[k]) != level
                    && operators@.contains(kept@[k]),
        decreases count - done,
    {
        let operator = operators[done];
        let next_expr = pending.pop().unwrap();
        assert(next_expr.view() == operands[done + 1]);
        let ghost before = reduced@;
        let ghost folded = expressions_view(reduced@);
        let ghost kept_before = kept@;
        assert((folded, kept_before) == fold_level(operands, operators@, level as int, done as int));
        if level_of(operator) == level {
            let prev_expr = reduced.pop().unwrap();
            let joined = Expression::Binary {
                left: Box::new(prev_expr),
                right: Box::new(next_expr),
                operator,
            };
            proof {
                lemma_expressions_view_drop_last(before);
                lemma_expressions_view_push(before.drop_last(), joined);
            }
            reduced.push(joined);
        } else {
            proof {
                lemma_expressions_view_push(before, next_expr);
                assert(operators@[done as int] == operator);
            }
            kept.push(operator);
            reduced.push(next_expr);
        }
        done += 1;
    }
    (reduced, kept)
}

/// Parses a function call: a name and its arguments in parentheses.
#[verifier::rlimit(60)]
fn parse_call(iter: &mut TokenIterator) -> (r: CompileResult<Call>)
    requires
        old(iter).wf(),
    ensures
        reads(
            *old(iter),
            *final(iter),
            call_outcome(r),
            call(old(iter).tokens(), old(iter).position()),
        ),
        shows_why(r),
        moved_on(*old(iter), *final(iter)),
    decreases steps_left(old(iter).tokens(), old(iter).position()), 0int,
{
    let ghost tokens = iter.tokens();
    let ghost pos = iter.position();
    let function_name = match iter.consume() {
        Token::Identifier(ident) => ident,
        _ => {
            return Err(prev_token_error(iter, "Expected identifier"));
        },
    };
    let function_name_ref = iter.prev_token_ref();
    match iter.consume() {
        Token::OpenParen => {},
        _ => {
            return Err(prev_token_error(iter, "Expected `(`"));
        },
    }
    let before_args_idx = iter.next_token_index();
    assert(went_forward(tokens, pos, before_args_idx as int));

    let mut args: Vec<Expression> = Vec::new();
    assert(expressions_view(args@) =~= Seq::empty());
    let no_arguments = match iter.next_token() {
        Token::CloseParen => true,
        _ => false,
    };
    if !no_arguments {
        loop
            invariant_except_break
                iter.wf(),
                iter.tokens() == tokens,
                tokens == old(iter).tokens(),
                pos == old(iter).position(),
                before_args_idx < tokens.len(),
                before_args_idx <= iter.position() < tokens.len(),
                steps_left(tokens, before_args_idx as int) < steps_left(tokens, pos),
                extend_arguments(expressions_view(args@), arguments(tokens, iter.position()))
                    == arguments(tokens, before_args_idx as int),
                argument_list(tokens, before_args_idx as int) == arguments(
                    tokens,
                    before_args_idx as int,
                ),
                token_at(tokens, pos) is Identifier,
                token_at(tokens, advance(tokens, pos)) is OpenParen,
                before_args_idx == advance(tokens, advance(tokens, pos)),
                went_forward(tokens, pos, before_args_idx as int),
            ensures
                iter.wf(),
                iter.tokens() == tokens,
                iter.position() > before_args_idx,
                arguments(tokens, before_args_idx as int) == (Parsed {
                    result: Ok::<Seq<ExpressionView>, Seq<ErrorView>>(expressions_view(args@)),
                    position: iter.position(),
                }),
            decreases steps_left(tokens, iter.position()),
        {
            let ghost here = iter.position();
            let ghost prefix = expressions_view(args@);
            let expr = match parse_expression(iter) {
                Ok(expr) => expr,
                Err(errors) => {
                    return Err(errors);
                },
            };
            let ghost argument = expr.view();
            let ghost behind = iter.position();
            proof {
                lemma_expressions_view_push(args@, expr);
            }
            args.push(expr);
            let more = match iter.next_token() {
                Token::Comma => true,
                _ => false,
            };
            if more {
                iter.consume();
                proof {
                    let rest = arguments(tokens, iter.position());
                    assert(went_forward(tokens, here, iter.position()));
                    match rest.result {
                        Ok(others) => {
                            assert(prefix.push(argument) + others =~= prefix + (seq![argument]
                                + others));
                        },
                        Err(_) => {},
                    }
                }
            } else {
                proof {
                    assert(prefix + seq![argument] =~= prefix.push(argument));
                }
                break;
            }
        }
    }
    let after_args = iter.prev_token_index();

    match iter.consume() {
        Token::CloseParen => {
            let arguments_ref = iter.get_ref_range(before_args_idx, after_args);
            Ok(Call { arguments: args, function_name, function_name_ref, arguments_ref })
        },
        _ => Err(prev_token_error(iter, "Expected `)`")),
    }
}

/// Parses the unary section of an expression, typically a variable reference
/// or call, but also a bracketed inner expression.
fn parse_unary_expression(iter: &mut TokenIterator) -> (r: CompileResult<Expression>)
    requires
        old(iter).wf(),
    ensures
        reads(
            *old(iter),
            *final(iter),
            expression_outcome(r),
            unary_expression(old(iter).tokens(), old(iter).position()),
        ),
        shows_why(r),
        moved_on(*old(iter), *final(iter)),
    decreases steps_left(old(iter).tokens(), old(iter).position()), 1int,
{
    match iter.consume() {
        Token::Minus => match parse_unary_expression(iter) {
            Ok(value) => Ok(
                Expression::Unary { value: Box::new(value), operator: UnaryOperator::Negate },
            ),
            Err(errors) => Err(errors),
        },
        Token::Tilda => match parse_unary_expression(iter) {
            Ok(value) => Ok(
                Expression::Unary { value: Box::new(value), operator: UnaryOperator::Not },
            ),
            Err(errors) => Err(errors),
        },
        Token::Identifier(ident) => {
            let calls = match iter.next_token() {
                Token::OpenParen => true,
                _ => false,
            };
            if calls {
                iter.move_back();
                match parse_call(iter) {
                    Ok(call) => Ok(Expression::Call(call)),
                    Err(errors) => Err(errors),
                }
            } else {
                Ok(Expression::Variable { name: ident, pos: iter.prev_token_ref() })
            }
        },
        Token::Number(n) => Ok(Expression::Literal(n)),
        Token::OpenParen => {
            match parse_expression(iter) {
                Err(errors) => Err(errors),
                Ok(inner) => match iter.consume() {
                    Token::CloseParen => Ok(inner),
                    _ => Err(prev_token_error(iter, "Expected `)`")),
                },
            }
        },
        _ => Err(prev_token_error(iter, "Expected unary expression")),
    }
}

/// Parses an expression.
#[verifier::rlimit(60)]
pub fn parse_expression(iter: &mut TokenIterator) -> (r: CompileResult<Expression>)
    requires
        old(iter).wf(),
    ensures
        reads(
            *old(iter),
            *final(iter),
            expression_outcome(r),
            expression(old(iter).tokens(), old(iter).position()),
        ),
        shows_why(r),
        moved_on(*old(iter), *final(iter)),
    decreases steps_left(old(iter).tokens(), old(iter).position()), 3int,
{
    let ghost tokens = iter.tokens();
    let ghost start = iter.position();
    let mut expressions: Vec<Expression> = Vec::new();
    let mut operators: Vec<BinaryOperator> = Vec::new();
    assert(expressions_view(expressions@) =~= Seq::empty());

    // Keep parsing expressions until no valid binary operator follows.
    loop
        invariant_except_break
            iter.wf(),
            iter.tokens() == tokens,
            tokens == old(iter).tokens(),
            start == old(iter).position(),
            start <= iter.position(),
            expressions@.len() == operators@.len(),
            expressions@.len() > 0 ==> iter.position() > start,
            extend_row(
                expressions_view(expressions@),
                operators@,
                operand_row(tokens, iter.position()),
            ) == operand_row(tokens, start),
        ensures
            iter.wf(),
            iter.tokens() == tokens,
            tokens == old(iter).tokens(),
            start == old(iter).position(),
            iter.position() >= start,
            start < tokens.len() ==> iter.position() > start,
            expressions@.len() == operators@.len() + 1,
            operand_row(tokens, start) == (Parsed {
                result: Ok(
                    OperandRow {
                        operands: expressions_view(expressions@),
                        operators: operators@,
                    },
                ),
                position: iter.position(),
            }),
        decreases steps_left(tokens, iter.position()),
    {
        let ghost here = iter.position();
        let ghost prefix = expressions_view(expressions@);
        let ghost signs = operators@;
        assert(extend_row(prefix, signs, operand_row(tokens, here)) == operand_row(
            tokens,
            start,
        ));
        let expr = match parse_unary_expression(iter) {
            Ok(expr) => expr,
            Err(errors) => {
                return Err(errors);
            },
        };
        let ghost operand = expr.view();
        let ghost behind = iter.position();
        proof {
            lemma_expressions_view_push(expressions@, expr);
        }
        expressions.push(expr);

        match parse_binary_operator(iter) {
            None => {
                proof {
                    assert(binary_operator(tokens, behind).0 is None);
                    assert(operand_row(tokens, here) == (Parsed {
                        result: Ok::<OperandRow, Seq<ErrorView>>(
                            OperandRow { operands: seq![operand], operators: seq![] },
                        ),
                        position: iter.position(),
                    }));
                    assert(prefix + seq![operand] =~= prefix.push(operand));
                    assert(signs + Seq::<BinaryOperator>::empty() =~= signs);
                }
                break;
            },
            Some(operator) => {
                proof {
                    let rest = operand_row(tokens, iter.position());
                    assert(went_forward(tokens, here, iter.position()));
                    assert(binary_operator(tokens, behind) == (Some(operator), iter.position()));
                    match rest.result {
                        Ok(row) => {
                            assert(operand_row(tokens, here) == (Parsed {
                                result: Ok::<OperandRow, Seq<ErrorView>>(
                                    OperandRow {
                                        operands: seq![operand] + row.operands,
                                        operators: seq![operator] + row.operators,
                                    },
                                ),
                                position: rest.position,
                            }));
                            assert(prefix.push(operand) + row.operands =~= prefix + (
                            seq![operand] + row.operands));
                            assert(signs.push(operator) + row.operators =~= signs + (
                            seq![operator] + row.operators));
                        },
                        Err(errors) => {
                            assert(operand_row(tokens, here) == (Parsed {
                                result: Err::<OperandRow, Seq<ErrorView>>(errors),
                                position: rest.position,
                            }));
                        },
                    }
                }
                operators.push(operator);
            },
        }
    }

    // Reduce the list of binary operations into one according to the operator precedence.
    let ghost operands0 = expressions_view(expressions@);
    let ghost operators0 = operators@;
    let mut level: u8 = 0;
    while level < 5
        invariant
            level <= 5,
            (expressions_view(expressions@), operators@) == fold_levels(
                operands0,
                operators0,
                level as int,
            ),
            expressions@.len() == operators@.len() + 1,
            forall|k: int|
                0 <= k < operators@.len() ==> precedence_level(#[trigger] operators@[k])
                    >= level,
        decreases 5 - level,
    {
        let (reduced_expressions, reduced_operators) = reduce_level(
            expressions,
            &operators,
            level,
        );
        expressions = reduced_expressions;
        operators = reduced_operators;
        level += 1;
    }
    assert(operators@.len() == 0) by {
        if operators@.len() > 0 {
            assert(precedence_level(operators@[0]) >= 5);
        }
    }
    let ghost folded = expressions_view(expressions@);
    let only = expressions.pop().unwrap();
    assert(only.view() == folded[0]);
    Ok(only)
}

/// What `parse_statement` hands back, with the statement taken by its view.
pub open spec fn statement_outcome(r: CompileResult<Statement>) -> Result<
    StatementView,
    Seq<ErrorView>,
> {
    match r {
        Ok(statement) => Ok(statement.view()),
        Err(errors) => Err(errors@),
    }
}

/// What `parse_block` hands back, with the statements taken by their views.
pub open spec fn block_outcome(r: CompileResult<Vec<Statement>>) -> Result<
    Seq<StatementView>,
    Seq<ErrorView>,
> {
    match r {
        Ok(statements) => Ok(statements_view(statements@)),
        Err(errors) => Err(errors@),
    }
}

/// What `parse_function` hands back, with the function taken by its view.
pub open spec fn function_outcome(r: CompileResult<Function>) -> Result<
    crate::ast::FunctionView,
    Seq<ErrorView>,
> {
    match r {
        Ok(function) => Ok(function.view()),
        Err(errors) => Err(errors@),
    }
}

/// What `parse_module` hands back, with the functions taken by their views.
pub open spec fn module_outcome(r: CompileResult<Vec<Function>>) -> Result<
    Seq<crate::ast::FunctionView>,
    Seq<ErrorView>,
> {
    match r {
        Ok(functions) => Ok(functions_view(functions@)),
        Err(errors) => Err(errors@),
    }
}

spec fn extend_list<T>(items: Seq<T>, errors: Seq<ErrorView>, rest: ParsedList<T>) -> ParsedList<
    T,
> {
    ParsedList {
        items: items + rest.items,
        errors: errors + rest.errors,
        position: rest.position,
    }
}

/// Reads the `;` that closes a statement and hands `value` on.
fn expect_semicolon_and_then<T>(iter: &mut TokenIterator, value: T) -> (r: CompileResult<T>)
    requires
        old(iter).wf(),
    ensures
        final(iter).wf(),
        final(iter).tokens() == old(iter).tokens(),
        final(iter).position() == advance(old(iter).tokens(), old(iter).position()),
        moved_on(*old(iter), *final(iter)),
        match r {
            Ok(v) => v == value && token_at(old(iter).tokens(), old(iter).position())
                is Semicolon,
            Err(errors) => !(token_at(old(iter).tokens(), old(iter).position()) is Semicolon)
                && errors@ == crate::error_handling::located(
                place_at(old(iter).tokens(), final(iter).position() - 1),
                "Expected `;`"@,
            ),
        },
{
    match iter.consume() {
        Token::Semicolon => Ok(value),
        _ => Err(prev_token_error(iter, "Expected `;`")),
    }
}

/// Parses a `+=`, `-=`, etc. type statement, assuming the operator has already been read.
fn parse_modify_in_place(
    iter: &mut TokenIterator,
    ident: String,
    ident_ref: FileRef,
    operator: BinaryOperator,
) -> (r: CompileResult<Statement>)
    requires
        old(iter).wf(),
    ensures
        reads(
            *old(iter),
            *final(iter),
            statement_outcome(r),
            modify_in_place(
                old(iter).tokens(),
                old(iter).position(),
                ident@,
                ident_ref,
                operator,
            ),
        ),
        shows_why(r),
        moved_on(*old(iter), *final(iter)),
{
    match iter.consume() {
        Token::Equals => {
            let left = Expression::Variable { name: ident.clone(), pos: iter.prev_token_ref() };
            let ghost left_view = left.view();
            match parse_expression(iter) {
                Ok(right) => {
                    let value = Expression::Binary {
                        left: Box::new(left),
                        right: Box::new(right),
                        operator,
                    };
                    assert(value.view() == ExpressionView::Binary {
                        left: Box::new(left_view),
                        right: Box::new(right.view()),
                        operator,
                    });
                    Ok(
                        Statement::Assignment {
                            variable_name: ident,
                            variable_name_ref: ident_ref,
                            value,
                        },
                    )
                },
                Err(errors) => Err(errors),
            }
        },
        _ => Err(prev_token_error(iter, "Expected `=`")),
    }
}

/// Moves behind the token that ends a statement which could not be read, the
/// first such token from the one just consumed, on which the statement failed.
fn skip_failed_statement(iter: &mut TokenIterator, is_block_statement: bool)
    requires
        old(iter).wf(),
        old(iter).position() > 0,
    ensures
        final(iter).wf(),
        final(iter).tokens() == old(iter).tokens(),
        final(iter).position() == skip_statement(
            old(iter).tokens(),
            old(iter).position() - 1,
            is_block_statement,
        ),
        final(iter).position() >= old(iter).position(),
{
    let ghost tokens = iter.tokens();
    let ghost start = iter.position() - 1;
    iter.move_back();
    loop
        invariant_except_break
            iter.wf(),
            iter.tokens() == tokens,
            start < tokens.len(),
            iter.position() >= start,
            skip_statement(tokens, iter.position(), is_block_statement) == skip_statement(
                tokens,
                start,
                is_block_statement,
            ),
        ensures
            iter.wf(),
            iter.tokens() == tokens,
            iter.position() > start,
            iter.position() == skip_statement(tokens, start, is_block_statement),
        decreases steps_left(tokens, iter.position()),
    {
        let stop = match iter.consume() {
            Token::EndOfFile => true,
            Token::CloseBrace => is_block_statement,
            Token::Semicolon => !is_block_statement,
            _ => false,
        };
        if stop {
            break;
        }
    }
}

/// What reading a segment hands back, with the segment taken by its view.
pub open spec fn segment_outcome(r: CompileResult<IfSegment>) -> Result<
    crate::ast::IfSegmentView,
    Seq<ErrorView>,
> {
    match r {
        Ok(segment) => Ok(segment.view()),
        Err(errors) => Err(errors@),
    }
}

/// Parses the condition and the block of one segment of an `if` statement.
fn parse_if_segment(iter: &mut TokenIterator) -> (r: CompileResult<IfSegment>)
    requires
        old(iter).wf(),
    ensures
        reads(
            *old(iter),
            *final(iter),
            segment_outcome(r),
            if_segment(old(iter).tokens(), old(iter).position()),
        ),
        shows_why(r),
        moved_on(*old(iter), *final(iter)),
    decreases steps_left(old(iter).tokens(), old(iter).position()), 0int,
{
    let condition = match parse_expression(iter) {
        Ok(condition) => condition,
        Err(errors) => {
            return Err(errors);
        },
    };
    match parse_block(iter) {
        Ok(block) => Ok(IfSegment { condition, block }),
        Err(errors) => Err(errors),
    }
}

/// Parses what follows the segments read so far: `else if` segments, and after
/// them perhaps an `else` block.
#[verifier::rlimit(60)]
fn parse_else_chain(iter: &mut TokenIterator, segments: Vec<IfSegment>) -> (r: CompileResult<
    Statement,
>)
    requires
        old(iter).wf(),
    ensures
        reads(
            *old(iter),
            *final(iter),
            statement_outcome(r),
            else_chain(old(iter).tokens(), old(iter).position(), segments_view(segments@)),
        ),
        shows_why(r),
        final(iter).position() >= old(iter).position(),
    decreases steps_left(old(iter).tokens(), old(iter).position()), 1int,
{
    let mut segments = segments;
    // No `else` or `else if` after the previous block.
    let goes_on = match iter.next_token() {
        Token::Else => true,
        _ => false,
    };
    if !goes_on {
        return Ok(Statement::If { segments, else_block: None });
    }
    iter.consume();
    match iter.consume() {
        Token::If => {
            // `else if` block
            let next = match parse_if_segment(iter) {
                Ok(segment) => segment,
                Err(errors) => {
                    return Err(errors);
                },
            };
            proof {
                lemma_segments_view_push(segments@, next);
            }
            segments.push(next);
            parse_else_chain(iter, segments)
        },
        _ => {
            // `else` block; nothing can follow it.
            iter.move_back();
            match parse_block(iter) {
                Ok(block) => Ok(Statement::If { segments, else_block: Some(block) }),
                Err(errors) => Err(errors),
            }
        },
    }
}

/// Parses an `if` statement, assuming that the initial `if` has already been consumed.
fn parse_if_statement(iter: &mut TokenIterator) -> (r: CompileResult<Statement>)
    requires
        old(iter).wf(),
    ensures
        reads(
            *old(iter),
            *final(iter),
            statement_outcome(r),
            if_statement(old(iter).tokens(), old(iter).position()),
        ),
        shows_why(r),
        moved_on(*old(iter), *final(iter)),
    decreases steps_left(old(iter).tokens(), old(iter).position()), 2int,
{
    let mut segments: Vec<IfSegment> = Vec::new();
    assert(segments_view(segments@) =~= Seq::empty());

    // Parse the first segment.
    let first = match parse_if_segment(iter) {
        Ok(segment) => segment,
        Err(errors) => {
            return Err(errors);
        },
    };
    proof {
        lemma_segments_view_push(segments@, first);
        assert(segments_view(segments@).push(first.view()) =~= seq![first.view()]);
    }
    segments.push(first);
    parse_else_chain(iter, segments)
}

fn compound_operator_of(token: &Token) -> (r: Option<BinaryOperator>)
    ensures
        r == compound_operator(token@),
{
    match token {
        Token::Plus => Some(BinaryOperator::Add),
        Token::Minus => Some(BinaryOperator::Subtract),
        Token::Star => Some(BinaryOperator::Multiply),
        Token::ForwardSlash => Some(BinaryOperator::Divide),
        Token::Carat => Some(BinaryOperator::Power),
        Token::Ampersand => Some(BinaryOperator::And),
        Token::Bar => Some(BinaryOperator::Or),
        _ => None,
    }
}

/// Parses the statement that begins with the identifier just consumed, up to
/// its closing semicolon.
#[verifier::rlimit(60)]
fn parse_identifier_statement_body(iter: &mut TokenIterator, ident: String) -> (r: CompileResult<
    Statement,
>)
    requires
        old(iter).wf(),
        0 < old(iter).position() < old(iter).tokens().len(),
    ensures
        reads(
            *old(iter),
            *final(iter),
            statement_outcome(r),
            identifier_statement_body(old(iter).tokens(), old(iter).position() - 1, ident@),
        ),
        shows_why(r),
        final(iter).position() >= old(iter).position(),
{
    let ident_ref = iter.prev_token_ref();
    let second = iter.consume();
    match second {
        Token::Equals => {
            match parse_expression(iter) {
                Ok(value) => Ok(
                    Statement::Assignment {
                        variable_name: ident,
                        value,
                        variable_name_ref: ident_ref,
                    },
                ),
                Err(errors) => Err(errors),
            }
        },
        Token::OpenParen => {
            iter.move_back();
            iter.move_back();

            match parse_call(iter) {
                Ok(call) => Ok(Statement::Call(call)),
                Err(errors) => Err(errors),
            }
        },
        _ => match compound_operator_of(&second) {
            Some(operator) => parse_modify_in_place(iter, ident, ident_ref, operator),
            None => Err(prev_token_error(iter, "Expected valid statement")),
        },
    }
}

/// Parses the statement that begins with the identifier just consumed: an
/// assignment, a compound assignment or a call.
fn parse_identifier_statement(iter: &mut TokenIterator, ident: String) -> (r: CompileResult<
    Statement,
>)
    requires
        old(iter).wf(),
        0 < old(iter).position() < old(iter).tokens().len(),
    ensures
        reads(
            *old(iter),
            *final(iter),
            statement_outcome(r),
            identifier_statement(old(iter).tokens(), old(iter).position() - 1, ident@),
        ),
        shows_why(r),
        final(iter).position() >= old(iter).position(),
{
    let statement = match parse_identifier_statement_body(iter, ident) {
        Ok(statement) => statement,
        Err(errors) => {
            return Err(errors);
        },
    };
    match iter.consume() {
        Token::Semicolon => Ok(statement),
        _ => Err(prev_token_error(iter, "Expected `;`")),
    }
}

/// Parses a `return` statement, assuming that the keyword has already been consumed.
fn parse_return_statement(iter: &mut TokenIterator) -> (r: CompileResult<Statement>)
    requires
        old(iter).wf(),
        0 < old(iter).position() < old(iter).tokens().len(),
    ensures
        reads(
            *old(iter),
            *final(iter),
            statement_outcome(r),
            return_statement(old(iter).tokens(), old(iter).position()),
        ),
        shows_why(r),
        final(iter).position() >= old(iter).position(),
{
    match iter.consume() {
        Token::Semicolon => {
            // Return statement with no value
            let keyword_ref = iter.get_ref_at(iter.next_token_index() - 2);
            Ok(Statement::Return(keyword_ref))
        },
        _ => {
            // Return statement with a value
            iter.move_back();

            let idx_before_expr = iter.next_token_index();
            let expr = match parse_expression(iter) {
                Ok(expr) => expr,
                Err(errors) => {
                    return Err(errors);
                },
            };

            let idx_after_expr = iter.prev_token_index();
            let expr_ref = iter.get_ref_range(idx_before_expr, idx_after_expr);

            // Check that the ; is present.
            match iter.consume() {
                Token::Semicolon => Ok(Statement::ReturnValue { value: expr, value_ref: expr_ref }),
                _ => Err(prev_token_error(iter, "Expected `;`")),
            }
        },
    }
}

/// Parses a statement.
#[verifier::rlimit(60)]
pub fn parse_statement(iter: &mut TokenIterator) -> (r: CompileResult<Statement>)
    requires
        old(iter).wf(),
    ensures
        reads(
            *old(iter),
            *final(iter),
            statement_outcome(r),
            statement(old(iter).tokens(), old(iter).position()),
        ),
        shows_why(r),
        moved_on(*old(iter), *final(iter)),
    decreases steps_left(old(iter).tokens(), old(iter).position()), 3int,
{
    match iter.consume() {
        // An identifier begins an assignment or a call.
        Token::Identifier(ident) => parse_identifier_statement(iter, ident),
        Token::If => parse_if_statement(iter),
        Token::While => {
            let condition = match parse_expression(iter) {
                Ok(condition) => condition,
                Err(errors) => {
                    return Err(errors);
                },
            };
            match parse_block(iter) {
                Ok(block) => Ok(Statement::While { condition, block }),
                Err(errors) => Err(errors),
            }
        },
        Token::Continue => {
            let keyword = Statement::Continue(iter.prev_token_ref());
            expect_semicolon_and_then(iter, keyword)
        },
        Token::Break => {
            let keyword = Statement::Break(iter.prev_token_ref());
            expect_semicolon_and_then(iter, keyword)
        },
        Token::Return => parse_return_statement(iter),
        _ => Err(prev_token_error(iter, "Expected statement")),
    }
}

/// Parses a block of statements, which must start and end with `{` and `}`.
#[verifier::rlimit(60)]
pub fn parse_block(iter: &mut TokenIterator) -> (r: CompileResult<Vec<Statement>>)
    requires
        old(iter).wf(),
    ensures
        reads(
            *old(iter),
            *final(iter),
            block_outcome(r),
            block(old(iter).tokens(), old(iter).position()),
        ),
        shows_why(r),
        moved_on(*old(iter), *final(iter)),
    decreases steps_left(old(iter).tokens(), old(iter).position()), 5int,
{
    let ghost tokens = iter.tokens();
    let ghost start = iter.position();
    match iter.consume() {
        Token::OpenBrace => {},
        _ => {
            return Err(prev_token_error(iter, "Expected `{`"));
        },
    }
    let ghost first_item = iter.position();

    // Continue to parse statements until a } is discovered.
    let mut statements: Vec<Statement> = Vec::new();
    let mut errors: Vec<FileTaggedError> = Vec::new();
    assert(statements_view(statements@) =~= Seq::empty());
    assert(errors_view(errors@) =~= Seq::empty());

    loop
        invariant_except_break
            iter.wf(),
            iter.tokens() == tokens,
            tokens == old(iter).tokens(),
            start == old(iter).position(),
            start < tokens.len(),
            iter.position() > start,
            extend_list(
                statements_view(statements@),
                errors_view(errors@),
                block_items(tokens, iter.position()),
            ) == block_items(tokens, first_item),
        ensures
            iter.wf(),
            iter.tokens() == tokens,
            iter.position() > start,
            block_items(tokens, first_item) == (ParsedList {
                items: statements_view(statements@),
                errors: errors_view(errors@),
                position: iter.position(),
            }),
        decreases steps_left(tokens, iter.position()),
    {
        let ghost here = iter.position();
        let ghost items = statements_view(statements@);
        let ghost found = errors_view(errors@);
        let token = iter.consume();
        let (stop, is_block_statement) = match token {
            Token::CloseBrace => (true, false),
            Token::If | Token::While => (false, true),
            Token::EndOfFile => (true, false),
            _ => (false, false),
        };
        if stop {
            proof {
                assert(items + Seq::<StatementView>::empty() =~= items);
            }
            match token {
                Token::EndOfFile => {
                    // The file ends inside the block.
                    append_errors(&mut errors, prev_token_error(iter, "Expected `}`"));
                },
                _ => {
                    proof {
                        assert(found + Seq::<ErrorView>::empty() =~= found);
                    }
                },
            }
            break;
        }
        iter.move_back();

        match parse_statement(iter) {
            Ok(statement) => {
                proof {
                    lemma_statements_view_push(statements@, statement);
                    let rest = block_items(tokens, iter.position());
                    assert(went_forward(tokens, here, iter.position()));
                    assert(items.push(statement.view()) + rest.items =~= items + (
                    seq![statement.view()] + rest.items));
                }
                statements.push(statement);
            },
            Err(err) => {
                let ghost reported = err@;
                append_errors(&mut errors, err);

                // After an error, go on behind the end of the statement: behind the
                // first `}` if it started a block, else behind the first `;`, from
                // the token on which it failed.
                skip_failed_statement(iter, is_block_statement);
                proof {
                    let rest = block_items(tokens, iter.position());
                    assert(went_forward(tokens, here, iter.position()));
                    assert((found + reported) + rest.errors =~= found + (reported
                        + rest.errors));
                }
            },
        }
    }

    if errors.len() == 0 {
        Ok(statements)
    } else {
        Err(CompileErrors(errors))
    }
}

/// What reading parameter names hands back, with the names taken by their views.
pub open spec fn names_outcome(r: CompileResult<Vec<String>>) -> Result<
    Seq<Seq<char>>,
    Seq<ErrorView>,
> {
    match r {
        Ok(names) => Ok(names_view(names@)),
        Err(errors) => Err(errors@),
    }
}

/// What the names `prefix` and then those of `rest` are together.
spec fn extend_names(prefix: Seq<Seq<char>>, rest: Parsed<Seq<Seq<char>>>) -> Parsed<
    Seq<Seq<char>>,
> {
    match rest.result {
        Ok(more) => Parsed { result: Ok(prefix + more), position: rest.position },
        Err(errors) => Parsed { result: Err(errors), position: rest.position },
    }
}

/// Parses the parameter names of a function, separated by commas, up to the
/// token behind the last name. Behind a comma a name must follow.
fn parse_parameters(iter: &mut TokenIterator) -> (r: CompileResult<Vec<String>>)
    requires
        old(iter).wf(),
        old(iter).position() < old(iter).tokens().len(),
    ensures
        reads(
            *old(iter),
            *final(iter),
            names_outcome(r),
            parameters(old(iter).tokens(), old(iter).position(), false),
        ),
        shows_why(r),
        final(iter).position() >= old(iter).position(),
{
    let ghost tokens = iter.tokens();
    let ghost start = iter.position();
    let mut argument_names: Vec<String> = Vec::new();
    let mut owed = false;
    assert(names_view(argument_names@) =~= Seq::empty());
    loop
        invariant_except_break
            iter.wf(),
            iter.tokens() == tokens,
            tokens == old(iter).tokens(),
            start == old(iter).position(),
            start <= iter.position() < tokens.len(),
            extend_names(
                names_view(argument_names@),
                parameters(tokens, iter.position(), owed),
            ) == parameters(tokens, start, false),
        ensures
            iter.wf(),
            iter.tokens() == tokens,
            iter.position() >= start,
            parameters(tokens, start, false) == (Parsed {
                result: Ok::<Seq<Seq<char>>, Seq<ErrorView>>(names_view(argument_names@)),
                position: iter.position(),
            }),
        decreases steps_left(tokens, iter.position()),
    {
        let ghost here = iter.position();
        let ghost names = names_view(argument_names@);
        match iter.consume() {
            Token::Identifier(ident) => {
                proof {
                    assert(names_view(argument_names@.push(ident)) =~= names.push(ident@));
                }
                argument_names.push(ident);
                let more = match iter.next_token() {
                    Token::Comma => true,
                    _ => false,
                };
                if more {
                    iter.consume();
                    owed = true;
                    proof {
                        let rest = parameters(tokens, iter.position(), true);
                        assert(went_forward(tokens, here, iter.position()));
                        match rest.result {
                            Ok(others) => {
                                assert(names.push(ident@) + others =~= names + (seq![ident@]
                                    + others));
                            },
                            Err(_) => {},
                        }
                    }
                } else {
                    proof {
                        assert(names + seq![ident@] =~= names.push(ident@));
                    }
                    break;
                }
            },
            _ => {
                if owed {
                    return Err(prev_token_error(iter, "Expected parameter name"));
                }
                iter.move_back();
                proof {
                    assert(names + Seq::<Seq<char>>::empty() =~= names);
                }
                break;
            },
        }
    }
    Ok(argument_names)
}

/// Parses a function definition.
#[verifier::rlimit(60)]
pub fn parse_function(iter: &mut TokenIterator) -> (r: CompileResult<Function>)
    requires
        old(iter).wf(),
    ensures
        reads(
            *old(iter),
            *final(iter),
            function_outcome(r),
            function(old(iter).tokens(), old(iter).position()),
        ),
        shows_why(r),
        moved_on(*old(iter), *final(iter)),
        r is Err ==> final(iter).position() >= old(iter).position() + 2 || !({
            let first = token_at(old(iter).tokens(), old(iter).position());
            first is Int || first is Void
        }),
{
    proof {
        reveal(function);
    }
    let returns_value = match iter.consume() {
        Token::Void => false,
        Token::Int => true,
        _ => {
            return Err(
                prev_token_error(iter, "Expected function return type: `int` or `void`"),
            );
        },
    };

    let name = match iter.consume() {
        Token::Identifier(name) => name,
        _ => {
            return Err(prev_token_error(iter, "Expected function name"));
        },
    };
    let name_ref = iter.prev_token_ref();

    match iter.consume() {
        Token::OpenParen => {},
        _ => {
            return Err(prev_token_error(iter, "Expected `(`"));
        },
    }

    let argument_names = match parse_parameters(iter) {
        Ok(names) => names,
        Err(errors) => {
            return Err(errors);
        },
    };

    match iter.consume() {
        Token::CloseParen => {},
        _ => {
            return Err(prev_token_error(iter, "Expected ')'"));
        },
    }

    // Parse the block
    match parse_block(iter) {
        Ok(block) => Ok(Function { name, argument_names, block, returns_value, name_ref }),
        Err(errors) => Err(errors),
    }
}

/// Moves to the first `int`, `void` or `EndOfFile` from the token just consumed,
/// on which a function failed.
fn skip_to_next_function(iter: &mut TokenIterator)
    requires
        old(iter).wf(),
        old(iter).position() > 0,
    ensures
        final(iter).wf(),
        final(iter).tokens() == old(iter).tokens(),
        final(iter).position() == skip_to_function(
            old(iter).tokens(),
            old(iter).position() - 1,
        ),
        final(iter).position() >= old(iter).position() - 1,
        ({
            let token = token_at(final(iter).tokens(), final(iter).position());
            token is Int || token is Void || token is EndOfFile
        }),
{
    let ghost tokens = iter.tokens();
    let ghost start = iter.position() - 1;
    iter.move_back();
    loop
        invariant_except_break
            iter.wf(),
            iter.tokens() == tokens,
            iter.position() >= start,
            skip_to_function(tokens, iter.position()) == skip_to_function(tokens, start),
        ensures
            iter.wf(),
            iter.tokens() == tokens,
            iter.position() >= start,
            iter.position() == skip_to_function(tokens, start),
            ({
                let token = token_at(tokens, iter.position());
                token is Int || token is Void || token is EndOfFile
            }),
        decreases steps_left(tokens, iter.position()),
    {
        let stop = match iter.next_token() {
            Token::Int | Token::Void | Token::EndOfFile => true,
            _ => false,
        };
        if stop {
            break;
        }
        iter.consume();
    }
}

/// Parses all of the functions within the root of a module.
#[verifier::rlimit(60)]
pub fn parse_module(iter: &mut TokenIterator) -> (r: CompileResult<Vec<Function>>)
    requires
        old(iter).wf(),
    ensures
        reads(
            *old(iter),
            *final(iter),
            module_outcome(r),
            module(old(iter).tokens(), old(iter).position()),
        ),
        shows_why(r),
{
    let ghost tokens = iter.tokens();
    let ghost start = iter.position();
    let mut module: Vec<Function> = Vec::new();
    let mut errors: Vec<FileTaggedError> = Vec::new();
    assert(functions_view(module@) =~= Seq::empty());
    assert(errors_view(errors@) =~= Seq::empty());

    // Continue until EOF
    loop
        invariant_except_break
            iter.wf(),
            iter.tokens() == tokens,
            extend_list(
                functions_view(module@),
                errors_view(errors@),
                module_items(tokens, iter.position()),
            ) == module_items(tokens, start),
        ensures
            iter.wf(),
            iter.tokens() == tokens,
            module_items(tokens, start) == (ParsedList {
                items: functions_view(module@),
                errors: errors_view(errors@),
                position: iter.position(),
            }),
        decreases steps_left(tokens, iter.position()),
    {
        let ghost here = iter.position();
        let ghost items = functions_view(module@);
        let ghost found = errors_view(errors@);
        let stop = match iter.consume() {
            Token::EndOfFile => true,
            _ => false,
        };
        if stop {
            proof {
                assert(items + Seq::<crate::ast::FunctionView>::empty() =~= items);
                assert(found + Seq::<ErrorView>::empty() =~= found);
            }
            break;
        }
        iter.move_back();
        match parse_function(iter) {
            Ok(function) => {
                proof {
                    let rest = module_items(tokens, iter.position());
                    assert(went_forward(tokens, here, iter.position()));
                    assert(functions_view(module@.push(function)) =~= items.push(
                        function.view(),
                    ));
                    assert(items.push(function.view()) + rest.items =~= items + (
                    seq![function.view()] + rest.items));
                }
                module.push(function);
            },
            Err(errs) => {
                let ghost reported = errs@;
                append_errors(&mut errors, errs);

                // Continue until the start of another function, i.e. an `int` or
                // `void` keyword.
                skip_to_next_function(iter);
                proof {
                    let rest = module_items(tokens, iter.position());
                    assert(went_forward(tokens, here, iter.position()));
                    assert((found + reported) + rest.errors =~= found + (reported
                        + rest.errors));
                }
            },
        }
    }

    if errors.len() == 0 {
        Ok(module)
    } else {
        Err(CompileErrors(errors))
    }
}

} // verus!
