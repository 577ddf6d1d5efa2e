//! Representation of the syntax of the language.

use vstd::prelude::*;
use crate::error_handling::FileRef;

verus! {

/// An operator that stands between two expressions.
#[derive(Copy, Clone, Debug, PartialEq, Eq, Structural)]
pub enum BinaryOperator {
    Add,
    Subtract,
    Multiply,
    Divide,
    And,
    Or,
    Xor,
    ShiftLeft,
    ShiftRight,
    Equals,
    NotEquals,
    GreaterThan,
    LessThan,
    GreaterThanOrEqual,
    Remainder,
    LessThanOrEqual,
    Power,
}

/// An operator that stands before one expression.
#[derive(Copy, Clone, Debug, PartialEq, Eq, Structural)]
pub enum UnaryOperator {
    Not,
    Negate,
}

/// A function definition.
#[derive(Debug)]
pub struct Function {
    pub name: String,
    pub name_ref: FileRef,
    pub argument_names: Vec<String>,
    pub block: Vec<Statement>,
    pub returns_value: bool,
}

/// A statement within a block of code.
#[derive(Debug)]
pub enum Statement {
    Assignment { variable_name: String, variable_name_ref: FileRef, value: Expression },
    If {
        /// Each `if` or `else if` block has its own segment.
        segments: Vec<IfSegment>,
        else_block: Option<Vec<Statement>>,
    },
    While { condition: Expression, block: Vec<Statement> },
    Call(Call),
    /// Holds the position of the `return` keyword.
    Return(FileRef),
    ReturnValue {
        value: Expression,
        /// The position of the expression returned.
        value_ref: FileRef,
    },
    /// Holds the position of the keyword.
    Continue(FileRef),
    /// Holds the position of the keyword.
    Break(FileRef),
}

/// A function call.
#[derive(Debug)]
pub struct Call {
    pub function_name: String,
    pub function_name_ref: FileRef,
    pub arguments: Vec<Expression>,
    pub arguments_ref: FileRef,
}

/// An `if` or `else if` section of an `if` statement.
#[derive(Debug)]
pub struct IfSegment {
    pub condition: Expression,
    pub block: Vec<Statement>,
}

/// An expression, which leaves one value on the stack.
#[derive(Debug)]
#[allow(inconsistent_fields)]
pub enum Expression {
    Binary { left: Box<Expression>, right: Box<Expression>, operator: BinaryOperator },
    Unary { value: Box<Expression>, operator: UnaryOperator },
    Call(Call),
    Variable { name: String, pos: FileRef },
    Literal(i32),
}

/// An expression with names as characters and arguments as a sequence.
#[allow(inconsistent_fields)]
pub enum ExpressionView {
    Binary { left: Box<ExpressionView>, right: Box<ExpressionView>, operator: BinaryOperator },
    Unary { value: Box<ExpressionView>, operator: UnaryOperator },
    Call(CallView),
    Variable { name: Seq<char>, pos: FileRef },
    Literal(i32),
}

/// A call with the name as characters and the arguments as a sequence.
pub struct CallView {
    pub function_name: Seq<char>,
    pub function_name_ref: FileRef,
    pub arguments: Seq<ExpressionView>,
    pub arguments_ref: FileRef,
}

/// A statement with names as characters and blocks as sequences.
pub enum StatementView {
    Assignment { variable_name: Seq<char>, variable_name_ref: FileRef, value: ExpressionView },
    If { segments: Seq<IfSegmentView>, else_block: Option<Seq<StatementView>> },
    While { condition: ExpressionView, block: Seq<StatementView> },
    Call(CallView),
    Return(FileRef),
    ReturnValue { value: ExpressionView, value_ref: FileRef },
    Continue(FileRef),
    Break(FileRef),
}

/// A segment of an `if` statement with its block as a sequence.
pub struct IfSegmentView {
    pub condition: ExpressionView,
    pub block: Seq<StatementView>,
}

/// A function with names as characters and its block as a sequence.
pub struct FunctionView {
    pub name: Seq<char>,
    pub name_ref: FileRef,
    pub argument_names: Seq<Seq<char>>,
    pub block: Seq<StatementView>,
    pub returns_value: bool,
}

/// The views of a sequence of expressions, in order.
pub open spec fn expressions_view(expressions: Seq<Expression>) -> Seq<ExpressionView>
    decreases expressions,
{
    Seq::new(
        expressions.len(),
        |i: int|
            if 0 <= i < expressions.len() {
                expressions[i].view()
            } else {
                arbitrary()
            },
    )
}

/// The views of a sequence of statements, in order.
pub open spec fn statements_view(statements: Seq<Statement>) -> Seq<StatementView>
    decreases statements,
{
    Seq::new(
        statements.len(),
        |i: int|
            if 0 <= i < statements.len() {
                statements[i].view()
            } else {
                arbitrary()
            },
    )
}

/// The views of the segments of an `if` statement, in order.
pub open spec fn segments_view(segments: Seq<IfSegment>) -> Seq<IfSegmentView>
    decreases segments,
{
    Seq::new(
        segments.len(),
        |i: int|
            if 0 <= i < segments.len() {
                segments[i].view()
            } else {
                arbitrary()
            },
    )
}

/// The names in a sequence of strings, as characters.
pub open spec fn names_view(names: Seq<String>) -> Seq<Seq<char>> {
    names.map_values(|name: String| name@)
}

/// The views of a sequence of functions, in order.
pub open spec fn functions_view(functions: Seq<Function>) -> Seq<FunctionView> {
    functions.map_values(|f: Function| f.view())
}

impl Expression {
    /// The expression with names as characters and arguments as sequences.
    pub open spec fn view(&self) -> ExpressionView
        decreases self,
    {
        match self {
            Expression::Binary { left, right, operator } => ExpressionView::Binary {
                left: Box::new(left.view()),
                right: Box::new(right.view()),
                operator: *operator,
            },
            Expression::Unary { value, operator } => ExpressionView::Unary {
                value: Box::new(value.view()),
                operator: *operator,
            },
            Expression::Call(call) => ExpressionView::Call(call.view()),
            Expression::Variable { name, pos } => ExpressionView::Variable {
                name: name@,
                pos: *pos,
            },
            Expression::Literal(value) => ExpressionView::Literal(*value),
        }
    }
}

impl Call {
    /// The call with its name as characters and its arguments as a sequence.
    pub open spec fn view(&self) -> CallView
        decreases self,
    {
        CallView {
            function_name: self.function_name@,
            function_name_ref: self.function_name_ref,
            arguments: expressions_view(self.arguments@),
            arguments_ref: self.arguments_ref,
        }
    }
}

impl IfSegment {
    /// The segment with its block as a sequence.
    pub open spec fn view(&self) -> IfSegmentView
        decreases self,
    {
        IfSegmentView { condition: self.condition.view(), block: statements_view(self.block@) }
    }
}

impl Statement {
    /// The statement with names as characters and blocks as sequences.
    pub open spec fn view(&self) -> StatementView
        decreases self,
    {
        match self {
            Statement::Assignment { variable_name, variable_name_ref, value } => {
                StatementView::Assignment {
                    variable_name: variable_name@,
                    variable_name_ref: *variable_name_ref,
                    value: value.view(),
                }
            },
            Statement::If { segments, else_block } => StatementView::If {
                segments: segments_view(segments@),
                else_block: match else_block {
                    Some(block) => Some(statements_view(block@)),
                    None => None,
                },
            },
            Statement::While { condition, block } => StatementView::While {
                condition: condition.view(),
                block: statements_view(block@),
            },
            Statement::Call(call) => StatementView::Call(call.view()),
            Statement::Return(position) => StatementView::Return(*position),
            Statement::ReturnValue { value, value_ref } => StatementView::ReturnValue {
                value: value.view(),
                value_ref: *value_ref,
            },
            Statement::Continue(position) => StatementView::Continue(*position),
            Statement::Break(position) => StatementView::Break(*position),
        }
    }
}

impl Function {
    /// The function with names as characters and its block as a sequence.
    pub open spec fn view(&self) -> FunctionView {
        FunctionView {
            name: self.name@,
            name_ref: self.name_ref,
            argument_names: names_view(self.argument_names@),
            block: statements_view(self.block@),
            returns_value: self.returns_value,
        }
    }
}

/// The view of a sequence of expressions holds the view of each, place by place.
pub proof fn lemma_expressions_view(expressions: Seq<Expression>)
    ensures
        expressions_view(expressions).len() == expressions.len(),
        forall|i: int|
            0 <= i < expressions.len() ==> #[trigger] expressions_view(expressions)[i]
                == expressions[i].view(),
{
}

/// Appending an expression appends its view.
pub proof fn lemma_expressions_view_push(expressions: Seq<Expression>, last: Expression)
    ensures
        expressions_view(expressions.push(last)) == expressions_view(expressions).push(
            last.view(),
        ),
{
    assert(expressions_view(expressions.push(last)) =~= expressions_view(expressions).push(
        last.view(),
    ));
}

/// Taking the last expression away takes the last view away.
pub proof fn lemma_expressions_view_drop_last(expressions: Seq<Expression>)
    requires
        expressions.len() > 0,
    ensures
        expressions_view(expressions.drop_last()) == expressions_view(expressions).drop_last(),
        expressions_view(expressions).last() == expressions.last().view(),
{
    assert(expressions_view(expressions.drop_last()) =~= expressions_view(
        expressions,
    ).drop_last());
}

/// Appending a statement appends its view.
pub proof fn lemma_statements_view_push(statements: Seq<Statement>, last: Statement)
    ensures
        statements_view(statements.push(last)) == statements_view(statements).push(last.view()),
{
    assert(statements_view(statements.push(last)) =~= statements_view(statements).push(
        last.view(),
    ));
}

/// Appending a segment appends its view.
pub proof fn lemma_segments_view_push(segments: Seq<IfSegment>, last: IfSegment)
    ensures
        segments_view(segments.push(last)) == segments_view(segments).push(last.view()),
{
    assert(segments_view(segments.push(last)) =~= segments_view(segments).push(last.view()));
}

} // verus!
