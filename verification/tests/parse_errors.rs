use std::sync::Arc;

use circuit_compiler::ast::{BinaryOperator, Expression, Statement, UnaryOperator};
use circuit_compiler::error_handling::{CompileErrors, SourceFile};
use circuit_compiler::lexer::tokenize;
use circuit_compiler::parser::{
    parse_block, parse_expression, parse_function, parse_module, parse_statement, TokenIterator,
};

fn iterator(text: &str) -> TokenIterator {
    let source = Arc::new(SourceFile { text: text.to_string(), path: "test.src".to_string() });
    TokenIterator::new(tokenize(source).unwrap())
}

fn messages(errors: CompileErrors) -> Vec<(String, u32)> {
    errors.0.iter().map(|e| (e.msg.clone(), e.position.as_ref().unwrap().begin_char_index)).collect()
}

fn module_errors(text: &str) -> Vec<(String, u32)> {
    messages(parse_module(&mut iterator(text)).err().unwrap())
}

#[test]
fn errors_of_functions() {
    assert_eq!(
        module_errors("x main() { } "),
        vec![("Expected function return type: `int` or `void`".to_string(), 0)]
    );
    assert_eq!(module_errors("void 1() { } "), vec![("Expected function name".to_string(), 5)]);
    assert_eq!(module_errors("void main { } "), vec![("Expected `(`".to_string(), 10)]);
    assert_eq!(module_errors("void main(a b) { } "), vec![("Expected ')'".to_string(), 12)]);
    assert_eq!(module_errors("void main() x "), vec![("Expected `{`".to_string(), 12)]);
}

#[test]
fn errors_of_statements() {
    assert_eq!(
        module_errors("void main() { 1; } "),
        vec![("Expected statement".to_string(), 14)]
    );
    assert_eq!(
        module_errors("void main() { x 1; } "),
        vec![("Expected valid statement".to_string(), 16)]
    );
    assert_eq!(module_errors("void main() { x + 1; } "), vec![("Expected `=`".to_string(), 18)]);
    assert_eq!(module_errors("void main() { x = 1 x; } "), vec![("Expected `;`".to_string(), 20)]);
    assert_eq!(module_errors("void main() { break x; } "), vec![("Expected `;`".to_string(), 20)]);
    assert_eq!(
        module_errors("void main() { return 1 x; } "),
        vec![("Expected `;`".to_string(), 23)]
    );
    // The `}` on which a statement fails does not end it: the block stays open.
    assert_eq!(
        module_errors("void main() { x = 1 } "),
        vec![("Expected `;`".to_string(), 20), ("Expected `}`".to_string(), 0)]
    );
    assert_eq!(
        module_errors("void main() { f(1; } "),
        vec![("Expected `)`".to_string(), 17)]
    );
    assert_eq!(
        module_errors("void main() { x = (1; } "),
        vec![("Expected `)`".to_string(), 20)]
    );
    assert_eq!(
        module_errors("void main() { x = 1 + ; } "),
        vec![("Expected unary expression".to_string(), 22)]
    );
    assert_eq!(
        module_errors("void main() { if 1 x = 2; } } "),
        vec![("Expected `{`".to_string(), 19)]
    );
}

#[test]
fn reading_goes_on_behind_a_bad_statement_and_a_bad_function() {
    // Behind a bad statement that began a block, reading goes on behind the next `}`.
    assert_eq!(
        module_errors("void main() { while { } x = ; } "),
        vec![
            ("Expected unary expression".to_string(), 20),
            ("Expected unary expression".to_string(), 28),
        ]
    );
    // Where the statement failed on the token that ends it, the next one is read.
    assert_eq!(
        module_errors("void main() { x = ; y = ; if 1 { z = } } w = ; } "),
        vec![
            ("Expected unary expression".to_string(), 18),
            ("Expected unary expression".to_string(), 24),
            ("Expected unary expression".to_string(), 37),
            ("Expected `}`".to_string(), 0),
        ]
    );
    assert_eq!(
        module_errors("void main() { if 1 { x = ; } y = ; } "),
        vec![
            ("Expected unary expression".to_string(), 25),
            ("Expected unary expression".to_string(), 33),
        ]
    );
    // Behind a bad function, reading goes on at the next `int` or `void`.
    assert_eq!(
        module_errors("void f( { } int 2() { } void main() { } "),
        vec![("Expected ')'".to_string(), 8), ("Expected function name".to_string(), 16)]
    );
}

#[test]
fn operators_bind_by_rung_and_from_the_left() {
    let text = "1 - 2 - 3 * 4 ^ 5 == 6 & 7 ;";
    let expression = parse_expression(&mut iterator(text)).unwrap();
    // ((((1 - 2) - (3 * (4 ^ 5))) == 6) & 7)
    let shape = format!("{:?}", strip(&expression));
    assert_eq!(shape, "(((1 Subtract 2) Subtract (3 Multiply (4 Power 5))) Equals 6) And 7");
}

/// The expression with parentheses around each operation, without places.
fn strip(expression: &Expression) -> Shape {
    Shape(match expression {
        Expression::Binary { left, right, operator } => {
            format!("{} {:?} {}", inner(left), operator, inner(right))
        }
        Expression::Unary { value, operator } => format!("{:?} {}", operator, inner(value)),
        Expression::Call(call) => format!(
            "{}({})",
            call.function_name,
            call.arguments.iter().map(|a| strip(a).0).collect::<Vec<_>>().join(", ")
        ),
        Expression::Variable { name, .. } => name.clone(),
        Expression::Literal(value) => value.to_string(),
    })
}

fn inner(expression: &Expression) -> String {
    match expression {
        Expression::Binary { .. } | Expression::Unary { .. } => format!("({})", strip(expression).0),
        _ => strip(expression).0,
    }
}

struct Shape(String);

impl std::fmt::Debug for Shape {
    fn fmt(&self, f: &mut std::fmt::Formatter<'_>) -> std::fmt::Result {
        f.write_str(&self.0)
    }
}

#[test]
fn comparisons_of_two_symbols() {
    for (text, operator) in [
        ("a == b;", BinaryOperator::Equals),
        ("a != b;", BinaryOperator::NotEquals),
        ("a <= b;", BinaryOperator::LessThanOrEqual),
        ("a >= b;", BinaryOperator::GreaterThanOrEqual),
        ("a < b;", BinaryOperator::LessThan),
        ("a > b;", BinaryOperator::GreaterThan),
        ("a % b;", BinaryOperator::Remainder),
        ("a | b;", BinaryOperator::Or),
        ("a / b;", BinaryOperator::Divide),
    ] {
        match parse_expression(&mut iterator(text)).unwrap() {
            Expression::Binary { operator: read, .. } => assert_eq!(read, operator),
            other => panic!("{:?}", other),
        }
    }
}

#[test]
fn unary_operators_nest() {
    match parse_expression(&mut iterator("-~-x;")).unwrap() {
        Expression::Unary { value, operator: UnaryOperator::Negate } => match *value {
            Expression::Unary { value, operator: UnaryOperator::Not } => match *value {
                Expression::Unary { value, operator: UnaryOperator::Negate } => {
                    assert!(matches!(*value, Expression::Variable { .. }))
                }
                other => panic!("{:?}", other),
            },
            other => panic!("{:?}", other),
        },
        other => panic!("{:?}", other),
    }
}

#[test]
fn compound_assignment_is_read_as_assignment() {
    match parse_statement(&mut iterator("x *= y + 1;")).unwrap() {
        Statement::Assignment { variable_name, value, .. } => {
            assert_eq!(variable_name, "x");
            assert_eq!(format!("{:?}", strip(&value)), "x Multiply (y Add 1)");
        }
        other => panic!("{:?}", other),
    }
}

#[test]
fn statements_of_every_kind() {
    let block = parse_block(&mut iterator(
        "{ x = 1; f(x, 2); if x { } else if y { } else { } while x { continue; break; } return; return x; }",
    ))
    .unwrap();
    assert_eq!(block.len(), 6);
    assert!(matches!(block[0], Statement::Assignment { .. }));
    match &block[1] {
        Statement::Call(call) => {
            assert_eq!(call.function_name, "f");
            assert_eq!(call.arguments.len(), 2);
            let span = &call.arguments_ref;
            assert_eq!((span.begin_char_index, span.length), (11, 4));
        }
        other => panic!("{:?}", other),
    }
    match &block[2] {
        Statement::If { segments, else_block } => {
            assert_eq!(segments.len(), 2);
            assert!(else_block.is_some());
        }
        other => panic!("{:?}", other),
    }
    match &block[3] {
        Statement::While { block, .. } => {
            assert!(matches!(block[0], Statement::Continue(_)));
            assert!(matches!(block[1], Statement::Break(_)));
        }
        other => panic!("{:?}", other),
    }
    match &block[4] {
        Statement::Return(position) => assert_eq!(position.begin_char_index, 79),
        other => panic!("{:?}", other),
    }
    match &block[5] {
        Statement::ReturnValue { value_ref, .. } => {
            assert_eq!((value_ref.begin_char_index, value_ref.length), (94, 1))
        }
        other => panic!("{:?}", other),
    }
}

#[test]
fn functions_with_parameters() {
    let function = parse_function(&mut iterator("int f(a, b, c) { return a; } ")).unwrap();
    assert_eq!(function.name, "f");
    assert!(function.returns_value);
    assert_eq!(function.argument_names, vec!["a", "b", "c"]);
    assert_eq!(function.name_ref.begin_char_index, 4);
    let function = parse_function(&mut iterator("void g() { } ")).unwrap();
    assert!(!function.returns_value);
    assert!(function.argument_names.is_empty());
}

#[test]
fn a_span_over_two_lines_is_its_first_character() {
    match parse_statement(&mut iterator("return 1 +\n 2;")).unwrap() {
        Statement::ReturnValue { value_ref, .. } => {
            assert_eq!((value_ref.line_index, value_ref.begin_char_index, value_ref.length), (0, 7, 1))
        }
        other => panic!("{:?}", other),
    }
}

#[test]
fn a_lone_equals_or_bang_is_no_operator() {
    assert_eq!(module_errors("void main() { a = b = c; } "), vec![("Expected `;`".to_string(), 20)]);
    assert_eq!(module_errors("void main() { a = b ! c; } "), vec![("Expected `;`".to_string(), 20)]);
    assert_eq!(
        module_errors("void main() { a = !b; } "),
        vec![("Expected unary expression".to_string(), 18)]
    );
    assert_eq!(
        module_errors("void main() { a = = 1; } "),
        vec![("Expected unary expression".to_string(), 18)]
    );
}

#[test]
fn an_argument_that_cannot_be_read_fails_the_call() {
    assert_eq!(
        messages(parse_statement(&mut iterator("f(1, 2 + );")).err().unwrap()),
        vec![("Expected unary expression".to_string(), 9)]
    );
    assert_eq!(
        messages(parse_statement(&mut iterator("f(1 + );")).err().unwrap()),
        vec![("Expected unary expression".to_string(), 6)]
    );
    assert_eq!(
        messages(parse_statement(&mut iterator("f(1,);")).err().unwrap()),
        vec![("Expected unary expression".to_string(), 4)]
    );
    match parse_statement(&mut iterator("f(1, 2 + 3);")).unwrap() {
        Statement::Call(call) => assert_eq!(call.arguments.len(), 2),
        other => panic!("{:?}", other),
    }
    match parse_statement(&mut iterator("f();")).unwrap() {
        Statement::Call(call) => {
            assert!(call.arguments.is_empty());
            assert_eq!(call.arguments_ref.length, 0);
        }
        other => panic!("{:?}", other),
    }
    assert_eq!(
        messages(parse_statement(&mut iterator("f(1 2);")).err().unwrap()),
        vec![("Expected `)`".to_string(), 4)]
    );
}

#[test]
fn a_block_ends_with_its_closing_brace() {
    assert_eq!(
        messages(parse_block(&mut iterator("{ x = 1;")).err().unwrap()),
        vec![("Expected `}`".to_string(), 0)]
    );
    assert_eq!(
        messages(parse_block(&mut iterator("{")).err().unwrap()),
        vec![("Expected `}`".to_string(), 0)]
    );
    assert_eq!(
        messages(parse_block(&mut iterator("{ x = ; y = ; }")).err().unwrap()),
        vec![
            ("Expected unary expression".to_string(), 6),
            ("Expected unary expression".to_string(), 12),
        ]
    );
    assert_eq!(
        messages(parse_block(&mut iterator("{ x = ; y = 1; }")).err().unwrap()),
        vec![("Expected unary expression".to_string(), 6)]
    );
    assert_eq!(parse_block(&mut iterator("{ x = 1; }")).unwrap().len(), 1);
    assert!(parse_block(&mut iterator("{ }")).unwrap().is_empty());
}

#[test]
fn a_name_follows_each_comma_of_the_parameters() {
    assert_eq!(
        messages(parse_function(&mut iterator("void f(a,) { }")).err().unwrap()),
        vec![("Expected parameter name".to_string(), 9)]
    );
    assert_eq!(
        messages(parse_function(&mut iterator("void f(a, 1) { }")).err().unwrap()),
        vec![("Expected parameter name".to_string(), 10)]
    );
    assert_eq!(
        messages(parse_function(&mut iterator("void f(a b) { }")).err().unwrap()),
        vec![("Expected ')'".to_string(), 9)]
    );
    let function = parse_function(&mut iterator("int f(a, b, c) { }")).unwrap();
    assert_eq!(function.argument_names, vec!["a", "b", "c"]);
    let function = parse_function(&mut iterator("int f() { }")).unwrap();
    assert!(function.argument_names.is_empty());
}

#[test]
fn an_expression_at_the_end_of_the_tokens() {
    // No operator follows the last operand: the expression ends there.
    match parse_expression(&mut iterator("1 + 2")).unwrap() {
        Expression::Binary { operator, .. } => assert_eq!(operator, BinaryOperator::Add),
        other => panic!("{:?}", other),
    }
    let mut tokens = iterator("x");
    match parse_expression(&mut tokens).unwrap() {
        Expression::Variable { name, .. } => assert_eq!(name, "x"),
        other => panic!("{:?}", other),
    }
    // The iterator stands at the end of the file, and stays there.
    assert_eq!(
        messages(parse_expression(&mut tokens).err().unwrap()),
        vec![("Expected unary expression".to_string(), 0)]
    );
    assert_eq!(
        messages(parse_expression(&mut tokens).err().unwrap()),
        vec![("Expected unary expression".to_string(), 0)]
    );
}
