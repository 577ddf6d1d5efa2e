use std::sync::Arc;

use circuit_compiler::ast::{BinaryOperator, Expression, Statement};
use circuit_compiler::error_handling::SourceFile;
use circuit_compiler::lexer::{tokenize, Token};
use circuit_compiler::parser::{parse_module, TokenIterator};

fn source(text: &str) -> Arc<SourceFile> {
    Arc::new(SourceFile { text: text.to_string(), path: "test.src".to_string() })
}

#[test]
fn lexes_an_empty_main() {
    let tokens = tokenize(source("void main() { }")).unwrap();
    let kinds: Vec<Token> = tokens.into_iter().map(|t| t.0).collect();
    assert_eq!(
        kinds,
        vec![
            Token::Void,
            Token::Identifier("main".to_string()),
            Token::OpenParen,
            Token::CloseParen,
            Token::OpenBrace,
            Token::CloseBrace,
            Token::EndOfFile,
        ]
    );
}

#[test]
fn parses_precedence() {
    let tokens = tokenize(source("void main() { x = 1 + 2 * 3; }")).unwrap();
    let module = parse_module(&mut TokenIterator::new(tokens)).unwrap();
    assert_eq!(module.len(), 1);
    match &module[0].block[0] {
        Statement::Assignment { variable_name, value, .. } => {
            assert_eq!(variable_name, "x");
            match value {
                Expression::Binary { left, right, operator } => {
                    assert_eq!(*operator, BinaryOperator::Add);
                    assert!(matches!(**left, Expression::Literal(1)));
                    match &**right {
                        Expression::Binary { left, right, operator } => {
                            assert_eq!(*operator, BinaryOperator::Multiply);
                            assert!(matches!(**left, Expression::Literal(2)));
                            assert!(matches!(**right, Expression::Literal(3)));
                        }
                        other => panic!("unexpected right operand {:?}", other),
                    }
                }
                other => panic!("unexpected value {:?}", other),
            }
        }
        other => panic!("unexpected statement {:?}", other),
    }
}
