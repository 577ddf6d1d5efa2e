use std::sync::Arc;

use circuit_compiler::error_handling::{FileRef, SourceFile};
use circuit_compiler::lexer::{tokenize, Token};

fn source(text: &str) -> Arc<SourceFile> {
    Arc::new(SourceFile { text: text.to_string(), path: "test.src".to_string() })
}

fn lexed(text: &str) -> Vec<(Token, FileRef)> {
    tokenize(source(text)).unwrap()
}

fn place(r: &FileRef) -> (u32, u32, u32) {
    (r.line_index, r.begin_char_index, r.length)
}

#[test]
fn every_symbol_has_its_token() {
    let kinds: Vec<Token> =
        lexed("( ) { } + - * / ^ | % & < , > = ~ ! ; ").into_iter().map(|t| t.0).collect();
    assert_eq!(
        kinds,
        vec![
            Token::OpenParen,
            Token::CloseParen,
            Token::OpenBrace,
            Token::CloseBrace,
            Token::Plus,
            Token::Minus,
            Token::Star,
            Token::ForwardSlash,
            Token::Carat,
            Token::Bar,
            Token::Percent,
            Token::Ampersand,
            Token::LeftArrow,
            Token::Comma,
            Token::RightArrow,
            Token::Equals,
            Token::Tilda,
            Token::Bang,
            Token::Semicolon,
            Token::EndOfFile,
        ]
    );
}

#[test]
fn keywords_and_identifiers() {
    let kinds: Vec<Token> =
        lexed("if while else int void continue break return iff _x x1 while_ ")
            .into_iter()
            .map(|t| t.0)
            .collect();
    assert_eq!(
        kinds,
        vec![
            Token::If,
            Token::While,
            Token::Else,
            Token::Int,
            Token::Void,
            Token::Continue,
            Token::Break,
            Token::Return,
            Token::Identifier("iff".to_string()),
            Token::Identifier("_x".to_string()),
            Token::Identifier("x1".to_string()),
            Token::Identifier("while_".to_string()),
            Token::EndOfFile,
        ]
    );
}

#[test]
fn operators_of_two_symbols_stay_two_tokens() {
    let kinds: Vec<Token> = lexed("a!=b<=c ").into_iter().map(|t| t.0).collect();
    assert_eq!(
        kinds,
        vec![
            Token::Identifier("a".to_string()),
            Token::Bang,
            Token::Equals,
            Token::Identifier("b".to_string()),
            Token::LeftArrow,
            Token::Equals,
            Token::Identifier("c".to_string()),
            Token::EndOfFile,
        ]
    );
}

#[test]
fn numbers_are_read_in_base_ten_and_wrap() {
    let kinds: Vec<Token> =
        lexed("0 007 42 2147483647 2147483648 4294967296 4294967295 12abc ")
            .into_iter()
            .map(|t| t.0)
            .collect();
    assert_eq!(
        kinds,
        vec![
            Token::Number(0),
            Token::Number(7),
            Token::Number(42),
            Token::Number(2147483647),
            Token::Number(-2147483648),
            Token::Number(0),
            Token::Number(-1),
            Token::Number(12),
            Token::Identifier("abc".to_string()),
            Token::EndOfFile,
        ]
    );
}

#[test]
fn letters_and_white_space_beyond_ascii() {
    let tokens = lexed("\u{e9}t\u{e9}\u{a0}=\u{2003}\u{3b1}2 ");
    let kinds: Vec<Token> = tokens.iter().map(|t| t.0.clone()).collect();
    assert_eq!(
        kinds,
        vec![
            Token::Identifier("\u{e9}t\u{e9}".to_string()),
            Token::Equals,
            Token::Identifier("\u{3b1}2".to_string()),
            Token::EndOfFile,
        ]
    );
    // Columns count characters, not bytes.
    assert_eq!(place(&tokens[0].1), (0, 0, 3));
    assert_eq!(place(&tokens[1].1), (0, 4, 1));
    assert_eq!(place(&tokens[2].1), (0, 6, 2));
}

#[test]
fn places_name_line_column_and_length() {
    let tokens = lexed("void main() {\n  total = 12;\n}\n");
    let places: Vec<(u32, u32, u32)> = tokens.iter().map(|t| place(&t.1)).collect();
    assert_eq!(
        places,
        vec![
            (0, 0, 4),
            (0, 5, 4),
            (0, 9, 1),
            (0, 10, 1),
            (0, 12, 1),
            (1, 2, 5),
            (1, 8, 1),
            (1, 10, 2),
            (1, 12, 1),
            (2, 0, 1),
            // The closing token stands a line behind the last, with a length of 5.
            (4, 0, 5),
        ]
    );
}

#[test]
fn place_of_the_closing_token() {
    let tokens = lexed("");
    assert_eq!(tokens.len(), 1);
    assert_eq!(tokens[0].0, Token::EndOfFile);
    assert_eq!(place(&tokens[0].1), (1, 0, 5));
    let tokens = lexed("a\nb");
    assert_eq!(place(&tokens[2].1), (2, 0, 5));
}

#[test]
fn a_token_at_the_end_of_the_text_keeps_its_length() {
    let tokens = lexed("abc");
    assert_eq!(tokens[0].0, Token::Identifier("abc".to_string()));
    assert_eq!(place(&tokens[0].1), (0, 0, 3));
    let tokens = lexed("ab");
    assert_eq!(tokens[0].0, Token::Identifier("ab".to_string()));
    assert_eq!(place(&tokens[0].1), (0, 0, 2));
    let tokens = lexed("x = 1234");
    assert_eq!(tokens[2].0, Token::Number(1234));
    assert_eq!(place(&tokens[2].1), (0, 4, 4));
    let tokens = lexed("abc ");
    assert_eq!(place(&tokens[0].1), (0, 0, 3));
    let tokens = lexed("x;");
    assert_eq!(place(&tokens[1].1), (0, 1, 1));
}

#[test]
fn places_share_the_source_file() {
    let file = source("a b");
    let tokens = tokenize(file.clone()).unwrap();
    for (_, position) in &tokens {
        assert!(Arc::ptr_eq(&position.file, &file));
    }
    let copy = tokens[0].1.clone();
    assert!(Arc::ptr_eq(&copy.file, &file));
    assert_eq!(place(&copy), place(&tokens[0].1));
}

/// The characters that a place names.
fn named(text: &str, position: &FileRef) -> String {
    let line: Vec<char> = text.split('\n').nth(position.line_index as usize).unwrap().chars().collect();
    let from = position.begin_char_index as usize;
    line[from..from + position.length as usize].iter().collect()
}

#[test]
fn the_place_of_a_token_names_its_text() {
    let text = "int add(a, b) {\n\treturn a+b;\n}\nvoid main() { while 1 { x = add(20, 22); } }\n";
    let tokens = lexed(text);
    let spelled: Vec<String> =
        tokens[..tokens.len() - 1].iter().map(|t| named(text, &t.1)).collect();
    assert_eq!(
        spelled,
        vec![
            "int", "add", "(", "a", ",", "b", ")", "{", "return", "a", "+", "b", ";", "}", "void",
            "main", "(", ")", "{", "while", "1", "{", "x", "=", "add", "(", "20", ",", "22", ")",
            ";", "}", "}",
        ]
    );
    for (token, position) in &tokens[..tokens.len() - 1] {
        let text_of_token = named(text, position);
        match token {
            Token::Identifier(name) => assert_eq!(&text_of_token, name),
            Token::Number(value) => assert_eq!(text_of_token.parse::<i32>().unwrap(), *value),
            _ => {}
        }
    }
}

#[test]
fn the_place_of_the_last_token_names_its_text() {
    for text in ["total", "x = 1234", "a\nreturn", "f(x)", "while"] {
        let tokens = lexed(text);
        let last = &tokens[tokens.len() - 2];
        let spelled = named(text, &last.1);
        assert!(text.ends_with(&spelled), "{}", text);
        assert!(!spelled.is_empty());
        assert_eq!(spelled.chars().count() as u32, last.1.length);
    }
    let tokens = lexed("x = 1234");
    assert_eq!(named("x = 1234", &tokens[2].1), "1234");
    let tokens = lexed("a\nreturn");
    assert_eq!(named("a\nreturn", &tokens[1].1), "return");
}

#[test]
fn invalid_characters_give_no_tokens() {
    let errors = tokenize(source("a # b\n  @")).err().unwrap();
    let found: Vec<(String, (u32, u32, u32))> =
        errors.0.iter().map(|e| (e.msg.clone(), place(e.position.as_ref().unwrap()))).collect();
    assert_eq!(
        found,
        vec![
            ("Invalid character".to_string(), (0, 2, 1)),
            ("Invalid character".to_string(), (1, 2, 1)),
        ]
    );
}
