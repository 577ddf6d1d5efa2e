use std::sync::Arc;

use circuit_compiler::error_handling::{
    append_errors, error_at, untagged_error, CompileErrors, FileRef, FileTaggedError, SourceFile,
};

fn file(text: &str) -> Arc<SourceFile> {
    Arc::new(SourceFile { text: text.to_string(), path: "dir/prog.src".to_string() })
}

fn at(file: &Arc<SourceFile>, line: u32, column: u32, length: u32) -> FileRef {
    FileRef { file: file.clone(), line_index: line, begin_char_index: column, length }
}

#[test]
fn located_error_shows_the_line_and_carets() {
    let source = file("void main() {\n  y = x;\n}\n");
    let error = FileTaggedError {
        position: Some(at(&source, 1, 6, 1)),
        msg: "No variable exists with this name".to_string(),
    };
    assert_eq!(
        error.to_string(),
        "-------------\nat dir/prog.src:2:\n\n->   y = x;\n->       ^ No variable exists with this name\n"
    );
}

#[test]
fn carets_cover_the_span() {
    let source = file("f(1, 2);");
    let error = FileTaggedError { position: Some(at(&source, 0, 2, 4)), msg: "m".to_string() };
    assert_eq!(error.to_string(), "-------------\nat dir/prog.src:1:\n\n-> f(1, 2);\n->   ^^^^ m\n");
}

#[test]
fn unlocated_error_shows_the_message_alone() {
    let error = FileTaggedError { position: None, msg: "Entry point cannot return a value".to_string() };
    assert_eq!(error.to_string(), "-------------\nEntry point cannot return a value\n");
}

#[test]
fn a_line_behind_the_text_is_shown_as_the_end_of_the_file() {
    let source = file("a\nb\n");
    let error = FileTaggedError { position: Some(at(&source, 2, 0, 5)), msg: "m".to_string() };
    assert_eq!(
        error.to_string(),
        "-------------\nat dir/prog.src:3:\n\n-> <end of file>\n-> ^^^^^ m\n"
    );
    let empty = file("");
    let error = FileTaggedError { position: Some(at(&empty, 0, 0, 1)), msg: "m".to_string() };
    assert_eq!(error.to_string(), "-------------\nat dir/prog.src:1:\n\n-> <end of file>\n-> ^ m\n");
}

#[test]
fn carriage_return_before_the_line_feed_is_not_shown() {
    let source = file("one\r\ntwo\r\n\r\nlast");
    let shown = |line: u32| {
        let error = FileTaggedError { position: Some(at(&source, line, 0, 0)), msg: String::new() };
        let text = error.to_string();
        text.lines().nth(3).unwrap().to_string()
    };
    assert_eq!(shown(0), "-> one");
    assert_eq!(shown(1), "-> two");
    assert_eq!(shown(2), "-> ");
    assert_eq!(shown(3), "-> last");
    assert_eq!(shown(4), "-> <end of file>");
}

#[test]
fn report_counts_the_errors() {
    let one = untagged_error("first".to_string());
    assert_eq!(one.to_string(), "1 error generated:\n-------------\nfirst\n\n");

    let source = file("x");
    let mut all: Vec<FileTaggedError> = Vec::new();
    append_errors(&mut all, untagged_error("first".to_string()));
    append_errors(&mut all, error_at(at(&source, 0, 0, 1), "second".to_string()));
    let report = CompileErrors(all);
    assert_eq!(
        report.to_string(),
        "2 errors generated:\n-------------\nfirst\n\n-------------\nat dir/prog.src:1:\n\n-> x\n-> ^ second\n\n"
    );
    assert_eq!(CompileErrors(Vec::new()).to_string(), "0 errors generated:\n");
}

#[test]
fn a_copy_of_an_error_is_the_same_error() {
    let source = file("x");
    let error = FileTaggedError { position: Some(at(&source, 0, 0, 1)), msg: "m".to_string() };
    let copy = error.clone();
    assert_eq!(copy.msg, error.msg);
    assert_eq!(copy.to_string(), error.to_string());
    assert!(Arc::ptr_eq(&copy.position.unwrap().file, &source));
}
