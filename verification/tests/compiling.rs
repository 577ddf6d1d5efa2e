use std::sync::Arc;

use circuit_compiler::assembly::Instruction;
use circuit_compiler::assembly::Instruction::{
    Add, Constant, Jump, JumpIfNonZero, JumpIfZero, JumpSubRoutine, Load, Multiply, Pop, Return,
    Subtract,
    Save, Xor,
};
use circuit_compiler::ast::{BinaryOperator, Expression, Function, Statement};
use circuit_compiler::compiler::compile_module;
use circuit_compiler::error_handling::{CompileErrors, FileRef, SourceFile};
use circuit_compiler::lexer::tokenize;
use circuit_compiler::parser::{parse_module, TokenIterator};

fn compile(text: &str) -> Result<Vec<Instruction>, CompileErrors> {
    let source = Arc::new(SourceFile { text: text.to_string(), path: "test.src".to_string() });
    let tokens = tokenize(source)?;
    let module = parse_module(&mut TokenIterator::new(tokens))?;
    compile_module(module)
}

/// Each diagnostic as its message, line, first column and length.
fn diagnostics(text: &str) -> Vec<(String, Option<(u32, u32, u32)>)> {
    match compile(text) {
        Ok(program) => panic!("compiled to {:?}", program),
        Err(errors) => errors
            .0
            .iter()
            .map(|e| {
                (
                    e.msg.clone(),
                    e.position.as_ref().map(|p| (p.line_index, p.begin_char_index, p.length)),
                )
            })
            .collect(),
    }
}

#[test]
fn empty_main_is_prologue_and_return() {
    assert_eq!(compile("void main() { }").unwrap(), vec![JumpSubRoutine(3), Jump(-1), Return]);
    assert_eq!(compile("void main() {}").unwrap(), vec![JumpSubRoutine(3), Jump(-1), Return]);
}

#[test]
fn call_with_arguments_and_return_value() {
    let program = compile("int add(a,b) { return a+b; } void main() { add(2,3); }").unwrap();
    assert_eq!(
        program,
        vec![
            JumpSubRoutine(8),
            Jump(-1),
            // add: loads b, then a, adds, saves to the return slot
            Load(2),
            Load(4),
            Add,
            Save(5),
            Return,
            // main: the slot for the value, the arguments, the call, the pops
            Constant(0),
            Constant(2),
            Constant(3),
            JumpSubRoutine(3),
            Pop,
            Pop,
            Pop,
            Return,
        ]
    );
}

#[test]
fn while_with_break() {
    let program = compile("void main() { while 1 { break; } }").unwrap();
    assert_eq!(
        program,
        vec![
            JumpSubRoutine(3),
            Jump(-1),
            Jump(5),
            Jump(7),
            Constant(1),
            JumpIfNonZero(4),
            Return,
        ]
    );
}

#[test]
fn break_pops_the_variables_of_the_loop_body() {
    let program = compile("void main() { while 1 { x = 1; break; } }").unwrap();
    assert_eq!(
        program,
        vec![
            JumpSubRoutine(3),
            Jump(-1),
            Jump(8),
            Constant(1),
            Pop,
            Jump(10),
            Pop,
            Constant(1),
            JumpIfNonZero(4),
            Return,
        ]
    );
}

#[test]
fn continue_jumps_to_the_test() {
    let program = compile("void main() { while 1 { continue; } }").unwrap();
    assert_eq!(
        program,
        vec![
            JumpSubRoutine(3),
            Jump(-1),
            Jump(5),
            Jump(5),
            Constant(1),
            JumpIfNonZero(4),
            Return,
        ]
    );
}

#[test]
fn undeclared_variable() {
    assert_eq!(
        diagnostics("void main() { y = x; }"),
        vec![("No variable exists with this name".to_string(), Some((0, 18, 1)))]
    );
}

#[test]
fn wrong_number_of_arguments() {
    assert_eq!(
        diagnostics("int f(a){return a;} void main(){ f(1,2); }"),
        vec![("Wrong number of arguments, expected 1, got 2".to_string(), Some((0, 35, 3)))]
    );
}

#[test]
fn one_error_for_one_bad_statement() {
    assert_eq!(
        diagnostics("void main(){ x = ; y = 1; }"),
        vec![("Expected unary expression".to_string(), Some((0, 17, 1)))]
    );
}

#[test]
fn errors_of_several_statements_are_collected() {
    assert_eq!(
        diagnostics("void main(){ x = ; y = ; }"),
        vec![
            ("Expected unary expression".to_string(), Some((0, 17, 1))),
            ("Expected unary expression".to_string(), Some((0, 23, 1))),
        ]
    );
    // A `;` alone is no statement.
    assert_eq!(
        diagnostics("void main(){ x = ; ; y = 1; }"),
        vec![
            ("Expected unary expression".to_string(), Some((0, 17, 1))),
            ("Expected statement".to_string(), Some((0, 19, 1))),
        ]
    );
    assert_eq!(
        diagnostics("void main(){ a = b; c = d; }"),
        vec![
            ("No variable exists with this name".to_string(), Some((0, 17, 1))),
            ("No variable exists with this name".to_string(), Some((0, 24, 1))),
        ]
    );
}

#[test]
fn negated_literal_is_one_constant() {
    assert_eq!(
        compile("void main() { x = -5; }").unwrap(),
        vec![JumpSubRoutine(3), Jump(-1), Constant(-5), Pop, Return]
    );
    assert_eq!(
        compile("void main() { x = 1; y = -x; }").unwrap(),
        vec![
            JumpSubRoutine(3),
            Jump(-1),
            Constant(1),
            Constant(-1),
            Load(2),
            Multiply,
            Pop,
            Pop,
            Return,
        ]
    );
}

#[test]
fn compound_assignment_is_assignment_of_the_sum() {
    let short = compile("void main() { x = 1; x += 2; }").unwrap();
    let long = compile("void main() { x = 1; x = x + 2; }").unwrap();
    assert_eq!(short, long);
    assert_eq!(
        short,
        vec![
            JumpSubRoutine(3),
            Jump(-1),
            Constant(1),
            Constant(2),
            Load(2),
            Add,
            Save(2),
            Pop,
            Return,
        ]
    );
}

#[test]
fn first_assignment_declares_and_later_ones_save() {
    let program = compile("void main() { x = 1; if x { x = 2; y = 3; } }").unwrap();
    assert_eq!(
        program,
        vec![
            JumpSubRoutine(3),
            Jump(-1),
            Constant(1),
            Load(1),
            JumpIfZero(10),
            Constant(2),
            Save(2),
            Constant(3),
            Pop,
            Pop,
            Return,
        ]
    );
}

#[test]
fn loop_keywords_outside_a_loop() {
    assert_eq!(
        diagnostics("void main() { break; }"),
        vec![(
            "Not in a loop scope - cannot use break or continue keywords".to_string(),
            Some((0, 14, 5))
        )]
    );
    assert_eq!(
        diagnostics("void main() {\n  continue; }"),
        vec![(
            "Not in a loop scope - cannot use break or continue keywords".to_string(),
            Some((1, 2, 8))
        )]
    );
}

#[test]
fn if_else_chain_leaves_through_patched_jumps() {
    let program = compile("void main() { if 1 { } else if 2 { } else { } }").unwrap();
    assert_eq!(
        program,
        vec![
            JumpSubRoutine(3),
            Jump(-1),
            Constant(1),
            JumpIfZero(6),
            Jump(9),
            Constant(2),
            JumpIfZero(9),
            Jump(9),
            Return,
        ]
    );
    let without_else = compile("void main() { if 1 { } else if 2 { } }").unwrap();
    assert_eq!(
        without_else,
        vec![
            JumpSubRoutine(3),
            Jump(-1),
            Constant(1),
            JumpIfZero(6),
            Jump(8),
            Constant(2),
            JumpIfZero(8),
            Return,
        ]
    );
}

#[test]
fn signals_have_fixed_addresses() {
    assert_eq!(
        compile("void main() { signal_1 = signal_2; }").unwrap(),
        vec![JumpSubRoutine(3), Jump(-1), Load(-7), Save(-1), Return]
    );
    assert_eq!(
        diagnostics("void main() { x = signal_6; }"),
        vec![("Invalid signal number. Must be in range [0-5]".to_string(), Some((0, 18, 8)))]
    );
    assert_eq!(
        diagnostics("void main() { x = signal_a; }"),
        vec![("Signal number must be a valid integer".to_string(), Some((0, 18, 8)))]
    );
}

#[test]
fn a_write_to_a_signal_that_does_not_exist_is_an_error() {
    let range = "Invalid signal number. Must be in range [0-5]".to_string();
    assert_eq!(diagnostics("void main() { signal_9 = 1; }"), vec![(range.clone(), Some((0, 14, 8)))]);
    assert_eq!(diagnostics("void main() { signal_0 = 1; }"), vec![(range.clone(), Some((0, 14, 8)))]);
    assert_eq!(diagnostics("void main() { signal_6 = 1; }"), vec![(range.clone(), Some((0, 14, 8)))]);
    assert_eq!(
        diagnostics("void main() { signal_x = 1; }"),
        vec![("Signal number must be a valid integer".to_string(), Some((0, 14, 8)))]
    );
    assert_eq!(
        diagnostics("void main() { signal_9 += 1; }"),
        vec![(range.clone(), Some((0, 24, 1)))]
    );
    // The five signals can be written, and any other name is declared.
    assert_eq!(
        compile("void main() { signal_5 = 1; signals = 2; }").unwrap(),
        vec![JumpSubRoutine(3), Jump(-1), Constant(1), Save(-5), Constant(2), Pop, Return]
    );
}

#[test]
fn errors_of_calls_and_returns() {
    assert_eq!(
        diagnostics("void main() { f(); }"),
        vec![("No function exists with name f".to_string(), Some((0, 14, 1)))]
    );
    assert_eq!(
        diagnostics("void f() { } void main() { x = f(); }"),
        vec![(
            "Cannot use a function that does not return a value within an expression"
                .to_string(),
            Some((0, 31, 1))
        )]
    );
    assert_eq!(
        diagnostics("int f() { return; } void main() { }"),
        vec![("Must return a value from this function".to_string(), Some((0, 10, 6)))]
    );
    assert_eq!(
        diagnostics("void main() { return 1; }"),
        vec![("Cannot return a value from this function".to_string(), Some((0, 21, 1)))]
    );
    assert_eq!(
        diagnostics("void f() { } void f() { } void main() { }"),
        vec![(
            "A function with this name already exists - overloading is not supported"
                .to_string(),
            Some((0, 18, 1))
        )]
    );
}

#[test]
fn errors_of_the_entry_point() {
    assert_eq!(
        diagnostics("void f() { }"),
        vec![(
            "No entry point found: A zero-arg function returning void called main should be created"
                .to_string(),
            None
        )]
    );
    assert_eq!(
        diagnostics("int main() { return 1; }"),
        vec![("Entry point cannot return a value".to_string(), None)]
    );
    assert_eq!(
        diagnostics("void main(a) { }"),
        vec![("Entry point must have no arguments".to_string(), None)]
    );
}

#[test]
fn invalid_characters_are_all_reported() {
    assert_eq!(
        diagnostics("void main() { # }\n$"),
        vec![
            ("Invalid character".to_string(), Some((0, 14, 1))),
            ("Invalid character".to_string(), Some((1, 0, 1))),
        ]
    );
}

#[test]
fn xor_lowers_to_xor() {
    let file = Arc::new(SourceFile { text: String::new(), path: String::new() });
    let place = || FileRef { file: file.clone(), line_index: 0, begin_char_index: 0, length: 1 };
    let main = Function {
        name: "main".to_string(),
        name_ref: place(),
        argument_names: vec![],
        block: vec![Statement::Assignment {
            variable_name: "x".to_string(),
            variable_name_ref: place(),
            value: Expression::Binary {
                left: Box::new(Expression::Literal(1)),
                right: Box::new(Expression::Literal(2)),
                operator: BinaryOperator::Xor,
            },
        }],
        returns_value: false,
    };
    assert_eq!(
        compile_module(vec![main]).unwrap(),
        vec![JumpSubRoutine(3), Jump(-1), Constant(2), Constant(1), Xor, Pop, Return]
    );
}

#[test]
fn a_block_that_is_not_closed_is_an_error() {
    let missing = ("Expected `}`".to_string(), Some((1, 0, 5)));
    assert_eq!(diagnostics("void main() {"), vec![missing.clone()]);
    assert_eq!(diagnostics("void main() { x = 1;"), vec![missing.clone()]);
    assert_eq!(diagnostics("void main() { if 1 { } "), vec![missing.clone()]);
    // Each block that the end of the file cuts off is reported.
    assert_eq!(diagnostics("void main() { if 1 { "), vec![missing.clone(), missing.clone()]);
    assert_eq!(diagnostics("void main() { while 1 { "), vec![missing.clone(), missing.clone()]);
    assert_eq!(
        compile("void main() { if 1 { } }").unwrap()[2..],
        [Constant(1), JumpIfZero(5), Return]
    );
}

#[test]
fn errors_at_the_end_of_the_file_point_behind_the_last_line() {
    assert_eq!(
        diagnostics("void main() { x = "),
        vec![
            ("Expected unary expression".to_string(), Some((1, 0, 5))),
            ("Expected `}`".to_string(), Some((1, 0, 5))),
        ]
    );
    assert_eq!(
        diagnostics("void main() {\n  f(1\n"),
        vec![
            ("Expected `)`".to_string(), Some((3, 0, 5))),
            ("Expected `}`".to_string(), Some((3, 0, 5))),
        ]
    );
    assert_eq!(
        diagnostics("void main() {\n  f(1,\n"),
        vec![
            ("Expected unary expression".to_string(), Some((3, 0, 5))),
            ("Expected `}`".to_string(), Some((3, 0, 5))),
        ]
    );
    assert_eq!(diagnostics("void"), vec![("Expected function name".to_string(), Some((1, 0, 5)))]);
    assert_eq!(
        diagnostics("void main() { if 1 { x = ; "),
        vec![
            ("Expected unary expression".to_string(), Some((0, 25, 1))),
            ("Expected `}`".to_string(), Some((1, 0, 5))),
            ("Expected `}`".to_string(), Some((1, 0, 5))),
        ]
    );
}

#[test]
fn a_jump_over_a_final_return_lands_behind_the_code() {
    assert_eq!(
        compile("void main() { if 1 { return; } }").unwrap(),
        vec![JumpSubRoutine(3), Jump(-1), Constant(1), JumpIfZero(6), Return]
    );
    // With a variable to pop behind the `if`, the jump lands on the pop.
    assert_eq!(
        compile("void main() { x = 1; if x { return; } }").unwrap(),
        vec![
            JumpSubRoutine(3),
            Jump(-1),
            Constant(1),
            Load(1),
            JumpIfZero(8),
            Pop,
            Return,
            Pop,
            Return,
        ]
    );
}

#[test]
fn arguments_lie_below_the_return_address() {
    // In `int f(a, b)` the stack holds, from the top: the return address, b, a,
    // and the slot of the return value.
    assert_eq!(
        compile("int f(a, b) { c = b; return c - a; } void main() { x = f(1, 2); }").unwrap(),
        vec![
            JumpSubRoutine(12),
            Jump(-1),
            // c = b
            Load(2),
            // c - a: first a, then c
            Load(4),
            Load(2),
            Subtract,
            // into the slot of the return value, then pop c
            Save(6),
            Pop,
            Return,
            // behind the return: the end of the function, which is not reached
            Pop,
            Return,
            // main
            Constant(0),
            Constant(1),
            Constant(2),
            JumpSubRoutine(3),
            Pop,
            Pop,
            Pop,
            Return,
        ]
    );
}

#[test]
fn a_trailing_comma_is_an_error() {
    assert_eq!(
        diagnostics("void f(a,) { } void main() { }"),
        vec![("Expected parameter name".to_string(), Some((0, 9, 1)))]
    );
    assert_eq!(
        diagnostics("void f(,) { } void main() { }"),
        vec![("Expected ')'".to_string(), Some((0, 7, 1)))]
    );
    assert_eq!(
        diagnostics("void f(a) { } void main() { f(1,); }"),
        vec![("Expected unary expression".to_string(), Some((0, 32, 1)))]
    );
    // Both are reported: reading goes on at the next function.
    assert_eq!(
        diagnostics("int f(a,) { return a; } void main() { f(1,); }"),
        vec![
            ("Expected parameter name".to_string(), Some((0, 8, 1))),
            ("Expected unary expression".to_string(), Some((0, 42, 1))),
        ]
    );
    assert_eq!(
        compile("int f(a, b) { return a; } void main() { f(1, 2); }").unwrap().len(),
        2 + 3 + 8
    );
}

#[test]
fn errors_in_nested_blocks_are_collected_with_later_ones() {
    assert_eq!(
        diagnostics("void main() { if 1 { y = x; } z = y; }"),
        vec![
            ("No variable exists with this name".to_string(), Some((0, 25, 1))),
            ("No variable exists with this name".to_string(), Some((0, 34, 1))),
        ]
    );
    // A block that fails is not closed: what it declared stays in sight.
    assert_eq!(
        diagnostics("void main() { if 1 { a = 1; b = x; } c = a; }"),
        vec![("No variable exists with this name".to_string(), Some((0, 32, 1)))]
    );
    // Every function is compiled, and the errors of all are reported.
    assert_eq!(
        diagnostics("void f() { a = b; } void main() { f(1); g(); }"),
        vec![
            ("No variable exists with this name".to_string(), Some((0, 15, 1))),
            ("Wrong number of arguments, expected 0, got 1".to_string(), Some((0, 36, 1))),
            ("No function exists with name g".to_string(), Some((0, 40, 1))),
        ]
    );
}

#[test]
fn a_return_in_a_loop_pops_the_whole_frame() {
    assert_eq!(
        compile("int f(n) { i = 0; while i < n { j = i; if j == 3 { return j; } i += 1; } return 0; } void main() { f(5); }")
            .unwrap()[2..30],
        [
            // i = 0
            Constant(0),
            // to the test of the loop
            Jump(20),
            // j = i
            Load(1),
            // j == 3, the right operand first
            Constant(3),
            Load(2),
            circuit_compiler::assembly::Instruction::Equal,
            JumpIfZero(15),
            // return j: into the slot of the return value, pop j and i, return
            Load(1),
            Save(6),
            Pop,
            Pop,
            Return,
            // i += 1
            Constant(1),
            Load(3),
            Add,
            Save(3),
            // the end of the body pops j
            Pop,
            // i < n, the right operand first
            Load(3),
            Load(2),
            circuit_compiler::assembly::Instruction::LessThan,
            JumpIfNonZero(5),
            // return 0
            Constant(0),
            Save(5),
            Pop,
            Return,
            // the end of the function, which is not reached
            Pop,
            Return,
            // main
            Constant(0),
        ]
    );
}
