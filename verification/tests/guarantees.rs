use std::sync::Arc;

use circuit_compiler::assembly::Instruction;
use circuit_compiler::ast::{
    BinaryOperator, Call, Expression, Function, IfSegment, Statement, UnaryOperator,
};
use circuit_compiler::blueprint::to_base64;
use circuit_compiler::error_handling::{FileRef, SourceFile};
use circuit_compiler::lexer::{tokenize, Token};
use circuit_compiler::parser::{parse_module, parse_statement, TokenIterator};
use circuit_compiler::try_compile;

fn compile(text: &str) -> Vec<Instruction> {
    let source = Arc::new(SourceFile { text: text.to_string(), path: "test.src".to_string() });
    try_compile(source).unwrap()
}

const PROGRAM: &str = "
int gcd(a, b) {
    while b != 0 {
        t = b;
        b = a % b;
        a = t;
        if a == 1 { return 1; }
    }
    return a;
}

int count(n) {
    total = 0;
    i = 0;
    while i < n {
        i += 1;
        if i % 2 == 0 { continue; }
        step = gcd(i, n);
        if step > 3 { extra = step * 2; total += extra; break; }
        else if step == 2 { total += 2; }
        else { total += 1; }
    }
    return total;
}

void show(value) {
    signal_1 = value;
}

void main() {
    x = count(10);
    if x { show(x); } else { show(-x); }
    while 1 { y = signal_2; if y { break; } }
}
";

fn target(instruction: &Instruction) -> Option<i32> {
    match instruction {
        Instruction::Jump(t) | Instruction::JumpIfZero(t) | Instruction::JumpIfNonZero(t) => {
            Some(*t)
        }
        _ => None,
    }
}

/// Where the functions start: behind the prologue and behind each `Return` that
/// is followed by a call target.
fn function_starts(program: &[Instruction]) -> Vec<usize> {
    let mut starts: Vec<usize> = program
        .iter()
        .filter_map(|i| match i {
            Instruction::JumpSubRoutine(t) => Some(*t as usize - 1),
            _ => None,
        })
        .collect();
    starts.sort();
    starts.dedup();
    starts
}

#[test]
fn every_jump_lands_in_the_program() {
    let program = compile(PROGRAM);
    assert_eq!(program[1], Instruction::Jump(-1));
    for (index, instruction) in program.iter().enumerate() {
        if index == 1 {
            continue;
        }
        if let Some(t) = target(instruction) {
            assert!(1 <= t && t as usize <= program.len(), "{}: {:?}", index, instruction);
        }
    }
}

#[test]
fn every_call_reaches_the_start_of_a_function() {
    let program = compile(PROGRAM);
    // gcd, count, show and main start behind the prologue and behind the
    // `Return` that ends the function before.
    let starts = function_starts(&program);
    assert_eq!(starts.len(), 4);
    assert_eq!(starts[0], 2);
    for start in &starts[1..] {
        assert_eq!(program[start - 1], Instruction::Return);
    }
    assert_eq!(program[0], Instruction::JumpSubRoutine(starts[3] as i32 + 1));
}

fn effect(instruction: &Instruction) -> i32 {
    match instruction {
        Instruction::Load(_) | Instruction::Constant(_) => 1,
        Instruction::Jump(_)
        | Instruction::JumpSubRoutine(_)
        | Instruction::Return
        | Instruction::Not => 0,
        _ => -1,
    }
}

/// Follows every way through the code of a function from its start, and checks
/// that each instruction is always reached with the same stack size, and each
/// `Return` with an empty stack.
fn check_balance(program: &[Instruction], start: usize) -> usize {
    let mut depths: Vec<Option<i32>> = vec![None; program.len()];
    let mut work = vec![(start, 0i32)];
    let mut returns = 0;
    while let Some((at, depth)) = work.pop() {
        match depths[at] {
            Some(known) => {
                assert_eq!(known, depth, "at {}", at);
                continue;
            }
            None => depths[at] = Some(depth),
        }
        assert!(depth >= 0);
        let instruction = &program[at];
        let after = depth + effect(instruction);
        match instruction {
            Instruction::Return => {
                assert_eq!(depth, 0, "at {}", at);
                returns += 1;
            }
            Instruction::Jump(t) => work.push((*t as usize - 1, after)),
            Instruction::JumpIfZero(t) | Instruction::JumpIfNonZero(t) => {
                work.push((*t as usize - 1, after));
                work.push((at + 1, after));
            }
            _ => work.push((at + 1, after)),
        }
    }
    returns
}

#[test]
fn the_stack_is_empty_at_each_return() {
    let program = compile(PROGRAM);
    let mut returns = 0;
    for start in function_starts(&program) {
        returns += check_balance(&program, start);
    }
    assert_eq!(returns, 5);
}

#[test]
fn text_of_every_instruction_is_read_back() {
    let mut all = vec![
        Instruction::Add,
        Instruction::Subtract,
        Instruction::Divide,
        Instruction::Multiply,
        Instruction::Power,
        Instruction::Remainder,
        Instruction::ShiftLeft,
        Instruction::ShiftRight,
        Instruction::And,
        Instruction::Or,
        Instruction::Xor,
        Instruction::Not,
        Instruction::Equal,
        Instruction::NotEqual,
        Instruction::GreaterThan,
        Instruction::LessThan,
        Instruction::GreaterThanOrEqual,
        Instruction::LessThanOrEqual,
        Instruction::Pop,
        Instruction::Return,
    ];
    for argument in [0, 1, -1, 7, 1000, i32::MAX, i32::MIN] {
        all.push(Instruction::Jump(argument));
        all.push(Instruction::JumpIfNonZero(argument));
        all.push(Instruction::JumpIfZero(argument));
        all.push(Instruction::Save(argument));
        all.push(Instruction::Load(argument));
        all.push(Instruction::Constant(argument));
        all.push(Instruction::JumpSubRoutine(argument));
    }
    for instruction in all {
        assert_eq!(Instruction::try_from(&instruction.to_string()), Ok(instruction));
    }
    for instruction in compile(PROGRAM) {
        assert_eq!(Instruction::try_from(&instruction.to_string()), Ok(instruction));
    }
}

fn nowhere() -> FileRef {
    FileRef {
        file: Arc::new(SourceFile { text: String::new(), path: String::new() }),
        line_index: 0,
        begin_char_index: 0,
        length: 0,
    }
}

fn in_parentheses(expression: &Expression, out: &mut Vec<Token>) {
    out.push(Token::OpenParen);
    write_expression(expression, out);
    out.push(Token::CloseParen);
}

fn write_expression(expression: &Expression, out: &mut Vec<Token>) {
    match expression {
        Expression::Binary { left, right, operator } => {
            in_parentheses(left, out);
            out.extend(match operator {
                BinaryOperator::Add => vec![Token::Plus],
                BinaryOperator::Subtract => vec![Token::Minus],
                BinaryOperator::Multiply => vec![Token::Star],
                BinaryOperator::Divide => vec![Token::ForwardSlash],
                BinaryOperator::And => vec![Token::Ampersand],
                BinaryOperator::Remainder => vec![Token::Percent],
                BinaryOperator::Or => vec![Token::Bar],
                BinaryOperator::Power => vec![Token::Carat],
                BinaryOperator::Equals => vec![Token::Equals, Token::Equals],
                BinaryOperator::NotEquals => vec![Token::Bang, Token::Equals],
                BinaryOperator::LessThan => vec![Token::LeftArrow],
                BinaryOperator::LessThanOrEqual => vec![Token::LeftArrow, Token::Equals],
                BinaryOperator::GreaterThan => vec![Token::RightArrow],
                BinaryOperator::GreaterThanOrEqual => vec![Token::RightArrow, Token::Equals],
                other => panic!("{:?} has no tokens", other),
            });
            in_parentheses(right, out);
        }
        Expression::Unary { value, operator } => {
            out.push(match operator {
                UnaryOperator::Negate => Token::Minus,
                UnaryOperator::Not => Token::Tilda,
            });
            in_parentheses(value, out);
        }
        Expression::Call(call) => write_call(call, out),
        Expression::Variable { name, .. } => out.push(Token::Identifier(name.clone())),
        Expression::Literal(value) => out.push(Token::Number(*value)),
    }
}

fn write_call(call: &Call, out: &mut Vec<Token>) {
    out.push(Token::Identifier(call.function_name.clone()));
    out.push(Token::OpenParen);
    for (index, argument) in call.arguments.iter().enumerate() {
        if index > 0 {
            out.push(Token::Comma);
        }
        write_expression(argument, out);
    }
    out.push(Token::CloseParen);
}

fn write_block(block: &[Statement], out: &mut Vec<Token>) {
    out.push(Token::OpenBrace);
    for statement in block {
        write_statement(statement, out);
    }
    out.push(Token::CloseBrace);
}

fn write_statement(statement: &Statement, out: &mut Vec<Token>) {
    match statement {
        Statement::Assignment { variable_name, value, .. } => {
            out.push(Token::Identifier(variable_name.clone()));
            out.push(Token::Equals);
            write_expression(value, out);
            out.push(Token::Semicolon);
        }
        Statement::If { segments, else_block } => {
            for (index, segment) in segments.iter().enumerate() {
                if index > 0 {
                    out.push(Token::Else);
                }
                out.push(Token::If);
                write_expression(&segment.condition, out);
                write_block(&segment.block, out);
            }
            if let Some(block) = else_block {
                out.push(Token::Else);
                write_block(block, out);
            }
        }
        Statement::While { condition, block } => {
            out.push(Token::While);
            write_expression(condition, out);
            write_block(block, out);
        }
        Statement::Call(call) => {
            write_call(call, out);
            out.push(Token::Semicolon);
        }
        Statement::Return(_) => {
            out.push(Token::Return);
            out.push(Token::Semicolon);
        }
        Statement::ReturnValue { value, .. } => {
            out.push(Token::Return);
            write_expression(value, out);
            out.push(Token::Semicolon);
        }
        Statement::Continue(_) => {
            out.push(Token::Continue);
            out.push(Token::Semicolon);
        }
        Statement::Break(_) => {
            out.push(Token::Break);
            out.push(Token::Semicolon);
        }
    }
}

fn write_module(module: &[Function]) -> Vec<(Token, FileRef)> {
    let mut out = Vec::new();
    for function in module {
        out.push(if function.returns_value { Token::Int } else { Token::Void });
        out.push(Token::Identifier(function.name.clone()));
        out.push(Token::OpenParen);
        for (index, name) in function.argument_names.iter().enumerate() {
            if index > 0 {
                out.push(Token::Comma);
            }
            out.push(Token::Identifier(name.clone()));
        }
        out.push(Token::CloseParen);
        write_block(&function.block, &mut out);
    }
    out.push(Token::EndOfFile);
    out.into_iter().map(|token| (token, nowhere())).collect()
}

fn same_expression(a: &Expression, b: &Expression) -> bool {
    match (a, b) {
        (
            Expression::Binary { left: l1, right: r1, operator: o1 },
            Expression::Binary { left: l2, right: r2, operator: o2 },
        ) => o1 == o2 && same_expression(l1, l2) && same_expression(r1, r2),
        (
            Expression::Unary { value: v1, operator: o1 },
            Expression::Unary { value: v2, operator: o2 },
        ) => o1 == o2 && same_expression(v1, v2),
        (Expression::Call(c1), Expression::Call(c2)) => same_call(c1, c2),
        (Expression::Variable { name: n1, .. }, Expression::Variable { name: n2, .. }) => n1 == n2,
        (Expression::Literal(v1), Expression::Literal(v2)) => v1 == v2,
        _ => false,
    }
}

fn same_call(a: &Call, b: &Call) -> bool {
    a.function_name == b.function_name
        && a.arguments.len() == b.arguments.len()
        && a.arguments.iter().zip(&b.arguments).all(|(x, y)| same_expression(x, y))
}

fn same_block(a: &[Statement], b: &[Statement]) -> bool {
    a.len() == b.len() && a.iter().zip(b).all(|(x, y)| same_statement(x, y))
}

fn same_statement(a: &Statement, b: &Statement) -> bool {
    match (a, b) {
        (
            Statement::Assignment { variable_name: n1, value: v1, .. },
            Statement::Assignment { variable_name: n2, value: v2, .. },
        ) => n1 == n2 && same_expression(v1, v2),
        (
            Statement::If { segments: s1, else_block: e1 },
            Statement::If { segments: s2, else_block: e2 },
        ) => {
            s1.len() == s2.len()
                && s1.iter().zip(s2).all(|(x, y)| {
                    same_expression(&x.condition, &y.condition) && same_block(&x.block, &y.block)
                })
                && match (e1, e2) {
                    (Some(x), Some(y)) => same_block(x, y),
                    (None, None) => true,
                    _ => false,
                }
        }
        (
            Statement::While { condition: c1, block: b1 },
            Statement::While { condition: c2, block: b2 },
        ) => same_expression(c1, c2) && same_block(b1, b2),
        (Statement::Call(c1), Statement::Call(c2)) => same_call(c1, c2),
        (Statement::Return(_), Statement::Return(_)) => true,
        (Statement::ReturnValue { value: v1, .. }, Statement::ReturnValue { value: v2, .. }) => {
            same_expression(v1, v2)
        }
        (Statement::Continue(_), Statement::Continue(_)) => true,
        (Statement::Break(_), Statement::Break(_)) => true,
        _ => false,
    }
}

fn literal(value: i32) -> Box<Expression> {
    Box::new(Expression::Literal(value))
}

fn variable(name: &str) -> Box<Expression> {
    Box::new(Expression::Variable { name: name.to_string(), pos: nowhere() })
}

#[test]
fn what_is_written_is_read_back() {
    let call = Call {
        function_name: "f".to_string(),
        function_name_ref: nowhere(),
        arguments: vec![
            Expression::Literal(-5),
            Expression::Binary {
                left: variable("a"),
                right: Box::new(Expression::Unary {
                    value: variable("b"),
                    operator: UnaryOperator::Not,
                }),
                operator: BinaryOperator::GreaterThanOrEqual,
            },
        ],
        arguments_ref: nowhere(),
    };
    let empty_call = || Call {
        function_name: "g".to_string(),
        function_name_ref: nowhere(),
        arguments: vec![],
        arguments_ref: nowhere(),
    };
    let module = vec![
        Function {
            name: "f".to_string(),
            name_ref: nowhere(),
            argument_names: vec!["a".to_string(), "b".to_string()],
            block: vec![
                Statement::Assignment {
                    variable_name: "x".to_string(),
                    variable_name_ref: nowhere(),
                    // 1 - (2 - 3), which differs from (1 - 2) - 3
                    value: Expression::Binary {
                        left: literal(1),
                        right: Box::new(Expression::Binary {
                            left: literal(2),
                            right: literal(3),
                            operator: BinaryOperator::Subtract,
                        }),
                        operator: BinaryOperator::Subtract,
                    },
                },
                Statement::If {
                    segments: vec![
                        IfSegment {
                            condition: Expression::Binary {
                                left: variable("x"),
                                right: literal(0),
                                operator: BinaryOperator::LessThan,
                            },
                            block: vec![Statement::Return(nowhere())],
                        },
                        IfSegment {
                            condition: Expression::Call(empty_call()),
                            block: vec![],
                        },
                    ],
                    else_block: Some(vec![Statement::Call(call)]),
                },
                Statement::While {
                    condition: Expression::Unary { value: literal(1), operator: UnaryOperator::Negate },
                    block: vec![
                        Statement::If {
                            segments: vec![IfSegment { condition: *variable("x"), block: vec![] }],
                            else_block: None,
                        },
                        Statement::Continue(nowhere()),
                        Statement::Break(nowhere()),
                    ],
                },
                Statement::ReturnValue {
                    value: Expression::Binary {
                        left: variable("x"),
                        right: variable("x"),
                        operator: BinaryOperator::NotEquals,
                    },
                    value_ref: nowhere(),
                },
            ],
            returns_value: true,
        },
        Function {
            name: "main".to_string(),
            name_ref: nowhere(),
            argument_names: vec![],
            block: vec![],
            returns_value: false,
        },
    ];
    let read = parse_module(&mut TokenIterator::new(write_module(&module))).unwrap();
    assert_eq!(read.len(), module.len());
    for (a, b) in read.iter().zip(&module) {
        assert_eq!(a.name, b.name);
        assert_eq!(a.argument_names, b.argument_names);
        assert_eq!(a.returns_value, b.returns_value);
        assert!(same_block(&a.block, &b.block), "{:?}", a.block);
    }
}

#[test]
fn base64_of_known_bytes() {
    assert_eq!(to_base64(b"").unwrap(), "");
    assert_eq!(to_base64(b"f").unwrap(), "Zg");
    assert_eq!(to_base64(b"fo").unwrap(), "Zm8");
    assert_eq!(to_base64(b"foo").unwrap(), "Zm9v");
    assert_eq!(to_base64(b"foob").unwrap(), "Zm9vYg");
    assert_eq!(to_base64(b"fooba").unwrap(), "Zm9vYmE");
    assert_eq!(to_base64(b"foobar").unwrap(), "Zm9vYmFy");
    assert_eq!(to_base64(&[255, 254, 253]).unwrap(), "//79");
    assert_eq!(to_base64(&[251]).unwrap(), "+w");
}

fn read_statement(text: &str) -> Statement {
    let source = Arc::new(SourceFile { text: text.to_string(), path: "test.src".to_string() });
    parse_statement(&mut TokenIterator::new(tokenize(source).unwrap())).unwrap()
}

#[test]
fn a_compound_assignment_reads_as_the_assignment_spelled_out() {
    let signs = [
        ("+", BinaryOperator::Add),
        ("-", BinaryOperator::Subtract),
        ("*", BinaryOperator::Multiply),
        ("/", BinaryOperator::Divide),
        ("^", BinaryOperator::Power),
        ("&", BinaryOperator::And),
        ("|", BinaryOperator::Or),
    ];
    for (sign, operator) in signs {
        let short = read_statement(&format!("x {}= f(y, 2) * 3;", sign));
        let long = read_statement(&format!("x = (x) {} (f(y, 2) * 3);", sign));
        assert!(same_statement(&short, &long), "{}", sign);
        match short {
            Statement::Assignment { variable_name, value, .. } => {
                assert_eq!(variable_name, "x");
                match value {
                    Expression::Binary { left, operator: found, .. } => {
                        assert_eq!(found, operator);
                        assert!(same_expression(&left, &variable("x")));
                    }
                    other => panic!("{:?}", other),
                }
            }
            other => panic!("{:?}", other),
        }
    }
    assert_eq!(compile("void main() { x = 1; x += 2; }"), compile("void main() { x = 1; x = x + 2; }"));
}

#[test]
fn the_first_instruction_calls_main() {
    // `main` is the second of three functions: it starts behind the code of `f`.
    let program = compile("void f() { } void main() { f(); g(); } void g() { }");
    assert_eq!(
        program,
        vec![
            Instruction::JumpSubRoutine(4),
            Instruction::Jump(-1),
            Instruction::Return,
            Instruction::JumpSubRoutine(3),
            Instruction::JumpSubRoutine(7),
            Instruction::Return,
            Instruction::Return,
        ]
    );
}

#[test]
fn the_code_of_a_call() {
    // The slot, the arguments, the call, a pop for each argument, a pop for the slot.
    let program = compile("int f(a, b) { return a; } void main() { f(7, 8); x = f(1, 2); }");
    assert_eq!(
        program[5..],
        [
            Instruction::Constant(0),
            Instruction::Constant(7),
            Instruction::Constant(8),
            Instruction::JumpSubRoutine(3),
            Instruction::Pop,
            Instruction::Pop,
            Instruction::Pop,
            Instruction::Constant(0),
            Instruction::Constant(1),
            Instruction::Constant(2),
            Instruction::JumpSubRoutine(3),
            Instruction::Pop,
            Instruction::Pop,
            Instruction::Pop,
            Instruction::Return,
        ]
    );
}

#[test]
fn the_code_of_every_function_ends_with_return() {
    let program = compile(PROGRAM);
    assert_eq!(program[program.len() - 1], Instruction::Return);
    for start in &function_starts(&program)[1..] {
        assert_eq!(program[start - 1], Instruction::Return);
    }
}
