use circuit_compiler::assembly::{Instruction, ParseInstructionError};

#[test]
fn opcodes_follow_the_table() {
    assert_eq!(Instruction::Jump(7).get_opcode(), 1);
    assert_eq!(Instruction::JumpIfNonZero(7).get_opcode(), 2);
    assert_eq!(Instruction::Save(1).get_opcode(), 3);
    assert_eq!(Instruction::Load(1).get_opcode(), 4);
    assert_eq!(Instruction::Constant(0).get_opcode(), 5);
    assert_eq!(Instruction::Add.get_opcode(), 6);
    assert_eq!(Instruction::LessThanOrEqual.get_opcode(), 23);
    assert_eq!(Instruction::Pop.get_opcode(), 24);
    assert_eq!(Instruction::JumpIfZero(3).get_opcode(), 25);
    assert_eq!(Instruction::JumpSubRoutine(3).get_opcode(), 26);
    assert_eq!(Instruction::Return.get_opcode(), 27);
}

#[test]
fn text_of_instructions() {
    assert_eq!(Instruction::Jump(-1).to_string(), "JUMP -1");
    assert_eq!(Instruction::Constant(i32::MIN).to_string(), "CNST -2147483648");
    assert_eq!(Instruction::JumpSubRoutine(3).to_string(), "JSR 3");
    assert_eq!(Instruction::Return.to_string(), "RET");
}

#[test]
fn reading_instructions() {
    assert_eq!(Instruction::try_from("JMPNIF 12"), Ok(Instruction::JumpIfZero(12)));
    assert_eq!(Instruction::try_from("CNST +5"), Ok(Instruction::Constant(5)));
    assert_eq!(Instruction::try_from("XOR"), Ok(Instruction::Xor));
    assert_eq!(Instruction::try_from("JUMP"), Err(ParseInstructionError::UnknownInstruction));
    assert_eq!(Instruction::try_from("ADD 1"), Err(ParseInstructionError::UnknownInstruction));
    assert_eq!(Instruction::try_from("JUMP  1"), Err(ParseInstructionError::InvalidArgument));
    assert_eq!(Instruction::try_from("JUMP 2147483648"), Err(ParseInstructionError::InvalidArgument));
    assert_eq!(Instruction::try_from("FOO x"), Err(ParseInstructionError::InvalidArgument));
}
