//! The instructions of the stack machine, their opcodes and their text form.

use vstd::prelude::*;
use vstd::string::StringExecFns;
use crate::blueprint::{SignalId, SignalIdView, virtual_signal};
use crate::text::{
    chars_of, lemma_parse_signed_decimal, matches_word, parse_i32, parse_i32_spec,
    push_signed_decimal, signed_decimal,
};

verus! {

/// One instruction of the stack machine.
#[derive(Copy, Clone, Debug, PartialEq, Eq, Structural)]
pub enum Instruction {
    Jump(i32),
    JumpIfNonZero(i32),
    JumpIfZero(i32),
    Save(i32),
    Load(i32),
    Constant(i32),
    Add,
    Subtract,
    Divide,
    Multiply,
    Power,
    Remainder,
    ShiftLeft,
    ShiftRight,
    And,
    Or,
    Xor,
    Not,
    Equal,
    NotEqual,
    GreaterThan,
    LessThan,
    GreaterThanOrEqual,
    LessThanOrEqual,
    Pop,
    JumpSubRoutine(i32),
    Return,
}

/// Why a line of text is no instruction.
#[derive(Copy, Clone, Debug, PartialEq, Eq, Structural)]
pub enum ParseInstructionError {
    /// The mnemonic is not known, or it stands with or without an argument where it should not.
    UnknownInstruction,
    /// What follows the first space is no 32-bit decimal integer.
    InvalidArgument,
}

/// The instruction that the mnemonic `label` makes of the argument `v`.
pub open spec fn with_argument(label: Seq<char>, v: i32) -> Option<Instruction> {
    if label == "JUMP"@ {
        Some(Instruction::Jump(v))
    } else if label == "JMPIF"@ {
        Some(Instruction::JumpIfNonZero(v))
    } else if label == "JMPNIF"@ {
        Some(Instruction::JumpIfZero(v))
    } else if label == "SAVE"@ {
        Some(Instruction::Save(v))
    } else if label == "LOAD"@ {
        Some(Instruction::Load(v))
    } else if label == "CNST"@ {
        Some(Instruction::Constant(v))
    } else if label == "JSR"@ {
        Some(Instruction::JumpSubRoutine(v))
    } else {
        None
    }
}

/// The instruction without an argument that the mnemonic `label` names.
pub open spec fn without_argument(label: Seq<char>) -> Option<Instruction> {
    if label == "ADD"@ {
        Some(Instruction::Add)
    } else if label == "SUB"@ {
        Some(Instruction::Subtract)
    } else if label == "MUL"@ {
        Some(Instruction::Multiply)
    } else if label == "DIV"@ {
        Some(Instruction::Divide)
    } else if label == "REM"@ {
        Some(Instruction::Remainder)
    } else if label == "SHL"@ {
        Some(Instruction::ShiftLeft)
    } else if label == "SHR"@ {
        Some(Instruction::ShiftRight)
    } else if label == "AND"@ {
        Some(Instruction::And)
    } else if label == "POW"@ {
        Some(Instruction::Power)
    } else if label == "OR"@ {
        Some(Instruction::Or)
    } else if label == "XOR"@ {
        Some(Instruction::Xor)
    } else if label == "NOT"@ {
        Some(Instruction::Not)
    } else if label == "EQ"@ {
        Some(Instruction::Equal)
    } else if label == "NE"@ {
        Some(Instruction::NotEqual)
    } else if label == "GT"@ {
        Some(Instruction::GreaterThan)
    } else if label == "LT"@ {
        Some(Instruction::LessThan)
    } else if label == "GTE"@ {
        Some(Instruction::GreaterThanOrEqual)
    } else if label == "LTE"@ {
        Some(Instruction::LessThanOrEqual)
    } else if label == "POP"@ {
        Some(Instruction::Pop)
    } else if label == "RET"@ {
        Some(Instruction::Return)
    } else {
        None
    }
}

/// The instruction that a line of text denotes. Up to the first space stands the
/// mnemonic; an argument, where there is a space, is all that follows it.
pub open spec fn parse_text(s: Seq<char>) -> Result<Instruction, ParseInstructionError> {
    match s.index_of_first(' ') {
        Some(i) => match parse_i32_spec(s.subrange(i + 1, s.len() as int)) {
            None => Err(ParseInstructionError::InvalidArgument),
            Some(v) => match with_argument(s.subrange(0, i), v) {
                Some(instruction) => Ok(instruction),
                None => Err(ParseInstructionError::UnknownInstruction),
            },
        },
        None => match without_argument(s) {
            Some(instruction) => Ok(instruction),
            None => Err(ParseInstructionError::UnknownInstruction),
        },
    }
}

impl Instruction {
    /// The number by which the ROM encodes the kind of instruction.
    pub open spec fn opcode(self) -> int {
        match self {
            Instruction::Jump(_) => 1,
            Instruction::JumpIfNonZero(_) => 2,
            Instruction::Save(_) => 3,
            Instruction::Load(_) => 4,
            Instruction::Constant(_) => 5,
            Instruction::Add => 6,
            Instruction::Subtract => 7,
            Instruction::Divide => 8,
            Instruction::Multiply => 9,
            Instruction::Power => 10,
            Instruction::Remainder => 11,
            Instruction::ShiftLeft => 12,
            Instruction::ShiftRight => 13,
            Instruction::And => 14,
            Instruction::Or => 15,
            Instruction::Xor => 16,
            Instruction::Not => 17,
            Instruction::Equal => 18,
            Instruction::NotEqual => 19,
            Instruction::GreaterThan => 20,
            Instruction::LessThan => 21,
            Instruction::GreaterThanOrEqual => 22,
            Instruction::LessThanOrEqual => 23,
            Instruction::Pop => 24,
            Instruction::JumpIfZero(_) => 25,
            Instruction::JumpSubRoutine(_) => 26,
            Instruction::Return => 27,
        }
    }

    /// The argument of the instruction, if it takes one.
    pub open spec fn argument(self) -> Option<i32> {
        match self {
            Instruction::Jump(a) => Some(a),
            Instruction::JumpIfNonZero(a) => Some(a),
            Instruction::JumpIfZero(a) => Some(a),
            Instruction::Save(a) => Some(a),
            Instruction::Load(a) => Some(a),
            Instruction::Constant(v) => Some(v),
            Instruction::JumpSubRoutine(a) => Some(a),
            _ => None,
        }
    }

    /// The signal that carries the argument, with the argument: the data signal for a
    /// constant, the address signal for every other argument.
    pub open spec fn argument_signal(self) -> Option<(SignalIdView, i32)> {
        match self {
            Instruction::Constant(v) => Some((virtual_signal("signal-D"@), v)),
            _ => match self.argument() {
                Some(a) => Some((virtual_signal("signal-A"@), a)),
                None => None,
            },
        }
    }

    /// The mnemonic of the instruction.
    pub open spec fn mnemonic(self) -> Seq<char> {
        match self {
            Instruction::Jump(_) => "JUMP"@,
            Instruction::JumpIfNonZero(_) => "JMPIF"@,
            Instruction::JumpIfZero(_) => "JMPNIF"@,
            Instruction::Save(_) => "SAVE"@,
            Instruction::Load(_) => "LOAD"@,
            Instruction::Constant(_) => "CNST"@,
            Instruction::Add => "ADD"@,
            Instruction::Subtract => "SUB"@,
            Instruction::Divide => "DIV"@,
            Instruction::Multiply => "MUL"@,
            Instruction::Power => "POW"@,
            Instruction::Remainder => "REM"@,
            Instruction::ShiftLeft => "SHL"@,
            Instruction::ShiftRight => "SHR"@,
            Instruction::And => "AND"@,
            Instruction::Or => "OR"@,
            Instruction::Xor => "XOR"@,
            Instruction::Not => "NOT"@,
            Instruction::Equal => "EQ"@,
            Instruction::NotEqual => "NE"@,
            Instruction::GreaterThan => "GT"@,
            Instruction::LessThan => "LT"@,
            Instruction::GreaterThanOrEqual => "GTE"@,
            Instruction::LessThanOrEqual => "LTE"@,
            Instruction::Pop => "POP"@,
            Instruction::JumpSubRoutine(_) => "JSR"@,
            Instruction::Return => "RET"@,
        }
    }

    /// The line of text that stands for the instruction: the mnemonic and, where
    /// there is an argument, one space and the argument in decimal.
    pub open spec fn text(self) -> Seq<char> {
        match self.argument() {
            Some(v) => self.mnemonic() + seq![' '] + signed_decimal(v as int),
            None => self.mnemonic(),
        }
    }

    /// The number by which the ROM encodes the kind of instruction.
    pub fn get_opcode(&self) -> (code: i32)
        ensures
            code == self.opcode(),
            1 <= code <= 27,
    {
        match self {
            Instruction::Jump(_) => 1,
            Instruction::JumpIfNonZero(_) => 2,
            Instruction::Save(_) => 3,
            Instruction::Load(_) => 4,
            Instruction::Constant(_) => 5,
            Instruction::JumpIfZero(_) => 25,
            Instruction::Add => 6,
            Instruction::Subtract => 7,
            Instruction::Divide => 8,
            Instruction::Multiply => 9,
            Instruction::Power => 10,
            Instruction::Remainder => 11,
            Instruction::ShiftLeft => 12,
            Instruction::ShiftRight => 13,
            Instruction::And => 14,
            Instruction::Or => 15,
            Instruction::Xor => 16,
            Instruction::Not => 17,
            Instruction::Equal => 18,
            Instruction::NotEqual => 19,
            Instruction::GreaterThan => 20,
            Instruction::LessThan => 21,
            Instruction::GreaterThanOrEqual => 22,
            Instruction::LessThanOrEqual => 23,
            Instruction::Pop => 24,
            Instruction::JumpSubRoutine(_) => 26,
            Instruction::Return => 27,
        }
    }

    /// The argument of the instruction, if it takes one.
    pub fn get_argument(&self) -> (arg: Option<i32>)
        ensures
            arg == self.argument(),
    {
        match self {
            Instruction::Jump(a) => Some(*a),
            Instruction::JumpIfNonZero(a) => Some(*a),
            Instruction::JumpIfZero(a) => Some(*a),
            Instruction::Save(a) => Some(*a),
            Instruction::Load(a) => Some(*a),
            Instruction::Constant(v) => Some(*v),
            Instruction::JumpSubRoutine(a) => Some(*a),
            _ => None,
        }
    }

    /// The signal on which the ROM puts the argument, and the argument.
    pub fn get_argument_signal(&self) -> (signal: Option<(SignalId, i32)>)
        ensures
            match signal {
                Some((id, value)) => self.argument_signal() == Some((id@, value)),
                None => self.argument_signal() is None,
            },
    {
        let address_signal = SignalId {
            signal_type: "virtual".to_owned(),
            name: "signal-A".to_owned(),
        };
        let data_signal = SignalId {
            signal_type: "virtual".to_owned(),
            name: "signal-D".to_owned(),
        };
        match self {
            Instruction::Jump(addr) => Some((address_signal, *addr)),
            Instruction::JumpIfNonZero(addr) => Some((address_signal, *addr)),
            Instruction::JumpIfZero(addr) => Some((address_signal, *addr)),
            Instruction::Save(addr) => Some((address_signal, *addr)),
            Instruction::Load(addr) => Some((address_signal, *addr)),
            Instruction::Constant(value) => Some((data_signal, *value)),
            Instruction::JumpSubRoutine(addr) => Some((address_signal, *addr)),
            _ => None,
        }
    }

    fn mnemonic_str(&self) -> (m: &'static str)
        ensures
            m@ == self.mnemonic(),
    {
        match self {
            Instruction::Jump(_) => "JUMP",
            Instruction::JumpIfNonZero(_) => "JMPIF",
            Instruction::JumpIfZero(_) => "JMPNIF",
            Instruction::Save(_) => "SAVE",
            Instruction::Load(_) => "LOAD",
            Instruction::Constant(_) => "CNST",
            Instruction::Add => "ADD",
            Instruction::Subtract => "SUB",
            Instruction::Divide => "DIV",
            Instruction::Multiply => "MUL",
            Instruction::Power => "POW",
            Instruction::Remainder => "REM",
            Instruction::ShiftLeft => "SHL",
            Instruction::ShiftRight => "SHR",
            Instruction::And => "AND",
            Instruction::Or => "OR",
            Instruction::Xor => "XOR",
            Instruction::Not => "NOT",
            Instruction::Equal => "EQ",
            Instruction::NotEqual => "NE",
            Instruction::GreaterThan => "GT",
            Instruction::LessThan => "LT",
            Instruction::GreaterThanOrEqual => "GTE",
            Instruction::LessThanOrEqual => "LTE",
            Instruction::Pop => "POP",
            Instruction::JumpSubRoutine(_) => "JSR",
            Instruction::Return => "RET",
        }
    }

    /// The line of text that stands for the instruction.
    pub fn to_string(&self) -> (line: String)
        ensures
            line@ == self.text(),
    {
        let mut line = String::from_str(self.mnemonic_str());
        match self.get_argument() {
            Some(v) => {
                line.push(' ');
                push_signed_decimal(&mut line, v);
                assert(line@ =~= self.text());
            },
            None => {},
        }
        line
    }

    /// Reads an instruction from a line of text.
    pub fn try_from(value: &str) -> (r: Result<Instruction, ParseInstructionError>)
        ensures
            r == parse_text(value@),
    {
        let chars = chars_of(value);
        let n = chars.len();
        let mut i: usize = 0;
        while i < n && chars[i] != ' '
            invariant
                n == chars@.len(),
                0 <= i <= n,
                forall|j: int| 0 <= j < i ==> chars@[j] != ' ',
            decreases n - i,
        {
            i += 1;
        }
        proof {
            chars@.index_of_first_ensures(' ');
            if i < n {
                assert(chars@.contains(' '));
            }
        }
        if i < n {
            match parse_i32(&chars, i + 1, n) {
                None => Err(ParseInstructionError::InvalidArgument),
                Some(v) => Self::read_with_argument(&chars, i, v),
            }
        } else {
            assert(chars@.subrange(0, n as int) =~= chars@);
            Self::read_without_argument(&chars)
        }
    }

    fn read_with_argument(chars: &Vec<char>, end: usize, v: i32) -> (r: Result<
        Instruction,
        ParseInstructionError,
    >)
        requires
            end <= chars@.len(),
        ensures
            r == (match with_argument(chars@.subrange(0, end as int), v) {
                Some(instruction) => Ok::<Instruction, ParseInstructionError>(instruction),
                None => Err(ParseInstructionError::UnknownInstruction),
            }),
    {
        if matches_word(chars, 0, end, "JUMP") {
            Ok(Instruction::Jump(v))
        } else if matches_word(chars, 0, end, "JMPIF") {
            Ok(Instruction::JumpIfNonZero(v))
        } else if matches_word(chars, 0, end, "JMPNIF") {
            Ok(Instruction::JumpIfZero(v))
        } else if matches_word(chars, 0, end, "SAVE") {
            Ok(Instruction::Save(v))
        } else if matches_word(chars, 0, end, "LOAD") {
            Ok(Instruction::Load(v))
        } else if matches_word(chars, 0, end, "CNST") {
            Ok(Instruction::Constant(v))
        } else if matches_word(chars, 0, end, "JSR") {
            Ok(Instruction::JumpSubRoutine(v))
        } else {
            Err(ParseInstructionError::UnknownInstruction)
        }
    }

    fn read_without_argument(chars: &Vec<char>) -> (r: Result<Instruction, ParseInstructionError>)
        ensures
            r == (match without_argument(chars@.subrange(0, chars@.len() as int)) {
                Some(instruction) => Ok::<Instruction, ParseInstructionError>(instruction),
                None => Err(ParseInstructionError::UnknownInstruction),
            }),
    {
        let n = chars.len();
        if matches_word(chars, 0, n, "ADD") {
            Ok(Instruction::Add)
        } else if matches_word(chars, 0, n, "SUB") {
            Ok(Instruction::Subtract)
        } else if matches_word(chars, 0, n, "MUL") {
            Ok(Instruction::Multiply)
        } else if matches_word(chars, 0, n, "DIV") {
            Ok(Instruction::Divide)
        } else if matches_word(chars, 0, n, "REM") {
            Ok(Instruction::Remainder)
        } else if matches_word(chars, 0, n, "SHL") {
            Ok(Instruction::ShiftLeft)
        } else if matches_word(chars, 0, n, "SHR") {
            Ok(Instruction::ShiftRight)
        } else if matches_word(chars, 0, n, "AND") {
            Ok(Instruction::And)
        } else if matches_word(chars, 0, n, "POW") {
            Ok(Instruction::Power)
        } else if matches_word(chars, 0, n, "OR") {
            Ok(Instruction::Or)
        } else if matches_word(chars, 0, n, "XOR") {
            Ok(Instruction::Xor)
        } else if matches_word(chars, 0, n, "NOT") {
            Ok(Instruction::Not)
        } else if matches_word(chars, 0, n, "EQ") {
            Ok(Instruction::Equal)
        } else if matches_word(chars, 0, n, "NE") {
            Ok(Instruction::NotEqual)
        } else if matches_word(chars, 0, n, "GT") {
            Ok(Instruction::GreaterThan)
        } else if matches_word(chars, 0, n, "LT") {
            Ok(Instruction::LessThan)
        } else if matches_word(chars, 0, n, "GTE") {
            Ok(Instruction::GreaterThanOrEqual)
        } else if matches_word(chars, 0, n, "LTE") {
            Ok(Instruction::LessThanOrEqual)
        } else if matches_word(chars, 0, n, "POP") {
            Ok(Instruction::Pop)
        } else if matches_word(chars, 0, n, "RET") {
            Ok(Instruction::Return)
        } else {
            Err(ParseInstructionError::UnknownInstruction)
        }
    }
}

/// Whether no character of `s` is a space.
pub open spec fn has_no_space(s: Seq<char>) -> bool {
    forall|j: int| 0 <= j < s.len() ==> #[trigger] s[j] != ' '
}

proof fn lemma_mnemonics_revealed()
    ensures
        "JUMP"@ =~= seq!['J', 'U', 'M', 'P'],
        "JMPIF"@ =~= seq!['J', 'M', 'P', 'I', 'F'],
        "JMPNIF"@ =~= seq!['J', 'M', 'P', 'N', 'I', 'F'],
        "SAVE"@ =~= seq!['S', 'A', 'V', 'E'],
        "LOAD"@ =~= seq!['L', 'O', 'A', 'D'],
        "CNST"@ =~= seq!['C', 'N', 'S', 'T'],
        "JSR"@ =~= seq!['J', 'S', 'R'],
        "ADD"@ =~= seq!['A', 'D', 'D'],
        "SUB"@ =~= seq!['S', 'U', 'B'],
        "MUL"@ =~= seq!['M', 'U', 'L'],
        "DIV"@ =~= seq!['D', 'I', 'V'],
        "REM"@ =~= seq!['R', 'E', 'M'],
        "SHL"@ =~= seq!['S', 'H', 'L'],
        "SHR"@ =~= seq!['S', 'H', 'R'],
        "AND"@ =~= seq!['A', 'N', 'D'],
        "POW"@ =~= seq!['P', 'O', 'W'],
        "OR"@ =~= seq!['O', 'R'],
        "XOR"@ =~= seq!['X', 'O', 'R'],
        "NOT"@ =~= seq!['N', 'O', 'T'],
        "EQ"@ =~= seq!['E', 'Q'],
        "NE"@ =~= seq!['N', 'E'],
        "GT"@ =~= seq!['G', 'T'],
        "LT"@ =~= seq!['L', 'T'],
        "GTE"@ =~= seq!['G', 'T', 'E'],
        "LTE"@ =~= seq!['L', 'T', 'E'],
        "POP"@ =~= seq!['P', 'O', 'P'],
        "RET"@ =~= seq!['R', 'E', 'T'],
{
    reveal_strlit("JUMP");
    reveal_strlit("JMPIF");
    reveal_strlit("JMPNIF");
    reveal_strlit("SAVE");
    reveal_strlit("LOAD");
    reveal_strlit("CNST");
    reveal_strlit("JSR");
    reveal_strlit("ADD");
    reveal_strlit("SUB");
    reveal_strlit("MUL");
    reveal_strlit("DIV");
    reveal_strlit("REM");
    reveal_strlit("SHL");
    reveal_strlit("SHR");
    reveal_strlit("AND");
    reveal_strlit("POW");
    reveal_strlit("OR");
    reveal_strlit("XOR");
    reveal_strlit("NOT");
    reveal_strlit("EQ");
    reveal_strlit("NE");
    reveal_strlit("GT");
    reveal_strlit("LT");
    reveal_strlit("GTE");
    reveal_strlit("LTE");
    reveal_strlit("POP");
    reveal_strlit("RET");
}

proof fn lemma_split_at_first_space(m: Seq<char>, v: i32)
    requires
        has_no_space(m),
    ensures
        ({
            let t = m + seq![' '] + signed_decimal(v as int);
            &&& t.index_of_first(' ') == Some(m.len() as int)
            &&& t.subrange(0, m.len() as int) == m
            &&& parse_i32_spec(t.subrange(m.len() as int + 1, t.len() as int)) == Some(v)
        }),
{
    let t = m + seq![' '] + signed_decimal(v as int);
    assert(t[m.len() as int] == ' ');
    t.index_of_first_ensures(' ');
    let idx = t.index_of_first(' ').unwrap();
    if idx < m.len() {
        assert(t[idx] == m[idx]);
    }
    assert(t.subrange(0, m.len() as int) =~= m);
    assert(t.subrange(m.len() as int + 1, t.len() as int) =~= signed_decimal(v as int));
    lemma_parse_signed_decimal(v);
}

/// Reading the text of an instruction gives the instruction back.
pub proof fn lemma_text_round_trip(instruction: Instruction)
    ensures
        parse_text(instruction.text()) == Ok::<Instruction, ParseInstructionError>(instruction),
{
    lemma_mnemonics_revealed();
    let m = instruction.mnemonic();
    assert(has_no_space(m));
    match instruction.argument() {
        Some(v) => {
            lemma_split_at_first_space(m, v);
            assert(with_argument(m, v) == Some(instruction));
        },
        None => {
            m.index_of_first_ensures(' ');
            if m.contains(' ') {
                let j = choose|j: int| 0 <= j < m.len() && m[j] == ' ';
                assert(m[j] != ' ');
            }
            assert(without_argument(m) == Some(instruction));
        },
    }
}

} // verus!
