//! A compiler from a small C-like language to the instruction set of a
//! stack machine that is laid out as a ROM of signal combinators.

use std::sync::Arc;
use vstd::prelude::*;

pub mod assembly;
pub mod ast;
pub mod blueprint;
pub mod compiler;
pub mod control_flow;
pub mod error_handling;
pub mod grammar;
pub mod lexer;
pub mod linking;
pub mod lowering;
pub mod parser;
pub mod places;
pub mod spans;
pub mod text;
pub mod writing;

verus! {

/// The program of a source file, or the diagnostics of the first pass that fails:
/// the lexer's, the parser's or the compiler's.
pub open spec fn compiled(source: Arc<error_handling::SourceFile>) -> Result<
    Seq<assembly::Instruction>,
    Seq<error_handling::ErrorView>,
> {
    match lexer::lex(source) {
        Err(errors) => Err(errors),
        Ok(tokens) => match grammar::module(tokens, 0).result {
            Err(errors) => Err(errors),
            Ok(functions) => lowering::compile_module(functions),
        },
    }
}

/// Compiles a source file into a program.
pub fn try_compile(source: Arc<error_handling::SourceFile>) -> (r: error_handling::CompileResult<
    Vec<assembly::Instruction>,
>)
    ensures
        compiler::code_outcome(r) == compiled(source),
{
    let tokens = match lexer::tokenize(source) {
        Ok(tokens) => tokens,
        Err(errors) => {
            return Err(errors);
        },
    };
    let mut iter = parser::TokenIterator::new(tokens);
    let ast = match parser::parse_module(&mut iter) {
        Ok(ast) => ast,
        Err(errors) => {
            return Err(errors);
        },
    };
    compiler::compile_module(ast)
}

} // verus!
