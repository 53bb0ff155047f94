//! A compiler for a tiny language of arithmetic and assignment.
//!
//! Source text is turned into tokens, tokens into statement trees, and the
//! trees into instructions for a stack machine that runs on the x86-64 call
//! stack.

pub mod code;
pub mod gen;
pub mod grammar;
pub mod parse;
pub mod token;

use crate::code::Instruction;
use crate::gen::{emit_unit, Generator};
use crate::parse::{program, Parser, ParserError};
use crate::token::{lex, LexError, Tokenizer};
use vstd::prelude::*;

verus! {

/// Why no assembly unit came out.
#[derive(Debug)]
pub enum CompileError {
    /// A character starts no token.
    Lex(LexError),
    /// A token fits no alternative of the grammar.
    Parse(ParserError),
    /// The left side of an assignment is no variable; with what was emitted
    /// up to there.
    AssignTarget(Vec<Instruction>),
}

/// What `compile` owes for the text `source`.
pub open spec fn compiled(source: Seq<char>, r: Result<Vec<Instruction>, CompileError>) -> bool {
    match lex(source, 0) {
        Err(e) => r matches Err(CompileError::Lex(error)) && error == e,
        Ok(tokens) => match program(tokens, 0) {
            Err(at) => r matches Err(CompileError::Parse(error)) && error.text()
                == tokens[at as int].text,
            Ok((trees, _)) => {
                let unit = emit_unit(trees, Seq::empty());
                if unit.done {
                    r matches Ok(code) && code@ == unit.code
                } else {
                    r matches Err(CompileError::AssignTarget(code)) && code@ == unit.code
                }
            },
        },
    }
}

/// The assembly unit for `source`, or the first thing that is wrong with it.
pub fn compile(source: &str) -> (r: Result<Vec<Instruction>, CompileError>)
    ensures
        compiled(source@, r),
{
    let mut tokenizer = Tokenizer::new(source);
    let tokens = match tokenizer.tokenize() {
        Ok(tokens) => tokens,
        Err(e) => {
            return Err(CompileError::Lex(e));
        },
    };
    let mut parser = Parser::new(tokens);
    let code = match parser.program() {
        Ok(code) => code,
        Err(e) => {
            return Err(CompileError::Parse(e));
        },
    };
    let mut generator = Generator::new();
    let done = generator.gen_unit(&code);
    let ghost unit = emit_unit(crate::parse::trees(code@), Seq::empty());
    assert(Seq::<Instruction>::empty() + unit.code =~= unit.code);
    match done {
        Ok(()) => Ok(generator.into_instructions()),
        Err(_) => Err(CompileError::AssignTarget(generator.into_instructions())),
    }
}

} // verus!
