//! A small regular-expression engine.
//!
//! A pattern is parsed into a syntax tree, compiled into a bytecode program
//! whose jump targets are absolute instruction addresses, and then run against
//! an input line by one of two strategies: a depth-first backtracking search
//! or a breadth-first simultaneous-state search.  The two strategies are
//! proved to return the same verdict on every input: the result of
//! [`do_matching`] is pinned by its contract and does not depend on the
//! strategy flag.

use vstd::prelude::*;

pub mod codegen;
pub mod evaluator;
pub mod helper;
pub mod parser;
pub mod semantics;

use crate::codegen::CodeGenError;
use crate::codegen::program_of;
use crate::evaluator::EvalError;
use crate::evaluator::accepts;
use crate::parser::ParseError;
use crate::parser::re_of;
use crate::parser::sp_parse;

verus! {

/// An error from any stage of the pipeline, surfaced to the caller unchanged:
/// no stage coerces an error into a false match or a match into an error.
#[derive(Debug, Clone, Copy, PartialEq, Eq, Structural)]
pub enum EngineError {
    /// The pattern is not well formed.
    Parse(ParseError),
    /// The pattern could not be compiled.
    CodeGen(CodeGenError),
    /// The compiled program failed at run time.
    Eval(EvalError),
}

/// Matches `expr` against `line`, reporting whether the pattern accepts the
/// line from its start.
///
/// `offset` is the absolute position of `line` within the original input, so
/// `^` holds only when the match truly starts a line (`offset == 0`).
/// `is_depth` selects depth-first backtracking over the breadth-first
/// simulation; the contract does not mention it, so the two strategies agree
/// on every pattern, input and offset.
///
/// Exactly the syntactically valid patterns are accepted: the result is
/// `Err(EngineError::Parse(e))` precisely when the parser rejects `expr`
/// with `e`, and otherwise `Ok(b)` where `b` is the mathematical acceptance
/// of the compiled program on `line`.
pub fn do_matching(expr: &str, line: &str, offset: usize, is_depth: bool) -> (r: Result<
    bool,
    EngineError,
>)
    ensures
        sp_parse(expr@) matches Err(pe) ==> r == Err::<bool, EngineError>(EngineError::Parse(pe)),
        sp_parse(expr@) matches Ok(re) ==> (r matches Ok(b) && b == accepts(
            program_of(re),
            line@,
            offset as nat,
        )),
{
    let pat = helper::chars_of(expr);
    match parser::parse(pat.as_slice()) {
        Err(e) => Err(EngineError::Parse(e)),
        Ok(ast) => match codegen::get_code(&ast) {
            Err(e) => Err(EngineError::CodeGen(e)),
            Ok(code) => {
                let input = helper::chars_of(line);
                let n: usize = code.len();
                proof {
                    assert(program_of(re_of(ast)).len() == n as nat);
                    codegen::lemma_program_well_formed(re_of(ast));
                }
                match evaluator::eval(code.as_slice(), input.as_slice(), offset, is_depth) {
                    Err(e) => Err(EngineError::Eval(e)),
                    Ok(b) => Ok(b),
                }
            },
        },
    }
}

} // verus!
