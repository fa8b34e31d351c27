//! From program text to the text of the assembly file.

use vstd::prelude::*;
use crate::ast::Expr;
use crate::compiler::{
    CompileError, compile, compile_program_spec, join_text, program_text, assembly_file,
};
use crate::limits::{check_limits, within_limits};
use crate::parser::{ParseError, parse_program, parse_error, parses_to};
use crate::sexpr::sexp_reading;

verus! {

/// Why a program text does not become an assembly file.
#[derive(Debug)]
pub enum BuildError {
    /// The text is not a program.
    Parse(ParseError),
    /// The program cannot be compiled.
    Compile(CompileError),
    /// The program needs stack offsets or label numbers beyond 32-bit integers.
    Limits,
}

/// `r` is what building the expression `e` into an assembly file gives.
pub open spec fn build_outcome(e: Expr, r: Result<String, BuildError>) -> bool {
    if !within_limits(e, 2, 0) {
        r matches Err(BuildError::Limits)
    } else {
        match compile_program_spec(e) {
            Err(x) => r == Err::<String, BuildError>(BuildError::Compile(x)),
            Ok((code, _)) => r matches Ok(t) && t@ == program_text(join_text(code)),
        }
    }
}

/// Compiles the expression `e` as a whole program into the text of its assembly file.
pub fn build(e: &Expr) -> (r: Result<String, BuildError>)
    ensures
        build_outcome(*e, r),
{
    if !check_limits(e, 2, 0) {
        return Err(BuildError::Limits);
    }
    match compile(e) {
        Ok(body) => Ok(assembly_file(body.as_str())),
        Err(x) => Err(BuildError::Compile(x)),
    }
}

/// Compiles the text of a program into the text of its assembly file.
pub fn compile_source(text: &str) -> (r: Result<String, BuildError>)
    ensures
        match sexp_reading(text@) {
            None => r matches Err(BuildError::Parse(ParseError::Syntax)),
            Some(t) => match parse_error(t) {
                Some(pe) => r matches Err(BuildError::Parse(x)) && x == pe,
                None => exists|e: Expr| parses_to(t, e) && #[trigger] build_outcome(e, r),
            },
        },
{
    let e = match parse_program(text) {
        Ok(e) => e,
        Err(pe) => {
            return Err(BuildError::Parse(pe));
        },
    };
    let r = build(&e);
    assert(build_outcome(e, r));
    r
}

} // verus!
