//! Properties of generated code that hold for every expression.

use vstd::prelude::*;
use crate::assembly::{InstrV, Val};
use crate::ast::Expr;
use crate::compiler::{compile_program_spec, rax, CompileError};
use crate::tagging::tagged_num;
use crate::runtime::{word_text, lemma_tagged_words_read_back};
use crate::text::decimal;

pub mod labels;
pub mod frame;
pub mod machine;
pub mod errors;
pub mod flow;

verus! {

/// A program that is a number literal compiles to the one instruction that
/// loads the tagged number, and the runtime writes that word back as the
/// literal's decimal text.
pub proof fn lemma_number_literal_round_trip(n: i32)
    ensures
        compile_program_spec(Expr::Number(n)) == Ok::<(Seq<InstrV>, int), CompileError>(
            (seq![InstrV::IMov(rax(), Val::Imm(tagged_num(n as int) as i64))], 0),
        ),
        word_text(tagged_num(n as int)) == Some(decimal(n as int)),
{
    lemma_tagged_words_read_back(n as int);
}

} // verus!
