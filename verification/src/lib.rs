//! A compiler for a small expression language ("Boa" with booleans, loops and
//! mutation) that produces x86-64 assembly text, together with the value
//! rendering of its runtime.

pub mod tagging;
pub mod text;
pub mod sexpr;
pub mod ast;
pub mod parser;
pub mod env;
pub mod assembly;
pub mod limits;
pub mod compiler;
pub mod pipeline;
pub mod runtime;
pub mod properties;
