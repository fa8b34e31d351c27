//! The s-expression tree that the parser reads, and the reading of text into
//! such a tree by the `sexp` crate.

use vstd::prelude::*;

verus! {

/// An s-expression: an atom or a list of s-expressions.
#[derive(Debug)]
pub enum SExpr {
    /// An integer atom.
    Int(i64),
    /// A floating-point atom (its value is not kept: the language has no floats).
    Float,
    /// A symbol or string atom.
    Sym(String),
    /// A parenthesised list.
    List(Vec<SExpr>),
}

#[verifier::external_type_specification]
#[verifier::external_body]
pub struct ExSexp(sexp::Sexp);

#[verifier::external_type_specification]
#[verifier::external_body]
pub struct ExSexpError(sexp::Error);

/// The tree that `sexp::parse` reads from `text`, in the library's form, or
/// `None` where it reports an error.
pub uninterp spec fn sexp_reading(text: Seq<char>) -> Option<SExpr>;

/// `sexp::parse`: reads one s-expression (surrounded by optional white space
/// and `;` comments) from `text`. The contract claims only that the outcome is
/// a function of the text: `Ok` exactly when the name `sexp_reading` gives a
/// tree, and then that tree; the tree's shape is not stated.
#[verifier::external_body]
pub(crate) fn read_sexp(text: &str) -> (r: Result<SExpr, Box<sexp::Error>>)
    ensures
        r is Ok <==> sexp_reading(text@) is Some,
        r matches Ok(t) ==> sexp_reading(text@) == Some(t),
{
    match sexp::parse(text) {
        Ok(tree) => Ok(lift_sexp(&tree)),
        Err(e) => Err(e),
    }
}

/// Converts a tree of `sexp::Sexp` into an `SExpr`, node for node: each atom
/// into the atom of the same kind (an integer keeps its value, a symbol its
/// text, a float only its kind), each list into the list of the converted
/// items in the same order. Nothing of the result is stated.
#[verifier::external_body]
fn lift_sexp(tree: &sexp::Sexp) -> SExpr {
    match tree {
        sexp::Sexp::Atom(sexp::Atom::I(n)) => SExpr::Int(*n),
        sexp::Sexp::Atom(sexp::Atom::F(_)) => SExpr::Float,
        sexp::Sexp::Atom(sexp::Atom::S(name)) => SExpr::Sym(name.clone()),
        sexp::Sexp::List(items) => SExpr::List(items.iter().map(lift_sexp).collect()),
    }
}

} // verus!
