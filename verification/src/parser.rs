//! From s-expressions to expressions.

use vstd::prelude::*;
use crate::ast::{BinOp, Expr, UnOp};
use crate::sexpr::{sexp_reading, read_sexp, SExpr};
use crate::text::text_eq;

verus! {

/// Why an input is not a program.
#[derive(Debug, Clone, Copy, PartialEq, Eq, Structural)]
pub enum ParseError {
    /// The text is not one well-formed s-expression.
    Syntax,
    /// A floating-point atom.
    FloatAtom,
    /// An integer atom outside the range of `i32`.
    NumberOutOfRange,
    /// A keyword used as an identifier, or a keyword or boolean used as a variable's name.
    ReservedIdentifier,
    /// A list that is no form of the language.
    UnrecognizedForm,
    /// A `let` binding that is not a list.
    BindingNotList,
    /// A `let` binding that is a list but not `(identifier expr)`.
    BindingForm,
    /// A `let` with no bindings.
    EmptyBindings,
}

/// The text with which the command-line compiler stops on a parse error.
pub open spec fn parse_error_text(e: ParseError) -> Seq<char> {
    match e {
        ParseError::Syntax => "Invalid"@,
        ParseError::FloatAtom => "Invalid: Floats not supported"@,
        ParseError::NumberOutOfRange => "Invalid"@,
        ParseError::ReservedIdentifier => "Invalid: reserved keyword used as identifier"@,
        ParseError::UnrecognizedForm => "Invalid: unrecognized expression"@,
        ParseError::BindingNotList => "Invalid: binding must be a list"@,
        ParseError::BindingForm => "Invalid: binding must be of the form (identifier expr)"@,
        ParseError::EmptyBindings => "Invalid: let needs at least one binding"@,
    }
}

impl ParseError {
    /// The text with which the command-line compiler stops on this error.
    pub fn message(&self) -> (m: &'static str)
        ensures
            m@ == parse_error_text(*self),
    {
        match self {
            ParseError::Syntax => "Invalid",
            ParseError::FloatAtom => "Invalid: Floats not supported",
            ParseError::NumberOutOfRange => "Invalid",
            ParseError::ReservedIdentifier => "Invalid: reserved keyword used as identifier",
            ParseError::UnrecognizedForm => "Invalid: unrecognized expression",
            ParseError::BindingNotList => "Invalid: binding must be a list",
            ParseError::BindingForm => "Invalid: binding must be of the form (identifier expr)",
            ParseError::EmptyBindings => "Invalid: let needs at least one binding",
        }
    }
}

/// The kind of list form, decided by its length and its head symbol.
#[derive(Debug, Clone, Copy, PartialEq, Eq, Structural)]
pub enum Form {
    Unary(UnOp),
    Binary(BinOp),
    If,
    Assign,
    Loop,
    Break,
    Block,
    Let,
    Unrecognized,
}

/// `s` is the symbol `word`.
pub open spec fn sym_is(s: SExpr, word: Seq<char>) -> bool {
    s matches SExpr::Sym(name) && name@ == word
}

/// The form of a list with these items.
pub open spec fn list_form(items: Seq<SExpr>) -> Form {
    let n = items.len();
    if n == 0 {
        Form::Unrecognized
    } else {
        let h = items[0];
        if n == 2 && sym_is(h, "add1"@) {
            Form::Unary(UnOp::Add1)
        } else if n == 2 && sym_is(h, "sub1"@) {
            Form::Unary(UnOp::Sub1)
        } else if n == 3 && sym_is(h, "+"@) {
            Form::Binary(BinOp::Plus)
        } else if n == 3 && sym_is(h, "-"@) {
            Form::Binary(BinOp::Minus)
        } else if n == 3 && sym_is(h, "*"@) {
            Form::Binary(BinOp::Times)
        } else if n == 3 && sym_is(h, "<"@) {
            Form::Binary(BinOp::Less)
        } else if n == 3 && sym_is(h, ">"@) {
            Form::Binary(BinOp::Greater)
        } else if n == 3 && sym_is(h, "<="@) {
            Form::Binary(BinOp::LessEq)
        } else if n == 3 && sym_is(h, ">="@) {
            Form::Binary(BinOp::GreaterEq)
        } else if n == 3 && sym_is(h, "="@) {
            Form::Binary(BinOp::Equal)
        } else if n == 4 && sym_is(h, "if"@) {
            Form::If
        } else if n == 3 && sym_is(h, "set!"@) && items[1] is Sym {
            Form::Assign
        } else if n == 2 && sym_is(h, "loop"@) {
            Form::Loop
        } else if n == 2 && sym_is(h, "break"@) {
            Form::Break
        } else if sym_is(h, "block"@) {
            Form::Block
        } else if n == 3 && sym_is(h, "let"@) && items[1] is List {
            Form::Let
        } else {
            Form::Unrecognized
        }
    }
}

/// Keywords that cannot be identifiers.
pub open spec fn is_reserved(name: Seq<char>) -> bool {
    ||| name == "add1"@
    ||| name == "sub1"@
    ||| name == "let"@
    ||| name == "loop"@
    ||| name == "break"@
    ||| name == "if"@
    ||| name == "block"@
}

/// A symbol that can name a variable: neither a keyword nor a boolean.
pub open spec fn is_identifier(name: Seq<char>) -> bool {
    !is_reserved(name) && name != "true"@ && name != "false"@
}

/// The first of two outcomes that is an error.
pub open spec fn first_error(a: Option<ParseError>, b: Option<ParseError>) -> Option<ParseError> {
    if a is Some {
        a
    } else {
        b
    }
}

/// The error that parsing `s` stops with (subexpressions are read left to
/// right and the first error wins), or `None` when `s` is an expression.
pub open spec fn parse_error(s: SExpr) -> Option<ParseError>
    decreases s, 0nat,
{
    match s {
        SExpr::Float => Some(ParseError::FloatAtom),
        SExpr::Int(n) => if i32::MIN <= n <= i32::MAX {
            None
        } else {
            Some(ParseError::NumberOutOfRange)
        },
        SExpr::Sym(name) => if name@ == "true"@ || name@ == "false"@ {
            None
        } else if is_reserved(name@) {
            Some(ParseError::ReservedIdentifier)
        } else {
            None
        },
        SExpr::List(items) => match list_form(items@) {
            Form::Unary(_) => parse_error(items@[1]),
            Form::Loop => parse_error(items@[1]),
            Form::Break => parse_error(items@[1]),
            Form::Binary(_) => first_error(parse_error(items@[1]), parse_error(items@[2])),
            Form::If => first_error(
                parse_error(items@[1]),
                first_error(parse_error(items@[2]), parse_error(items@[3])),
            ),
            Form::Assign => parse_error(items@[2]),
            Form::Block => block_error(items@, items@.len()),
            Form::Let => match items@[1] {
                SExpr::List(bs) => if bs@.len() == 0 {
                    Some(ParseError::EmptyBindings)
                } else {
                    first_error(bindings_error(bs@, bs@.len()), parse_error(items@[2]))
                },
                _ => None,
            },
            Form::Unrecognized => Some(ParseError::UnrecognizedForm),
        },
    }
}

/// The first error among `items[1..k)`.
pub open spec fn block_error(items: Seq<SExpr>, k: nat) -> Option<ParseError>
    decreases items, k,
{
    if k <= 1 || k > items.len() {
        None
    } else {
        first_error(block_error(items, (k - 1) as nat), parse_error(items[k - 1]))
    }
}

/// The error that parsing the binding `b` stops with, if any: its name is
/// checked before its expression, and must be an identifier.
pub open spec fn binding_error(b: SExpr) -> Option<ParseError>
    decreases b, 0nat,
{
    match b {
        SExpr::List(v) => if v@.len() == 2 && v@[0] is Sym {
            if !is_identifier(v@[0]->Sym_0@) {
                Some(ParseError::ReservedIdentifier)
            } else {
                parse_error(v@[1])
            }
        } else {
            Some(ParseError::BindingForm)
        },
        _ => Some(ParseError::BindingNotList),
    }
}

/// The first error among the bindings `bs[0..k)`.
pub open spec fn bindings_error(bs: Seq<SExpr>, k: nat) -> Option<ParseError>
    decreases bs, k,
{
    if k == 0 || k > bs.len() {
        None
    } else {
        first_error(bindings_error(bs, (k - 1) as nat), binding_error(bs[k - 1]))
    }
}

/// `e` is the expression that the error-free `s` stands for.
pub open spec fn parses_to(s: SExpr, e: Expr) -> bool
    decreases s, 0nat,
{
    match s {
        SExpr::Float => false,
        SExpr::Int(n) => e == Expr::Number(n as i32),
        SExpr::Sym(name) => if name@ == "true"@ {
            e == Expr::Bool(true)
        } else if name@ == "false"@ {
            e == Expr::Bool(false)
        } else {
            e matches Expr::Id(x) && x@ == name@
        },
        SExpr::List(items) => match list_form(items@) {
            Form::Unary(op) => e matches Expr::UnOp(o, a) && o == op && parses_to(items@[1], *a),
            Form::Loop => e matches Expr::Loop(a) && parses_to(items@[1], *a),
            Form::Break => e matches Expr::Break(a) && parses_to(items@[1], *a),
            Form::Binary(op) => e matches Expr::BinOp(o, a, b) && o == op && parses_to(items@[1], *a)
                && parses_to(items@[2], *b),
            Form::If => e matches Expr::If(c, t, f) && parses_to(items@[1], *c) && parses_to(
                items@[2],
                *t,
            ) && parses_to(items@[3], *f),
            Form::Assign => e matches Expr::SetVar(x, a) && sym_is(items@[1], x@) && parses_to(
                items@[2],
                *a,
            ),
            Form::Block => e matches Expr::Block(es) && es@.len() + 1 == items@.len()
                && block_parses(items@, es@, items@.len()),
            Form::Let => e matches Expr::Let(ps, body) && match items@[1] {
                SExpr::List(bs) => ps@.len() == bs@.len() && bindings_parse(bs@, ps@, bs@.len())
                    && parses_to(items@[2], *body),
                _ => false,
            },
            Form::Unrecognized => false,
        },
    }
}

/// Each `items[j]` with `1 <= j < k` parses to `es[j - 1]`.
pub open spec fn block_parses(items: Seq<SExpr>, es: Seq<Expr>, k: nat) -> bool
    decreases items, k,
{
    if k <= 1 || k > items.len() {
        true
    } else {
        block_parses(items, es, (k - 1) as nat) && parses_to(items[k - 1], es[k - 2])
    }
}

/// `p` is the (name, expression) pair that the error-free binding `b` stands for.
pub open spec fn binding_parses(b: SExpr, p: (String, Expr)) -> bool
    decreases b, 0nat,
{
    match b {
        SExpr::List(v) => v@.len() == 2 && sym_is(v@[0], p.0@) && parses_to(v@[1], p.1),
        _ => false,
    }
}

/// Each binding `bs[j]` with `j < k` parses to `ps[j]`.
pub open spec fn bindings_parse(bs: Seq<SExpr>, ps: Seq<(String, Expr)>, k: nat) -> bool
    decreases bs, k,
{
    if k == 0 || k > bs.len() {
        true
    } else {
        bindings_parse(bs, ps, (k - 1) as nat) && binding_parses(bs[k - 1], ps[k - 1])
    }
}


proof fn lemma_block_error_stays(items: Seq<SExpr>, k1: nat, k2: nat)
    requires
        k1 <= k2 <= items.len(),
        block_error(items, k1) is Some,
    ensures
        block_error(items, k2) == block_error(items, k1),
    decreases k2 - k1,
{
    if k1 < k2 {
        lemma_block_error_stays(items, k1, (k2 - 1) as nat);
    }
}

proof fn lemma_bindings_error_stays(bs: Seq<SExpr>, k1: nat, k2: nat)
    requires
        k1 <= k2 <= bs.len(),
        bindings_error(bs, k1) is Some,
    ensures
        bindings_error(bs, k2) == bindings_error(bs, k1),
    decreases k2 - k1,
{
    if k1 < k2 {
        lemma_bindings_error_stays(bs, k1, (k2 - 1) as nat);
    }
}

proof fn lemma_block_parses_extend(items: Seq<SExpr>, es: Seq<Expr>, e: Expr, k: nat)
    requires
        1 <= k,
        es.len() + 1 >= k,
        block_parses(items, es, k),
    ensures
        block_parses(items, es.push(e), k),
    decreases k,
{
    if k > 1 && k <= items.len() {
        lemma_block_parses_extend(items, es, e, (k - 1) as nat);
        assert(es.push(e)[k - 2] == es[k - 2]);
    }
}

proof fn lemma_bindings_parse_extend(
    bs: Seq<SExpr>,
    ps: Seq<(String, Expr)>,
    p: (String, Expr),
    k: nat,
)
    requires
        ps.len() >= k,
        bindings_parse(bs, ps, k),
    ensures
        bindings_parse(bs, ps.push(p), k),
    decreases k,
{
    if k > 0 && k <= bs.len() {
        lemma_bindings_parse_extend(bs, ps, p, (k - 1) as nat);
        assert(ps.push(p)[k - 1] == ps[k - 1]);
    }
}

/// The binary operator that a symbol names, if any.
pub open spec fn binary_op_named(name: Seq<char>) -> Option<BinOp> {
    if name == "+"@ {
        Some(BinOp::Plus)
    } else if name == "-"@ {
        Some(BinOp::Minus)
    } else if name == "*"@ {
        Some(BinOp::Times)
    } else if name == "<"@ {
        Some(BinOp::Less)
    } else if name == ">"@ {
        Some(BinOp::Greater)
    } else if name == "<="@ {
        Some(BinOp::LessEq)
    } else if name == ">="@ {
        Some(BinOp::GreaterEq)
    } else if name == "="@ {
        Some(BinOp::Equal)
    } else {
        None
    }
}

/// A binary form `(op e1 e2)` parses to the operation that `op` names, with
/// the parse of `e1` as its left operand and the parse of `e2` as its right
/// one, for every binary operator alike.
pub proof fn lemma_binary_operands(h: String, e1: SExpr, e2: SExpr, items: Vec<SExpr>, e: Expr)
    requires
        items@ == seq![SExpr::Sym(h), e1, e2],
        binary_op_named(h@) is Some,
        parses_to(SExpr::List(items), e),
    ensures
        e matches Expr::BinOp(o, a, b) && o == binary_op_named(h@)->Some_0 && parses_to(e1, *a)
            && parses_to(e2, *b),
{
    reveal_strlit("+");
    reveal_strlit("-");
    reveal_strlit("*");
    reveal_strlit("<");
    reveal_strlit(">");
    reveal_strlit("<=");
    reveal_strlit(">=");
    reveal_strlit("=");
    reveal_strlit("add1");
    reveal_strlit("sub1");
    assert(items@.len() == 3);
    assert(items@[0] == SExpr::Sym(h));
    assert(list_form(items@) == Form::Binary(binary_op_named(h@)->Some_0));
}

fn word_is(s: &SExpr, word: &str) -> (same: bool)
    ensures
        same == sym_is(*s, word@),
{
    match s {
        SExpr::Sym(name) => text_eq(name.as_str(), word),
        _ => false,
    }
}

/// The form of a list with these items.
pub fn classify(items: &Vec<SExpr>) -> (f: Form)
    ensures
        f == list_form(items@),
{
    let n = items.len();
    if n == 0 {
        return Form::Unrecognized;
    }
    let h = &items[0];
    if n == 2 && word_is(h, "add1") {
        Form::Unary(UnOp::Add1)
    } else if n == 2 && word_is(h, "sub1") {
        Form::Unary(UnOp::Sub1)
    } else if n == 3 && word_is(h, "+") {
        Form::Binary(BinOp::Plus)
    } else if n == 3 && word_is(h, "-") {
        Form::Binary(BinOp::Minus)
    } else if n == 3 && word_is(h, "*") {
        Form::Binary(BinOp::Times)
    } else if n == 3 && word_is(h, "<") {
        Form::Binary(BinOp::Less)
    } else if n == 3 && word_is(h, ">") {
        Form::Binary(BinOp::Greater)
    } else if n == 3 && word_is(h, "<=") {
        Form::Binary(BinOp::LessEq)
    } else if n == 3 && word_is(h, ">=") {
        Form::Binary(BinOp::GreaterEq)
    } else if n == 3 && word_is(h, "=") {
        Form::Binary(BinOp::Equal)
    } else if n == 4 && word_is(h, "if") {
        Form::If
    } else if n == 3 && word_is(h, "set!") && matches!(&items[1], SExpr::Sym(_)) {
        Form::Assign
    } else if n == 2 && word_is(h, "loop") {
        Form::Loop
    } else if n == 2 && word_is(h, "break") {
        Form::Break
    } else if word_is(h, "block") {
        Form::Block
    } else if n == 3 && word_is(h, "let") && matches!(&items[1], SExpr::List(_)) {
        Form::Let
    } else {
        Form::Unrecognized
    }
}

fn reserved(name: &str) -> (r: bool)
    ensures
        r == is_reserved(name@),
{
    text_eq(name, "add1") || text_eq(name, "sub1") || text_eq(name, "let") || text_eq(name, "loop")
        || text_eq(name, "break") || text_eq(name, "if") || text_eq(name, "block")
}

/// Parses an s-expression into an expression.
///
/// Examples: `42` gives `Number(42)`, `x` gives `Id("x")`, `(add1 5)` gives
/// `UnOp(Add1, Number(5))`, `(let ((x 5)) x)` gives `Let([("x", Number(5))], Id("x"))`.
#[verifier::loop_isolation(false)]
pub fn parse_expr(s: &SExpr) -> (r: Result<Expr, ParseError>)
    ensures
        match r {
            Ok(e) => parse_error(*s) is None && parses_to(*s, e),
            Err(err) => parse_error(*s) == Some(err),
        },
    decreases s,
{
    match s {
        SExpr::Float => Err(ParseError::FloatAtom),
        SExpr::Int(n) => {
            if i32::MIN as i64 <= *n && *n <= i32::MAX as i64 {
                Ok(Expr::Number(*n as i32))
            } else {
                Err(ParseError::NumberOutOfRange)
            }
        },
        SExpr::Sym(name) => {
            if text_eq(name.as_str(), "true") {
                Ok(Expr::Bool(true))
            } else if text_eq(name.as_str(), "false") {
                Ok(Expr::Bool(false))
            } else if reserved(name.as_str()) {
                Err(ParseError::ReservedIdentifier)
            } else {
                Ok(Expr::Id(name.clone()))
            }
        },
        SExpr::List(items) => {
            let form = classify(items);
            match form {
                Form::Unary(op) => {
                    let a = parse_expr(&items[1])?;
                    Ok(Expr::UnOp(op, Box::new(a)))
                },
                Form::Loop => {
                    let a = parse_expr(&items[1])?;
                    Ok(Expr::Loop(Box::new(a)))
                },
                Form::Break => {
                    let a = parse_expr(&items[1])?;
                    Ok(Expr::Break(Box::new(a)))
                },
                Form::Binary(op) => {
                    let a = parse_expr(&items[1])?;
                    let b = parse_expr(&items[2])?;
                    Ok(Expr::BinOp(op, Box::new(a), Box::new(b)))
                },
                Form::If => {
                    let c = parse_expr(&items[1])?;
                    let t = parse_expr(&items[2])?;
                    let f = parse_expr(&items[3])?;
                    Ok(Expr::If(Box::new(c), Box::new(t), Box::new(f)))
                },
                Form::Assign => {
                    let a = parse_expr(&items[2])?;
                    match &items[1] {
                        SExpr::Sym(name) => Ok(Expr::SetVar(name.clone(), Box::new(a))),
                        _ => {
                            proof {
                                assert(false);
                            }
                            Err(ParseError::UnrecognizedForm)
                        },
                    }
                },
                Form::Block => {
                    let mut es: Vec<Expr> = Vec::new();
                    let mut i: usize = 1;
                    while i < items.len()
                        invariant
                            1 <= i <= items@.len(),
                            es@.len() + 1 == i,
                            block_error(items@, i as nat) is None,
                            block_parses(items@, es@, i as nat),
                        decreases items@.len() - i,
                    {
                        match parse_expr(&items[i]) {
                            Ok(e) => {
                                proof {
                                    lemma_block_parses_extend(items@, es@, e, i as nat);
                                }
                                es.push(e);
                            },
                            Err(err) => {
                                proof {
                                    assert(block_error(items@, (i + 1) as nat) == Some(err));
                                    lemma_block_error_stays(items@, (i + 1) as nat, items@.len());
                                }
                                return Err(err);
                            },
                        }
                        i = i + 1;
                    }
                    Ok(Expr::Block(es))
                },
                Form::Let => {
                    match &items[1] {
                        SExpr::List(bs) => {
                            if bs.len() == 0 {
                                return Err(ParseError::EmptyBindings);
                            }
                            let mut ps: Vec<(String, Expr)> = Vec::new();
                            let mut i: usize = 0;
                            while i < bs.len()
                                invariant
                                    i <= bs@.len(),
                                    ps@.len() == i,
                                    bindings_error(bs@, i as nat) is None,
                                    bindings_parse(bs@, ps@, i as nat),
                                decreases bs@.len() - i,
                            {
                                match parse_bind(&bs[i]) {
                                    Ok(p) => {
                                        proof {
                                            lemma_bindings_parse_extend(bs@, ps@, p, i as nat);
                                        }
                                        ps.push(p);
                                    },
                                    Err(err) => {
                                        proof {
                                            assert(bindings_error(bs@, (i + 1) as nat) == Some(err));
                                            lemma_bindings_error_stays(
                                                bs@,
                                                (i + 1) as nat,
                                                bs@.len(),
                                            );
                                        }
                                        return Err(err);
                                    },
                                }
                                i = i + 1;
                            }
                            let body = parse_expr(&items[2])?;
                            Ok(Expr::Let(ps, Box::new(body)))
                        },
                        _ => {
                            proof {
                                assert(false);
                            }
                            Err(ParseError::UnrecognizedForm)
                        },
                    }
                },
                Form::Unrecognized => Err(ParseError::UnrecognizedForm),
            }
        },
    }
}

/// Parses a single `let` binding `(identifier expr)` into its name and expression.
pub fn parse_bind(s: &SExpr) -> (r: Result<(String, Expr), ParseError>)
    ensures
        match r {
            Ok(p) => binding_error(*s) is None && binding_parses(*s, p),
            Err(err) => binding_error(*s) == Some(err),
        },
    decreases s,
{
    match s {
        SExpr::List(v) => {
            if v.len() == 2 {
                match &v[0] {
                    SExpr::Sym(name) => {
                        if reserved(name.as_str()) || text_eq(name.as_str(), "true")
                            || text_eq(name.as_str(), "false") {
                            return Err(ParseError::ReservedIdentifier);
                        }
                        let e = parse_expr(&v[1])?;
                        Ok((name.clone(), e))
                    },
                    _ => Err(ParseError::BindingForm),
                }
            } else {
                Err(ParseError::BindingForm)
            }
        },
        _ => Err(ParseError::BindingNotList),
    }
}

/// Reads the text of a program and parses it into an expression.
pub fn parse_program(text: &str) -> (r: Result<Expr, ParseError>)
    ensures
        match sexp_reading(text@) {
            None => r == Err::<Expr, ParseError>(ParseError::Syntax),
            Some(t) => match r {
                Ok(e) => parse_error(t) is None && parses_to(t, e),
                Err(err) => parse_error(t) == Some(err),
            },
        },
{
    match read_sexp(text) {
        Ok(tree) => parse_expr(&tree),
        Err(_) => Err(ParseError::Syntax),
    }
}

} // verus!
