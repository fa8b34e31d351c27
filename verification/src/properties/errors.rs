//! When an expression compiles: every name it uses is bound, no `let` binds
//! a name twice, and every `break` is inside a `loop`.

use vstd::prelude::*;
use crate::ast::Expr;
use crate::compiler::{
    compile_spec, compile_let, compile_block, compile_program_spec, bound_before, lookup_code,
};

verus! {

/// The names of the first `k` bindings.
pub open spec fn binding_names(bs: Seq<(String, Expr)>, k: nat) -> Set<Seq<char>>
    decreases k,
{
    if k == 0 || k > bs.len() {
        Set::empty()
    } else {
        binding_names(bs, (k - 1) as nat).insert(bs[k - 1].0@)
    }
}

/// `e` compiles with the variables `names` in scope, inside a `loop` when
/// `in_loop`: each variable it reads or sets is in scope, no `let` in it
/// binds a name twice, and each `break` in it is inside a `loop`.
pub open spec fn compiles(e: Expr, names: Set<Seq<char>>, in_loop: bool) -> bool
    decreases e, 0nat,
{
    match e {
        Expr::Number(_) => true,
        Expr::Bool(_) => true,
        Expr::Input => true,
        Expr::Id(x) => names.contains(x@),
        Expr::Var(x) => names.contains(x@),
        Expr::UnOp(_, a) => compiles(*a, names, in_loop),
        Expr::BinOp(_, l, r) => compiles(*l, names, in_loop) && compiles(*r, names, in_loop),
        Expr::Let(bs, body) => bindings_compile(bs@, bs@.len(), names, in_loop) && compiles(
            *body,
            names + binding_names(bs@, bs@.len()),
            in_loop,
        ),
        Expr::If(c, t, f) => compiles(*c, names, in_loop) && compiles(*t, names, in_loop)
            && compiles(*f, names, in_loop),
        Expr::Block(es) => all_compile(es@, es@.len(), names, in_loop),
        Expr::Loop(b) => compiles(*b, names, true),
        Expr::Break(a) => in_loop && compiles(*a, names, in_loop),
        Expr::SetVar(x, a) => compiles(*a, names, in_loop) && names.contains(x@),
    }
}

/// The first `k` bindings have distinct names, and each expression compiles
/// with the names of the bindings before it in scope.
pub open spec fn bindings_compile(
    bs: Seq<(String, Expr)>,
    k: nat,
    names: Set<Seq<char>>,
    in_loop: bool,
) -> bool
    decreases bs, k,
{
    if k == 0 || k > bs.len() {
        true
    } else {
        &&& bindings_compile(bs, (k - 1) as nat, names, in_loop)
        &&& !binding_names(bs, (k - 1) as nat).contains(bs[k - 1].0@)
        &&& compiles(bs[k - 1].1, names + binding_names(bs, (k - 1) as nat), in_loop)
    }
}

/// The first `k` expressions compile.
pub open spec fn all_compile(es: Seq<Expr>, k: nat, names: Set<Seq<char>>, in_loop: bool) -> bool
    decreases es, k,
{
    if k == 0 || k > es.len() {
        true
    } else {
        all_compile(es, (k - 1) as nat, names, in_loop) && compiles(es[k - 1], names, in_loop)
    }
}

proof fn lemma_binding_names(bs: Seq<(String, Expr)>, k: nat, n: Seq<char>)
    requires
        k <= bs.len(),
    ensures
        binding_names(bs, k).contains(n) <==> bound_before(bs, k as int, n),
    decreases k,
{
    if k > 0 {
        lemma_binding_names(bs, (k - 1) as nat, n);
        if bound_before(bs, k as int, n) && !bound_before(bs, k - 1, n) {
            let j = choose|j: int| 0 <= j < k && #[trigger] bs[j].0@ == n;
            assert(j == k - 1);
        }
    }
}

/// An expression compiles exactly when every name it uses is bound, no
/// `let` in it binds a name twice, and every `break` in it is inside a
/// `loop` (or a loop's exit is given): compiling never fails otherwise.
pub proof fn lemma_compiles_iff(
    e: Expr,
    si: int,
    env: Map<Seq<char>, i32>,
    lc: int,
    brk: Option<Seq<char>>,
)
    ensures
        compile_spec(e, si, env, lc, brk) is Ok <==> compiles(e, env.dom(), brk is Some),
    decreases e, 0nat,
{
    let names = env.dom();
    let il = brk is Some;
    match e {
        Expr::Id(x) => {
            assert(lookup_code(env, x, lc) is Ok <==> names.contains(x@));
        },
        Expr::Var(x) => {
            assert(lookup_code(env, x, lc) is Ok <==> names.contains(x@));
        },
        Expr::UnOp(_, a) => {
            lemma_compiles_iff(*a, si, env, lc, brk);
        },
        Expr::BinOp(_, l, r) => {
            lemma_compiles_iff(*l, si, env, lc, brk);
            if let Ok((_, lc1)) = compile_spec(*l, si, env, lc, brk) {
                lemma_compiles_iff(*r, si + 1, env, lc1, brk);
            }
        },
        Expr::Let(bs, body) => {
            lemma_let_compiles_iff(bs@, bs@.len(), si, env, lc, brk);
            if let Ok((_, env1, si1, lc1)) = compile_let(bs@, bs@.len(), si, env, lc, brk) {
                lemma_compiles_iff(*body, si1, env1, lc1, brk);
            }
        },
        Expr::If(c, t, f) => {
            lemma_compiles_iff(*c, si, env, lc + 2, brk);
            if let Ok((_, lc1)) = compile_spec(*c, si, env, lc + 2, brk) {
                lemma_compiles_iff(*t, si, env, lc1, brk);
                if let Ok((_, lc2)) = compile_spec(*t, si, env, lc1, brk) {
                    lemma_compiles_iff(*f, si, env, lc2, brk);
                }
            }
        },
        Expr::Block(es) => {
            lemma_block_compiles_iff(es@, es@.len(), si, env, lc, brk);
        },
        Expr::Loop(b) => {
            let end_l = crate::compiler::label_text("loop_end"@, lc + 2);
            lemma_compiles_iff(*b, si, env, lc + 2, Some(end_l));
        },
        Expr::Break(a) => {
            lemma_compiles_iff(*a, si, env, lc, brk);
        },
        Expr::SetVar(x, a) => {
            lemma_compiles_iff(*a, si, env, lc, brk);
        },
        _ => {},
    }
}

/// The same for the first `k` bindings of a `let`; when they compile, the
/// variables in scope after them are those before and the bindings' names.
pub proof fn lemma_let_compiles_iff(
    bs: Seq<(String, Expr)>,
    k: nat,
    si: int,
    env: Map<Seq<char>, i32>,
    lc: int,
    brk: Option<Seq<char>>,
)
    ensures
        compile_let(bs, k, si, env, lc, brk) is Ok <==> bindings_compile(
            bs,
            k,
            env.dom(),
            brk is Some,
        ),
        compile_let(bs, k, si, env, lc, brk) matches Ok((_, env1, _, _)) ==> env1.dom()
            == env.dom() + binding_names(bs, k),
    decreases bs, k,
{
    if k == 0 || k > bs.len() {
        assert(env.dom() + Set::<Seq<char>>::empty() =~= env.dom());
    } else {
        lemma_let_compiles_iff(bs, (k - 1) as nat, si, env, lc, brk);
        lemma_binding_names(bs, (k - 1) as nat, bs[k - 1].0@);
        if let Ok((_, env1, si1, lc1)) = compile_let(bs, (k - 1) as nat, si, env, lc, brk) {
            lemma_compiles_iff(bs[k - 1].1, si1, env1, lc1, brk);
            if let Ok((_, env2, _, _)) = compile_let(bs, k, si, env, lc, brk) {
                assert(env2.dom() =~= env.dom() + binding_names(bs, k));
            }
        }
    }
}

/// The same for the first `k` expressions of a block.
pub proof fn lemma_block_compiles_iff(
    es: Seq<Expr>,
    k: nat,
    si: int,
    env: Map<Seq<char>, i32>,
    lc: int,
    brk: Option<Seq<char>>,
)
    ensures
        compile_block(es, k, si, env, lc, brk) is Ok <==> all_compile(es, k, env.dom(), brk is Some),
    decreases es, k,
{
    if k > 0 && k <= es.len() {
        lemma_block_compiles_iff(es, (k - 1) as nat, si, env, lc, brk);
        if let Ok((_, lc1)) = compile_block(es, (k - 1) as nat, si, env, lc, brk) {
            lemma_compiles_iff(es[k - 1], si, env, lc1, brk);
        }
    }
}

/// A whole program compiles exactly when it uses no variable that no `let`
/// around it binds, no `let` in it binds a name twice, and every `break` in
/// it is inside a `loop`.
pub proof fn lemma_program_compiles_iff(e: Expr)
    ensures
        compile_program_spec(e) is Ok <==> compiles(e, Set::empty(), false),
{
    assert(Map::<Seq<char>, i32>::empty().dom() =~= Set::<Seq<char>>::empty());
    lemma_compiles_iff(e, 2, Map::empty(), 0, None);
}

} // verus!
