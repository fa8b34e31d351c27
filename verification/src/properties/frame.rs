//! Stack slots in generated code: which words an expression's code may write.

use vstd::prelude::*;
use crate::assembly::{InstrV, Reg, Val};
use crate::ast::Expr;
use crate::compiler::{
    label_text, compile_spec, compile_let, compile_block, unop_code, binop_code, num_check, rax,
    slot, compile_program_spec,
};
use crate::limits::{slots_fit, let_slots_fit, block_slots_fit, slot_ok};

verus! {
/// The operand that an instruction writes, if any: the destination of every
/// two-operand instruction but `cmp`.
pub open spec fn written(i: InstrV) -> Option<Val> {
    match i {
        InstrV::IMov(d, _) => Some(d),
        InstrV::IAdd(d, _) => Some(d),
        InstrV::ISub(d, _) => Some(d),
        InstrV::IMul(d, _) => Some(d),
        InstrV::IAnd(d, _) => Some(d),
        InstrV::ISar(d, _) => Some(d),
        _ => None,
    }
}

/// `env` has a variable whose slot is at the offset `off`.
pub open spec fn env_slot(env: Map<Seq<char>, i32>, off: i32) -> bool {
    exists|x: Seq<char>| env.dom().contains(x) && env[x] == off
}

/// The operand is no memory word, or it is a stack slot with an index from
/// `si` on, or the slot of a variable of `env`.
pub open spec fn in_frame(v: Val, si: int, env: Map<Seq<char>, i32>) -> bool {
    match v {
        Val::RegOffset(r, off) => r == Reg::RSP && (env_slot(env, off) || exists|s: int|
            s >= si && v == slot(s)),
        _ => true,
    }
}

/// Every memory word that `code` writes is in the frame given by `si` and `env`.
pub open spec fn stores_in_frame(code: Seq<InstrV>, si: int, env: Map<Seq<char>, i32>) -> bool {
    forall|k: int|
        0 <= k < code.len() ==> match written(#[trigger] code[k]) {
            Some(v) => in_frame(v, si, env),
            None => true,
        }
}

/// Every variable of `env1` has the slot of a variable of `env`, or a slot
/// with an index from `lo` up to `hi` (excluded).
pub open spec fn env_extends(env1: Map<Seq<char>, i32>, env: Map<Seq<char>, i32>, lo: int, hi: int) -> bool {
    forall|x: Seq<char>|
        #[trigger] env1.dom().contains(x) ==> env_slot(env, env1[x]) || exists|s: int|
            lo <= s < hi && Val::RegOffset(Reg::RSP, env1[x]) == slot(s)
}

proof fn lemma_stores_concat(a: Seq<InstrV>, b: Seq<InstrV>, si: int, env: Map<Seq<char>, i32>)
    requires
        stores_in_frame(a, si, env),
        stores_in_frame(b, si, env),
    ensures
        stores_in_frame(a + b, si, env),
{
    let c = a + b;
    assert forall|k: int| 0 <= k < c.len() implies match written(#[trigger] c[k]) {
        Some(v) => in_frame(v, si, env),
        None => true,
    } by {
        if k < a.len() {
            assert(c[k] == a[k]);
        } else {
            assert(c[k] == b[k - a.len()]);
        }
    }
}

proof fn lemma_stores_widen(
    code: Seq<InstrV>,
    si1: int,
    env1: Map<Seq<char>, i32>,
    si: int,
    env: Map<Seq<char>, i32>,
)
    requires
        stores_in_frame(code, si1, env1),
        si <= si1,
        env_extends(env1, env, si, si1),
    ensures
        stores_in_frame(code, si, env),
{
    assert forall|k: int| 0 <= k < code.len() implies match written(#[trigger] code[k]) {
        Some(v) => in_frame(v, si, env),
        None => true,
    } by {
        if let Some(v) = written(code[k]) {
            assert(in_frame(v, si1, env1));
            if let Val::RegOffset(r, off) = v {
                if env_slot(env1, off) {
                    let x = choose|x: Seq<char>| env1.dom().contains(x) && env1[x] == off;
                    assert(env1.dom().contains(x));
                    if !env_slot(env, off) {
                        let s = choose|s: int| si <= s < si1 && Val::RegOffset(Reg::RSP, env1[x]) == slot(s);
                        assert(s >= si && v == slot(s));
                    }
                } else {
                    let s = choose|s: int| s >= si1 && v == slot(s);
                    assert(s >= si && v == slot(s));
                }
            }
        }
    }
}

proof fn lemma_stores_plain(p: Seq<InstrV>, si: int, env: Map<Seq<char>, i32>)
    requires
        forall|k: int| 0 <= k < p.len() ==> !(#[trigger] written(p[k]) matches Some(Val::RegOffset(_, _))),
    ensures
        stores_in_frame(p, si, env),
{
    assert forall|k: int| 0 <= k < p.len() implies match written(#[trigger] p[k]) {
        Some(v) => in_frame(v, si, env),
        None => true,
    } by {
        assert(!(written(p[k]) matches Some(Val::RegOffset(_, _))));
    }
}

proof fn lemma_env_extends_same(env: Map<Seq<char>, i32>, lo: int, hi: int)
    ensures
        env_extends(env, env, lo, hi),
{
    assert forall|x: Seq<char>| #[trigger] env.dom().contains(x) implies env_slot(env, env[x]) by {
        assert(env.dom().contains(x) && env[x] == env[x]);
    }
}

/// Every memory word that the code of an expression writes is a stack slot
/// with an index from `si` on (the first free slot it was compiled with) or
/// the slot of one of the variables in scope.
pub proof fn lemma_stores_in_frame(
    e: Expr,
    si: int,
    env: Map<Seq<char>, i32>,
    lc: int,
    brk: Option<Seq<char>>,
)
    ensures
        compile_spec(e, si, env, lc, brk) matches Ok((code, _)) ==> stores_in_frame(code, si, env),
    decreases e, 0nat,
{
    match e {
        Expr::UnOp(op, a) => {
            lemma_stores_in_frame(*a, si, env, lc, brk);
            if let Ok((ia, lc1)) = compile_spec(*a, si, env, lc, brk) {
                lemma_stores_plain(unop_code(op, lc1).0, si, env);
                lemma_stores_concat(ia, unop_code(op, lc1).0, si, env);
            }
        },
        Expr::BinOp(op, l, r) => {
            lemma_stores_in_frame(*l, si, env, lc, brk);
            if let Ok((il, lc1)) = compile_spec(*l, si, env, lc, brk) {
                lemma_stores_in_frame(*r, si + 1, env, lc1, brk);
                if let Ok((ir, lc2)) = compile_spec(*r, si + 1, env, lc1, brk) {
                    let nc = num_check();
                    let pm = seq![InstrV::IMov(slot(si), rax())];
                    let tail = binop_code(op, slot(si), lc2).0;
                    lemma_stores_plain(nc, si, env);
                    lemma_stores_plain(tail, si, env);
                    assert(in_frame(slot(si), si, env));
                    assert(stores_in_frame(pm, si, env));
                    lemma_env_extends_same(env, si, si + 1);
                    lemma_stores_widen(ir, si + 1, env, si, env);
                    lemma_stores_concat(il, nc, si, env);
                    lemma_stores_concat(il + nc, pm, si, env);
                    lemma_stores_concat(il + nc + pm, ir, si, env);
                    lemma_stores_concat(il + nc + pm + ir, nc, si, env);
                    lemma_stores_concat(il + nc + pm + ir + nc, tail, si, env);
                }
            }
        },
        Expr::Let(bs, body) => {
            lemma_let_stores_in_frame(bs@, bs@.len(), si, env, lc, brk);
            if let Ok((ib, env1, si1, lc1)) = compile_let(bs@, bs@.len(), si, env, lc, brk) {
                lemma_stores_in_frame(*body, si1, env1, lc1, brk);
                if let Ok((ibody, _)) = compile_spec(*body, si1, env1, lc1, brk) {
                    lemma_stores_widen(ibody, si1, env1, si, env);
                    lemma_stores_concat(ib, ibody, si, env);
                }
            }
        },
        Expr::If(c, t, f) => {
            let else_l = label_text("if_else"@, lc + 1);
            let end_l = label_text("if_end"@, lc + 2);
            lemma_stores_in_frame(*c, si, env, lc + 2, brk);
            if let Ok((ic, lc1)) = compile_spec(*c, si, env, lc + 2, brk) {
                lemma_stores_in_frame(*t, si, env, lc1, brk);
                if let Ok((it, lc2)) = compile_spec(*t, si, env, lc1, brk) {
                    lemma_stores_in_frame(*f, si, env, lc2, brk);
                    if let Ok((i_f, lc3)) = compile_spec(*f, si, env, lc2, brk) {
                        let p1 = seq![InstrV::ICmp(rax(), Val::Imm(1)), InstrV::IJne(else_l)];
                        let p2 = seq![InstrV::IJmp(end_l), InstrV::ILabel(else_l)];
                        let p3 = seq![InstrV::ILabel(end_l)];
                        lemma_stores_plain(p1, si, env);
                        lemma_stores_plain(p2, si, env);
                        lemma_stores_plain(p3, si, env);
                        lemma_stores_concat(ic, p1, si, env);
                        lemma_stores_concat(ic + p1, it, si, env);
                        lemma_stores_concat(ic + p1 + it, p2, si, env);
                        lemma_stores_concat(ic + p1 + it + p2, i_f, si, env);
                        lemma_stores_concat(ic + p1 + it + p2 + i_f, p3, si, env);
                    }
                }
            }
        },
        Expr::Block(es) => {
            lemma_block_stores_in_frame(es@, es@.len(), si, env, lc, brk);
        },
        Expr::Loop(b) => {
            let start_l = label_text("loop_start"@, lc + 1);
            let end_l = label_text("loop_end"@, lc + 2);
            lemma_stores_in_frame(*b, si, env, lc + 2, Some(end_l));
            if let Ok((ib, lc1)) = compile_spec(*b, si, env, lc + 2, Some(end_l)) {
                let p0 = seq![InstrV::ILabel(start_l)];
                let p4 = seq![InstrV::IJmp(start_l), InstrV::ILabel(end_l)];
                lemma_stores_plain(p0, si, env);
                lemma_stores_plain(p4, si, env);
                lemma_stores_concat(p0, ib, si, env);
                lemma_stores_concat(p0 + ib, p4, si, env);
            }
        },
        Expr::Break(a) => {
            lemma_stores_in_frame(*a, si, env, lc, brk);
            if let Ok((code, _)) = compile_spec(e, si, env, lc, brk) {
                let (ia, _) = compile_spec(*a, si, env, lc, brk)->Ok_0;
                let pj = seq![InstrV::IJmp(brk->Some_0)];
                lemma_stores_plain(pj, si, env);
                lemma_stores_concat(ia, pj, si, env);
            }
        },
        Expr::SetVar(name, a) => {
            lemma_stores_in_frame(*a, si, env, lc, brk);
            if let Ok((code, _)) = compile_spec(e, si, env, lc, brk) {
                let (ia, _) = compile_spec(*a, si, env, lc, brk)->Ok_0;
                let pm = seq![InstrV::IMov(Val::RegOffset(Reg::RSP, env[name@]), rax())];
                assert(env_slot(env, env[name@]));
                assert(stores_in_frame(pm, si, env));
                lemma_stores_concat(ia, pm, si, env);
            }
        },
        _ => {
            if let Ok((code, _)) = compile_spec(e, si, env, lc, brk) {
                lemma_stores_plain(code, si, env);
            }
        },
    }
}

/// The same for the first `k` bindings of a `let`, whose variables get the
/// slots from `si` on.
pub proof fn lemma_let_stores_in_frame(
    bs: Seq<(String, Expr)>,
    k: nat,
    si: int,
    env: Map<Seq<char>, i32>,
    lc: int,
    brk: Option<Seq<char>>,
)
    ensures
        compile_let(bs, k, si, env, lc, brk) matches Ok((code, env1, si1, _)) ==> {
            &&& stores_in_frame(code, si, env)
            &&& si <= si1
            &&& env_extends(env1, env, si, si1)
        },
    decreases bs, k,
{
    if k == 0 || k > bs.len() {
        lemma_stores_plain(Seq::empty(), si, env);
        lemma_env_extends_same(env, si, si);
    } else {
        lemma_let_stores_in_frame(bs, (k - 1) as nat, si, env, lc, brk);
        if let Ok((ib, env1, si1, lc1)) = compile_let(bs, (k - 1) as nat, si, env, lc, brk) {
            lemma_stores_in_frame(bs[k - 1].1, si1, env1, lc1, brk);
            if let Ok((code, env2, si2, _)) = compile_let(bs, k, si, env, lc, brk) {
                let (ix, _) = compile_spec(bs[k - 1].1, si1, env1, lc1, brk)->Ok_0;
                let pm = seq![InstrV::IMov(slot(si1), rax())];
                lemma_stores_widen(ix, si1, env1, si, env);
                assert(in_frame(slot(si1), si, env));
                assert(stores_in_frame(pm, si, env));
                lemma_stores_concat(ib, ix, si, env);
                lemma_stores_concat(ib + ix, pm, si, env);
                assert(env2 == env1.insert(bs[k - 1].0@, (-8 * si1) as i32));
                assert forall|x: Seq<char>| #[trigger] env2.dom().contains(x) implies env_slot(
                    env,
                    env2[x],
                ) || exists|s: int| si <= s < si2 && Val::RegOffset(Reg::RSP, env2[x]) == slot(s) by {
                    if x == bs[k - 1].0@ {
                        assert(Val::RegOffset(Reg::RSP, env2[x]) == slot(si1));
                    } else {
                        assert(env1.dom().contains(x) && env2[x] == env1[x]);
                        if !env_slot(env, env1[x]) {
                            let s = choose|s: int|
                                si <= s < si1 && Val::RegOffset(Reg::RSP, env1[x]) == slot(s);
                            assert(si <= s < si2);
                        }
                    }
                }
            }
        }
    }
}

/// The same for the first `k` expressions of a block.
pub proof fn lemma_block_stores_in_frame(
    es: Seq<Expr>,
    k: nat,
    si: int,
    env: Map<Seq<char>, i32>,
    lc: int,
    brk: Option<Seq<char>>,
)
    ensures
        compile_block(es, k, si, env, lc, brk) matches Ok((code, _)) ==> stores_in_frame(code, si, env),
    decreases es, k,
{
    if k == 0 || k > es.len() {
        lemma_stores_plain(Seq::empty(), si, env);
    } else {
        lemma_block_stores_in_frame(es, (k - 1) as nat, si, env, lc, brk);
        if let Ok((ib, lc1)) = compile_block(es, (k - 1) as nat, si, env, lc, brk) {
            lemma_stores_in_frame(es[k - 1], si, env, lc1, brk);
            if let Ok((ie, _)) = compile_spec(es[k - 1], si, env, lc1, brk) {
                lemma_stores_concat(ib, ie, si, env);
            }
        }
    }
}

/// A whole program writes no memory but the stack slots from index 2 on:
/// every word it writes is `[rsp - 8 * s]` for some `s >= 2`.
pub proof fn lemma_program_stores_in_frame(e: Expr)
    ensures
        compile_program_spec(e) matches Ok((code, _)) ==> forall|k: int|
            0 <= k < code.len() ==> match written(#[trigger] code[k]) {
                Some(Val::RegOffset(r, off)) => exists|s: int| s >= 2 && Val::RegOffset(r, off) == slot(s),
                _ => true,
            },
{
    lemma_stores_in_frame(e, 2, Map::empty(), 0, None);
    if let Ok((code, _)) = compile_program_spec(e) {
        assert forall|k: int| 0 <= k < code.len() implies match written(#[trigger] code[k]) {
            Some(Val::RegOffset(r, off)) => exists|s: int| s >= 2 && Val::RegOffset(r, off) == slot(s),
            _ => true,
        } by {
            if let Some(Val::RegOffset(r, off)) = written(code[k]) {
                assert(in_frame(Val::RegOffset(r, off), 2, Map::empty()));
                assert(!env_slot(Map::<Seq<char>, i32>::empty(), off));
            }
        }
    }
}

/// Every memory word that `code` writes is a stack word at an offset of at
/// most `bound`, or the slot of a variable of `env`.
pub open spec fn stores_below(code: Seq<InstrV>, bound: int, env: Map<Seq<char>, i32>) -> bool {
    forall|k: int|
        0 <= k < code.len() ==> match written(#[trigger] code[k]) {
            Some(Val::RegOffset(r, off)) => r == Reg::RSP && (env_slot(env, off) || off <= bound),
            _ => true,
        }
}

/// Every variable of `env` has its slot at an offset above `bound`.
pub open spec fn env_above(env: Map<Seq<char>, i32>, bound: int) -> bool {
    forall|x: Seq<char>| #[trigger] env.dom().contains(x) ==> env[x] > bound
}

/// Every variable of `env1` has the slot of a variable of `env`, or a slot at
/// an offset above `lo` and at most `hi`.
pub open spec fn env_between(env1: Map<Seq<char>, i32>, env: Map<Seq<char>, i32>, lo: int, hi: int) -> bool {
    forall|x: Seq<char>|
        #[trigger] env1.dom().contains(x) ==> env_slot(env, env1[x]) || (lo < env1[x] <= hi)
}

proof fn lemma_below_concat(a: Seq<InstrV>, b: Seq<InstrV>, bound: int, env: Map<Seq<char>, i32>)
    requires
        stores_below(a, bound, env),
        stores_below(b, bound, env),
    ensures
        stores_below(a + b, bound, env),
{
    let c = a + b;
    assert forall|k: int| 0 <= k < c.len() implies match written(#[trigger] c[k]) {
        Some(Val::RegOffset(r, off)) => r == Reg::RSP && (env_slot(env, off) || off <= bound),
        _ => true,
    } by {
        if k < a.len() {
            assert(c[k] == a[k]);
        } else {
            assert(c[k] == b[k - a.len()]);
        }
    }
}

proof fn lemma_below_widen(
    code: Seq<InstrV>,
    bound1: int,
    env1: Map<Seq<char>, i32>,
    bound: int,
    env: Map<Seq<char>, i32>,
)
    requires
        stores_below(code, bound1, env1),
        bound1 <= bound,
        env_between(env1, env, i32::MIN - 1, bound),
    ensures
        stores_below(code, bound, env),
{
    assert forall|k: int| 0 <= k < code.len() implies match written(#[trigger] code[k]) {
        Some(Val::RegOffset(r, off)) => r == Reg::RSP && (env_slot(env, off) || off <= bound),
        _ => true,
    } by {
        if let Some(Val::RegOffset(r, off)) = written(code[k]) {
            if env_slot(env1, off) {
                let x = choose|x: Seq<char>| env1.dom().contains(x) && env1[x] == off;
                assert(env1.dom().contains(x));
            }
        }
    }
}

proof fn lemma_below_plain(p: Seq<InstrV>, bound: int, env: Map<Seq<char>, i32>)
    requires
        forall|k: int| 0 <= k < p.len() ==> !(#[trigger] written(p[k]) matches Some(Val::RegOffset(_, _))),
    ensures
        stores_below(p, bound, env),
{
    assert forall|k: int| 0 <= k < p.len() implies match written(#[trigger] p[k]) {
        Some(Val::RegOffset(r, off)) => r == Reg::RSP && (env_slot(env, off) || off <= bound),
        _ => true,
    } by {
        assert(!(written(p[k]) matches Some(Val::RegOffset(_, _))));
    }
}

proof fn lemma_env_between_same(env: Map<Seq<char>, i32>, lo: int, hi: int)
    ensures
        env_between(env, env, lo, hi),
{
    assert forall|x: Seq<char>| #[trigger] env.dom().contains(x) implies env_slot(env, env[x]) by {
        assert(env.dom().contains(x) && env[x] == env[x]);
    }
}

/// The code of an expression whose slot indices fit writes no stack word
/// above the slot `si` it was compiled from, except the slots of the
/// variables in scope: every word it writes is at an offset of at most
/// `-8 * si`, or is a variable's slot.
pub proof fn lemma_stores_below(
    e: Expr,
    si: int,
    env: Map<Seq<char>, i32>,
    lc: int,
    brk: Option<Seq<char>>,
)
    requires
        slots_fit(e, si),
    ensures
        compile_spec(e, si, env, lc, brk) matches Ok((code, _)) ==> stores_below(code, -8 * si, env),
    decreases e, 0nat,
{
    match e {
        Expr::UnOp(op, a) => {
            lemma_stores_below(*a, si, env, lc, brk);
            if let Ok((ia, lc1)) = compile_spec(*a, si, env, lc, brk) {
                lemma_below_plain(unop_code(op, lc1).0, -8 * si, env);
                lemma_below_concat(ia, unop_code(op, lc1).0, -8 * si, env);
            }
        },
        Expr::BinOp(op, l, r) => {
            lemma_stores_below(*l, si, env, lc, brk);
            if let Ok((il, lc1)) = compile_spec(*l, si, env, lc, brk) {
                lemma_stores_below(*r, si + 1, env, lc1, brk);
                if let Ok((ir, lc2)) = compile_spec(*r, si + 1, env, lc1, brk) {
                    let nc = num_check();
                    let pm = seq![InstrV::IMov(slot(si), rax())];
                    let tail = binop_code(op, slot(si), lc2).0;
                    let b = -8 * si;
                    lemma_below_plain(nc, b, env);
                    lemma_below_plain(tail, b, env);
                    assert((b as i32) as int == b);
                    assert(stores_below(pm, b, env));
                    lemma_env_between_same(env, i32::MIN - 1, b);
                    lemma_below_widen(ir, -8 * (si + 1), env, b, env);
                    lemma_below_concat(il, nc, b, env);
                    lemma_below_concat(il + nc, pm, b, env);
                    lemma_below_concat(il + nc + pm, ir, b, env);
                    lemma_below_concat(il + nc + pm + ir, nc, b, env);
                    lemma_below_concat(il + nc + pm + ir + nc, tail, b, env);
                }
            }
        },
        Expr::Let(bs, body) => {
            lemma_let_stores_below(bs@, bs@.len(), si, env, lc, brk);
            lemma_let_slots_index(bs@, bs@.len(), si, env, lc, brk);
            if let Ok((ib, env1, si1, lc1)) = compile_let(bs@, bs@.len(), si, env, lc, brk) {
                lemma_stores_below(*body, si1, env1, lc1, brk);
                if let Ok((ibody, _)) = compile_spec(*body, si1, env1, lc1, brk) {
                    lemma_below_widen(ibody, -8 * si1, env1, -8 * si, env);
                    lemma_below_concat(ib, ibody, -8 * si, env);
                }
            }
        },
        Expr::If(c, t, f) => {
            let else_l = label_text("if_else"@, lc + 1);
            let end_l = label_text("if_end"@, lc + 2);
            let b = -8 * si;
            lemma_stores_below(*c, si, env, lc + 2, brk);
            if let Ok((ic, lc1)) = compile_spec(*c, si, env, lc + 2, brk) {
                lemma_stores_below(*t, si, env, lc1, brk);
                if let Ok((it, lc2)) = compile_spec(*t, si, env, lc1, brk) {
                    lemma_stores_below(*f, si, env, lc2, brk);
                    if let Ok((i_f, lc3)) = compile_spec(*f, si, env, lc2, brk) {
                        let p1 = seq![InstrV::ICmp(rax(), Val::Imm(1)), InstrV::IJne(else_l)];
                        let p2 = seq![InstrV::IJmp(end_l), InstrV::ILabel(else_l)];
                        let p3 = seq![InstrV::ILabel(end_l)];
                        lemma_below_plain(p1, b, env);
                        lemma_below_plain(p2, b, env);
                        lemma_below_plain(p3, b, env);
                        lemma_below_concat(ic, p1, b, env);
                        lemma_below_concat(ic + p1, it, b, env);
                        lemma_below_concat(ic + p1 + it, p2, b, env);
                        lemma_below_concat(ic + p1 + it + p2, i_f, b, env);
                        lemma_below_concat(ic + p1 + it + p2 + i_f, p3, b, env);
                    }
                }
            }
        },
        Expr::Block(es) => {
            lemma_block_stores_below(es@, es@.len(), si, env, lc, brk);
        },
        Expr::Loop(body) => {
            let start_l = label_text("loop_start"@, lc + 1);
            let end_l = label_text("loop_end"@, lc + 2);
            lemma_stores_below(*body, si, env, lc + 2, Some(end_l));
            if let Ok((ib, lc1)) = compile_spec(*body, si, env, lc + 2, Some(end_l)) {
                let p0 = seq![InstrV::ILabel(start_l)];
                let p4 = seq![InstrV::IJmp(start_l), InstrV::ILabel(end_l)];
                lemma_below_plain(p0, -8 * si, env);
                lemma_below_plain(p4, -8 * si, env);
                lemma_below_concat(p0, ib, -8 * si, env);
                lemma_below_concat(p0 + ib, p4, -8 * si, env);
            }
        },
        Expr::Break(a) => {
            lemma_stores_below(*a, si, env, lc, brk);
            if let Ok((code, _)) = compile_spec(e, si, env, lc, brk) {
                let (ia, _) = compile_spec(*a, si, env, lc, brk)->Ok_0;
                let pj = seq![InstrV::IJmp(brk->Some_0)];
                lemma_below_plain(pj, -8 * si, env);
                lemma_below_concat(ia, pj, -8 * si, env);
            }
        },
        Expr::SetVar(name, a) => {
            lemma_stores_below(*a, si, env, lc, brk);
            if let Ok((code, _)) = compile_spec(e, si, env, lc, brk) {
                let (ia, _) = compile_spec(*a, si, env, lc, brk)->Ok_0;
                let pm = seq![InstrV::IMov(Val::RegOffset(Reg::RSP, env[name@]), rax())];
                assert(env_slot(env, env[name@]));
                assert(stores_below(pm, -8 * si, env));
                lemma_below_concat(ia, pm, -8 * si, env);
            }
        },
        _ => {
            if let Ok((code, _)) = compile_spec(e, si, env, lc, brk) {
                lemma_below_plain(code, -8 * si, env);
            }
        },
    }
}

/// The same for the first `k` bindings of a `let`: their variables get the
/// slots from `si` on, at offsets of at most `-8 * si` and above the offset of
/// the next free slot.
pub proof fn lemma_let_stores_below(
    bs: Seq<(String, Expr)>,
    k: nat,
    si: int,
    env: Map<Seq<char>, i32>,
    lc: int,
    brk: Option<Seq<char>>,
)
    requires
        let_slots_fit(bs, k, si),
    ensures
        compile_let(bs, k, si, env, lc, brk) matches Ok((code, env1, si1, _)) ==> {
            &&& stores_below(code, -8 * si, env)
            &&& si <= si1
            &&& env_between(env1, env, -8 * si1, -8 * si)
        },
    decreases bs, k,
{
    if k == 0 || k > bs.len() {
        lemma_below_plain(Seq::empty(), -8 * si, env);
        lemma_env_between_same(env, -8 * si, -8 * si);
    } else {
        lemma_let_stores_below(bs, (k - 1) as nat, si, env, lc, brk);
        if let Ok((ib, env1, si1, lc1)) = compile_let(bs, (k - 1) as nat, si, env, lc, brk) {
            assert(si1 == si + k - 1) by {
                lemma_let_slots_index(bs, (k - 1) as nat, si, env, lc, brk);
            }
            lemma_stores_below(bs[k - 1].1, si1, env1, lc1, brk);
            if let Ok((code, env2, si2, _)) = compile_let(bs, k, si, env, lc, brk) {
                let (ix, _) = compile_spec(bs[k - 1].1, si1, env1, lc1, brk)->Ok_0;
                let pm = seq![InstrV::IMov(slot(si1), rax())];
                let b = -8 * si;
                assert(((-8 * si1) as i32) as int == -8 * si1);
                assert(env_between(env1, env, i32::MIN - 1, b));
                lemma_below_widen(ix, -8 * si1, env1, b, env);
                assert(stores_below(pm, b, env));
                lemma_below_concat(ib, ix, b, env);
                lemma_below_concat(ib + ix, pm, b, env);
                assert(env2 == env1.insert(bs[k - 1].0@, (-8 * si1) as i32));
                assert forall|x: Seq<char>| #[trigger] env2.dom().contains(x) implies env_slot(
                    env,
                    env2[x],
                ) || (-8 * si2 < env2[x] <= b) by {
                    if x != bs[k - 1].0@ {
                        assert(env1.dom().contains(x) && env2[x] == env1[x]);
                    }
                }
            }
        }
    }
}

proof fn lemma_let_slots_index(
    bs: Seq<(String, Expr)>,
    k: nat,
    si: int,
    env: Map<Seq<char>, i32>,
    lc: int,
    brk: Option<Seq<char>>,
)
    ensures
        compile_let(bs, k, si, env, lc, brk) matches Ok((_, _, si1, _)) ==> si1 == si + (
        if k > bs.len() { 0 } else { k as int }),
    decreases k,
{
    if k > 0 && k <= bs.len() {
        lemma_let_slots_index(bs, (k - 1) as nat, si, env, lc, brk);
    }
}

/// The same for the first `k` expressions of a block.
pub proof fn lemma_block_stores_below(
    es: Seq<Expr>,
    k: nat,
    si: int,
    env: Map<Seq<char>, i32>,
    lc: int,
    brk: Option<Seq<char>>,
)
    requires
        block_slots_fit(es, k, si),
    ensures
        compile_block(es, k, si, env, lc, brk) matches Ok((code, _)) ==> stores_below(code, -8 * si, env),
    decreases es, k,
{
    if k == 0 || k > es.len() {
        lemma_below_plain(Seq::empty(), -8 * si, env);
    } else {
        lemma_block_stores_below(es, (k - 1) as nat, si, env, lc, brk);
        if let Ok((ib, lc1)) = compile_block(es, (k - 1) as nat, si, env, lc, brk) {
            lemma_stores_below(es[k - 1], si, env, lc1, brk);
            if let Ok((ie, _)) = compile_spec(es[k - 1], si, env, lc1, brk) {
                lemma_below_concat(ib, ie, -8 * si, env);
            }
        }
    }
}

/// While the right operand of a binary operation is computed, the slot where
/// the left operand waits is kept: the right operand, compiled from the slot
/// `si + 1` as `compile_spec` does for a binary operation at `si`, writes no
/// word at the left operand's slot `si`, when the variables in scope have
/// slots above it.
pub proof fn lemma_left_operand_kept(
    r: Expr,
    si: int,
    env: Map<Seq<char>, i32>,
    lc: int,
    brk: Option<Seq<char>>,
)
    requires
        slot_ok(si),
        slots_fit(r, si + 1),
        env_above(env, -8 * si),
    ensures
        compile_spec(r, si + 1, env, lc, brk) matches Ok((code, _)) ==> forall|k: int|
            0 <= k < code.len() ==> written(#[trigger] code[k]) != Some(slot(si)),
{
    lemma_stores_below(r, si + 1, env, lc, brk);
    if let Ok((code, _)) = compile_spec(r, si + 1, env, lc, brk) {
        assert forall|k: int| 0 <= k < code.len() implies written(#[trigger] code[k]) != Some(slot(si)) by {
            assert(((-8 * si) as i32) as int == -8 * si);
            if written(code[k]) == Some(slot(si)) {
                let off = (-8 * si) as i32;
                if env_slot(env, off) {
                    let x = choose|x: Seq<char>| env.dom().contains(x) && env[x] == off;
                    assert(env.dom().contains(x));
                }
            }
        }
    }
}

/// The bindings of a `let` keep the variables in scope above the next free
/// slot: the environment in which the body is compiled has every slot above
/// the body's first free slot, when the environment around the `let` has
/// every slot above the `let`'s first free slot.
pub proof fn lemma_let_env_above(
    bs: Seq<(String, Expr)>,
    si: int,
    env: Map<Seq<char>, i32>,
    lc: int,
    brk: Option<Seq<char>>,
)
    requires
        let_slots_fit(bs, bs.len(), si),
        env_above(env, -8 * si),
    ensures
        compile_let(bs, bs.len(), si, env, lc, brk) matches Ok((_, env1, si1, _)) ==> env_above(
            env1,
            -8 * si1,
        ),
{
    lemma_let_stores_below(bs, bs.len(), si, env, lc, brk);
    if let Ok((_, env1, si1, _)) = compile_let(bs, bs.len(), si, env, lc, brk) {
        assert forall|x: Seq<char>| #[trigger] env1.dom().contains(x) implies env1[x] > -8 * si1 by {
            if env_slot(env, env1[x]) {
                let y = choose|y: Seq<char>| env.dom().contains(y) && env[y] == env1[x];
                assert(env.dom().contains(y));
            }
        }
    }
}

} // verus!
