//! Labels in generated code: each is defined once, and every jump goes to a
//! label that exists.

use vstd::prelude::*;
use crate::assembly::InstrV;
use crate::assembly::Val;
use crate::ast::{BinOp, Expr, UnOp};
use crate::compiler::{
    label_text, compile_spec, compile_let, compile_block, unop_code, binop_code, tag_test,
    compare_code, num_check, comparison_names, comparison_jump, rax, slot, compile_program_spec,
};
use crate::text::{decimal, digits, lemma_decimal_chars, lemma_decimal_injective, lemma_digits_chars};

verus! {

/// Labels made from different counter values differ, whatever their names.
pub proof fn lemma_label_text_injective(a: Seq<char>, n: int, b: Seq<char>, m: int)
    requires
        label_text(a, n) == label_text(b, m),
    ensures
        n == m,
{
    reveal_strlit("_");
    let s = label_text(a, n);
    let da = decimal(n);
    let db = decimal(m);
    lemma_decimal_chars(n);
    lemma_decimal_chars(m);
    assert(s == a + seq!['_'] + da);
    assert(s == b + seq!['_'] + db);
    if da.len() < db.len() {
        let k = a.len() as int;
        assert(s[k] == '_');
        assert(s[k] == db[k - b.len() - 1]);
        assert(db[k - b.len() - 1] as int == 95);
    } else if db.len() < da.len() {
        let k = b.len() as int;
        assert(s[k] == '_');
        assert(s[k] == da[k - a.len() - 1]);
        assert(da[k - a.len() - 1] as int == 95);
    }
    assert(da =~= s.skip(s.len() - da.len()));
    assert(db =~= s.skip(s.len() - db.len()));
    lemma_decimal_injective(n, m);
}


/// The label that an instruction jumps to, if it is a jump.
pub open spec fn jump_target(i: InstrV) -> Option<Seq<char>> {
    match i {
        InstrV::IJmp(l) => Some(l),
        InstrV::IJne(l) => Some(l),
        InstrV::IJge(l) => Some(l),
        InstrV::IJle(l) => Some(l),
        InstrV::IJg(l) => Some(l),
        InstrV::IJl(l) => Some(l),
        _ => None,
    }
}

/// The labels that `code` defines.
pub open spec fn defined_labels(code: Seq<InstrV>) -> Set<Seq<char>> {
    Set::new(|l: Seq<char>| exists|k: int| 0 <= k < code.len() && code[k] == InstrV::ILabel(l))
}

/// Every jump of `code` goes to a label in `allowed`.
pub open spec fn jumps_within(code: Seq<InstrV>, allowed: Set<Seq<char>>) -> bool {
    forall|k: int|
        0 <= k < code.len() ==> match jump_target(#[trigger] code[k]) {
            Some(l) => allowed.contains(l),
            None => true,
        }
}

/// The labels outside a piece of code that it may jump to: the error
/// handler, and the exit of the loop around it.
pub open spec fn exits(brk: Option<Seq<char>>) -> Set<Seq<char>> {
    match brk {
        Some(l) => set!["throw_error"@, l],
        None => set!["throw_error"@],
    }
}

/// Every jump of `code` goes to a label that it defines or to one of `exits(brk)`.
pub open spec fn jumps_resolved(code: Seq<InstrV>, brk: Option<Seq<char>>) -> bool {
    jumps_within(code, defined_labels(code) + exits(brk))
}

/// The label `l` was made from the counter value `n`.
pub open spec fn numbered(l: Seq<char>, n: int) -> bool {
    exists|name: Seq<char>| l == label_text(name, n)
}

/// The instruction defines no label, or one made from a counter value in `ids`.
pub open spec fn label_numbered_in(i: InstrV, ids: Set<int>) -> bool {
    match i {
        InstrV::ILabel(l) => exists|n: int| ids.contains(n) && numbered(l, n),
        _ => true,
    }
}

/// Every label that `code` defines was made from a counter value in `ids`.
pub open spec fn labels_numbered_in(code: Seq<InstrV>, ids: Set<int>) -> bool {
    forall|k: int| 0 <= k < code.len() ==> label_numbered_in(#[trigger] code[k], ids)
}

/// No label is defined twice in `code`.
pub open spec fn labels_unique(code: Seq<InstrV>) -> bool {
    forall|i: int, j: int|
        0 <= i < code.len() && 0 <= j < code.len() && i != j && (#[trigger] code[i] is ILabel)
            ==> code[i] != #[trigger] code[j]
}

/// The counter values from `lo` (excluded) to `hi` (included).
pub open spec fn ids_between(lo: int, hi: int) -> Set<int> {
    Set::new(|n: int| lo < n <= hi)
}

/// Labels defined once each, all made from counter values in `ids`.
pub open spec fn labels_ok(code: Seq<InstrV>, ids: Set<int>) -> bool {
    labels_numbered_in(code, ids) && labels_unique(code)
}

proof fn lemma_labels_concat(a: Seq<InstrV>, b: Seq<InstrV>, ia: Set<int>, ib: Set<int>)
    requires
        labels_ok(a, ia),
        labels_ok(b, ib),
        ia.disjoint(ib),
    ensures
        labels_ok(a + b, ia + ib),
        defined_labels(a + b) == defined_labels(a) + defined_labels(b),
{
    let c = a + b;
    assert forall|k: int| 0 <= k < c.len() implies label_numbered_in(#[trigger] c[k], ia + ib) by {
        if k < a.len() {
            assert(c[k] == a[k]);
            assert(label_numbered_in(a[k], ia));
            if let InstrV::ILabel(l) = a[k] {
                let n = choose|n: int| ia.contains(n) && numbered(l, n);
                assert((ia + ib).contains(n));
            }
        } else {
            assert(c[k] == b[k - a.len()]);
            assert(label_numbered_in(b[k - a.len()], ib));
            if let InstrV::ILabel(l) = b[k - a.len()] {
                let n = choose|n: int| ib.contains(n) && numbered(l, n);
                assert((ia + ib).contains(n));
            }
        }
    }
    assert forall|i: int, j: int|
        0 <= i < c.len() && 0 <= j < c.len() && i != j && (#[trigger] c[i] is ILabel) implies c[i]
        != #[trigger] c[j] by {
        if i < a.len() && j < a.len() {
            assert(c[i] == a[i] && c[j] == a[j]);
        } else if i >= a.len() && j >= a.len() {
            assert(c[i] == b[i - a.len()] && c[j] == b[j - a.len()]);
        } else if c[i] == c[j] {
            let (x, y) = if i < a.len() {
                (i, j)
            } else {
                (j, i)
            };
            assert(c[x] == a[x] && c[y] == b[y - a.len()]);
            let l = c[x]->ILabel_0;
            assert(label_numbered_in(a[x], ia));
            let n1 = choose|n: int| ia.contains(n) && numbered(l, n);
            assert(label_numbered_in(b[y - a.len()], ib));
            let n2 = choose|n: int| ib.contains(n) && numbered(l, n);
            let nm1 = choose|name: Seq<char>| l == label_text(name, n1);
            let nm2 = choose|name: Seq<char>| l == label_text(name, n2);
            lemma_label_text_injective(nm1, n1, nm2, n2);
        }
    }
    assert(defined_labels(c) =~= defined_labels(a) + defined_labels(b)) by {
        assert forall|l: Seq<char>| defined_labels(c).contains(l) implies (defined_labels(a)
            + defined_labels(b)).contains(l) by {
            let k = choose|k: int| 0 <= k < c.len() && c[k] == InstrV::ILabel(l);
            if k < a.len() {
                assert(a[k] == c[k]);
            } else {
                assert(b[k - a.len()] == c[k]);
            }
        }
        assert forall|l: Seq<char>| (defined_labels(a) + defined_labels(b)).contains(l) implies defined_labels(
            c,
        ).contains(l) by {
            if defined_labels(a).contains(l) {
                let k = choose|k: int| 0 <= k < a.len() && a[k] == InstrV::ILabel(l);
                assert(c[k] == a[k]);
            } else {
                let k = choose|k: int| 0 <= k < b.len() && b[k] == InstrV::ILabel(l);
                assert(c[k + a.len()] == b[k]);
            }
        }
    }
}

proof fn lemma_jumps_concat(a: Seq<InstrV>, b: Seq<InstrV>, allowed: Set<Seq<char>>)
    requires
        jumps_within(a, allowed),
        jumps_within(b, allowed),
    ensures
        jumps_within(a + b, allowed),
{
    let c = a + b;
    assert forall|k: int| 0 <= k < c.len() implies match jump_target(#[trigger] c[k]) {
        Some(l) => allowed.contains(l),
        None => true,
    } by {
        if k < a.len() {
            assert(c[k] == a[k]);
        } else {
            assert(c[k] == b[k - a.len()]);
        }
    }
}

proof fn lemma_jumps_widen(a: Seq<InstrV>, small: Set<Seq<char>>, large: Set<Seq<char>>)
    requires
        jumps_within(a, small),
        small.subset_of(large),
    ensures
        jumps_within(a, large),
{
    assert forall|k: int| 0 <= k < a.len() implies match jump_target(#[trigger] a[k]) {
        Some(l) => large.contains(l),
        None => true,
    } by {
        if let Some(l) = jump_target(a[k]) {
            assert(small.contains(l));
        }
    }
}


proof fn lemma_plain(p: Seq<InstrV>, allowed: Set<Seq<char>>)
    requires
        forall|k: int| 0 <= k < p.len() ==> !(#[trigger] p[k] is ILabel) && jump_target(p[k]) is None,
    ensures
        labels_ok(p, Set::empty()),
        defined_labels(p) == Set::<Seq<char>>::empty(),
        jumps_within(p, allowed),
{
    assert(defined_labels(p) =~= Set::<Seq<char>>::empty());
}

proof fn lemma_single_label(p: Seq<InstrV>, k0: int, l: Seq<char>, n: int)
    requires
        0 <= k0 < p.len(),
        p[k0] == InstrV::ILabel(l),
        numbered(l, n),
        forall|k: int| 0 <= k < p.len() && k != k0 ==> !(#[trigger] p[k] is ILabel),
    ensures
        labels_ok(p, set![n]),
        defined_labels(p) == set![l],
{
    assert(defined_labels(p) =~= set![l]);
    assert forall|k: int| 0 <= k < p.len() implies label_numbered_in(#[trigger] p[k], set![n]) by {
        if k == k0 {
            assert(set![n].contains(n) && numbered(l, n));
        }
    }
    assert forall|i: int, j: int|
        0 <= i < p.len() && 0 <= j < p.len() && i != j && (#[trigger] p[i] is ILabel) implies p[i]
        != #[trigger] p[j] by {
        if j != k0 {
            assert(!(p[j] is ILabel));
        }
    }
}

proof fn lemma_ids_join(lo: int, mid: int, hi: int)
    requires
        lo <= mid <= hi,
    ensures
        ids_between(lo, mid).disjoint(ids_between(mid, hi)),
        ids_between(lo, mid) + ids_between(mid, hi) == ids_between(lo, hi),
{
    assert(ids_between(lo, mid) + ids_between(mid, hi) =~= ids_between(lo, hi));
}

proof fn lemma_tag_test(mask: i64, tag: i64, name: Seq<char>, n: int)
    ensures
        labels_ok(tag_test(mask, tag, label_text(name, n)), set![n]),
        defined_labels(tag_test(mask, tag, label_text(name, n))) == set![label_text(name, n)],
        jumps_within(tag_test(mask, tag, label_text(name, n)), set![label_text(name, n)]),
{
    let l = label_text(name, n);
    let p = tag_test(mask, tag, l);
    assert(numbered(l, n));
    lemma_single_label(p, 6, l, n);
}

proof fn lemma_compare_code(op: BinOp, left: Val, lc: int)
    requires
        !(op is Plus || op is Minus || op is Times),
    ensures
        labels_ok(binop_code(op, left, lc).0, set![lc + 1, lc + 2]),
        jumps_within(binop_code(op, left, lc).0, defined_labels(binop_code(op, left, lc).0)),
        binop_code(op, left, lc).1 == lc + 2,
{
    let else_l = label_text(comparison_names(op).0, lc + 1);
    let end_l = label_text(comparison_names(op).1, lc + 2);
    let p = binop_code(op, left, lc).0;
    assert(p == compare_code(op, left, else_l, end_l));
    assert(numbered(else_l, lc + 1));
    assert(numbered(end_l, lc + 2));
    if else_l == end_l {
        lemma_label_text_injective(comparison_names(op).0, lc + 1, comparison_names(op).1, lc + 2);
    }
    assert(p[4] == InstrV::ILabel(else_l));
    assert(p[6] == InstrV::ILabel(end_l));
    assert(defined_labels(p).contains(else_l));
    assert(defined_labels(p).contains(end_l));
    assert(jump_target(comparison_jump(op, else_l)) == Some(else_l));
    assert forall|k: int| 0 <= k < p.len() implies label_numbered_in(#[trigger] p[k], set![lc + 1, lc + 2]) by {
        if k == 4 {
            assert(set![lc + 1, lc + 2].contains(lc + 1) && numbered(else_l, lc + 1));
        } else if k == 6 {
            assert(set![lc + 1, lc + 2].contains(lc + 2) && numbered(end_l, lc + 2));
        }
    }
    assert forall|i: int, j: int|
        0 <= i < p.len() && 0 <= j < p.len() && i != j && (#[trigger] p[i] is ILabel) implies p[i]
        != #[trigger] p[j] by {
        if (i == 4 || i == 6) && (j == 4 || j == 6) {
            assert(else_l != end_l);
        }
    }
}

proof fn lemma_unop_tail(op: UnOp, lc: int)
    ensures
        unop_code(op, lc).1 == lc + (if op is IsNum || op is IsBool { 1int } else { 0int }),
        labels_ok(unop_code(op, lc).0, ids_between(lc, unop_code(op, lc).1)),
        jumps_within(unop_code(op, lc).0, defined_labels(unop_code(op, lc).0)),
{
    let p = unop_code(op, lc).0;
    match op {
        UnOp::IsNum => {
            lemma_tag_test(crate::tagging::NUM_TAG_MASK, crate::tagging::NUM_TAG, "isnum_skip"@, lc + 1);
            assert(set![lc + 1] =~= ids_between(lc, lc + 1));
        },
        UnOp::IsBool => {
            lemma_tag_test(crate::tagging::BOOL_TAG_MASK, crate::tagging::BOOL_TAG, "isbool_skip"@, lc + 1);
            assert(set![lc + 1] =~= ids_between(lc, lc + 1));
        },
        _ => {
            lemma_plain(p, defined_labels(p));
            assert(Set::<int>::empty() =~= ids_between(lc, lc));
        },
    }
}


proof fn lemma_append_plain(a: Seq<InstrV>, ia: Set<int>, p: Seq<InstrV>)
    requires
        labels_ok(a, ia),
        forall|k: int| 0 <= k < p.len() ==> !(#[trigger] p[k] is ILabel),
    ensures
        labels_ok(a + p, ia),
        defined_labels(a + p) == defined_labels(a),
{
    assert forall|k: int| 0 <= k < p.len() implies label_numbered_in(#[trigger] p[k], Set::empty())
        by {
        assert(!(p[k] is ILabel));
    }
    assert(defined_labels(p) =~= Set::<Seq<char>>::empty());
    lemma_labels_concat(a, p, ia, Set::empty());
    assert(ia + Set::<int>::empty() =~= ia);
    assert(defined_labels(a) + Set::<Seq<char>>::empty() =~= defined_labels(a));
}

proof fn lemma_num_check()
    ensures
        forall|k: int| 0 <= k < num_check().len() ==> !(#[trigger] num_check()[k] is ILabel),
        jumps_within(num_check(), set!["throw_error"@]),
{
}

proof fn lemma_binop_tail(op: BinOp, left: Val, lc: int)
    ensures
        lc <= binop_code(op, left, lc).1,
        labels_ok(binop_code(op, left, lc).0, ids_between(lc, binop_code(op, left, lc).1)),
        jumps_within(binop_code(op, left, lc).0, defined_labels(binop_code(op, left, lc).0)),
{
    let p = binop_code(op, left, lc).0;
    if op is Plus || op is Minus || op is Times {
        lemma_plain(p, defined_labels(p));
        assert(Set::<int>::empty() =~= ids_between(lc, lc));
    } else {
        lemma_compare_code(op, left, lc);
        assert(set![lc + 1, lc + 2] =~= ids_between(lc, lc + 2));
    }
}

proof fn lemma_plain_code(p: Seq<InstrV>, lc: int, brk: Option<Seq<char>>)
    requires
        forall|k: int| 0 <= k < p.len() ==> !(#[trigger] p[k] is ILabel) && jump_target(p[k]) is None,
    ensures
        labels_ok(p, ids_between(lc, lc)),
        jumps_resolved(p, brk),
{
    lemma_plain(p, defined_labels(p) + exits(brk));
    assert(Set::<int>::empty() =~= ids_between(lc, lc));
}

/// A `break` leaves the innermost loop around it: whatever loop encloses a
/// `loop` expression, its code jumps only to labels that it defines itself or
/// to `throw_error`, so no `break` in its body jumps to an outer loop's exit.
pub proof fn lemma_loop_self_contained(
    b: Expr,
    si: int,
    env: Map<Seq<char>, i32>,
    lc: int,
    brk: Option<Seq<char>>,
)
    ensures
        compile_spec(Expr::Loop(Box::new(b)), si, env, lc, brk) matches Ok((code, _))
            ==> jumps_within(code, defined_labels(code) + set!["throw_error"@]),
{
    let e = Expr::Loop(Box::new(b));
    let start_l = label_text("loop_start"@, lc + 1);
    let end_l = label_text("loop_end"@, lc + 2);
    lemma_code_well_formed(b, si, env, lc + 2, Some(end_l));
    if let Ok((ib, _)) = compile_spec(b, si, env, lc + 2, Some(end_l)) {
        let p0 = seq![InstrV::ILabel(start_l)];
        let p4 = seq![InstrV::IJmp(start_l), InstrV::ILabel(end_l)];
        let c1 = p0 + ib;
        let code = c1 + p4;
        assert(code == compile_spec(e, si, env, lc, brk)->Ok_0.0);
        let allowed = defined_labels(code) + set!["throw_error"@];
        assert(code[0] == InstrV::ILabel(start_l));
        assert(code[code.len() - 1] == InstrV::ILabel(end_l));
        assert(allowed.contains(start_l));
        assert(allowed.contains(end_l));
        assert forall|l: Seq<char>| defined_labels(ib).contains(l) implies allowed.contains(l) by {
            let k = choose|k: int| 0 <= k < ib.len() && ib[k] == InstrV::ILabel(l);
            assert(code[k + 1] == ib[k]);
        }
        assert((defined_labels(ib) + exits(Some(end_l))).subset_of(allowed));
        lemma_jumps_widen(ib, defined_labels(ib) + exits(Some(end_l)), allowed);
        assert(jumps_within(p0, allowed));
        assert(jumps_within(p4, allowed));
        lemma_jumps_concat(p0, ib, allowed);
        lemma_jumps_concat(c1, p4, allowed);
    }
}

/// The code of every expression that compiles defines each of its labels
/// once, makes them from the counter values that the compilation used, and
/// jumps only to labels that it defines, to `throw_error`, or to the exit of
/// the enclosing loop.
pub proof fn lemma_code_well_formed(
    e: Expr,
    si: int,
    env: Map<Seq<char>, i32>,
    lc: int,
    brk: Option<Seq<char>>,
)
    ensures
        compile_spec(e, si, env, lc, brk) matches Ok((code, lc2)) ==> {
            &&& lc <= lc2
            &&& labels_ok(code, ids_between(lc, lc2))
            &&& jumps_resolved(code, brk)
        },
    decreases e, 0nat,
{
    match e {
        Expr::Number(_) => {
            if let Ok((code, _)) = compile_spec(e, si, env, lc, brk) {
                lemma_plain_code(code, lc, brk);
            }
        },
        Expr::Bool(_) => {
            if let Ok((code, _)) = compile_spec(e, si, env, lc, brk) {
                lemma_plain_code(code, lc, brk);
            }
        },
        Expr::Id(_) => {
            if let Ok((code, _)) = compile_spec(e, si, env, lc, brk) {
                lemma_plain_code(code, lc, brk);
            }
        },
        Expr::Var(_) => {
            if let Ok((code, _)) = compile_spec(e, si, env, lc, brk) {
                lemma_plain_code(code, lc, brk);
            }
        },
        Expr::Input => {
            if let Ok((code, _)) = compile_spec(e, si, env, lc, brk) {
                lemma_plain_code(code, lc, brk);
            }
        },
        Expr::UnOp(op, a) => {
            lemma_code_well_formed(*a, si, env, lc, brk);
            if let Ok((ia, lc1)) = compile_spec(*a, si, env, lc, brk) {
                let tail = unop_code(op, lc1).0;
                let lc2 = unop_code(op, lc1).1;
                lemma_unop_tail(op, lc1);
                lemma_ids_join(lc, lc1, lc2);
                lemma_labels_concat(ia, tail, ids_between(lc, lc1), ids_between(lc1, lc2));
                let code = ia + tail;
                let allowed = defined_labels(code) + exits(brk);
                lemma_jumps_widen(ia, defined_labels(ia) + exits(brk), allowed);
                lemma_jumps_widen(tail, defined_labels(tail), allowed);
                lemma_jumps_concat(ia, tail, allowed);
            }
        },
        Expr::BinOp(op, l, r) => {
            lemma_code_well_formed(*l, si, env, lc, brk);
            if let Ok((il, lc1)) = compile_spec(*l, si, env, lc, brk) {
                lemma_code_well_formed(*r, si + 1, env, lc1, brk);
                if let Ok((ir, lc2)) = compile_spec(*r, si + 1, env, lc1, brk) {
                    let nc = num_check();
                    let pm = seq![InstrV::IMov(slot(si), rax())];
                    let tail = binop_code(op, slot(si), lc2).0;
                    let lc3 = binop_code(op, slot(si), lc2).1;
                    lemma_binop_tail(op, slot(si), lc2);
                    lemma_num_check();
                    let c1 = il + nc;
                    lemma_append_plain(il, ids_between(lc, lc1), nc);
                    let c2 = c1 + pm;
                    lemma_append_plain(c1, ids_between(lc, lc1), pm);
                    let c3 = c2 + ir;
                    lemma_ids_join(lc, lc1, lc2);
                    lemma_labels_concat(c2, ir, ids_between(lc, lc1), ids_between(lc1, lc2));
                    let c4 = c3 + nc;
                    lemma_append_plain(c3, ids_between(lc, lc2), nc);
                    let code = c4 + tail;
                    lemma_ids_join(lc, lc2, lc3);
                    lemma_labels_concat(c4, tail, ids_between(lc, lc2), ids_between(lc2, lc3));
                    assert(code == compile_spec(e, si, env, lc, brk)->Ok_0.0);
                    let allowed = defined_labels(code) + exits(brk);
                    lemma_jumps_widen(il, defined_labels(il) + exits(brk), allowed);
                    lemma_jumps_widen(nc, set!["throw_error"@], allowed);
                    lemma_plain(pm, allowed);
                    lemma_jumps_widen(ir, defined_labels(ir) + exits(brk), allowed);
                    lemma_jumps_widen(tail, defined_labels(tail), allowed);
                    lemma_jumps_concat(il, nc, allowed);
                    lemma_jumps_concat(c1, pm, allowed);
                    lemma_jumps_concat(c2, ir, allowed);
                    lemma_jumps_concat(c3, nc, allowed);
                    lemma_jumps_concat(c4, tail, allowed);
                }
            }
        },
        Expr::Let(bs, body) => {
            lemma_let_well_formed(bs@, bs@.len(), si, env, lc, brk);
            if let Ok((ib, env1, si1, lc1)) = compile_let(bs@, bs@.len(), si, env, lc, brk) {
                lemma_code_well_formed(*body, si1, env1, lc1, brk);
                if let Ok((ibody, lc2)) = compile_spec(*body, si1, env1, lc1, brk) {
                    lemma_ids_join(lc, lc1, lc2);
                    lemma_labels_concat(ib, ibody, ids_between(lc, lc1), ids_between(lc1, lc2));
                    let code = ib + ibody;
                    let allowed = defined_labels(code) + exits(brk);
                    lemma_jumps_widen(ib, defined_labels(ib) + exits(brk), allowed);
                    lemma_jumps_widen(ibody, defined_labels(ibody) + exits(brk), allowed);
                    lemma_jumps_concat(ib, ibody, allowed);
                }
            }
        },
        Expr::If(c, t, f) => {
            let else_l = label_text("if_else"@, lc + 1);
            let end_l = label_text("if_end"@, lc + 2);
            lemma_code_well_formed(*c, si, env, lc + 2, brk);
            if let Ok((ic, lc1)) = compile_spec(*c, si, env, lc + 2, brk) {
                lemma_code_well_formed(*t, si, env, lc1, brk);
                if let Ok((it, lc2)) = compile_spec(*t, si, env, lc1, brk) {
                    lemma_code_well_formed(*f, si, env, lc2, brk);
                    if let Ok((i_f, lc3)) = compile_spec(*f, si, env, lc2, brk) {
                        let p1 = seq![InstrV::ICmp(rax(), Val::Imm(1)), InstrV::IJne(else_l)];
                        let p2 = seq![InstrV::IJmp(end_l), InstrV::ILabel(else_l)];
                        let p3 = seq![InstrV::ILabel(end_l)];
                        assert(numbered(else_l, lc + 1));
                        assert(numbered(end_l, lc + 2));
                        lemma_single_label(p2, 1, else_l, lc + 1);
                        lemma_single_label(p3, 0, end_l, lc + 2);
                        let c1 = ic + p1;
                        lemma_append_plain(ic, ids_between(lc + 2, lc1), p1);
                        let c2 = c1 + it;
                        lemma_ids_join(lc + 2, lc1, lc2);
                        lemma_labels_concat(c1, it, ids_between(lc + 2, lc1), ids_between(lc1, lc2));
                        let c3 = c2 + p2;
                        lemma_labels_concat(c2, p2, ids_between(lc + 2, lc2), set![lc + 1]);
                        let s3 = ids_between(lc + 2, lc2) + set![lc + 1];
                        let c4 = c3 + i_f;
                        lemma_labels_concat(c3, i_f, s3, ids_between(lc2, lc3));
                        let s4 = s3 + ids_between(lc2, lc3);
                        let code = c4 + p3;
                        lemma_labels_concat(c4, p3, s4, set![lc + 2]);
                        assert(s4 + set![lc + 2] =~= ids_between(lc, lc3));
                        assert(code == compile_spec(e, si, env, lc, brk)->Ok_0.0);
                        let allowed = defined_labels(code) + exits(brk);
                        assert(allowed.contains(else_l));
                        assert(allowed.contains(end_l));
                        lemma_jumps_widen(ic, defined_labels(ic) + exits(brk), allowed);
                        lemma_jumps_widen(it, defined_labels(it) + exits(brk), allowed);
                        lemma_jumps_widen(i_f, defined_labels(i_f) + exits(brk), allowed);
                        assert(jumps_within(p1, allowed));
                        assert(jumps_within(p2, allowed));
                        assert(jumps_within(p3, allowed));
                        lemma_jumps_concat(ic, p1, allowed);
                        lemma_jumps_concat(c1, it, allowed);
                        lemma_jumps_concat(c2, p2, allowed);
                        lemma_jumps_concat(c3, i_f, allowed);
                        lemma_jumps_concat(c4, p3, allowed);
                    }
                }
            }
        },
        Expr::Block(es) => {
            lemma_block_well_formed(es@, es@.len(), si, env, lc, brk);
        },
        Expr::Loop(b) => {
            let start_l = label_text("loop_start"@, lc + 1);
            let end_l = label_text("loop_end"@, lc + 2);
            lemma_code_well_formed(*b, si, env, lc + 2, Some(end_l));
            if let Ok((ib, lc1)) = compile_spec(*b, si, env, lc + 2, Some(end_l)) {
                let p0 = seq![InstrV::ILabel(start_l)];
                let p4 = seq![InstrV::IJmp(start_l), InstrV::ILabel(end_l)];
                assert(numbered(start_l, lc + 1));
                assert(numbered(end_l, lc + 2));
                lemma_single_label(p0, 0, start_l, lc + 1);
                lemma_single_label(p4, 1, end_l, lc + 2);
                let c1 = p0 + ib;
                lemma_labels_concat(p0, ib, set![lc + 1], ids_between(lc + 2, lc1));
                let code = c1 + p4;
                lemma_labels_concat(c1, p4, set![lc + 1] + ids_between(lc + 2, lc1), set![lc + 2]);
                assert(set![lc + 1] + ids_between(lc + 2, lc1) + set![lc + 2] =~= ids_between(
                    lc,
                    lc1,
                ));
                assert(code == compile_spec(e, si, env, lc, brk)->Ok_0.0);
                let allowed = defined_labels(code) + exits(brk);
                assert(allowed.contains(start_l));
                assert(allowed.contains(end_l));
                assert((defined_labels(ib) + exits(Some(end_l))).subset_of(allowed));
                lemma_jumps_widen(ib, defined_labels(ib) + exits(Some(end_l)), allowed);
                assert(jumps_within(p0, allowed));
                assert(jumps_within(p4, allowed));
                lemma_jumps_concat(p0, ib, allowed);
                lemma_jumps_concat(c1, p4, allowed);
            }
        },
        Expr::Break(a) => {
            lemma_code_well_formed(*a, si, env, lc, brk);
            if let Ok((code, _)) = compile_spec(e, si, env, lc, brk) {
                let l = brk->Some_0;
                let (ia, lc1) = compile_spec(*a, si, env, lc, brk)->Ok_0;
                let pj = seq![InstrV::IJmp(l)];
                lemma_append_plain(ia, ids_between(lc, lc1), pj);
                let allowed = defined_labels(code) + exits(brk);
                lemma_jumps_widen(ia, defined_labels(ia) + exits(brk), allowed);
                assert(jumps_within(pj, allowed));
                lemma_jumps_concat(ia, pj, allowed);
            }
        },
        Expr::SetVar(name, a) => {
            lemma_code_well_formed(*a, si, env, lc, brk);
            if let Ok((code, _)) = compile_spec(e, si, env, lc, brk) {
                let (ia, lc1) = compile_spec(*a, si, env, lc, brk)->Ok_0;
                let pm = seq![InstrV::IMov(Val::RegOffset(crate::assembly::Reg::RSP, env[name@]), rax())];
                lemma_append_plain(ia, ids_between(lc, lc1), pm);
                let allowed = defined_labels(code) + exits(brk);
                lemma_jumps_widen(ia, defined_labels(ia) + exits(brk), allowed);
                lemma_plain(pm, allowed);
                lemma_jumps_concat(ia, pm, allowed);
            }
        },
    }
}

/// The same for the first `k` bindings of a `let`.
pub proof fn lemma_let_well_formed(
    bs: Seq<(String, Expr)>,
    k: nat,
    si: int,
    env: Map<Seq<char>, i32>,
    lc: int,
    brk: Option<Seq<char>>,
)
    ensures
        compile_let(bs, k, si, env, lc, brk) matches Ok((code, _, _, lc2)) ==> {
            &&& lc <= lc2
            &&& labels_ok(code, ids_between(lc, lc2))
            &&& jumps_resolved(code, brk)
        },
    decreases bs, k,
{
    if k == 0 || k > bs.len() {
        lemma_plain_code(Seq::empty(), lc, brk);
    } else {
        lemma_let_well_formed(bs, (k - 1) as nat, si, env, lc, brk);
        if let Ok((ib, env1, si1, lc1)) = compile_let(bs, (k - 1) as nat, si, env, lc, brk) {
            lemma_code_well_formed(bs[k - 1].1, si1, env1, lc1, brk);
            if let Ok((code, _, _, lc2)) = compile_let(bs, k, si, env, lc, brk) {
                let (ix, _) = compile_spec(bs[k - 1].1, si1, env1, lc1, brk)->Ok_0;
                let pm = seq![InstrV::IMov(slot(si1), rax())];
                lemma_ids_join(lc, lc1, lc2);
                lemma_labels_concat(ib, ix, ids_between(lc, lc1), ids_between(lc1, lc2));
                lemma_append_plain(ib + ix, ids_between(lc, lc2), pm);
                let allowed = defined_labels(code) + exits(brk);
                lemma_jumps_widen(ib, defined_labels(ib) + exits(brk), allowed);
                lemma_jumps_widen(ix, defined_labels(ix) + exits(brk), allowed);
                lemma_plain(pm, allowed);
                lemma_jumps_concat(ib, ix, allowed);
                lemma_jumps_concat(ib + ix, pm, allowed);
            }
        }
    }
}

/// The same for the first `k` expressions of a block.
pub proof fn lemma_block_well_formed(
    es: Seq<Expr>,
    k: nat,
    si: int,
    env: Map<Seq<char>, i32>,
    lc: int,
    brk: Option<Seq<char>>,
)
    ensures
        compile_block(es, k, si, env, lc, brk) matches Ok((code, lc2)) ==> {
            &&& lc <= lc2
            &&& labels_ok(code, ids_between(lc, lc2))
            &&& jumps_resolved(code, brk)
        },
    decreases es, k,
{
    if k == 0 || k > es.len() {
        lemma_plain_code(Seq::empty(), lc, brk);
    } else {
        lemma_block_well_formed(es, (k - 1) as nat, si, env, lc, brk);
        if let Ok((ib, lc1)) = compile_block(es, (k - 1) as nat, si, env, lc, brk) {
            lemma_code_well_formed(es[k - 1], si, env, lc1, brk);
            if let Ok((ie, lc2)) = compile_spec(es[k - 1], si, env, lc1, brk) {
                lemma_ids_join(lc, lc1, lc2);
                lemma_labels_concat(ib, ie, ids_between(lc, lc1), ids_between(lc1, lc2));
                let code = ib + ie;
                let allowed = defined_labels(code) + exits(brk);
                lemma_jumps_widen(ib, defined_labels(ib) + exits(brk), allowed);
                lemma_jumps_widen(ie, defined_labels(ie) + exits(brk), allowed);
                lemma_jumps_concat(ib, ie, allowed);
            }
        }
    }
}


/// A generated label ends with a decimal digit.
pub(crate) proof fn lemma_label_ends_with_digit(name: Seq<char>, n: int)
    ensures
        label_text(name, n).len() >= 1,
        48 <= (label_text(name, n).last() as int) <= 57,
{
    let d = decimal(n);
    lemma_decimal_chars(n);
    let m: nat = if n < 0 { (-n) as nat } else { n as nat };
    lemma_digits_chars(m);
    assert(d.last() == digits(m).last());
    assert(label_text(name, n).last() == d.last());
}

/// In the code of a whole program no label is defined twice, no label
/// is named like the program's entry point `our_code_starts_here` or its
/// error handler `throw_error`, and every jump goes to a label that the code
/// defines or to `throw_error`.
pub proof fn lemma_program_code_well_formed(e: Expr)
    ensures
        compile_program_spec(e) matches Ok((code, _)) ==> {
            &&& labels_unique(code)
            &&& jumps_within(code, defined_labels(code) + set!["throw_error"@])
            &&& !defined_labels(code).contains("throw_error"@)
            &&& !defined_labels(code).contains("our_code_starts_here"@)
        },
{
    lemma_code_well_formed(e, 2, Map::empty(), 0, None);
    if let Ok((code, lc2)) = compile_program_spec(e) {
        assert(exits(None) == set!["throw_error"@]);
        reveal_strlit("throw_error");
        reveal_strlit("our_code_starts_here");
        assert forall|l: Seq<char>| #[trigger] defined_labels(code).contains(l) implies 48 <= (
        l.last() as int) <= 57 && l.len() >= 1 by {
            let k = choose|k: int| 0 <= k < code.len() && code[k] == InstrV::ILabel(l);
            assert(label_numbered_in(code[k], ids_between(0, lc2)));
            let n = choose|n: int| ids_between(0, lc2).contains(n) && numbered(l, n);
            let name = choose|name: Seq<char>| l == label_text(name, n);
            lemma_label_ends_with_digit(name, n);
        }
        assert("throw_error"@.last() == 'r');
        assert("our_code_starts_here"@.last() == 'e');
    }
}


} // verus!
