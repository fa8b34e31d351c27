//! The machine limits of compilation: the stack slot indices and the label
//! numbers that compiling an expression computes must fit in `i32`.

use vstd::prelude::*;
use crate::ast::{BinOp, Expr, UnOp};

verus! {

/// The number of labels that the operator's own code creates.
pub open spec fn unop_labels(op: UnOp) -> nat {
    match op {
        UnOp::IsNum => 1,
        UnOp::IsBool => 1,
        _ => 0,
    }
}

/// The number of labels that the operator's own code creates.
pub open spec fn binop_labels(op: BinOp) -> nat {
    match op {
        BinOp::Plus => 0,
        BinOp::Minus => 0,
        BinOp::Times => 0,
        _ => 2,
    }
}

/// The number of labels that compiling `e` creates when it succeeds.
pub open spec fn labels_needed(e: Expr) -> nat
    decreases e, 0nat,
{
    match e {
        Expr::UnOp(op, a) => labels_needed(*a) + unop_labels(op),
        Expr::BinOp(op, l, r) => labels_needed(*l) + labels_needed(*r) + binop_labels(op),
        Expr::Let(bs, body) => let_labels(bs@, bs@.len()) + labels_needed(*body),
        Expr::If(c, t, f) => 2 + labels_needed(*c) + labels_needed(*t) + labels_needed(*f),
        Expr::Block(es) => block_labels(es@, es@.len()),
        Expr::Loop(b) => 2 + labels_needed(*b),
        Expr::Break(a) => labels_needed(*a),
        Expr::SetVar(_, a) => labels_needed(*a),
        _ => 0,
    }
}

/// The labels of the first `k` bindings.
pub open spec fn let_labels(bs: Seq<(String, Expr)>, k: nat) -> nat
    decreases bs, k,
{
    if k == 0 || k > bs.len() {
        0
    } else {
        let_labels(bs, (k - 1) as nat) + labels_needed(bs[k - 1].1)
    }
}

/// The labels of the first `k` expressions of a block.
pub open spec fn block_labels(es: Seq<Expr>, k: nat) -> nat
    decreases es, k,
{
    if k == 0 || k > es.len() {
        0
    } else {
        block_labels(es, (k - 1) as nat) + labels_needed(es[k - 1])
    }
}

/// The slot index `s` can be used: `s + 1` fits in `i32`, and so does the
/// offset `-8 * s` and its negation (the text of `[rsp - 8 * s]` writes it).
pub open spec fn slot_ok(s: int) -> bool {
    i32::MIN < -8 * s <= i32::MAX && s + 1 <= i32::MAX
}

/// Every slot index that compiling `e` from the slot `si` computes fits in `i32`.
pub open spec fn slots_fit(e: Expr, si: int) -> bool
    decreases e, 0nat,
{
    match e {
        Expr::UnOp(_, a) => slots_fit(*a, si),
        Expr::BinOp(_, l, r) => slot_ok(si) && slots_fit(*l, si) && slots_fit(*r, si + 1),
        Expr::Let(bs, body) => let_slots_fit(bs@, bs@.len(), si) && slots_fit(*body, si + bs@.len()),
        Expr::If(c, t, f) => slots_fit(*c, si) && slots_fit(*t, si) && slots_fit(*f, si),
        Expr::Block(es) => block_slots_fit(es@, es@.len(), si),
        Expr::Loop(b) => slots_fit(*b, si),
        Expr::Break(a) => slots_fit(*a, si),
        Expr::SetVar(_, a) => slots_fit(*a, si),
        _ => true,
    }
}

/// The first `k` bindings, the one with index `j` compiled from the slot `si + j`, fit.
pub open spec fn let_slots_fit(bs: Seq<(String, Expr)>, k: nat, si: int) -> bool
    decreases bs, k,
{
    if k == 0 || k > bs.len() {
        true
    } else {
        let_slots_fit(bs, (k - 1) as nat, si) && slot_ok(si + k - 1) && slots_fit(
            bs[k - 1].1,
            si + k - 1,
        )
    }
}

/// The first `k` expressions of a block, each compiled from the slot `si`, fit.
pub open spec fn block_slots_fit(es: Seq<Expr>, k: nat, si: int) -> bool
    decreases es, k,
{
    if k == 0 || k > es.len() {
        true
    } else {
        block_slots_fit(es, (k - 1) as nat, si) && slots_fit(es[k - 1], si)
    }
}

/// Compiling `e` stays within the machine integers: its slot indices, and
/// its label counter when it starts at `lc`.
pub open spec fn within_limits(e: Expr, si: int, lc: int) -> bool {
    slots_fit(e, si) && lc + labels_needed(e) <= i32::MAX
}

pub(crate) proof fn lemma_let_slots_at(bs: Seq<(String, Expr)>, k: nat, si: int, i: nat)
    requires
        let_slots_fit(bs, k, si),
        i < k <= bs.len(),
    ensures
        slot_ok(si + i),
        slots_fit(bs[i as int].1, si + i),
    decreases k,
{
    if i + 1 < k {
        lemma_let_slots_at(bs, (k - 1) as nat, si, i);
    }
}

pub(crate) proof fn lemma_block_slots_at(es: Seq<Expr>, k: nat, si: int, i: nat)
    requires
        block_slots_fit(es, k, si),
        i < k <= es.len(),
    ensures
        slots_fit(es[i as int], si),
    decreases k,
{
    if i + 1 < k {
        lemma_block_slots_at(es, (k - 1) as nat, si, i);
    }
}

pub(crate) proof fn lemma_let_labels_mono(bs: Seq<(String, Expr)>, k1: nat, k2: nat)
    requires
        k1 <= k2 <= bs.len(),
    ensures
        let_labels(bs, k1) <= let_labels(bs, k2),
    decreases k2 - k1,
{
    if k1 < k2 {
        lemma_let_labels_mono(bs, k1, (k2 - 1) as nat);
    }
}

pub(crate) proof fn lemma_block_labels_mono(es: Seq<Expr>, k1: nat, k2: nat)
    requires
        k1 <= k2 <= es.len(),
    ensures
        block_labels(es, k1) <= block_labels(es, k2),
    decreases k2 - k1,
{
    if k1 < k2 {
        lemma_block_labels_mono(es, k1, (k2 - 1) as nat);
    }
}

proof fn lemma_let_slots_prefix(bs: Seq<(String, Expr)>, k1: nat, k2: nat, si: int)
    requires
        k1 <= k2 <= bs.len(),
        let_slots_fit(bs, k2, si),
    ensures
        let_slots_fit(bs, k1, si),
    decreases k2 - k1,
{
    if k1 < k2 {
        lemma_let_slots_prefix(bs, k1, (k2 - 1) as nat, si);
    }
}

proof fn lemma_block_slots_prefix(es: Seq<Expr>, k1: nat, k2: nat, si: int)
    requires
        k1 <= k2 <= es.len(),
        block_slots_fit(es, k2, si),
    ensures
        block_slots_fit(es, k1, si),
    decreases k2 - k1,
{
    if k1 < k2 {
        lemma_block_slots_prefix(es, k1, (k2 - 1) as nat, si);
    }
}

fn slot_fits(s: i64) -> (ok: bool)
    requires
        -0x1_0000_0000 <= s <= 0x1_0000_0000,
    ensures
        ok == slot_ok(s as int),
{
    let eight_s: i64 = 8 * s;
    let scaled: i64 = 0 - eight_s;
    (i32::MIN as i64) < scaled && scaled <= i32::MAX as i64 && s + 1 <= i32::MAX as i64
}

/// Whether every slot index that compiling `e` from the slot `si` computes fits in `i32`.
pub fn check_slots(e: &Expr, si: i32) -> (ok: bool)
    ensures
        ok == slots_fit(*e, si as int),
    decreases e,
{
    match e {
        Expr::UnOp(_, a) => check_slots(a, si),
        Expr::BinOp(_, l, r) => {
            if !slot_fits(si as i64) {
                return false;
            }
            check_slots(l, si) && check_slots(r, si + 1)
        },
        Expr::Let(bindings, body) => {
            if !check_binding_slots(bindings, si) {
                return false;
            }
            let n = bindings.len();
            let body_si: i32 = if n == 0 {
                si
            } else {
                proof {
                    lemma_let_slots_at(bindings@, bindings@.len(), si as int, (n - 1) as nat);
                }
                (si as i64 + n as i64) as i32
            };
            check_slots(body, body_si)
        },
        Expr::If(c, t, f) => check_slots(c, si) && check_slots(t, si) && check_slots(f, si),
        Expr::Block(exprs) => check_expr_slots(exprs, si),
        Expr::Loop(b) => check_slots(b, si),
        Expr::Break(a) => check_slots(a, si),
        Expr::SetVar(_, a) => check_slots(a, si),
        _ => true,
    }
}

fn check_binding_slots(bindings: &Vec<(String, Expr)>, si: i32) -> (ok: bool)
    ensures
        ok == let_slots_fit(bindings@, bindings@.len(), si as int),
    decreases bindings,
{
    let n = bindings.len();
    let mut k: usize = 0;
    while k < n
        invariant
            k <= n == bindings@.len(),
            let_slots_fit(bindings@, k as nat, si as int),
            k > 0 ==> si + k <= i32::MAX,
        decreases n - k,
    {
        let s: i64 = if k == 0 {
            si as i64
        } else {
            si as i64 + k as i64
        };
        let fits = slot_fits(s) && check_slots(&bindings[k].1, s as i32);
        if !fits {
            proof {
                lemma_let_slots_prefix_fails(bindings@, (k + 1) as nat, bindings@.len(), si as int);
            }
            return false;
        }
        k = k + 1;
    }
    true
}

proof fn lemma_let_slots_prefix_fails(bs: Seq<(String, Expr)>, k1: nat, k2: nat, si: int)
    requires
        1 <= k1 <= k2 <= bs.len(),
        !let_slots_fit(bs, k1, si),
    ensures
        !let_slots_fit(bs, k2, si),
{
    if let_slots_fit(bs, k2, si) {
        lemma_let_slots_prefix(bs, k1, k2, si);
    }
}

fn check_expr_slots(exprs: &Vec<Expr>, si: i32) -> (ok: bool)
    ensures
        ok == block_slots_fit(exprs@, exprs@.len(), si as int),
    decreases exprs,
{
    let n = exprs.len();
    let mut k: usize = 0;
    while k < n
        invariant
            k <= n == exprs@.len(),
            block_slots_fit(exprs@, k as nat, si as int),
        decreases n - k,
    {
        if !check_slots(&exprs[k], si) {
            proof {
                if block_slots_fit(exprs@, exprs@.len(), si as int) {
                    lemma_block_slots_prefix(exprs@, (k + 1) as nat, exprs@.len(), si as int);
                }
            }
            return false;
        }
        k = k + 1;
    }
    true
}

/// Whether compiling `e` creates at most `budget` labels, and then how many of the budget are left.
pub fn labels_within(e: &Expr, budget: u32) -> (rest: Option<u32>)
    ensures
        match rest {
            Some(r) => labels_needed(*e) <= budget && r == budget - labels_needed(*e),
            None => labels_needed(*e) > budget,
        },
    decreases e,
{
    match e {
        Expr::UnOp(op, a) => {
            let r = labels_within(a, budget)?;
            let own: u32 = match op {
                UnOp::IsNum => 1,
                UnOp::IsBool => 1,
                _ => 0,
            };
            if r >= own {
                Some(r - own)
            } else {
                None
            }
        },
        Expr::BinOp(op, l, r) => {
            let r1 = labels_within(l, budget)?;
            let r2 = labels_within(r, r1)?;
            let own: u32 = match op {
                BinOp::Plus => 0,
                BinOp::Minus => 0,
                BinOp::Times => 0,
                _ => 2,
            };
            if r2 >= own {
                Some(r2 - own)
            } else {
                None
            }
        },
        Expr::Let(bindings, body) => {
            let r1 = binding_labels_within(bindings, budget)?;
            labels_within(body, r1)
        },
        Expr::If(c, t, f) => {
            if budget < 2 {
                return None;
            }
            let r1 = labels_within(c, budget - 2)?;
            let r2 = labels_within(t, r1)?;
            labels_within(f, r2)
        },
        Expr::Block(exprs) => expr_labels_within(exprs, budget),
        Expr::Loop(b) => {
            if budget < 2 {
                return None;
            }
            labels_within(b, budget - 2)
        },
        Expr::Break(a) => labels_within(a, budget),
        Expr::SetVar(_, a) => labels_within(a, budget),
        _ => Some(budget),
    }
}

fn binding_labels_within(bindings: &Vec<(String, Expr)>, budget: u32) -> (rest: Option<u32>)
    ensures
        match rest {
            Some(r) => let_labels(bindings@, bindings@.len()) <= budget && r == budget - let_labels(
                bindings@,
                bindings@.len(),
            ),
            None => let_labels(bindings@, bindings@.len()) > budget,
        },
    decreases bindings,
{
    let n = bindings.len();
    let mut k: usize = 0;
    let mut left = budget;
    while k < n
        invariant
            k <= n == bindings@.len(),
            let_labels(bindings@, k as nat) <= budget,
            left == budget - let_labels(bindings@, k as nat),
        decreases n - k,
    {
        match labels_within(&bindings[k].1, left) {
            Some(r) => {
                left = r;
            },
            None => {
                proof {
                    lemma_let_labels_mono(bindings@, (k + 1) as nat, bindings@.len());
                }
                return None;
            },
        }
        k = k + 1;
    }
    Some(left)
}

fn expr_labels_within(exprs: &Vec<Expr>, budget: u32) -> (rest: Option<u32>)
    ensures
        match rest {
            Some(r) => block_labels(exprs@, exprs@.len()) <= budget && r == budget - block_labels(
                exprs@,
                exprs@.len(),
            ),
            None => block_labels(exprs@, exprs@.len()) > budget,
        },
    decreases exprs,
{
    let n = exprs.len();
    let mut k: usize = 0;
    let mut left = budget;
    while k < n
        invariant
            k <= n == exprs@.len(),
            block_labels(exprs@, k as nat) <= budget,
            left == budget - block_labels(exprs@, k as nat),
        decreases n - k,
    {
        match labels_within(&exprs[k], left) {
            Some(r) => {
                left = r;
            },
            None => {
                proof {
                    lemma_block_labels_mono(exprs@, (k + 1) as nat, exprs@.len());
                }
                return None;
            },
        }
        k = k + 1;
    }
    Some(left)
}

/// Whether compiling `e` from the slot `si` with the label counter at `lc`
/// stays within the machine integers.
pub fn check_limits(e: &Expr, si: i32, lc: i32) -> (ok: bool)
    ensures
        ok == within_limits(*e, si as int, lc as int),
{
    let budget: u32 = (i32::MAX as i64 - lc as i64) as u32;
    check_slots(e, si) && labels_within(e, budget).is_some()
}

/// The larger of two numbers.
pub open spec fn larger(a: nat, b: nat) -> nat {
    if a >= b {
        a
    } else {
        b
    }
}

/// How many stack slots, counted from the first free one, compiling `e`
/// uses: a binary operation keeps its left operand in the first and computes
/// its right one from the next, a `let` stores its bindings one slot after
/// the other and computes its body after them; the other forms use what
/// their parts use.
pub open spec fn slot_depth(e: Expr) -> nat
    decreases e, 0nat,
{
    match e {
        Expr::UnOp(_, a) => slot_depth(*a),
        Expr::BinOp(_, l, r) => larger(larger(1, slot_depth(*l)), 1 + slot_depth(*r)),
        Expr::Let(bs, body) => larger(
            let_depth(bs@, bs@.len()),
            if slot_depth(*body) == 0 {
                0
            } else {
                bs@.len() + slot_depth(*body)
            },
        ),
        Expr::If(c, t, f) => larger(larger(slot_depth(*c), slot_depth(*t)), slot_depth(*f)),
        Expr::Block(es) => block_depth(es@, es@.len()),
        Expr::Loop(b) => slot_depth(*b),
        Expr::Break(a) => slot_depth(*a),
        Expr::SetVar(_, a) => slot_depth(*a),
        _ => 0,
    }
}

/// The slots that the first `k` bindings of a `let` use: binding `j` is
/// stored in slot `j` and computed from there.
pub open spec fn let_depth(bs: Seq<(String, Expr)>, k: nat) -> nat
    decreases bs, k,
{
    if k == 0 || k > bs.len() {
        0
    } else {
        larger(let_depth(bs, (k - 1) as nat), (k - 1) as nat + larger(1, slot_depth(bs[k - 1].1)))
    }
}

/// The slots that the first `k` expressions of a block use.
pub open spec fn block_depth(es: Seq<Expr>, k: nat) -> nat
    decreases es, k,
{
    if k == 0 || k > es.len() {
        0
    } else {
        larger(block_depth(es, (k - 1) as nat), slot_depth(es[k - 1]))
    }
}

/// The `d` slots from `si` on all have indices that fit.
pub open spec fn slots_in_range(si: int, d: nat) -> bool {
    forall|s: int| si <= s < si + d ==> #[trigger] slot_ok(s)
}

proof fn lemma_slot_ok_range(s: int)
    ensures
        slot_ok(s) <==> -268435455 <= s <= 268435455,
{
}

proof fn lemma_range_ends(si: int, d: nat)
    ensures
        slots_in_range(si, d) <==> (d == 0 || (slot_ok(si) && slot_ok(si + d - 1))),
{
    lemma_slot_ok_range(si);
    lemma_slot_ok_range(si + d - 1);
    if d > 0 && slot_ok(si) && slot_ok(si + d - 1) {
        assert forall|s: int| si <= s < si + d implies #[trigger] slot_ok(s) by {
            lemma_slot_ok_range(s);
        }
    }
}

/// The limits check accepts exactly the expressions whose slots all fit:
/// `e` passes from the slot `si` when every one of the `slot_depth(e)` slots
/// it uses from `si` on has an index that fits in the machine's words, and
/// only then. (A form that uses no slot, such as `loop`, adds no condition.)
pub proof fn lemma_slots_fit_iff(e: Expr, si: int)
    ensures
        slots_fit(e, si) <==> slots_in_range(si, slot_depth(e)),
    decreases e, 0nat,
{
    lemma_range_ends(si, slot_depth(e));
    match e {
        Expr::UnOp(_, a) => {
            lemma_slots_fit_iff(*a, si);
        },
        Expr::BinOp(_, l, r) => {
            lemma_slots_fit_iff(*l, si);
            lemma_slots_fit_iff(*r, si + 1);
            lemma_range_ends(si, slot_depth(*l));
            lemma_range_ends(si + 1, slot_depth(*r));
            lemma_slot_ok_range(si);
            lemma_slot_ok_range(si + slot_depth(*l) - 1);
            lemma_slot_ok_range(si + slot_depth(*r));
            lemma_slot_ok_range(si + slot_depth(e) - 1);
        },
        Expr::Let(bs, body) => {
            let n = bs@.len();
            lemma_let_fit_iff(bs@, n, si);
            lemma_slots_fit_iff(*body, si + n);
            lemma_range_ends(si, let_depth(bs@, n));
            lemma_range_ends(si + n, slot_depth(*body));
            lemma_slot_ok_range(si);
            lemma_slot_ok_range(si + let_depth(bs@, n) - 1);
            lemma_slot_ok_range(si + n);
            lemma_slot_ok_range(si + n + slot_depth(*body) - 1);
            lemma_slot_ok_range(si + slot_depth(e) - 1);
        },
        Expr::If(c, t, f) => {
            lemma_slots_fit_iff(*c, si);
            lemma_slots_fit_iff(*t, si);
            lemma_slots_fit_iff(*f, si);
            lemma_range_ends(si, slot_depth(*c));
            lemma_range_ends(si, slot_depth(*t));
            lemma_range_ends(si, slot_depth(*f));
            lemma_slot_ok_range(si);
            lemma_slot_ok_range(si + slot_depth(*c) - 1);
            lemma_slot_ok_range(si + slot_depth(*t) - 1);
            lemma_slot_ok_range(si + slot_depth(*f) - 1);
            lemma_slot_ok_range(si + slot_depth(e) - 1);
        },
        Expr::Block(es) => {
            lemma_block_fit_iff(es@, es@.len(), si);
        },
        Expr::Loop(b) => {
            lemma_slots_fit_iff(*b, si);
        },
        Expr::Break(a) => {
            lemma_slots_fit_iff(*a, si);
        },
        Expr::SetVar(_, a) => {
            lemma_slots_fit_iff(*a, si);
        },
        _ => {},
    }
}

/// The same for the first `k` bindings of a `let`.
pub proof fn lemma_let_fit_iff(bs: Seq<(String, Expr)>, k: nat, si: int)
    ensures
        let_slots_fit(bs, k, si) <==> slots_in_range(si, let_depth(bs, k)),
        k <= bs.len() ==> let_depth(bs, k) >= k,
    decreases bs, k,
{
    lemma_range_ends(si, let_depth(bs, k));
    if k > 0 && k <= bs.len() {
        let d = slot_depth(bs[k - 1].1);
        let p = let_depth(bs, (k - 1) as nat);
        lemma_let_fit_iff(bs, (k - 1) as nat, si);
        lemma_slots_fit_iff(bs[k - 1].1, si + k - 1);
        lemma_range_ends(si, p);
        lemma_range_ends(si + k - 1, d);
        lemma_slot_ok_range(si);
        lemma_slot_ok_range(si + p - 1);
        lemma_slot_ok_range(si + k - 1);
        lemma_slot_ok_range(si + k - 1 + d - 1);
        lemma_slot_ok_range(si + let_depth(bs, k) - 1);
    }
}

/// The same for the first `k` expressions of a block.
pub proof fn lemma_block_fit_iff(es: Seq<Expr>, k: nat, si: int)
    ensures
        block_slots_fit(es, k, si) <==> slots_in_range(si, block_depth(es, k)),
    decreases es, k,
{
    lemma_range_ends(si, block_depth(es, k));
    if k > 0 && k <= es.len() {
        let d = slot_depth(es[k - 1]);
        let p = block_depth(es, (k - 1) as nat);
        lemma_block_fit_iff(es, (k - 1) as nat, si);
        lemma_slots_fit_iff(es[k - 1], si);
        lemma_range_ends(si, p);
        lemma_range_ends(si, d);
        lemma_slot_ok_range(si);
        lemma_slot_ok_range(si + p - 1);
        lemma_slot_ok_range(si + d - 1);
        lemma_slot_ok_range(si + block_depth(es, k) - 1);
    }
}

} // verus!
