//! What generated code computes when it runs, for every expression outside
//! loops: besides what runs straight through, the tag tests `isnum` and
//! `isbool`, the comparisons and `if`, whose code jumps forward to its own
//! labels.
//!
//! A jump that is taken skips the instructions up to the label it names;
//! words are mathematical integers, as in the straight-line model.

use vstd::prelude::*;
use crate::assembly::{InstrV, Reg, Val};
use crate::ast::{BinOp, Expr, UnOp};
use crate::compiler::{
    compile_spec, compile_let, compile_block, compile_program_spec, lookup_code, unop_code,
    binop_code, num_check, rax, slot, label_text, comparison_names, compare_code, tag_test,
};
use crate::properties::labels::{
    lemma_code_well_formed, lemma_label_text_injective, lemma_label_ends_with_digit, labels_ok, ids_between, numbered,
    label_numbered_in,
};
use crate::properties::machine::{Machine, Run, step, slot_addr, arith_value, changed_from};
use crate::limits::{slot_ok, slots_fit, within_limits};
use crate::tagging::{TRUE_VAL, FALSE_VAL};

verus! {

/// The machine, and the label that a taken jump is skipping to, if any.
pub struct Control {
    pub machine: Machine,
    pub skipping: Option<Seq<char>>,
}

/// How running code ends: at its end, at `throw_error`, or at an
/// instruction outside the model.
pub enum Flow {
    Go(Control),
    Fault,
    Stuck,
}

/// Whether the conditional or unconditional jump `i` is taken with the
/// compared words `flags` (`cmp a, b` compares `a` with `b`).
pub open spec fn taken(i: InstrV, flags: (int, int)) -> bool {
    match i {
        InstrV::IJmp(_) => true,
        InstrV::IJne(_) => flags.0 != flags.1,
        InstrV::IJge(_) => flags.0 >= flags.1,
        InstrV::IJle(_) => flags.0 <= flags.1,
        InstrV::IJg(_) => flags.0 > flags.1,
        InstrV::IJl(_) => flags.0 < flags.1,
        _ => false,
    }
}

/// The label that the jump `i` names.
pub open spec fn target(i: InstrV) -> Option<Seq<char>> {
    match i {
        InstrV::IJmp(l) => Some(l),
        InstrV::IJne(l) => Some(l),
        InstrV::IJge(l) => Some(l),
        InstrV::IJle(l) => Some(l),
        InstrV::IJg(l) => Some(l),
        InstrV::IJl(l) => Some(l),
        _ => None,
    }
}

/// One instruction: while skipping, only the awaited label counts; a taken
/// jump to `throw_error` stops the program, any other taken jump starts
/// skipping to its label.
pub open spec fn fstep(i: InstrV, c: Control) -> Flow {
    match c.skipping {
        Some(l) => if i == InstrV::ILabel(l) {
            Flow::Go(Control { machine: c.machine, skipping: None })
        } else {
            Flow::Go(c)
        },
        None => match target(i) {
            Some(l) => if !taken(i, c.machine.flags) {
                Flow::Go(c)
            } else if l == "throw_error"@ {
                Flow::Fault
            } else {
                Flow::Go(Control { machine: c.machine, skipping: Some(l) })
            },
            None => match step(i, c.machine) {
                Run::Ran(m) => Flow::Go(Control { machine: m, skipping: None }),
                Run::Fault => Flow::Fault,
                Run::Stuck => Flow::Stuck,
            },
        },
    }
}

/// Runs the instructions of `code` from index `i` on.
pub open spec fn frun_from(code: Seq<InstrV>, i: int, c: Control) -> Flow
    decreases code.len() - i,
{
    if i < 0 || i >= code.len() {
        Flow::Go(c)
    } else {
        match fstep(code[i], c) {
            Flow::Go(c1) => frun_from(code, i + 1, c1),
            r => r,
        }
    }
}

/// Runs `code` from its first instruction.
pub open spec fn frun(code: Seq<InstrV>, c: Control) -> Flow {
    frun_from(code, 0, c)
}

/// Runs `code` after `r`, if `r` reached its end.
pub open spec fn fthen(r: Flow, code: Seq<InstrV>) -> Flow {
    match r {
        Flow::Go(c) => frun(code, c),
        _ => r,
    }
}

/// A machine that runs from the start of a piece of code.
pub open spec fn at_start(m: Machine) -> Control {
    Control { machine: m, skipping: None }
}

/// The answer of a comparison, whose code compares the right operand (in
/// `rax`) with the left one (in its slot) and leaves `TRUE_VAL` when its
/// jump to the `else` label is taken: `<` when `right >= left`, `>` when
/// `right <= left`, `<=` when `right > left`, `>=` when `right < left`, and
/// `=` when they differ.
pub open spec fn answers(op: BinOp, left: int, right: int) -> bool {
    match op {
        BinOp::Less => right >= left,
        BinOp::Greater => right <= left,
        BinOp::LessEq => right > left,
        BinOp::GreaterEq => right < left,
        _ => right != left,
    }
}

/// The word for a yes or no answer.
pub open spec fn answer_word(b: bool) -> int {
    if b {
        TRUE_VAL as int
    } else {
        FALSE_VAL as int
    }
}

/// `e` holds no `loop` and no `break`.
pub open spec fn loop_free(e: Expr) -> bool
    decreases e, 0nat,
{
    match e {
        Expr::Number(_) => true,
        Expr::Bool(_) => true,
        Expr::Id(_) => true,
        Expr::Var(_) => true,
        Expr::Input => true,
        Expr::UnOp(_, a) => loop_free(*a),
        Expr::BinOp(_, l, r) => loop_free(*l) && loop_free(*r),
        Expr::Let(bs, body) => loop_free_bindings(bs@, bs@.len()) && loop_free(*body),
        Expr::If(c, t, f) => loop_free(*c) && loop_free(*t) && loop_free(*f),
        Expr::SetVar(_, a) => loop_free(*a),
        Expr::Block(es) => loop_free_all(es@, es@.len()),
        _ => false,
    }
}

/// The first `k` bindings hold no `loop` and no `break`.
pub open spec fn loop_free_bindings(bs: Seq<(String, Expr)>, k: nat) -> bool
    decreases bs, k,
{
    if k == 0 || k > bs.len() {
        true
    } else {
        loop_free_bindings(bs, (k - 1) as nat) && loop_free(bs[k - 1].1)
    }
}

/// The first `k` expressions hold no `loop` and no `break`.
pub open spec fn loop_free_all(es: Seq<Expr>, k: nat) -> bool
    decreases es, k,
{
    if k == 0 || k > es.len() {
        true
    } else {
        loop_free_all(es, (k - 1) as nat) && loop_free(es[k - 1])
    }
}

/// The value (a word) of the loop-free expression `e` and the memory after
/// it, or `None` where an operand of a binary operation is not a number.
/// As for straight code, with besides: `isnum` gives `TRUE_VAL` when the
/// lowest bit is 0 and `isbool` when it is 1 (else `FALSE_VAL`); a
/// comparison gives the word of its answer on the left operand, read back
/// from its slot, and the right one; `if` runs its first branch when the
/// condition's word is 1 and its second otherwise.
pub open spec fn evaluate(
    e: Expr,
    si: int,
    env: Map<Seq<char>, i32>,
    sp: int,
    mem: Map<int, int>,
    rax: int,
    inp: int,
) -> Option<(int, Map<int, int>)>
    decreases e, 0nat,
{
    match e {
        Expr::Number(n) => Some((2 * n, mem)),
        Expr::Bool(b) => Some((if b { 1int } else { 3int }, mem)),
        Expr::Id(x) => Some((mem[sp + env[x@] as int], mem)),
        Expr::Var(x) => Some((mem[sp + env[x@] as int], mem)),
        Expr::Input => Some((inp, mem)),
        Expr::UnOp(op, a) => match evaluate(*a, si, env, sp, mem, rax, inp) {
            Some((w, m1)) => Some(
                (
                    match op {
                        UnOp::Add1 => w + 2,
                        UnOp::Sub1 => w - 2,
                        UnOp::Negate => w * -1,
                        UnOp::IsNum => answer_word(w % 2 == 0),
                        UnOp::IsBool => answer_word(w % 2 == 1),
                    },
                    m1,
                ),
            ),
            None => None,
        },
        Expr::BinOp(op, l, r) => match evaluate(*l, si, env, sp, mem, rax, inp) {
            None => None,
            Some((wl, m1)) => if wl % 2 != 0 {
                None
            } else {
                match evaluate(*r, si + 1, env, sp, m1.insert(slot_addr(sp, si), wl), wl, inp) {
                    None => None,
                    Some((wr, m3)) => if wr % 2 != 0 {
                        None
                    } else {
                        let left = m3[slot_addr(sp, si)];
                        Some(
                            (
                                match op {
                                    BinOp::Plus => wr + left,
                                    BinOp::Minus => left - wr,
                                    BinOp::Times => (wr * left) / 2,
                                    _ => answer_word(answers(op, left, wr)),
                                },
                                m3,
                            ),
                        )
                    },
                }
            },
        },
        Expr::Let(bs, body) => match evaluate_let(bs@, bs@.len(), si, env, sp, mem, rax, inp) {
            None => None,
            Some((env1, si1, m1, w)) => evaluate(*body, si1, env1, sp, m1, w, inp),
        },
        Expr::If(c, t, f) => match evaluate(*c, si, env, sp, mem, rax, inp) {
            None => None,
            Some((wc, m1)) => if wc == 1 {
                evaluate(*t, si, env, sp, m1, wc, inp)
            } else {
                evaluate(*f, si, env, sp, m1, wc, inp)
            },
        },
        Expr::SetVar(x, a) => match evaluate(*a, si, env, sp, mem, rax, inp) {
            None => None,
            Some((w, m1)) => Some((w, m1.insert(sp + env[x@] as int, w))),
        },
        Expr::Block(es) => evaluate_block(es@, es@.len(), si, env, sp, mem, rax, inp),
        _ => None,
    }
}

/// The first `k` bindings of a `let`: the variables' offsets, the next free
/// slot, the memory and the last value after them.
pub open spec fn evaluate_let(
    bs: Seq<(String, Expr)>,
    k: nat,
    si: int,
    env: Map<Seq<char>, i32>,
    sp: int,
    mem: Map<int, int>,
    rax: int,
    inp: int,
) -> Option<(Map<Seq<char>, i32>, int, Map<int, int>, int)>
    decreases bs, k,
{
    if k == 0 || k > bs.len() {
        Some((env, si, mem, rax))
    } else {
        match evaluate_let(bs, (k - 1) as nat, si, env, sp, mem, rax, inp) {
            None => None,
            Some((env1, si1, m1, w1)) => match evaluate(bs[k - 1].1, si1, env1, sp, m1, w1, inp) {
                None => None,
                Some((w, m2)) => Some(
                    (
                        env1.insert(bs[k - 1].0@, (-8 * si1) as i32),
                        si1 + 1,
                        m2.insert(slot_addr(sp, si1), w),
                        w,
                    ),
                ),
            },
        }
    }
}

/// The first `k` expressions of a block, one after the other.
pub open spec fn evaluate_block(
    es: Seq<Expr>,
    k: nat,
    si: int,
    env: Map<Seq<char>, i32>,
    sp: int,
    mem: Map<int, int>,
    rax: int,
    inp: int,
) -> Option<(int, Map<int, int>)>
    decreases es, k,
{
    if k == 0 || k > es.len() {
        Some((rax, mem))
    } else {
        match evaluate_block(es, (k - 1) as nat, si, env, sp, mem, rax, inp) {
            None => None,
            Some((w1, m1)) => evaluate(es[k - 1], si, env, sp, m1, w1, inp),
        }
    }
}

/// `r` reached its end, not skipping, with `w` in `rax`, the memory `mem`,
/// and the `rsp` and `rdi` of `m`.
pub open spec fn reaches(r: Flow, w: int, mem: Map<int, int>, m: Machine) -> bool {
    r matches Flow::Go(c2) && c2.skipping is None && c2.machine.rax == w && c2.machine.mem == mem
        && c2.machine.rsp == m.rsp && c2.machine.rdi == m.rdi
}

/// Running code from `m` ends as `ev` says.
pub open spec fn flows_as(r: Flow, ev: Option<(int, Map<int, int>)>, m: Machine) -> bool {
    match ev {
        None => r is Fault,
        Some((w, mem)) => reaches(r, w, mem, m),
    }
}

proof fn lemma_frun_shift(a: Seq<InstrV>, b: Seq<InstrV>, j: int, c: Control)
    requires
        0 <= j <= b.len(),
    ensures
        frun_from(a + b, a.len() + j, c) == frun_from(b, j, c),
    decreases b.len() - j,
{
    if j < b.len() {
        assert((a + b)[a.len() + j] == b[j]);
        match fstep(b[j], c) {
            Flow::Go(c1) => lemma_frun_shift(a, b, j + 1, c1),
            _ => {},
        }
    }
}

proof fn lemma_frun_from_concat(a: Seq<InstrV>, b: Seq<InstrV>, i: int, c: Control)
    requires
        0 <= i <= a.len(),
    ensures
        frun_from(a + b, i, c) == fthen(frun_from(a, i, c), b),
    decreases a.len() - i,
{
    if i < a.len() {
        assert((a + b)[i] == a[i]);
        match fstep(a[i], c) {
            Flow::Go(c1) => lemma_frun_from_concat(a, b, i + 1, c1),
            _ => {},
        }
    } else {
        lemma_frun_shift(a, b, 0, c);
    }
}

/// Running two pieces of code one after the other is running the first and
/// then, if it reached its end, the second.
pub proof fn lemma_frun_concat(a: Seq<InstrV>, b: Seq<InstrV>, c: Control)
    ensures
        frun(a + b, c) == fthen(frun(a, c), b),
{
    lemma_frun_from_concat(a, b, 0, c);
}

proof fn lemma_skip_from(code: Seq<InstrV>, l: Seq<char>, i: int, m: Machine)
    requires
        0 <= i <= code.len(),
        forall|k: int| 0 <= k < code.len() ==> code[k] != InstrV::ILabel(l),
    ensures
        frun_from(code, i, Control { machine: m, skipping: Some(l) }) == Flow::Go(
            Control { machine: m, skipping: Some(l) },
        ),
    decreases code.len() - i,
{
    if i < code.len() {
        lemma_skip_from(code, l, i + 1, m);
    }
}

/// Code that does not define the label `l` is passed over while skipping to `l`.
pub proof fn lemma_skip_over(code: Seq<InstrV>, l: Seq<char>, m: Machine)
    requires
        forall|k: int| 0 <= k < code.len() ==> code[k] != InstrV::ILabel(l),
    ensures
        frun(code, Control { machine: m, skipping: Some(l) }) == Flow::Go(
            Control { machine: m, skipping: Some(l) },
        ),
{
    lemma_skip_from(code, l, 0, m);
}

proof fn lemma_frun_one(i: InstrV, c: Control)
    ensures
        frun(seq![i], c) == fstep(i, c),
{
    reveal_with_fuel(frun_from, 2);
}

proof fn lemma_frun_num_check(m: Machine)
    ensures
        m.rax % 2 != 0 ==> frun(num_check(), at_start(m)) is Fault,
        m.rax % 2 == 0 ==> reaches(frun(num_check(), at_start(m)), m.rax, m.mem, m),
{
    reveal_with_fuel(frun_from, 5);
}

proof fn lemma_frun_tag_test(mask: i64, tag: i64, l: Seq<char>, m: Machine)
    requires
        mask == 1,
        l != "throw_error"@,
    ensures
        reaches(
            frun(tag_test(mask, tag, l), at_start(m)),
            answer_word(m.rax % 2 == tag),
            m.mem,
            m,
        ),
{
    reveal_with_fuel(frun_from, 8);
}

proof fn lemma_frun_unop(op: UnOp, lc: int, m: Machine)
    ensures
        reaches(
            frun(unop_code(op, lc).0, at_start(m)),
            match op {
                UnOp::Add1 => m.rax + 2,
                UnOp::Sub1 => m.rax - 2,
                UnOp::Negate => m.rax * -1,
                UnOp::IsNum => answer_word(m.rax % 2 == 0),
                UnOp::IsBool => answer_word(m.rax % 2 == 1),
            },
            m.mem,
            m,
        ),
{
    match op {
        UnOp::IsNum => {
            lemma_not_error_handler("isnum_skip"@, lc + 1);
            lemma_frun_tag_test(1, 0, label_text("isnum_skip"@, lc + 1), m);
        },
        UnOp::IsBool => {
            lemma_not_error_handler("isbool_skip"@, lc + 1);
            lemma_frun_tag_test(1, 1, label_text("isbool_skip"@, lc + 1), m);
        },
        _ => lemma_frun_one(unop_code(op, lc).0[0], at_start(m)),
    }
}

/// The code of a comparison, run with the right operand in `rax` and the
/// left one in the slot `si`, leaves the word of its answer in `rax`: it
/// compares `rax` with the slot, in that order.
pub proof fn lemma_comparison_code(op: BinOp, si: int, lc: int, m: Machine)
    requires
        !(op is Plus || op is Minus || op is Times),
    ensures
        reaches(
            frun(binop_code(op, slot(si), lc).0, at_start(m)),
            answer_word(answers(op, m.mem[m.rsp + slot(si)->RegOffset_1 as int], m.rax)),
            m.mem,
            m,
        ),
{
    let else_l = label_text(comparison_names(op).0, lc + 1);
    let end_l = label_text(comparison_names(op).1, lc + 2);
    if else_l == end_l {
        lemma_label_text_injective(comparison_names(op).0, lc + 1, comparison_names(op).1, lc + 2);
    }
    lemma_not_error_handler(comparison_names(op).0, lc + 1);
    lemma_not_error_handler(comparison_names(op).1, lc + 2);
    assert(binop_code(op, slot(si), lc).0 == compare_code(op, slot(si), else_l, end_l));
    reveal_with_fuel(frun_from, 8);
}

proof fn lemma_frun_arith_tail(op: BinOp, si: int, lc: int, m: Machine)
    requires
        op is Plus || op is Minus || op is Times,
    ensures
        reaches(
            frun(binop_code(op, slot(si), lc).0, at_start(m)),
            match op {
                BinOp::Plus => m.rax + m.mem[m.rsp + slot(si)->RegOffset_1 as int],
                BinOp::Minus => m.mem[m.rsp + slot(si)->RegOffset_1 as int] - m.rax,
                _ => (m.rax * m.mem[m.rsp + slot(si)->RegOffset_1 as int]) / 2,
            },
            m.mem,
            m,
        ),
{
    reveal_with_fuel(frun_from, 4);
}

proof fn lemma_not_error_handler(name: Seq<char>, n: int)
    ensures
        label_text(name, n) != "throw_error"@,
{
    reveal_strlit("throw_error");
    lemma_label_ends_with_digit(name, n);
}

proof fn lemma_label_absent(code: Seq<InstrV>, lo: int, hi: int, name: Seq<char>, n: int)
    requires
        labels_ok(code, ids_between(lo, hi)),
        n <= lo,
    ensures
        forall|k: int| 0 <= k < code.len() ==> code[k] != InstrV::ILabel(label_text(name, n)),
{
    assert forall|k: int| 0 <= k < code.len() implies code[k] != InstrV::ILabel(
        label_text(name, n),
    ) by {
        if code[k] == InstrV::ILabel(label_text(name, n)) {
            assert(label_numbered_in(code[k], ids_between(lo, hi)));
            let j = choose|j: int| ids_between(lo, hi).contains(j) && numbered(
                label_text(name, n),
                j,
            );
            let nm = choose|nm: Seq<char>| label_text(name, n) == label_text(nm, j);
            lemma_label_text_injective(name, n, nm, j);
        }
    }
}

proof fn lemma_if_tail(
    it: Seq<InstrV>,
    i_f: Seq<InstrV>,
    else_l: Seq<char>,
    end_l: Seq<char>,
    m1: Machine,
)
    requires
        else_l != end_l,
        else_l != "throw_error"@,
        end_l != "throw_error"@,
        forall|k: int| 0 <= k < it.len() ==> it[k] != InstrV::ILabel(else_l),
        forall|k: int| 0 <= k < i_f.len() ==> i_f[k] != InstrV::ILabel(end_l),
    ensures
        ({
            let mf = Machine { flags: (m1.rax, 1), ..m1 };
            let rest = seq![InstrV::ICmp(rax(), Val::Imm(1)), InstrV::IJne(else_l)] + it + seq![
                InstrV::IJmp(end_l),
                InstrV::ILabel(else_l),
            ] + i_f + seq![InstrV::ILabel(end_l)];
            &&& m1.rax == 1 ==> match frun(it, at_start(mf)) {
                Flow::Go(c2) => c2.skipping is None ==> frun(rest, at_start(m1)) == Flow::Go(
                    at_start(c2.machine),
                ),
                Flow::Fault => frun(rest, at_start(m1)) is Fault,
                Flow::Stuck => true,
            }
            &&& m1.rax != 1 ==> match frun(i_f, at_start(mf)) {
                Flow::Go(c3) => c3.skipping is None ==> frun(rest, at_start(m1)) == Flow::Go(c3),
                Flow::Fault => frun(rest, at_start(m1)) is Fault,
                Flow::Stuck => true,
            }
        }),
{
    let mf = Machine { flags: (m1.rax, 1), ..m1 };
    let p1 = seq![InstrV::ICmp(rax(), Val::Imm(1)), InstrV::IJne(else_l)];
    let p2 = seq![InstrV::IJmp(end_l), InstrV::ILabel(else_l)];
    let p3 = seq![InstrV::ILabel(end_l)];
    let c1 = at_start(m1);
    lemma_frun_concat(p1, it, c1);
    lemma_frun_concat(p1 + it, p2, c1);
    lemma_frun_concat(p1 + it + p2, i_f, c1);
    lemma_frun_concat(p1 + it + p2 + i_f, p3, c1);
    reveal_with_fuel(frun_from, 3);
    if m1.rax == 1 {
        assert(frun(p1, c1) == Flow::Go(at_start(mf)));
        if let Flow::Go(c2) = frun(it, at_start(mf)) {
            if c2.skipping is None {
                let c2s = Control { machine: c2.machine, skipping: Some(end_l) };
                assert(frun(p2, c2) == Flow::Go(c2s));
                lemma_skip_over(i_f, end_l, c2.machine);
                assert(frun(p3, c2s) == Flow::Go(at_start(c2.machine)));
            }
        }
    } else {
        let c1s = Control { machine: mf, skipping: Some(else_l) };
        assert(frun(p1, c1) == Flow::Go(c1s));
        lemma_skip_over(it, else_l, mf);
        assert(frun(p2, c1s) == Flow::Go(at_start(mf)));
        if let Flow::Go(c3) = frun(i_f, at_start(mf)) {
            if c3.skipping is None {
                assert(frun(p3, c3) == Flow::Go(c3));
            }
        }
    }
}

/// The code of every loop-free expression that compiles computes what
/// `evaluate` says: run from any machine `m`, it jumps to `throw_error`
/// exactly where an operand of a binary operation is not a number, and
/// otherwise reaches its end with the expression's value in `rax` and the
/// memory that `evaluate` gives, with `rsp` and `rdi` unchanged. In
/// particular a comparison compares its right operand (in `rax`) with its
/// left one (in its slot), and `if` runs its first branch exactly when the
/// condition's word is 1.
pub proof fn lemma_flow_computes(
    e: Expr,
    si: int,
    env: Map<Seq<char>, i32>,
    lc: int,
    brk: Option<Seq<char>>,
    m: Machine,
)
    requires
        loop_free(e),
    ensures
        compile_spec(e, si, env, lc, brk) matches Ok((code, _)) ==> flows_as(
            frun(code, at_start(m)),
            evaluate(e, si, env, m.rsp, m.mem, m.rax, m.rdi),
            m,
        ),
    decreases e, 0nat,
{
    let c = at_start(m);
    match e {
        Expr::Number(n) => {
            lemma_frun_one(InstrV::IMov(rax(), Val::Imm((2 * n) as i64)), c);
        },
        Expr::Bool(b) => {
            lemma_frun_one(InstrV::IMov(rax(), Val::Imm(if b { 1 } else { 3 })), c);
        },
        Expr::Id(x) => {
            if env.dom().contains(x@) {
                let code = lookup_code(env, x, lc)->Ok_0.0;
                lemma_frun_one(code[0], c);
                assert(code =~= seq![code[0]]);
            }
        },
        Expr::Var(x) => {
            if env.dom().contains(x@) {
                let code = lookup_code(env, x, lc)->Ok_0.0;
                lemma_frun_one(code[0], c);
                assert(code =~= seq![code[0]]);
            }
        },
        Expr::Input => {
            lemma_frun_one(InstrV::IMov(rax(), Val::Reg(Reg::RDI)), c);
        },
        Expr::UnOp(op, a) => {
            lemma_flow_computes(*a, si, env, lc, brk, m);
            if let Ok((ia, lc1)) = compile_spec(*a, si, env, lc, brk) {
                let tail = unop_code(op, lc1).0;
                lemma_frun_concat(ia, tail, c);
                if let Flow::Go(c1) = frun(ia, c) {
                    lemma_frun_unop(op, lc1, c1.machine);
                }
            }
        },
        Expr::BinOp(op, l, r) => {
            lemma_flow_computes(*l, si, env, lc, brk, m);
            if let Ok((il, lc1)) = compile_spec(*l, si, env, lc, brk) {
                if let Ok((ir, lc2)) = compile_spec(*r, si + 1, env, lc1, brk) {
                    let nc = num_check();
                    let pm = seq![InstrV::IMov(slot(si), rax())];
                    let tail = binop_code(op, slot(si), lc2).0;
                    lemma_frun_concat(il, nc, c);
                    lemma_frun_concat(il + nc, pm, c);
                    lemma_frun_concat(il + nc + pm, ir, c);
                    lemma_frun_concat(il + nc + pm + ir, nc, c);
                    lemma_frun_concat(il + nc + pm + ir + nc, tail, c);
                    if let Flow::Go(c1) = frun(il, c) {
                        lemma_frun_num_check(c1.machine);
                        if let Flow::Go(c1n) = frun(nc, c1) {
                            lemma_frun_one(InstrV::IMov(slot(si), rax()), c1n);
                            if let Flow::Go(c2) = frun(pm, c1n) {
                                lemma_flow_computes(*r, si + 1, env, lc1, brk, c2.machine);
                                if let Flow::Go(c3) = frun(ir, c2) {
                                    lemma_frun_num_check(c3.machine);
                                    if let Flow::Go(c3n) = frun(nc, c3) {
                                        if op is Plus || op is Minus || op is Times {
                                            lemma_frun_arith_tail(op, si, lc2, c3n.machine);
                                        } else {
                                            lemma_comparison_code(op, si, lc2, c3n.machine);
                                        }
                                    }
                                }
                            }
                        }
                    }
                }
            }
        },
        Expr::Let(bs, body) => {
            lemma_let_flow(bs@, bs@.len(), si, env, lc, brk, m);
            if let Ok((ib, env1, si1, lc1)) = compile_let(bs@, bs@.len(), si, env, lc, brk) {
                if let Ok((ibody, _)) = compile_spec(*body, si1, env1, lc1, brk) {
                    lemma_frun_concat(ib, ibody, c);
                    if let Flow::Go(c1) = frun(ib, c) {
                        lemma_flow_computes(*body, si1, env1, lc1, brk, c1.machine);
                    }
                }
            }
        },
        Expr::If(cnd, t, f) => {
            let else_l = label_text("if_else"@, lc + 1);
            let end_l = label_text("if_end"@, lc + 2);
            lemma_flow_computes(*cnd, si, env, lc + 2, brk, m);
            lemma_code_well_formed(*cnd, si, env, lc + 2, brk);
            if let Ok((ic, lc1)) = compile_spec(*cnd, si, env, lc + 2, brk) {
                lemma_code_well_formed(*t, si, env, lc1, brk);
                if let Ok((it, lc2)) = compile_spec(*t, si, env, lc1, brk) {
                    lemma_code_well_formed(*f, si, env, lc2, brk);
                    if let Ok((i_f, lc3)) = compile_spec(*f, si, env, lc2, brk) {
                        if else_l == end_l {
                            lemma_label_text_injective("if_else"@, lc + 1, "if_end"@, lc + 2);
                        }
                        lemma_label_absent(it, lc1, lc2, "if_else"@, lc + 1);
                        lemma_label_absent(i_f, lc2, lc3, "if_end"@, lc + 2);
                        lemma_not_error_handler("if_else"@, lc + 1);
                        lemma_not_error_handler("if_end"@, lc + 2);
                        let p1 = seq![InstrV::ICmp(rax(), Val::Imm(1)), InstrV::IJne(else_l)];
                        let rest = p1 + it + seq![InstrV::IJmp(end_l), InstrV::ILabel(else_l)]
                            + i_f + seq![InstrV::ILabel(end_l)];
                        assert(compile_spec(e, si, env, lc, brk)->Ok_0.0 =~= ic + rest);
                        lemma_frun_concat(ic, rest, c);
                        if let Flow::Go(c1) = frun(ic, c) {
                            let m1 = c1.machine;
                            let mf = Machine { flags: (m1.rax, 1), ..m1 };
                            lemma_if_tail(it, i_f, else_l, end_l, m1);
                            if m1.rax == 1 {
                                lemma_flow_computes(*t, si, env, lc1, brk, mf);
                            } else {
                                lemma_flow_computes(*f, si, env, lc2, brk, mf);
                            }
                        }
                    }
                }
            }
        },
        Expr::SetVar(x, a) => {
            lemma_flow_computes(*a, si, env, lc, brk, m);
            if let Ok(_) = compile_spec(e, si, env, lc, brk) {
                let (ia, _) = compile_spec(*a, si, env, lc, brk)->Ok_0;
                let pm = seq![InstrV::IMov(Val::RegOffset(Reg::RSP, env[x@]), rax())];
                lemma_frun_concat(ia, pm, c);
                if let Flow::Go(c1) = frun(ia, c) {
                    lemma_frun_one(pm[0], c1);
                }
            }
        },
        Expr::Block(es) => {
            lemma_block_flow(es@, es@.len(), si, env, lc, brk, m);
        },
        _ => {},
    }
}

/// The same for the first `k` bindings of a `let`.
pub proof fn lemma_let_flow(
    bs: Seq<(String, Expr)>,
    k: nat,
    si: int,
    env: Map<Seq<char>, i32>,
    lc: int,
    brk: Option<Seq<char>>,
    m: Machine,
)
    requires
        loop_free_bindings(bs, k),
    ensures
        compile_let(bs, k, si, env, lc, brk) matches Ok((code, env1, si1, _)) ==> match evaluate_let(
            bs,
            k,
            si,
            env,
            m.rsp,
            m.mem,
            m.rax,
            m.rdi,
        ) {
            None => frun(code, at_start(m)) is Fault,
            Some((env2, si2, mem2, w)) => env2 == env1 && si2 == si1 && reaches(
                frun(code, at_start(m)),
                w,
                mem2,
                m,
            ),
        },
    decreases bs, k,
{
    let c = at_start(m);
    if k == 0 || k > bs.len() {
    } else {
        lemma_let_flow(bs, (k - 1) as nat, si, env, lc, brk, m);
        if let Ok((ib, env1, si1, lc1)) = compile_let(bs, (k - 1) as nat, si, env, lc, brk) {
            if let Ok((ix, _)) = compile_spec(bs[k - 1].1, si1, env1, lc1, brk) {
                let pm = seq![InstrV::IMov(slot(si1), rax())];
                lemma_frun_concat(ib, ix, c);
                lemma_frun_concat(ib + ix, pm, c);
                if let Flow::Go(c1) = frun(ib, c) {
                    lemma_flow_computes(bs[k - 1].1, si1, env1, lc1, brk, c1.machine);
                    if let Flow::Go(c2) = frun(ix, c1) {
                        lemma_frun_one(pm[0], c2);
                    }
                }
            }
        }
    }
}

/// The same for the first `k` expressions of a block.
pub proof fn lemma_block_flow(
    es: Seq<Expr>,
    k: nat,
    si: int,
    env: Map<Seq<char>, i32>,
    lc: int,
    brk: Option<Seq<char>>,
    m: Machine,
)
    requires
        loop_free_all(es, k),
    ensures
        compile_block(es, k, si, env, lc, brk) matches Ok((code, _)) ==> flows_as(
            frun(code, at_start(m)),
            evaluate_block(es, k, si, env, m.rsp, m.mem, m.rax, m.rdi),
            m,
        ),
    decreases es, k,
{
    let c = at_start(m);
    if k > 0 && k <= es.len() {
        lemma_block_flow(es, (k - 1) as nat, si, env, lc, brk, m);
        if let Ok((ib, lc1)) = compile_block(es, (k - 1) as nat, si, env, lc, brk) {
            if let Ok((ie, _)) = compile_spec(es[k - 1], si, env, lc1, brk) {
                lemma_frun_concat(ib, ie, c);
                if let Flow::Go(c1) = frun(ib, c) {
                    lemma_flow_computes(es[k - 1], si, env, lc1, brk, c1.machine);
                }
            }
        }
    }
}

proof fn lemma_arith_evaluate(
    e: Expr,
    si: int,
    env: Map<Seq<char>, i32>,
    lc: int,
    brk: Option<Seq<char>>,
    sp: int,
    mem: Map<int, int>,
    rax: int,
    inp: int,
)
    requires
        arith_value(e) is Some,
        slots_fit(e, si),
    ensures
        loop_free(e),
        compile_spec(e, si, env, lc, brk) is Ok,
        evaluate(e, si, env, sp, mem, rax, inp) matches Some((w, mem2)) && w == 2 * arith_value(
            e,
        )->Some_0 && changed_from(mem, mem2, sp, si),
    decreases e,
{
    match e {
        Expr::UnOp(op, a) => {
            lemma_arith_evaluate(*a, si, env, lc, brk, sp, mem, rax, inp);
        },
        Expr::BinOp(op, l, r) => {
            let a = arith_value(*l)->Some_0;
            let b = arith_value(*r)->Some_0;
            lemma_arith_evaluate(*l, si, env, lc, brk, sp, mem, rax, inp);
            let lc1 = compile_spec(*l, si, env, lc, brk)->Ok_0.1;
            let m1 = evaluate(*l, si, env, sp, mem, rax, inp)->Some_0.1;
            let x = slot_addr(sp, si);
            assert(x == sp - 8 * si);
            let m2 = m1.insert(x, 2 * a);
            lemma_arith_evaluate(*r, si + 1, env, lc1, brk, sp, m2, 2 * a, inp);
            let m3 = evaluate(*r, si + 1, env, sp, m2, 2 * a, inp)->Some_0.1;
            if m3[x] != m2[x] {
                let j = choose|j: int| j >= si + 1 && slot_ok(j) && x == sp - 8 * j;
                assert(false);
            }
            assert(m3[x] == 2 * a);
            assert((2 * b) * (2 * a) / 2 == 2 * (a * b)) by (nonlinear_arith);
            assert forall|y: int| #[trigger] m3[y] != mem[y] implies exists|j: int|
                j >= si && slot_ok(j) && y == sp - 8 * j by {
                if m3[y] != m2[y] {
                    let j = choose|j: int| j >= si + 1 && slot_ok(j) && y == sp - 8 * j;
                    assert(j >= si && slot_ok(j) && y == sp - 8 * j);
                } else if y == x {
                    assert(si >= si && slot_ok(si) && y == sp - 8 * si);
                } else {
                    assert(m1[y] != mem[y]);
                }
            }
        },
        _ => {},
    }
}

/// Run from any machine, the code of a whole program `(op l r)` that
/// compares two arithmetic expressions with the numbers `a` and `b` reaches
/// its end with the word of the comparison's answer on the tagged numbers
/// `2 * a` (left) and `2 * b` (right) in `rax`, within the machine limits of
/// compilation. So `(> l r)` leaves `TRUE_VAL` when `a > b` and `FALSE_VAL`
/// when `a < b`, and `(< l r)` leaves `TRUE_VAL` when `a < b` and
/// `FALSE_VAL` when `a > b`.
pub proof fn lemma_comparison_program(op: BinOp, l: Expr, r: Expr, m: Machine)
    requires
        !(op is Plus || op is Minus || op is Times),
        arith_value(l) is Some,
        arith_value(r) is Some,
        within_limits(Expr::BinOp(op, Box::new(l), Box::new(r)), 2, 0),
    ensures
        compile_program_spec(Expr::BinOp(op, Box::new(l), Box::new(r))) matches Ok((code, _))
            && frun(code, at_start(m)) matches Flow::Go(c2) && c2.machine.rax == answer_word(
            answers(op, 2 * arith_value(l)->Some_0, 2 * arith_value(r)->Some_0),
        ),
        op is Greater ==> (arith_value(l)->Some_0 > arith_value(r)->Some_0 ==> answers(
            op,
            2 * arith_value(l)->Some_0,
            2 * arith_value(r)->Some_0,
        )) && (arith_value(l)->Some_0 < arith_value(r)->Some_0 ==> !answers(
            op,
            2 * arith_value(l)->Some_0,
            2 * arith_value(r)->Some_0,
        )),
        op is Less ==> (arith_value(l)->Some_0 < arith_value(r)->Some_0 ==> answers(
            op,
            2 * arith_value(l)->Some_0,
            2 * arith_value(r)->Some_0,
        )) && (arith_value(l)->Some_0 > arith_value(r)->Some_0 ==> !answers(
            op,
            2 * arith_value(l)->Some_0,
            2 * arith_value(r)->Some_0,
        )),
{
    let e = Expr::BinOp(op, Box::new(l), Box::new(r));
    let a = arith_value(l)->Some_0;
    let b = arith_value(r)->Some_0;
    let sp = m.rsp;
    lemma_arith_evaluate(l, 2, Map::empty(), 0, None, sp, m.mem, m.rax, m.rdi);
    let lc1 = compile_spec(l, 2, Map::empty(), 0, None)->Ok_0.1;
    let m1 = evaluate(l, 2, Map::empty(), sp, m.mem, m.rax, m.rdi)->Some_0.1;
    let x = slot_addr(sp, 2);
    let m2 = m1.insert(x, 2 * a);
    lemma_arith_evaluate(r, 3, Map::empty(), lc1, None, sp, m2, 2 * a, m.rdi);
    let m3 = evaluate(r, 3, Map::empty(), sp, m2, 2 * a, m.rdi)->Some_0.1;
    assert(x == sp - 16);
    if m3[x] != m2[x] {
        let j = choose|j: int| j >= 3 && slot_ok(j) && x == sp - 8 * j;
        assert(false);
    }
    lemma_flow_computes(e, 2, Map::empty(), 0, None, m);
}

} // verus!