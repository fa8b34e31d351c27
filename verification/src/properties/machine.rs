//! What generated code computes when it runs, for the expressions whose code
//! runs straight through: literals, variables, `input`, `add1`, `sub1`,
//! `+`, `-`, `*`, `let`, `set!` and `block`.
//!
//! The machine model keeps words as mathematical integers: it describes the
//! processor as long as no result leaves the 64-bit range.

use vstd::prelude::*;
use crate::assembly::{InstrV, Reg, Val};
use crate::ast::{BinOp, Expr, UnOp};
use crate::limits::{slot_ok, slots_fit, within_limits};
use crate::compiler::{
    compile_spec, compile_let, compile_block, compile_program_spec, lookup_code, unop_code,
    binop_code, num_check, rax, slot,
};

verus! {

/// The registers, the memory (by address) and the two words that the last
/// `cmp` compared.
pub struct Machine {
    pub rax: int,
    pub rbx: int,
    pub rdi: int,
    pub rsp: int,
    pub mem: Map<int, int>,
    pub flags: (int, int),
}

/// How running code ends: it runs through to its end, it jumps to
/// `throw_error`, or it reaches an instruction outside the model.
pub enum Run {
    Ran(Machine),
    Fault,
    Stuck,
}

pub open spec fn reg_value(r: Reg, m: Machine) -> int {
    match r {
        Reg::RAX => m.rax,
        Reg::RBX => m.rbx,
        Reg::RDI => m.rdi,
        Reg::RSP => m.rsp,
    }
}

/// The word that an operand stands for.
pub open spec fn read(v: Val, m: Machine) -> int {
    match v {
        Val::Reg(r) => reg_value(r, m),
        Val::Imm(n) => n as int,
        Val::RegOffset(r, off) => m.mem[reg_value(r, m) + off as int],
    }
}

/// The machine after the word `x` is written to the operand `v`.
pub open spec fn write(v: Val, x: int, m: Machine) -> Run {
    match v {
        Val::Reg(Reg::RAX) => Run::Ran(Machine { rax: x, ..m }),
        Val::Reg(Reg::RBX) => Run::Ran(Machine { rbx: x, ..m }),
        Val::Reg(Reg::RDI) => Run::Ran(Machine { rdi: x, ..m }),
        Val::Reg(Reg::RSP) => Run::Ran(Machine { rsp: x, ..m }),
        Val::Imm(_) => Run::Stuck,
        Val::RegOffset(r, off) => Run::Ran(
            Machine { mem: m.mem.insert(reg_value(r, m) + off as int, x), ..m },
        ),
    }
}

/// One instruction. `and` and `sar` are modelled with the operand 1 (the
/// lowest bit, and a shift by one bit, rounding down); jumps other than
/// `jne throw_error` are outside the model.
pub open spec fn step(i: InstrV, m: Machine) -> Run {
    match i {
        InstrV::IMov(d, s) => write(d, read(s, m), m),
        InstrV::IAdd(d, s) => write(d, read(d, m) + read(s, m), m),
        InstrV::ISub(d, s) => write(d, read(d, m) - read(s, m), m),
        InstrV::IMul(d, s) => write(d, read(d, m) * read(s, m), m),
        InstrV::IAnd(d, s) => if read(s, m) == 1 {
            write(d, read(d, m) % 2, m)
        } else {
            Run::Stuck
        },
        InstrV::ISar(d, s) => if read(s, m) == 1 {
            write(d, read(d, m) / 2, m)
        } else {
            Run::Stuck
        },
        InstrV::ICmp(a, b) => Run::Ran(Machine { flags: (read(a, m), read(b, m)), ..m }),
        InstrV::IJne(l) => if l == "throw_error"@ {
            if m.flags.0 != m.flags.1 {
                Run::Fault
            } else {
                Run::Ran(m)
            }
        } else {
            Run::Stuck
        },
        InstrV::ILabel(_) => Run::Ran(m),
        _ => Run::Stuck,
    }
}

/// Runs the instructions of `code` from index `i` on.
pub open spec fn run_from(code: Seq<InstrV>, i: int, m: Machine) -> Run
    decreases code.len() - i,
{
    if i < 0 || i >= code.len() {
        Run::Ran(m)
    } else {
        match step(code[i], m) {
            Run::Ran(m1) => run_from(code, i + 1, m1),
            r => r,
        }
    }
}

/// Runs `code` from its first instruction.
pub open spec fn run(code: Seq<InstrV>, m: Machine) -> Run {
    run_from(code, 0, m)
}

/// Runs `code` after `r`, if `r` ran through.
pub open spec fn then(r: Run, code: Seq<InstrV>) -> Run {
    match r {
        Run::Ran(m) => run(code, m),
        _ => r,
    }
}

/// The address of the stack slot `si` when `rsp` is `sp`.
pub open spec fn slot_addr(sp: int, si: int) -> int {
    sp + ((-8 * si) as i32) as int
}

/// `e` is made only of forms whose code runs straight through.
pub open spec fn straight(e: Expr) -> bool
    decreases e, 0nat,
{
    match e {
        Expr::Number(_) => true,
        Expr::Bool(_) => true,
        Expr::Id(_) => true,
        Expr::Var(_) => true,
        Expr::Input => true,
        Expr::UnOp(op, a) => (op is Add1 || op is Sub1 || op is Negate) && straight(*a),
        Expr::BinOp(op, l, r) => (op is Plus || op is Minus || op is Times) && straight(*l)
            && straight(*r),
        Expr::Let(bs, body) => straight_bindings(bs@, bs@.len()) && straight(*body),
        Expr::SetVar(_, a) => straight(*a),
        Expr::Block(es) => straight_all(es@, es@.len()),
        _ => false,
    }
}

/// The first `k` bindings are straight.
pub open spec fn straight_bindings(bs: Seq<(String, Expr)>, k: nat) -> bool
    decreases bs, k,
{
    if k == 0 || k > bs.len() {
        true
    } else {
        straight_bindings(bs, (k - 1) as nat) && straight(bs[k - 1].1)
    }
}

/// The first `k` expressions are straight.
pub open spec fn straight_all(es: Seq<Expr>, k: nat) -> bool
    decreases es, k,
{
    if k == 0 || k > es.len() {
        true
    } else {
        straight_all(es, (k - 1) as nat) && straight(es[k - 1])
    }
}

/// The value (a tagged word) of the straight expression `e`, and the memory
/// after it, or `None` where an operand of an arithmetic operation is not a
/// number (its lowest bit is 1). `si` is the first free stack slot, `env`
/// the variables' offsets from `rsp == sp`, `rax` the word in `rax` before
/// (an empty block leaves it), and `inp` the input word.
///
/// A number `n` is the word `2 * n`; `add1` and `sub1` add and take 2;
/// `+` and `-` add and subtract the words, `*` halves their product; a
/// binary operation keeps its left operand in the slot `si` while its right
/// one is computed; a `let` stores its bindings in the slots from `si` on;
/// `set!` overwrites the variable's slot; a block is the value of its last
/// expression.
pub open spec fn eval(
    e: Expr,
    si: int,
    env: Map<Seq<char>, i32>,
    sp: int,
    mem: Map<int, int>,
    rax: int,
    inp: int,
) -> Option<(int, Map<int, int>)>
    decreases e, 0nat,
{
    match e {
        Expr::Number(n) => Some((2 * n, mem)),
        Expr::Bool(b) => Some((if b { 1int } else { 3int }, mem)),
        Expr::Id(x) => Some((mem[sp + env[x@] as int], mem)),
        Expr::Var(x) => Some((mem[sp + env[x@] as int], mem)),
        Expr::Input => Some((inp, mem)),
        Expr::UnOp(op, a) => match eval(*a, si, env, sp, mem, rax, inp) {
            Some((w, m1)) => Some(
                (
                    match op {
                        UnOp::Add1 => w + 2,
                        UnOp::Sub1 => w - 2,
                        _ => w * -1,
                    },
                    m1,
                ),
            ),
            None => None,
        },
        Expr::BinOp(op, l, r) => match eval(*l, si, env, sp, mem, rax, inp) {
            None => None,
            Some((wl, m1)) => if wl % 2 != 0 {
                None
            } else {
                match eval(*r, si + 1, env, sp, m1.insert(slot_addr(sp, si), wl), wl, inp) {
                    None => None,
                    Some((wr, m3)) => if wr % 2 != 0 {
                        None
                    } else {
                        let left = m3[slot_addr(sp, si)];
                        Some(
                            (
                                match op {
                                    BinOp::Plus => wr + left,
                                    BinOp::Minus => left - wr,
                                    _ => (wr * left) / 2,
                                },
                                m3,
                            ),
                        )
                    },
                }
            },
        },
        Expr::Let(bs, body) => match eval_let(bs@, bs@.len(), si, env, sp, mem, rax, inp) {
            None => None,
            Some((env1, si1, m1, w)) => eval(*body, si1, env1, sp, m1, w, inp),
        },
        Expr::SetVar(x, a) => match eval(*a, si, env, sp, mem, rax, inp) {
            None => None,
            Some((w, m1)) => Some((w, m1.insert(sp + env[x@] as int, w))),
        },
        Expr::Block(es) => eval_block(es@, es@.len(), si, env, sp, mem, rax, inp),
        _ => None,
    }
}

/// The first `k` bindings of a `let`: the variables' offsets, the next free
/// slot, the memory and the last value after them.
pub open spec fn eval_let(
    bs: Seq<(String, Expr)>,
    k: nat,
    si: int,
    env: Map<Seq<char>, i32>,
    sp: int,
    mem: Map<int, int>,
    rax: int,
    inp: int,
) -> Option<(Map<Seq<char>, i32>, int, Map<int, int>, int)>
    decreases bs, k,
{
    if k == 0 || k > bs.len() {
        Some((env, si, mem, rax))
    } else {
        match eval_let(bs, (k - 1) as nat, si, env, sp, mem, rax, inp) {
            None => None,
            Some((env1, si1, m1, w1)) => match eval(bs[k - 1].1, si1, env1, sp, m1, w1, inp) {
                None => None,
                Some((w, m2)) => Some(
                    (
                        env1.insert(bs[k - 1].0@, (-8 * si1) as i32),
                        si1 + 1,
                        m2.insert(slot_addr(sp, si1), w),
                        w,
                    ),
                ),
            },
        }
    }
}

/// The first `k` expressions of a block, one after the other: the last
/// value and the memory after them.
pub open spec fn eval_block(
    es: Seq<Expr>,
    k: nat,
    si: int,
    env: Map<Seq<char>, i32>,
    sp: int,
    mem: Map<int, int>,
    rax: int,
    inp: int,
) -> Option<(int, Map<int, int>)>
    decreases es, k,
{
    if k == 0 || k > es.len() {
        Some((rax, mem))
    } else {
        match eval_block(es, (k - 1) as nat, si, env, sp, mem, rax, inp) {
            None => None,
            Some((w1, m1)) => eval(es[k - 1], si, env, sp, m1, w1, inp),
        }
    }
}

/// `r` ran through to a machine with `w` in `rax`, the memory `mem`, and the
/// `rsp` and `rdi` of `m`.
pub open spec fn ends_with(r: Run, w: int, mem: Map<int, int>, m: Machine) -> bool {
    r matches Run::Ran(m2) && m2.rax == w && m2.mem == mem && m2.rsp == m.rsp && m2.rdi == m.rdi
}

/// Running code from `m` ends as `ev` says: at `throw_error` where `ev` is
/// `None`, else at its end with that value in `rax`, that memory, and `rsp`
/// and `rdi` as they were.
pub open spec fn agrees(r: Run, ev: Option<(int, Map<int, int>)>, m: Machine) -> bool {
    match ev {
        None => r is Fault,
        Some((w, mem)) => ends_with(r, w, mem, m),
    }
}

proof fn lemma_run_shift(a: Seq<InstrV>, b: Seq<InstrV>, j: int, m: Machine)
    requires
        0 <= j <= b.len(),
    ensures
        run_from(a + b, a.len() + j, m) == run_from(b, j, m),
    decreases b.len() - j,
{
    if j < b.len() {
        assert((a + b)[a.len() + j] == b[j]);
        match step(b[j], m) {
            Run::Ran(m1) => lemma_run_shift(a, b, j + 1, m1),
            _ => {},
        }
    }
}

proof fn lemma_run_from_concat(a: Seq<InstrV>, b: Seq<InstrV>, i: int, m: Machine)
    requires
        0 <= i <= a.len(),
    ensures
        run_from(a + b, i, m) == then(run_from(a, i, m), b),
    decreases a.len() - i,
{
    if i < a.len() {
        assert((a + b)[i] == a[i]);
        match step(a[i], m) {
            Run::Ran(m1) => lemma_run_from_concat(a, b, i + 1, m1),
            _ => {},
        }
    } else {
        lemma_run_shift(a, b, 0, m);
    }
}

/// Running two pieces of code one after the other is running the first and
/// then, if it ran through, the second.
pub proof fn lemma_run_concat(a: Seq<InstrV>, b: Seq<InstrV>, m: Machine)
    ensures
        run(a + b, m) == then(run(a, m), b),
{
    lemma_run_from_concat(a, b, 0, m);
}

proof fn lemma_run_one(i: InstrV, m: Machine)
    ensures
        run(seq![i], m) == step(i, m),
{
    reveal_with_fuel(run_from, 2);
}

proof fn lemma_run_empty(m: Machine)
    ensures
        run(Seq::<InstrV>::empty(), m) == Run::Ran(m),
{
}

proof fn lemma_run_num_check(m: Machine)
    ensures
        m.rax % 2 != 0 ==> run(num_check(), m) is Fault,
        m.rax % 2 == 0 ==> ends_with(run(num_check(), m), m.rax, m.mem, m),
{
    reveal_with_fuel(run_from, 5);
}

proof fn lemma_run_binop_tail(op: BinOp, si: int, lc: int, m: Machine)
    requires
        op is Plus || op is Minus || op is Times,
    ensures
        run(binop_code(op, slot(si), lc).0, m) matches Run::Ran(m2) && m2.mem == m.mem && m2.rsp
            == m.rsp && m2.rdi == m.rdi && m2.rax == match op {
            BinOp::Plus => m.rax + m.mem[slot_addr(m.rsp, si)],
            BinOp::Minus => m.mem[slot_addr(m.rsp, si)] - m.rax,
            _ => (m.rax * m.mem[slot_addr(m.rsp, si)]) / 2,
        },
{
    reveal_with_fuel(run_from, 4);
}

/// The code of every straight expression that compiles computes what `eval`
/// says: run from any machine `m`, it jumps to `throw_error` exactly where an
/// arithmetic operand is not a number, and otherwise ends with the value of
/// the expression in `rax` and the memory that `eval` gives, with `rsp` and
/// `rdi` unchanged.
pub proof fn lemma_code_computes(
    e: Expr,
    si: int,
    env: Map<Seq<char>, i32>,
    lc: int,
    brk: Option<Seq<char>>,
    m: Machine,
)
    requires
        straight(e),
    ensures
        compile_spec(e, si, env, lc, brk) matches Ok((code, _)) ==> agrees(
            run(code, m),
            eval(e, si, env, m.rsp, m.mem, m.rax, m.rdi),
            m,
        ),
    decreases e, 0nat,
{
    match e {
        Expr::Number(n) => {
            lemma_run_one(InstrV::IMov(rax(), Val::Imm((2 * n) as i64)), m);
        },
        Expr::Bool(b) => {
            lemma_run_one(InstrV::IMov(rax(), Val::Imm(if b { 1 } else { 3 })), m);
        },
        Expr::Id(x) => {
            if env.dom().contains(x@) {
                lemma_run_one(lookup_code(env, x, lc)->Ok_0.0[0], m);
                assert(lookup_code(env, x, lc)->Ok_0.0 =~= seq![
                    lookup_code(env, x, lc)->Ok_0.0[0],
                ]);
            }
        },
        Expr::Var(x) => {
            if env.dom().contains(x@) {
                lemma_run_one(lookup_code(env, x, lc)->Ok_0.0[0], m);
                assert(lookup_code(env, x, lc)->Ok_0.0 =~= seq![
                    lookup_code(env, x, lc)->Ok_0.0[0],
                ]);
            }
        },
        Expr::Input => {
            lemma_run_one(InstrV::IMov(rax(), Val::Reg(Reg::RDI)), m);
        },
        Expr::UnOp(op, a) => {
            lemma_code_computes(*a, si, env, lc, brk, m);
            if let Ok((ia, lc1)) = compile_spec(*a, si, env, lc, brk) {
                let tail = unop_code(op, lc1).0;
                lemma_run_concat(ia, tail, m);
                if let Run::Ran(m1) = run(ia, m) {
                    lemma_run_one(tail[0], m1);
                    assert(tail =~= seq![tail[0]]);
                }
            }
        },
        Expr::BinOp(op, l, r) => {
            lemma_code_computes(*l, si, env, lc, brk, m);
            if let Ok((il, lc1)) = compile_spec(*l, si, env, lc, brk) {
                if let Ok((ir, lc2)) = compile_spec(*r, si + 1, env, lc1, brk) {
                    let nc = num_check();
                    let pm = seq![InstrV::IMov(slot(si), rax())];
                    let tail = binop_code(op, slot(si), lc2).0;
                    lemma_run_concat(il, nc, m);
                    lemma_run_concat(il + nc, pm, m);
                    lemma_run_concat(il + nc + pm, ir, m);
                    lemma_run_concat(il + nc + pm + ir, nc, m);
                    lemma_run_concat(il + nc + pm + ir + nc, tail, m);
                    if let Run::Ran(m1) = run(il, m) {
                        lemma_run_num_check(m1);
                        if let Run::Ran(m1n) = run(nc, m1) {
                            lemma_run_one(InstrV::IMov(slot(si), rax()), m1n);
                            if let Run::Ran(m2) = run(pm, m1n) {
                                assert(m2.mem == m1.mem.insert(slot_addr(m.rsp, si), m1.rax));
                                lemma_code_computes(*r, si + 1, env, lc1, brk, m2);
                                if let Run::Ran(m3) = run(ir, m2) {
                                    lemma_run_num_check(m3);
                                    if let Run::Ran(m3n) = run(nc, m3) {
                                        lemma_run_binop_tail(op, si, lc2, m3n);
                                    }
                                }
                            }
                        }
                    }
                }
            }
        },
        Expr::Let(bs, body) => {
            lemma_let_computes(bs@, bs@.len(), si, env, lc, brk, m);
            if let Ok((ib, env1, si1, lc1)) = compile_let(bs@, bs@.len(), si, env, lc, brk) {
                if let Ok((ibody, _)) = compile_spec(*body, si1, env1, lc1, brk) {
                    lemma_run_concat(ib, ibody, m);
                    if let Run::Ran(m1) = run(ib, m) {
                        lemma_code_computes(*body, si1, env1, lc1, brk, m1);
                    }
                }
            }
        },
        Expr::SetVar(x, a) => {
            lemma_code_computes(*a, si, env, lc, brk, m);
            if let Ok(_) = compile_spec(e, si, env, lc, brk) {
                let (ia, _) = compile_spec(*a, si, env, lc, brk)->Ok_0;
                let pm = seq![InstrV::IMov(Val::RegOffset(Reg::RSP, env[x@]), rax())];
                lemma_run_concat(ia, pm, m);
                if let Run::Ran(m1) = run(ia, m) {
                    lemma_run_one(pm[0], m1);
                }
            }
        },
        Expr::Block(es) => {
            lemma_block_computes(es@, es@.len(), si, env, lc, brk, m);
        },
        _ => {},
    }
}

/// The same for the first `k` bindings of a `let`: their code ends with the
/// variables' offsets, the next free slot, the memory and the value in `rax`
/// that `eval_let` gives.
pub proof fn lemma_let_computes(
    bs: Seq<(String, Expr)>,
    k: nat,
    si: int,
    env: Map<Seq<char>, i32>,
    lc: int,
    brk: Option<Seq<char>>,
    m: Machine,
)
    requires
        straight_bindings(bs, k),
    ensures
        compile_let(bs, k, si, env, lc, brk) matches Ok((code, env1, si1, _)) ==> match eval_let(
            bs,
            k,
            si,
            env,
            m.rsp,
            m.mem,
            m.rax,
            m.rdi,
        ) {
            None => run(code, m) is Fault,
            Some((env2, si2, mem2, w)) => env2 == env1 && si2 == si1 && ends_with(
                run(code, m),
                w,
                mem2,
                m,
            ),
        },
    decreases bs, k,
{
    if k == 0 || k > bs.len() {
        lemma_run_empty(m);
    } else {
        lemma_let_computes(bs, (k - 1) as nat, si, env, lc, brk, m);
        if let Ok((ib, env1, si1, lc1)) = compile_let(bs, (k - 1) as nat, si, env, lc, brk) {
            if let Ok((ix, _)) = compile_spec(bs[k - 1].1, si1, env1, lc1, brk) {
                let pm = seq![InstrV::IMov(slot(si1), rax())];
                lemma_run_concat(ib, ix, m);
                lemma_run_concat(ib + ix, pm, m);
                if let Run::Ran(m1) = run(ib, m) {
                    lemma_code_computes(bs[k - 1].1, si1, env1, lc1, brk, m1);
                    if let Run::Ran(m2) = run(ix, m1) {
                        lemma_run_one(pm[0], m2);
                    }
                }
            }
        }
    }
}

/// The same for the first `k` expressions of a block.
pub proof fn lemma_block_computes(
    es: Seq<Expr>,
    k: nat,
    si: int,
    env: Map<Seq<char>, i32>,
    lc: int,
    brk: Option<Seq<char>>,
    m: Machine,
)
    requires
        straight_all(es, k),
    ensures
        compile_block(es, k, si, env, lc, brk) matches Ok((code, _)) ==> agrees(
            run(code, m),
            eval_block(es, k, si, env, m.rsp, m.mem, m.rax, m.rdi),
            m,
        ),
    decreases es, k,
{
    if k == 0 || k > es.len() {
        lemma_run_empty(m);
    } else {
        lemma_block_computes(es, (k - 1) as nat, si, env, lc, brk, m);
        if let Ok((ib, lc1)) = compile_block(es, (k - 1) as nat, si, env, lc, brk) {
            if let Ok((ie, _)) = compile_spec(es[k - 1], si, env, lc1, brk) {
                lemma_run_concat(ib, ie, m);
                if let Run::Ran(m1) = run(ib, m) {
                    lemma_code_computes(es[k - 1], si, env, lc1, brk, m1);
                }
            }
        }
    }
}

/// The number that an expression made of number literals, `add1`, `sub1`,
/// negation, `+`, `-` and `*` stands for, or `None` for any other expression.
pub open spec fn arith_value(e: Expr) -> Option<int>
    decreases e,
{
    match e {
        Expr::Number(n) => Some(n as int),
        Expr::UnOp(op, a) => if op is Add1 || op is Sub1 || op is Negate {
            match arith_value(*a) {
                Some(v) => Some(
                    match op {
                        UnOp::Add1 => v + 1,
                        UnOp::Sub1 => v - 1,
                        _ => -v,
                    },
                ),
                None => None,
            }
        } else {
            None
        },
        Expr::BinOp(op, l, r) => if op is Plus || op is Minus || op is Times {
            match (arith_value(*l), arith_value(*r)) {
                (Some(a), Some(b)) => Some(
                    match op {
                        BinOp::Plus => a + b,
                        BinOp::Minus => a - b,
                        _ => a * b,
                    },
                ),
                _ => None,
            }
        } else {
            None
        },
        _ => None,
    }
}

/// `mem2` differs from `mem` only in stack slots from `si` on (with `rsp == sp`).
pub open spec fn changed_from(mem: Map<int, int>, mem2: Map<int, int>, sp: int, si: int) -> bool {
    forall|a: int|
        #[trigger] mem2[a] != mem[a] ==> exists|j: int| j >= si && slot_ok(j) && a == sp - 8 * j
}

proof fn lemma_arith_eval(
    e: Expr,
    si: int,
    env: Map<Seq<char>, i32>,
    lc: int,
    brk: Option<Seq<char>>,
    sp: int,
    mem: Map<int, int>,
    rax: int,
    inp: int,
)
    requires
        arith_value(e) is Some,
        slots_fit(e, si),
    ensures
        straight(e),
        compile_spec(e, si, env, lc, brk) is Ok,
        eval(e, si, env, sp, mem, rax, inp) matches Some((w, mem2)) && w == 2 * arith_value(
            e,
        )->Some_0 && changed_from(mem, mem2, sp, si),
    decreases e,
{
    match e {
        Expr::UnOp(op, a) => {
            lemma_arith_eval(*a, si, env, lc, brk, sp, mem, rax, inp);
        },
        Expr::BinOp(op, l, r) => {
            let a = arith_value(*l)->Some_0;
            let b = arith_value(*r)->Some_0;
            lemma_arith_eval(*l, si, env, lc, brk, sp, mem, rax, inp);
            let lc1 = compile_spec(*l, si, env, lc, brk)->Ok_0.1;
            let m1 = eval(*l, si, env, sp, mem, rax, inp)->Some_0.1;
            let x = slot_addr(sp, si);
            assert(x == sp - 8 * si);
            let m2 = m1.insert(x, 2 * a);
            lemma_arith_eval(*r, si + 1, env, lc1, brk, sp, m2, 2 * a, inp);
            let m3 = eval(*r, si + 1, env, sp, m2, 2 * a, inp)->Some_0.1;
            if m3[x] != m2[x] {
                let j = choose|j: int| j >= si + 1 && slot_ok(j) && x == sp - 8 * j;
                assert(false);
            }
            assert(m3[x] == 2 * a);
            assert((2 * b) * (2 * a) / 2 == 2 * (a * b)) by (nonlinear_arith);
            assert forall|y: int| #[trigger] m3[y] != mem[y] implies exists|j: int|
                j >= si && slot_ok(j) && y == sp - 8 * j by {
                if m3[y] != m2[y] {
                    let j = choose|j: int| j >= si + 1 && slot_ok(j) && y == sp - 8 * j;
                    assert(j >= si && slot_ok(j) && y == sp - 8 * j);
                } else if y == x {
                    assert(si >= si && slot_ok(si) && y == sp - 8 * si);
                } else {
                    assert(m1[y] != mem[y]);
                }
            }
        },
        _ => {},
    }
}

/// Run from any machine, the code of a whole program made of number
/// literals, `add1`, `sub1`, negation, `+`, `-` and `*` ends, without a jump
/// to `throw_error`, with the tagged form `2 * v` of the program's number `v`
/// in `rax`, within the machine limits of compilation.
pub proof fn lemma_arithmetic_program_computes(e: Expr, m: Machine)
    requires
        arith_value(e) is Some,
        within_limits(e, 2, 0),
    ensures
        compile_program_spec(e) matches Ok((code, _)) && run(code, m) matches Run::Ran(m2)
            && m2.rax == 2 * arith_value(e)->Some_0,
{
    lemma_arith_eval(e, 2, Map::empty(), 0, None, m.rsp, m.mem, m.rax, m.rdi);
    lemma_code_computes(e, 2, Map::empty(), 0, None, m);
}

/// The code of a whole straight program computes what `eval` says, from
/// slot 2 with no variables.
pub proof fn lemma_program_computes(e: Expr, m: Machine)
    requires
        straight(e),
    ensures
        compile_program_spec(e) matches Ok((code, _)) ==> agrees(
            run(code, m),
            eval(e, 2, Map::empty(), m.rsp, m.mem, m.rax, m.rdi),
            m,
        ),
{
    lemma_code_computes(e, 2, Map::empty(), 0, None, m);
}

} // verus!
