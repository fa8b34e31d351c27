//! Code generation: from expressions to assembly.

use vstd::prelude::*;
use vstd::string::*;
use crate::ast::{BinOp, Expr, UnOp};
use crate::assembly::{
    Instr, InstrV, Reg, Val, view_instrs, lemma_view_instrs_add, instr_renderable, instr_text,
    instr_to_str, val_renderable,
};
use crate::env::{env_contents, seen_contents, env_new, env_get, env_insert, env_clone, seen_new,
    seen_contains, seen_insert};
use crate::tagging::{encode_num, NUM_TAG, NUM_TAG_MASK, BOOL_TAG, BOOL_TAG_MASK, TRUE_VAL, FALSE_VAL};
use crate::limits::{
    unop_labels, binop_labels, labels_needed, let_labels, block_labels, let_slots_fit,
    block_slots_fit, slots_fit, slot_ok, within_limits, lemma_let_slots_at, lemma_block_slots_at,
    lemma_let_labels_mono, lemma_block_labels_mono,
};
use crate::text::{decimal, int_text};

verus! {

/// Why an expression cannot be compiled.
#[derive(Debug)]
pub enum CompileError {
    /// A `let` binds the same name twice.
    DuplicateBinding,
    /// A variable that no `let` around it binds.
    UnboundVariable(String),
    /// A `break` outside every `loop`.
    BreakOutsideLoop,
}

/// The label made of `name`, an underscore and the number `n`.
pub open spec fn label_text(name: Seq<char>, n: int) -> Seq<char> {
    name + "_"@ + decimal(n)
}

/// The label to which a `break` jumps, by its text.
pub open spec fn target_text(b: Option<String>) -> Option<Seq<char>> {
    match b {
        Some(l) => Some(l@),
        None => None,
    }
}

pub open spec fn rax() -> Val {
    Val::Reg(Reg::RAX)
}

pub open spec fn rbx() -> Val {
    Val::Reg(Reg::RBX)
}

/// The stack slot with index `si`: the word at `rsp - 8 * si`.
pub open spec fn slot(si: int) -> Val {
    Val::RegOffset(Reg::RSP, (-8 * si) as i32)
}

/// Jumps to `throw_error` unless `rax` holds a number.
pub open spec fn num_check() -> Seq<InstrV> {
    seq![
        InstrV::IMov(rbx(), rax()),
        InstrV::IAnd(rbx(), Val::Imm(1)),
        InstrV::ICmp(rbx(), Val::Imm(0)),
        InstrV::IJne("throw_error"@),
    ]
}

/// Sets `rax` to `true` when its tag under `mask` is `tag`, else to `false`.
pub open spec fn tag_test(mask: i64, tag: i64, skip: Seq<char>) -> Seq<InstrV> {
    seq![
        InstrV::IMov(rbx(), rax()),
        InstrV::IAnd(rbx(), Val::Imm(mask)),
        InstrV::ICmp(rbx(), Val::Imm(tag)),
        InstrV::IMov(rax(), Val::Imm(FALSE_VAL)),
        InstrV::IJne(skip),
        InstrV::IMov(rax(), Val::Imm(TRUE_VAL)),
        InstrV::ILabel(skip),
    ]
}

/// The code that applies a unary operator to `rax`, and the label counter after it.
pub open spec fn unop_code(op: UnOp, lc: int) -> (Seq<InstrV>, int) {
    match op {
        UnOp::Add1 => (seq![InstrV::IAdd(rax(), Val::Imm(2))], lc),
        UnOp::Sub1 => (seq![InstrV::ISub(rax(), Val::Imm(2))], lc),
        UnOp::Negate => (seq![InstrV::IMul(rax(), Val::Imm(-1i64))], lc),
        UnOp::IsNum => (tag_test(NUM_TAG_MASK, NUM_TAG, label_text("isnum_skip"@, lc + 1)), lc + 1),
        UnOp::IsBool => (
            tag_test(BOOL_TAG_MASK, BOOL_TAG, label_text("isbool_skip"@, lc + 1)),
            lc + 1,
        ),
    }
}

/// The jump taken to the `else` label of a comparison: when the comparison is false.
pub open spec fn comparison_jump(op: BinOp, l: Seq<char>) -> InstrV {
    match op {
        BinOp::Less => InstrV::IJge(l),
        BinOp::Greater => InstrV::IJle(l),
        BinOp::LessEq => InstrV::IJg(l),
        BinOp::GreaterEq => InstrV::IJl(l),
        _ => InstrV::IJne(l),
    }
}

/// The names of the two labels of a comparison.
pub open spec fn comparison_names(op: BinOp) -> (Seq<char>, Seq<char>) {
    match op {
        BinOp::Less => ("less_else"@, "less_end"@),
        BinOp::Greater => ("greater_else"@, "greater_end"@),
        BinOp::LessEq => ("lesseq_else"@, "lesseq_end"@),
        BinOp::GreaterEq => ("greatereq_else"@, "greatereq_end"@),
        _ => ("equal_else"@, "equal_end"@),
    }
}

/// The comparison code: `rax` compared with the operand `left`.
pub open spec fn compare_code(op: BinOp, left: Val, else_l: Seq<char>, end_l: Seq<char>) -> Seq<
    InstrV,
> {
    seq![
        InstrV::ICmp(rax(), left),
        comparison_jump(op, else_l),
        InstrV::IMov(rax(), Val::Imm(FALSE_VAL)),
        InstrV::IJmp(end_l),
        InstrV::ILabel(else_l),
        InstrV::IMov(rax(), Val::Imm(TRUE_VAL)),
        InstrV::ILabel(end_l),
    ]
}

/// The code that combines the left operand (in the word `left`) with the
/// right one (in `rax`), and the label counter after it.
pub open spec fn binop_code(op: BinOp, left: Val, lc: int) -> (Seq<InstrV>, int) {
    match op {
        BinOp::Plus => (seq![InstrV::IAdd(rax(), left)], lc),
        BinOp::Minus => (
            seq![InstrV::IMov(rbx(), rax()), InstrV::IMov(rax(), left), InstrV::ISub(rax(), rbx())],
            lc,
        ),
        BinOp::Times => (
            seq![
                InstrV::IMov(rbx(), left),
                InstrV::IMul(rax(), rbx()),
                InstrV::ISar(rax(), Val::Imm(1)),
            ],
            lc,
        ),
        _ => (
            compare_code(
                op,
                left,
                label_text(comparison_names(op).0, lc + 1),
                label_text(comparison_names(op).1, lc + 2),
            ),
            lc + 2,
        ),
    }
}

/// The code that loads the variable `name` into `rax`.
pub open spec fn lookup_code(env: Map<Seq<char>, i32>, name: String, lc: int) -> Result<
    (Seq<InstrV>, int),
    CompileError,
> {
    if env.dom().contains(name@) {
        Ok((seq![InstrV::IMov(rax(), Val::RegOffset(Reg::RSP, env[name@]))], lc))
    } else {
        Err(CompileError::UnboundVariable(name))
    }
}

/// The code of `e` compiled with the first free stack slot `si`, the
/// variables at the offsets `env`, the label counter `lc` and the label `brk`
/// that a `break` jumps to; with the label counter after it. Subexpressions
/// are compiled left to right and the first error wins.
///
/// Literals and conditions keep the generator's own encoding: `true` loads
/// the word 1 and `false` the word 3, `if` takes its first branch when the
/// condition is the word 1, and a comparison leaves 3 (`TRUE_VAL`) exactly
/// when its jump to the `else` label is taken.
pub open spec fn compile_spec(
    e: Expr,
    si: int,
    env: Map<Seq<char>, i32>,
    lc: int,
    brk: Option<Seq<char>>,
) -> Result<(Seq<InstrV>, int), CompileError>
    decreases e, 0nat,
{
    match e {
        Expr::Number(n) => Ok((seq![InstrV::IMov(rax(), Val::Imm((2 * n) as i64))], lc)),
        Expr::Bool(b) => Ok((seq![InstrV::IMov(rax(), Val::Imm(if b { 1 } else { 3 }))], lc)),
        Expr::Id(name) => lookup_code(env, name, lc),
        Expr::Var(name) => lookup_code(env, name, lc),
        Expr::Input => Ok((seq![InstrV::IMov(rax(), Val::Reg(Reg::RDI))], lc)),
        Expr::UnOp(op, a) => match compile_spec(*a, si, env, lc, brk) {
            Ok((ia, lc1)) => Ok((ia + unop_code(op, lc1).0, unop_code(op, lc1).1)),
            Err(x) => Err(x),
        },
        Expr::BinOp(op, l, r) => match compile_spec(*l, si, env, lc, brk) {
            Ok((il, lc1)) => match compile_spec(*r, si + 1, env, lc1, brk) {
                Ok((ir, lc2)) => Ok(
                    (
                        il + num_check() + seq![InstrV::IMov(slot(si), rax())] + ir + num_check()
                            + binop_code(op, slot(si), lc2).0,
                        binop_code(op, slot(si), lc2).1,
                    ),
                ),
                Err(x) => Err(x),
            },
            Err(x) => Err(x),
        },
        Expr::Let(bs, body) => match compile_let(bs@, bs@.len(), si, env, lc, brk) {
            Ok((ib, env1, si1, lc1)) => match compile_spec(*body, si1, env1, lc1, brk) {
                Ok((ibody, lc2)) => Ok((ib + ibody, lc2)),
                Err(x) => Err(x),
            },
            Err(x) => Err(x),
        },
        Expr::If(c, t, f) => {
            let else_l = label_text("if_else"@, lc + 1);
            let end_l = label_text("if_end"@, lc + 2);
            match compile_spec(*c, si, env, lc + 2, brk) {
                Ok((ic, lc1)) => match compile_spec(*t, si, env, lc1, brk) {
                    Ok((it, lc2)) => match compile_spec(*f, si, env, lc2, brk) {
                        Ok((i_f, lc3)) => Ok(
                            (
                                ic + seq![InstrV::ICmp(rax(), Val::Imm(1)), InstrV::IJne(else_l)]
                                    + it + seq![InstrV::IJmp(end_l), InstrV::ILabel(else_l)] + i_f
                                    + seq![InstrV::ILabel(end_l)],
                                lc3,
                            ),
                        ),
                        Err(x) => Err(x),
                    },
                    Err(x) => Err(x),
                },
                Err(x) => Err(x),
            }
        },
        Expr::Block(es) => compile_block(es@, es@.len(), si, env, lc, brk),
        Expr::Loop(b) => {
            let start_l = label_text("loop_start"@, lc + 1);
            let end_l = label_text("loop_end"@, lc + 2);
            match compile_spec(*b, si, env, lc + 2, Some(end_l)) {
                Ok((ib, lc1)) => Ok(
                    (
                        seq![InstrV::ILabel(start_l)] + ib + seq![
                            InstrV::IJmp(start_l),
                            InstrV::ILabel(end_l),
                        ],
                        lc1,
                    ),
                ),
                Err(x) => Err(x),
            }
        },
        Expr::Break(a) => match brk {
            None => Err(CompileError::BreakOutsideLoop),
            Some(l) => match compile_spec(*a, si, env, lc, brk) {
                Ok((ia, lc1)) => Ok((ia + seq![InstrV::IJmp(l)], lc1)),
                Err(x) => Err(x),
            },
        },
        Expr::SetVar(name, a) => match compile_spec(*a, si, env, lc, brk) {
            Ok((ia, lc1)) => if env.dom().contains(name@) {
                Ok((ia + seq![InstrV::IMov(Val::RegOffset(Reg::RSP, env[name@]), rax())], lc1))
            } else {
                Err(CompileError::UnboundVariable(name))
            },
            Err(x) => Err(x),
        },
    }
}

/// Some binding among `bs[0..k)` has the name `name`.
pub open spec fn bound_before(bs: Seq<(String, Expr)>, k: int, name: Seq<char>) -> bool {
    exists|j: int| 0 <= j < k && #[trigger] bs[j].0@ == name
}

/// The code of the first `k` bindings of a `let`, with the environment, the
/// next free slot and the label counter after them.
pub open spec fn compile_let(
    bs: Seq<(String, Expr)>,
    k: nat,
    si: int,
    env: Map<Seq<char>, i32>,
    lc: int,
    brk: Option<Seq<char>>,
) -> Result<(Seq<InstrV>, Map<Seq<char>, i32>, int, int), CompileError>
    decreases bs, k,
{
    if k == 0 || k > bs.len() {
        Ok((seq![], env, si, lc))
    } else {
        match compile_let(bs, (k - 1) as nat, si, env, lc, brk) {
            Ok((ib, env1, si1, lc1)) => if bound_before(bs, k - 1, bs[k - 1].0@) {
                Err(CompileError::DuplicateBinding)
            } else {
                match compile_spec(bs[k - 1].1, si1, env1, lc1, brk) {
                    Ok((ix, lc2)) => Ok(
                        (
                            ib + ix + seq![InstrV::IMov(slot(si1), rax())],
                            env1.insert(bs[k - 1].0@, (-8 * si1) as i32),
                            si1 + 1,
                            lc2,
                        ),
                    ),
                    Err(x) => Err(x),
                }
            },
            Err(x) => Err(x),
        }
    }
}

/// The code of the first `k` expressions of a block, one after the other.
pub open spec fn compile_block(
    es: Seq<Expr>,
    k: nat,
    si: int,
    env: Map<Seq<char>, i32>,
    lc: int,
    brk: Option<Seq<char>>,
) -> Result<(Seq<InstrV>, int), CompileError>
    decreases es, k,
{
    if k == 0 || k > es.len() {
        Ok((seq![], lc))
    } else {
        match compile_block(es, (k - 1) as nat, si, env, lc, brk) {
            Ok((ib, lc1)) => match compile_spec(es[k - 1], si, env, lc1, brk) {
                Ok((ie, lc2)) => Ok((ib + ie, lc2)),
                Err(x) => Err(x),
            },
            Err(x) => Err(x),
        }
    }
}

/// Makes a fresh label: increments the counter and appends it to `name`.
pub fn new_label(label_counter: &mut i32, name: &str) -> (l: String)
    requires
        *old(label_counter) < i32::MAX,
    ensures
        *final(label_counter) == *old(label_counter) + 1,
        l@ == label_text(name@, *final(label_counter) as int),
{
    *label_counter += 1;
    let mut l = String::from_str(name);
    l.append("_");
    l.append(int_text(*label_counter as i64).as_str());
    l
}


fn append_code(v: &mut Vec<Instr>, w: Vec<Instr>)
    ensures
        view_instrs(final(v)@) == view_instrs(old(v)@) + view_instrs(w@),
{
    let ghost w0 = w@;
    let mut w = w;
    v.append(&mut w);
    proof {
        lemma_view_instrs_add(old(v)@, w0);
    }
}

fn single(i: Instr) -> (v: Vec<Instr>)
    ensures
        view_instrs(v@) == seq![i@],
{
    let v = vec![i];
    assert(view_instrs(v@) =~= seq![v@[0]@]);
    v
}

fn num_check_code() -> (v: Vec<Instr>)
    ensures
        view_instrs(v@) == num_check(),
{
    let v = vec![
        Instr::IMov(Val::Reg(Reg::RBX), Val::Reg(Reg::RAX)),
        Instr::IAnd(Val::Reg(Reg::RBX), Val::Imm(1)),
        Instr::ICmp(Val::Reg(Reg::RBX), Val::Imm(0)),
        Instr::IJne(String::from_str("throw_error")),
    ];
    assert(view_instrs(v@) =~= num_check());
    v
}

fn tag_test_code(mask: i64, tag: i64, skip: String) -> (v: Vec<Instr>)
    ensures
        view_instrs(v@) == tag_test(mask, tag, skip@),
{
    let v = vec![
        Instr::IMov(Val::Reg(Reg::RBX), Val::Reg(Reg::RAX)),
        Instr::IAnd(Val::Reg(Reg::RBX), Val::Imm(mask)),
        Instr::ICmp(Val::Reg(Reg::RBX), Val::Imm(tag)),
        Instr::IMov(Val::Reg(Reg::RAX), Val::Imm(FALSE_VAL)),
        Instr::IJne(skip.clone()),
        Instr::IMov(Val::Reg(Reg::RAX), Val::Imm(TRUE_VAL)),
        Instr::ILabel(skip),
    ];
    assert(view_instrs(v@) =~= tag_test(mask, tag, skip@));
    v
}

fn unop_tail(op: UnOp, label_counter: &mut i32) -> (v: Vec<Instr>)
    requires
        *old(label_counter) + unop_labels(op) <= i32::MAX,
    ensures
        (view_instrs(v@), *final(label_counter) as int) == unop_code(op, *old(label_counter) as int),
{
    match op {
        UnOp::Add1 => single(Instr::IAdd(Val::Reg(Reg::RAX), Val::Imm(encode_num(1)))),
        UnOp::Sub1 => single(Instr::ISub(Val::Reg(Reg::RAX), Val::Imm(encode_num(1)))),
        UnOp::Negate => single(Instr::IMul(Val::Reg(Reg::RAX), Val::Imm(-1))),
        UnOp::IsNum => {
            let skip = new_label(label_counter, "isnum_skip");
            tag_test_code(NUM_TAG_MASK, NUM_TAG, skip)
        },
        UnOp::IsBool => {
            let skip = new_label(label_counter, "isbool_skip");
            tag_test_code(BOOL_TAG_MASK, BOOL_TAG, skip)
        },
    }
}

fn comparison_jump_instr(op: BinOp, l: String) -> (i: Instr)
    ensures
        i@ == comparison_jump(op, l@),
{
    match op {
        BinOp::Less => Instr::IJge(l),
        BinOp::Greater => Instr::IJle(l),
        BinOp::LessEq => Instr::IJg(l),
        BinOp::GreaterEq => Instr::IJl(l),
        _ => Instr::IJne(l),
    }
}

fn comparison_label_names(op: BinOp) -> (names: (&'static str, &'static str))
    ensures
        names.0@ == comparison_names(op).0,
        names.1@ == comparison_names(op).1,
{
    match op {
        BinOp::Less => ("less_else", "less_end"),
        BinOp::Greater => ("greater_else", "greater_end"),
        BinOp::LessEq => ("lesseq_else", "lesseq_end"),
        BinOp::GreaterEq => ("greatereq_else", "greatereq_end"),
        _ => ("equal_else", "equal_end"),
    }
}

fn binop_tail(op: BinOp, left: Val, label_counter: &mut i32) -> (v: Vec<Instr>)
    requires
        *old(label_counter) + binop_labels(op) <= i32::MAX,
    ensures
        (view_instrs(v@), *final(label_counter) as int) == binop_code(
            op,
            left,
            *old(label_counter) as int,
        ),
{
    match op {
        BinOp::Plus => single(Instr::IAdd(Val::Reg(Reg::RAX), left)),
        BinOp::Minus => {
            let v = vec![
                Instr::IMov(Val::Reg(Reg::RBX), Val::Reg(Reg::RAX)),
                Instr::IMov(Val::Reg(Reg::RAX), left),
                Instr::ISub(Val::Reg(Reg::RAX), Val::Reg(Reg::RBX)),
            ];
            assert(view_instrs(v@) =~= binop_code(op, left, *old(label_counter) as int).0);
            v
        },
        BinOp::Times => {
            let v = vec![
                Instr::IMov(Val::Reg(Reg::RBX), left),
                Instr::IMul(Val::Reg(Reg::RAX), Val::Reg(Reg::RBX)),
                Instr::ISar(Val::Reg(Reg::RAX), Val::Imm(1)),
            ];
            assert(view_instrs(v@) =~= binop_code(op, left, *old(label_counter) as int).0);
            v
        },
        _ => {
            let names = comparison_label_names(op);
            let else_label = new_label(label_counter, names.0);
            let end_label = new_label(label_counter, names.1);
            let jump = comparison_jump_instr(op, else_label.clone());
            let v = vec![
                Instr::ICmp(Val::Reg(Reg::RAX), left),
                jump,
                Instr::IMov(Val::Reg(Reg::RAX), Val::Imm(FALSE_VAL)),
                Instr::IJmp(end_label.clone()),
                Instr::ILabel(else_label),
                Instr::IMov(Val::Reg(Reg::RAX), Val::Imm(TRUE_VAL)),
                Instr::ILabel(end_label),
            ];
            assert(view_instrs(v@) =~= binop_code(op, left, *old(label_counter) as int).0);
            v
        },
    }
}


proof fn lemma_let_err_stays(
    bs: Seq<(String, Expr)>,
    k1: nat,
    k2: nat,
    si: int,
    env: Map<Seq<char>, i32>,
    lc: int,
    brk: Option<Seq<char>>,
)
    requires
        k1 <= k2 <= bs.len(),
        compile_let(bs, k1, si, env, lc, brk) is Err,
    ensures
        compile_let(bs, k2, si, env, lc, brk) == compile_let(bs, k1, si, env, lc, brk),
    decreases k2 - k1,
{
    if k1 < k2 {
        lemma_let_err_stays(bs, k1, (k2 - 1) as nat, si, env, lc, brk);
    }
}

proof fn lemma_block_err_stays(
    es: Seq<Expr>,
    k1: nat,
    k2: nat,
    si: int,
    env: Map<Seq<char>, i32>,
    lc: int,
    brk: Option<Seq<char>>,
)
    requires
        k1 <= k2 <= es.len(),
        compile_block(es, k1, si, env, lc, brk) is Err,
    ensures
        compile_block(es, k2, si, env, lc, brk) == compile_block(es, k1, si, env, lc, brk),
    decreases k2 - k1,
{
    if k1 < k2 {
        lemma_block_err_stays(es, k1, (k2 - 1) as nat, si, env, lc, brk);
    }
}

/// Compiles `e` to instructions that leave its value in `rax`.
///
/// `si` is the first free stack slot (the word at `rsp - 8 * si`), `env` maps
/// each variable in scope to the stack offset of its slot, `label_counter`
/// numbers the fresh labels, and `break_target` is the label that a `break`
/// jumps to. A binary operation keeps its left operand in slot `si`; a `let`
/// stores its bindings in the slots from `si` on.
pub fn compile_to_instrs(
    e: &Expr,
    si: i32,
    env: &im::HashMap<String, i32>,
    label_counter: &mut i32,
    break_target: &Option<String>,
) -> (r: Result<Vec<Instr>, CompileError>)
    requires
        within_limits(*e, si as int, *old(label_counter) as int),
    ensures
        *old(label_counter) <= *final(label_counter) <= *old(label_counter) + labels_needed(*e),
        match compile_spec(
            *e,
            si as int,
            env_contents(*env),
            *old(label_counter) as int,
            target_text(*break_target),
        ) {
            Ok((code, lc)) => r matches Ok(v) && view_instrs(v@) == code && *final(label_counter)
                == lc,
            Err(x) => r == Err::<Vec<Instr>, CompileError>(x),
        },
    decreases e,
{
    match e {
        Expr::Number(n) => Ok(single(Instr::IMov(Val::Reg(Reg::RAX), Val::Imm(encode_num(*n))))),
        Expr::Bool(b) => {
            let val: i64 = if *b {
                1
            } else {
                3
            };
            Ok(single(Instr::IMov(Val::Reg(Reg::RAX), Val::Imm(val))))
        },
        Expr::Id(name) => match env_get(env, name) {
            Some(offset) => Ok(single(Instr::IMov(Val::Reg(Reg::RAX), Val::RegOffset(Reg::RSP, offset)))),
            None => Err(CompileError::UnboundVariable(name.clone())),
        },
        Expr::Var(name) => match env_get(env, name) {
            Some(offset) => Ok(single(Instr::IMov(Val::Reg(Reg::RAX), Val::RegOffset(Reg::RSP, offset)))),
            None => Err(CompileError::UnboundVariable(name.clone())),
        },
        Expr::Input => Ok(single(Instr::IMov(Val::Reg(Reg::RAX), Val::Reg(Reg::RDI)))),
        Expr::UnOp(op, a) => {
            let mut v = compile_to_instrs(a, si, env, label_counter, break_target)?;
            let tail = unop_tail(*op, label_counter);
            append_code(&mut v, tail);
            Ok(v)
        },
        Expr::BinOp(op, left, right) => {
            let mut v = compile_to_instrs(left, si, env, label_counter, break_target)?;
            let offset: i32 = -8 * si;
            append_code(&mut v, num_check_code());
            append_code(&mut v, single(Instr::IMov(Val::RegOffset(Reg::RSP, offset), Val::Reg(Reg::RAX))));
            let right_code = compile_to_instrs(right, si + 1, env, label_counter, break_target)?;
            append_code(&mut v, right_code);
            append_code(&mut v, num_check_code());
            let tail = binop_tail(*op, Val::RegOffset(Reg::RSP, offset), label_counter);
            append_code(&mut v, tail);
            Ok(v)
        },
        Expr::Let(bindings, body) => {
            let (mut instrs, body_env, body_si) = compile_bindings(
                bindings,
                si,
                env,
                label_counter,
                break_target,
            )?;
            let body_code = compile_to_instrs(body, body_si, &body_env, label_counter, break_target)?;
            append_code(&mut instrs, body_code);
            Ok(instrs)
        },
        Expr::If(cond, then_expr, else_expr) => {
            let else_label = new_label(label_counter, "if_else");
            let end_label = new_label(label_counter, "if_end");
            let mut v = compile_to_instrs(cond, si, env, label_counter, break_target)?;
            append_code(&mut v, single(Instr::ICmp(Val::Reg(Reg::RAX), Val::Imm(1))));
            append_code(&mut v, single(Instr::IJne(else_label.clone())));
            let then_code = compile_to_instrs(then_expr, si, env, label_counter, break_target)?;
            append_code(&mut v, then_code);
            append_code(&mut v, single(Instr::IJmp(end_label.clone())));
            append_code(&mut v, single(Instr::ILabel(else_label)));
            let else_code = compile_to_instrs(else_expr, si, env, label_counter, break_target)?;
            append_code(&mut v, else_code);
            append_code(&mut v, single(Instr::ILabel(end_label)));
            Ok(v)
        },
        Expr::Loop(body) => {
            let start_label = new_label(label_counter, "loop_start");
            let end_label = new_label(label_counter, "loop_end");
            let mut v = single(Instr::ILabel(start_label.clone()));
            let target = Some(end_label.clone());
            let body_code = compile_to_instrs(body, si, env, label_counter, &target)?;
            append_code(&mut v, body_code);
            append_code(&mut v, single(Instr::IJmp(start_label)));
            append_code(&mut v, single(Instr::ILabel(end_label)));
            Ok(v)
        },
        Expr::Break(a) => match break_target {
            Some(label) => {
                let mut v = compile_to_instrs(a, si, env, label_counter, break_target)?;
                append_code(&mut v, single(Instr::IJmp(label.clone())));
                Ok(v)
            },
            None => Err(CompileError::BreakOutsideLoop),
        },
        Expr::SetVar(name, a) => {
            let mut v = compile_to_instrs(a, si, env, label_counter, break_target)?;
            match env_get(env, name) {
                Some(offset) => {
                    append_code(&mut v, single(Instr::IMov(Val::RegOffset(Reg::RSP, offset), Val::Reg(Reg::RAX))));
                    Ok(v)
                },
                None => Err(CompileError::UnboundVariable(name.clone())),
            }
        },
        Expr::Block(exprs) => compile_exprs(exprs, si, env, label_counter, break_target),
    }
}


/// Compiles the bindings of a `let`, each into the slot after the previous
/// one, and gives the environment and the first free slot after them.
#[verifier::loop_isolation(false)]
fn compile_bindings(
    bindings: &Vec<(String, Expr)>,
    si: i32,
    env: &im::HashMap<String, i32>,
    label_counter: &mut i32,
    break_target: &Option<String>,
) -> (r: Result<(Vec<Instr>, im::HashMap<String, i32>, i32), CompileError>)
    requires
        let_slots_fit(bindings@, bindings@.len(), si as int),
        *old(label_counter) + let_labels(bindings@, bindings@.len()) <= i32::MAX,
    ensures
        *old(label_counter) <= *final(label_counter) <= *old(label_counter) + let_labels(
            bindings@,
            bindings@.len(),
        ),
        r matches Ok((_, _, s)) ==> s as int == si as int + bindings@.len(),
        match compile_let(
            bindings@,
            bindings@.len(),
            si as int,
            env_contents(*env),
            *old(label_counter) as int,
            target_text(*break_target),
        ) {
            Ok((code, env1, si1, lc1)) => r matches Ok((v, m, s)) && view_instrs(v@) == code
                && env_contents(m) == env1 && s == si1 && *final(label_counter) == lc1,
            Err(x) => r matches Err(y) && y == x,
        },
    decreases bindings,
{
    let ghost genv = env_contents(*env);
    let ghost lc0 = *label_counter as int;
    let ghost brk = target_text(*break_target);
    let mut instrs: Vec<Instr> = Vec::new();
    let mut seen = seen_new();
    let mut current_env = env_clone(env);
    let mut current_si: i32 = si;
    let mut i: usize = 0;
    proof {
        assert(view_instrs(instrs@) =~= seq![]);
        lemma_let_labels_mono(bindings@, 0, bindings@.len());
    }
    while i < bindings.len()
        invariant
            0 <= i <= bindings@.len(),
            current_si as int == si as int + i,
            forall|nm: Seq<char>|
                seen_contents(seen).dom().contains(nm) <==> bound_before(
                    bindings@,
                    i as int,
                    nm,
                ),
            compile_let(bindings@, i as nat, si as int, genv, lc0, brk) == Ok::<
                _,
                CompileError,
            >(
                (
                    view_instrs(instrs@),
                    env_contents(current_env),
                    current_si as int,
                    *label_counter as int,
                ),
            ),
            lc0 <= *label_counter <= lc0 + let_labels(bindings@, i as nat),
        decreases bindings@.len() - i,
    {
        let binding = &bindings[i];
        proof {
            lemma_let_labels_mono(bindings@, (i + 1) as nat, bindings@.len());
            lemma_let_slots_at(bindings@, bindings@.len(), si as int, i as nat);
        }
        if seen_contains(&seen, &binding.0) {
            proof {
                assert(compile_let(bindings@, (i + 1) as nat, si as int, genv, lc0, brk)
                    == Err::<(Seq<InstrV>, Map<Seq<char>, i32>, int, int), CompileError>(
                    CompileError::DuplicateBinding,
                ));
                lemma_let_err_stays(
                    bindings@,
                    (i + 1) as nat,
                    bindings@.len(),
                    si as int,
                    genv,
                    lc0,
                    brk,
                );
            }
            return Err(CompileError::DuplicateBinding);
        }
        seen_insert(&mut seen, binding.0.clone(), true);
        proof {
            assert forall|nm: Seq<char>|
                seen_contents(seen).dom().contains(nm) <==> bound_before(
                    bindings@,
                    i + 1,
                    nm,
                ) by {
                if bound_before(bindings@, i + 1, nm) && !bound_before(
                    bindings@,
                    i as int,
                    nm,
                ) {
                    let j = choose|j: int| 0 <= j < i + 1 && #[trigger] bindings@[j].0@ == nm;
                    assert(j == i);
                }
            }
        }
        match compile_to_instrs(&binding.1, current_si, &current_env, label_counter, break_target) {
            Ok(code) => {
                let offset: i32 = -8 * current_si;
                append_code(&mut instrs, code);
                append_code(
                    &mut instrs,
                    single(Instr::IMov(Val::RegOffset(Reg::RSP, offset), Val::Reg(Reg::RAX))),
                );
                env_insert(&mut current_env, binding.0.clone(), offset);
                current_si = current_si + 1;
            },
            Err(x) => {
                proof {
                    lemma_let_err_stays(
                        bindings@,
                        (i + 1) as nat,
                        bindings@.len(),
                        si as int,
                        genv,
                        lc0,
                        brk,
                    );
                }
                return Err(x);
            },
        }
        i = i + 1;
    }
    Ok((instrs, current_env, current_si))
}

/// Compiles the expressions of a block one after the other.
#[verifier::loop_isolation(false)]
fn compile_exprs(
    exprs: &Vec<Expr>,
    si: i32,
    env: &im::HashMap<String, i32>,
    label_counter: &mut i32,
    break_target: &Option<String>,
) -> (r: Result<Vec<Instr>, CompileError>)
    requires
        block_slots_fit(exprs@, exprs@.len(), si as int),
        *old(label_counter) + block_labels(exprs@, exprs@.len()) <= i32::MAX,
    ensures
        *old(label_counter) <= *final(label_counter) <= *old(label_counter) + block_labels(
            exprs@,
            exprs@.len(),
        ),
        match compile_block(
            exprs@,
            exprs@.len(),
            si as int,
            env_contents(*env),
            *old(label_counter) as int,
            target_text(*break_target),
        ) {
            Ok((code, lc1)) => r matches Ok(v) && view_instrs(v@) == code && *final(label_counter)
                == lc1,
            Err(x) => r == Err::<Vec<Instr>, CompileError>(x),
        },
    decreases exprs,
{
    let ghost genv = env_contents(*env);
    let ghost lc0 = *label_counter as int;
    let ghost brk = target_text(*break_target);
    let mut instrs: Vec<Instr> = Vec::new();
    let mut i: usize = 0;
    proof {
        assert(view_instrs(instrs@) =~= seq![]);
        lemma_block_labels_mono(exprs@, 0, exprs@.len());
    }
    while i < exprs.len()
        invariant
            0 <= i <= exprs@.len(),
            compile_block(exprs@, i as nat, si as int, genv, lc0, brk) == Ok::<
                _,
                CompileError,
            >((view_instrs(instrs@), *label_counter as int)),
            lc0 <= *label_counter <= lc0 + block_labels(exprs@, i as nat),
        decreases exprs@.len() - i,
    {
        proof {
            lemma_block_labels_mono(exprs@, (i + 1) as nat, exprs@.len());
            lemma_block_slots_at(exprs@, exprs@.len(), si as int, i as nat);
        }
        match compile_to_instrs(&exprs[i], si, env, label_counter, break_target) {
            Ok(code) => {
                append_code(&mut instrs, code);
            },
            Err(x) => {
                proof {
                    lemma_block_err_stays(
                        exprs@,
                        (i + 1) as nat,
                        exprs@.len(),
                        si as int,
                        genv,
                        lc0,
                        brk,
                    );
                }
                return Err(x);
            },
        }
        i = i + 1;
    }
    Ok(instrs)
}

/// The text with which the command-line compiler stops on a compile error.
pub open spec fn compile_error_text(e: CompileError) -> Seq<char> {
    match e {
        CompileError::DuplicateBinding => "Duplicate binding"@,
        CompileError::UnboundVariable(name) => "Unbound variable identifier "@ + name@,
        CompileError::BreakOutsideLoop => "Break statement not within a loop"@,
    }
}

impl CompileError {
    /// The text with which the command-line compiler stops on this error.
    pub fn message(&self) -> (m: String)
        ensures
            m@ == compile_error_text(*self),
    {
        match self {
            CompileError::DuplicateBinding => String::from_str("Duplicate binding"),
            CompileError::UnboundVariable(name) => {
                let mut m = String::from_str("Unbound variable identifier ");
                m.append(name.as_str());
                m
            },
            CompileError::BreakOutsideLoop => String::from_str("Break statement not within a loop"),
        }
    }
}

/// Every instruction of `code` can be written as text.
pub open spec fn renderable_code(code: Seq<InstrV>) -> bool {
    forall|i: int| 0 <= i < code.len() ==> instr_renderable(#[trigger] code[i])
}

/// The texts of the instructions of `code`, joined by a newline and two spaces.
pub open spec fn join_text(code: Seq<InstrV>) -> Seq<char>
    decreases code.len(),
{
    if code.len() == 0 {
        Seq::empty()
    } else if code.len() == 1 {
        instr_text(code[0])
    } else {
        join_text(code.drop_last()) + "\n  "@ + instr_text(code.last())
    }
}

/// The texts of the instructions, joined by a newline and two spaces.
pub fn render(instrs: &Vec<Instr>) -> (t: String)
    requires
        renderable_code(view_instrs(instrs@)),
    ensures
        t@ == join_text(view_instrs(instrs@)),
{
    let ghost code = view_instrs(instrs@);
    let mut t = String::new();
    let mut i: usize = 0;
    while i < instrs.len()
        invariant
            i <= instrs@.len(),
            code == view_instrs(instrs@),
            renderable_code(code),
            t@ == join_text(code.take(i as int)),
        decreases instrs@.len() - i,
    {
        assert(code[i as int] == instrs@[i as int]@);
        let line = instr_to_str(&instrs[i]);
        proof {
            assert(code.take(i + 1).drop_last() =~= code.take(i as int));
            assert(code.take(i + 1).last() == code[i as int]);
        }
        if i > 0 {
            t.append("\n  ");
        }
        t.append(line.as_str());
        proof {
            if i == 0 {
                assert(t@ =~= join_text(code.take(1)));
            } else {
                assert(t@ =~= join_text(code.take(i + 1)));
            }
        }
        i = i + 1;
    }
    assert(code.take(instrs@.len() as int) =~= code);
    t
}

/// Every variable's slot offset can be written as text (it is not `i32::MIN`).
pub open spec fn offsets_renderable(env: Map<Seq<char>, i32>) -> bool {
    forall|x: Seq<char>| #[trigger] env.dom().contains(x) ==> env[x] != i32::MIN
}

proof fn lemma_renderable_concat(a: Seq<InstrV>, b: Seq<InstrV>)
    requires
        renderable_code(a),
        renderable_code(b),
    ensures
        renderable_code(a + b),
{
    let c = a + b;
    assert forall|k: int| 0 <= k < c.len() implies instr_renderable(#[trigger] c[k]) by {
        if k < a.len() {
            assert(c[k] == a[k]);
        } else {
            assert(c[k] == b[k - a.len()]);
        }
    }
}

proof fn lemma_slot_renderable(si: int)
    requires
        slot_ok(si),
    ensures
        val_renderable(slot(si)),
        (-8 * si) as i32 as int == -8 * si,
{
}

/// Within the machine limits, every instruction of the code of an
/// expression can be written as text: no stack offset in it is `i32::MIN`.
pub proof fn lemma_code_renderable(
    e: Expr,
    si: int,
    env: Map<Seq<char>, i32>,
    lc: int,
    brk: Option<Seq<char>>,
)
    requires
        slots_fit(e, si),
        offsets_renderable(env),
    ensures
        compile_spec(e, si, env, lc, brk) matches Ok((code, _)) ==> renderable_code(code),
    decreases e, 0nat,
{
    match e {
        Expr::UnOp(op, a) => {
            lemma_code_renderable(*a, si, env, lc, brk);
            if let Ok((ia, lc1)) = compile_spec(*a, si, env, lc, brk) {
                assert(renderable_code(unop_code(op, lc1).0));
                lemma_renderable_concat(ia, unop_code(op, lc1).0);
            }
        },
        Expr::BinOp(op, l, r) => {
            lemma_code_renderable(*l, si, env, lc, brk);
            if let Ok((il, lc1)) = compile_spec(*l, si, env, lc, brk) {
                lemma_code_renderable(*r, si + 1, env, lc1, brk);
                if let Ok((ir, lc2)) = compile_spec(*r, si + 1, env, lc1, brk) {
                    lemma_slot_renderable(si);
                    let nc = num_check();
                    let pm = seq![InstrV::IMov(slot(si), rax())];
                    let tail = binop_code(op, slot(si), lc2).0;
                    assert(renderable_code(nc));
                    assert(renderable_code(pm));
                    assert(renderable_code(tail));
                    lemma_renderable_concat(il, nc);
                    lemma_renderable_concat(il + nc, pm);
                    lemma_renderable_concat(il + nc + pm, ir);
                    lemma_renderable_concat(il + nc + pm + ir, nc);
                    lemma_renderable_concat(il + nc + pm + ir + nc, tail);
                }
            }
        },
        Expr::Let(bs, body) => {
            lemma_let_renderable(bs@, bs@.len(), si, env, lc, brk);
            if let Ok((ib, env1, si1, lc1)) = compile_let(bs@, bs@.len(), si, env, lc, brk) {
                lemma_code_renderable(*body, si1, env1, lc1, brk);
                if let Ok((ibody, _)) = compile_spec(*body, si1, env1, lc1, brk) {
                    lemma_renderable_concat(ib, ibody);
                }
            }
        },
        Expr::If(c, t, f) => {
            let else_l = label_text("if_else"@, lc + 1);
            let end_l = label_text("if_end"@, lc + 2);
            lemma_code_renderable(*c, si, env, lc + 2, brk);
            if let Ok((ic, lc1)) = compile_spec(*c, si, env, lc + 2, brk) {
                lemma_code_renderable(*t, si, env, lc1, brk);
                if let Ok((it, lc2)) = compile_spec(*t, si, env, lc1, brk) {
                    lemma_code_renderable(*f, si, env, lc2, brk);
                    if let Ok((i_f, _)) = compile_spec(*f, si, env, lc2, brk) {
                        let p1 = seq![InstrV::ICmp(rax(), Val::Imm(1)), InstrV::IJne(else_l)];
                        let p2 = seq![InstrV::IJmp(end_l), InstrV::ILabel(else_l)];
                        let p3 = seq![InstrV::ILabel(end_l)];
                        assert(renderable_code(p1));
                        assert(renderable_code(p2));
                        assert(renderable_code(p3));
                        lemma_renderable_concat(ic, p1);
                        lemma_renderable_concat(ic + p1, it);
                        lemma_renderable_concat(ic + p1 + it, p2);
                        lemma_renderable_concat(ic + p1 + it + p2, i_f);
                        lemma_renderable_concat(ic + p1 + it + p2 + i_f, p3);
                    }
                }
            }
        },
        Expr::Block(es) => {
            lemma_block_renderable(es@, es@.len(), si, env, lc, brk);
        },
        Expr::Loop(body) => {
            let start_l = label_text("loop_start"@, lc + 1);
            let end_l = label_text("loop_end"@, lc + 2);
            lemma_code_renderable(*body, si, env, lc + 2, Some(end_l));
            if let Ok((ib, _)) = compile_spec(*body, si, env, lc + 2, Some(end_l)) {
                let p0 = seq![InstrV::ILabel(start_l)];
                let p4 = seq![InstrV::IJmp(start_l), InstrV::ILabel(end_l)];
                assert(renderable_code(p0));
                assert(renderable_code(p4));
                lemma_renderable_concat(p0, ib);
                lemma_renderable_concat(p0 + ib, p4);
            }
        },
        Expr::Break(a) => {
            lemma_code_renderable(*a, si, env, lc, brk);
            if let Ok(_) = compile_spec(e, si, env, lc, brk) {
                let (ia, _) = compile_spec(*a, si, env, lc, brk)->Ok_0;
                let pj = seq![InstrV::IJmp(brk->Some_0)];
                assert(renderable_code(pj));
                lemma_renderable_concat(ia, pj);
            }
        },
        Expr::SetVar(name, a) => {
            lemma_code_renderable(*a, si, env, lc, brk);
            if let Ok(_) = compile_spec(e, si, env, lc, brk) {
                let (ia, _) = compile_spec(*a, si, env, lc, brk)->Ok_0;
                let pm = seq![InstrV::IMov(Val::RegOffset(Reg::RSP, env[name@]), rax())];
                assert(env.dom().contains(name@));
                assert(renderable_code(pm));
                lemma_renderable_concat(ia, pm);
            }
        },
        Expr::Id(name) => {
            if env.dom().contains(name@) {
                assert(renderable_code(lookup_code(env, name, lc)->Ok_0.0));
            }
        },
        Expr::Var(name) => {
            if env.dom().contains(name@) {
                assert(renderable_code(lookup_code(env, name, lc)->Ok_0.0));
            }
        },
        _ => {
            if let Ok((code, _)) = compile_spec(e, si, env, lc, brk) {
                assert(renderable_code(code));
            }
        },
    }
}

/// The same for the first `k` bindings of a `let`, which give each variable
/// a renderable slot, the one after the previous.
pub proof fn lemma_let_renderable(
    bs: Seq<(String, Expr)>,
    k: nat,
    si: int,
    env: Map<Seq<char>, i32>,
    lc: int,
    brk: Option<Seq<char>>,
)
    requires
        let_slots_fit(bs, k, si),
        offsets_renderable(env),
    ensures
        compile_let(bs, k, si, env, lc, brk) matches Ok((code, env1, si1, _)) ==> {
            &&& renderable_code(code)
            &&& offsets_renderable(env1)
            &&& k <= bs.len() ==> si1 == si + k
        },
    decreases bs, k,
{
    if k == 0 || k > bs.len() {
        assert(renderable_code(Seq::<InstrV>::empty()));
    } else {
        lemma_let_renderable(bs, (k - 1) as nat, si, env, lc, brk);
        if let Ok((ib, env1, si1, lc1)) = compile_let(bs, (k - 1) as nat, si, env, lc, brk) {
            lemma_code_renderable(bs[k - 1].1, si1, env1, lc1, brk);
            if let Ok((_, env2, _, _)) = compile_let(bs, k, si, env, lc, brk) {
                let (ix, _) = compile_spec(bs[k - 1].1, si1, env1, lc1, brk)->Ok_0;
                lemma_slot_renderable(si1);
                let pm = seq![InstrV::IMov(slot(si1), rax())];
                assert(renderable_code(pm));
                lemma_renderable_concat(ib, ix);
                lemma_renderable_concat(ib + ix, pm);
                assert(env2 == env1.insert(bs[k - 1].0@, (-8 * si1) as i32));
                assert forall|x: Seq<char>| #[trigger] env2.dom().contains(x) implies env2[x]
                    != i32::MIN by {
                    if x != bs[k - 1].0@ {
                        assert(env1.dom().contains(x));
                    }
                }
            }
        }
    }
}

/// The same for the first `k` expressions of a block.
pub proof fn lemma_block_renderable(
    es: Seq<Expr>,
    k: nat,
    si: int,
    env: Map<Seq<char>, i32>,
    lc: int,
    brk: Option<Seq<char>>,
)
    requires
        block_slots_fit(es, k, si),
        offsets_renderable(env),
    ensures
        compile_block(es, k, si, env, lc, brk) matches Ok((code, _)) ==> renderable_code(code),
    decreases es, k,
{
    if k == 0 || k > es.len() {
        assert(renderable_code(Seq::<InstrV>::empty()));
    } else {
        lemma_block_renderable(es, (k - 1) as nat, si, env, lc, brk);
        if let Ok((ib, lc1)) = compile_block(es, (k - 1) as nat, si, env, lc, brk) {
            lemma_code_renderable(es[k - 1], si, env, lc1, brk);
            if let Ok((ie, _)) = compile_spec(es[k - 1], si, env, lc1, brk) {
                lemma_renderable_concat(ib, ie);
            }
        }
    }
}

/// The outcome of compiling `e` as a whole program: no variables, the first
/// free slot 2, the label counter 0 and no enclosing loop.
pub open spec fn compile_program_spec(e: Expr) -> Result<(Seq<InstrV>, int), CompileError> {
    compile_spec(e, 2, Map::empty(), 0, None)
}

/// Compiles `e` as a whole program into the text of its instructions: the
/// texts of what `compile_to_instrs` gives from slot 2, no variables, the
/// label counter 0 and no loop, joined by a newline and two spaces.
pub fn compile(e: &Expr) -> (r: Result<String, CompileError>)
    requires
        within_limits(*e, 2, 0),
    ensures
        match compile_program_spec(*e) {
            Ok((code, _)) => r matches Ok(t) && t@ == join_text(code),
            Err(x) => r == Err::<String, CompileError>(x),
        },
{
    let env = env_new();
    let mut label_counter: i32 = 0;
    let instrs = compile_to_instrs(e, 2, &env, &mut label_counter, &None)?;
    proof {
        lemma_code_renderable(*e, 2, Map::empty(), 0, None);
    }
    Ok(render(&instrs))
}

/// The text of the assembly file for a program whose instructions have the text `body`.
pub open spec fn program_text(body: Seq<char>) -> Seq<char> {
    "section .text\n        extern _snek_error              ; Tell linker snek_error is external\n        global our_code_starts_here    ; Add underscore for Mac\n        our_code_starts_here:          ; Add underscore for Mac\n            "@
        + body
        + "\n            ret\n        \n        throw_error:                    ; Give this a unique name\n            mov rdi, 1                  ; Put error code in rdi\n            call _snek_error\n\n"@
}

/// The text `t` holds `word` at the position `i`.
pub open spec fn holds_at(t: Seq<char>, i: int, word: Seq<char>) -> bool {
    0 <= i && i + word.len() <= t.len() && t.subrange(i, i + word.len()) == word
}

/// Every assembly file exports its entry point: whatever the instructions,
/// the file declares `global our_code_starts_here` before the label
/// `our_code_starts_here:` that starts the program's code.
pub proof fn lemma_file_exports_entry(body: Seq<char>)
    ensures
        exists|i: int, j: int|
            i < j && holds_at(program_text(body), i, "global our_code_starts_here"@) && holds_at(
                program_text(body),
                j,
                "our_code_starts_here:"@,
            ),
{
    reveal_strlit("global our_code_starts_here");
    reveal_strlit("our_code_starts_here:");
    reveal_strlit("section .text\n        extern _snek_error              ; Tell linker snek_error is external\n        global our_code_starts_here    ; Add underscore for Mac\n        our_code_starts_here:          ; Add underscore for Mac\n            ");
    let t = program_text(body);
    assert(t.subrange(99, 126) =~= "global our_code_starts_here"@);
    assert(t.subrange(163, 184) =~= "our_code_starts_here:"@);
    assert(holds_at(t, 99, "global our_code_starts_here"@));
    assert(holds_at(t, 163, "our_code_starts_here:"@));
}

/// Wraps the text of a program's instructions in the assembly file around it.
pub fn assembly_file(body: &str) -> (t: String)
    ensures
        t@ == program_text(body@),
        exists|i: int, j: int|
            i < j && holds_at(t@, i, "global our_code_starts_here"@) && holds_at(
                t@,
                j,
                "our_code_starts_here:"@,
            ),
{
    proof {
        lemma_file_exports_entry(body@);
    }
    let mut t = String::from_str("section .text\n        extern _snek_error              ; Tell linker snek_error is external\n        global our_code_starts_here    ; Add underscore for Mac\n        our_code_starts_here:          ; Add underscore for Mac\n            ");
    t.append(body);
    t.append("\n            ret\n        \n        throw_error:                    ; Give this a unique name\n            mov rdi, 1                  ; Put error code in rdi\n            call _snek_error\n\n");
    t
}


} // verus!
