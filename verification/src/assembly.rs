//! The assembly that the compiler produces, and its text.

use vstd::prelude::*;
use vstd::string::*;
use crate::text::{decimal, int_text};

verus! {

/// Registers.
#[derive(Debug, Clone, Copy, PartialEq, Eq, Structural)]
pub enum Reg {
    RAX,
    RSP,
    RBX,
    RDI,
}

/// Operands of instructions.
#[derive(Debug, Clone, Copy, PartialEq, Eq, Structural)]
pub enum Val {
    /// A register.
    Reg(Reg),
    /// An immediate value.
    Imm(i64),
    /// A memory word at a byte offset from a register, such as `[rsp - 8]`.
    RegOffset(Reg, i32),
}

/// Instructions.
#[derive(Debug)]
pub enum Instr {
    IMov(Val, Val),
    IAdd(Val, Val),
    ISub(Val, Val),
    IMul(Val, Val),
    ICmp(Val, Val),
    IJmp(String),
    IJne(String),
    ILabel(String),
    IAnd(Val, Val),
    IJge(String),
    IJle(String),
    IJg(String),
    IJl(String),
    ISar(Val, Val),
}

/// An instruction with its labels taken as character sequences.
pub enum InstrV {
    IMov(Val, Val),
    IAdd(Val, Val),
    ISub(Val, Val),
    IMul(Val, Val),
    ICmp(Val, Val),
    IJmp(Seq<char>),
    IJne(Seq<char>),
    ILabel(Seq<char>),
    IAnd(Val, Val),
    IJge(Seq<char>),
    IJle(Seq<char>),
    IJg(Seq<char>),
    IJl(Seq<char>),
    ISar(Val, Val),
}

impl View for Instr {
    type V = InstrV;

    open spec fn view(&self) -> InstrV {
        match self {
            Instr::IMov(a, b) => InstrV::IMov(*a, *b),
            Instr::IAdd(a, b) => InstrV::IAdd(*a, *b),
            Instr::ISub(a, b) => InstrV::ISub(*a, *b),
            Instr::IMul(a, b) => InstrV::IMul(*a, *b),
            Instr::ICmp(a, b) => InstrV::ICmp(*a, *b),
            Instr::IJmp(l) => InstrV::IJmp(l@),
            Instr::IJne(l) => InstrV::IJne(l@),
            Instr::ILabel(l) => InstrV::ILabel(l@),
            Instr::IAnd(a, b) => InstrV::IAnd(*a, *b),
            Instr::IJge(l) => InstrV::IJge(l@),
            Instr::IJle(l) => InstrV::IJle(l@),
            Instr::IJg(l) => InstrV::IJg(l@),
            Instr::IJl(l) => InstrV::IJl(l@),
            Instr::ISar(a, b) => InstrV::ISar(*a, *b),
        }
    }
}

/// The instructions of `v`, each taken by its view.
pub open spec fn view_instrs(v: Seq<Instr>) -> Seq<InstrV> {
    v.map_values(|i: Instr| i@)
}

/// Viewing instructions commutes with concatenation.
pub proof fn lemma_view_instrs_add(a: Seq<Instr>, b: Seq<Instr>)
    ensures
        view_instrs(a + b) == view_instrs(a) + view_instrs(b),
{
    assert(view_instrs(a + b) =~= view_instrs(a) + view_instrs(b));
}

/// The name of a register.
pub open spec fn reg_text(r: Reg) -> Seq<char> {
    match r {
        Reg::RAX => "rax"@,
        Reg::RSP => "rsp"@,
        Reg::RBX => "rbx"@,
        Reg::RDI => "rdi"@,
    }
}

/// An operand can be written: a negative offset is written by its negation,
/// which must fit in `i32`.
pub open spec fn val_renderable(v: Val) -> bool {
    !(v matches Val::RegOffset(_, off) && off == i32::MIN)
}

/// The text of an operand.
pub open spec fn val_text(v: Val) -> Seq<char> {
    match v {
        Val::Reg(r) => reg_text(r),
        Val::Imm(n) => decimal(n as int),
        Val::RegOffset(r, off) => if off < 0 {
            "["@ + reg_text(r) + " - "@ + decimal(-off) + "]"@
        } else {
            "["@ + reg_text(r) + " + "@ + decimal(off as int) + "]"@
        },
    }
}

/// Every operand of the instruction can be written.
pub open spec fn instr_renderable(i: InstrV) -> bool {
    match i {
        InstrV::IMov(a, b) => val_renderable(a) && val_renderable(b),
        InstrV::IAdd(a, b) => val_renderable(a) && val_renderable(b),
        InstrV::ISub(a, b) => val_renderable(a) && val_renderable(b),
        InstrV::IMul(a, b) => val_renderable(a) && val_renderable(b),
        InstrV::ICmp(a, b) => val_renderable(a) && val_renderable(b),
        InstrV::IAnd(a, b) => val_renderable(a) && val_renderable(b),
        InstrV::ISar(a, b) => val_renderable(a) && val_renderable(b),
        _ => true,
    }
}

/// The text of a two-operand instruction with the given mnemonic and a space.
pub open spec fn two_text(mnemonic: Seq<char>, a: Val, b: Val) -> Seq<char> {
    mnemonic + val_text(a) + ", "@ + val_text(b)
}

/// The text of an instruction.
pub open spec fn instr_text(i: InstrV) -> Seq<char> {
    match i {
        InstrV::IMov(a, b) => two_text("mov "@, a, b),
        InstrV::IAdd(a, b) => two_text("add "@, a, b),
        InstrV::ISub(a, b) => two_text("sub "@, a, b),
        InstrV::IMul(a, b) => two_text("imul "@, a, b),
        InstrV::ICmp(a, b) => two_text("cmp "@, a, b),
        InstrV::IJmp(l) => "jmp "@ + l,
        InstrV::IJne(l) => "jne "@ + l,
        InstrV::ILabel(l) => l + ":"@,
        InstrV::IAnd(a, b) => two_text("and "@, a, b),
        InstrV::IJge(l) => "jge "@ + l,
        InstrV::IJle(l) => "jle "@ + l,
        InstrV::IJg(l) => "jg "@ + l,
        InstrV::IJl(l) => "jl "@ + l,
        InstrV::ISar(a, b) => two_text("sar "@, a, b),
    }
}

fn reg_name(r: Reg) -> (t: &'static str)
    ensures
        t@ == reg_text(r),
{
    match r {
        Reg::RAX => "rax",
        Reg::RSP => "rsp",
        Reg::RBX => "rbx",
        Reg::RDI => "rdi",
    }
}

/// The assembly text of an operand.
pub fn val_to_str(v: &Val) -> (t: String)
    requires
        val_renderable(*v),
    ensures
        t@ == val_text(*v),
{
    match v {
        Val::Reg(r) => String::from_str(reg_name(*r)),
        Val::Imm(n) => int_text(*n),
        Val::RegOffset(reg, offset) => {
            let mut t = String::from_str("[");
            t.append(reg_name(*reg));
            if *offset < 0 {
                let magnitude: i32 = -*offset;
                t.append(" - ");
                t.append(int_text(magnitude as i64).as_str());
            } else {
                t.append(" + ");
                t.append(int_text(*offset as i64).as_str());
            }
            t.append("]");
            t
        },
    }
}

fn two_to_str(mnemonic: &str, a: &Val, b: &Val) -> (t: String)
    requires
        val_renderable(*a),
        val_renderable(*b),
    ensures
        t@ == two_text(mnemonic@, *a, *b),
{
    let mut t = String::from_str(mnemonic);
    t.append(val_to_str(a).as_str());
    t.append(", ");
    t.append(val_to_str(b).as_str());
    assert(t@ =~= two_text(mnemonic@, *a, *b));
    t
}

fn jump_to_str(mnemonic: &str, label: &String) -> (t: String)
    ensures
        t@ == mnemonic@ + label@,
{
    let mut t = String::from_str(mnemonic);
    t.append(label.as_str());
    t
}

/// The assembly text of an instruction.
pub fn instr_to_str(i: &Instr) -> (t: String)
    requires
        instr_renderable(i@),
    ensures
        t@ == instr_text(i@),
{
    match i {
        Instr::IMov(a, b) => two_to_str("mov ", a, b),
        Instr::IAdd(a, b) => two_to_str("add ", a, b),
        Instr::ISub(a, b) => two_to_str("sub ", a, b),
        Instr::IMul(a, b) => two_to_str("imul ", a, b),
        Instr::ICmp(a, b) => two_to_str("cmp ", a, b),
        Instr::IJmp(l) => jump_to_str("jmp ", l),
        Instr::IJne(l) => jump_to_str("jne ", l),
        Instr::ILabel(l) => {
            let mut t = String::from_str(l.as_str());
            t.append(":");
            t
        },
        Instr::IAnd(a, b) => two_to_str("and ", a, b),
        Instr::IJge(l) => jump_to_str("jge ", l),
        Instr::IJle(l) => jump_to_str("jle ", l),
        Instr::IJg(l) => jump_to_str("jg ", l),
        Instr::IJl(l) => jump_to_str("jl ", l),
        Instr::ISar(a, b) => two_to_str("sar ", a, b),
    }
}

} // verus!
