//! The text of the command stream: one `data modify storage redvm insts append value`
//! line per instruction.
use vstd::prelude::*;
use vstd::string::StringSliceAdditionalSpecFns;

use crate::compiler::{Inst, Reg, Target};
use crate::lexer::BinOpKind;

verus! {

/// The bytes of a string.
pub open spec fn text(s: &str) -> Seq<u8> {
    s.spec_bytes()
}

/// The decimal digits of `n`, without leading zeros.
pub open spec fn dec(n: nat) -> Seq<u8>
    decreases n,
{
    if n < 10 {
        seq![(48 + n) as u8]
    } else {
        dec(n / 10).push((48 + n % 10) as u8)
    }
}

/// A signed integer in decimal.
pub open spec fn int_text(n: int) -> Seq<u8> {
    if n < 0 {
        text("-") + dec((-n) as nat)
    } else {
        dec(n as nat)
    }
}

/// `n` in decimal, with leading zeros up to ten digits.
pub open spec fn pad10(n: nat) -> Seq<u8> {
    if dec(n).len() < 10 {
        Seq::new((10 - dec(n).len()) as nat, |i: int| 48u8) + dec(n)
    } else {
        dec(n)
    }
}

/// A target in its fixed-width form; one that is not an address yet reads as zeros.
pub open spec fn target_text(t: Target) -> Seq<u8> {
    match t {
        Target::Addr(a) => pad10(a as nat),
        _ => pad10(0),
    }
}

pub open spec fn op_name(k: BinOpKind) -> Seq<u8> {
    match k {
        BinOpKind::Add => text("add"),
        BinOpKind::Sub => text("sub"),
        BinOpKind::Mul => text("mul"),
        BinOpKind::Div => text("div"),
        BinOpKind::Gt => text("gt"),
        BinOpKind::Ge => text("ge"),
        BinOpKind::Lt => text("lt"),
        BinOpKind::Le => text("le"),
        BinOpKind::Eq => text("eq"),
        BinOpKind::Ne => text("ne"),
        BinOpKind::And => text("and"),
        BinOpKind::Or => text("or"),
    }
}

pub open spec fn reg_name(r: Reg) -> Seq<u8> {
    match r {
        Reg::Sp => text("sp"),
        Reg::Sp2 => text("sp2"),
        Reg::Ip => text("ip"),
    }
}

/// `function redvm:insts/<name> {_:<operand>}`
pub open spec fn vm_op(name: Seq<u8>, operand: Seq<u8>) -> Seq<u8> {
    text("function redvm:insts/") + name + text(" {_:") + operand + text("}")
}

/// What an instruction's line carries between the quotes.
pub open spec fn payload(i: Inst) -> Seq<u8> {
    match i {
        Inst::Op(k) => text("function redvm:insts/") + op_name(k),
        Inst::Const(n) => vm_op(text("const"), int_text(n as int)),
        Inst::GetLocal(k) => vm_op(text("get_local"), dec(k as nat)),
        Inst::SetLocal(k) => vm_op(text("set_local"), dec(k as nat)),
        Inst::GetReg(r) => vm_op(text("get_reg"), reg_name(r)),
        Inst::SetReg(r) => vm_op(text("set_reg"), reg_name(r)),
        Inst::Call(t) => vm_op(text("call"), target_text(t)),
        Inst::JmpIf(t) => vm_op(text("jmp_if"), target_text(t)),
        Inst::Log(k) => vm_op(text("log"), dec(k as nat)),
        Inst::Jmp(t) => text("scoreboard players set ip redvm.regs ") + target_text(t),
        Inst::SpAdd(n) => text("scoreboard players add sp redvm.regs ") + dec(n as nat),
        Inst::SpSub(n) => text("scoreboard players remove sp redvm.regs ") + dec(n as nat),
        Inst::Sp2Sub(n) => text("scoreboard players remove sp2 redvm.regs ") + dec(n as nat),
        Inst::Sp2FromSp => text("scoreboard players operation sp2 redvm.regs = sp redvm.regs"),
        Inst::Raw(t) => t@,
    }
}

pub open spec fn line(i: Inst) -> Seq<u8> {
    text("data modify storage redvm insts append value '") + payload(i) + text("'\n")
}

/// The lines of all instructions, in order.
pub open spec fn lines(insts: Seq<Inst>) -> Seq<u8>
    decreases insts.len(),
{
    if insts.len() == 0 {
        Seq::empty()
    } else {
        lines(insts.drop_last()) + line(insts.last())
    }
}

fn push_bytes(out: &mut Vec<u8>, b: &[u8])
    ensures
        final(out)@ == old(out)@ + b@,
{
    let mut i: usize = 0;
    while i < b.len()
        invariant
            i <= b@.len(),
            out@ == old(out)@ + b@.subrange(0, i as int),
        decreases b@.len() - i,
    {
        out.push(b[i]);
        proof {
            assert(b@.subrange(0, i + 1) =~= b@.subrange(0, i as int).push(b@[i as int]));
        }
        i = i + 1;
    }
    proof {
        assert(b@.subrange(0, i as int) =~= b@);
    }
}

fn push_str(out: &mut Vec<u8>, s: &str)
    ensures
        final(out)@ == old(out)@ + text(s),
{
    push_bytes(out, s.as_bytes());
}

fn push_dec(out: &mut Vec<u8>, n: u64)
    ensures
        final(out)@ == old(out)@ + dec(n as nat),
    decreases n,
{
    if n >= 10 {
        push_dec(out, n / 10);
    }
    let ghost mid = out@;
    out.push((48 + n % 10) as u8);
    proof {
        if n >= 10 {
            assert(out@ =~= old(out)@ + dec(n as nat));
        } else {
            assert(out@ =~= old(out)@ + dec(n as nat));
        }
    }
}

fn push_pad10(out: &mut Vec<u8>, n: u64)
    ensures
        final(out)@ == old(out)@ + pad10(n as nat),
{
    let mut digits: Vec<u8> = Vec::new();
    push_dec(&mut digits, n);
    assert(digits@ =~= dec(n as nat));
    let len = digits.len();
    if len < 10 {
        let mut k: usize = 0;
        while k < 10 - len
            invariant
                len < 10,
                k <= 10 - len,
                out@ == old(out)@ + Seq::new(k as nat, |i: int| 48u8),
            decreases 10 - len - k,
        {
            out.push(48u8);
            proof {
                assert(Seq::new((k + 1) as nat, |i: int| 48u8) =~= Seq::new(k as nat, |i: int| 48u8).push(48u8));
            }
            k = k + 1;
        }
        let ghost mid = out@;
        push_bytes(out, digits.as_slice());
        proof {
            assert(out@ =~= old(out)@ + pad10(n as nat));
        }
    } else {
        push_bytes(out, digits.as_slice());
    }
}

fn push_target(out: &mut Vec<u8>, t: Target)
    ensures
        final(out)@ == old(out)@ + target_text(t),
{
    match t {
        Target::Addr(a) => push_pad10(out, a as u64),
        _ => push_pad10(out, 0),
    }
}

pub fn binop_to_inst(binop: BinOpKind) -> (r: &'static str)
    ensures
        text(r) == op_name(binop),
{
    match binop {
        BinOpKind::Add => "add",
        BinOpKind::Sub => "sub",
        BinOpKind::Mul => "mul",
        BinOpKind::Div => "div",
        BinOpKind::Gt => "gt",
        BinOpKind::Ge => "ge",
        BinOpKind::Lt => "lt",
        BinOpKind::Le => "le",
        BinOpKind::Eq => "eq",
        BinOpKind::Ne => "ne",
        BinOpKind::And => "and",
        BinOpKind::Or => "or",
    }
}

fn reg_str(r: Reg) -> (s: &'static str)
    ensures
        text(s) == reg_name(r),
{
    match r {
        Reg::Sp => "sp",
        Reg::Sp2 => "sp2",
        Reg::Ip => "ip",
    }
}

fn push_vm_op(out: &mut Vec<u8>, name: &str)
    ensures
        final(out)@ == old(out)@ + text("function redvm:insts/") + text(name) + text(" {_:"),
{
    push_str(out, "function redvm:insts/");
    push_str(out, name);
    push_str(out, " {_:");
}

fn push_payload(out: &mut Vec<u8>, i: &Inst)
    ensures
        final(out)@ == old(out)@ + payload(*i),
{
    let ghost o = out@;
    match i {
        Inst::Op(k) => {
            push_str(out, "function redvm:insts/");
            push_str(out, binop_to_inst(*k));
            assert(out@ =~= o + payload(*i));
        },
        Inst::Const(n) => {
            push_vm_op(out, "const");
            if *n < 0 {
                push_str(out, "-");
                push_dec(out, (-(*n as i64)) as u64);
            } else {
                push_dec(out, *n as u64);
            }
            push_str(out, "}");
            assert(out@ =~= o + payload(*i));
        },
        Inst::GetLocal(k) => {
            push_vm_op(out, "get_local");
            push_dec(out, *k as u64);
            push_str(out, "}");
            assert(out@ =~= o + payload(*i));
        },
        Inst::SetLocal(k) => {
            push_vm_op(out, "set_local");
            push_dec(out, *k as u64);
            push_str(out, "}");
            assert(out@ =~= o + payload(*i));
        },
        Inst::GetReg(r) => {
            push_vm_op(out, "get_reg");
            push_str(out, reg_str(*r));
            push_str(out, "}");
            assert(out@ =~= o + payload(*i));
        },
        Inst::SetReg(r) => {
            push_vm_op(out, "set_reg");
            push_str(out, reg_str(*r));
            push_str(out, "}");
            assert(out@ =~= o + payload(*i));
        },
        Inst::Call(t) => {
            push_vm_op(out, "call");
            push_target(out, *t);
            push_str(out, "}");
            assert(out@ =~= o + payload(*i));
        },
        Inst::JmpIf(t) => {
            push_vm_op(out, "jmp_if");
            push_target(out, *t);
            push_str(out, "}");
            assert(out@ =~= o + payload(*i));
        },
        Inst::Log(k) => {
            push_vm_op(out, "log");
            push_dec(out, *k as u64);
            push_str(out, "}");
            assert(out@ =~= o + payload(*i));
        },
        Inst::Jmp(t) => {
            push_str(out, "scoreboard players set ip redvm.regs ");
            push_target(out, *t);
            assert(out@ =~= o + payload(*i));
        },
        Inst::SpAdd(n) => {
            push_str(out, "scoreboard players add sp redvm.regs ");
            push_dec(out, *n as u64);
            assert(out@ =~= o + payload(*i));
        },
        Inst::SpSub(n) => {
            push_str(out, "scoreboard players remove sp redvm.regs ");
            push_dec(out, *n as u64);
            assert(out@ =~= o + payload(*i));
        },
        Inst::Sp2Sub(n) => {
            push_str(out, "scoreboard players remove sp2 redvm.regs ");
            push_dec(out, *n as u64);
            assert(out@ =~= o + payload(*i));
        },
        Inst::Sp2FromSp => {
            push_str(out, "scoreboard players operation sp2 redvm.regs = sp redvm.regs");
            assert(out@ =~= o + payload(*i));
        },
        Inst::Raw(t) => {
            push_bytes(out, t.as_slice());
            assert(out@ =~= o + payload(*i));
        },
    }
}

/// The command stream of a list of instructions: one line each, in order.
pub fn render(insts: &Vec<Inst>) -> (r: Vec<u8>)
    ensures
        r@ == lines(insts@),
{
    let mut out: Vec<u8> = Vec::new();
    let mut i: usize = 0;
    while i < insts.len()
        invariant
            i <= insts@.len(),
            out@ == lines(insts@.subrange(0, i as int)),
        decreases insts@.len() - i,
    {
        let ghost o = out@;
        push_str(&mut out, "data modify storage redvm insts append value '");
        push_payload(&mut out, &insts[i]);
        push_str(&mut out, "'\n");
        proof {
            assert(insts@.subrange(0, i + 1).drop_last() =~= insts@.subrange(0, i as int));
            assert(out@ =~= o + line(insts@[i as int]));
        }
        i = i + 1;
    }
    proof {
        assert(insts@.subrange(0, i as int) =~= insts@);
    }
    out
}

} // verus!
