//! A model of the x86-64 instructions the code generator writes, and of
//! what the IR instructions compute; the generated text is held to them.
use vstd::prelude::*;
use crate::basic::ir::{IrInstr, InstrB, VReg};
use crate::basic::ast::BinaryOp;
use crate::basic::ir_build::binary_tail;
use crate::basic::codegen::instr_text;
use crate::text::{decimal, signed_decimal};

verus! {

/// The machine instructions the generator uses, with `rax` and `rcx` as
/// working registers and each IR register in a stack slot.
pub enum Asm {
    /// `mov rax, [slot]`
    LoadRax(nat),
    /// `mov rcx, [slot]`
    LoadRcx(nat),
    /// `mov [slot], rax`
    StoreRax(nat),
    /// `mov rax, imm`
    Imm(i64),
    /// `add rax, rcx`
    Add,
    /// `sub rax, rcx`
    Sub,
    /// `imul rax, rcx`
    Imul,
    /// `and rax, rcx`
    And,
    /// `or rax, rcx`
    Or,
    /// `cmp rax, rcx`
    CmpRcx,
    /// `cmp rax, 0`
    CmpZero,
    /// `sete al`
    Sete,
    /// `setl al`
    Setl,
    /// `movzx rax, al`
    MovzxAl,
    /// `neg rax`
    Neg,
    /// `cdq`: the sign of `eax` into `edx` (which clears the top of `rdx`)
    Cdq,
    /// `idiv rcx`: `rdx:rax` divided by `rcx`, quotient into `rax`
    Idiv,
}

/// Where IR register `v` lives: 8 bytes per register, the first just
/// below the frame pointer.
pub open spec fn frame_slot(v: nat) -> Seq<char> {
    "[rbp-"@ + decimal(8 * (v + 1)) + "]"@
}

/// How an instruction is written in Intel syntax, indented two spaces.
pub open spec fn asm_line(a: Asm) -> Seq<char> {
    match a {
        Asm::LoadRax(v) => "  mov rax, "@ + frame_slot(v),
        Asm::LoadRcx(v) => "  mov rcx, "@ + frame_slot(v),
        Asm::StoreRax(v) => "  mov "@ + frame_slot(v) + ", rax"@,
        Asm::Imm(x) => "  mov rax, "@ + signed_decimal(x as int),
        Asm::Add => "  add rax, rcx"@,
        Asm::Sub => "  sub rax, rcx"@,
        Asm::Imul => "  imul rax, rcx"@,
        Asm::And => "  and rax, rcx"@,
        Asm::Or => "  or rax, rcx"@,
        Asm::CmpRcx => "  cmp rax, rcx"@,
        Asm::CmpZero => "  cmp rax, 0"@,
        Asm::Sete => "  sete al"@,
        Asm::Setl => "  setl al"@,
        Asm::MovzxAl => "  movzx rax, al"@,
        Asm::Neg => "  neg rax"@,
        Asm::Cdq => "  cdq"@,
        Asm::Idiv => "  idiv rcx"@,
    }
}

/// A program as text, one instruction per line.
pub open spec fn asm_text(p: Seq<Asm>) -> Seq<char>
    decreases p.len(),
{
    if p.len() == 0 { Seq::empty() } else { asm_text(p.drop_last()) + asm_line(p.last()).push('\n') }
}

/// The machine: the two working registers, the operands of the last
/// comparison, the byte register `al` as a truth value, and the slots.
pub struct Mach {
    pub rax: i64,
    pub rcx: i64,
    pub rdx: i64,
    pub lhs: i64,
    pub rhs: i64,
    pub al: bool,
    pub mem: Map<nat, i64>,
}

/// Two's-complement negation on 64 bits.
pub open spec fn neg64(x: i64) -> i64 {
    if x == i64::MIN { x } else { (-x) as i64 }
}

/// Integer division rounding toward zero (0 when dividing by zero).
pub open spec fn trunc_div(x: int, y: int) -> int {
    if y == 0 || x == 0 {
        0
    } else {
        let mx = if x < 0 { -x } else { x };
        let my = if y < 0 { -y } else { y };
        if (x < 0) != (y < 0) { -(mx / my) } else { mx / my }
    }
}

/// What one instruction does to the machine.
pub open spec fn asm_step(a: Asm, m: Mach) -> Mach {
    match a {
        Asm::LoadRax(v) => Mach { rax: m.mem[v], ..m },
        Asm::LoadRcx(v) => Mach { rcx: m.mem[v], ..m },
        Asm::StoreRax(v) => Mach { mem: m.mem.insert(v, m.rax), ..m },
        Asm::Imm(x) => Mach { rax: x, ..m },
        Asm::Add => Mach { rax: m.rax.wrapping_add(m.rcx), ..m },
        Asm::Sub => Mach { rax: m.rax.wrapping_sub(m.rcx), ..m },
        Asm::Imul => Mach { rax: m.rax.wrapping_mul(m.rcx), ..m },
        Asm::And => Mach { rax: m.rax & m.rcx, ..m },
        Asm::Or => Mach { rax: m.rax | m.rcx, ..m },
        Asm::CmpRcx => Mach { lhs: m.rax, rhs: m.rcx, ..m },
        Asm::CmpZero => Mach { lhs: m.rax, rhs: 0, ..m },
        Asm::Sete => Mach { al: m.lhs == m.rhs, ..m },
        Asm::Setl => Mach { al: m.lhs < m.rhs, ..m },
        Asm::MovzxAl => Mach { rax: if m.al { 1 } else { 0 }, ..m },
        Asm::Neg => Mach { rax: neg64(m.rax), ..m },
        Asm::Cdq => Mach {
            rdx: if (m.rax as int) % 0x1_0000_0000 >= 0x8000_0000 { 0xFFFF_FFFF } else { 0 },
            ..m
        },
        Asm::Idiv => Mach {
            rax: trunc_div((m.rdx as int) * 0x1_0000_0000_0000_0000 + (m.rax as int) % 0x1_0000_0000_0000_0000,
                m.rcx as int) as i64,
            ..m
        },
    }
}

/// Runs a program from the first instruction to the last.
pub open spec fn asm_run(p: Seq<Asm>, m: Mach) -> Mach
    decreases p.len(),
{
    if p.len() == 0 { m } else { asm_step(p.last(), asm_run(p.drop_last(), m)) }
}

/// The register an IR instruction writes and the 64-bit value it writes
/// there, given the values of the registers in `mem`: arithmetic wraps,
/// comparisons and `Not` give 1 or 0, `And` and `Or` work bit by bit.
/// `None` for division and calls.
pub open spec fn ir_effect(i: IrInstr, mem: Map<nat, i64>) -> Option<(nat, i64)> {
    match i {
        IrInstr::Const(d, v, _) => Some((d as nat, v)),
        IrInstr::Mov(d, s) => Some((d as nat, mem[s as nat])),
        IrInstr::Add(d, a, b) => Some((d as nat, mem[a as nat].wrapping_add(mem[b as nat]))),
        IrInstr::Sub(d, a, b) => Some((d as nat, mem[a as nat].wrapping_sub(mem[b as nat]))),
        IrInstr::Mul(d, a, b) => Some((d as nat, mem[a as nat].wrapping_mul(mem[b as nat]))),
        IrInstr::Eq(d, a, b) => Some((d as nat, if mem[a as nat] == mem[b as nat] { 1 } else { 0 })),
        IrInstr::Lt(d, a, b) => Some((d as nat, if mem[a as nat] < mem[b as nat] { 1 } else { 0 })),
        IrInstr::And(d, a, b) => Some((d as nat, mem[a as nat] & mem[b as nat])),
        IrInstr::Or(d, a, b) => Some((d as nat, mem[a as nat] | mem[b as nat])),
        IrInstr::Not(d, s) => Some((d as nat, if mem[s as nat] == 0 { 1 } else { 0 })),
        IrInstr::Neg(d, s) => Some((d as nat, neg64(mem[s as nat]))),
        _ => None,
    }
}

/// One instruction as a line of text.
pub open spec fn asm_ln(a: Asm) -> Seq<char> {
    asm_line(a).push('\n')
}

proof fn lemma_text_push(p: Seq<Asm>, a: Asm)
    ensures
        asm_text(p.push(a)) == asm_text(p) + asm_ln(a),
{
    assert(p.push(a).drop_last() =~= p);
}

proof fn lemma_run_push(p: Seq<Asm>, a: Asm, m: Mach)
    ensures
        asm_run(p.push(a), m) == asm_step(a, asm_run(p, m)),
{
    assert(p.push(a).drop_last() =~= p);
}

proof fn lemma_text_one(a: Asm)
    ensures
        asm_text(seq![a]) == asm_ln(a),
{
    lemma_text_push(Seq::empty(), a);
    assert(seq![a] =~= Seq::<Asm>::empty().push(a));
    assert(Seq::<char>::empty() + asm_ln(a) =~= asm_ln(a));
}

/// The slot text the generator writes is the slot of the register.
proof fn lemma_slot(v: nat)
    ensures
        crate::basic::codegen::slot(v) == frame_slot(v),
{
    assert((v + 1) * 8 == 8 * (v + 1));
}

/// The generator's loads and stores are the machine's.
proof fn lemma_moves(v: nat)
    ensures
        crate::basic::codegen::load_text("rax"@, v) == asm_ln(Asm::LoadRax(v)),
        crate::basic::codegen::load_text("rcx"@, v) == asm_ln(Asm::LoadRcx(v)),
        crate::basic::codegen::store_rax(v) == asm_ln(Asm::StoreRax(v)),
{
    lemma_slot(v);
    reveal_strlit("  mov ");
    reveal_strlit("rax");
    reveal_strlit("rcx");
    reveal_strlit(", ");
    reveal_strlit(", rax");
    reveal_strlit("  mov rax, ");
    reveal_strlit("  mov rcx, ");
    let s = frame_slot(v);
    assert(crate::basic::codegen::load_text("rax"@, v) =~= asm_ln(Asm::LoadRax(v)));
    assert(crate::basic::codegen::load_text("rcx"@, v) =~= asm_ln(Asm::LoadRcx(v)));
    assert(crate::basic::codegen::store_rax(v) =~= asm_ln(Asm::StoreRax(v)));
}

/// The generator's operation lines are the machine's.
proof fn lemma_op_lines()
    ensures
        crate::basic::codegen::ln("  "@ + "add"@ + " rax, rcx"@) == asm_ln(Asm::Add),
        crate::basic::codegen::ln("  "@ + "sub"@ + " rax, rcx"@) == asm_ln(Asm::Sub),
        crate::basic::codegen::ln("  "@ + "imul"@ + " rax, rcx"@) == asm_ln(Asm::Imul),
        crate::basic::codegen::ln("  "@ + "and"@ + " rax, rcx"@) == asm_ln(Asm::And),
        crate::basic::codegen::ln("  "@ + "or"@ + " rax, rcx"@) == asm_ln(Asm::Or),
        crate::basic::codegen::ln("  cmp rax, rcx"@) == asm_ln(Asm::CmpRcx),
        crate::basic::codegen::ln("  cmp rax, 0"@) == asm_ln(Asm::CmpZero),
        crate::basic::codegen::ln("  "@ + "sete"@ + " al"@) == asm_ln(Asm::Sete),
        crate::basic::codegen::ln("  "@ + "setl"@ + " al"@) == asm_ln(Asm::Setl),
        crate::basic::codegen::ln("  sete al"@) == asm_ln(Asm::Sete),
        crate::basic::codegen::ln("  movzx rax, al"@) == asm_ln(Asm::MovzxAl),
        crate::basic::codegen::ln("  neg rax"@) == asm_ln(Asm::Neg),
{
    reveal_strlit("  ");
    reveal_strlit(" rax, rcx");
    reveal_strlit(" al");
    reveal_strlit("add");
    reveal_strlit("sub");
    reveal_strlit("imul");
    reveal_strlit("and");
    reveal_strlit("or");
    reveal_strlit("sete");
    reveal_strlit("setl");
    reveal_strlit("  add rax, rcx");
    reveal_strlit("  sub rax, rcx");
    reveal_strlit("  imul rax, rcx");
    reveal_strlit("  and rax, rcx");
    reveal_strlit("  or rax, rcx");
    reveal_strlit("  sete al");
    reveal_strlit("  setl al");
    assert("  "@ + "add"@ + " rax, rcx"@ =~= "  add rax, rcx"@);
    assert("  "@ + "sub"@ + " rax, rcx"@ =~= "  sub rax, rcx"@);
    assert("  "@ + "imul"@ + " rax, rcx"@ =~= "  imul rax, rcx"@);
    assert("  "@ + "and"@ + " rax, rcx"@ =~= "  and rax, rcx"@);
    assert("  "@ + "or"@ + " rax, rcx"@ =~= "  or rax, rcx"@);
    assert("  "@ + "sete"@ + " al"@ =~= "  sete al"@);
    assert("  "@ + "setl"@ + " al"@ =~= "  setl al"@);
}

/// The generator's constant load is the machine's.
proof fn lemma_imm_line(v: i64)
    ensures
        crate::basic::codegen::ln("  mov rax, "@ + signed_decimal(v as int)) == asm_ln(Asm::Imm(v)),
{
}

/// Loading two registers, one operation and a store.
proof fn lemma_binop_shape(a: nat, b: nat, op: Asm, d: nat, m: Mach)
    ensures
        asm_text(seq![Asm::LoadRax(a), Asm::LoadRcx(b), op, Asm::StoreRax(d)])
            == asm_ln(Asm::LoadRax(a)) + asm_ln(Asm::LoadRcx(b)) + asm_ln(op) + asm_ln(Asm::StoreRax(d)),
        asm_run(seq![Asm::LoadRax(a), Asm::LoadRcx(b), op, Asm::StoreRax(d)], m)
            == asm_step(Asm::StoreRax(d), asm_step(op, asm_step(Asm::LoadRcx(b), asm_step(Asm::LoadRax(a), m)))),
{
    let p1 = seq![Asm::LoadRax(a)];
    let p2 = p1.push(Asm::LoadRcx(b));
    let p3 = p2.push(op);
    let p4 = p3.push(Asm::StoreRax(d));
    assert(p4 =~= seq![Asm::LoadRax(a), Asm::LoadRcx(b), op, Asm::StoreRax(d)]);
    lemma_text_one(Asm::LoadRax(a));
    lemma_text_push(p1, Asm::LoadRcx(b));
    lemma_text_push(p2, op);
    lemma_text_push(p3, Asm::StoreRax(d));
    lemma_run_push(Seq::empty(), Asm::LoadRax(a), m);
    assert(p1 =~= Seq::<Asm>::empty().push(Asm::LoadRax(a)));
    lemma_run_push(p1, Asm::LoadRcx(b), m);
    lemma_run_push(p2, op, m);
    lemma_run_push(p3, Asm::StoreRax(d), m);
}

/// Loading two registers, comparing, taking the flag and storing it.
proof fn lemma_setcc_shape(a: nat, b: nat, cc: Asm, d: nat, m: Mach)
    ensures
        asm_text(seq![Asm::LoadRax(a), Asm::LoadRcx(b), Asm::CmpRcx, cc, Asm::MovzxAl, Asm::StoreRax(d)])
            == asm_ln(Asm::LoadRax(a)) + asm_ln(Asm::LoadRcx(b)) + asm_ln(Asm::CmpRcx) + asm_ln(cc)
                + asm_ln(Asm::MovzxAl) + asm_ln(Asm::StoreRax(d)),
        asm_run(seq![Asm::LoadRax(a), Asm::LoadRcx(b), Asm::CmpRcx, cc, Asm::MovzxAl, Asm::StoreRax(d)], m)
            == asm_step(Asm::StoreRax(d), asm_step(Asm::MovzxAl, asm_step(cc, asm_step(Asm::CmpRcx,
                asm_step(Asm::LoadRcx(b), asm_step(Asm::LoadRax(a), m)))))),
{
    let p1 = seq![Asm::LoadRax(a)];
    let p2 = p1.push(Asm::LoadRcx(b));
    let p3 = p2.push(Asm::CmpRcx);
    let p4 = p3.push(cc);
    let p5 = p4.push(Asm::MovzxAl);
    let p6 = p5.push(Asm::StoreRax(d));
    assert(p6 =~= seq![Asm::LoadRax(a), Asm::LoadRcx(b), Asm::CmpRcx, cc, Asm::MovzxAl, Asm::StoreRax(d)]);
    lemma_text_one(Asm::LoadRax(a));
    lemma_text_push(p1, Asm::LoadRcx(b));
    lemma_text_push(p2, Asm::CmpRcx);
    lemma_text_push(p3, cc);
    lemma_text_push(p4, Asm::MovzxAl);
    lemma_text_push(p5, Asm::StoreRax(d));
    assert(p1 =~= Seq::<Asm>::empty().push(Asm::LoadRax(a)));
    lemma_run_push(Seq::empty(), Asm::LoadRax(a), m);
    lemma_run_push(p1, Asm::LoadRcx(b), m);
    lemma_run_push(p2, Asm::CmpRcx, m);
    lemma_run_push(p3, cc, m);
    lemma_run_push(p4, Asm::MovzxAl, m);
    lemma_run_push(p5, Asm::StoreRax(d), m);
}

/// Loading one register, testing it against 0 and storing the flag.
proof fn lemma_not_shape(s: nat, d: nat, m: Mach)
    ensures
        asm_text(seq![Asm::LoadRax(s), Asm::CmpZero, Asm::Sete, Asm::MovzxAl, Asm::StoreRax(d)])
            == asm_ln(Asm::LoadRax(s)) + asm_ln(Asm::CmpZero) + asm_ln(Asm::Sete) + asm_ln(Asm::MovzxAl)
                + asm_ln(Asm::StoreRax(d)),
        asm_run(seq![Asm::LoadRax(s), Asm::CmpZero, Asm::Sete, Asm::MovzxAl, Asm::StoreRax(d)], m)
            == asm_step(Asm::StoreRax(d), asm_step(Asm::MovzxAl, asm_step(Asm::Sete, asm_step(Asm::CmpZero,
                asm_step(Asm::LoadRax(s), m))))),
{
    let p1 = seq![Asm::LoadRax(s)];
    let p2 = p1.push(Asm::CmpZero);
    let p3 = p2.push(Asm::Sete);
    let p4 = p3.push(Asm::MovzxAl);
    let p5 = p4.push(Asm::StoreRax(d));
    assert(p5 =~= seq![Asm::LoadRax(s), Asm::CmpZero, Asm::Sete, Asm::MovzxAl, Asm::StoreRax(d)]);
    lemma_text_one(Asm::LoadRax(s));
    lemma_text_push(p1, Asm::CmpZero);
    lemma_text_push(p2, Asm::Sete);
    lemma_text_push(p3, Asm::MovzxAl);
    lemma_text_push(p4, Asm::StoreRax(d));
    assert(p1 =~= Seq::<Asm>::empty().push(Asm::LoadRax(s)));
    lemma_run_push(Seq::empty(), Asm::LoadRax(s), m);
    lemma_run_push(p1, Asm::CmpZero, m);
    lemma_run_push(p2, Asm::Sete, m);
    lemma_run_push(p3, Asm::MovzxAl, m);
    lemma_run_push(p4, Asm::StoreRax(d), m);
}

/// Two instructions.
proof fn lemma_two_shape(x: Asm, y: Asm, m: Mach)
    ensures
        asm_text(seq![x, y]) == asm_ln(x) + asm_ln(y),
        asm_run(seq![x, y], m) == asm_step(y, asm_step(x, m)),
{
    let p1 = seq![x];
    assert(p1.push(y) =~= seq![x, y]);
    lemma_text_one(x);
    lemma_text_push(p1, y);
    assert(p1 =~= Seq::<Asm>::empty().push(x));
    lemma_run_push(Seq::empty(), x, m);
    lemma_run_push(p1, y, m);
}

/// Three instructions.
proof fn lemma_three_shape(x: Asm, y: Asm, z: Asm, m: Mach)
    ensures
        asm_text(seq![x, y, z]) == asm_ln(x) + asm_ln(y) + asm_ln(z),
        asm_run(seq![x, y, z], m) == asm_step(z, asm_step(y, asm_step(x, m))),
{
    lemma_two_shape(x, y, m);
    assert(seq![x, y].push(z) =~= seq![x, y, z]);
    lemma_text_push(seq![x, y], z);
    lemma_run_push(seq![x, y], z, m);
}

/// The machine program for `Const`.
proof fn program_const(d: usize, v: i64, ty: crate::basic::ir::IrType, m: Mach) -> (p: Seq<Asm>)
    ensures
        asm_text(p) == instr_text(IrInstr::Const(d, v, ty)),
        asm_run(p, m).mem == m.mem.insert((ir_effect(IrInstr::Const(d, v, ty), m.mem)->0).0, (ir_effect(IrInstr::Const(d, v, ty), m.mem)->0).1),
{
    let p = seq![Asm::Imm(v), Asm::StoreRax(d as nat)];
    lemma_two_shape(Asm::Imm(v), Asm::StoreRax(d as nat), m);
    lemma_imm_line(v);
    lemma_moves(d as nat);
    assert(asm_run(p, m).mem =~= m.mem.insert((ir_effect(IrInstr::Const(d, v, ty), m.mem)->0).0, (ir_effect(IrInstr::Const(d, v, ty), m.mem)->0).1));
    p
}

/// The machine program for `Mov`.
proof fn program_mov(d: usize, s: usize, m: Mach) -> (p: Seq<Asm>)
    ensures
        asm_text(p) == instr_text(IrInstr::Mov(d, s)),
        asm_run(p, m).mem == m.mem.insert((ir_effect(IrInstr::Mov(d, s), m.mem)->0).0, (ir_effect(IrInstr::Mov(d, s), m.mem)->0).1),
{
    let p = seq![Asm::LoadRax(s as nat), Asm::StoreRax(d as nat)];
    lemma_two_shape(Asm::LoadRax(s as nat), Asm::StoreRax(d as nat), m);
    lemma_moves(d as nat);
    lemma_moves(s as nat);
    assert(asm_run(p, m).mem =~= m.mem.insert((ir_effect(IrInstr::Mov(d, s), m.mem)->0).0, (ir_effect(IrInstr::Mov(d, s), m.mem)->0).1));
    p
}

/// The machine program for `Neg`.
proof fn program_neg(d: usize, s: usize, m: Mach) -> (p: Seq<Asm>)
    ensures
        asm_text(p) == instr_text(IrInstr::Neg(d, s)),
        asm_run(p, m).mem == m.mem.insert((ir_effect(IrInstr::Neg(d, s), m.mem)->0).0, (ir_effect(IrInstr::Neg(d, s), m.mem)->0).1),
{
    let p = seq![Asm::LoadRax(s as nat), Asm::Neg, Asm::StoreRax(d as nat)];
    lemma_three_shape(Asm::LoadRax(s as nat), Asm::Neg, Asm::StoreRax(d as nat), m);
    lemma_op_lines();
    lemma_moves(d as nat);
    lemma_moves(s as nat);
    assert(asm_run(p, m).mem =~= m.mem.insert((ir_effect(IrInstr::Neg(d, s), m.mem)->0).0, (ir_effect(IrInstr::Neg(d, s), m.mem)->0).1));
    p
}

/// The machine program for `Not`.
proof fn program_not(d: usize, s: usize, m: Mach) -> (p: Seq<Asm>)
    ensures
        asm_text(p) == instr_text(IrInstr::Not(d, s)),
        asm_run(p, m).mem == m.mem.insert((ir_effect(IrInstr::Not(d, s), m.mem)->0).0, (ir_effect(IrInstr::Not(d, s), m.mem)->0).1),
{
    let p = seq![Asm::LoadRax(s as nat), Asm::CmpZero, Asm::Sete, Asm::MovzxAl, Asm::StoreRax(d as nat)];
    lemma_not_shape(s as nat, d as nat, m);
    lemma_op_lines();
    lemma_moves(d as nat);
    lemma_moves(s as nat);
    assert(asm_run(p, m).mem =~= m.mem.insert((ir_effect(IrInstr::Not(d, s), m.mem)->0).0, (ir_effect(IrInstr::Not(d, s), m.mem)->0).1));
    p
}

/// The machine program for `Add`.
proof fn program_add(d: usize, a: usize, b: usize, m: Mach) -> (p: Seq<Asm>)
    ensures
        asm_text(p) == instr_text(IrInstr::Add(d, a, b)),
        asm_run(p, m).mem == m.mem.insert((ir_effect(IrInstr::Add(d, a, b), m.mem)->0).0, (ir_effect(IrInstr::Add(d, a, b), m.mem)->0).1),
{
    let p = seq![Asm::LoadRax(a as nat), Asm::LoadRcx(b as nat), Asm::Add, Asm::StoreRax(d as nat)];
    lemma_binop_shape(a as nat, b as nat, Asm::Add, d as nat, m);
    lemma_op_lines();
    lemma_moves(d as nat);
    lemma_moves(a as nat);
    lemma_moves(b as nat);
    assert(asm_run(p, m).mem =~= m.mem.insert((ir_effect(IrInstr::Add(d, a, b), m.mem)->0).0, (ir_effect(IrInstr::Add(d, a, b), m.mem)->0).1));
    p
}

/// The machine program for `Sub`.
proof fn program_sub(d: usize, a: usize, b: usize, m: Mach) -> (p: Seq<Asm>)
    ensures
        asm_text(p) == instr_text(IrInstr::Sub(d, a, b)),
        asm_run(p, m).mem == m.mem.insert((ir_effect(IrInstr::Sub(d, a, b), m.mem)->0).0, (ir_effect(IrInstr::Sub(d, a, b), m.mem)->0).1),
{
    let p = seq![Asm::LoadRax(a as nat), Asm::LoadRcx(b as nat), Asm::Sub, Asm::StoreRax(d as nat)];
    lemma_binop_shape(a as nat, b as nat, Asm::Sub, d as nat, m);
    lemma_op_lines();
    lemma_moves(d as nat);
    lemma_moves(a as nat);
    lemma_moves(b as nat);
    assert(asm_run(p, m).mem =~= m.mem.insert((ir_effect(IrInstr::Sub(d, a, b), m.mem)->0).0, (ir_effect(IrInstr::Sub(d, a, b), m.mem)->0).1));
    p
}

/// The machine program for `Mul`.
proof fn program_mul(d: usize, a: usize, b: usize, m: Mach) -> (p: Seq<Asm>)
    ensures
        asm_text(p) == instr_text(IrInstr::Mul(d, a, b)),
        asm_run(p, m).mem == m.mem.insert((ir_effect(IrInstr::Mul(d, a, b), m.mem)->0).0, (ir_effect(IrInstr::Mul(d, a, b), m.mem)->0).1),
{
    let p = seq![Asm::LoadRax(a as nat), Asm::LoadRcx(b as nat), Asm::Imul, Asm::StoreRax(d as nat)];
    lemma_binop_shape(a as nat, b as nat, Asm::Imul, d as nat, m);
    lemma_op_lines();
    lemma_moves(d as nat);
    lemma_moves(a as nat);
    lemma_moves(b as nat);
    assert(asm_run(p, m).mem =~= m.mem.insert((ir_effect(IrInstr::Mul(d, a, b), m.mem)->0).0, (ir_effect(IrInstr::Mul(d, a, b), m.mem)->0).1));
    p
}

/// The machine program for `And`.
proof fn program_and(d: usize, a: usize, b: usize, m: Mach) -> (p: Seq<Asm>)
    ensures
        asm_text(p) == instr_text(IrInstr::And(d, a, b)),
        asm_run(p, m).mem == m.mem.insert((ir_effect(IrInstr::And(d, a, b), m.mem)->0).0, (ir_effect(IrInstr::And(d, a, b), m.mem)->0).1),
{
    let p = seq![Asm::LoadRax(a as nat), Asm::LoadRcx(b as nat), Asm::And, Asm::StoreRax(d as nat)];
    lemma_binop_shape(a as nat, b as nat, Asm::And, d as nat, m);
    lemma_op_lines();
    lemma_moves(d as nat);
    lemma_moves(a as nat);
    lemma_moves(b as nat);
    assert(asm_run(p, m).mem =~= m.mem.insert((ir_effect(IrInstr::And(d, a, b), m.mem)->0).0, (ir_effect(IrInstr::And(d, a, b), m.mem)->0).1));
    p
}

/// The machine program for `Or`.
proof fn program_or(d: usize, a: usize, b: usize, m: Mach) -> (p: Seq<Asm>)
    ensures
        asm_text(p) == instr_text(IrInstr::Or(d, a, b)),
        asm_run(p, m).mem == m.mem.insert((ir_effect(IrInstr::Or(d, a, b), m.mem)->0).0, (ir_effect(IrInstr::Or(d, a, b), m.mem)->0).1),
{
    let p = seq![Asm::LoadRax(a as nat), Asm::LoadRcx(b as nat), Asm::Or, Asm::StoreRax(d as nat)];
    lemma_binop_shape(a as nat, b as nat, Asm::Or, d as nat, m);
    lemma_op_lines();
    lemma_moves(d as nat);
    lemma_moves(a as nat);
    lemma_moves(b as nat);
    assert(asm_run(p, m).mem =~= m.mem.insert((ir_effect(IrInstr::Or(d, a, b), m.mem)->0).0, (ir_effect(IrInstr::Or(d, a, b), m.mem)->0).1));
    p
}

/// The machine program for `Eq`.
proof fn program_eq(d: usize, a: usize, b: usize, m: Mach) -> (p: Seq<Asm>)
    ensures
        asm_text(p) == instr_text(IrInstr::Eq(d, a, b)),
        asm_run(p, m).mem == m.mem.insert((ir_effect(IrInstr::Eq(d, a, b), m.mem)->0).0, (ir_effect(IrInstr::Eq(d, a, b), m.mem)->0).1),
{
    let p = seq![Asm::LoadRax(a as nat), Asm::LoadRcx(b as nat), Asm::CmpRcx, Asm::Sete, Asm::MovzxAl, Asm::StoreRax(d as nat)];
    lemma_setcc_shape(a as nat, b as nat, Asm::Sete, d as nat, m);
    lemma_op_lines();
    lemma_moves(d as nat);
    lemma_moves(a as nat);
    lemma_moves(b as nat);
    assert(asm_run(p, m).mem =~= m.mem.insert((ir_effect(IrInstr::Eq(d, a, b), m.mem)->0).0, (ir_effect(IrInstr::Eq(d, a, b), m.mem)->0).1));
    p
}

/// The machine program for `Lt`.
proof fn program_lt(d: usize, a: usize, b: usize, m: Mach) -> (p: Seq<Asm>)
    ensures
        asm_text(p) == instr_text(IrInstr::Lt(d, a, b)),
        asm_run(p, m).mem == m.mem.insert((ir_effect(IrInstr::Lt(d, a, b), m.mem)->0).0, (ir_effect(IrInstr::Lt(d, a, b), m.mem)->0).1),
{
    let p = seq![Asm::LoadRax(a as nat), Asm::LoadRcx(b as nat), Asm::CmpRcx, Asm::Setl, Asm::MovzxAl, Asm::StoreRax(d as nat)];
    lemma_setcc_shape(a as nat, b as nat, Asm::Setl, d as nat, m);
    lemma_op_lines();
    lemma_moves(d as nat);
    lemma_moves(a as nat);
    lemma_moves(b as nat);
    assert(asm_run(p, m).mem =~= m.mem.insert((ir_effect(IrInstr::Lt(d, a, b), m.mem)->0).0, (ir_effect(IrInstr::Lt(d, a, b), m.mem)->0).1));
    p
}

/// The generator's division lines are the machine's.
proof fn lemma_div_lines()
    ensures
        crate::basic::codegen::ln("  cdq"@) == asm_ln(Asm::Cdq),
        crate::basic::codegen::ln("  idiv rcx"@) == asm_ln(Asm::Idiv),
{
}

/// The machine program for `Div`.
proof fn program_div(d: usize, a: usize, b: usize, m: Mach) -> (p: Seq<Asm>)
    ensures
        asm_text(p) == instr_text(IrInstr::Div(d, a, b)),
        asm_run(p, m) == asm_step(Asm::StoreRax(d as nat), asm_step(Asm::Idiv, asm_step(Asm::LoadRcx(b as nat),
            asm_step(Asm::Cdq, asm_step(Asm::LoadRax(a as nat), m))))),
{
    let p1 = seq![Asm::LoadRax(a as nat)];
    let p2 = p1.push(Asm::Cdq);
    let p3 = p2.push(Asm::LoadRcx(b as nat));
    let p4 = p3.push(Asm::Idiv);
    let p5 = p4.push(Asm::StoreRax(d as nat));
    lemma_text_one(Asm::LoadRax(a as nat));
    lemma_text_push(p1, Asm::Cdq);
    lemma_text_push(p2, Asm::LoadRcx(b as nat));
    lemma_text_push(p3, Asm::Idiv);
    lemma_text_push(p4, Asm::StoreRax(d as nat));
    assert(p1 =~= Seq::<Asm>::empty().push(Asm::LoadRax(a as nat)));
    lemma_run_push(Seq::empty(), Asm::LoadRax(a as nat), m);
    lemma_run_push(p1, Asm::Cdq, m);
    lemma_run_push(p2, Asm::LoadRcx(b as nat), m);
    lemma_run_push(p3, Asm::Idiv, m);
    lemma_run_push(p4, Asm::StoreRax(d as nat), m);
    lemma_div_lines();
    lemma_moves(d as nat);
    lemma_moves(a as nat);
    lemma_moves(b as nat);
    p5
}

/// The code written for a division divides the first operand by the
/// second, rounding toward zero, when the dividend is below 2^31 and not
/// negative (the range in which `cdq` leaves `rdx` clear) and the divisor
/// is not 0.
pub proof fn lemma_div_text_computes(d: usize, a: usize, b: usize, m: Mach)
    requires
        0 <= m.mem[a as nat] < 0x8000_0000,
        m.mem[b as nat] != 0,
    ensures
        exists|p: Seq<Asm>| #[trigger] asm_text(p) == instr_text(IrInstr::Div(d, a, b))
            && asm_run(p, m).mem == m.mem.insert(d as nat, trunc_div(m.mem[a as nat] as int, m.mem[b as nat] as int) as i64),
{
    let p = program_div(d, a, b, m);
    let x = m.mem[a as nat] as int;
    let y = m.mem[b as nat] as int;
    assert(x % 0x1_0000_0000 == x) by {
        vstd::arithmetic::div_mod::lemma_small_mod(x as nat, 0x1_0000_0000);
    }
    assert(x % 0x1_0000_0000_0000_0000 == x) by {
        vstd::arithmetic::div_mod::lemma_small_mod(x as nat, 0x1_0000_0000_0000_0000);
    }
    assert(asm_run(p, m).mem =~= m.mem.insert(d as nat, trunc_div(x, y) as i64));
}

/// The code written for an instruction computes it: the text is that of a
/// machine program that, from any state, writes the instruction's value to
/// the slot of its register and leaves every other slot as it was. So the
/// operands keep their order: `Sub(d, a, b)` leaves `a - b` in `d`.
pub proof fn lemma_instr_text_computes(i: IrInstr, m: Mach)
    requires
        ir_effect(i, m.mem) is Some,
    ensures
        exists|p: Seq<Asm>| #[trigger] asm_text(p) == instr_text(i)
            && asm_run(p, m).mem == m.mem.insert((ir_effect(i, m.mem)->0).0, (ir_effect(i, m.mem)->0).1),
{
    let p = match i {
        IrInstr::Const(d, v, ty) => program_const(d, v, ty, m),
        IrInstr::Mov(d, s) => program_mov(d, s, m),
        IrInstr::Add(d, a, b) => program_add(d, a, b, m),
        IrInstr::Sub(d, a, b) => program_sub(d, a, b, m),
        IrInstr::Mul(d, a, b) => program_mul(d, a, b, m),
        IrInstr::And(d, a, b) => program_and(d, a, b, m),
        IrInstr::Or(d, a, b) => program_or(d, a, b, m),
        IrInstr::Eq(d, a, b) => program_eq(d, a, b, m),
        IrInstr::Lt(d, a, b) => program_lt(d, a, b, m),
        IrInstr::Not(d, s) => program_not(d, s, m),
        IrInstr::Neg(d, s) => program_neg(d, s, m),
        _ => Seq::empty(),
    };
    assert(asm_text(p) == instr_text(i));
}

/// What an IR instruction does to the registers (calls aside): arithmetic
/// on 64 bits wraps, division rounds toward zero, comparisons and `Not`
/// give 1 or 0, `And` and `Or` work bit by bit.
pub open spec fn ir_step(i: InstrB, mem: Map<nat, i64>) -> Map<nat, i64> {
    match i {
        InstrB::Const(d, v, _) => mem.insert(d as nat, v),
        InstrB::Mov(d, s) => mem.insert(d as nat, mem[s as nat]),
        InstrB::Add(d, a, b) => mem.insert(d as nat, mem[a as nat].wrapping_add(mem[b as nat])),
        InstrB::Sub(d, a, b) => mem.insert(d as nat, mem[a as nat].wrapping_sub(mem[b as nat])),
        InstrB::Mul(d, a, b) => mem.insert(d as nat, mem[a as nat].wrapping_mul(mem[b as nat])),
        InstrB::Div(d, a, b) => mem.insert(d as nat, trunc_div(mem[a as nat] as int, mem[b as nat] as int) as i64),
        InstrB::Eq(d, a, b) => mem.insert(d as nat, if mem[a as nat] == mem[b as nat] { 1 } else { 0 }),
        InstrB::Lt(d, a, b) => mem.insert(d as nat, if mem[a as nat] < mem[b as nat] { 1 } else { 0 }),
        InstrB::And(d, a, b) => mem.insert(d as nat, mem[a as nat] & mem[b as nat]),
        InstrB::Or(d, a, b) => mem.insert(d as nat, mem[a as nat] | mem[b as nat]),
        InstrB::Not(d, s) => mem.insert(d as nat, if mem[s as nat] == 0 { 1 } else { 0 }),
        InstrB::Neg(d, s) => mem.insert(d as nat, neg64(mem[s as nat])),
        InstrB::Call(..) => mem,
    }
}

/// Runs IR instructions in order.
pub open spec fn ir_run(code: Seq<InstrB>, mem: Map<nat, i64>) -> Map<nat, i64>
    decreases code.len(),
{
    if code.len() == 0 { mem } else { ir_step(code.last(), ir_run(code.drop_last(), mem)) }
}

/// What a binary operator of the source language gives on 64-bit values:
/// arithmetic wraps, division rounds toward zero, comparisons give 1 or 0,
/// and `&&`, `||` act on truth values (anything but 0 is true).
pub open spec fn source_op(op: BinaryOp, x: i64, y: i64) -> i64 {
    match op {
        BinaryOp::Add => x.wrapping_add(y),
        BinaryOp::Sub => x.wrapping_sub(y),
        BinaryOp::Mul => x.wrapping_mul(y),
        BinaryOp::Div => trunc_div(x as int, y as int) as i64,
        BinaryOp::Eq => if x == y { 1 } else { 0 },
        BinaryOp::Neq => if x != y { 1 } else { 0 },
        BinaryOp::Lt => if x < y { 1 } else { 0 },
        BinaryOp::Gt => if x > y { 1 } else { 0 },
        BinaryOp::Le => if x <= y { 1 } else { 0 },
        BinaryOp::Ge => if x >= y { 1 } else { 0 },
        BinaryOp::And => if x != 0 && y != 0 { 1 } else { 0 },
        BinaryOp::Or => if x != 0 || y != 0 { 1 } else { 0 },
    }
}

proof fn lemma_run_two(x: InstrB, y: InstrB, mem: Map<nat, i64>)
    ensures
        ir_run(seq![x], mem) == ir_step(x, mem),
        ir_run(seq![x, y], mem) == ir_step(y, ir_step(x, mem)),
{
    reveal_with_fuel(ir_run, 3);
    assert(seq![x].drop_last() =~= Seq::<InstrB>::empty());
    assert(seq![x].last() == x);
    assert(ir_run(Seq::<InstrB>::empty(), mem) == mem);
    assert(seq![x, y].drop_last() =~= seq![x]);
    assert(seq![x, y].last() == y);
}

/// Lowering keeps the meaning of each binary operator: the instructions
/// that compute `l op r` from the registers holding `l` and `r` leave, in
/// the register they name, `op` applied to those values in that order
/// (`&&` and `||` on truth values 0 and 1, as type checking ensures).
pub proof fn lemma_binary_tail_computes(op: BinaryOp, a: VReg, b: VReg, m: nat, mem: Map<nat, i64>)
    requires
        (op == BinaryOp::And || op == BinaryOp::Or) ==> (mem[a as nat] == 0 || mem[a as nat] == 1)
            && (mem[b as nat] == 0 || mem[b as nat] == 1),
        m + 1 <= usize::MAX,
    ensures
        ir_run(binary_tail(op, a, b, m).0, mem)[binary_tail(op, a, b, m).1] == source_op(op, mem[a as nat], mem[b as nat]),
{
    let (code, res) = binary_tail(op, a, b, m);
    let d = m as VReg;
    let t = (m + 1) as VReg;
    match op {
        BinaryOp::Neq => { lemma_run_two(InstrB::Eq(t, a, b), InstrB::Not(d, t), mem); },
        BinaryOp::Le => { lemma_run_two(InstrB::Lt(t, b, a), InstrB::Not(d, t), mem); },
        BinaryOp::Ge => { lemma_run_two(InstrB::Lt(t, a, b), InstrB::Not(d, t), mem); },
        BinaryOp::And => {
            lemma_run_two(InstrB::And(d, a, b), InstrB::And(d, a, b), mem);
            let x = mem[a as nat];
            let y = mem[b as nat];
            assert((x == 0 || x == 1) && (y == 0 || y == 1) ==> (x & y) == (if x != 0 && y != 0 { 1i64 } else { 0i64 }))
                by (bit_vector);
        },
        BinaryOp::Or => {
            lemma_run_two(InstrB::Or(d, a, b), InstrB::Or(d, a, b), mem);
            let x = mem[a as nat];
            let y = mem[b as nat];
            assert((x == 0 || x == 1) && (y == 0 || y == 1) ==> (x | y) == (if x != 0 || y != 0 { 1i64 } else { 0i64 }))
                by (bit_vector);
        },
        _ => { lemma_run_two(code[0], code[0], mem); },
    }
}

} // verus!
