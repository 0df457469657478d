use vstd::prelude::*;

verus! {

/// A virtual register.
pub type VReg = usize;

/// The types of IR values.
#[derive(Clone, Copy, PartialEq, Eq, Debug, Structural)]
pub enum IrType {
    I32, I64, U32, U64, I8, U8, Bool, Void,
    Ptr(usize),
}

/// The functions of a program, lowered.
#[derive(Clone, Debug)]
pub struct IrModule {
    pub funcs: Vec<IrFunction>,
}

/// A lowered function: its signature, blocks and register count.
#[derive(Clone, Debug)]
pub struct IrFunction {
    pub name: String,
    pub param_types: Vec<IrType>,
    pub param_vregs: Vec<VReg>,
    pub return_type: IrType,
    pub blocks: Vec<IrBlock>,
    pub num_vregs: usize,
}

/// A labelled block: instructions and, once ended, how it ends.
#[derive(Clone, Debug)]
pub struct IrBlock {
    pub label: String,
    pub instrs: Vec<IrInstr>,
    pub terminator: Option<IrTerminator>,
}

/// An instruction on virtual registers.
#[derive(Clone, Debug)]
pub enum IrInstr {
    Const(VReg, i64, IrType),
    Mov(VReg, VReg),
    Add(VReg, VReg, VReg),
    Sub(VReg, VReg, VReg),
    Mul(VReg, VReg, VReg),
    Div(VReg, VReg, VReg),
    Eq(VReg, VReg, VReg),
    Lt(VReg, VReg, VReg),
    And(VReg, VReg, VReg),
    Or(VReg, VReg, VReg),
    Not(VReg, VReg),
    Neg(VReg, VReg),
    Call(VReg, String, Vec<VReg>, IrType),
}

/// How a block ends.
#[derive(Clone, Debug)]
pub enum IrTerminator {
    Ret(Option<VReg>),
    Br(String),
    BrCond(VReg, String, String),
}

} // verus!

verus! {

/// Every register an instruction names is below `n`.
pub open spec fn instr_regs_below(i: IrInstr, n: nat) -> bool {
    match i {
        IrInstr::Const(d, _, _) => d < n,
        IrInstr::Mov(d, s) => d < n && s < n,
        IrInstr::Add(d, a, b) | IrInstr::Sub(d, a, b) | IrInstr::Mul(d, a, b) | IrInstr::Div(d, a, b)
        | IrInstr::Eq(d, a, b) | IrInstr::Lt(d, a, b) | IrInstr::And(d, a, b) | IrInstr::Or(d, a, b) =>
            d < n && a < n && b < n,
        IrInstr::Not(d, s) | IrInstr::Neg(d, s) => d < n && s < n,
        IrInstr::Call(d, _, args, _) => d < n && forall|k: int| 0 <= k < args@.len() ==> #[trigger] args@[k] < n,
    }
}

/// Every register a terminator names is below `n`.
pub open spec fn term_regs_below(t: Option<IrTerminator>, n: nat) -> bool {
    match t {
        Some(IrTerminator::Ret(Some(v))) => v < n,
        Some(IrTerminator::BrCond(v, _, _)) => v < n,
        _ => true,
    }
}

/// Every register a block names is below `n`.
pub open spec fn block_regs_below(b: IrBlock, n: nat) -> bool {
    &&& forall|k: int| 0 <= k < b.instrs@.len() ==> instr_regs_below(#[trigger] b.instrs@[k], n)
    &&& term_regs_below(b.terminator, n)
}

/// A function is well formed when it has a block and every register it
/// names, parameters included, is below its register count.
pub open spec fn func_wf(f: IrFunction) -> bool {
    &&& f.blocks@.len() > 0
    &&& forall|k: int| 0 <= k < f.blocks@.len() ==> block_regs_below(#[trigger] f.blocks@[k], f.num_vregs as nat)
    &&& forall|k: int| 0 <= k < f.param_vregs@.len() ==> #[trigger] f.param_vregs@[k] < f.num_vregs
}

/// Every function of the module is well formed.
pub open spec fn module_wf(m: IrModule) -> bool {
    forall|k: int| 0 <= k < m.funcs@.len() ==> func_wf(#[trigger] m.funcs@[k])
}


/// An instruction as plain values.
pub enum InstrB {
    Const(VReg, i64, IrType),
    Mov(VReg, VReg),
    Add(VReg, VReg, VReg),
    Sub(VReg, VReg, VReg),
    Mul(VReg, VReg, VReg),
    Div(VReg, VReg, VReg),
    Eq(VReg, VReg, VReg),
    Lt(VReg, VReg, VReg),
    And(VReg, VReg, VReg),
    Or(VReg, VReg, VReg),
    Not(VReg, VReg),
    Neg(VReg, VReg),
    Call(VReg, Seq<char>, Seq<VReg>, IrType),
}

/// The plain value of an instruction.
pub open spec fn instr_view(i: IrInstr) -> InstrB {
    match i {
        IrInstr::Const(d, v, t) => InstrB::Const(d, v, t),
        IrInstr::Mov(d, s) => InstrB::Mov(d, s),
        IrInstr::Add(d, a, b) => InstrB::Add(d, a, b),
        IrInstr::Sub(d, a, b) => InstrB::Sub(d, a, b),
        IrInstr::Mul(d, a, b) => InstrB::Mul(d, a, b),
        IrInstr::Div(d, a, b) => InstrB::Div(d, a, b),
        IrInstr::Eq(d, a, b) => InstrB::Eq(d, a, b),
        IrInstr::Lt(d, a, b) => InstrB::Lt(d, a, b),
        IrInstr::And(d, a, b) => InstrB::And(d, a, b),
        IrInstr::Or(d, a, b) => InstrB::Or(d, a, b),
        IrInstr::Not(d, s) => InstrB::Not(d, s),
        IrInstr::Neg(d, s) => InstrB::Neg(d, s),
        IrInstr::Call(d, n, args, t) => InstrB::Call(d, n@, args@, t),
    }
}

/// The plain values of instructions, in order.
pub open spec fn instrs_view(s: Seq<IrInstr>) -> Seq<InstrB> {
    s.map_values(|i: IrInstr| instr_view(i))
}

/// A terminator as plain values.
pub enum TermB {
    Ret(Option<VReg>),
    Br(Seq<char>),
    BrCond(VReg, Seq<char>, Seq<char>),
}

/// A block as plain values.
pub struct BlockB {
    pub label: Seq<char>,
    pub instrs: Seq<InstrB>,
    pub term: Option<TermB>,
}

/// The plain value of a terminator.
pub open spec fn term_view(t: IrTerminator) -> TermB {
    match t {
        IrTerminator::Ret(v) => TermB::Ret(v),
        IrTerminator::Br(l) => TermB::Br(l@),
        IrTerminator::BrCond(v, a, b) => TermB::BrCond(v, a@, b@),
    }
}

/// The plain value of a block.
pub open spec fn block_view(b: IrBlock) -> BlockB {
    BlockB {
        label: b.label@,
        instrs: instrs_view(b.instrs@),
        term: match b.terminator {
            Some(t) => Some(term_view(t)),
            None => None,
        },
    }
}

/// The plain values of blocks, in order.
pub open spec fn blocks_view(s: Seq<IrBlock>) -> Seq<BlockB> {
    s.map_values(|b: IrBlock| block_view(b))
}

} // verus!
