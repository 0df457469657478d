use vstd::prelude::*;

verus! {

/// A virtual register.
pub type VReg = usize;

/// The types of IR values.
#[derive(Debug, PartialEq)]
pub enum IrType {
    I32,
    I64,
    U32,
    U64,
    I8,
    U8,
    Bool,
    Void,
    Ptr(Box<IrType>),
}

/// The functions of a program, lowered.
#[derive(Clone, Debug)]
pub struct IrModule {
    pub funcs: Vec<IrFunction>,
}

/// A lowered function: its signature, blocks and counts.
#[derive(Clone, Debug)]
pub struct IrFunction {
    pub name: String,
    pub params: Vec<IrParam>,
    pub return_type: IrType,
    pub blocks: Vec<IrBlock>,
    pub num_vregs: usize,
    pub num_var_slots: usize,
}

/// A parameter of a lowered function and its register.
#[derive(Clone, Debug)]
pub struct IrParam {
    pub name: String,
    pub vreg: VReg,
    pub type_: IrType,
}

/// A labelled block: instructions and how it ends.
#[derive(Clone, Debug)]
pub struct IrBlock {
    pub label: String,
    pub instrs: Vec<IrInstr>,
    pub terminator: IrTerminator,
}

/// An instruction of the block graph.
#[derive(Clone, Debug)]
pub enum IrInstr {
    Phi(VReg, Vec<(VReg, String)>),
    Const(VReg, i64, IrType),
    Add(VReg, VReg, VReg),
    Sub(VReg, VReg, VReg),
    Mul(VReg, VReg, VReg),
    Div(VReg, VReg, VReg),
    Eq(VReg, VReg, VReg),
    Neq(VReg, VReg, VReg),
    Lt(VReg, VReg, VReg),
    Gt(VReg, VReg, VReg),
    Le(VReg, VReg, VReg),
    Ge(VReg, VReg, VReg),
    Not(VReg, VReg),
    Neg(VReg, VReg),
    And(VReg, VReg, VReg),
    Or(VReg, VReg, VReg),
    Load(VReg, VReg, IrType),
    Store(VReg, VReg, IrType),
    LoadStack(VReg, usize, IrType),
    StoreStack(VReg, usize, IrType),
    Alloc(VReg, IrType),
    Call(VReg, String, Vec<VReg>, IrType),
    Copy(VReg, VReg),
}

/// How a block ends.
#[derive(Clone, Debug)]
pub enum IrTerminator {
    Ret(Option<VReg>),
    Br(String),
    BrCond(VReg, String, String),
    Unreachable,
}

impl IrType {
    /// Whether two types are the same.
    pub fn same(&self, other: &IrType) -> (r: bool)
        ensures
            r == (*self == *other),
        decreases self,
    {
        match (self, other) {
            (IrType::Ptr(a), IrType::Ptr(b)) => a.same(b),
            (IrType::I32, IrType::I32) | (IrType::I64, IrType::I64) | (IrType::U32, IrType::U32)
            | (IrType::U64, IrType::U64) | (IrType::I8, IrType::I8) | (IrType::U8, IrType::U8)
            | (IrType::Bool, IrType::Bool) | (IrType::Void, IrType::Void) => true,
            _ => false,
        }
    }

    /// A copy of the type.
    pub fn duplicate(&self) -> (r: IrType)
        ensures
            r == *self,
        decreases self,
    {
        match self {
            IrType::Ptr(a) => IrType::Ptr(Box::new(a.duplicate())),
            IrType::I32 => IrType::I32,
            IrType::I64 => IrType::I64,
            IrType::U32 => IrType::U32,
            IrType::U64 => IrType::U64,
            IrType::I8 => IrType::I8,
            IrType::U8 => IrType::U8,
            IrType::Bool => IrType::Bool,
            IrType::Void => IrType::Void,
        }
    }
}

impl IrTerminator {
    /// A copy of the terminator.
    pub fn duplicate(&self) -> (r: IrTerminator)
        ensures
            r@ == self@,
    {
        match self {
            IrTerminator::Ret(v) => IrTerminator::Ret(*v),
            IrTerminator::Br(l) => IrTerminator::Br(l.clone()),
            IrTerminator::BrCond(v, t, f) => IrTerminator::BrCond(*v, t.clone(), f.clone()),
            IrTerminator::Unreachable => IrTerminator::Unreachable,
        }
    }
}

impl IrModule {
    pub fn new() -> (r: Self)
        ensures
            r.funcs@.len() == 0,
    {
        IrModule { funcs: Vec::new() }
    }
}

impl IrFunction {
    /// A function with no parameters, blocks or registers yet.
    pub fn new(name: String, return_type: IrType) -> (r: Self)
        ensures
            r.name == name,
            r.return_type == return_type,
            r.params@.len() == 0,
            r.blocks@.len() == 0,
            r.num_vregs == 0,
            r.num_var_slots == 0,
    {
        IrFunction { name, params: Vec::new(), return_type, blocks: Vec::new(), num_vregs: 0, num_var_slots: 0 }
    }
}

impl IrBlock {
    /// An empty block that ends in `Unreachable`.
    pub fn new(label: String) -> (r: Self)
        ensures
            r.label == label,
            r.instrs@.len() == 0,
            r.terminator is Unreachable,
    {
        IrBlock { label, instrs: Vec::new(), terminator: IrTerminator::Unreachable }
    }
}

/// What an instruction says, with its lists and names as sequences.
pub enum InstrView {
    Phi(VReg, Seq<(VReg, Seq<char>)>),
    Const(VReg, i64, IrType),
    Add(VReg, VReg, VReg),
    Sub(VReg, VReg, VReg),
    Mul(VReg, VReg, VReg),
    Div(VReg, VReg, VReg),
    Eq(VReg, VReg, VReg),
    Neq(VReg, VReg, VReg),
    Lt(VReg, VReg, VReg),
    Gt(VReg, VReg, VReg),
    Le(VReg, VReg, VReg),
    Ge(VReg, VReg, VReg),
    Not(VReg, VReg),
    Neg(VReg, VReg),
    And(VReg, VReg, VReg),
    Or(VReg, VReg, VReg),
    Load(VReg, VReg, IrType),
    Store(VReg, VReg, IrType),
    LoadStack(VReg, usize, IrType),
    StoreStack(VReg, usize, IrType),
    Alloc(VReg, IrType),
    Call(VReg, Seq<char>, Seq<VReg>, IrType),
    Copy(VReg, VReg),
}

/// A phi operand as values.
pub open spec fn phi_op_view(p: (VReg, String)) -> (VReg, Seq<char>) {
    (p.0, p.1@)
}

impl View for IrInstr {
    type V = InstrView;

    open spec fn view(&self) -> InstrView {
        match *self {
            IrInstr::Phi(d, ops) => InstrView::Phi(d, ops@.map_values(|p: (VReg, String)| phi_op_view(p))),
            IrInstr::Const(d, v, t) => InstrView::Const(d, v, t),
            IrInstr::Add(d, a, b) => InstrView::Add(d, a, b),
            IrInstr::Sub(d, a, b) => InstrView::Sub(d, a, b),
            IrInstr::Mul(d, a, b) => InstrView::Mul(d, a, b),
            IrInstr::Div(d, a, b) => InstrView::Div(d, a, b),
            IrInstr::Eq(d, a, b) => InstrView::Eq(d, a, b),
            IrInstr::Neq(d, a, b) => InstrView::Neq(d, a, b),
            IrInstr::Lt(d, a, b) => InstrView::Lt(d, a, b),
            IrInstr::Gt(d, a, b) => InstrView::Gt(d, a, b),
            IrInstr::Le(d, a, b) => InstrView::Le(d, a, b),
            IrInstr::Ge(d, a, b) => InstrView::Ge(d, a, b),
            IrInstr::Not(d, a) => InstrView::Not(d, a),
            IrInstr::Neg(d, a) => InstrView::Neg(d, a),
            IrInstr::And(d, a, b) => InstrView::And(d, a, b),
            IrInstr::Or(d, a, b) => InstrView::Or(d, a, b),
            IrInstr::Load(d, a, t) => InstrView::Load(d, a, t),
            IrInstr::Store(v, a, t) => InstrView::Store(v, a, t),
            IrInstr::LoadStack(d, k, t) => InstrView::LoadStack(d, k, t),
            IrInstr::StoreStack(v, k, t) => InstrView::StoreStack(v, k, t),
            IrInstr::Alloc(d, t) => InstrView::Alloc(d, t),
            IrInstr::Call(d, n, args, t) => InstrView::Call(d, n@, args@, t),
            IrInstr::Copy(d, a) => InstrView::Copy(d, a),
        }
    }
}

/// What a terminator says.
pub enum TermView {
    Ret(Option<VReg>),
    Br(Seq<char>),
    BrCond(VReg, Seq<char>, Seq<char>),
    Unreachable,
}

impl View for IrTerminator {
    type V = TermView;

    open spec fn view(&self) -> TermView {
        match *self {
            IrTerminator::Ret(v) => TermView::Ret(v),
            IrTerminator::Br(l) => TermView::Br(l@),
            IrTerminator::BrCond(v, t, f) => TermView::BrCond(v, t@, f@),
            IrTerminator::Unreachable => TermView::Unreachable,
        }
    }
}

/// What a block says.
pub struct BlockView {
    pub label: Seq<char>,
    pub instrs: Seq<InstrView>,
    pub term: TermView,
}

impl View for IrBlock {
    type V = BlockView;

    open spec fn view(&self) -> BlockView {
        BlockView {
            label: self.label@,
            instrs: self.instrs@.map_values(|i: IrInstr| i@),
            term: self.terminator@,
        }
    }
}

/// What a function says.
pub struct FuncView {
    pub name: Seq<char>,
    pub params: Seq<(Seq<char>, VReg, IrType)>,
    pub return_type: IrType,
    pub blocks: Seq<BlockView>,
    pub num_vregs: usize,
    pub num_var_slots: usize,
}

impl View for IrFunction {
    type V = FuncView;

    open spec fn view(&self) -> FuncView {
        FuncView {
            name: self.name@,
            params: self.params@.map_values(|p: IrParam| (p.name@, p.vreg, p.type_)),
            return_type: self.return_type,
            blocks: self.blocks@.map_values(|b: IrBlock| b@),
            num_vregs: self.num_vregs,
            num_var_slots: self.num_var_slots,
        }
    }
}

impl View for IrModule {
    type V = Seq<FuncView>;

    open spec fn view(&self) -> Seq<FuncView> {
        self.funcs@.map_values(|f: IrFunction| f@)
    }
}

/// The register an instruction writes, if any.
pub open spec fn spec_dest(i: InstrView) -> Option<VReg> {
    match i {
        InstrView::Phi(d, _) | InstrView::Const(d, _, _) | InstrView::Add(d, _, _) | InstrView::Sub(d, _, _)
        | InstrView::Mul(d, _, _) | InstrView::Div(d, _, _) | InstrView::Eq(d, _, _) | InstrView::Neq(d, _, _)
        | InstrView::Lt(d, _, _) | InstrView::Gt(d, _, _) | InstrView::Le(d, _, _) | InstrView::Ge(d, _, _)
        | InstrView::Not(d, _) | InstrView::Neg(d, _) | InstrView::And(d, _, _) | InstrView::Or(d, _, _)
        | InstrView::Load(d, _, _) | InstrView::LoadStack(d, _, _) | InstrView::Alloc(d, _)
        | InstrView::Call(d, _, _, _) | InstrView::Copy(d, _) => Some(d),
        InstrView::Store(_, _, _) | InstrView::StoreStack(_, _, _) => None,
    }
}

/// The registers an instruction reads, in operand order.
pub open spec fn spec_uses(i: InstrView) -> Seq<VReg> {
    match i {
        InstrView::Phi(_, ops) => ops.map_values(|p: (VReg, Seq<char>)| p.0),
        InstrView::Const(_, _, _) => seq![],
        InstrView::Add(_, a, b) | InstrView::Sub(_, a, b) | InstrView::Mul(_, a, b) | InstrView::Div(_, a, b)
        | InstrView::Eq(_, a, b) | InstrView::Neq(_, a, b) | InstrView::Lt(_, a, b) | InstrView::Gt(_, a, b)
        | InstrView::Le(_, a, b) | InstrView::Ge(_, a, b) | InstrView::And(_, a, b) | InstrView::Or(_, a, b) => seq![a, b],
        InstrView::Not(_, a) | InstrView::Neg(_, a) | InstrView::Copy(_, a) => seq![a],
        InstrView::Load(_, addr, _) => seq![addr],
        InstrView::LoadStack(_, _, _) => seq![],
        InstrView::Store(val, addr, _) => seq![val, addr],
        InstrView::StoreStack(val, _, _) => seq![val],
        InstrView::Alloc(_, _) => seq![],
        InstrView::Call(_, _, args, _) => args,
    }
}

/// Whether an instruction has an effect beyond its result.
pub open spec fn spec_side_effect(i: InstrView) -> bool {
    i is Store || i is StoreStack || i is Call
}

impl IrInstr {
    /// The register the instruction writes, if any.
    pub fn dest(&self) -> (r: Option<VReg>)
        ensures
            r == spec_dest(self@),
    {
        match self {
            IrInstr::Phi(d, _) | IrInstr::Const(d, _, _) | IrInstr::Add(d, _, _) | IrInstr::Sub(d, _, _)
            | IrInstr::Mul(d, _, _) | IrInstr::Div(d, _, _) | IrInstr::Eq(d, _, _) | IrInstr::Neq(d, _, _)
            | IrInstr::Lt(d, _, _) | IrInstr::Gt(d, _, _) | IrInstr::Le(d, _, _) | IrInstr::Ge(d, _, _)
            | IrInstr::Not(d, _) | IrInstr::Neg(d, _) | IrInstr::And(d, _, _) | IrInstr::Or(d, _, _)
            | IrInstr::Load(d, _, _) | IrInstr::LoadStack(d, _, _) | IrInstr::Alloc(d, _)
            | IrInstr::Call(d, _, _, _) | IrInstr::Copy(d, _) => Some(*d),
            IrInstr::Store(_, _, _) | IrInstr::StoreStack(_, _, _) => None,
        }
    }

    /// The registers the instruction reads, in operand order.
    pub fn uses(&self) -> (r: Vec<VReg>)
        ensures
            r@ == spec_uses(self@),
    {
        match self {
            IrInstr::Phi(_, ops) => {
                let mut v: Vec<VReg> = Vec::new();
                let mut i: usize = 0;
                while i < ops.len()
                    invariant
                        i <= ops@.len(),
                        v@ == ops@.take(i as int).map_values(|p: (VReg, String)| phi_op_view(p)).map_values(|p: (VReg, Seq<char>)| p.0),
                    decreases ops@.len() - i,
                {
                    v.push(ops[i].0);
                    assert(ops@.take(i + 1).map_values(|p: (VReg, String)| phi_op_view(p)).map_values(|p: (VReg, Seq<char>)| p.0)
                        == ops@.take(i as int).map_values(|p: (VReg, String)| phi_op_view(p)).map_values(|p: (VReg, Seq<char>)| p.0).push(ops@[i as int].0));
                    i = i + 1;
                }
                assert(ops@.take(ops@.len() as int) == ops@);
                v
            },
            IrInstr::Const(_, _, _) => Vec::new(),
            IrInstr::Add(_, a, b) | IrInstr::Sub(_, a, b) | IrInstr::Mul(_, a, b) | IrInstr::Div(_, a, b)
            | IrInstr::Eq(_, a, b) | IrInstr::Neq(_, a, b) | IrInstr::Lt(_, a, b) | IrInstr::Gt(_, a, b)
            | IrInstr::Le(_, a, b) | IrInstr::Ge(_, a, b) | IrInstr::And(_, a, b) | IrInstr::Or(_, a, b) => {
                vec![*a, *b]
            },
            IrInstr::Not(_, a) | IrInstr::Neg(_, a) | IrInstr::Copy(_, a) => vec![*a],
            IrInstr::Load(_, addr, _) => vec![*addr],
            IrInstr::LoadStack(_, _, _) => Vec::new(),
            IrInstr::Store(val, addr, _) => vec![*val, *addr],
            IrInstr::StoreStack(val, _, _) => vec![*val],
            IrInstr::Alloc(_, _) => Vec::new(),
            IrInstr::Call(_, _, args, _) => args.clone(),
        }
    }

    /// A copy of the instruction.
    pub fn duplicate(&self) -> (r: IrInstr)
        ensures
            r@ == self@,
    {
        match self {
            IrInstr::Phi(d, ops) => {
                let mut v: Vec<(VReg, String)> = Vec::new();
                let mut i: usize = 0;
                while i < ops.len()
                    invariant
                        i <= ops@.len(),
                        v@.map_values(|p: (VReg, String)| phi_op_view(p))
                            == ops@.take(i as int).map_values(|p: (VReg, String)| phi_op_view(p)),
                    decreases ops@.len() - i,
                {
                    v.push((ops[i].0, ops[i].1.clone()));
                    assert(ops@.take(i + 1).map_values(|p: (VReg, String)| phi_op_view(p))
                        == ops@.take(i as int).map_values(|p: (VReg, String)| phi_op_view(p)).push(phi_op_view(ops@[i as int])));
                    i = i + 1;
                }
                assert(ops@.take(ops@.len() as int) == ops@);
                IrInstr::Phi(*d, v)
            },
            IrInstr::Const(d, v, t) => IrInstr::Const(*d, *v, t.duplicate()),
            IrInstr::Add(d, a, b) => IrInstr::Add(*d, *a, *b),
            IrInstr::Sub(d, a, b) => IrInstr::Sub(*d, *a, *b),
            IrInstr::Mul(d, a, b) => IrInstr::Mul(*d, *a, *b),
            IrInstr::Div(d, a, b) => IrInstr::Div(*d, *a, *b),
            IrInstr::Eq(d, a, b) => IrInstr::Eq(*d, *a, *b),
            IrInstr::Neq(d, a, b) => IrInstr::Neq(*d, *a, *b),
            IrInstr::Lt(d, a, b) => IrInstr::Lt(*d, *a, *b),
            IrInstr::Gt(d, a, b) => IrInstr::Gt(*d, *a, *b),
            IrInstr::Le(d, a, b) => IrInstr::Le(*d, *a, *b),
            IrInstr::Ge(d, a, b) => IrInstr::Ge(*d, *a, *b),
            IrInstr::Not(d, a) => IrInstr::Not(*d, *a),
            IrInstr::Neg(d, a) => IrInstr::Neg(*d, *a),
            IrInstr::And(d, a, b) => IrInstr::And(*d, *a, *b),
            IrInstr::Or(d, a, b) => IrInstr::Or(*d, *a, *b),
            IrInstr::Load(d, a, t) => IrInstr::Load(*d, *a, t.duplicate()),
            IrInstr::Store(v, a, t) => IrInstr::Store(*v, *a, t.duplicate()),
            IrInstr::LoadStack(d, k, t) => IrInstr::LoadStack(*d, *k, t.duplicate()),
            IrInstr::StoreStack(v, k, t) => IrInstr::StoreStack(*v, *k, t.duplicate()),
            IrInstr::Alloc(d, t) => IrInstr::Alloc(*d, t.duplicate()),
            IrInstr::Call(d, n, args, t) => {
                let mut a: Vec<VReg> = Vec::new();
                let mut i: usize = 0;
                while i < args.len()
                    invariant
                        i <= args@.len(),
                        a@ == args@.take(i as int),
                    decreases args@.len() - i,
                {
                    a.push(args[i]);
                    assert(args@.take(i + 1) == args@.take(i as int).push(args@[i as int]));
                    i = i + 1;
                }
                assert(args@.take(args@.len() as int) == args@);
                IrInstr::Call(*d, n.clone(), a, t.duplicate())
            },
            IrInstr::Copy(d, a) => IrInstr::Copy(*d, *a),
        }
    }

    /// Whether the instruction does more than compute its result.
    pub fn is_side_effect(&self) -> (r: bool)
        ensures
            r == spec_side_effect(self@),
    {
        match self {
            IrInstr::Store(_, _, _) | IrInstr::StoreStack(_, _, _) | IrInstr::Call(_, _, _, _) => true,
            _ => false,
        }
    }

    /// Whether the instruction is a copy.
    pub fn is_copy(&self) -> (r: bool)
        ensures
            r == (*self is Copy),
    {
        match self {
            IrInstr::Copy(_, _) => true,
            _ => false,
        }
    }
}

impl Clone for IrType {
    fn clone(&self) -> (r: Self)
        ensures
            r == *self,
    {
        self.duplicate()
    }
}

} // verus!
