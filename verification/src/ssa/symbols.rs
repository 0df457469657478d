use vstd::prelude::*;
use crate::ssa::ast::{AstType, PrimType};
use crate::ssa::ir::IrType;
use crate::scope::{Scopes, resolve};

verus! {

/// The IR type of a written type: named types are `i32`, and arrays and
/// pointers are pointers to their element type.
pub open spec fn spec_ast_type_to_ir(t: AstType) -> IrType
    decreases t,
{
    match t {
        AstType::Prim(p) => match p {
            PrimType::I32 => IrType::I32,
            PrimType::I64 => IrType::I64,
            PrimType::U32 => IrType::U32,
            PrimType::U64 => IrType::U64,
            PrimType::I8 => IrType::I8,
            PrimType::U8 => IrType::U8,
            PrimType::Bool => IrType::Bool,
            PrimType::Void => IrType::Void,
        },
        AstType::Named(_) => IrType::I32,
        AstType::Ptr(inner) => IrType::Ptr(Box::new(spec_ast_type_to_ir(*inner))),
        AstType::Array(inner, _) => IrType::Ptr(Box::new(spec_ast_type_to_ir(*inner))),
    }
}

/// The IR type of a written type.
pub fn ast_type_to_ir(t: &AstType) -> (r: IrType)
    ensures
        r == spec_ast_type_to_ir(*t),
    decreases t,
{
    match t {
        AstType::Prim(p) => match p {
            PrimType::I32 => IrType::I32,
            PrimType::I64 => IrType::I64,
            PrimType::U32 => IrType::U32,
            PrimType::U64 => IrType::U64,
            PrimType::I8 => IrType::I8,
            PrimType::U8 => IrType::U8,
            PrimType::Bool => IrType::Bool,
            PrimType::Void => IrType::Void,
        },
        AstType::Named(_) => IrType::I32,
        AstType::Ptr(inner) => IrType::Ptr(Box::new(ast_type_to_ir(inner))),
        AstType::Array(inner, _) => IrType::Ptr(Box::new(ast_type_to_ir(inner))),
    }
}

/// The size in bytes of a value of type `t`.
pub open spec fn spec_ir_type_size(t: IrType) -> usize {
    match t {
        IrType::I32 | IrType::U32 => 4,
        IrType::I64 | IrType::U64 => 8,
        IrType::I8 | IrType::U8 => 1,
        IrType::Bool => 1,
        IrType::Void => 0,
        IrType::Ptr(_) => 8,
    }
}

/// The size in bytes of a value of type `t`.
pub fn ir_type_size(t: &IrType) -> (r: usize)
    ensures
        r == spec_ir_type_size(*t),
{
    match t {
        IrType::I32 | IrType::U32 => 4,
        IrType::I64 | IrType::U64 => 8,
        IrType::I8 | IrType::U8 => 1,
        IrType::Bool => 1,
        IrType::Void => 0,
        IrType::Ptr(_) => 8,
    }
}

/// What a name stands for: a function with its parameter and return types,
/// or a variable with its type.
#[derive(Debug)]
pub enum SymType {
    Func { params: Vec<IrType>, return_type: IrType },
    Var(IrType),
}

/// What a symbol says.
pub enum SymView {
    Func(Seq<IrType>, IrType),
    Var(IrType),
}

impl View for SymType {
    type V = SymView;

    open spec fn view(&self) -> SymView {
        match self {
            SymType::Func { params, return_type } => SymView::Func(params@, *return_type),
            SymType::Var(t) => SymView::Var(*t),
        }
    }
}

/// A copy of a list of types.
pub fn types_copy(ts: &Vec<IrType>) -> (r: Vec<IrType>)
    ensures
        r@ == ts@,
{
    let mut out: Vec<IrType> = Vec::new();
    let mut i: usize = 0;
    while i < ts.len()
        invariant
            i <= ts@.len(),
            out@ == ts@.take(i as int),
        decreases ts@.len() - i,
    {
        out.push(ts[i].duplicate());
        assert(ts@.take(i + 1) == ts@.take(i as int).push(ts@[i as int]));
        i = i + 1;
    }
    assert(ts@.take(ts@.len() as int) == ts@);
    out
}

impl SymType {
    /// A copy of the symbol.
    pub fn duplicate(&self) -> (r: SymType)
        ensures
            r@ == self@,
    {
        match self {
            SymType::Func { params, return_type } => SymType::Func {
                params: types_copy(params),
                return_type: return_type.duplicate(),
            },
            SymType::Var(t) => SymType::Var(t.duplicate()),
        }
    }
}

/// Names in nested scopes; the innermost binding of a name wins.
pub struct SymbolTable {
    scopes: Scopes<SymType>,
}

impl View for SymbolTable {
    type V = Seq<Map<Seq<char>, SymView>>;

    closed spec fn view(&self) -> Seq<Map<Seq<char>, SymView>> {
        self.scopes@
    }
}

impl SymbolTable {
    /// A table with one (global) scope.
    pub fn new() -> (r: Self)
        ensures
            r@ == seq![Map::<Seq<char>, SymView>::empty()],
    {
        SymbolTable { scopes: Scopes::new() }
    }

    /// Opens an inner scope.
    pub fn enter_scope(&mut self)
        ensures
            final(self)@ == old(self)@.push(Map::empty()),
    {
        self.scopes.push_frame();
    }

    /// Closes the innermost scope.
    pub fn exit_scope(&mut self)
        ensures
            old(self)@.len() > 0 ==> final(self)@ == old(self)@.drop_last(),
            old(self)@.len() == 0 ==> final(self)@ == old(self)@,
    {
        self.scopes.pop_frame();
    }

    /// Binds `name` in the innermost scope, unless that scope already binds
    /// it (or there is no scope): then nothing changes and the answer is
    /// `false`.
    pub fn insert(&mut self, name: String, sym: SymType) -> (r: bool)
        ensures
            r == (old(self)@.len() > 0 && !old(self)@.last().contains_key(name@)),
            r ==> final(self)@ == old(self)@.update(old(self)@.len() - 1, old(self)@.last().insert(name@, sym@)),
            !r ==> final(self)@ == old(self)@,
    {
        if self.scopes.frames.len() == 0 {
            return false;
        }
        if self.scopes.get_innermost(name.as_str()).is_some() {
            return false;
        }
        self.scopes.bind(name, sym);
        true
    }

    /// The innermost binding of `name`.
    pub fn lookup(&self, name: &str) -> (r: Option<&SymType>)
        ensures
            r.is_some() == resolve(self@, name@).is_some(),
            r matches Some(s) ==> resolve(self@, name@) == Some(s@),
    {
        self.scopes.get(name)
    }

    /// The binding of `name` in the innermost scope only.
    pub fn lookup_in_current_scope(&self, name: &str) -> (r: Option<&SymType>)
        ensures
            self@.len() == 0 ==> r.is_none(),
            self@.len() > 0 ==> r.is_some() == self@.last().contains_key(name@),
            r matches Some(s) ==> s@ == self@.last()[name@],
    {
        self.scopes.get_innermost(name)
    }
}

} // verus!

verus! {

/// The scopes after `insert` is called with each name and symbol of `kvs`
/// in turn.
pub open spec fn inserted(t: Seq<Map<Seq<char>, SymView>>, kvs: Seq<(Seq<char>, SymView)>) -> Seq<Map<Seq<char>, SymView>>
    decreases kvs.len(),
{
    if kvs.len() == 0 {
        t
    } else {
        let p = inserted(t, kvs.drop_last());
        let (n, s) = kvs.last();
        if p.len() > 0 && !p.last().contains_key(n) {
            p.update(p.len() - 1, p.last().insert(n, s))
        } else {
            p
        }
    }
}

/// Opening a scope, binding any names in it and closing it again gives
/// back the scopes as they were: every name resolves as before, and the
/// innermost scope is the one that was innermost before.
pub proof fn lemma_exit_after_enter(t: Seq<Map<Seq<char>, SymView>>, kvs: Seq<(Seq<char>, SymView)>)
    ensures
        inserted(t.push(Map::empty()), kvs).len() == t.len() + 1,
        inserted(t.push(Map::empty()), kvs).drop_last() == t,
        forall|name: Seq<char>| #[trigger] resolve(inserted(t.push(Map::empty()), kvs).drop_last(), name) == resolve(t, name),
    decreases kvs.len(),
{
    let t1 = t.push(Map::empty());
    if kvs.len() == 0 {
        assert(t1.drop_last() =~= t);
    } else {
        lemma_exit_after_enter(t, kvs.drop_last());
        let p = inserted(t1, kvs.drop_last());
        let (n, s) = kvs.last();
        if p.len() > 0 && !p.last().contains_key(n) {
            assert(p.update(p.len() - 1, p.last().insert(n, s)).drop_last() =~= p.drop_last());
        }
    }
}

} // verus!
