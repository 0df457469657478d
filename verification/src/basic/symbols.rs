use vstd::prelude::*;
use crate::basic::ir::IrType;
use crate::scope::{Scopes, resolve};
use crate::text::owned;

verus! {

/// What a name stands for.
#[derive(Clone, Debug)]
pub enum SymbolKind {
    Func(Vec<IrType>, IrType),
    Var(IrType),
}

/// A name's type and kind.
#[derive(Clone, Debug)]
pub struct Symbol {
    pub type_: IrType,
    pub kind: SymbolKind,
}

/// What a symbol kind says: a function's parameter and return types, or a
/// variable's type.
pub enum SymbolKindView {
    Func(Seq<IrType>, IrType),
    Var(IrType),
}

/// What a symbol says.
pub struct SymbolView {
    pub type_: IrType,
    pub kind: SymbolKindView,
}

impl View for SymbolKind {
    type V = SymbolKindView;

    open spec fn view(&self) -> SymbolKindView {
        match self {
            SymbolKind::Func(p, r) => SymbolKindView::Func(p@, *r),
            SymbolKind::Var(t) => SymbolKindView::Var(*t),
        }
    }
}

impl View for Symbol {
    type V = SymbolView;

    open spec fn view(&self) -> SymbolView {
        SymbolView { type_: self.type_, kind: self.kind@ }
    }
}

/// Names in nested scopes; the innermost binding of a name wins.
pub struct SymbolTable {
    scopes: Scopes<Symbol>,
}

impl View for SymbolTable {
    type V = Seq<Map<Seq<char>, SymbolView>>;

    closed spec fn view(&self) -> Seq<Map<Seq<char>, SymbolView>> {
        self.scopes@
    }
}

impl SymbolTable {
    /// A table with one (global) scope.
    pub fn new() -> (r: Self)
        ensures
            r@ == seq![Map::<Seq<char>, SymbolView>::empty()],
    {
        SymbolTable { scopes: Scopes::new() }
    }

    /// Opens an inner scope.
    pub fn enter_scope(&mut self)
        ensures
            final(self)@ == old(self)@.push(Map::empty()),
    {
        self.scopes.push_frame();
    }

    /// Closes the innermost scope.
    pub fn exit_scope(&mut self)
        ensures
            old(self)@.len() > 0 ==> final(self)@ == old(self)@.drop_last(),
            old(self)@.len() == 0 ==> final(self)@ == old(self)@,
    {
        self.scopes.pop_frame();
    }

    /// Binds `name` in the innermost scope, replacing a binding it had there.
    pub fn insert(&mut self, name: String, sym: Symbol)
        requires
            old(self)@.len() > 0,
        ensures
            final(self)@ == old(self)@.update(old(self)@.len() - 1, old(self)@.last().insert(name@, sym@)),
    {
        self.scopes.bind(name, sym);
    }

    /// Binds `name` to a variable of type `type_`.
    pub fn insert_var(&mut self, name: &str, type_: IrType)
        requires
            old(self)@.len() > 0,
        ensures
            final(self)@ == old(self)@.update(
                old(self)@.len() - 1,
                old(self)@.last().insert(name@, SymbolView { type_, kind: SymbolKindView::Var(type_) }),
            ),
    {
        self.insert(owned(name), Symbol { type_, kind: SymbolKind::Var(type_) });
    }

    /// Binds `name` to a function; its symbol's type is the return type.
    pub fn insert_func(&mut self, name: &str, param_types: Vec<IrType>, return_type: IrType)
        requires
            old(self)@.len() > 0,
        ensures
            final(self)@ == old(self)@.update(
                old(self)@.len() - 1,
                old(self)@.last().insert(
                    name@,
                    SymbolView { type_: return_type, kind: SymbolKindView::Func(param_types@, return_type) },
                ),
            ),
    {
        let rt = return_type;
        self.insert(owned(name), Symbol { type_: return_type, kind: SymbolKind::Func(param_types, rt) });
    }

    /// The innermost binding of `name`.
    pub fn lookup(&self, name: &str) -> (r: Option<&Symbol>)
        ensures
            r.is_some() == resolve(self@, name@).is_some(),
            r matches Some(s) ==> resolve(self@, name@) == Some(s@),
    {
        self.scopes.get(name)
    }
}

} // verus!
