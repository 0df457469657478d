use vstd::prelude::*;
use crate::basic::span::Span;
use crate::basic::diag::{Diagnostics, Diagnostic, Severity};
use crate::basic::ast::{
    AstProgram, AstDecl, AstFuncDecl, AstBlock, AstStmt, AstExpr, BinaryOp, UnaryOp, AstType, PrimType,
};
use crate::basic::symbols::{SymbolTable, Symbol, SymbolKind, SymbolView, SymbolKindView};
use crate::basic::ir::IrType;
use crate::scope::resolve;
use crate::text::{owned, cat, push_decimal, decimal};
use crate::basic::grammar::{Msg, reported, lemma_reported_none, lemma_reported_chain, lemma_push_reported};

verus! {

/// The IR type an AST type is lowered to.
pub open spec fn spec_ast_type_to_ir(t: AstType) -> IrType {
    match t {
        AstType::Prim(p) => match p {
            PrimType::I32 => IrType::I32,
            PrimType::I64 => IrType::I64,
            PrimType::U32 => IrType::U32,
            PrimType::U64 => IrType::U64,
            PrimType::I8 => IrType::I8,
            PrimType::U8 => IrType::U8,
            PrimType::Bool => IrType::Bool,
            PrimType::Void => IrType::Void,
            PrimType::Char => IrType::I8,
            PrimType::Usize => IrType::U64,
            PrimType::Isize => IrType::I64,
        },
        AstType::Named(_) => IrType::I32,
        AstType::Ptr(_) => IrType::Ptr(0),
        AstType::Array(_, _) => IrType::Ptr(0),
    }
}

/// The IR type of an AST type.
pub fn ast_type_to_ir(t: &AstType) -> (r: IrType)
    ensures
        r == spec_ast_type_to_ir(*t),
{
    match t {
        AstType::Prim(p) => match p {
            PrimType::I32 => IrType::I32,
            PrimType::I64 => IrType::I64,
            PrimType::U32 => IrType::U32,
            PrimType::U64 => IrType::U64,
            PrimType::I8 => IrType::I8,
            PrimType::U8 => IrType::U8,
            PrimType::Bool => IrType::Bool,
            PrimType::Void => IrType::Void,
            PrimType::Char => IrType::I8,
            PrimType::Usize => IrType::U64,
            PrimType::Isize => IrType::I64,
        },
        AstType::Named(_) => IrType::I32,
        AstType::Ptr(_inner) => IrType::Ptr(0),
        AstType::Array(_, _inner) => IrType::Ptr(0),
    }
}

/// Scopes of symbols, innermost last.
pub type Frames = Seq<Map<Seq<char>, SymbolView>>;

/// Drops the innermost scope, if there is one.
pub open spec fn pop_frame(f: Frames) -> Frames {
    if f.len() > 0 { f.drop_last() } else { f }
}

/// Binds a variable in the innermost scope.
pub open spec fn bind_var(f: Frames, name: Seq<char>, t: IrType) -> Frames {
    f.update(f.len() - 1, f.last().insert(name, SymbolView { type_: t, kind: SymbolKindView::Var(t) }))
}

/// The type an expression has, or `None` where the checker gives up on it.
pub open spec fn expr_type(f: Frames, e: AstExpr) -> Option<IrType>
    decreases e,
{
    match e {
        AstExpr::Int(_) => Some(IrType::I32),
        AstExpr::Bool(_) => Some(IrType::Bool),
        AstExpr::Ident(n) => match resolve(f, n@) {
            Some(s) => Some(s.type_),
            None => None,
        },
        AstExpr::Binary(op, l, r) => match (expr_type(f, *l), expr_type(f, *r)) {
            (Some(lt), Some(_)) => match op {
                BinaryOp::And | BinaryOp::Or => Some(IrType::Bool),
                BinaryOp::Eq | BinaryOp::Neq | BinaryOp::Lt | BinaryOp::Gt | BinaryOp::Le
                | BinaryOp::Ge => Some(IrType::Bool),
                _ => Some(lt),
            },
            _ => None,
        },
        AstExpr::Unary(op, x) => match expr_type(f, *x) {
            Some(t) => match op {
                UnaryOp::Neg => Some(t),
                UnaryOp::Not => Some(IrType::Bool),
            },
            None => None,
        },
        AstExpr::Call(n, args) => match resolve(f, n@) {
            Some(s) => match s.kind {
                SymbolKindView::Func(p, r) => if args@.len() == p.len() { Some(r) } else { None },
                SymbolKindView::Var(_) => None,
            },
            None => None,
        },
        AstExpr::Cast(t, _) => Some(spec_ast_type_to_ir(*t)),
        AstExpr::Assign(l, r) => match expr_type(f, *r) {
            Some(_) => match *l {
                AstExpr::Ident(n) => match resolve(f, n@) {
                    Some(s) => Some(s.type_),
                    None => None,
                },
                _ => None,
            },
            None => None,
        },
    }
}

/// An error at the start of the text, where this checker puts them all.
pub open spec fn at0(m: Seq<char>) -> Msg {
    (m, Span { start: 0, end: 0 })
}

/// `m` when `c` holds, else nothing.
pub open spec fn msg_if(c: bool, m: Msg) -> Seq<Msg> {
    if c { seq![m] } else { seq![] }
}

/// The errors checking an expression reports, in order. The checker stops
/// at an operand it gives up on.
pub open spec fn expr_errs(f: Frames, e: AstExpr) -> Seq<Msg>
    decreases e,
{
    match e {
        AstExpr::Int(_) => seq![],
        AstExpr::Bool(_) => seq![],
        AstExpr::Ident(n) => msg_if(resolve(f, n@).is_none(), at0("undefined variable: "@ + n@)),
        AstExpr::Binary(op, l, r) => match expr_type(f, *l) {
            None => expr_errs(f, *l),
            Some(lt) => match expr_type(f, *r) {
                None => expr_errs(f, *l) + expr_errs(f, *r),
                Some(rt) => expr_errs(f, *l) + expr_errs(f, *r)
                    + msg_if(lt != rt, at0("type mismatch in binary expression"@))
                    + msg_if((op == BinaryOp::And || op == BinaryOp::Or) && lt != IrType::Bool, at0("logical ops require bool"@)),
            },
        },
        AstExpr::Unary(op, x) => expr_errs(f, *x) + match expr_type(f, *x) {
            None => seq![],
            Some(t) => if op == UnaryOp::Neg {
                msg_if(t == IrType::Bool, at0("cannot negate bool"@))
            } else {
                msg_if(t != IrType::Bool, at0("not requires bool"@))
            },
        },
        AstExpr::Call(n, args) => match resolve(f, n@) {
            Some(s) => match s.kind {
                SymbolKindView::Func(p, _) => if args@.len() == p.len() {
                    args_errs(f, args@, p)
                } else {
                    seq![at0("wrong number of arguments"@)]
                },
                SymbolKindView::Var(_) => seq![at0("not a function: "@ + n@)],
            },
            None => seq![at0("undefined function: "@ + n@)],
        },
        AstExpr::Cast(_, x) => expr_errs(f, *x),
        AstExpr::Assign(l, r) => expr_errs(f, *r) + match expr_type(f, *r) {
            None => seq![],
            Some(rt) => match *l {
                AstExpr::Ident(n) => match resolve(f, n@) {
                    Some(s) => msg_if(s.type_ != rt, at0("type mismatch in assignment"@)),
                    None => seq![at0("undefined variable: "@ + n@)],
                },
                _ => seq![at0("invalid assignment target"@)],
            },
        },
    }
}

/// The errors checking call arguments against parameter types reports.
pub open spec fn args_errs(f: Frames, args: Seq<AstExpr>, params: Seq<IrType>) -> Seq<Msg>
    decreases args,
{
    if args.len() == 0 || params.len() == 0 {
        seq![]
    } else {
        expr_errs(f, args[0])
            + msg_if(expr_type(f, args[0]) matches Some(t) && t != params[0], at0("argument type mismatch"@))
            + args_errs(f, args.drop_first(), params.drop_first())
    }
}

/// The errors of a condition: its own, then one if it is not a `bool`.
pub open spec fn cond_errs(f: Frames, c: AstExpr, msg: Seq<char>) -> Seq<Msg> {
    expr_errs(f, c) + msg_if(expr_type(f, c) != Some(IrType::Bool), at0(msg))
}

/// The scopes after checking a statement, and the errors it reports.
pub open spec fn stmt_check(f: Frames, s: AstStmt, ret: IrType) -> (Frames, Seq<Msg>)
    decreases s,
{
    match s {
        AstStmt::Return(e) => match e {
            Some(x) => (f, expr_errs(f, x) + match expr_type(f, x) {
                Some(t) => msg_if(t != ret, at0("expected return type "@ + ir_type_debug_text(ret) + ", got "@
                    + ir_type_debug_text(t))),
                None => seq![],
            }),
            None => (f, msg_if(ret != IrType::Void, at0("expected return value"@))),
        },
        AstStmt::VarDecl(d) => {
            let dt = spec_ast_type_to_ir(d.type_);
            let errs: Seq<Msg> = match d.init {
                Some(x) => expr_errs(f, x) + match expr_type(f, x) {
                    Some(it) => msg_if(it != dt, at0("type mismatch in var decl: "@ + ir_type_debug_text(dt) + " vs "@
                        + ir_type_debug_text(it))),
                    None => seq![],
                },
                None => seq![],
            };
            (bind_var(f, d.name@, dt), errs)
        },
        AstStmt::If(i) => {
            let c_errs = cond_errs(f, i.cond, "if condition must be bool"@);
            let (f1, t_errs) = stmts_check(f, i.then_block.stmts@, ret);
            match i.else_branch {
                Some(b) => {
                    let (f2, e_errs) = stmt_check(f1, *b, ret);
                    (f2, c_errs + t_errs + e_errs)
                },
                None => (f1, c_errs + t_errs),
            }
        },
        AstStmt::While(w) => {
            let c_errs = cond_errs(f, w.cond, "while condition must be bool"@);
            let (f1, b_errs) = stmts_check(f, w.body.stmts@, ret);
            (f1, c_errs + b_errs)
        },
        AstStmt::Block(b) => {
            let (f1, errs) = stmts_check(f.push(Map::empty()), b.stmts@, ret);
            (pop_frame(f1), errs)
        },
        AstStmt::Expr(x) => (f, expr_errs(f, x)),
    }
}

/// Checks statements in order, threading the scopes through.
pub open spec fn stmts_check(f: Frames, ss: Seq<AstStmt>, ret: IrType) -> (Frames, Seq<Msg>)
    decreases ss,
{
    if ss.len() == 0 {
        (f, seq![])
    } else {
        let (f1, e1) = stmt_check(f, ss[0], ret);
        let (f2, e2) = stmts_check(f1, ss.drop_first(), ret);
        (f2, e1 + e2)
    }
}

/// Checks the types of a program, reporting to `diag`.
pub struct TypeChecker {
    pub syms: SymbolTable,
    pub diag: Diagnostics,
}


/// Binds each parameter as a variable, in order.
pub open spec fn bind_params(f: Frames, ps: Seq<crate::basic::ast::AstParam>) -> Frames
    decreases ps.len(),
{
    if ps.len() == 0 {
        f
    } else {
        bind_params(bind_var(f, ps[0].name@, spec_ast_type_to_ir(ps[0].type_)), ps.drop_first())
    }
}

/// Checking a function: a new scope with the parameters, then the body.
pub open spec fn func_check(f: Frames, d: AstFuncDecl) -> (Frames, Seq<Msg>) {
    let f1 = bind_params(f.push(Map::empty()), d.params@);
    let (f2, errs) = stmts_check(f1, d.body.stmts@, spec_ast_type_to_ir(d.return_type));
    (pop_frame(f2), errs)
}

/// The symbol a function declaration is registered under.
pub open spec fn func_symbol(d: AstFuncDecl) -> SymbolView {
    let rt = spec_ast_type_to_ir(d.return_type);
    SymbolView {
        type_: rt,
        kind: SymbolKindView::Func(d.params@.map_values(|p: crate::basic::ast::AstParam| spec_ast_type_to_ir(p.type_)), rt),
    }
}

/// Registers every function of a program in the innermost scope, in order.
pub open spec fn register_funcs(f: Frames, ds: Seq<AstDecl>) -> Frames
    decreases ds.len(),
{
    if ds.len() == 0 {
        f
    } else {
        let f1 = match ds[0] {
            AstDecl::Func(d) => f.update(f.len() - 1, f.last().insert(d.name@, func_symbol(d))),
            _ => f,
        };
        register_funcs(f1, ds.drop_first())
    }
}

/// Checks every function of a program in order.
pub open spec fn funcs_check(f: Frames, ds: Seq<AstDecl>) -> (Frames, Seq<Msg>)
    decreases ds.len(),
{
    if ds.len() == 0 {
        (f, seq![])
    } else {
        let (f1, e1) = match ds[0] {
            AstDecl::Func(d) => func_check(f, d),
            _ => (f, seq![]),
        };
        let (f2, e2) = funcs_check(f1, ds.drop_first());
        (f2, e1 + e2)
    }
}

/// Checking a whole program: register the functions, then check them.
pub open spec fn program_check(f: Frames, ds: Seq<AstDecl>) -> (Frames, Seq<Msg>) {
    funcs_check(register_funcs(f, ds), ds)
}

/// The `Debug` text of an IR type.
pub open spec fn ir_type_debug_text(t: IrType) -> Seq<char> {
    match t {
        IrType::I32 => "I32"@,
        IrType::I64 => "I64"@,
        IrType::U32 => "U32"@,
        IrType::U64 => "U64"@,
        IrType::I8 => "I8"@,
        IrType::U8 => "U8"@,
        IrType::Bool => "Bool"@,
        IrType::Void => "Void"@,
        IrType::Ptr(n) => "Ptr("@ + decimal(n as nat) + ")"@,
    }
}

/// `format!("{:?}", t)` for an IR type.
pub fn ir_type_debug(t: IrType) -> (r: String)
    ensures
        r@ == ir_type_debug_text(t),
{
    match t {
        IrType::I32 => owned("I32"),
        IrType::I64 => owned("I64"),
        IrType::U32 => owned("U32"),
        IrType::U64 => owned("U64"),
        IrType::I8 => owned("I8"),
        IrType::U8 => owned("U8"),
        IrType::Bool => owned("Bool"),
        IrType::Void => owned("Void"),
        IrType::Ptr(n) => {
            let mut s = owned("Ptr(");
            push_decimal(&mut s, n as u64);
            cat(s, ")")
        },
    }
}

fn copy_types(v: &Vec<IrType>) -> (r: Vec<IrType>)
    ensures
        r@ == v@,
{
    let mut r: Vec<IrType> = Vec::new();
    let mut i: usize = 0;
    while i < v.len()
        invariant
            i <= v@.len(),
            r@ == v@.take(i as int),
        decreases v@.len() - i,
    {
        r.push(v[i]);
        i = i + 1;
        assert(r@ == v@.take(i as int));
    }
    assert(v@.take(v@.len() as int) == v@);
    r
}

impl TypeChecker {
    /// A checker with one (global) scope and no messages.
    pub fn new() -> (r: Self)
        ensures
            r.syms@ == seq![Map::<Seq<char>, SymbolView>::empty()],
            r.diag.diagnostics@ == Seq::<Diagnostic>::empty(),
    {
        TypeChecker { syms: SymbolTable::new(), diag: Diagnostics::new() }
    }

    fn report(&mut self, msg: String)
        ensures
            final(self).syms@ == old(self).syms@,
            reported(old(self).diag.diagnostics@, final(self).diag.diagnostics@, seq![at0(msg@)]),
    {
        let ghost m = msg@;
        self.diag.error(Span::new(0, 0), msg);
        proof {
            lemma_push_reported(
                old(self).diag.diagnostics@,
                Diagnostic { span: Span { start: 0, end: 0 }, message: self.diag.diagnostics@.last().message, severity: Severity::Error },
            );
        }
    }

    /// Registers every function, then checks each function's body.
    pub fn check_program(&mut self, prog: &AstProgram)
        requires
            old(self).syms@.len() > 0,
        ensures
            final(self).syms@ == program_check(old(self).syms@, prog.decls@).0,
            reported(
                old(self).diag.diagnostics@,
                final(self).diag.diagnostics@,
                program_check(old(self).syms@, prog.decls@).1,
            ),
    {
        let ghost f0 = self.syms@;
        let ghost ds = prog.decls@;
        assert(ds.skip(0) == ds);
        let mut i: usize = 0;
        while i < prog.decls.len()
            invariant
                i <= ds.len(),
                ds == prog.decls@,
                self.syms@.len() == f0.len(),
                f0.len() > 0,
                register_funcs(f0, ds) == register_funcs(self.syms@, ds.skip(i as int)),
                self.diag.diagnostics@ == old(self).diag.diagnostics@,
            decreases ds.len() - i,
        {
            assert(ds.skip(i as int).drop_first() == ds.skip(i + 1));
            assert(ds.skip(i as int)[0] == ds[i as int]);
            if let AstDecl::Func(func) = &prog.decls[i] {
                let mut param_types: Vec<IrType> = Vec::new();
                let mut j: usize = 0;
                while j < func.params.len()
                    invariant
                        j <= func.params@.len(),
                        param_types@ == func.params@.take(j as int).map_values(
                            |p: crate::basic::ast::AstParam| spec_ast_type_to_ir(p.type_),
                        ),
                    decreases func.params@.len() - j,
                {
                    param_types.push(ast_type_to_ir(&func.params[j].type_));
                    j = j + 1;
                    assert(param_types@ == func.params@.take(j as int).map_values(
                        |p: crate::basic::ast::AstParam| spec_ast_type_to_ir(p.type_),
                    ));
                }
                assert(func.params@.take(func.params@.len() as int) == func.params@);
                let ret_type = ast_type_to_ir(&func.return_type);
                self.syms.insert_func(func.name.as_str(), param_types, ret_type);
            }
            i = i + 1;
        }
        assert(ds.skip(ds.len() as int) == Seq::<AstDecl>::empty());
        let ghost f1 = self.syms@;
        let ghost goal = funcs_check(f1, ds);
        let ghost mut acc: Seq<Msg> = seq![];
        proof {
            lemma_reported_none(self.diag.diagnostics@);
            assert(goal.1 =~= acc + goal.1);
        }
        let mut i: usize = 0;
        while i < prog.decls.len()
            invariant
                i <= ds.len(),
                ds == prog.decls@,
                self.syms@.len() == f0.len(),
                f0.len() > 0,
                goal.0 == funcs_check(self.syms@, ds.skip(i as int)).0,
                goal.1 == acc + funcs_check(self.syms@, ds.skip(i as int)).1,
                reported(old(self).diag.diagnostics@, self.diag.diagnostics@, acc),
            decreases ds.len() - i,
        {
            assert(ds.skip(i as int).drop_first() == ds.skip(i + 1));
            assert(ds.skip(i as int)[0] == ds[i as int]);
            if let AstDecl::Func(func) = &prog.decls[i] {
                let ghost d_before = self.diag.diagnostics@;
                let ghost e1 = func_check(self.syms@, *func).1;
                let ghost rest = funcs_check(func_check(self.syms@, *func).0, ds.skip(i + 1)).1;
                self.check_func(func);
                proof {
                    lemma_reported_chain(old(self).diag.diagnostics@, d_before, self.diag.diagnostics@, acc, e1);
                    assert(acc + (e1 + rest) =~= (acc + e1) + rest);
                    acc = acc + e1;
                }
            } else {
                proof {
                    let rest = funcs_check(self.syms@, ds.skip(i + 1)).1;
                    assert(acc + (Seq::<Msg>::empty() + rest) =~= acc + rest);
                }
            }
            i = i + 1;
        }
        assert(ds.skip(ds.len() as int) == Seq::<AstDecl>::empty());
        proof { assert(acc + Seq::<Msg>::empty() =~= acc); }
    }

    /// Checks a function body in a new scope holding the parameters.
    fn check_func(&mut self, func: &AstFuncDecl)
        requires
            old(self).syms@.len() > 0,
        ensures
            final(self).syms@ == func_check(old(self).syms@, *func).0,
            final(self).syms@.len() == old(self).syms@.len(),
            reported(old(self).diag.diagnostics@, final(self).diag.diagnostics@, func_check(old(self).syms@, *func).1),
    {
        let ghost f0 = self.syms@;
        self.syms.enter_scope();
        let ret_type = ast_type_to_ir(&func.return_type);
        let ghost ps = func.params@;
        assert(ps.skip(0) == ps);
        let mut j: usize = 0;
        while j < func.params.len()
            invariant
                j <= ps.len(),
                ps == func.params@,
                self.syms@.len() == f0.len() + 1,
                bind_params(f0.push(Map::empty()), ps) == bind_params(self.syms@, ps.skip(j as int)),
                self.diag.diagnostics@ == old(self).diag.diagnostics@,
            decreases ps.len() - j,
        {
            assert(ps.skip(j as int).drop_first() == ps.skip(j + 1));
            assert(ps.skip(j as int)[0] == ps[j as int]);
            let pt = ast_type_to_ir(&func.params[j].type_);
            self.syms.insert_var(func.params[j].name.as_str(), pt);
            j = j + 1;
        }
        assert(ps.skip(ps.len() as int) == Seq::<crate::basic::ast::AstParam>::empty());
        self.check_block(&func.body, &ret_type);
        self.syms.exit_scope();
    }

    /// Checks statements in order in the current scope.
    fn check_block(&mut self, block: &AstBlock, ret: &IrType)
        requires
            old(self).syms@.len() > 0,
        ensures
            final(self).syms@ == stmts_check(old(self).syms@, block.stmts@, *ret).0,
            final(self).syms@.len() == old(self).syms@.len(),
            reported(old(self).diag.diagnostics@, final(self).diag.diagnostics@, stmts_check(old(self).syms@, block.stmts@, *ret).1),
        decreases block, 1nat,
    {
        let ghost ss = block.stmts@;
        let ghost goal = stmts_check(self.syms@, ss, *ret);
        let ghost mut acc: Seq<Msg> = seq![];
        assert(ss.skip(0) == ss);
        proof {
            lemma_reported_none(self.diag.diagnostics@);
            assert(goal.1 =~= acc + goal.1);
        }
        let mut i: usize = 0;
        while i < block.stmts.len()
            invariant
                i <= ss.len(),
                ss == block.stmts@,
                self.syms@.len() == old(self).syms@.len(),
                old(self).syms@.len() > 0,
                goal.0 == stmts_check(self.syms@, ss.skip(i as int), *ret).0,
                goal.1 == acc + stmts_check(self.syms@, ss.skip(i as int), *ret).1,
                reported(old(self).diag.diagnostics@, self.diag.diagnostics@, acc),
            decreases ss.len() - i,
        {
            assert(ss.skip(i as int).drop_first() == ss.skip(i + 1));
            assert(ss.skip(i as int)[0] == ss[i as int]);
            let ghost d_before = self.diag.diagnostics@;
            let ghost e1 = stmt_check(self.syms@, ss[i as int], *ret).1;
            let ghost rest = stmts_check(stmt_check(self.syms@, ss[i as int], *ret).0, ss.skip(i + 1), *ret).1;
            self.check_stmt(&block.stmts[i], ret);
            proof {
                lemma_reported_chain(old(self).diag.diagnostics@, d_before, self.diag.diagnostics@, acc, e1);
                assert(acc + (e1 + rest) =~= (acc + e1) + rest);
                acc = acc + e1;
            }
            i = i + 1;
        }
        assert(ss.skip(ss.len() as int) == Seq::<AstStmt>::empty());
        proof { assert(acc + Seq::<Msg>::empty() =~= acc); }
    }

    /// Reports `msg` unless the condition's type is `bool`.
    fn expect_bool(&mut self, t: Option<IrType>, msg: &str)
        ensures
            final(self).syms@ == old(self).syms@,
            reported(old(self).diag.diagnostics@, final(self).diag.diagnostics@, msg_if(t != Some(IrType::Bool), at0(msg@))),
    {
        let is_bool = match t {
            Some(IrType::Bool) => true,
            _ => false,
        };
        if !is_bool {
            self.report(owned(msg));
        } else {
            proof { lemma_reported_none(self.diag.diagnostics@); }
        }
    }

    #[verifier::rlimit(30)]
    fn check_stmt(&mut self, stmt: &AstStmt, ret: &IrType)
        requires
            old(self).syms@.len() > 0,
        ensures
            final(self).syms@ == stmt_check(old(self).syms@, *stmt, *ret).0,
            final(self).syms@.len() == old(self).syms@.len(),
            reported(old(self).diag.diagnostics@, final(self).diag.diagnostics@, stmt_check(old(self).syms@, *stmt, *ret).1),
        decreases stmt, 0nat,
    {
        let ghost f = self.syms@;
        let ghost d0 = self.diag.diagnostics@;
        match stmt {
            AstStmt::Return(expr_opt) => {
                if let Some(expr) = expr_opt {
                    let t = self.check_expr(expr);
                    let ghost d1 = self.diag.diagnostics@;
                    let ghost m1 = expr_errs(f, *expr);
                    if let Some(t) = t {
                        if t != *ret {
                            let msg = cat(cat(cat(owned("expected return type "), ir_type_debug(*ret).as_str()), ", got "),
                                ir_type_debug(t).as_str());
                            let ghost mm = msg@;
                            self.report(msg);
                            proof { lemma_reported_chain(d0, d1, self.diag.diagnostics@, m1, seq![at0(mm)]); }
                            return;
                        }
                    }
                    proof { assert(m1 + Seq::<Msg>::empty() =~= m1); }
                } else if *ret != IrType::Void {
                    self.report(owned("expected return value"));
                } else {
                    proof { lemma_reported_none(d0); }
                }
            },
            AstStmt::VarDecl(decl) => {
                let dt = ast_type_to_ir(&decl.type_);
                if let Some(init) = &decl.init {
                    let it = self.check_expr(init);
                    let ghost d1 = self.diag.diagnostics@;
                    let ghost m1 = expr_errs(f, *init);
                    let mut mismatch = false;
                    if let Some(it) = it {
                        if it != dt {
                            let msg = cat(cat(cat(owned("type mismatch in var decl: "), ir_type_debug(dt).as_str()), " vs "),
                                ir_type_debug(it).as_str());
                            let ghost mm = msg@;
                            self.report(msg);
                            proof { lemma_reported_chain(d0, d1, self.diag.diagnostics@, m1, seq![at0(mm)]); }
                            mismatch = true;
                        }
                    }
                    if !mismatch {
                        proof { assert(m1 + Seq::<Msg>::empty() =~= m1); }
                    }
                } else {
                    proof { lemma_reported_none(d0); }
                }
                self.syms.insert_var(decl.name.as_str(), dt);
            },
            AstStmt::If(ast_if) => {
                let ct = self.check_expr(&ast_if.cond);
                let ghost d1 = self.diag.diagnostics@;
                self.expect_bool(ct, "if condition must be bool");
                let ghost d2 = self.diag.diagnostics@;
                let ghost c_errs = cond_errs(f, ast_if.cond, "if condition must be bool"@);
                proof {
                    lemma_reported_chain(d0, d1, d2, expr_errs(f, ast_if.cond),
                        msg_if(ct != Some(IrType::Bool), at0("if condition must be bool"@)));
                }
                let ghost t_errs = stmts_check(f, ast_if.then_block.stmts@, *ret).1;
                self.check_block(&ast_if.then_block, ret);
                proof { lemma_reported_chain(d0, d2, self.diag.diagnostics@, c_errs, t_errs); }
                if let Some(else_branch) = &ast_if.else_branch {
                    let ghost d3 = self.diag.diagnostics@;
                    let ghost e_errs = stmt_check(self.syms@, **else_branch, *ret).1;
                    self.check_stmt(else_branch, ret);
                    proof { lemma_reported_chain(d0, d3, self.diag.diagnostics@, c_errs + t_errs, e_errs); }
                }
            },
            AstStmt::While(ast_while) => {
                let ct = self.check_expr(&ast_while.cond);
                let ghost d1 = self.diag.diagnostics@;
                self.expect_bool(ct, "while condition must be bool");
                let ghost d2 = self.diag.diagnostics@;
                let ghost c_errs = cond_errs(f, ast_while.cond, "while condition must be bool"@);
                proof {
                    lemma_reported_chain(d0, d1, d2, expr_errs(f, ast_while.cond),
                        msg_if(ct != Some(IrType::Bool), at0("while condition must be bool"@)));
                }
                let ghost b_errs = stmts_check(f, ast_while.body.stmts@, *ret).1;
                self.check_block(&ast_while.body, ret);
                proof { lemma_reported_chain(d0, d2, self.diag.diagnostics@, c_errs, b_errs); }
            },
            AstStmt::Block(block) => {
                self.syms.enter_scope();
                self.check_block(block, ret);
                self.syms.exit_scope();
            },
            AstStmt::Expr(expr) => {
                self.check_expr(expr);
            },
        }
    }

    #[verifier::rlimit(30)]
    fn check_expr(&mut self, expr: &AstExpr) -> (r: Option<IrType>)
        ensures
            r == expr_type(old(self).syms@, *expr),
            final(self).syms@ == old(self).syms@,
            reported(old(self).diag.diagnostics@, final(self).diag.diagnostics@, expr_errs(old(self).syms@, *expr)),
        decreases expr,
    {
        let ghost f = self.syms@;
        let ghost d0 = self.diag.diagnostics@;
        match expr {
            AstExpr::Int(_) => {
                proof { lemma_reported_none(d0); }
                Some(IrType::I32)
            },
            AstExpr::Bool(_) => {
                proof { lemma_reported_none(d0); }
                Some(IrType::Bool)
            },
            AstExpr::Ident(name) => {
                match self.syms.lookup(name.as_str()) {
                    Some(s) => {
                        proof { lemma_reported_none(d0); }
                        Some(s.type_)
                    },
                    None => {
                        let msg = cat(owned("undefined variable: "), name.as_str());
                        self.report(msg);
                        None
                    },
                }
            },
            AstExpr::Binary(op, lhs, rhs) => {
                let lt = match self.check_expr(lhs) {
                    Some(t) => t,
                    None => { return None; },
                };
                let ghost d1 = self.diag.diagnostics@;
                let rt = match self.check_expr(rhs) {
                    Some(t) => t,
                    None => {
                        proof { lemma_reported_chain(d0, d1, self.diag.diagnostics@, expr_errs(f, **lhs), expr_errs(f, **rhs)); }
                        return None;
                    },
                };
                let ghost d2 = self.diag.diagnostics@;
                let ghost m2 = expr_errs(f, **lhs) + expr_errs(f, **rhs);
                proof {
                    lemma_reported_chain(d0, d1, d2, expr_errs(f, **lhs), expr_errs(f, **rhs));
                    lemma_reported_none(d2);
                }
                if lt != rt {
                    self.report(owned("type mismatch in binary expression"));
                }
                let ghost d3 = self.diag.diagnostics@;
                let ghost w1 = msg_if(lt != rt, at0("type mismatch in binary expression"@));
                proof { lemma_reported_chain(d0, d2, d3, m2, w1); }
                proof { lemma_reported_none(d3); }
                match op {
                    BinaryOp::And | BinaryOp::Or => {
                        if lt != IrType::Bool {
                            self.report(owned("logical ops require bool"));
                        }
                        proof {
                            lemma_reported_chain(d0, d3, self.diag.diagnostics@, m2 + w1,
                                msg_if(lt != IrType::Bool, at0("logical ops require bool"@)));
                        }
                        Some(IrType::Bool)
                    },
                    BinaryOp::Eq | BinaryOp::Neq | BinaryOp::Lt | BinaryOp::Gt | BinaryOp::Le | BinaryOp::Ge => {
                        proof { lemma_reported_chain(d0, d3, d3, m2 + w1, seq![]); }
                        Some(IrType::Bool)
                    },
                    _ => {
                        proof { lemma_reported_chain(d0, d3, d3, m2 + w1, seq![]); }
                        Some(lt)
                    },
                }
            },
            AstExpr::Unary(op, operand) => {
                let t = match self.check_expr(operand) {
                    Some(t) => t,
                    None => {
                        proof { assert(expr_errs(f, **operand) + Seq::<Msg>::empty() =~= expr_errs(f, **operand)); }
                        return None;
                    },
                };
                let ghost d1 = self.diag.diagnostics@;
                let ghost m1 = expr_errs(f, **operand);
                match op {
                    UnaryOp::Neg => {
                        if t == IrType::Bool {
                            self.report(owned("cannot negate bool"));
                        } else {
                            proof { lemma_reported_none(d1); }
                        }
                        proof {
                            lemma_reported_chain(d0, d1, self.diag.diagnostics@, m1,
                                msg_if(t == IrType::Bool, at0("cannot negate bool"@)));
                        }
                        Some(t)
                    },
                    UnaryOp::Not => {
                        if t != IrType::Bool {
                            self.report(owned("not requires bool"));
                        } else {
                            proof { lemma_reported_none(d1); }
                        }
                        proof {
                            lemma_reported_chain(d0, d1, self.diag.diagnostics@, m1,
                                msg_if(t != IrType::Bool, at0("not requires bool"@)));
                        }
                        Some(IrType::Bool)
                    },
                }
            },
            AstExpr::Call(name, args) => {
                let (param_types, ret_type) = match self.syms.lookup(name.as_str()) {
                    Some(s) => match &s.kind {
                        SymbolKind::Func(p, r) => (copy_types(p), *r),
                        _ => {
                            let msg = cat(owned("not a function: "), name.as_str());
                            self.report(msg);
                            return None;
                        },
                    },
                    None => {
                        let msg = cat(owned("undefined function: "), name.as_str());
                        self.report(msg);
                        return None;
                    },
                };
                if args.len() != param_types.len() {
                    self.report(owned("wrong number of arguments"));
                    return None;
                }
                let ghost aa = args@;
                let ghost pp = param_types@;
                let ghost mut acc: Seq<Msg> = seq![];
                let mut i: usize = 0;
                assert(aa.skip(0) == aa);
                assert(pp.skip(0) == pp);
                proof {
                    lemma_reported_none(d0);
                    assert(args_errs(f, aa, pp) =~= acc + args_errs(f, aa, pp));
                }
                while i < args.len()
                    invariant
                        i <= aa.len(),
                        aa == args@,
                        *expr is Call,
                        expr->Call_1 == *args,
                        pp == param_types@,
                        aa.len() == pp.len(),
                        self.syms@ == f,
                        args_errs(f, aa, pp) == acc + args_errs(f, aa.skip(i as int), pp.skip(i as int)),
                        reported(d0, self.diag.diagnostics@, acc),
                    decreases aa.len() - i,
                {
                    assert(aa.skip(i as int).drop_first() == aa.skip(i + 1));
                    assert(pp.skip(i as int).drop_first() == pp.skip(i + 1));
                    assert(aa.skip(i as int)[0] == aa[i as int]);
                    assert(pp.skip(i as int)[0] == pp[i as int]);
                    let ghost d1 = self.diag.diagnostics@;
                    proof {
                        let ghost av: Vec<AstExpr> = *args;
                        assert(av == expr->Call_1);
                        assert(decreases_to!(*expr => expr->Call_1));
                        assert(decreases_to!(av => av@));
                        assert(decreases_to!(av@ => av@[i as int]));
                    }
                    let at = self.check_expr(&args[i]);
                    let ghost d2 = self.diag.diagnostics@;
                    let ghost ea = expr_errs(f, aa[i as int]);
                    let ghost w = msg_if(expr_type(f, aa[i as int]) matches Some(t) && t != pp[i as int], at0("argument type mismatch"@));
                    let ghost rest = args_errs(f, aa.skip(i + 1), pp.skip(i + 1));
                    proof {
                        lemma_reported_chain(d0, d1, d2, acc, ea);
                        lemma_reported_none(d2);
                    }
                    if let Some(at) = at {
                        if at != param_types[i] {
                            self.report(owned("argument type mismatch"));
                        }
                    }
                    proof {
                        lemma_reported_chain(d0, d2, self.diag.diagnostics@, acc + ea, w);
                        assert(acc + (ea + w + rest) =~= (acc + ea + w) + rest);
                        acc = acc + ea + w;
                    }
                    i = i + 1;
                }
                assert(aa.skip(aa.len() as int) == Seq::<AstExpr>::empty());
                proof { assert(acc + Seq::<Msg>::empty() =~= acc); }
                Some(ret_type)
            },
            AstExpr::Cast(type_, expr) => {
                self.check_expr(expr);
                Some(ast_type_to_ir(type_))
            },
            AstExpr::Assign(lhs, rhs) => {
                let rt = match self.check_expr(rhs) {
                    Some(t) => t,
                    None => {
                        proof { assert(expr_errs(f, **rhs) + Seq::<Msg>::empty() =~= expr_errs(f, **rhs)); }
                        return None;
                    },
                };
                let ghost d1 = self.diag.diagnostics@;
                let ghost m1 = expr_errs(f, **rhs);
                if let AstExpr::Ident(name) = &**lhs {
                    match self.syms.lookup(name.as_str()) {
                        Some(s) => {
                            let st = s.type_;
                            if st != rt {
                                self.report(owned("type mismatch in assignment"));
                            } else {
                                proof { lemma_reported_none(d1); }
                            }
                            proof {
                                lemma_reported_chain(d0, d1, self.diag.diagnostics@, m1,
                                    msg_if(st != rt, at0("type mismatch in assignment"@)));
                            }
                            Some(st)
                        },
                        None => {
                            let msg = cat(owned("undefined variable: "), name.as_str());
                            let ghost mm = msg@;
                            self.report(msg);
                            proof { lemma_reported_chain(d0, d1, self.diag.diagnostics@, m1, seq![at0(mm)]); }
                            None
                        },
                    }
                } else {
                    self.report(owned("invalid assignment target"));
                    proof { lemma_reported_chain(d0, d1, self.diag.diagnostics@, m1, seq![at0("invalid assignment target"@)]); }
                    None
                }
            },
        }
    }
}

} // verus!
