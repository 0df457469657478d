use vstd::prelude::*;
use crate::ssa::span::Span;
use crate::ssa::diag::{Diagnostics, Diagnostic, Severity, any_error};
use crate::ssa::ast::{AstProgram, AstDecl, AstFuncDecl, AstParam, BinaryOp, UnaryOp, SpExpr, SpStmt, ExprKind, StmtKind, binary_op_text};
use crate::ssa::grammar::{Msg, reported, lemma_reported_chain, lemma_reported_none, lemma_pushed_reported};
use crate::ssa::ir::IrType;
use crate::ssa::symbols::{SymbolTable, SymType, SymView, ast_type_to_ir, spec_ast_type_to_ir, types_copy};
use crate::scope::resolve;
use crate::text::{owned, cat, push_decimal, decimal};

verus! {

/// Scopes of symbols, innermost last.
pub type Frames = Seq<Map<Seq<char>, SymView>>;

/// Whether a type is one of the integer types.
pub open spec fn spec_is_numeric(t: IrType) -> bool {
    t is I32 || t is I64 || t is U32 || t is U64 || t is I8 || t is U8
}

/// Drops the innermost scope, if there is one.
pub open spec fn pop_frame(f: Frames) -> Frames {
    if f.len() > 0 { f.drop_last() } else { f }
}

/// Binds `name` in the innermost scope unless that scope already has it.
pub open spec fn bind_new(f: Frames, name: Seq<char>, s: SymView) -> Frames {
    if f.len() > 0 && !f.last().contains_key(name) {
        f.update(f.len() - 1, f.last().insert(name, s))
    } else {
        f
    }
}

/// The type of a variable `name`, and whether `name` is a variable at all
/// (if not, the checker reports it and goes on with `i32`).
pub open spec fn var_lookup(f: Frames, name: Seq<char>) -> (IrType, bool) {
    match resolve(f, name) {
        Some(SymView::Var(t)) => (t, true),
        _ => (IrType::I32, false),
    }
}

/// The four arithmetic operators.
pub open spec fn is_arith(op: BinaryOp) -> bool {
    op == BinaryOp::Add || op == BinaryOp::Sub || op == BinaryOp::Mul || op == BinaryOp::Div
}

/// The type the checker gives an expression.
pub open spec fn expr_type(f: Frames, e: SpExpr) -> IrType
    decreases e,
{
    match e.0 {
        ExprKind::Int(_) => IrType::I32,
        ExprKind::Bool(_) => IrType::Bool,
        ExprKind::Ident(n) => var_lookup(f, n@).0,
        ExprKind::Binary(op, l, _) => if is_arith(op) { expr_type(f, *l) } else { IrType::Bool },
        ExprKind::Unary(op, x) => if op == UnaryOp::Neg { expr_type(f, *x) } else { IrType::Bool },
        ExprKind::Call(n, args) => match resolve(f, n@) {
            Some(SymView::Func(p, r)) => if args@.len() == p.len() { r } else { IrType::I32 },
            _ => IrType::I32,
        },
        ExprKind::Cast(t, _) => spec_ast_type_to_ir(t),
    }
}

/// The errors reported when a name that should be a variable is not one.
pub open spec fn var_errs(f: Frames, name: Seq<char>, missing: Seq<char>, sp: Span) -> Seq<Msg> {
    match resolve(f, name) {
        Some(SymView::Var(_)) => seq![],
        Some(_) => seq![("'"@ + name + "' is a function, not a variable"@, sp)],
        None => seq![(missing + name + "'"@, sp)],
    }
}

/// The error for a mistyped binary operation, if any.
pub open spec fn binary_errs(op: BinaryOp, lt: IrType, rt: IrType, sp: Span) -> Seq<Msg> {
    if op == BinaryOp::And || op == BinaryOp::Or {
        if lt == IrType::Bool && rt == IrType::Bool {
            seq![]
        } else {
            seq![("logical operators require bool operands"@, sp)]
        }
    } else if spec_is_numeric(lt) && lt == rt {
        seq![]
    } else if is_arith(op) {
        seq![("type mismatch: "@ + ir_type_text(lt) + " "@ + binary_op_text(op) + " "@ + ir_type_text(rt), sp)]
    } else {
        seq![("cannot compare "@ + ir_type_text(lt) + " and "@ + ir_type_text(rt), sp)]
    }
}

/// The error for a mistyped unary operation, if any.
pub open spec fn unary_errs(op: UnaryOp, t: IrType, sp: Span) -> Seq<Msg> {
    if op == UnaryOp::Neg {
        if spec_is_numeric(t) { seq![] } else { seq![("cannot negate "@ + ir_type_text(t), sp)] }
    } else {
        if t == IrType::Bool { seq![] } else { seq![("cannot apply ! to "@ + ir_type_text(t), sp)] }
    }
}

/// The errors checking an expression reports, in order.
pub open spec fn expr_errs(f: Frames, e: SpExpr) -> Seq<Msg>
    decreases e,
{
    let sp = e.1;
    match e.0 {
        ExprKind::Int(_) => seq![],
        ExprKind::Bool(_) => seq![],
        ExprKind::Ident(n) => var_errs(f, n@, "undefined identifier '"@, sp),
        ExprKind::Binary(op, l, r) => expr_errs(f, *l) + expr_errs(f, *r)
            + binary_errs(op, expr_type(f, *l), expr_type(f, *r), sp),
        ExprKind::Unary(op, x) => expr_errs(f, *x) + unary_errs(op, expr_type(f, *x), sp),
        ExprKind::Call(n, args) => match resolve(f, n@) {
            Some(SymView::Func(p, _)) => if args@.len() == p.len() {
                args_errs(f, args@, p, n@, 1)
            } else {
                seq![("function '"@ + n@ + "' takes "@ + decimal(p.len()) + " arguments, found "@
                    + decimal(args@.len()), sp)]
            },
            Some(_) => seq![("'"@ + n@ + "' is a variable, not a function"@, sp)],
            None => seq![("undefined function '"@ + n@ + "'"@, sp)],
        },
        ExprKind::Cast(_, x) => expr_errs(f, *x),
    }
}

/// The errors checking call arguments of function `name` against parameter
/// types reports, the first argument being number `k`.
pub open spec fn args_errs(f: Frames, args: Seq<SpExpr>, params: Seq<IrType>, name: Seq<char>, k: nat) -> Seq<Msg>
    decreases args,
{
    if args.len() == 0 || params.len() == 0 {
        seq![]
    } else {
        let t = expr_type(f, args[0]);
        let here: Seq<Msg> = if t == params[0] {
            seq![]
        } else {
            seq![("argument "@ + decimal(k) + " of '"@ + name + "': expected "@ + ir_type_text(params[0])
                + ", found "@ + ir_type_text(t), args[0].1)]
        };
        expr_errs(f, args[0]) + here + args_errs(f, args.drop_first(), params.drop_first(), name, k + 1)
    }
}

/// The errors for an expression that must have type `want`: those of the
/// expression, then `msg` followed by the type found, if it differs.
pub open spec fn typed_errs(f: Frames, x: SpExpr, want: IrType, msg: Seq<char>) -> Seq<Msg> {
    let t = expr_type(f, x);
    expr_errs(f, x) + if t == want { seq![] } else { seq![(msg + ir_type_text(t), x.1)] }
}

/// The scopes after checking a statement, and the errors it reports.
pub open spec fn stmt_check(f: Frames, s: SpStmt, ret: IrType) -> (Frames, Seq<Msg>)
    decreases s,
{
    match s.0 {
        StmtKind::Return(e) => match e {
            Some(x) => (f, typed_errs(f, x, ret, "expected return type "@ + ir_type_text(ret) + ", found "@)),
            None => (f, if ret == IrType::Void {
                seq![]
            } else {
                seq![("expected return value of type "@ + ir_type_text(ret), s.1)]
            }),
        },
        StmtKind::VarDecl { name, type_, init } => {
            let dt = spec_ast_type_to_ir(type_);
            let errs: Seq<Msg> = match init {
                Some(x) => {
                    let t = expr_type(f, x);
                    expr_errs(f, x) + if t == dt {
                        seq![]
                    } else {
                        seq![("expected type "@ + ir_type_text(dt) + ", found "@ + ir_type_text(t) + " in variable '"@
                            + name@ + "'"@, x.1)]
                    }
                },
                None => seq![],
            };
            (bind_new(f, name@, SymView::Var(dt)), errs)
        },
        StmtKind::If(c, t, e) => {
            let c_errs = typed_errs(f, c, IrType::Bool, "if condition must be bool, found "@);
            let (f1, t_errs) = stmts_check(f.push(Map::empty()), t@, ret);
            let g1 = pop_frame(f1);
            match e {
                Some(eb) => {
                    let (f2, e_errs) = stmts_check(g1.push(Map::empty()), eb@, ret);
                    (pop_frame(f2), c_errs + t_errs + e_errs)
                },
                None => (g1, c_errs + t_errs),
            }
        },
        StmtKind::While(c, b) => {
            let c_errs = typed_errs(f, c, IrType::Bool, "while condition must be bool, found "@);
            let (f1, b_errs) = stmts_check(f.push(Map::empty()), b@, ret);
            (pop_frame(f1), c_errs + b_errs)
        },
        StmtKind::Block(ss) => {
            let (f1, errs) = stmts_check(f.push(Map::empty()), ss@, ret);
            (pop_frame(f1), errs)
        },
        StmtKind::Expr(x) => (f, expr_errs(f, x)),
        StmtKind::Assign(n, x) => {
            let vt = var_lookup(f, n@).0;
            let t = expr_type(f, x);
            (f, var_errs(f, n@, "undefined variable '"@, s.1) + expr_errs(f, x) + if t == vt {
                seq![]
            } else {
                seq![("cannot assign "@ + ir_type_text(t) + " to variable '"@ + n@ + "' of type "@ + ir_type_text(vt), x.1)]
            })
        },
    }
}

/// Checks statements in order, threading the scopes through.
pub open spec fn stmts_check(f: Frames, ss: Seq<SpStmt>, ret: IrType) -> (Frames, Seq<Msg>)
    decreases ss,
{
    if ss.len() == 0 {
        (f, seq![])
    } else {
        let (f1, e1) = stmt_check(f, ss[0], ret);
        let (f2, e2) = stmts_check(f1, ss.drop_first(), ret);
        (f2, e1 + e2)
    }
}

/// Binds each parameter as a variable, in order (a repeated name keeps its
/// first binding).
pub open spec fn bind_params(f: Frames, ps: Seq<AstParam>) -> Frames
    decreases ps.len(),
{
    if ps.len() == 0 {
        f
    } else {
        bind_params(bind_new(f, ps[0].name@, SymView::Var(spec_ast_type_to_ir(ps[0].type_))), ps.drop_first())
    }
}

/// Checking a function body: a new scope with the parameters, then the
/// statements.
pub open spec fn func_check(f: Frames, d: AstFuncDecl) -> (Frames, Seq<Msg>) {
    let f1 = bind_params(f.push(Map::empty()), d.params@);
    let (f2, errs) = stmts_check(f1, d.body@, spec_ast_type_to_ir(d.return_type));
    (pop_frame(f2), errs)
}

/// The symbol a function declaration is registered under.
pub open spec fn func_symbol(d: AstFuncDecl) -> SymView {
    SymView::Func(
        d.params@.map_values(|p: AstParam| spec_ast_type_to_ir(p.type_)),
        spec_ast_type_to_ir(d.return_type),
    )
}

/// Registers every function in the innermost scope, in order; a name
/// registered twice is an error and keeps its first symbol.
pub open spec fn register_funcs(f: Frames, ds: Seq<AstDecl>) -> (Frames, Seq<Msg>)
    decreases ds.len(),
{
    if ds.len() == 0 {
        (f, seq![])
    } else {
        let AstDecl::Func(d) = ds[0];
        let fresh = f.len() > 0 && !f.last().contains_key(d.name@);
        let here: Seq<Msg> = if fresh { seq![] } else { seq![("duplicate function '"@ + d.name@ + "'"@, d.name_span)] };
        let (f2, errs) = register_funcs(bind_new(f, d.name@, func_symbol(d)), ds.drop_first());
        (f2, here + errs)
    }
}

/// Checks every function body in order.
pub open spec fn funcs_check(f: Frames, ds: Seq<AstDecl>) -> (Frames, Seq<Msg>)
    decreases ds.len(),
{
    if ds.len() == 0 {
        (f, seq![])
    } else {
        let AstDecl::Func(d) = ds[0];
        let (f1, e1) = func_check(f, d);
        let (f2, e2) = funcs_check(f1, ds.drop_first());
        (f2, e1 + e2)
    }
}

/// How a type is written in messages.
pub open spec fn ir_type_text(t: IrType) -> Seq<char>
    decreases t,
{
    match t {
        IrType::I32 => "i32"@,
        IrType::I64 => "i64"@,
        IrType::U32 => "u32"@,
        IrType::U64 => "u64"@,
        IrType::I8 => "i8"@,
        IrType::U8 => "u8"@,
        IrType::Bool => "bool"@,
        IrType::Void => "void"@,
        IrType::Ptr(inner) => "ptr<"@ + ir_type_text(*inner) + ">"@,
    }
}

impl IrType {
    /// How the type is written in messages.
    pub fn to_text(&self) -> (r: String)
        ensures
            r@ == ir_type_text(*self),
        decreases self,
    {
        match self {
            IrType::I32 => owned("i32"),
            IrType::I64 => owned("i64"),
            IrType::U32 => owned("u32"),
            IrType::U64 => owned("u64"),
            IrType::I8 => owned("i8"),
            IrType::U8 => owned("u8"),
            IrType::Bool => owned("bool"),
            IrType::Void => owned("void"),
            IrType::Ptr(inner) => cat(cat(owned("ptr<"), inner.to_text().as_str()), ">"),
        }
    }
}

/// Whether `t` is one of the integer types.
pub fn is_numeric(t: &IrType) -> (r: bool)
    ensures
        r == spec_is_numeric(*t),
{
    match t {
        IrType::I32 | IrType::I64 | IrType::U32 | IrType::U64 | IrType::I8 | IrType::U8 => true,
        _ => false,
    }
}

/// Types are compatible when they are the same.
pub fn types_compatible(a: &IrType, b: &IrType) -> (r: bool)
    ensures
        r == (*a == *b),
{
    a.same(b)
}

/// Operands of arithmetic and comparison: the same integer type.
pub fn types_compatible_arith(a: &IrType, b: &IrType) -> (r: bool)
    ensures
        r == (spec_is_numeric(*a) && *a == *b),
{
    is_numeric(a) && a.same(b)
}

/// Checks the types of a program.
pub struct TypeChecker {
    syms: SymbolTable,
    diags: Diagnostics,
}

impl TypeChecker {
    /// The scopes of symbols.
    pub closed spec fn scopes(&self) -> Frames {
        self.syms@
    }

    /// The messages reported so far.
    pub closed spec fn msgs(&self) -> Seq<Diagnostic> {
        self.diags.diags@
    }

    /// A checker with one (global) scope that reports to `diags`.
    pub fn new(diags: Diagnostics) -> (r: Self)
        ensures
            r.scopes() == seq![Map::<Seq<char>, SymView>::empty()],
            r.msgs() == diags.diags@,
    {
        TypeChecker { syms: SymbolTable::new(), diags }
    }

    /// Hands back the messages.
    pub fn into_diagnostics(self) -> (r: Diagnostics)
        ensures
            r.diags@ == self.msgs(),
    {
        self.diags
    }

    fn report(&mut self, msg: String, span: Span)
        ensures
            final(self).scopes() == old(self).scopes(),
            reported(old(self).msgs(), final(self).msgs(), seq![(msg@, span)]),
    {
        let ghost m = msg@;
        self.diags.error(msg, Some(span));
        proof { lemma_pushed_reported(old(self).msgs(), self.msgs(), m, span); }
    }

    /// Reports the error for a name that should be a variable and is not
    /// one, and gives the variable's type (`i32` when there is none).
    fn var_type(&mut self, name: &String, missing: &str, span: Span) -> (r: IrType)
        ensures
            r == var_lookup(old(self).scopes(), name@).0,
            final(self).scopes() == old(self).scopes(),
            reported(old(self).msgs(), final(self).msgs(), var_errs(old(self).scopes(), name@, missing@, span)),
    {
        let look = match self.syms.lookup(name.as_str()) {
            Some(SymType::Var(t)) => (Some(t.duplicate()), true),
            Some(_) => (None, true),
            None => (None, false),
        };
        match look {
            (Some(t), _) => {
                proof { lemma_reported_none(self.msgs()); }
                t
            },
            (None, true) => {
                let msg = cat(cat(owned("'"), name.as_str()), "' is a function, not a variable");
                self.report(msg, span);
                IrType::I32
            },
            (None, false) => {
                let msg = cat(cat(owned(missing), name.as_str()), "'");
                self.report(msg, span);
                IrType::I32
            },
        }
    }

    fn check_expr(&mut self, expr: &SpExpr) -> (r: IrType)
        ensures
            r == expr_type(old(self).scopes(), *expr),
            final(self).scopes() == old(self).scopes(),
            reported(old(self).msgs(), final(self).msgs(), expr_errs(old(self).scopes(), *expr)),
        decreases expr,
    {
        let ghost f = self.syms@;
        let ghost d0 = self.diags.diags@;
        let span = expr.1;
        match &expr.0 {
            ExprKind::Int(_) => {
                proof { lemma_reported_none(d0); }
                IrType::I32
            },
            ExprKind::Bool(_) => {
                proof { lemma_reported_none(d0); }
                IrType::Bool
            },
            ExprKind::Ident(name) => {
                self.var_type(name, "undefined identifier '", span)
            },
            ExprKind::Binary(op, lhs, rhs) => {
                let lt = self.check_expr(lhs);
                let ghost d1 = self.diags.diags@;
                let rt = self.check_expr(rhs);
                let ghost d2 = self.diags.diags@;
                let ghost m2 = expr_errs(f, **lhs) + expr_errs(f, **rhs);
                proof {
                    lemma_reported_chain(d0, d1, d2, expr_errs(f, **lhs), expr_errs(f, **rhs));
                    lemma_reported_none(d2);
                }
                match op {
                    BinaryOp::Add | BinaryOp::Sub | BinaryOp::Mul | BinaryOp::Div => {
                        if !types_compatible_arith(&lt, &rt) {
                            let msg = cat(cat(cat(cat(cat(owned("type mismatch: "), lt.to_text().as_str()), " "),
                                op.to_text().as_str()), " "), rt.to_text().as_str());
                            let ghost mm = msg@;
                            self.report(msg, span);
                            proof { lemma_reported_chain(d0, d2, self.diags.diags@, m2, seq![(mm, span)]); }
                        } else {
                            proof { lemma_reported_chain(d0, d2, d2, m2, seq![]); }
                        }
                        lt
                    },
                    BinaryOp::Eq | BinaryOp::Neq | BinaryOp::Lt | BinaryOp::Gt | BinaryOp::Le | BinaryOp::Ge => {
                        if !types_compatible_arith(&lt, &rt) {
                            let msg = cat(cat(cat(owned("cannot compare "), lt.to_text().as_str()), " and "),
                                rt.to_text().as_str());
                            let ghost mm = msg@;
                            self.report(msg, span);
                            proof { lemma_reported_chain(d0, d2, self.diags.diags@, m2, seq![(mm, span)]); }
                        } else {
                            proof { lemma_reported_chain(d0, d2, d2, m2, seq![]); }
                        }
                        IrType::Bool
                    },
                    BinaryOp::And | BinaryOp::Or => {
                        let both_bool = match (&lt, &rt) {
                            (IrType::Bool, IrType::Bool) => true,
                            _ => false,
                        };
                        if !both_bool {
                            let msg = owned("logical operators require bool operands");
                            let ghost mm = msg@;
                            self.report(msg, span);
                            proof { lemma_reported_chain(d0, d2, self.diags.diags@, m2, seq![(mm, span)]); }
                        } else {
                            proof { lemma_reported_chain(d0, d2, d2, m2, seq![]); }
                        }
                        IrType::Bool
                    },
                }
            },
            ExprKind::Unary(op, inner) => {
                let t = self.check_expr(inner);
                let ghost d1 = self.diags.diags@;
                let ghost m1 = expr_errs(f, **inner);
                proof { lemma_reported_none(d1); }
                match op {
                    UnaryOp::Neg => {
                        if !is_numeric(&t) {
                            let msg = cat(owned("cannot negate "), t.to_text().as_str());
                            let ghost mm = msg@;
                            self.report(msg, span);
                            proof { lemma_reported_chain(d0, d1, self.diags.diags@, m1, seq![(mm, span)]); }
                        } else {
                            proof { lemma_reported_chain(d0, d1, d1, m1, seq![]); }
                        }
                        t
                    },
                    UnaryOp::Not => {
                        let is_bool = match &t {
                            IrType::Bool => true,
                            _ => false,
                        };
                        if !is_bool {
                            let msg = cat(owned("cannot apply ! to "), t.to_text().as_str());
                            let ghost mm = msg@;
                            self.report(msg, span);
                            proof { lemma_reported_chain(d0, d1, self.diags.diags@, m1, seq![(mm, span)]); }
                        } else {
                            proof { lemma_reported_chain(d0, d1, d1, m1, seq![]); }
                        }
                        IrType::Bool
                    },
                }
            },
            ExprKind::Call(name, args) => {
                let look = match self.syms.lookup(name.as_str()) {
                    Some(SymType::Func { params, return_type }) => (Some((types_copy(params), return_type.duplicate())), true),
                    Some(_) => (None, true),
                    None => (None, false),
                };
                let (param_types, return_type) = match look {
                    (Some(pr), _) => pr,
                    (None, true) => {
                        let msg = cat(cat(owned("'"), name.as_str()), "' is a variable, not a function");
                        self.report(msg, span);
                        return IrType::I32;
                    },
                    (None, false) => {
                        let msg = cat(cat(owned("undefined function '"), name.as_str()), "'");
                        self.report(msg, span);
                        return IrType::I32;
                    },
                };
                if args.len() != param_types.len() {
                    let mut msg = cat(cat(owned("function '"), name.as_str()), "' takes ");
                    push_decimal(&mut msg, param_types.len() as u64);
                    msg = cat(msg, " arguments, found ");
                    push_decimal(&mut msg, args.len() as u64);
                    self.report(msg, span);
                    return IrType::I32;
                }
                let ghost aa = args@;
                let ghost pp = param_types@;
                let ghost nm = name@;
                let ghost mut acc: Seq<Msg> = seq![];
                let mut i: usize = 0;
                assert(aa.skip(0) == aa);
                assert(pp.skip(0) == pp);
                proof {
                    lemma_reported_none(d0);
                    assert(args_errs(f, aa, pp, nm, 1) =~= acc + args_errs(f, aa, pp, nm, 1));
                }
                while i < args.len()
                    invariant
                        i <= aa.len(),
                        aa == args@,
                        expr.0 is Call,
                        expr.0->Call_1 == *args,
                        pp == param_types@,
                        nm == name@,
                        aa.len() == pp.len(),
                        self.syms@ == f,
                        args_errs(f, aa, pp, nm, 1) == acc + args_errs(f, aa.skip(i as int), pp.skip(i as int), nm, (i + 1) as nat),
                        reported(d0, self.diags.diags@, acc),
                    decreases aa.len() - i,
                {
                    assert(aa.skip(i as int).drop_first() == aa.skip(i + 1));
                    assert(pp.skip(i as int).drop_first() == pp.skip(i + 1));
                    assert(aa.skip(i as int)[0] == aa[i as int]);
                    assert(pp.skip(i as int)[0] == pp[i as int]);
                    let ghost d1 = self.diags.diags@;
                    proof {
                        let ghost av: Vec<SpExpr> = *args;
                        assert(decreases_to!(*expr => expr.0));
                        assert(decreases_to!(expr.0 => expr.0->Call_1));
                        assert(decreases_to!(av => av@));
                        assert(decreases_to!(av@ => av@[i as int]));
                    }
                    let at = self.check_expr(&args[i]);
                    let ghost d2 = self.diags.diags@;
                    let ghost ea = expr_errs(f, aa[i as int]);
                    proof { lemma_reported_chain(d0, d1, d2, acc, ea); }
                    if !types_compatible(&at, &param_types[i]) {
                        let mut msg = owned("argument ");
                        push_decimal(&mut msg, (i + 1) as u64);
                        msg = cat(cat(cat(msg, " of '"), name.as_str()), "': expected ");
                        msg = cat(cat(cat(msg, param_types[i].to_text().as_str()), ", found "), at.to_text().as_str());
                        let ghost mm = msg@;
                        self.report(msg, args[i].1);
                        proof {
                            lemma_reported_chain(d0, d2, self.diags.diags@, acc + ea, seq![(mm, aa[i as int].1)]);
                            let rest = args_errs(f, aa.skip(i + 1), pp.skip(i + 1), nm, (i + 2) as nat);
                            assert(acc + (ea + seq![(mm, aa[i as int].1)] + rest) =~= (acc + ea + seq![(mm, aa[i as int].1)]) + rest);
                            acc = acc + ea + seq![(mm, aa[i as int].1)];
                        }
                    } else {
                        proof {
                            let rest = args_errs(f, aa.skip(i + 1), pp.skip(i + 1), nm, (i + 2) as nat);
                            assert(acc + (ea + Seq::<Msg>::empty() + rest) =~= (acc + ea) + rest);
                            acc = acc + ea;
                        }
                    }
                    i = i + 1;
                }
                assert(aa.skip(aa.len() as int) == Seq::<SpExpr>::empty());
                proof { assert(acc + Seq::<Msg>::empty() =~= acc); }
                return_type
            },
            ExprKind::Cast(type_, inner) => {
                let target_type = ast_type_to_ir(type_);
                let _src_type = self.check_expr(inner);
                target_type
            },
        }
    }

    /// Reports the error for an expression of type `found` where `want` is
    /// expected: `msg` followed by the type found.
    fn expect_type(&mut self, found: &IrType, want: &IrType, msg: String, span: Span)
        ensures
            final(self).scopes() == old(self).scopes(),
            reported(old(self).msgs(), final(self).msgs(), if *found == *want {
                Seq::<Msg>::empty()
            } else {
                seq![(msg@ + ir_type_text(*found), span)]
            }),
    {
        if !types_compatible(found, want) {
            let m = cat(msg, found.to_text().as_str());
            self.report(m, span);
        } else {
            proof { lemma_reported_none(self.msgs()); }
        }
    }

    /// Checks statements in order in a new scope, which is closed again.
    fn check_scoped(&mut self, stmts: &Vec<SpStmt>, ret: &IrType)
        ensures
            ({
                let (f1, errs) = stmts_check(old(self).scopes().push(Map::empty()), stmts@, *ret);
                &&& final(self).scopes() == pop_frame(f1)
                &&& reported(old(self).msgs(), final(self).msgs(), errs)
            }),
        decreases stmts@, 1nat,
    {
        self.syms.enter_scope();
        let ghost ss = stmts@;
        let ghost goal = stmts_check(self.syms@, ss, *ret);
        let ghost mut acc: Seq<Msg> = seq![];
        assert(ss.skip(0) == ss);
        proof {
            lemma_reported_none(self.msgs());
            assert(goal.1 =~= acc + goal.1);
        }
        let mut i: usize = 0;
        while i < stmts.len()
            invariant
                i <= ss.len(),
                ss == stmts@,
                goal.0 == stmts_check(self.syms@, ss.skip(i as int), *ret).0,
                goal.1 == acc + stmts_check(self.syms@, ss.skip(i as int), *ret).1,
                reported(old(self).msgs(), self.msgs(), acc),
            decreases ss.len() - i,
        {
            assert(ss.skip(i as int).drop_first() == ss.skip(i + 1));
            assert(ss.skip(i as int)[0] == ss[i as int]);
            let ghost d_before = self.diags.diags@;
            let ghost e1 = stmt_check(self.syms@, ss[i as int], *ret).1;
            let ghost rest = stmts_check(stmt_check(self.syms@, ss[i as int], *ret).0, ss.skip(i + 1), *ret).1;
            self.check_stmt(&stmts[i], ret);
            proof {
                lemma_reported_chain(old(self).msgs(), d_before, self.msgs(), acc, e1);
                assert(acc + (e1 + rest) =~= (acc + e1) + rest);
                acc = acc + e1;
            }
            i = i + 1;
        }
        assert(ss.skip(ss.len() as int) == Seq::<SpStmt>::empty());
        proof { assert(acc + Seq::<Msg>::empty() =~= acc); }
        self.syms.exit_scope();
    }

    #[verifier::rlimit(40)]
    fn check_stmt(&mut self, stmt: &SpStmt, expected_ret: &IrType) -> (r: IrType)
        ensures
            r == IrType::Void,
            ({
                let (f1, errs) = stmt_check(old(self).scopes(), *stmt, *expected_ret);
                &&& final(self).scopes() == f1
                &&& reported(old(self).msgs(), final(self).msgs(), errs)
            }),
        decreases stmt, 2nat,
    {
        let ghost f = self.syms@;
        let ghost d0 = self.diags.diags@;
        let span = stmt.1;
        match &stmt.0 {
            StmtKind::Return(expr_opt) => {
                if let Some(expr) = expr_opt {
                    let expr_type = self.check_expr(expr);
                    let ghost d1 = self.diags.diags@;
                    let msg = cat(cat(owned("expected return type "), expected_ret.to_text().as_str()), ", found ");
                    let ghost mm = msg@;
                    self.expect_type(&expr_type, expected_ret, msg, expr.1);
                    proof {
                        let tail = if expr_type == *expected_ret { Seq::<Msg>::empty() } else { seq![(mm + ir_type_text(expr_type), expr.1)] };
                        lemma_reported_chain(d0, d1, self.diags.diags@, expr_errs(f, *expr), tail);
                    }
                } else {
                    let is_void = match expected_ret {
                        IrType::Void => true,
                        _ => false,
                    };
                    if !is_void {
                        let msg = cat(owned("expected return value of type "), expected_ret.to_text().as_str());
                        self.report(msg, span);
                    } else {
                        proof { lemma_reported_none(d0); }
                    }
                }
                IrType::Void
            },
            StmtKind::VarDecl { name, type_, init } => {
                let decl_type = ast_type_to_ir(type_);
                if let Some(init_expr) = init {
                    let init_type = self.check_expr(init_expr);
                    let ghost d1 = self.diags.diags@;
                    let ghost m1 = expr_errs(f, *init_expr);
                    if !types_compatible(&init_type, &decl_type) {
                        let msg = cat(cat(cat(cat(cat(owned("expected type "), decl_type.to_text().as_str()),
                            ", found "), init_type.to_text().as_str()), " in variable '"), name.as_str());
                        let msg = cat(msg, "'");
                        let ghost mm = msg@;
                        self.report(msg, init_expr.1);
                        proof { lemma_reported_chain(d0, d1, self.diags.diags@, m1, seq![(mm, init_expr.1)]); }
                    } else {
                        proof { assert(m1 + Seq::<Msg>::empty() =~= m1); }
                    }
                } else {
                    proof { lemma_reported_none(d0); }
                }
                let _ = self.syms.insert(name.clone(), SymType::Var(decl_type));
                IrType::Void
            },
            StmtKind::If(cond, then_body, else_body) => {
                let cond_type = self.check_expr(cond);
                let ghost d1 = self.diags.diags@;
                let msg = owned("if condition must be bool, found ");
                self.expect_type(&cond_type, &IrType::Bool, msg, cond.1);
                let ghost d2 = self.diags.diags@;
                let ghost c_errs = typed_errs(f, *cond, IrType::Bool, "if condition must be bool, found "@);
                proof {
                    let tail = if cond_type == IrType::Bool {
                        Seq::<Msg>::empty()
                    } else {
                        seq![("if condition must be bool, found "@ + ir_type_text(cond_type), cond.1)]
                    };
                    lemma_reported_chain(d0, d1, d2, expr_errs(f, *cond), tail);
                }
                let ghost t_errs = stmts_check(f.push(Map::empty()), then_body@, *expected_ret).1;
                self.check_scoped(then_body, expected_ret);
                proof { lemma_reported_chain(d0, d2, self.diags.diags@, c_errs, t_errs); }
                if let Some(eb) = else_body {
                    let ghost d3 = self.diags.diags@;
                    let ghost e_errs = stmts_check(self.syms@.push(Map::empty()), eb@, *expected_ret).1;
                    self.check_scoped(eb, expected_ret);
                    proof { lemma_reported_chain(d0, d3, self.diags.diags@, c_errs + t_errs, e_errs); }
                }
                IrType::Void
            },
            StmtKind::While(cond, body) => {
                let cond_type = self.check_expr(cond);
                let ghost d1 = self.diags.diags@;
                let msg = owned("while condition must be bool, found ");
                self.expect_type(&cond_type, &IrType::Bool, msg, cond.1);
                let ghost d2 = self.diags.diags@;
                let ghost c_errs = typed_errs(f, *cond, IrType::Bool, "while condition must be bool, found "@);
                proof {
                    let tail = if cond_type == IrType::Bool {
                        Seq::<Msg>::empty()
                    } else {
                        seq![("while condition must be bool, found "@ + ir_type_text(cond_type), cond.1)]
                    };
                    lemma_reported_chain(d0, d1, d2, expr_errs(f, *cond), tail);
                }
                let ghost b_errs = stmts_check(f.push(Map::empty()), body@, *expected_ret).1;
                self.check_scoped(body, expected_ret);
                proof { lemma_reported_chain(d0, d2, self.diags.diags@, c_errs, b_errs); }
                IrType::Void
            },
            StmtKind::Block(stmts) => {
                self.check_scoped(stmts, expected_ret);
                IrType::Void
            },
            StmtKind::Expr(expr) => {
                self.check_expr(expr);
                IrType::Void
            },
            StmtKind::Assign(name, expr) => {
                let var_type = self.var_type(name, "undefined variable '", span);
                let ghost d1 = self.diags.diags@;
                let ghost m1 = var_errs(f, name@, "undefined variable '"@, span);
                let expr_type = self.check_expr(expr);
                let ghost d2 = self.diags.diags@;
                let ghost m2 = m1 + expr_errs(f, *expr);
                proof { lemma_reported_chain(d0, d1, d2, m1, expr_errs(f, *expr)); }
                if !types_compatible(&expr_type, &var_type) {
                    let msg = cat(cat(cat(cat(cat(owned("cannot assign "), expr_type.to_text().as_str()),
                        " to variable '"), name.as_str()), "' of type "), var_type.to_text().as_str());
                    let ghost mm = msg@;
                    self.report(msg, expr.1);
                    proof { lemma_reported_chain(d0, d2, self.diags.diags@, m2, seq![(mm, expr.1)]); }
                } else {
                    proof { assert(m2 + Seq::<Msg>::empty() =~= m2); }
                }
                IrType::Void
            },
        }
    }

    /// Registers every function, then, if nothing has been reported at all
    /// (by this or an earlier phase), checks each function's body.
    pub fn check(&mut self, program: &AstProgram)
        ensures
            ({
                let (f1, e1) = register_funcs(old(self).scopes(), program.decls@);
                let stop = any_error(old(self).msgs()) || e1.len() > 0;
                let (f2, e2) = funcs_check(f1, program.decls@);
                &&& stop ==> final(self).scopes() == f1 && reported(old(self).msgs(), final(self).msgs(), e1)
                &&& !stop ==> final(self).scopes() == f2 && reported(old(self).msgs(), final(self).msgs(), e2)
            }),
    {
        let ghost d0 = self.diags.diags@;
        self.collect_decls(program);
        let ghost e1 = register_funcs(old(self).scopes(), program.decls@).1;
        if self.diags.has_errors() {
            proof {
                if any_error(d0) {
                    let k = choose|k: int| 0 <= k < d0.len() && (#[trigger] d0[k]).severity == Severity::Error;
                    assert(self.diags.diags@[k] == d0[k]);
                }
            }
            return;
        }
        proof {
            if any_error(d0) {
                let k = choose|k: int| 0 <= k < d0.len() && (#[trigger] d0[k]).severity == Severity::Error;
                assert(self.diags.diags@[k] == d0[k]);
            }
            if e1.len() > 0 {
                let k = d0.len() as int;
                assert(self.diags.diags@[k].severity == Severity::Error);
            }
            assert(self.diags.diags@ =~= d0);
        }
        self.check_func_bodies(program);
    }

    fn collect_decls(&mut self, program: &AstProgram)
        ensures
            ({
                let (f1, errs) = register_funcs(old(self).scopes(), program.decls@);
                &&& final(self).scopes() == f1
                &&& reported(old(self).msgs(), final(self).msgs(), errs)
            }),
    {
        let ghost ds = program.decls@;
        let ghost goal = register_funcs(self.syms@, ds);
        let ghost mut acc: Seq<Msg> = seq![];
        assert(ds.skip(0) == ds);
        proof {
            lemma_reported_none(self.msgs());
            assert(goal.1 =~= acc + goal.1);
        }
        let mut i: usize = 0;
        while i < program.decls.len()
            invariant
                i <= ds.len(),
                ds == program.decls@,
                goal.0 == register_funcs(self.syms@, ds.skip(i as int)).0,
                goal.1 == acc + register_funcs(self.syms@, ds.skip(i as int)).1,
                reported(old(self).msgs(), self.msgs(), acc),
            decreases ds.len() - i,
        {
            assert(ds.skip(i as int).drop_first() == ds.skip(i + 1));
            assert(ds.skip(i as int)[0] == ds[i as int]);
            let AstDecl::Func(func) = &program.decls[i];
            let mut params: Vec<IrType> = Vec::new();
            let mut j: usize = 0;
            while j < func.params.len()
                invariant
                    j <= func.params@.len(),
                    params@ == func.params@.take(j as int).map_values(|p: AstParam| spec_ast_type_to_ir(p.type_)),
                decreases func.params@.len() - j,
            {
                params.push(ast_type_to_ir(&func.params[j].type_));
                j = j + 1;
                assert(params@ == func.params@.take(j as int).map_values(|p: AstParam| spec_ast_type_to_ir(p.type_)));
            }
            assert(func.params@.take(func.params@.len() as int) == func.params@);
            let ret = ast_type_to_ir(&func.return_type);
            let sym = SymType::Func { params, return_type: ret };
            let ghost d1 = self.diags.diags@;
            let ghost f_before = self.syms@;
            let ghost rest = register_funcs(bind_new(f_before, func.name@, func_symbol(*func)), ds.skip(i + 1)).1;
            if !self.syms.insert(func.name.clone(), sym) {
                let msg = cat(cat(owned("duplicate function '"), func.name.as_str()), "'");
                let ghost mm = msg@;
                self.report(msg, func.name_span);
                proof {
                    lemma_reported_chain(old(self).msgs(), d1, self.msgs(), acc, seq![(mm, func.name_span)]);
                    assert(acc + (seq![(mm, func.name_span)] + rest) =~= (acc + seq![(mm, func.name_span)]) + rest);
                    acc = acc + seq![(mm, func.name_span)];
                }
            } else {
                proof { assert(acc + (Seq::<Msg>::empty() + rest) =~= acc + rest); }
            }
            i = i + 1;
        }
        assert(ds.skip(ds.len() as int) == Seq::<AstDecl>::empty());
        proof { assert(acc + Seq::<Msg>::empty() =~= acc); }
    }

    fn check_func_bodies(&mut self, program: &AstProgram)
        ensures
            ({
                let (f1, errs) = funcs_check(old(self).scopes(), program.decls@);
                &&& final(self).scopes() == f1
                &&& reported(old(self).msgs(), final(self).msgs(), errs)
            }),
    {
        let ghost ds = program.decls@;
        let ghost goal = funcs_check(self.syms@, ds);
        let ghost mut acc: Seq<Msg> = seq![];
        assert(ds.skip(0) == ds);
        proof {
            lemma_reported_none(self.msgs());
            assert(goal.1 =~= acc + goal.1);
        }
        let mut i: usize = 0;
        while i < program.decls.len()
            invariant
                i <= ds.len(),
                ds == program.decls@,
                goal.0 == funcs_check(self.syms@, ds.skip(i as int)).0,
                goal.1 == acc + funcs_check(self.syms@, ds.skip(i as int)).1,
                reported(old(self).msgs(), self.msgs(), acc),
            decreases ds.len() - i,
        {
            assert(ds.skip(i as int).drop_first() == ds.skip(i + 1));
            assert(ds.skip(i as int)[0] == ds[i as int]);
            let AstDecl::Func(f) = &program.decls[i];
            let ghost d1 = self.diags.diags@;
            let ghost e1 = func_check(self.syms@, *f).1;
            let ghost rest = funcs_check(func_check(self.syms@, *f).0, ds.skip(i + 1)).1;
            self.check_func(f);
            proof {
                lemma_reported_chain(old(self).msgs(), d1, self.msgs(), acc, e1);
                assert(acc + (e1 + rest) =~= (acc + e1) + rest);
                acc = acc + e1;
            }
            i = i + 1;
        }
        assert(ds.skip(ds.len() as int) == Seq::<AstDecl>::empty());
        proof { assert(acc + Seq::<Msg>::empty() =~= acc); }
    }

    fn check_func(&mut self, func: &AstFuncDecl)
        ensures
            ({
                let (f1, errs) = func_check(old(self).scopes(), *func);
                &&& final(self).scopes() == f1
                &&& reported(old(self).msgs(), final(self).msgs(), errs)
            }),
    {
        let ghost f0 = self.syms@;
        self.syms.enter_scope();
        let ghost ps = func.params@;
        assert(ps.skip(0) == ps);
        let mut j: usize = 0;
        while j < func.params.len()
            invariant
                j <= ps.len(),
                ps == func.params@,
                bind_params(f0.push(Map::empty()), ps) == bind_params(self.syms@, ps.skip(j as int)),
                self.diags.diags@ == old(self).msgs(),
            decreases ps.len() - j,
        {
            assert(ps.skip(j as int).drop_first() == ps.skip(j + 1));
            assert(ps.skip(j as int)[0] == ps[j as int]);
            let ir_type = ast_type_to_ir(&func.params[j].type_);
            let _ = self.syms.insert(func.params[j].name.clone(), SymType::Var(ir_type));
            j = j + 1;
        }
        assert(ps.skip(ps.len() as int) == Seq::<AstParam>::empty());
        let ret_type = ast_type_to_ir(&func.return_type);
        let ghost f1 = self.syms@;
        let ghost ss = func.body@;
        let ghost goal = stmts_check(f1, ss, ret_type);
        let ghost mut acc: Seq<Msg> = seq![];
        assert(ss.skip(0) == ss);
        proof {
            lemma_reported_none(self.msgs());
            assert(goal.1 =~= acc + goal.1);
        }
        let mut i: usize = 0;
        while i < func.body.len()
            invariant
                i <= ss.len(),
                ss == func.body@,
                goal.0 == stmts_check(self.syms@, ss.skip(i as int), ret_type).0,
                goal.1 == acc + stmts_check(self.syms@, ss.skip(i as int), ret_type).1,
                reported(old(self).msgs(), self.msgs(), acc),
            decreases ss.len() - i,
        {
            assert(ss.skip(i as int).drop_first() == ss.skip(i + 1));
            assert(ss.skip(i as int)[0] == ss[i as int]);
            let ghost d_before = self.diags.diags@;
            let ghost e1 = stmt_check(self.syms@, ss[i as int], ret_type).1;
            let ghost rest = stmts_check(stmt_check(self.syms@, ss[i as int], ret_type).0, ss.skip(i + 1), ret_type).1;
            self.check_stmt(&func.body[i], &ret_type);
            proof {
                lemma_reported_chain(old(self).msgs(), d_before, self.msgs(), acc, e1);
                assert(acc + (e1 + rest) =~= (acc + e1) + rest);
                acc = acc + e1;
            }
            i = i + 1;
        }
        assert(ss.skip(ss.len() as int) == Seq::<SpStmt>::empty());
        proof { assert(acc + Seq::<Msg>::empty() =~= acc); }
        self.syms.exit_scope();
    }
}

} // verus!

verus! {

/// Checking a statement changes at most the innermost scope: the number of
/// scopes and every scope around the innermost one stay as they were.
proof fn lemma_stmt_keeps_outer(f: Frames, s: SpStmt, ret: IrType)
    ensures
        stmt_check(f, s, ret).0.len() == f.len(),
        f.len() > 0 ==> stmt_check(f, s, ret).0.drop_last() == f.drop_last(),
        (s.0 is If || s.0 is While || s.0 is Block) ==> stmt_check(f, s, ret).0 == f,
    decreases s, 1nat,
{
    let f0 = f.push(Map::empty());
    assert(f0.drop_last() =~= f);
    match s.0 {
        StmtKind::VarDecl { name, type_, init } => {
            let g = stmt_check(f, s, ret).0;
            if f.len() > 0 && !f.last().contains_key(name@) {
                assert(g.drop_last() =~= f.drop_last());
            }
        },
        StmtKind::If(c, t, e) => {
            lemma_stmts_keeps_outer(f0, t@, ret);
            let (f1, _) = stmts_check(f0, t@, ret);
            let g1 = pop_frame(f1);
            assert(g1 == f);
            match e {
                Some(eb) => {
                    lemma_stmts_keeps_outer(f0, eb@, ret);
                },
                None => {},
            }
        },
        StmtKind::While(c, b) => {
            lemma_stmts_keeps_outer(f0, b@, ret);
        },
        StmtKind::Block(ss) => {
            lemma_stmts_keeps_outer(f0, ss@, ret);
        },
        _ => {},
    }
}

/// The list version of `lemma_stmt_keeps_outer`.
proof fn lemma_stmts_keeps_outer(f: Frames, ss: Seq<SpStmt>, ret: IrType)
    ensures
        stmts_check(f, ss, ret).0.len() == f.len(),
        f.len() > 0 ==> stmts_check(f, ss, ret).0.drop_last() == f.drop_last(),
    decreases ss, 0nat,
{
    if ss.len() > 0 {
        lemma_stmt_keeps_outer(f, ss[0], ret);
        let (f1, _) = stmt_check(f, ss[0], ret);
        lemma_stmts_keeps_outer(f1, ss.drop_first(), ret);
    }
}

/// Checking an `if`, a `while` or a block leaves the scopes around it as
/// they were: what is declared inside does not escape.
pub proof fn lemma_nested_keeps_scopes(f: Frames, s: SpStmt, ret: IrType)
    requires
        s.0 is If || s.0 is While || s.0 is Block,
    ensures
        stmt_check(f, s, ret).0 == f,
{
    lemma_stmt_keeps_outer(f, s, ret);
}

} // verus!

verus! {

/// A binary operation type-checks only with operands of the right types,
/// and then it does exactly when its operands do: `&&` and `||` need two
/// `bool` operands, the arithmetic operators and comparisons two operands
/// of one numeric type. A logical operation with a non-`bool` operand is
/// reported as such, at the operation.
pub proof fn lemma_binary_operand_types(f: Frames, e: SpExpr)
    requires
        e.0 is Binary,
    ensures
        ({
            let op = e.0->Binary_0;
            let lt = expr_type(f, *e.0->Binary_1);
            let rt = expr_type(f, *e.0->Binary_2);
            let inner_ok = expr_errs(f, *e.0->Binary_1).len() == 0 && expr_errs(f, *e.0->Binary_2).len() == 0;
            let logical = op == BinaryOp::And || op == BinaryOp::Or;
            &&& logical ==> (expr_errs(f, e).len() == 0 <==> inner_ok && lt == IrType::Bool && rt == IrType::Bool)
            &&& !logical ==> (expr_errs(f, e).len() == 0 <==> inner_ok && lt == rt && spec_is_numeric(lt))
            &&& (logical && !(lt == IrType::Bool && rt == IrType::Bool)) ==>
                expr_errs(f, e).last() == ("logical operators require bool operands"@, e.1)
        }),
{
}

/// A unary operation type-checks only with an operand of the right type,
/// and then it does exactly when its operand does: `-` needs a numeric
/// operand and keeps its type, `!` needs a `bool` and gives a `bool`.
pub proof fn lemma_unary_operand_type(f: Frames, e: SpExpr)
    requires
        e.0 is Unary,
    ensures
        ({
            let op = e.0->Unary_0;
            let t = expr_type(f, *e.0->Unary_1);
            let inner_ok = expr_errs(f, *e.0->Unary_1).len() == 0;
            &&& op == UnaryOp::Neg ==> (expr_errs(f, e).len() == 0 <==> inner_ok && spec_is_numeric(t))
            &&& op == UnaryOp::Neg ==> expr_type(f, e) == t
            &&& op == UnaryOp::Not ==> (expr_errs(f, e).len() == 0 <==> inner_ok && t == IrType::Bool)
            &&& op == UnaryOp::Not ==> expr_type(f, e) == IrType::Bool
        }),
{
}

} // verus!
