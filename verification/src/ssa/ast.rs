use vstd::prelude::*;
use crate::ssa::span::Span;
use crate::text::{owned, cat, push_decimal, decimal};

verus! {

/// The built-in types a program can name.
#[derive(Clone, Copy, Debug, PartialEq, Eq, Structural)]
pub enum PrimType {
    I32,
    I64,
    U32,
    U64,
    I8,
    U8,
    Bool,
    Void,
}

/// A type as written in a program.
#[derive(Debug, PartialEq)]
pub enum AstType {
    Prim(PrimType),
    Named(String),
    Ptr(Box<AstType>),
    Array(Box<AstType>, Option<usize>),
}

/// The binary operators.
#[derive(Clone, Copy, Debug, PartialEq, Eq, Structural)]
pub enum BinaryOp {
    Add,
    Sub,
    Mul,
    Div,
    Eq,
    Neq,
    Lt,
    Gt,
    Le,
    Ge,
    And,
    Or,
}

/// The unary operators.
#[derive(Clone, Copy, Debug, PartialEq, Eq, Structural)]
pub enum UnaryOp {
    Neg,
    Not,
}

/// A syntax node with the span of source text it came from.
#[derive(Clone, Debug)]
pub struct Spanned<T>(pub T, pub Span);

pub type SpExpr = Spanned<ExprKind>;

pub type SpStmt = Spanned<StmtKind>;

/// An expression, without its span.
#[derive(Debug)]
pub enum ExprKind {
    Int(i64),
    Bool(bool),
    Ident(String),
    Binary(BinaryOp, Box<SpExpr>, Box<SpExpr>),
    Unary(UnaryOp, Box<SpExpr>),
    Call(String, Vec<SpExpr>),
    Cast(AstType, Box<SpExpr>),
}

/// A statement, without its span.
#[derive(Debug)]
pub enum StmtKind {
    Return(Option<SpExpr>),
    VarDecl { name: String, type_: AstType, init: Option<SpExpr> },
    If(SpExpr, Vec<SpStmt>, Option<Vec<SpStmt>>),
    While(SpExpr, Vec<SpStmt>),
    Block(Vec<SpStmt>),
    Expr(SpExpr),
    Assign(String, SpExpr),
}

/// A parameter of a function.
#[derive(Clone, Debug)]
pub struct AstParam {
    pub name: String,
    pub name_span: Span,
    pub type_: AstType,
}

/// A function declaration.
#[derive(Clone, Debug)]
pub struct AstFuncDecl {
    pub name: String,
    pub name_span: Span,
    pub return_type: AstType,
    pub params: Vec<AstParam>,
    pub body: Vec<SpStmt>,
    pub span: Span,
}

/// A top-level declaration.
#[derive(Clone, Debug)]
pub enum AstDecl {
    Func(AstFuncDecl),
}

/// A whole program: its declarations in order.
#[derive(Clone, Debug)]
pub struct AstProgram {
    pub decls: Vec<AstDecl>,
}

/// How a primitive type is written.
pub open spec fn prim_text(p: PrimType) -> Seq<char> {
    match p {
        PrimType::I32 => "i32"@,
        PrimType::I64 => "i64"@,
        PrimType::U32 => "u32"@,
        PrimType::U64 => "u64"@,
        PrimType::I8 => "i8"@,
        PrimType::U8 => "u8"@,
        PrimType::Bool => "bool"@,
        PrimType::Void => "void"@,
    }
}

/// How a type is written.
pub open spec fn type_text(t: AstType) -> Seq<char>
    decreases t,
{
    match t {
        AstType::Prim(p) => prim_text(p),
        AstType::Named(s) => s@,
        AstType::Ptr(inner) => "ptr<"@ + type_text(*inner) + ">"@,
        AstType::Array(inner, Some(n)) => "["@ + type_text(*inner) + "; "@ + decimal(n as nat) + "]"@,
        AstType::Array(inner, None) => "["@ + type_text(*inner) + "]"@,
    }
}

/// How a binary operator is written.
pub open spec fn binary_op_text(op: BinaryOp) -> Seq<char> {
    match op {
        BinaryOp::Add => "+"@,
        BinaryOp::Sub => "-"@,
        BinaryOp::Mul => "*"@,
        BinaryOp::Div => "/"@,
        BinaryOp::Eq => "=="@,
        BinaryOp::Neq => "!="@,
        BinaryOp::Lt => "<"@,
        BinaryOp::Gt => ">"@,
        BinaryOp::Le => "<="@,
        BinaryOp::Ge => ">="@,
        BinaryOp::And => "&&"@,
        BinaryOp::Or => "||"@,
    }
}

/// How a unary operator is written.
pub open spec fn unary_op_text(op: UnaryOp) -> Seq<char> {
    match op {
        UnaryOp::Neg => "-"@,
        UnaryOp::Not => "!"@,
    }
}

impl PrimType {
    /// The type's name as it is written in source.
    pub fn to_text(&self) -> (r: String)
        ensures
            r@ == prim_text(*self),
    {
        match self {
            PrimType::I32 => owned("i32"),
            PrimType::I64 => owned("i64"),
            PrimType::U32 => owned("u32"),
            PrimType::U64 => owned("u64"),
            PrimType::I8 => owned("i8"),
            PrimType::U8 => owned("u8"),
            PrimType::Bool => owned("bool"),
            PrimType::Void => owned("void"),
        }
    }
}

impl AstType {
    /// The type as it is written in source.
    pub fn to_text(&self) -> (r: String)
        ensures
            r@ == type_text(*self),
        decreases self,
    {
        match self {
            AstType::Prim(p) => p.to_text(),
            AstType::Named(s) => s.clone(),
            AstType::Ptr(t) => cat(cat(owned("ptr<"), t.to_text().as_str()), ">"),
            AstType::Array(t, Some(n)) => {
                let mut s = cat(cat(owned("["), t.to_text().as_str()), "; ");
                push_decimal(&mut s, *n as u64);
                cat(s, "]")
            },
            AstType::Array(t, None) => cat(cat(owned("["), t.to_text().as_str()), "]"),
        }
    }
}

impl BinaryOp {
    /// The operator as it is written in source.
    pub fn to_text(&self) -> (r: String)
        ensures
            r@ == binary_op_text(*self),
    {
        match self {
            BinaryOp::Add => owned("+"),
            BinaryOp::Sub => owned("-"),
            BinaryOp::Mul => owned("*"),
            BinaryOp::Div => owned("/"),
            BinaryOp::Eq => owned("=="),
            BinaryOp::Neq => owned("!="),
            BinaryOp::Lt => owned("<"),
            BinaryOp::Gt => owned(">"),
            BinaryOp::Le => owned("<="),
            BinaryOp::Ge => owned(">="),
            BinaryOp::And => owned("&&"),
            BinaryOp::Or => owned("||"),
        }
    }
}

impl UnaryOp {
    /// The operator as it is written in source.
    pub fn to_text(&self) -> (r: String)
        ensures
            r@ == unary_op_text(*self),
    {
        match self {
            UnaryOp::Neg => owned("-"),
            UnaryOp::Not => owned("!"),
        }
    }
}


/// A type as plain values.
pub enum TypeV {
    Prim(PrimType),
    Named(Seq<char>),
    Ptr(Box<TypeV>),
    Array(Box<TypeV>, Option<usize>),
}

/// An expression as plain values, with its span.
pub struct SpExprV {
    pub kind: ExprV,
    pub span: Span,
}

/// The kinds of expression, as plain values.
pub enum ExprV {
    Int(i64),
    Bool(bool),
    Ident(Seq<char>),
    Binary(BinaryOp, Box<SpExprV>, Box<SpExprV>),
    Unary(UnaryOp, Box<SpExprV>),
    Call(Seq<char>, Seq<SpExprV>),
    Cast(TypeV, Box<SpExprV>),
}

/// A statement as plain values, with its span.
pub struct SpStmtV {
    pub kind: StmtV,
    pub span: Span,
}

/// The kinds of statement, as plain values.
pub enum StmtV {
    Return(Option<SpExprV>),
    VarDecl(Seq<char>, TypeV, Option<SpExprV>),
    If(SpExprV, Seq<SpStmtV>, Option<Seq<SpStmtV>>),
    While(SpExprV, Seq<SpStmtV>),
    Block(Seq<SpStmtV>),
    Expr(SpExprV),
    Assign(Seq<char>, SpExprV),
}

/// A parameter as plain values: name, where the name stands, type.
pub type ParamV = (Seq<char>, Span, TypeV);

/// A function declaration as plain values.
pub struct FuncV {
    pub name: Seq<char>,
    pub name_span: Span,
    pub return_type: TypeV,
    pub params: Seq<ParamV>,
    pub body: Seq<SpStmtV>,
    pub span: Span,
}

/// The plain value of a type.
pub open spec fn type_view(t: AstType) -> TypeV
    decreases t,
{
    match t {
        AstType::Prim(p) => TypeV::Prim(p),
        AstType::Named(s) => TypeV::Named(s@),
        AstType::Ptr(inner) => TypeV::Ptr(Box::new(type_view(*inner))),
        AstType::Array(inner, n) => TypeV::Array(Box::new(type_view(*inner)), n),
    }
}

/// The plain value of an expression.
pub open spec fn expr_view(e: SpExpr) -> SpExprV
    decreases e,
{
    let kind = match e.0 {
        ExprKind::Int(n) => ExprV::Int(n),
        ExprKind::Bool(b) => ExprV::Bool(b),
        ExprKind::Ident(s) => ExprV::Ident(s@),
        ExprKind::Binary(op, l, r) => ExprV::Binary(op, Box::new(expr_view(*l)), Box::new(expr_view(*r))),
        ExprKind::Unary(op, x) => ExprV::Unary(op, Box::new(expr_view(*x))),
        ExprKind::Call(n, args) => ExprV::Call(n@, exprs_view(args@)),
        ExprKind::Cast(t, x) => ExprV::Cast(type_view(t), Box::new(expr_view(*x))),
    };
    SpExprV { kind, span: e.1 }
}

/// The plain values of expressions, in order.
pub open spec fn exprs_view(s: Seq<SpExpr>) -> Seq<SpExprV>
    decreases s,
{
    if s.len() == 0 {
        Seq::empty()
    } else {
        exprs_view(s.drop_last()).push(expr_view(s.last()))
    }
}

/// The plain value of a statement.
pub open spec fn stmt_view(st: SpStmt) -> SpStmtV
    decreases st,
{
    let kind = match st.0 {
        StmtKind::Return(e) => StmtV::Return(match e { Some(x) => Some(expr_view(x)), None => None }),
        StmtKind::VarDecl { name, type_, init } => StmtV::VarDecl(name@, type_view(type_),
            match init { Some(x) => Some(expr_view(x)), None => None }),
        StmtKind::If(c, t, e) => StmtV::If(expr_view(c), stmts_view(t@),
            match e { Some(b) => Some(stmts_view(b@)), None => None }),
        StmtKind::While(c, b) => StmtV::While(expr_view(c), stmts_view(b@)),
        StmtKind::Block(b) => StmtV::Block(stmts_view(b@)),
        StmtKind::Expr(x) => StmtV::Expr(expr_view(x)),
        StmtKind::Assign(n, x) => StmtV::Assign(n@, expr_view(x)),
    };
    SpStmtV { kind, span: st.1 }
}

/// The plain values of statements, in order.
pub open spec fn stmts_view(s: Seq<SpStmt>) -> Seq<SpStmtV>
    decreases s,
{
    if s.len() == 0 {
        Seq::empty()
    } else {
        stmts_view(s.drop_last()).push(stmt_view(s.last()))
    }
}

/// The plain value of a parameter.
pub open spec fn param_view(p: AstParam) -> ParamV {
    (p.name@, p.name_span, type_view(p.type_))
}

/// The plain value of a function declaration.
pub open spec fn func_view(f: AstFuncDecl) -> FuncV {
    FuncV {
        name: f.name@,
        name_span: f.name_span,
        return_type: type_view(f.return_type),
        params: f.params@.map_values(|p: AstParam| param_view(p)),
        body: stmts_view(f.body@),
        span: f.span,
    }
}

/// The plain value of a program: its function declarations, in order.
pub open spec fn program_view(p: AstProgram) -> Seq<FuncV> {
    p.decls@.map_values(|d: AstDecl| match d { AstDecl::Func(f) => func_view(f) })
}

impl AstType {
    /// A copy of the type.
    pub fn duplicate(&self) -> (r: AstType)
        ensures
            r == *self,
        decreases self,
    {
        match self {
            AstType::Prim(p) => AstType::Prim(*p),
            AstType::Named(s) => AstType::Named(s.clone()),
            AstType::Ptr(b) => AstType::Ptr(Box::new(b.duplicate())),
            AstType::Array(b, n) => AstType::Array(Box::new(b.duplicate()), *n),
        }
    }
}

impl Clone for AstType {
    fn clone(&self) -> (r: Self)
        ensures
            r == *self,
    {
        self.duplicate()
    }
}

/// A copy of an expression's kind: with any span, it reads as the original.
pub fn copy_expr_kind(k: &ExprKind) -> (r: ExprKind)
    ensures
        forall|sp: Span| #[trigger] expr_view(Spanned(r, sp)) == expr_view(Spanned(*k, sp)),
    decreases k, 2nat,
{
    match k {
        ExprKind::Int(n) => ExprKind::Int(*n),
        ExprKind::Bool(b) => ExprKind::Bool(*b),
        ExprKind::Ident(s) => ExprKind::Ident(s.clone()),
        ExprKind::Binary(op, l, rr) => {
            let a = Spanned(copy_expr_kind(&l.0), l.1);
            let b = Spanned(copy_expr_kind(&rr.0), rr.1);
            proof {
                assert(expr_view(a) == expr_view(**l));
                assert(expr_view(b) == expr_view(**rr));
            }
            ExprKind::Binary(*op, Box::new(a), Box::new(b))
        },
        ExprKind::Unary(op, x) => {
            let a = Spanned(copy_expr_kind(&x.0), x.1);
            proof {
                assert(expr_view(a) == expr_view(**x));
            }
            ExprKind::Unary(*op, Box::new(a))
        },
        ExprKind::Call(n, args) => {
            proof {
                assert(decreases_to!(*k => *args));
            }
            ExprKind::Call(n.clone(), copy_exprs(args))
        },
        ExprKind::Cast(t, x) => {
            let a = Spanned(copy_expr_kind(&x.0), x.1);
            proof {
                assert(expr_view(a) == expr_view(**x));
            }
            ExprKind::Cast(t.duplicate(), Box::new(a))
        },
    }
}

/// A copy of a list of expressions.
pub fn copy_exprs(v: &Vec<SpExpr>) -> (r: Vec<SpExpr>)
    ensures
        exprs_view(r@) == exprs_view(v@),
    decreases v, 1nat,
{
    let mut out: Vec<SpExpr> = Vec::new();
    let mut i: usize = 0;
    while i < v.len()
        invariant
            i <= v@.len(),
            exprs_view(out@) == exprs_view(v@.take(i as int)),
        decreases v@.len() - i,
    {
        proof {
            assert(decreases_to!(*v => v@));
            assert(decreases_to!(v@ => v@[i as int]));
            assert(decreases_to!(v@[i as int] => v@[i as int].0));
        }
        let e = Spanned(copy_expr_kind(&v[i].0), v[i].1);
        let ghost o = out@;
        out.push(e);
        proof {
            assert(out@.drop_last() == o);
            assert(v@.take(i + 1).drop_last() =~= v@.take(i as int));
            assert(expr_view(e) == expr_view(v@[i as int]));
        }
        i = i + 1;
    }
    assert(v@.take(v@.len() as int) =~= v@);
    out
}

impl Clone for ExprKind {
    fn clone(&self) -> (r: Self)
        ensures
            forall|sp: Span| #[trigger] expr_view(Spanned(r, sp)) == expr_view(Spanned(*self, sp)),
    {
        copy_expr_kind(self)
    }
}

/// A copy of an optional expression.
fn copy_opt_expr(e: &Option<SpExpr>) -> (r: Option<SpExpr>)
    ensures
        match (r, *e) {
            (Some(a), Some(b)) => expr_view(a) == expr_view(b),
            (None, None) => true,
            _ => false,
        },
{
    match e {
        Some(x) => {
            let a = Spanned(copy_expr_kind(&x.0), x.1);
            assert(expr_view(a) == expr_view(*x));
            Some(a)
        },
        None => None,
    }
}

/// A copy of a statement's kind: with any span, it reads as the original.
pub fn copy_stmt_kind(k: &StmtKind) -> (r: StmtKind)
    ensures
        forall|sp: Span| #[trigger] stmt_view(Spanned(r, sp)) == stmt_view(Spanned(*k, sp)),
    decreases k, 2nat,
{
    match k {
        StmtKind::Return(e) => StmtKind::Return(copy_opt_expr(e)),
        StmtKind::VarDecl { name, type_, init } => StmtKind::VarDecl {
            name: name.clone(),
            type_: type_.duplicate(),
            init: copy_opt_expr(init),
        },
        StmtKind::If(c, t, e) => {
            let c2 = Spanned(copy_expr_kind(&c.0), c.1);
            proof {
                assert(expr_view(c2) == expr_view(*c));
                assert(decreases_to!(*k => *t));
            }
            let t2 = copy_stmts(t);
            let e2 = match e {
                Some(b) => {
                    proof {
                        assert(decreases_to!(*k => *e));
                        assert(decreases_to!(*e => *b));
                    }
                    Some(copy_stmts(b))
                },
                None => None,
            };
            StmtKind::If(c2, t2, e2)
        },
        StmtKind::While(c, b) => {
            let c2 = Spanned(copy_expr_kind(&c.0), c.1);
            proof {
                assert(expr_view(c2) == expr_view(*c));
                assert(decreases_to!(*k => *b));
            }
            StmtKind::While(c2, copy_stmts(b))
        },
        StmtKind::Block(b) => {
            proof {
                assert(decreases_to!(*k => *b));
            }
            StmtKind::Block(copy_stmts(b))
        },
        StmtKind::Expr(x) => {
            let a = Spanned(copy_expr_kind(&x.0), x.1);
            proof {
                assert(expr_view(a) == expr_view(*x));
            }
            StmtKind::Expr(a)
        },
        StmtKind::Assign(n, x) => {
            let a = Spanned(copy_expr_kind(&x.0), x.1);
            proof {
                assert(expr_view(a) == expr_view(*x));
            }
            StmtKind::Assign(n.clone(), a)
        },
    }
}

/// A copy of a list of statements.
pub fn copy_stmts(v: &Vec<SpStmt>) -> (r: Vec<SpStmt>)
    ensures
        stmts_view(r@) == stmts_view(v@),
    decreases v, 1nat,
{
    let mut out: Vec<SpStmt> = Vec::new();
    let mut i: usize = 0;
    while i < v.len()
        invariant
            i <= v@.len(),
            stmts_view(out@) == stmts_view(v@.take(i as int)),
        decreases v@.len() - i,
    {
        proof {
            assert(decreases_to!(*v => v@));
            assert(decreases_to!(v@ => v@[i as int]));
            assert(decreases_to!(v@[i as int] => v@[i as int].0));
        }
        let s = Spanned(copy_stmt_kind(&v[i].0), v[i].1);
        let ghost o = out@;
        out.push(s);
        proof {
            assert(out@.drop_last() == o);
            assert(v@.take(i + 1).drop_last() =~= v@.take(i as int));
            assert(stmt_view(s) == stmt_view(v@[i as int]));
        }
        i = i + 1;
    }
    assert(v@.take(v@.len() as int) =~= v@);
    out
}

impl Clone for StmtKind {
    fn clone(&self) -> (r: Self)
        ensures
            forall|sp: Span| #[trigger] stmt_view(Spanned(r, sp)) == stmt_view(Spanned(*self, sp)),
    {
        copy_stmt_kind(self)
    }
}

} // verus!
