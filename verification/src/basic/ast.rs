use vstd::prelude::*;

verus! {

/// A whole program: its declarations in order.
pub struct AstProgram {
    pub decls: Vec<AstDecl>,
}

/// A top-level declaration.
pub enum AstDecl {
    Func(AstFuncDecl),
    Struct(AstStructDecl),
    Enum(AstEnumDecl),
}

/// A function declaration.
pub struct AstFuncDecl {
    pub pub_: bool,
    pub name: String,
    pub return_type: AstType,
    pub params: Vec<AstParam>,
    pub body: AstBlock,
}

/// A parameter of a function.
pub struct AstParam {
    pub name: String,
    pub type_: AstType,
}

/// A block of statements.
pub struct AstBlock {
    pub stmts: Vec<AstStmt>,
}

/// A statement.
pub enum AstStmt {
    Return(Option<AstExpr>),
    VarDecl(AstVarDecl),
    If(AstIf),
    While(AstWhile),
    Block(AstBlock),
    Expr(AstExpr),
}

/// A variable declaration.
pub struct AstVarDecl {
    pub name: String,
    pub type_: AstType,
    pub init: Option<AstExpr>,
}

/// An `if` statement.
pub struct AstIf {
    pub cond: AstExpr,
    pub then_block: AstBlock,
    pub else_branch: Option<Box<AstStmt>>,
}

/// A `while` statement.
pub struct AstWhile {
    pub cond: AstExpr,
    pub body: AstBlock,
}

/// An expression.
pub enum AstExpr {
    Int(i64),
    Bool(bool),
    Ident(String),
    Binary(BinaryOp, Box<AstExpr>, Box<AstExpr>),
    Unary(UnaryOp, Box<AstExpr>),
    Call(String, Vec<AstExpr>),
    Cast(Box<AstType>, Box<AstExpr>),
    Assign(Box<AstExpr>, Box<AstExpr>),
}

/// The binary operators.
#[derive(Clone, Copy, Debug, PartialEq, Eq, Structural)]
pub enum BinaryOp { Add, Sub, Mul, Div, Eq, Neq, Lt, Gt, Le, Ge, And, Or }

/// The unary operators.
#[derive(Clone, Copy, Debug, PartialEq, Eq, Structural)]
pub enum UnaryOp { Neg, Not }

/// A type as written in a program.
pub enum AstType {
    Prim(PrimType),
    Named(String),
    Ptr(Box<AstType>),
    Array(Box<AstExpr>, Box<AstType>),
}

/// The built-in types a program can name.
#[derive(Clone, Copy, Debug, PartialEq, Eq, Structural)]
pub enum PrimType {
    I32, I64, U32, U64, I8, U8, Bool, Void, Char, Usize, Isize,
}

/// A struct declaration.
pub struct AstStructDecl {
    pub name: String,
    pub fields: Vec<AstField>,
}

/// A field of a struct.
pub struct AstField {
    pub name: String,
    pub type_: AstType,
}

/// An enum declaration.
pub struct AstEnumDecl {
    pub name: String,
    pub variants: Vec<String>,
}


/// A type as plain values.
pub enum TypeB {
    Prim(PrimType),
    Named(Seq<char>),
    Ptr(Box<TypeB>),
    Array(Box<ExprB>, Box<TypeB>),
}

/// An expression as plain values.
pub enum ExprB {
    Int(i64),
    Bool(bool),
    Ident(Seq<char>),
    Binary(BinaryOp, Box<ExprB>, Box<ExprB>),
    Unary(UnaryOp, Box<ExprB>),
    Call(Seq<char>, Seq<ExprB>),
    Cast(Box<TypeB>, Box<ExprB>),
    Assign(Box<ExprB>, Box<ExprB>),
}

/// A statement as plain values.
pub enum StmtB {
    Return(Option<ExprB>),
    VarDecl(Seq<char>, TypeB, Option<ExprB>),
    If(ExprB, Seq<StmtB>, Option<Box<StmtB>>),
    While(ExprB, Seq<StmtB>),
    Block(Seq<StmtB>),
    Expr(ExprB),
}

/// A declaration as plain values.
pub enum DeclB {
    /// Whether it is public, its name, return type, parameters and body.
    Func(bool, Seq<char>, TypeB, Seq<(Seq<char>, TypeB)>, Seq<StmtB>),
    Struct(Seq<char>, Seq<(Seq<char>, TypeB)>),
    Enum(Seq<char>, Seq<Seq<char>>),
}

/// The plain value of a type.
pub open spec fn type_view(t: AstType) -> TypeB
    decreases t,
{
    match t {
        AstType::Prim(p) => TypeB::Prim(p),
        AstType::Named(s) => TypeB::Named(s@),
        AstType::Ptr(inner) => TypeB::Ptr(Box::new(type_view(*inner))),
        AstType::Array(n, elem) => TypeB::Array(Box::new(expr_view(*n)), Box::new(type_view(*elem))),
    }
}

/// The plain value of an expression.
pub open spec fn expr_view(e: AstExpr) -> ExprB
    decreases e,
{
    match e {
        AstExpr::Int(n) => ExprB::Int(n),
        AstExpr::Bool(b) => ExprB::Bool(b),
        AstExpr::Ident(s) => ExprB::Ident(s@),
        AstExpr::Binary(op, l, r) => ExprB::Binary(op, Box::new(expr_view(*l)), Box::new(expr_view(*r))),
        AstExpr::Unary(op, x) => ExprB::Unary(op, Box::new(expr_view(*x))),
        AstExpr::Call(n, args) => ExprB::Call(n@, exprs_view(args@)),
        AstExpr::Cast(t, x) => ExprB::Cast(Box::new(type_view(*t)), Box::new(expr_view(*x))),
        AstExpr::Assign(l, r) => ExprB::Assign(Box::new(expr_view(*l)), Box::new(expr_view(*r))),
    }
}

/// The plain values of expressions, in order.
pub open spec fn exprs_view(s: Seq<AstExpr>) -> Seq<ExprB>
    decreases s,
{
    if s.len() == 0 { Seq::empty() } else { exprs_view(s.drop_last()).push(expr_view(s.last())) }
}

/// The plain value of a statement.
pub open spec fn stmt_view(st: AstStmt) -> StmtB
    decreases st,
{
    match st {
        AstStmt::Return(e) => StmtB::Return(match e { Some(x) => Some(expr_view(x)), None => None }),
        AstStmt::VarDecl(d) => StmtB::VarDecl(d.name@, type_view(d.type_),
            match d.init { Some(x) => Some(expr_view(x)), None => None }),
        AstStmt::If(i) => StmtB::If(expr_view(i.cond), stmts_view(i.then_block.stmts@),
            match i.else_branch { Some(b) => Some(Box::new(stmt_view(*b))), None => None }),
        AstStmt::While(w) => StmtB::While(expr_view(w.cond), stmts_view(w.body.stmts@)),
        AstStmt::Block(b) => StmtB::Block(stmts_view(b.stmts@)),
        AstStmt::Expr(x) => StmtB::Expr(expr_view(x)),
    }
}

/// The plain values of statements, in order.
pub open spec fn stmts_view(s: Seq<AstStmt>) -> Seq<StmtB>
    decreases s,
{
    if s.len() == 0 { Seq::empty() } else { stmts_view(s.drop_last()).push(stmt_view(s.last())) }
}

/// The plain value of a parameter.
pub open spec fn param_view(p: AstParam) -> (Seq<char>, TypeB) {
    (p.name@, type_view(p.type_))
}

/// The plain value of a field.
pub open spec fn field_view(f: AstField) -> (Seq<char>, TypeB) {
    (f.name@, type_view(f.type_))
}

/// The plain value of a declaration.
pub open spec fn decl_view(d: AstDecl) -> DeclB {
    match d {
        AstDecl::Func(f) => DeclB::Func(f.pub_, f.name@, type_view(f.return_type),
            f.params@.map_values(|p: AstParam| param_view(p)), stmts_view(f.body.stmts@)),
        AstDecl::Struct(s) => DeclB::Struct(s.name@, s.fields@.map_values(|f: AstField| field_view(f))),
        AstDecl::Enum(e) => DeclB::Enum(e.name@, e.variants@.map_values(|v: String| v@)),
    }
}

/// The plain value of a program: its declarations, in order.
pub open spec fn program_view(p: AstProgram) -> Seq<DeclB> {
    p.decls@.map_values(|d: AstDecl| decl_view(d))
}

} // verus!
