use vstd::prelude::*;
use crate::basic::span::Span;
use crate::basic::token::{Token, SpannedToken};
use crate::basic::diag::{Diagnostics, Diagnostic, Severity};
use crate::basic::ast::{
    AstProgram, AstDecl, AstFuncDecl, AstParam, AstBlock, AstStmt, AstVarDecl, AstIf, AstWhile,
    AstExpr, BinaryOp, UnaryOp, AstType, PrimType, AstStructDecl, AstField, field_view, ExprB, StmtB, TypeB, DeclB,
    type_view, expr_view, exprs_view, stmt_view, stmts_view, decl_view, program_view, param_view,
};
use crate::text::{owned, cat, debug_string, debug_quoted, parse_i64, spec_parse_i64};
use vstd::string::StringExecFns;

use crate::basic::grammar::{Msg, reported, lemma_reported_none, lemma_reported_chain, lemma_push_reported, tok_at, span_at, step, expect_at, ident_at, sp_type, sp_expr, sp_prefix, sp_infix, sp_call_args, sp_args_rest, sp_block, sp_stmts, sp_stmt, sp_if_else, sp_expr_semi, sp_cond, sp_params, sp_func, sp_decl, sp_program};

verus! {

/// Builds a syntax tree from tokens. The token list ends with `Eof`; the
/// parser never moves past that last token.
pub struct Parser {
    tokens: Vec<SpannedToken>,
    pos: usize,
    pub diag: Diagnostics,
}

/// Whether a token list is one the parser can work on: it ends with `Eof`.
pub open spec fn ends_with_eof(tokens: Seq<SpannedToken>) -> bool {
    tokens.len() > 0 && tokens.last().0 == Token::Eof
}

/// Whether `ds` extends `old` with error messages only.
pub open spec fn adds_errors(old: Seq<Diagnostic>, ds: Seq<Diagnostic>) -> bool {
    &&& old.len() <= ds.len()
    &&& forall|i: int| 0 <= i < old.len() ==> #[trigger] ds[i] == old[i]
    &&& forall|i: int| old.len() <= i < ds.len() ==> (#[trigger] ds[i]).severity == Severity::Error
}

/// The `Debug` text of a token: its variant name, with the text of
/// identifiers and literals quoted.
pub open spec fn token_debug_text(t: Token) -> Seq<char> {
    match t {
        Token::Ident(s) => "Ident("@ + debug_quoted(s@) + ")"@,
        Token::NumLiteral(s) => "NumLiteral("@ + debug_quoted(s@) + ")"@,
        Token::StrLiteral(s) => "StrLiteral("@ + debug_quoted(s@) + ")"@,
        _ => fixed_token_name(t),
    }
}

/// The variant name of a token that carries no text.
pub open spec fn fixed_token_name(t: Token) -> Seq<char> {
    match t {
        Token::Func => "Func"@, Token::Let => "Let"@, Token::Return => "Return"@, Token::If => "If"@,
        Token::Else => "Else"@, Token::While => "While"@, Token::For => "For"@, Token::Asm => "Asm"@,
        Token::Import => "Import"@, Token::Static => "Static"@, Token::Spec => "Spec"@,
        Token::Pub => "Pub"@, Token::True => "True"@, Token::False => "False"@, Token::I32 => "I32"@,
        Token::I64 => "I64"@, Token::U32 => "U32"@, Token::U64 => "U64"@, Token::I8 => "I8"@,
        Token::U8 => "U8"@, Token::Bool => "Bool"@, Token::Char => "Char"@, Token::Void => "Void"@,
        Token::Isize => "Isize"@, Token::Usize => "Usize"@, Token::Plus => "Plus"@,
        Token::Minus => "Minus"@, Token::Star => "Star"@, Token::Slash => "Slash"@, Token::Eq => "Eq"@,
        Token::EqEq => "EqEq"@, Token::Bang => "Bang"@, Token::BangEq => "BangEq"@, Token::Lt => "Lt"@,
        Token::Gt => "Gt"@, Token::LtEq => "LtEq"@, Token::GtEq => "GtEq"@, Token::AndAnd => "AndAnd"@,
        Token::PipePipe => "PipePipe"@, Token::OpenParen => "OpenParen"@,
        Token::CloseParen => "CloseParen"@, Token::OpenBrace => "OpenBrace"@,
        Token::CloseBrace => "CloseBrace"@, Token::OpenBracket => "OpenBracket"@,
        Token::CloseBracket => "CloseBracket"@, Token::Colon => "Colon"@, Token::Comma => "Comma"@,
        Token::Semicolon => "Semicolon"@, Token::Dot => "Dot"@, Token::Arrow => "Arrow"@,
        Token::At => "At"@, Token::Eof => "Eof"@,
        _ => Seq::empty(),
    }
}

/// `format!("{:?}", t)` for a token.
pub fn token_debug(t: &Token) -> (r: String)
    ensures
        r@ == token_debug_text(*t),
{
    match t {
        Token::Ident(s) => cat(cat(owned("Ident("), debug_string(s).as_str()), ")"),
        Token::NumLiteral(s) => cat(cat(owned("NumLiteral("), debug_string(s).as_str()), ")"),
        Token::StrLiteral(s) => cat(cat(owned("StrLiteral("), debug_string(s).as_str()), ")"),
        Token::Func => owned("Func"), Token::Let => owned("Let"), Token::Return => owned("Return"),
        Token::If => owned("If"), Token::Else => owned("Else"), Token::While => owned("While"),
        Token::For => owned("For"), Token::Asm => owned("Asm"), Token::Import => owned("Import"),
        Token::Static => owned("Static"), Token::Spec => owned("Spec"), Token::Pub => owned("Pub"),
        Token::True => owned("True"), Token::False => owned("False"), Token::I32 => owned("I32"),
        Token::I64 => owned("I64"), Token::U32 => owned("U32"), Token::U64 => owned("U64"),
        Token::I8 => owned("I8"), Token::U8 => owned("U8"), Token::Bool => owned("Bool"),
        Token::Char => owned("Char"), Token::Void => owned("Void"), Token::Isize => owned("Isize"),
        Token::Usize => owned("Usize"), Token::Plus => owned("Plus"), Token::Minus => owned("Minus"),
        Token::Star => owned("Star"), Token::Slash => owned("Slash"), Token::Eq => owned("Eq"),
        Token::EqEq => owned("EqEq"), Token::Bang => owned("Bang"), Token::BangEq => owned("BangEq"),
        Token::Lt => owned("Lt"), Token::Gt => owned("Gt"), Token::LtEq => owned("LtEq"),
        Token::GtEq => owned("GtEq"), Token::AndAnd => owned("AndAnd"),
        Token::PipePipe => owned("PipePipe"), Token::OpenParen => owned("OpenParen"),
        Token::CloseParen => owned("CloseParen"), Token::OpenBrace => owned("OpenBrace"),
        Token::CloseBrace => owned("CloseBrace"), Token::OpenBracket => owned("OpenBracket"),
        Token::CloseBracket => owned("CloseBracket"), Token::Colon => owned("Colon"),
        Token::Comma => owned("Comma"), Token::Semicolon => owned("Semicolon"),
        Token::Dot => owned("Dot"), Token::Arrow => owned("Arrow"), Token::At => owned("At"),
        Token::Eof => owned("Eof"),
    }
}

/// What follows an operand in an expression.
enum InfixKind {
    Binary(BinaryOp),
    Call,
    Assign,
}

/// The operator table: what a token does after an operand, with its left
/// and right binding powers.
pub open spec fn spec_infix(t: Token) -> Option<(u8, u8)> {
    match t {
        Token::Eq => Some((0, 1)),
        Token::PipePipe => Some((2, 3)),
        Token::AndAnd => Some((3, 4)),
        Token::EqEq | Token::BangEq => Some((4, 5)),
        Token::Lt | Token::Gt | Token::LtEq | Token::GtEq => Some((5, 6)),
        Token::Plus | Token::Minus => Some((6, 7)),
        Token::Star | Token::Slash => Some((7, 8)),
        Token::OpenParen => Some((9, 9)),
        _ => None,
    }
}

/// The binary operator a token stands for after an operand.
pub open spec fn spec_binary_op(t: Token) -> Option<BinaryOp> {
    match t {
        Token::PipePipe => Some(BinaryOp::Or),
        Token::AndAnd => Some(BinaryOp::And),
        Token::EqEq => Some(BinaryOp::Eq),
        Token::BangEq => Some(BinaryOp::Neq),
        Token::Lt => Some(BinaryOp::Lt),
        Token::Gt => Some(BinaryOp::Gt),
        Token::LtEq => Some(BinaryOp::Le),
        Token::GtEq => Some(BinaryOp::Ge),
        Token::Plus => Some(BinaryOp::Add),
        Token::Minus => Some(BinaryOp::Sub),
        Token::Star => Some(BinaryOp::Mul),
        Token::Slash => Some(BinaryOp::Div),
        _ => None,
    }
}

/// The primitive type a type keyword names.
pub open spec fn spec_prim_type(t: Token) -> Option<PrimType> {
    match t {
        Token::I32 => Some(PrimType::I32),
        Token::I64 => Some(PrimType::I64),
        Token::U32 => Some(PrimType::U32),
        Token::U64 => Some(PrimType::U64),
        Token::I8 => Some(PrimType::I8),
        Token::U8 => Some(PrimType::U8),
        Token::Bool => Some(PrimType::Bool),
        Token::Void => Some(PrimType::Void),
        Token::Char => Some(PrimType::Char),
        Token::Isize => Some(PrimType::Isize),
        Token::Usize => Some(PrimType::Usize),
        _ => None,
    }
}

impl Parser {
    /// The tokens the parser reads.
    pub closed spec fn toks(&self) -> Seq<SpannedToken> {
        self.tokens@
    }

    /// The messages reported so far.
    pub closed spec fn msgs(&self) -> Seq<Diagnostic> {
        self.diag.diagnostics@
    }

    /// The index of the next token.
    pub closed spec fn at(&self) -> int {
        self.pos as int
    }

    /// The parser reads a token list that ends with `Eof` and stands on one
    /// of its tokens.
    pub closed spec fn wf(&self) -> bool {
        &&& ends_with_eof(self.tokens@)
        &&& self.pos < self.tokens@.len()
    }

    /// The next token.
    pub open spec fn current(&self) -> Token {
        self.toks()[self.at()].0
    }

    /// The token after the next one.
    pub open spec fn following(&self) -> Token {
        self.toks()[self.at() + 1].0
    }

    /// How many tokens are left, counting the one the parser stands on.
    pub open spec fn left(&self) -> nat {
        (self.toks().len() - self.at()) as nat
    }

    /// `self` is where `old` may get to: same tokens, not further back, and
    /// only errors added to the messages.
    pub open spec fn went_on_from(&self, old: Parser) -> bool {
        &&& self.wf()
        &&& self.toks() == old.toks()
        &&& old.at() <= self.at()
        &&& adds_errors(old.msgs(), self.msgs())
    }

    /// A parser at the first of `tokens`.
    pub fn new(tokens: Vec<SpannedToken>) -> (r: Self)
        requires
            ends_with_eof(tokens@),
        ensures
            r.wf(),
            r.toks() == tokens@,
            r.at() == 0,
            r.msgs() == Seq::<Diagnostic>::empty(),
    {
        Parser { tokens, pos: 0, diag: Diagnostics::new() }
    }

    fn peek(&self) -> (r: &Token)
        requires
            self.wf(),
        ensures
            *r == self.current(),
    {
        &self.tokens[self.pos].0
    }

    fn peek_span(&self) -> (r: Span)
        requires
            self.wf(),
        ensures
            r == self.toks()[self.at()].1,
    {
        self.tokens[self.pos].1
    }

    /// Moves to the next token and returns the one it left; on `Eof` it stays.
    fn advance(&mut self) -> (r: Token)
        requires
            old(self).wf(),
        ensures
            final(self).wf(),
            r.alike(old(self).current()),
            final(self).toks() == old(self).toks(),
            final(self).msgs() == old(self).msgs(),
            old(self).at() + 1 < old(self).toks().len() ==> final(self).at() == old(self).at() + 1,
            old(self).at() + 1 >= old(self).toks().len() ==> final(self).at() == old(self).at(),
            old(self).current() != Token::Eof ==> final(self).at() == old(self).at() + 1,
    {
        let tok = self.tokens[self.pos].0.duplicate();
        if self.pos < self.tokens.len() - 1 {
            self.pos = self.pos + 1;
        }
        tok
    }

    fn check(&self, tok: Token) -> (r: bool)
        requires
            self.wf(),
            !tok.has_text(),
        ensures
            r == (self.current() == tok),
    {
        self.peek().is(&tok)
    }

    fn expect(&mut self, tok: Token) -> (r: Span)
        requires
            old(self).wf(),
            !tok.has_text(),
            tok != Token::Eof,
        ensures
            final(self).went_on_from(*old(self)),
            r == old(self).toks()[old(self).at()].1,
            ({
                let (q, es) = expect_at(old(self).toks(), old(self).at(), tok);
                &&& final(self).at() == q
                &&& reported(old(self).msgs(), final(self).msgs(), es)
            }),
            old(self).current() == tok ==> final(self).at() == old(self).at() + 1
                && final(self).msgs() == old(self).msgs(),
            old(self).current() != tok ==> final(self).at() == old(self).at()
                && final(self).msgs().len() == old(self).msgs().len() + 1,
    {
        if self.peek().is(&tok) {
            let span = self.peek_span();
            self.advance();
            proof {
                lemma_reported_none(self.msgs());
            }
            span
        } else {
            let span = self.peek_span();
            let msg = cat(cat(cat(owned("expected "), token_debug(&tok).as_str()), ", got "),
                token_debug(self.peek()).as_str());
            let ghost m0 = self.msgs();
            self.diag.error(span, msg);
            proof {
                lemma_push_reported(m0, Diagnostic { span, message: msg, severity: Severity::Error });
            }
            span
        }
    }

    fn expect_ident(&mut self) -> (r: String)
        requires
            old(self).wf(),
        ensures
            final(self).went_on_from(*old(self)),
            ({
                let (n, q, es) = ident_at(old(self).toks(), old(self).at());
                &&& r@ == n
                &&& final(self).at() == q
                &&& reported(old(self).msgs(), final(self).msgs(), es)
            }),
            old(self).current() matches Token::Ident(w) ==> r@ == w@
                && final(self).at() == old(self).at() + 1 && final(self).msgs() == old(self).msgs(),
            !(old(self).current() is Ident) ==> r@ == Seq::<char>::empty()
                && final(self).at() == old(self).at()
                && final(self).msgs().len() == old(self).msgs().len() + 1,
    {
        if let Token::Ident(name) = self.peek() {
            let name = name.clone();
            self.advance();
            proof {
                lemma_reported_none(self.msgs());
            }
            name
        } else {
            let span = self.peek_span();
            let msg = owned("expected identifier");
            let ghost m0 = self.msgs();
            self.diag.error(span, msg);
            proof {
                lemma_push_reported(m0, Diagnostic { span, message: msg, severity: Severity::Error });
            }
            String::new()
        }
    }

    fn error_here(&mut self, msg: &str)
        requires
            old(self).wf(),
        ensures
            final(self).went_on_from(*old(self)),
            final(self).at() == old(self).at(),
            reported(old(self).msgs(), final(self).msgs(), seq![(msg@, old(self).toks()[old(self).at()].1)]),
            final(self).msgs() == old(self).msgs().push(Diagnostic {
                span: old(self).toks()[old(self).at()].1,
                message: final(self).msgs().last().message,
                severity: Severity::Error,
            }),
            final(self).msgs().last().message@ == msg@,
    {
        let span = self.peek_span();
        let m = owned(msg);
        let ghost m0 = self.msgs();
        self.diag.error(span, m);
        proof {
            lemma_push_reported(m0, Diagnostic { span, message: m, severity: Severity::Error });
        }
    }

    /// Reads declarations up to the end of the input, as the grammar's
    /// `sp_program` reads them.
    #[verifier::rlimit(50)]
    pub fn parse_program(&mut self) -> (r: AstProgram)
        requires
            old(self).wf(),
        ensures
            final(self).went_on_from(*old(self)),
            final(self).current() == Token::Eof,
            ({
                let (v, q, es) = sp_program(old(self).toks(), old(self).at());
                &&& program_view(r) == v
                &&& final(self).at() == q
                &&& reported(old(self).msgs(), final(self).msgs(), es)
            }),
            forall|i: int| 0 <= i < r.decls@.len() ==> !(#[trigger] r.decls@[i] is Enum),
    {
        let ghost ts = self.toks();
        let ghost m0 = self.msgs();
        let ghost p0 = self.at();
        let mut decls: Vec<AstDecl> = Vec::new();
        let ghost mut eacc: Seq<Msg> = seq![];
        proof {
            lemma_reported_none(m0);
            let whole = sp_program(ts, p0);
            assert(program_view(AstProgram { decls }) =~= Seq::<DeclB>::empty());
            assert(whole.0 =~= program_view(AstProgram { decls }) + whole.0);
            assert(whole.2 =~= eacc + whole.2);
        }
        while !self.check(Token::Eof)
            invariant
                self.went_on_from(*old(self)),
                ts == self.toks(),
                p0 <= self.at(),
                reported(m0, self.msgs(), eacc),
                forall|i: int| 0 <= i < decls@.len() ==> !(#[trigger] decls@[i] is Enum),
                ({
                    let whole = sp_program(ts, p0);
                    let rest = sp_program(ts, self.at());
                    &&& whole.0 == program_view(AstProgram { decls }) + rest.0
                    &&& whole.1 == rest.1
                    &&& whole.2 == eacc + rest.2
                }),
            decreases self.left(),
        {
            let ghost h = self.at();
            let ghost mh = self.msgs();
            let ghost old_view = program_view(AstProgram { decls });
            let ghost dv = sp_decl(ts, h);
            let item = self.parse_declaration();
            let ghost here: Seq<DeclB> = match dv.0 { Some(x) => seq![x], None => seq![] };
            if let Some(decl) = item {
                decls.push(decl);
            } else {
                self.advance();
            }
            proof {
                let whole = sp_program(ts, p0);
                let restq = sp_program(ts, self.at());
                assert(sp_program(ts, h) == (here + restq.0, restq.1, dv.2 + restq.2));
                assert(program_view(AstProgram { decls }) =~= old_view + here);
                assert(whole.0 =~= program_view(AstProgram { decls }) + restq.0);
                lemma_reported_chain(m0, mh, self.msgs(), eacc, dv.2);
                assert(whole.2 =~= (eacc + dv.2) + restq.2);
                eacc = eacc + dv.2;
            }
        }
        proof {
            let whole = sp_program(ts, p0);
            assert(sp_program(ts, self.at()) == (Seq::<DeclB>::empty(), self.at(), Seq::<Msg>::empty()));
            assert(whole.0 =~= program_view(AstProgram { decls }));
            assert(whole.2 =~= eacc);
        }
        AstProgram { decls }
    }

    fn parse_declaration(&mut self) -> (r: Option<AstDecl>)
        requires
            old(self).wf(),
            old(self).current() != Token::Eof,
        ensures
            final(self).went_on_from(*old(self)),
            ({
                let (v, q, es) = sp_decl(old(self).toks(), old(self).at());
                &&& (match r { Some(d) => v == Some(decl_view(d)), None => v is None })
                &&& final(self).at() == q
                &&& reported(old(self).msgs(), final(self).msgs(), es)
            }),
            r is Some ==> final(self).at() > old(self).at(),
            !(r matches Some(AstDecl::Enum(_))),
    {
        let ghost ts = self.toks();
        let ghost m0 = self.msgs();
        let pub_ = if self.check(Token::Pub) { self.advance(); true } else { false };
        if self.check(Token::Func) {
            Some(AstDecl::Func(self.parse_func_decl(pub_)))
        } else if self.check(Token::Static) {
            self.advance();
            let ghost p2 = self.at();
            let sname = self.expect_ident();
            let ghost m1 = self.msgs();
            let ghost p3 = self.at();
            self.expect(Token::Colon);
            let ghost m2 = self.msgs();
            let ghost p4 = self.at();
            let _stype = self.parse_type();
            let ghost m3 = self.msgs();
            let ghost p5 = self.at();
            self.expect(Token::Semicolon);
            let d = AstStructDecl { name: sname, fields: Vec::new() };
            proof {
                let e1 = ident_at(ts, p2).2;
                let e2 = expect_at(ts, p3, Token::Colon).1;
                let e3 = sp_type(ts, p4).2;
                let e4 = expect_at(ts, p5, Token::Semicolon).1;
                lemma_reported_chain(m0, m1, m2, e1, e2);
                lemma_reported_chain(m0, m2, m3, e1 + e2, e3);
                lemma_reported_chain(m0, m3, self.msgs(), e1 + e2 + e3, e4);
                assert(d.fields@.map_values(|f: AstField| field_view(f)) =~= Seq::<(Seq<char>, TypeB)>::empty());
            }
            Some(AstDecl::Struct(d))
        } else {
            self.error_here("expected declaration");
            None
        }
    }

    fn parse_func_decl(&mut self, pub_: bool) -> (r: AstFuncDecl)
        requires
            old(self).wf(),
            old(self).current() == Token::Func,
        ensures
            final(self).went_on_from(*old(self)),
            final(self).at() > old(self).at(),
            ({
                let (v, q, es) = sp_func(old(self).toks(), old(self).at(), pub_);
                &&& decl_view(AstDecl::Func(r)) == v
                &&& final(self).at() == q
                &&& reported(old(self).msgs(), final(self).msgs(), es)
            }),
    {
        let ghost ts = self.toks();
        let ghost m0 = self.msgs();
        self.expect(Token::Func);
        let ghost p1 = self.at();
        let name = self.expect_ident();
        let ghost m2 = self.msgs();
        let ghost p2 = self.at();
        self.expect(Token::OpenParen);
        let ghost m3 = self.msgs();
        let ghost p3 = self.at();
        let return_type = self.parse_type();
        let ghost m4 = self.msgs();
        let ghost p4 = self.at();
        let params = self.parse_params();
        let ghost m5 = self.msgs();
        let ghost p5 = self.at();
        self.expect(Token::CloseParen);
        let ghost m6 = self.msgs();
        let ghost p6 = self.at();
        let body = self.parse_block();
        proof {
            let e1 = expect_at(ts, old(self).at(), Token::Func).1;
            let e2 = ident_at(ts, p1).2;
            let e3 = expect_at(ts, p2, Token::OpenParen).1;
            let e4 = sp_type(ts, p3).2;
            let e5 = if tok_at(ts, p4) == Token::Comma { sp_params(ts, step(ts, p4)).2 } else { Seq::<Msg>::empty() };
            let e6 = expect_at(ts, p5, Token::CloseParen).1;
            let e7 = sp_block(ts, p6).2;
            assert(e1 == Seq::<Msg>::empty());
            lemma_reported_chain(m0, m2, m3, e1 + e2, e3);
            lemma_reported_chain(m0, m3, m4, e1 + e2 + e3, e4);
            lemma_reported_chain(m0, m4, m5, e1 + e2 + e3 + e4, e5);
            lemma_reported_chain(m0, m5, m6, e1 + e2 + e3 + e4 + e5, e6);
            lemma_reported_chain(m0, m6, self.msgs(), e1 + e2 + e3 + e4 + e5 + e6, e7);
        }
        AstFuncDecl { pub_, name, return_type, params, body }
    }

    /// The parameters of a function: when a comma follows the return type,
    /// names with types separated by commas.
    fn parse_params(&mut self) -> (r: Vec<AstParam>)
        requires
            old(self).wf(),
        ensures
            final(self).went_on_from(*old(self)),
            ({
                let (v, q, es) = if tok_at(old(self).toks(), old(self).at()) == Token::Comma {
                    sp_params(old(self).toks(), step(old(self).toks(), old(self).at()))
                } else {
                    (Seq::<(Seq<char>, TypeB)>::empty(), old(self).at(), Seq::<Msg>::empty())
                };
                &&& r@.map_values(|p: AstParam| param_view(p)) == v
                &&& final(self).at() == q
                &&& reported(old(self).msgs(), final(self).msgs(), es)
            }),
    {
        let ghost ts = self.toks();
        let ghost m0 = self.msgs();
        let mut params: Vec<AstParam> = Vec::new();
        proof {
            lemma_reported_none(m0);
            assert(params@.map_values(|p: AstParam| param_view(p)) =~= Seq::<(Seq<char>, TypeB)>::empty());
        }
        if !self.check(Token::Comma) {
            return params;
        }
        self.advance();
        let ghost p0 = self.at();
        let ghost mut eacc: Seq<Msg> = seq![];
        proof {
            let whole = sp_params(ts, p0);
            assert(whole.0 =~= params@.map_values(|p: AstParam| param_view(p)) + whole.0);
            assert(whole.2 =~= eacc + whole.2);
        }
        while !self.check(Token::CloseParen) && !self.check(Token::Eof)
            invariant_except_break
                ({
                    let whole = sp_params(ts, p0);
                    let rest = sp_params(ts, self.at());
                    &&& whole.0 == params@.map_values(|p: AstParam| param_view(p)) + rest.0
                    &&& whole.1 == rest.1
                    &&& whole.2 == eacc + rest.2
                }),
            invariant
                self.went_on_from(*old(self)),
                ts == self.toks(),
                p0 <= self.at(),
                reported(m0, self.msgs(), eacc),
            ensures
                ({
                    let whole = sp_params(ts, p0);
                    &&& whole.0 == params@.map_values(|p: AstParam| param_view(p))
                    &&& whole.1 == self.at()
                    &&& whole.2 == eacc
                }),
            decreases self.left(),
        {
            let ghost h = self.at();
            let ghost mh = self.msgs();
            let ghost old_params = params@;
            let param_name = self.expect_ident();
            let ghost m1 = self.msgs();
            let ghost q1 = self.at();
            self.expect(Token::Colon);
            let ghost m2 = self.msgs();
            let ghost q2 = self.at();
            let param_type = self.parse_type();
            let ghost q3 = self.at();
            let prm = AstParam { name: param_name, type_: param_type };
            params.push(prm);
            let ghost e1 = ident_at(ts, h).2;
            let ghost e2 = expect_at(ts, q1, Token::Colon).1;
            let ghost e3 = sp_type(ts, q2).2;
            let ghost pv = (ident_at(ts, h).0, sp_type(ts, q2).0);
            proof {
                assert(param_view(prm) == pv);
                assert(params@.map_values(|p: AstParam| param_view(p))
                    =~= old_params.map_values(|p: AstParam| param_view(p)).push(pv));
                lemma_reported_chain(mh, m1, m2, e1, e2);
                lemma_reported_chain(mh, m2, self.msgs(), e1 + e2, e3);
                lemma_reported_chain(m0, mh, self.msgs(), eacc, e1 + e2 + e3);
            }
            if self.check(Token::Comma) {
                self.advance();
                proof {
                    let whole = sp_params(ts, p0);
                    let restq = sp_params(ts, self.at());
                    assert(sp_params(ts, h) == (seq![pv] + restq.0, restq.1, e1 + e2 + e3 + restq.2));
                    assert(whole.0 =~= params@.map_values(|p: AstParam| param_view(p)) + restq.0);
                    assert(whole.2 =~= (eacc + (e1 + e2 + e3)) + restq.2);
                    eacc = eacc + (e1 + e2 + e3);
                }
            } else {
                proof {
                    let whole = sp_params(ts, p0);
                    assert(sp_params(ts, h) == (seq![pv], q3, e1 + e2 + e3));
                    assert(whole.0 =~= params@.map_values(|p: AstParam| param_view(p)));
                    assert(whole.2 =~= eacc + (e1 + e2 + e3));
                    eacc = eacc + (e1 + e2 + e3);
                }
                break;
            }
        }
        proof {
            let whole = sp_params(ts, p0);
            assert(whole.2 =~= eacc);
        }
        params
    }

    fn parse_block(&mut self) -> (r: AstBlock)
        requires
            old(self).wf(),
        ensures
            final(self).went_on_from(*old(self)),
            old(self).current() == Token::OpenBrace ==> final(self).at() > old(self).at(),
            ({
                let (v, q, es) = sp_block(old(self).toks(), old(self).at());
                &&& stmts_view(r.stmts@) == v
                &&& final(self).at() == q
                &&& reported(old(self).msgs(), final(self).msgs(), es)
            }),
        decreases old(self).left(), if old(self).current() == Token::OpenBrace { 0nat } else { 6nat },
    {
        let ghost ts = self.toks();
        let ghost m0 = self.msgs();
        self.expect(Token::OpenBrace);
        let ghost m1 = self.msgs();
        let ghost p1 = self.at();
        let mut stmts: Vec<AstStmt> = Vec::new();
        let ghost mut eacc: Seq<Msg> = seq![];
        proof {
            lemma_reported_none(m1);
            let whole = sp_stmts(ts, p1);
            assert(stmts_view(stmts@) =~= Seq::<StmtB>::empty());
            assert(whole.0 =~= stmts_view(stmts@) + whole.0);
            assert(whole.2 =~= eacc + whole.2);
        }
        while !self.check(Token::CloseBrace) && !self.check(Token::Eof)
            invariant
                self.went_on_from(*old(self)),
                ts == self.toks(),
                p1 <= self.at(),
                old(self).current() == Token::OpenBrace ==> self.at() > old(self).at(),
                reported(m1, self.msgs(), eacc),
                ({
                    let whole = sp_stmts(ts, p1);
                    let rest = sp_stmts(ts, self.at());
                    &&& whole.0 == stmts_view(stmts@) + rest.0
                    &&& whole.1 == rest.1
                    &&& whole.2 == eacc + rest.2
                }),
            decreases self.left(),
        {
            let ghost h = self.at();
            let ghost mh = self.msgs();
            let ghost old_seq = stmts@;
            let st = self.parse_statement();
            let ghost sv = sp_stmt(ts, h);
            stmts.push(st);
            proof {
                let whole = sp_stmts(ts, p1);
                let restq = sp_stmts(ts, sv.1);
                assert(sp_stmts(ts, h) == (seq![sv.0] + restq.0, restq.1, sv.2 + restq.2));
                assert(stmts@.drop_last() =~= old_seq);
                assert(stmts_view(stmts@) == stmts_view(old_seq).push(sv.0));
                assert(whole.0 =~= stmts_view(stmts@) + restq.0);
                lemma_reported_chain(m1, mh, self.msgs(), eacc, sv.2);
                assert(whole.2 =~= (eacc + sv.2) + restq.2);
                eacc = eacc + sv.2;
            }
        }
        let ghost q = self.at();
        let ghost mq = self.msgs();
        self.expect(Token::CloseBrace);
        proof {
            let whole = sp_stmts(ts, p1);
            assert(sp_stmts(ts, q) == (Seq::<StmtB>::empty(), q, Seq::<Msg>::empty()));
            assert(whole.0 =~= stmts_view(stmts@));
            assert(whole.2 =~= eacc);
            let e1 = expect_at(ts, old(self).at(), Token::OpenBrace).1;
            lemma_reported_chain(m0, m1, mq, e1, eacc);
            lemma_reported_chain(m0, mq, self.msgs(), e1 + eacc, expect_at(ts, q, Token::CloseBrace).1);
        }
        AstBlock { stmts }
    }

    /// An expression followed by a semicolon.
    fn parse_expr_semi(&mut self) -> (r: AstExpr)
        requires
            old(self).wf(),
        ensures
            final(self).went_on_from(*old(self)),
            old(self).current() != Token::Eof ==> final(self).at() > old(self).at(),
            ({
                let (v, q, es) = sp_expr_semi(old(self).toks(), old(self).at());
                &&& expr_view(r) == v
                &&& final(self).at() == q
                &&& reported(old(self).msgs(), final(self).msgs(), es)
            }),
    {
        let ghost ts = self.toks();
        let ghost m0 = self.msgs();
        let e = self.parse_expr();
        let ghost q = self.at();
        let ghost m1 = self.msgs();
        self.expect(Token::Semicolon);
        proof {
            lemma_reported_chain(m0, m1, self.msgs(), sp_expr(ts, old(self).at(), 0).2, expect_at(ts, q, Token::Semicolon).1);
        }
        e
    }

    /// The keyword and parenthesised condition of an `if` or `while`.
    fn parse_cond(&mut self) -> (r: AstExpr)
        requires
            old(self).wf(),
            old(self).current() == Token::If || old(self).current() == Token::While,
        ensures
            final(self).went_on_from(*old(self)),
            final(self).at() > old(self).at(),
            ({
                let (v, q, es) = sp_cond(old(self).toks(), old(self).at());
                &&& expr_view(r) == v
                &&& final(self).at() == q
                &&& reported(old(self).msgs(), final(self).msgs(), es)
            }),
    {
        let ghost ts = self.toks();
        let ghost m0 = self.msgs();
        self.advance();
        let ghost p1 = self.at();
        self.expect(Token::OpenParen);
        let ghost m1 = self.msgs();
        let ghost p2 = self.at();
        let cond = self.parse_expr();
        let ghost m2 = self.msgs();
        let ghost p3 = self.at();
        self.expect(Token::CloseParen);
        proof {
            let e1 = expect_at(ts, p1, Token::OpenParen).1;
            let e2 = sp_expr(ts, p2, 0).2;
            let e3 = expect_at(ts, p3, Token::CloseParen).1;
            lemma_reported_chain(m0, m1, m2, e1, e2);
            lemma_reported_chain(m0, m2, self.msgs(), e1 + e2, e3);
        }
        cond
    }

    fn parse_let(&mut self) -> (r: AstStmt)
        requires
            old(self).wf(),
            old(self).current() == Token::Let,
        ensures
            final(self).went_on_from(*old(self)),
            final(self).at() > old(self).at(),
            ({
                let (v, q, es) = sp_stmt(old(self).toks(), old(self).at());
                &&& stmt_view(r) == v
                &&& final(self).at() == q
                &&& reported(old(self).msgs(), final(self).msgs(), es)
            }),
    {
        let ghost ts = self.toks();
        let ghost m0 = self.msgs();
        let ghost p0 = self.at();
        self.advance();
        let ghost p1 = self.at();
        let name = self.expect_ident();
        let ghost m1 = self.msgs();
        let ghost p2 = self.at();
        self.expect(Token::Colon);
        let ghost m2 = self.msgs();
        let ghost p3 = self.at();
        let type_ = self.parse_type();
        let ghost m3 = self.msgs();
        let ghost p4 = self.at();
        let init = if self.check(Token::Eq) {
            self.advance();
            Some(self.parse_expr())
        } else {
            proof {
                lemma_reported_none(m3);
            }
            None
        };
        let ghost m4 = self.msgs();
        let ghost p5 = self.at();
        self.expect(Token::Semicolon);
        proof {
            let e1 = ident_at(ts, p1).2;
            let e2 = expect_at(ts, p2, Token::Colon).1;
            let e3 = sp_type(ts, p3).2;
            let e4 = if tok_at(ts, p4) == Token::Eq { sp_expr(ts, step(ts, p4), 0).2 } else { Seq::<Msg>::empty() };
            let e5 = expect_at(ts, p5, Token::Semicolon).1;
            lemma_reported_chain(m0, m1, m2, e1, e2);
            lemma_reported_chain(m0, m2, m3, e1 + e2, e3);
            lemma_reported_chain(m0, m3, m4, e1 + e2 + e3, e4);
            lemma_reported_chain(m0, m4, self.msgs(), e1 + e2 + e3 + e4, e5);
        }
        AstStmt::VarDecl(AstVarDecl { name, type_, init })
    }

    /// What may follow the block of an `if` that starts at `p`.
    fn parse_if_else(&mut self, Ghost(p): Ghost<int>) -> (r: Option<Box<AstStmt>>)
        requires
            old(self).wf(),
            0 <= p < old(self).at(),
        ensures
            final(self).went_on_from(*old(self)),
            ({
                let (v, q, es) = sp_if_else(old(self).toks(), old(self).at(), p);
                &&& (match r { Some(b) => v == Some(Box::new(stmt_view(*b))), None => v is None })
                &&& final(self).at() == q
                &&& reported(old(self).msgs(), final(self).msgs(), es)
            }),
        decreases old(self).left(), 3nat,
    {
        if self.check(Token::Else) {
            self.advance();
            if self.check(Token::If) {
                Some(Box::new(self.parse_statement()))
            } else {
                let block = self.parse_block();
                Some(Box::new(AstStmt::Block(block)))
            }
        } else {
            proof {
                lemma_reported_none(self.msgs());
            }
            None
        }
    }

    fn parse_if(&mut self) -> (r: AstStmt)
        requires
            old(self).wf(),
            old(self).current() == Token::If,
        ensures
            final(self).went_on_from(*old(self)),
            final(self).at() > old(self).at(),
            ({
                let (v, q, es) = sp_stmt(old(self).toks(), old(self).at());
                &&& stmt_view(r) == v
                &&& final(self).at() == q
                &&& reported(old(self).msgs(), final(self).msgs(), es)
            }),
        decreases old(self).left(), 4nat,
    {
        let ghost ts = self.toks();
        let ghost m0 = self.msgs();
        let ghost p0 = self.at();
        let cond = self.parse_cond();
        let ghost m1 = self.msgs();
        let ghost p4 = self.at();
        let then_block = self.parse_block();
        let ghost m2 = self.msgs();
        let ghost p5 = self.at();
        let else_branch = self.parse_if_else(Ghost(p0));
        proof {
            let e1 = sp_cond(ts, p0).2;
            let e2 = sp_block(ts, p4).2;
            let e3 = sp_if_else(ts, p5, p0).2;
            lemma_reported_chain(m0, m1, m2, e1, e2);
            lemma_reported_chain(m0, m2, self.msgs(), e1 + e2, e3);
        }
        AstStmt::If(AstIf { cond, then_block, else_branch })
    }

    #[verifier::rlimit(60)]
    fn parse_statement(&mut self) -> (r: AstStmt)
        requires
            old(self).wf(),
        ensures
            final(self).went_on_from(*old(self)),
            old(self).current() != Token::Eof ==> final(self).at() > old(self).at(),
            ({
                let (v, q, es) = sp_stmt(old(self).toks(), old(self).at());
                &&& stmt_view(r) == v
                &&& final(self).at() == q
                &&& reported(old(self).msgs(), final(self).msgs(), es)
            }),
        decreases old(self).left(), 5nat,
    {
        let ghost ts = self.toks();
        let ghost m0 = self.msgs();
        let ghost p0 = self.at();
        if self.check(Token::Return) {
            self.advance();
            let expr = if !self.check(Token::Semicolon) {
                Some(self.parse_expr_semi())
            } else {
                self.expect(Token::Semicolon);
                None
            };
            AstStmt::Return(expr)
        } else if self.check(Token::Let) {
            self.parse_let()
        } else if self.check(Token::If) {
            self.parse_if()
        } else if self.check(Token::While) {
            let cond = self.parse_cond();
            let ghost m1 = self.msgs();
            let ghost p4 = self.at();
            let body = self.parse_block();
            proof {
                lemma_reported_chain(m0, m1, self.msgs(), sp_cond(ts, p0).2, sp_block(ts, p4).2);
            }
            AstStmt::While(AstWhile { cond, body })
        } else if self.check(Token::OpenBrace) {
            AstStmt::Block(self.parse_block())
        } else {
            let expr = self.parse_expr_semi();
            AstStmt::Expr(expr)
        }
    }

    fn parse_expr(&mut self) -> (r: AstExpr)
        requires
            old(self).wf(),
        ensures
            final(self).went_on_from(*old(self)),
            old(self).current() != Token::Eof ==> final(self).at() > old(self).at(),
            ({
                let (v, q, es) = sp_expr(old(self).toks(), old(self).at(), 0);
                &&& expr_view(r) == v
                &&& final(self).at() == q
                &&& reported(old(self).msgs(), final(self).msgs(), es)
            }),
        decreases old(self).left(), 3nat,
    {
        self.parse_expr_bp(0)
    }

    /// The arguments of a call, after its opening parenthesis and up to
    /// (not including) the closing one.
    fn parse_call_args(&mut self) -> (r: Vec<AstExpr>)
        requires
            old(self).wf(),
        ensures
            final(self).went_on_from(*old(self)),
            ({
                let (v, q, es) = sp_call_args(old(self).toks(), old(self).at());
                &&& exprs_view(r@) == v
                &&& final(self).at() == q
                &&& reported(old(self).msgs(), final(self).msgs(), es)
            }),
        decreases old(self).left(), 4nat,
    {
        let ghost ts = self.toks();
        let ghost m0 = self.msgs();
        let ghost p0 = self.at();
        let mut args: Vec<AstExpr> = Vec::new();
        if self.check(Token::CloseParen) {
            proof {
                lemma_reported_none(m0);
            }
            return args;
        }
        let first = self.parse_expr();
        let ghost qa = self.at();
        let ghost mqa = self.msgs();
        let ghost a_first = sp_expr(ts, p0, 0);
        proof {
            assert(expr_view(first) == a_first.0);
        }
        args.push(first);
        let ghost mut erest: Seq<Msg> = seq![];
        proof {
            lemma_reported_none(mqa);
            assert(args@.drop_last() =~= Seq::<AstExpr>::empty());
            assert(exprs_view(args@.drop_last()) == Seq::<ExprB>::empty());
            assert(expr_view(args@.last()) == a_first.0);
            assert(exprs_view(args@) =~= seq![a_first.0]);
            assert(exprs_view(args@).drop_first() =~= Seq::<ExprB>::empty());
            let r0 = sp_args_rest(ts, qa);
            assert(r0.0 =~= exprs_view(args@).drop_first() + r0.0);
            assert(r0.2 =~= erest + r0.2);
        }
        while self.check(Token::Comma)
            invariant
                self.went_on_from(*old(self)),
                ts == self.toks(),
                qa <= self.at(),
                args@.len() >= 1,
                exprs_view(args@)[0] == a_first.0,
                reported(mqa, self.msgs(), erest),
                ({
                    let whole = sp_args_rest(ts, qa);
                    let rest = sp_args_rest(ts, self.at());
                    &&& whole.0 == exprs_view(args@).drop_first() + rest.0
                    &&& whole.1 == rest.1
                    &&& whole.2 == erest + rest.2
                }),
            decreases self.left(),
        {
            let ghost h = self.at();
            let ghost mh = self.msgs();
            let ghost old_seq = args@;
            let ghost old_args = exprs_view(args@);
            self.advance();
            let next = self.parse_expr();
            let ghost an = sp_expr(ts, h + 1, 0);
            args.push(next);
            proof {
                let whole = sp_args_rest(ts, qa);
                let restq = sp_args_rest(ts, an.1);
                assert(sp_args_rest(ts, h) == (seq![an.0] + restq.0, restq.1, an.2 + restq.2));
                assert(args@.drop_last() =~= old_seq);
                assert(exprs_view(args@) == old_args.push(an.0));
                assert(exprs_view(args@).drop_first() =~= old_args.drop_first().push(an.0));
                assert(whole.0 =~= exprs_view(args@).drop_first() + restq.0);
                lemma_reported_chain(mqa, mh, self.msgs(), erest, an.2);
                assert(whole.2 =~= (erest + an.2) + restq.2);
                erest = erest + an.2;
            }
        }
        proof {
            assert(sp_args_rest(ts, self.at()) == (Seq::<ExprB>::empty(), self.at(), Seq::<Msg>::empty()));
            assert(exprs_view(args@) =~= seq![a_first.0] + exprs_view(args@).drop_first());
            lemma_reported_chain(m0, mqa, self.msgs(), a_first.2, erest);
        }
        args
    }

    #[verifier::rlimit(50)]
    fn parse_expr_bp(&mut self, min_bp: u8) -> (r: AstExpr)
        requires
            old(self).wf(),
        ensures
            final(self).went_on_from(*old(self)),
            old(self).current() != Token::Eof ==> final(self).at() > old(self).at(),
            ({
                let (v, q, es) = sp_expr(old(self).toks(), old(self).at(), min_bp);
                &&& expr_view(r) == v
                &&& final(self).at() == q
                &&& reported(old(self).msgs(), final(self).msgs(), es)
            }),
        decreases old(self).left(), 2nat,
    {
        let ghost ts = self.toks();
        let ghost p0 = self.at();
        let mut lhs = self.parse_prefix();
        let ghost m1 = self.msgs();
        let ghost p1 = self.at();
        let ghost pre = sp_prefix(ts, p0);
        let ghost fin = sp_infix(ts, p1, min_bp, pre.0);
        let ghost mut eacc: Seq<Msg> = seq![];
        proof {
            lemma_reported_none(m1);
            assert(fin.2 =~= eacc + fin.2);
        }
        loop
            invariant
                self.went_on_from(*old(self)),
                ts == self.toks(),
                p1 <= self.at(),
                old(self).current() != Token::Eof ==> self.at() > old(self).at(),
                reported(m1, self.msgs(), eacc),
                ({
                    let cur = sp_infix(ts, self.at(), min_bp, expr_view(lhs));
                    &&& fin.0 == cur.0
                    &&& fin.1 == cur.1
                    &&& fin.2 == eacc + cur.2
                }),
            ensures
                self.went_on_from(*old(self)),
                old(self).current() != Token::Eof ==> self.at() > old(self).at(),
                reported(m1, self.msgs(), eacc),
                fin.0 == expr_view(lhs),
                fin.1 == self.at(),
                fin.2 == eacc,
            decreases self.left(),
        {
            let ghost a0 = self.at();
            let ghost ma = self.msgs();
            let ghost lv = expr_view(lhs);
            let ghost cur = sp_infix(ts, a0, min_bp, lv);
            let infix = self.peek_infix_bp();
            match infix {
                Some((InfixKind::Binary(op), l_bp, r_bp)) => {
                    if l_bp < min_bp {
                        proof {
                            assert(eacc + cur.2 =~= eacc);
                        }
                        break;
                    }
                    self.advance();
                    let rhs = self.parse_expr_bp(r_bp);
                    lhs = AstExpr::Binary(op, Box::new(lhs), Box::new(rhs));
                    proof {
                        let rv = sp_expr(ts, a0 + 1, r_bp);
                        lemma_reported_chain(m1, ma, self.msgs(), eacc, rv.2);
                        let nxt = sp_infix(ts, self.at(), min_bp, expr_view(lhs));
                        assert(cur.2 == rv.2 + nxt.2);
                        assert(fin.2 =~= (eacc + rv.2) + nxt.2);
                        eacc = eacc + rv.2;
                    }
                },
                Some((InfixKind::Call, l_bp, _)) => {
                    if l_bp < min_bp {
                        proof {
                            assert(eacc + cur.2 =~= eacc);
                        }
                        break;
                    }
                    self.advance();
                    let args = self.parse_call_args();
                    let ghost q2 = self.at();
                    let ghost mc = self.msgs();
                    self.expect(Token::CloseParen);
                    let ghost q3 = self.at();
                    let ghost md = self.msgs();
                    let ghost e1 = sp_call_args(ts, a0 + 1).2;
                    let ghost e2 = expect_at(ts, q2, Token::CloseParen).1;
                    let ghost e3: Seq<Msg> = match lv {
                        ExprB::Ident(_) => Seq::<Msg>::empty(),
                        _ => seq![("callee must be identifier"@, span_at(ts, q3))],
                    };
                    match lhs {
                        AstExpr::Ident(name) => {
                            lhs = AstExpr::Call(name, args);
                            proof {
                                lemma_reported_none(md);
                            }
                        },
                        other => {
                            self.error_here("callee must be identifier");
                            lhs = other;
                        },
                    }
                    proof {
                        lemma_reported_chain(ma, mc, md, e1, e2);
                        lemma_reported_chain(ma, md, self.msgs(), e1 + e2, e3);
                        lemma_reported_chain(m1, ma, self.msgs(), eacc, e1 + e2 + e3);
                        let nxt = sp_infix(ts, self.at(), min_bp, expr_view(lhs));
                        assert(cur.2 == e1 + e2 + e3 + nxt.2);
                        assert(fin.2 =~= (eacc + (e1 + e2 + e3)) + nxt.2);
                        eacc = eacc + (e1 + e2 + e3);
                    }
                },
                Some((InfixKind::Assign, _, r_bp)) => {
                    if r_bp < min_bp {
                        proof {
                            assert(eacc + cur.2 =~= eacc);
                        }
                        break;
                    }
                    self.advance();
                    let rhs = self.parse_expr_bp(r_bp);
                    lhs = AstExpr::Assign(Box::new(lhs), Box::new(rhs));
                    proof {
                        let rv = sp_expr(ts, a0 + 1, r_bp);
                        lemma_reported_chain(m1, ma, self.msgs(), eacc, rv.2);
                        let nxt = sp_infix(ts, self.at(), min_bp, expr_view(lhs));
                        assert(cur.2 == rv.2 + nxt.2);
                        assert(fin.2 =~= (eacc + rv.2) + nxt.2);
                        eacc = eacc + rv.2;
                    }
                },
                None => {
                    proof {
                        assert(eacc + cur.2 =~= eacc);
                    }
                    break;
                },
            }
        }
        proof {
            lemma_reported_chain(old(self).msgs(), m1, self.msgs(), pre.2, eacc);
        }
        lhs
    }

    fn parse_prefix(&mut self) -> (r: AstExpr)
        requires
            old(self).wf(),
        ensures
            final(self).went_on_from(*old(self)),
            old(self).current() != Token::Eof ==> final(self).at() > old(self).at(),
            ({
                let (v, q, es) = sp_prefix(old(self).toks(), old(self).at());
                &&& expr_view(r) == v
                &&& final(self).at() == q
                &&& reported(old(self).msgs(), final(self).msgs(), es)
            }),
        decreases old(self).left(), 1nat,
    {
        let ghost ts = self.toks();
        let ghost m0 = self.msgs();
        proof {
            lemma_reported_none(m0);
        }
        match self.peek() {
            Token::NumLiteral(n) => {
                let v = match parse_i64(n.as_str()) {
                    Some(v) => v,
                    None => 0,
                };
                self.advance();
                AstExpr::Int(v)
            },
            Token::True => {
                self.advance();
                AstExpr::Bool(true)
            },
            Token::False => {
                self.advance();
                AstExpr::Bool(false)
            },
            Token::Minus => {
                self.advance();
                let expr = self.parse_expr_bp(8);
                AstExpr::Unary(UnaryOp::Neg, Box::new(expr))
            },
            Token::Bang => {
                self.advance();
                let expr = self.parse_expr_bp(8);
                AstExpr::Unary(UnaryOp::Not, Box::new(expr))
            },
            Token::OpenParen => {
                self.advance();
                let expr = self.parse_expr();
                let ghost q = self.at();
                let ghost m1 = self.msgs();
                self.expect(Token::CloseParen);
                proof {
                    lemma_reported_chain(m0, m1, self.msgs(), sp_expr(ts, old(self).at() + 1, 0).2,
                        expect_at(ts, q, Token::CloseParen).1);
                }
                expr
            },
            Token::Ident(name) => {
                let name = name.clone();
                self.advance();
                if crate::text::same_text(name.as_str(), "cast") && self.check(Token::OpenParen) {
                    self.advance();
                    let ghost p2 = self.at();
                    let type_ = self.parse_type();
                    let ghost q = self.at();
                    let ghost m1 = self.msgs();
                    self.expect(Token::Comma);
                    let ghost q2 = self.at();
                    let ghost m2 = self.msgs();
                    let expr = self.parse_expr();
                    let ghost q3 = self.at();
                    let ghost m3 = self.msgs();
                    self.expect(Token::CloseParen);
                    proof {
                        let e1 = sp_type(ts, p2).2;
                        let e2 = expect_at(ts, q, Token::Comma).1;
                        let e3 = sp_expr(ts, q2, 0).2;
                        let e4 = expect_at(ts, q3, Token::CloseParen).1;
                        lemma_reported_chain(m0, m1, m2, e1, e2);
                        lemma_reported_chain(m0, m2, m3, e1 + e2, e3);
                        lemma_reported_chain(m0, m3, self.msgs(), e1 + e2 + e3, e4);
                    }
                    AstExpr::Cast(Box::new(type_), Box::new(expr))
                } else {
                    AstExpr::Ident(name)
                }
            },
            _ => {
                self.error_here("expected expression");
                self.advance();
                AstExpr::Int(0)
            },
        }
    }

    fn peek_infix_bp(&self) -> (r: Option<(InfixKind, u8, u8)>)
        requires
            self.wf(),
        ensures
            r.is_some() == spec_infix(self.current()).is_some(),
            r matches Some((k, l, b)) ==> {
                &&& spec_infix(self.current()) == Some((l, b))
                &&& (k matches InfixKind::Binary(op) ==> spec_binary_op(self.current()) == Some(op))
                &&& (k is Call <==> self.current() == Token::OpenParen)
                &&& (k is Assign <==> self.current() == Token::Eq)
                &&& (k is Binary <==> spec_binary_op(self.current()).is_some())
            },
    {
        match self.peek() {
            Token::Eq => Some((InfixKind::Assign, 0, 1)),
            Token::PipePipe => Some((InfixKind::Binary(BinaryOp::Or), 2, 3)),
            Token::AndAnd => Some((InfixKind::Binary(BinaryOp::And), 3, 4)),
            Token::EqEq => Some((InfixKind::Binary(BinaryOp::Eq), 4, 5)),
            Token::BangEq => Some((InfixKind::Binary(BinaryOp::Neq), 4, 5)),
            Token::Lt => Some((InfixKind::Binary(BinaryOp::Lt), 5, 6)),
            Token::Gt => Some((InfixKind::Binary(BinaryOp::Gt), 5, 6)),
            Token::LtEq => Some((InfixKind::Binary(BinaryOp::Le), 5, 6)),
            Token::GtEq => Some((InfixKind::Binary(BinaryOp::Ge), 5, 6)),
            Token::Plus => Some((InfixKind::Binary(BinaryOp::Add), 6, 7)),
            Token::Minus => Some((InfixKind::Binary(BinaryOp::Sub), 6, 7)),
            Token::Star => Some((InfixKind::Binary(BinaryOp::Mul), 7, 8)),
            Token::Slash => Some((InfixKind::Binary(BinaryOp::Div), 7, 8)),
            Token::OpenParen => Some((InfixKind::Call, 9, 9)),
            _ => None,
        }
    }

    /// Reads a type, as the grammar's `sp_type` reads it.
    pub fn parse_type(&mut self) -> (r: AstType)
        requires
            old(self).wf(),
        ensures
            final(self).went_on_from(*old(self)),
            old(self).current() != Token::Eof ==> final(self).at() > old(self).at(),
            ({
                let (v, q, es) = sp_type(old(self).toks(), old(self).at());
                &&& type_view(r) == v
                &&& final(self).at() == q
                &&& reported(old(self).msgs(), final(self).msgs(), es)
            }),
        decreases old(self).left(), 4nat,
    {
        let ghost ts = self.toks();
        let ghost m0 = self.msgs();
        proof {
            lemma_reported_none(m0);
        }
        match self.peek() {
            Token::I32 => { self.advance(); AstType::Prim(PrimType::I32) },
            Token::I64 => { self.advance(); AstType::Prim(PrimType::I64) },
            Token::U32 => { self.advance(); AstType::Prim(PrimType::U32) },
            Token::U64 => { self.advance(); AstType::Prim(PrimType::U64) },
            Token::I8 => { self.advance(); AstType::Prim(PrimType::I8) },
            Token::U8 => { self.advance(); AstType::Prim(PrimType::U8) },
            Token::Bool => { self.advance(); AstType::Prim(PrimType::Bool) },
            Token::Void => { self.advance(); AstType::Prim(PrimType::Void) },
            Token::Char => { self.advance(); AstType::Prim(PrimType::Char) },
            Token::Isize => { self.advance(); AstType::Prim(PrimType::Isize) },
            Token::Usize => { self.advance(); AstType::Prim(PrimType::Usize) },
            Token::At => {
                self.advance();
                let inner = self.parse_type();
                AstType::Ptr(Box::new(inner))
            },
            Token::OpenBracket => {
                self.advance();
                let ghost p1 = self.at();
                let size = self.parse_expr();
                let ghost q1 = self.at();
                let ghost m1 = self.msgs();
                self.expect(Token::CloseBracket);
                let ghost q2 = self.at();
                let ghost m2 = self.msgs();
                let elem = self.parse_type();
                proof {
                    let e1 = sp_expr(ts, p1, 0).2;
                    let e2 = expect_at(ts, q1, Token::CloseBracket).1;
                    let e3 = sp_type(ts, q2).2;
                    lemma_reported_chain(m0, m1, m2, e1, e2);
                    lemma_reported_chain(m0, m2, self.msgs(), e1 + e2, e3);
                }
                AstType::Array(Box::new(size), Box::new(elem))
            },
            Token::Ident(name) => {
                let name = name.clone();
                self.advance();
                AstType::Named(name)
            },
            _ => {
                self.error_here("expected type");
                self.advance();
                AstType::Prim(PrimType::I32)
            },
        }
    }
}

/// The precedence level of each binary operator, loosest first: `||`,
/// then `&&`, then `==` `!=`, then `<` `>` `<=` `>=`, then `+` `-`, then
/// `*` `/`.
pub open spec fn precedence_level(t: Token) -> Option<nat> {
    match t {
        Token::PipePipe => Some(0),
        Token::AndAnd => Some(1),
        Token::EqEq | Token::BangEq => Some(2),
        Token::Lt | Token::Gt | Token::LtEq | Token::GtEq => Some(3),
        Token::Plus | Token::Minus => Some(4),
        Token::Star | Token::Slash => Some(5),
        _ => None,
    }
}

/// The binding powers give the binary operators their precedence and make
/// each of them left-associative: on one level `a p b q c` groups as
/// `(a p b) q c` (so `a - b - c` is `(a - b) - c`); where `q` binds
/// tighter than `p`, `a p b q c` groups as `a p (b q c)` and `a q b p c`
/// as `(a q b) p c`. The binary operators are exactly the tokens with a
/// level, and assignment binds looser than all of them.
pub proof fn lemma_binding_powers_follow_precedence(p: Token, q: Token)
    ensures
        precedence_level(p) is Some <==> spec_binary_op(p) is Some,
        precedence_level(p) is Some ==> spec_infix(p) is Some,
        (precedence_level(p) is Some && precedence_level(q) is Some) ==> {
            let lp = precedence_level(p)->0;
            let lq = precedence_level(q)->0;
            let (pl, pr) = spec_infix(p)->0;
            let (ql, qr) = spec_infix(q)->0;
            &&& pl < pr
            &&& (lp == lq ==> ql < pr)
            &&& (lp < lq ==> ql >= pr && pl < qr)
            &&& (spec_infix(Token::Eq)->0).1 <= pl
        },
{
}

} // verus!
