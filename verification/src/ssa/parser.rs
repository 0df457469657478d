use vstd::prelude::*;
use crate::ssa::span::Span;
use crate::ssa::token::{Token, token_text};
use crate::ssa::lexer::{Lexer, Lexeme, lex_items, item_errors, tokens_of, lexeme_at, lexeme_error, skip_blank, token_fits, lemma_skip_blank};
use crate::ssa::diag::{Diagnostics, Diagnostic, Severity, pushed_error};
use crate::ssa::ast::{
    AstProgram, AstDecl, AstFuncDecl, AstParam, AstType, PrimType, BinaryOp, UnaryOp, Spanned, SpExpr,
    SpStmt, ExprKind, StmtKind, binary_op_text, SpExprV, ExprV, SpStmtV, ParamV, FuncV, param_view, func_view, type_view, expr_view, exprs_view, stmt_view, stmts_view, program_view,
};
use crate::text::{owned, cat};
use crate::ssa::grammar::{lemma_alike_same, lemma_prefix_alike, reported, lemma_reported_none, lemma_reported_chain, lemma_pushed_reported, expect_at, sp_type, sp_expr, sp_prefix, sp_infix, sp_args_rest, sp_call_args, sp_stmts, sp_block_body, sp_expr_semi, sp_name, sp_stmt, sp_head, sp_if, sp_else, sp_while, sp_params, sp_func, sp_sync, sp_program, sp_decl, tok_at, span_at, step, Msg};

verus! {

/// Builds a syntax tree from source text. The token list ends with `EOF`;
/// the parser never moves past that last token.
pub struct Parser {
    tokens: Vec<(Token, Span)>,
    pos: usize,
    diags: Diagnostics,
}

/// Whether `ds` extends `old` with error messages only.
pub open spec fn adds_errors(old: Seq<Diagnostic>, ds: Seq<Diagnostic>) -> bool {
    &&& old.len() <= ds.len()
    &&& forall|i: int| 0 <= i < old.len() ==> #[trigger] ds[i] == old[i]
    &&& forall|i: int| old.len() <= i < ds.len() ==> (#[trigger] ds[i]).severity == Severity::Error
}

/// The binding power a prefix token gives its operand, for the tokens an
/// expression can start with.
pub open spec fn spec_prefix_bp(t: Token) -> Option<u8> {
    match t {
        Token::IntLit(_) | Token::Ident(_) | Token::True | Token::False | Token::LParen => Some(0),
        Token::Minus | Token::Not => Some(15),
        _ => if spec_is_type_token(t) { Some(0) } else { None },
    }
}

/// The left and right binding powers of a token after an operand.
pub open spec fn spec_infix_bp(t: Token) -> Option<(u8, u8)> {
    match t {
        Token::OrOr => Some((1, 2)),
        Token::AndAnd => Some((3, 4)),
        Token::Eq | Token::Neq => Some((5, 6)),
        Token::Lt | Token::Gt | Token::Le | Token::Ge => Some((7, 8)),
        Token::Plus | Token::Minus => Some((10, 11)),
        Token::Star | Token::Slash => Some((20, 21)),
        Token::LParen => Some((25, 25)),
        _ => None,
    }
}

/// Whether a token names a primitive type.
pub open spec fn spec_is_type_token(t: Token) -> bool {
    spec_prim_type(t) is Some
}

/// The primitive type a type keyword names.
pub open spec fn spec_prim_type(t: Token) -> Option<PrimType> {
    match t {
        Token::I32 => Some(PrimType::I32),
        Token::I64 => Some(PrimType::I64),
        Token::U32 => Some(PrimType::U32),
        Token::U64 => Some(PrimType::U64),
        Token::I8 => Some(PrimType::I8),
        Token::U8 => Some(PrimType::U8),
        Token::Bool => Some(PrimType::Bool),
        Token::Void => Some(PrimType::Void),
        _ => None,
    }
}

/// The binary operator a token stands for after an operand.
pub open spec fn spec_binary_op(t: Token) -> Option<BinaryOp> {
    match t {
        Token::Plus => Some(BinaryOp::Add),
        Token::Minus => Some(BinaryOp::Sub),
        Token::Star => Some(BinaryOp::Mul),
        Token::Slash => Some(BinaryOp::Div),
        Token::Eq => Some(BinaryOp::Eq),
        Token::Neq => Some(BinaryOp::Neq),
        Token::Lt => Some(BinaryOp::Lt),
        Token::Gt => Some(BinaryOp::Gt),
        Token::Le => Some(BinaryOp::Le),
        Token::Ge => Some(BinaryOp::Ge),
        Token::AndAnd => Some(BinaryOp::And),
        Token::OrOr => Some(BinaryOp::Or),
        _ => None,
    }
}

/// The binding power an expression starting with `tok` gives its operand.
pub fn prefix_bp(tok: &Token) -> (r: Option<((), u8)>)
    ensures
        r matches Some((_, b)) ==> spec_prefix_bp(*tok) == Some(b),
        r is None ==> spec_prefix_bp(*tok) is None,
{
    match tok {
        Token::IntLit(_) | Token::Ident(_) | Token::True | Token::False | Token::LParen => Some(((), 0)),
        Token::Minus | Token::Not => Some(((), 15)),
        _ => {
            if is_type_token(tok) {
                Some(((), 0))
            } else {
                None
            }
        },
    }
}

/// The left and right binding powers of `tok` after an operand.
pub fn infix_bp(tok: &Token) -> (r: Option<(u8, u8)>)
    ensures
        r == spec_infix_bp(*tok),
{
    match tok {
        Token::OrOr => Some((1, 2)),
        Token::AndAnd => Some((3, 4)),
        Token::Eq | Token::Neq => Some((5, 6)),
        Token::Lt | Token::Gt | Token::Le | Token::Ge => Some((7, 8)),
        Token::Plus | Token::Minus => Some((10, 11)),
        Token::Star | Token::Slash => Some((20, 21)),
        Token::LParen => Some((25, 25)),
        _ => None,
    }
}

/// Whether `tok` names a primitive type.
pub fn is_type_token(tok: &Token) -> (r: bool)
    ensures
        r == spec_is_type_token(*tok),
{
    match tok {
        Token::I32 | Token::I64 | Token::U32 | Token::U64 | Token::I8 | Token::U8 | Token::Bool
        | Token::Void => true,
        _ => false,
    }
}

/// The binary operator `tok` stands for after an operand.
fn binary_op_of(tok: &Token) -> (r: Option<BinaryOp>)
    ensures
        r == spec_binary_op(*tok),
{
    match tok {
        Token::Plus => Some(BinaryOp::Add),
        Token::Minus => Some(BinaryOp::Sub),
        Token::Star => Some(BinaryOp::Mul),
        Token::Slash => Some(BinaryOp::Div),
        Token::Eq => Some(BinaryOp::Eq),
        Token::Neq => Some(BinaryOp::Neq),
        Token::Lt => Some(BinaryOp::Lt),
        Token::Gt => Some(BinaryOp::Gt),
        Token::Le => Some(BinaryOp::Le),
        Token::Ge => Some(BinaryOp::Ge),
        Token::AndAnd => Some(BinaryOp::And),
        Token::OrOr => Some(BinaryOp::Or),
        _ => None,
    }
}

/// The message for an unexpected token where something else was expected.
pub open spec fn found_message(what: Seq<char>, t: Token) -> Seq<char> {
    "expected "@ + what + ", found "@ + token_text(t)
}

impl Parser {
    /// The tokens the parser reads.
    pub closed spec fn toks(&self) -> Seq<(Token, Span)> {
        self.tokens@
    }

    /// The messages reported so far.
    pub closed spec fn msgs(&self) -> Seq<Diagnostic> {
        self.diags.diags@
    }

    /// The index of the next token.
    pub closed spec fn at(&self) -> int {
        self.pos as int
    }

    /// The parser reads a token list that ends with `EOF` and stands on one
    /// of its tokens.
    pub closed spec fn wf(&self) -> bool {
        &&& self.tokens@.len() > 0
        &&& self.tokens@.last().0 == Token::EOF
        &&& forall|i: int| 0 <= i < self.tokens@.len() - 1 ==> (#[trigger] self.tokens@[i]).0 != Token::EOF
        &&& self.pos < self.tokens@.len()
        &&& self.tokens@.len() < usize::MAX
    }

    /// The next token.
    pub open spec fn current(&self) -> Token {
        self.toks()[self.at()].0
    }

    /// The span of the next token.
    pub open spec fn current_span(&self) -> Span {
        self.toks()[self.at()].1
    }

    /// The token after the next one.
    pub open spec fn following(&self) -> Token {
        self.toks()[self.at() + 1].0
    }

    /// How many tokens are left, counting the one the parser stands on.
    pub open spec fn left(&self) -> nat {
        (self.toks().len() - self.at()) as nat
    }

    /// `self` is where `old` may get to: same tokens, not further back, and
    /// only errors added to the messages.
    pub open spec fn went_on_from(&self, old: Parser) -> bool {
        &&& self.wf()
        &&& self.toks() == old.toks()
        &&& old.at() <= self.at()
        &&& adds_errors(old.msgs(), self.msgs())
    }

    /// Reads all tokens of `source`, reporting what is no token to `diags`,
    /// and stands at the first.
    pub fn new(source: &str, diags: Diagnostics) -> (r: Self)
        requires
            source@.len() + 2 <= usize::MAX,
        ensures
            r.wf(),
            r.at() == 0,
            tokens_of(source@, r.toks()),
            reported(diags.diags@, r.msgs(), item_errors(source@, lex_items(source@, 0))),
    {
        let mut diags = diags;
        let mut lexer = Lexer::new(source);
        let mut tokens: Vec<(Token, Span)> = Vec::new();
        let ghost d0 = diags.diags@;
        let ghost s = source@;
        let ghost items0 = lex_items(s, 0);
        let ghost mut done: Seq<(Lexeme, int, int)> = seq![];
        proof {
            lemma_reported_none(d0);
            assert(items0 == done + lex_items(s, lexer.at()));
        }
        loop
            invariant_except_break
                tokens@.len() <= lexer.at(),
                forall|i: int| 0 <= i < tokens@.len() ==> (#[trigger] tokens@[i]).0 != Token::EOF,
                items0 == done + lex_items(s, lexer.at()),
                tokens@.len() == done.len(),
                forall|i: int| 0 <= i < done.len() ==> {
                    &&& token_fits((#[trigger] tokens@[i]).0, done[i].0, s.subrange(done[i].1, done[i].2))
                    &&& tokens@[i].1 == Span { start: done[i].1 as usize, end: done[i].2 as usize }
                },
            invariant
                lexer.text() == s,
                s == source@,
                lexer.at() <= s.len(),
                s.len() + 2 <= usize::MAX,
                reported(d0, diags.diags@, item_errors(s, done)),
            ensures
                tokens@.len() > 0,
                tokens@.last().0 == Token::EOF,
                forall|i: int| 0 <= i < tokens@.len() - 1 ==> (#[trigger] tokens@[i]).0 != Token::EOF,
                tokens@.len() <= s.len() + 1,
                tokens@.len() == items0.len() + 1,
                forall|i: int| 0 <= i < items0.len() ==> {
                    &&& token_fits((#[trigger] tokens@[i]).0, items0[i].0, s.subrange(items0[i].1, items0[i].2))
                    &&& tokens@[i].1 == Span { start: items0[i].1 as usize, end: items0[i].2 as usize }
                },
                tokens@.last() == (Token::EOF, Span { start: s.len() as usize, end: s.len() as usize }),
                done == items0,
                reported(d0, diags.diags@, item_errors(s, done)),
            decreases s.len() - lexer.at(),
        {
            let ghost before = diags.diags@;
            let ghost a = lexer.at();
            let ghost old_tokens = tokens@;
            proof {
                lemma_skip_blank(s, a);
            }
            let (tok, span) = lexer.next_token(&mut diags);
            let is_eof = tok.is(&Token::EOF);
            tokens.push((tok, span));
            let ghost q = skip_blank(s, a);
            if is_eof {
                proof {
                    if q < s.len() {
                        let (lx, e) = lexeme_at(s, q);
                        assert(token_fits(tok, lx, s.subrange(q, e)));
                        assert(false);
                    }
                    assert(lex_items(s, a) == Seq::<(Lexeme, int, int)>::empty());
                    assert(done + Seq::<(Lexeme, int, int)>::empty() == done);
                    assert forall|i: int| 0 <= i < items0.len() implies {
                        &&& token_fits((#[trigger] tokens@[i]).0, items0[i].0, s.subrange(items0[i].1, items0[i].2))
                        &&& tokens@[i].1 == Span { start: items0[i].1 as usize, end: items0[i].2 as usize }
                    } by {
                        assert(tokens@[i] == old_tokens[i]);
                    }
                    assert forall|i: int| 0 <= i < tokens@.len() - 1 implies (#[trigger] tokens@[i]).0 != Token::EOF by {
                        assert(tokens@[i] == old_tokens[i]);
                    }
                    assert(done == items0);
                    assert(q == s.len());
                    assert(tokens@.last() == (Token::EOF, Span { start: s.len() as usize, end: s.len() as usize }));
                    assert(tokens@.len() == items0.len() + 1);
                }
                break;
            }
            proof {
                let (lx, e) = lexeme_at(s, q);
                assert(lex_items(s, a) == seq![(lx, q, e)] + lex_items(s, e));
                let x = (lx, q, e);
                let nd = done.push(x);
                assert(nd.drop_last() == done);
                let here: Seq<(Seq<char>, Span)> = match lexeme_error(lx, s.subrange(q, e)) {
                    Some(m) => seq![(m, Span { start: q as usize, end: e as usize })],
                    None => seq![],
                };
                assert(item_errors(s, nd) == item_errors(s, done) + here);
                match lexeme_error(lx, s.subrange(q, e)) {
                    Some(m) => {
                        lemma_pushed_reported(before, diags.diags@, m, span);
                    },
                    None => {
                        lemma_reported_none(before);
                    },
                }
                lemma_reported_chain(d0, before, diags.diags@, item_errors(s, done), here);
                assert(items0 == nd + lex_items(s, e));
                assert forall|i: int| 0 <= i < nd.len() implies {
                    &&& token_fits((#[trigger] tokens@[i]).0, nd[i].0, s.subrange(nd[i].1, nd[i].2))
                    &&& tokens@[i].1 == Span { start: nd[i].1 as usize, end: nd[i].2 as usize }
                } by {
                    if i < done.len() {
                        assert(tokens@[i] == old_tokens[i]);
                    }
                }
                assert forall|i: int| 0 <= i < tokens@.len() implies (#[trigger] tokens@[i]).0 != Token::EOF by {
                    if i < old_tokens.len() {
                        assert(tokens@[i] == old_tokens[i]);
                    }
                }
                done = nd;
            }
        }
        proof {
            assert(items0 == lex_items(source@, 0));
            assert(tokens_of(source@, tokens@));
        }
        Parser { tokens, pos: 0, diags }
    }

    /// Hands back the messages, ending the parse.
    pub fn into_diagnostics(self) -> (r: Diagnostics)
        ensures
            r.diags@ == self.msgs(),
    {
        self.diags
    }

    fn peek_token(&self) -> (r: &Token)
        requires
            self.wf(),
        ensures
            *r == self.current(),
    {
        &self.tokens[self.pos].0
    }

    fn peek_span(&self) -> (r: Span)
        requires
            self.wf(),
        ensures
            r == self.current_span(),
    {
        self.tokens[self.pos].1
    }

    /// The span of the token just before the current one (the current one's
    /// at the start).
    fn prev_span(&self) -> (r: Span)
        requires
            self.wf(),
        ensures
            self.at() > 0 ==> r == self.toks()[self.at() - 1].1,
            self.at() == 0 ==> r == self.toks()[0].1,
    {
        if self.pos > 0 { self.tokens[self.pos - 1].1 } else { self.tokens[0].1 }
    }

    /// Moves to the next token and returns the one it left; on `EOF` it stays.
    fn advance(&mut self) -> (r: (Token, Span))
        requires
            old(self).wf(),
        ensures
            final(self).wf(),
            r.0.alike(old(self).current()),
            r.1 == old(self).current_span(),
            final(self).toks() == old(self).toks(),
            final(self).msgs() == old(self).msgs(),
            old(self).current() != Token::EOF ==> final(self).at() == old(self).at() + 1,
            old(self).current() == Token::EOF ==> final(self).at() == old(self).at(),
    {
        let tok = self.tokens[self.pos].0.duplicate();
        let span = self.tokens[self.pos].1;
        if self.pos < self.tokens.len() - 1 {
            self.pos = self.pos + 1;
        }
        (tok, span)
    }

    fn check(&self, tok: &Token) -> (r: bool)
        requires
            self.wf(),
            !tok.has_text(),
        ensures
            r == (self.current() == *tok),
    {
        self.peek_token().is(tok)
    }

    fn check_advance(&mut self, tok: &Token) -> (r: bool)
        requires
            old(self).wf(),
            !tok.has_text(),
            *tok != Token::EOF,
        ensures
            final(self).went_on_from(*old(self)),
            final(self).msgs() == old(self).msgs(),
            r == (old(self).current() == *tok),
            r ==> final(self).at() == old(self).at() + 1,
            !r ==> final(self).at() == old(self).at(),
    {
        if self.check(tok) {
            self.advance();
            true
        } else {
            false
        }
    }

    fn expect(&mut self, expected: &Token) -> (r: Span)
        requires
            old(self).wf(),
            !expected.has_text(),
            *expected != Token::EOF,
        ensures
            final(self).went_on_from(*old(self)),
            r == old(self).current_span(),
            ({
                let (q, es) = expect_at(old(self).toks(), old(self).at(), *expected);
                &&& final(self).at() == q
                &&& reported(old(self).msgs(), final(self).msgs(), es)
            }),
            old(self).current() == *expected ==> final(self).at() == old(self).at() + 1
                && final(self).msgs() == old(self).msgs(),
            old(self).current() != *expected ==> final(self).at() == old(self).at(),
    {
        let span = self.peek_span();
        if self.peek_token().is(expected) {
            self.advance();
            proof {
                lemma_reported_none(self.msgs());
            }
            span
        } else {
            let msg = cat(cat(cat(owned("expected "), expected.to_text().as_str()), ", found "),
                self.peek_token().to_text().as_str());
            self.report(msg, span);
            span
        }
    }

    /// Records an error.
    fn report(&mut self, msg: String, span: Span)
        requires
            old(self).wf(),
        ensures
            final(self).went_on_from(*old(self)),
            final(self).at() == old(self).at(),
            final(self).toks() == old(self).toks(),
            pushed_error(old(self).msgs(), final(self).msgs(), msg@, Some(span)),
            reported(old(self).msgs(), final(self).msgs(), seq![(msg@, span)]),
    {
        self.diags.error(msg, Some(span));
        proof {
            assert forall|i: int| 0 <= i < old(self).msgs().len() implies
                #[trigger] self.msgs()[i] == old(self).msgs()[i] by {
                assert(self.msgs().take(old(self).msgs().len() as int)[i] == self.msgs()[i]);
            }
            lemma_pushed_reported(old(self).msgs(), self.msgs(), msg@, span);
        }
    }

    /// Skips tokens until one of `stops` (or the end).
    fn sync_to(&mut self, stops: &[Token])
        requires
            old(self).wf(),
            forall|i: int| 0 <= i < stops@.len() ==> !(#[trigger] stops@[i]).has_text(),
        ensures
            final(self).went_on_from(*old(self)),
            final(self).msgs() == old(self).msgs(),
            final(self).current() == Token::EOF
                || exists|i: int| 0 <= i < stops@.len() && final(self).current() == #[trigger] stops@[i],
            stops@ == seq![Token::Func, Token::Let, Token::EOF] ==> final(self).at() == sp_sync(old(self).toks(), old(self).at()),
    {
        loop
            invariant
                self.went_on_from(*old(self)),
                self.msgs() == old(self).msgs(),
                forall|i: int| 0 <= i < stops@.len() ==> !(#[trigger] stops@[i]).has_text(),
                stops@ == seq![Token::Func, Token::Let, Token::EOF] ==> sp_sync(old(self).toks(), old(self).at())
                    == sp_sync(self.toks(), self.at()),
            ensures
                self.went_on_from(*old(self)),
                self.msgs() == old(self).msgs(),
                self.current() == Token::EOF
                    || exists|i: int| 0 <= i < stops@.len() && self.current() == #[trigger] stops@[i],
                stops@ == seq![Token::Func, Token::Let, Token::EOF] ==> self.at() == sp_sync(old(self).toks(), old(self).at()),
            decreases self.left(),
        {
            let mut found = false;
            let mut k: usize = 0;
            while k < stops.len()
                invariant
                    self.wf(),
                    k <= stops@.len(),
                    forall|i: int| 0 <= i < stops@.len() ==> !(#[trigger] stops@[i]).has_text(),
                    found == exists|i: int| 0 <= i < k && self.current() == #[trigger] stops@[i],
                decreases stops@.len() - k,
            {
                if self.peek_token().is(&stops[k]) {
                    found = true;
                }
                k = k + 1;
            }
            if found || self.check(&Token::EOF) {
                proof {
                    if stops@ == seq![Token::Func, Token::Let, Token::EOF] {
                        if found {
                            let i = choose|i: int| 0 <= i < stops@.len() && self.current() == #[trigger] stops@[i];
                            assert(stops@[i] == Token::Func || stops@[i] == Token::Let || stops@[i] == Token::EOF);
                        }
                    }
                }
                break;
            }
            proof {
                if stops@ == seq![Token::Func, Token::Let, Token::EOF] {
                    assert(self.current() != stops@[0]);
                    assert(self.current() != stops@[1]);
                }
            }
            self.advance();
        }
    }

    fn parse_type(&mut self) -> (r: AstType)
        requires
            old(self).wf(),
        ensures
            final(self).went_on_from(*old(self)),
            ({
                let (v, q, es) = sp_type(old(self).toks(), old(self).at());
                &&& type_view(r) == v
                &&& final(self).at() == q
                &&& reported(old(self).msgs(), final(self).msgs(), es)
            }),
        decreases old(self).left(), 1nat,
    {
        let ghost ts = self.toks();
        let ghost m0 = self.msgs();
        proof {
            lemma_reported_none(m0);
        }
        match self.peek_token() {
            Token::I32 => { self.advance(); AstType::Prim(PrimType::I32) },
            Token::I64 => { self.advance(); AstType::Prim(PrimType::I64) },
            Token::U32 => { self.advance(); AstType::Prim(PrimType::U32) },
            Token::U64 => { self.advance(); AstType::Prim(PrimType::U64) },
            Token::I8 => { self.advance(); AstType::Prim(PrimType::I8) },
            Token::U8 => { self.advance(); AstType::Prim(PrimType::U8) },
            Token::Bool => { self.advance(); AstType::Prim(PrimType::Bool) },
            Token::Void => { self.advance(); AstType::Prim(PrimType::Void) },
            Token::Star => {
                self.advance();
                let inner = self.parse_type();
                AstType::Ptr(Box::new(inner))
            },
            Token::LBracket => {
                self.advance();
                let inner = self.parse_type();
                let ghost m1 = self.msgs();
                let ghost q1 = self.at();
                let size = if self.check_advance(&Token::Semicolon) {
                    let (tok, _) = self.advance();
                    if let Token::IntLit(n) = tok {
                        Some(n as usize)
                    } else {
                        None
                    }
                } else {
                    None
                };
                let ghost q3 = self.at();
                let ghost m2 = self.msgs();
                self.expect(&Token::RBracket);
                proof {
                    let (inner_v, qq, e1) = sp_type(ts, old(self).at() + 1);
                    let (q4, e2) = expect_at(ts, q3, Token::RBracket);
                    lemma_reported_chain(m0, m2, self.msgs(), e1, e2);
                }
                AstType::Array(Box::new(inner), size)
            },
            Token::Ident(s) => {
                let s = s.clone();
                self.advance();
                AstType::Named(s)
            },
            _ => {
                let msg = cat(cat(cat(owned("expected "), "type"), ", found "), self.peek_token().to_text().as_str());
                let span = self.peek_span();
                self.report(msg, span);
                AstType::Prim(PrimType::I32)
            },
        }
    }

    #[verifier::rlimit(50)]
    fn parse_expr(&mut self, min_bp: u8) -> (r: SpExpr)
        requires
            old(self).wf(),
        ensures
            final(self).went_on_from(*old(self)),
            ({
                let (v, q, es) = sp_expr(old(self).toks(), old(self).at(), min_bp);
                &&& expr_view(r) == v
                &&& final(self).at() == q
                &&& reported(old(self).msgs(), final(self).msgs(), es)
            }),
            old(self).current() != Token::EOF ==> final(self).at() > old(self).at(),
            spec_prefix_bp(old(self).current()) is None ==> final(self).msgs().len() > old(self).msgs().len(),
        decreases old(self).left(), 2nat,
    {
        let ghost ts = self.toks();
        let ghost p0 = self.at();
        let ghost m0 = self.msgs();
        let ghost t0 = self.current();
        let ghost s0 = self.current_span();
        let (tok, span) = self.advance();
        proof {
            lemma_alike_same(tok, t0);
        }
        let ghost e0: Seq<Msg> = if spec_prefix_bp(t0) is None {
            seq![(found_message("expression"@, t0), s0)]
        } else {
            seq![]
        };
        if prefix_bp(&tok).is_none() {
            let msg = cat(cat(cat(owned("expected "), "expression"), ", found "), tok.to_text().as_str());
            self.report(msg, span);
        } else {
            proof {
                lemma_reported_none(m0);
            }
        }
        let ghost m1 = self.msgs();
        let ghost p1 = self.at();
        proof {
            lemma_prefix_alike(ts, p1, tok, t0, s0);
        }
        let (mut lhs, mut span) = self.parse_prefix(tok, span);
        let ghost m2 = self.msgs();
        let ghost p2 = self.at();
        let ghost pre = sp_prefix(ts, p1, t0, s0);
        let ghost fin = sp_infix(ts, p2, min_bp, pre.0, pre.1);
        let ghost mut eacc: Seq<Msg> = seq![];
        proof {
            lemma_reported_chain(m0, m1, m2, e0, pre.3);
            lemma_reported_none(m2);
            assert(fin == sp_infix(ts, self.at(), min_bp, expr_view(Spanned(lhs, span)).kind, span));
            assert(fin.3 == eacc + fin.3);
        }
        loop
            invariant
                self.went_on_from(*old(self)),
                ts == self.toks(),
                p2 <= self.at(),
                old(self).current() != Token::EOF ==> self.at() > old(self).at(),
                old(self).current() == Token::EOF ==> self.at() == old(self).at() && self.current() == Token::EOF,
                spec_prefix_bp(old(self).current()) is None ==> self.msgs().len() > old(self).msgs().len(),
                reported(m2, self.msgs(), eacc),
                ({
                    let cur = sp_infix(ts, self.at(), min_bp, expr_view(Spanned(lhs, span)).kind, span);
                    &&& fin.0 == cur.0
                    &&& fin.1 == cur.1
                    &&& fin.2 == cur.2
                    &&& fin.3 == eacc + cur.3
                }),
            ensures
                self.went_on_from(*old(self)),
                old(self).current() != Token::EOF ==> self.at() > old(self).at(),
                spec_prefix_bp(old(self).current()) is None ==> self.msgs().len() > old(self).msgs().len(),
                reported(m2, self.msgs(), eacc),
                fin.0 == expr_view(Spanned(lhs, span)).kind,
                fin.1 == span,
                fin.2 == self.at(),
                fin.3 == eacc,
            decreases self.left(),
        {
            let ghost a0 = self.at();
            let ghost ma = self.msgs();
            let ghost lv = expr_view(Spanned(lhs, span)).kind;
            let ghost cur = sp_infix(ts, a0, min_bp, lv, span);
            let next_tok = self.peek_token().duplicate();
            let next_span = self.peek_span();
            proof {
                lemma_alike_same(next_tok, tok_at(ts, a0));
                assert(fin.3 == eacc + fin.3.skip(eacc.len() as int)) by {
                    assert(fin.3.skip(eacc.len() as int) == cur.3);
                }
            }
            let bp = infix_bp(&next_tok);
            let (lbp, rbp) = match bp {
                Some(p) => p,
                None => {
                    proof {
                        assert(cur.3 == Seq::<Msg>::empty());
                        assert(eacc + cur.3 == eacc);
                    }
                    break;
                },
            };
            if lbp < min_bp {
                proof {
                    assert(cur.3 == Seq::<Msg>::empty());
                    assert(eacc + cur.3 == eacc);
                }
                break;
            }
            let ghost before = self.at();
            self.advance();
            let ghost p1b = self.at();
            if next_tok.is(&Token::LParen) {
                let ghost ecallee: Seq<Msg> = match lv {
                    ExprV::Ident(_) => Seq::<Msg>::empty(),
                    _ => seq![("callee must be an identifier"@, span)],
                };
                let name = match lhs {
                    ExprKind::Ident(s) => {
                        proof {
                            lemma_reported_none(ma);
                        }
                        s
                    },
                    _ => {
                        self.report(owned("callee must be an identifier"), span);
                        String::new()
                    },
                };
                let ghost mb = self.msgs();
                let args = self.parse_args();
                let ghost eargs = sp_call_args(ts, p1b).2;
                let ghost q2 = self.at();
                let ghost mc = self.msgs();
                self.expect(&Token::RParen);
                let ghost e2 = expect_at(ts, q2, Token::RParen).1;
                lhs = ExprKind::Call(name, args);
                let last = self.prev_span();
                span = Span { start: span.start, end: last.end };
                proof {
                    lemma_reported_chain(mb, mc, self.msgs(), eargs, e2);
                    lemma_reported_chain(ma, mb, self.msgs(), ecallee, eargs + e2);
                    lemma_reported_chain(m2, ma, self.msgs(), eacc, ecallee + (eargs + e2));
                    let nxt = sp_infix(ts, self.at(), min_bp, expr_view(Spanned(lhs, span)).kind, span);
                    assert(cur.3 == ecallee + eargs + e2 + nxt.3);
                    eacc = eacc + (ecallee + (eargs + e2));
                    assert(fin.3 == eacc + nxt.3);
                }
            } else {
                let ghost lhs_sp = Spanned(lhs, span);
                let rhs = self.parse_expr(rbp);
                let ghost mr = self.msgs();
                let ghost rv = sp_expr(ts, p1b, rbp);
                let full_span = Span { start: span.start, end: rhs.1.end };
                let ghost e2: Seq<Msg> = match spec_binary_op(tok_at(ts, a0)) {
                    Some(_) => Seq::<Msg>::empty(),
                    None => seq![("unexpected operator "@ + token_text(tok_at(ts, a0)), span_at(ts, a0))],
                };
                match binary_op_of(&next_tok) {
                    Some(op) => {
                        lhs = ExprKind::Binary(op, Box::new(Spanned(lhs, span)), Box::new(rhs));
                        proof {
                            lemma_reported_none(mr);
                        }
                    },
                    None => {
                        let msg = cat(owned("unexpected operator "), next_tok.to_text().as_str());
                        self.report(msg, next_span);
                    },
                }
                span = full_span;
                proof {
                    lemma_reported_chain(ma, mr, self.msgs(), rv.2, e2);
                    lemma_reported_chain(m2, ma, self.msgs(), eacc, rv.2 + e2);
                    let nxt = sp_infix(ts, self.at(), min_bp, expr_view(Spanned(lhs, span)).kind, span);
                    assert(cur.3 == rv.2 + e2 + nxt.3);
                    eacc = eacc + (rv.2 + e2);
                    assert(fin.3 == eacc + nxt.3);
                }
            }
        }
        proof {
            lemma_reported_chain(m0, m2, self.msgs(), e0 + pre.3, eacc);
        }
        Spanned(lhs, span)
    }

    /// The arguments of a call, after its opening parenthesis and up to
    /// (not including) the closing one.
    fn parse_args(&mut self) -> (r: Vec<SpExpr>)
        requires
            old(self).wf(),
        ensures
            final(self).went_on_from(*old(self)),
            ({
                let (v, q, es) = sp_call_args(old(self).toks(), old(self).at());
                &&& exprs_view(r@) == v
                &&& final(self).at() == q
                &&& reported(old(self).msgs(), final(self).msgs(), es)
            }),
        decreases old(self).left(), 3nat,
    {
        let ghost ts = self.toks();
        let ghost m0 = self.msgs();
        let ghost p0 = self.at();
        let mut args: Vec<SpExpr> = Vec::new();
        if self.check(&Token::RParen) {
            proof {
                lemma_reported_none(m0);
            }
            return args;
        }
        let first = self.parse_expr(0);
        let ghost qa = self.at();
        let ghost mqa = self.msgs();
        let ghost a_first = sp_expr(ts, p0, 0);
        proof {
            assert(expr_view(first) == a_first.0);
        }
        args.push(first);
        let ghost mut erest: Seq<Msg> = seq![];
        proof {
            lemma_reported_none(mqa);
            assert(args@.drop_last() =~= Seq::<SpExpr>::empty());
            assert(exprs_view(args@.drop_last()) == Seq::<SpExprV>::empty());
            assert(expr_view(args@.last()) == a_first.0);
            assert(exprs_view(args@) =~= seq![a_first.0]);
            assert(exprs_view(args@).drop_first() =~= Seq::<SpExprV>::empty());
            let r0 = sp_args_rest(ts, qa);
            assert(r0.0 == exprs_view(args@).drop_first() + r0.0);
            assert(r0.2 == erest + r0.2);
        }
        while self.check_advance(&Token::Comma)
            invariant
                self.went_on_from(*old(self)),
                ts == self.toks(),
                qa <= self.at(),
                args@.len() >= 1,
                exprs_view(args@)[0] == a_first.0,
                reported(mqa, self.msgs(), erest),
                ({
                    let whole = sp_args_rest(ts, qa);
                    let rest = sp_args_rest(ts, self.at());
                    &&& whole.0 == exprs_view(args@).drop_first() + rest.0
                    &&& whole.1 == rest.1
                    &&& whole.2 == erest + rest.2
                }),
            decreases self.left(),
        {
            let ghost h = (self.at() - 1) as int;
            let ghost mh = self.msgs();
            let ghost old_seq = args@;
            let ghost old_args = exprs_view(args@);
            let next = self.parse_expr(0);
            let ghost an = sp_expr(ts, h + 1, 0);
            args.push(next);
            proof {
                let whole = sp_args_rest(ts, qa);
                let restq = sp_args_rest(ts, an.1);
                assert(sp_args_rest(ts, h) == (seq![an.0] + restq.0, restq.1, an.2 + restq.2));
                assert(args@.drop_last() =~= old_seq);
                assert(exprs_view(args@) == old_args.push(an.0));
                assert(exprs_view(args@).drop_first() =~= old_args.drop_first().push(an.0));
                assert(whole.0 =~= exprs_view(args@).drop_first() + restq.0);
                lemma_reported_chain(mqa, mh, self.msgs(), erest, an.2);
                assert(whole.2 =~= (erest + an.2) + restq.2);
                erest = erest + an.2;
            }
        }
        proof {
            assert(sp_args_rest(ts, self.at()) == (Seq::<SpExprV>::empty(), self.at(), Seq::<Msg>::empty()));
            assert(exprs_view(args@) =~= seq![a_first.0] + exprs_view(args@).drop_first());
            lemma_reported_chain(m0, mqa, self.msgs(), a_first.2, erest);
        }
        args
    }

    fn parse_prefix(&mut self, tok: Token, start: Span) -> (r: (ExprKind, Span))
        requires
            old(self).wf(),
        ensures
            final(self).went_on_from(*old(self)),
            ({
                let (k, sp, q, es) = sp_prefix(old(self).toks(), old(self).at(), tok, start);
                &&& expr_view(Spanned(r.0, r.1)) == SpExprV { kind: k, span: sp }
                &&& final(self).at() == q
                &&& reported(old(self).msgs(), final(self).msgs(), es)
            }),
        decreases old(self).left(), if tok == Token::EOF { 0nat } else { 3nat },
    {
        let ghost ts = self.toks();
        let ghost m0 = self.msgs();
        proof {
            lemma_reported_none(m0);
        }
        match tok {
            Token::IntLit(n) => (ExprKind::Int(n), start),
            Token::True => (ExprKind::Bool(true), start),
            Token::False => (ExprKind::Bool(false), start),
            Token::Ident(s) => (ExprKind::Ident(s), start),
            Token::Minus => {
                let e = self.parse_expr(15);
                let Spanned(rhs, rhs_span) = e;
                let span = Span { start: start.start, end: rhs_span.end };
                (ExprKind::Unary(UnaryOp::Neg, Box::new(Spanned(rhs, rhs_span))), span)
            },
            Token::Not => {
                let e = self.parse_expr(15);
                let Spanned(rhs, rhs_span) = e;
                let span = Span { start: start.start, end: rhs_span.end };
                (ExprKind::Unary(UnaryOp::Not, Box::new(Spanned(rhs, rhs_span))), span)
            },
            Token::LParen => {
                let expr = self.parse_expr(0);
                let ghost m1 = self.msgs();
                let ghost q = self.at();
                self.expect(&Token::RParen);
                proof {
                    let (ev, qq, e1) = sp_expr(ts, old(self).at(), 0);
                    let (q2, e2) = expect_at(ts, q, Token::RParen);
                    lemma_reported_chain(m0, m1, self.msgs(), e1, e2);
                }
                (expr.0, expr.1)
            },
            _ => {
                if is_type_token(&tok) {
                    let type_ = self.parse_type();
                    let ghost m1 = self.msgs();
                    let ghost q = self.at();
                    let e = self.parse_expr(15);
                    proof {
                        let (tv, qq, e1) = sp_type(ts, old(self).at());
                        let (rv, q2, e2) = sp_expr(ts, q, 15);
                        lemma_reported_chain(m0, m1, self.msgs(), e1, e2);
                    }
                    let Spanned(rhs, rhs_span) = e;
                    let span = Span { start: start.start, end: rhs_span.end };
                    (ExprKind::Cast(type_, Box::new(Spanned(rhs, rhs_span))), span)
                } else {
                    let msg = cat(cat(cat(owned("expected "), "expression"), ", found "), tok.to_text().as_str());
                    self.report(msg, start);
                    (ExprKind::Int(0), start)
                }
            },
        }
    }

    /// Reads declarations up to the end of the input, as the grammar's
    /// `sp_program` reads them.
    #[verifier::rlimit(60)]
    pub fn parse_program(&mut self) -> (r: AstProgram)
        requires
            old(self).wf(),
        ensures
            final(self).went_on_from(*old(self)),
            final(self).current() == Token::EOF,
            ({
                let (v, q, es) = sp_program(old(self).toks(), old(self).at());
                &&& program_view(r) == v
                &&& final(self).at() == q
                &&& reported(old(self).msgs(), final(self).msgs(), es)
            }),
    {
        let ghost ts = self.toks();
        let ghost m0 = self.msgs();
        let ghost p0 = self.at();
        let mut decls: Vec<AstDecl> = Vec::new();
        let ghost mut eacc: Seq<Msg> = seq![];
        proof {
            lemma_reported_none(m0);
            let whole = sp_program(ts, p0);
            assert(program_view(AstProgram { decls }) =~= Seq::<FuncV>::empty());
            assert(whole.0 =~= program_view(AstProgram { decls }) + whole.0);
            assert(whole.2 =~= eacc + whole.2);
        }
        while !self.check(&Token::EOF)
            invariant
                self.went_on_from(*old(self)),
                ts == self.toks(),
                p0 <= self.at(),
                reported(m0, self.msgs(), eacc),
                ({
                    let whole = sp_program(ts, p0);
                    let rest = sp_program(ts, self.at());
                    &&& whole.0 == program_view(AstProgram { decls }) + rest.0
                    &&& whole.1 == rest.1
                    &&& whole.2 == eacc + rest.2
                }),
            decreases self.left(),
        {
            let ghost h = self.at();
            let ghost mh = self.msgs();
            let ghost old_view = program_view(AstProgram { decls });
            let item = self.parse_decl();
            let ghost dv = sp_decl(ts, h);
            let ghost here: Seq<FuncV> = match dv.0 { Some(f) => seq![f], None => seq![] };
            match item {
                Some(f) => {
                    decls.push(AstDecl::Func(f));
                },
                None => {},
            }
            proof {
                let whole = sp_program(ts, p0);
                let restq = sp_program(ts, dv.1);
                assert(sp_program(ts, h) == (here + restq.0, restq.1, dv.2 + restq.2));
                assert(program_view(AstProgram { decls }) =~= old_view + here);
                assert(whole.0 =~= program_view(AstProgram { decls }) + restq.0);
                lemma_reported_chain(m0, mh, self.msgs(), eacc, dv.2);
                assert(whole.2 =~= (eacc + dv.2) + restq.2);
                eacc = eacc + dv.2;
            }
        }
        proof {
            let whole = sp_program(ts, p0);
            assert(sp_program(ts, self.at()) == (Seq::<FuncV>::empty(), self.at(), Seq::<Msg>::empty()));
            assert(whole.0 =~= program_view(AstProgram { decls }));
            assert(whole.2 =~= eacc);
        }
        AstProgram { decls }
    }

    /// One top-level item.
    fn parse_decl(&mut self) -> (r: Option<AstFuncDecl>)
        requires
            old(self).wf(),
            old(self).current() != Token::EOF,
        ensures
            final(self).went_on_from(*old(self)),
            final(self).at() > old(self).at(),
            ({
                let (v, q, es) = sp_decl(old(self).toks(), old(self).at());
                &&& (match r { Some(f) => v == Some(func_view(f)), None => v is None })
                &&& final(self).at() == q
                &&& reported(old(self).msgs(), final(self).msgs(), es)
            }),
    {
        if self.check(&Token::Func) {
            Some(self.parse_func_decl())
        } else if self.check(&Token::Let) {
            let span = self.peek_span();
            self.report(owned("global variable declarations not supported yet"), span);
            self.advance();
            self.sync_to(&[Token::Func, Token::Let, Token::EOF]);
            None
        } else {
            let span = self.peek_span();
            self.report(owned("expected top-level declaration"), span);
            self.advance();
            None
        }
    }

    /// Parameters, each after a comma.
    fn parse_params(&mut self) -> (r: Vec<AstParam>)
        requires
            old(self).wf(),
        ensures
            final(self).went_on_from(*old(self)),
            ({
                let (v, q, es) = sp_params(old(self).toks(), old(self).at());
                &&& r@.map_values(|p: AstParam| param_view(p)) == v
                &&& final(self).at() == q
                &&& reported(old(self).msgs(), final(self).msgs(), es)
            }),
    {
        let ghost ts = self.toks();
        let ghost m0 = self.msgs();
        let ghost p0 = self.at();
        let mut params: Vec<AstParam> = Vec::new();
        let ghost mut eacc: Seq<Msg> = seq![];
        proof {
            lemma_reported_none(m0);
            let whole = sp_params(ts, p0);
            assert(params@.map_values(|p: AstParam| param_view(p)) =~= Seq::<ParamV>::empty());
            assert(whole.0 =~= params@.map_values(|p: AstParam| param_view(p)) + whole.0);
            assert(whole.2 =~= eacc + whole.2);
        }
        while self.check_advance(&Token::Comma)
            invariant
                self.went_on_from(*old(self)),
                ts == self.toks(),
                p0 <= self.at(),
                reported(m0, self.msgs(), eacc),
                ({
                    let whole = sp_params(ts, p0);
                    let rest = sp_params(ts, self.at());
                    &&& whole.0 == params@.map_values(|p: AstParam| param_view(p)) + rest.0
                    &&& whole.1 == rest.1
                    &&& whole.2 == eacc + rest.2
                }),
            decreases self.left(),
        {
            let ghost h = (self.at() - 1) as int;
            let ghost mh = self.msgs();
            let ghost old_params = params@;
            let ghost q = self.at();
            let (param_name, pspan) = self.parse_name("expected parameter name");
            let ghost m1 = self.msgs();
            let ghost q1 = self.at();
            self.expect(&Token::Colon);
            let ghost m2 = self.msgs();
            let ghost q2 = self.at();
            let param_type = self.parse_type();
            let prm = AstParam { name: param_name, name_span: pspan, type_: param_type };
            params.push(prm);
            proof {
                let e1 = sp_name(ts, q, "expected parameter name"@).1;
                let e2 = expect_at(ts, q1, Token::Colon).1;
                let e3 = sp_type(ts, q2).2;
                let pv: ParamV = (sp_name(ts, q, "expected parameter name"@).0, span_at(ts, q), sp_type(ts, q2).0);
                assert(param_view(prm) == pv);
                let whole = sp_params(ts, p0);
                let restq = sp_params(ts, self.at());
                assert(sp_params(ts, h) == (seq![pv] + restq.0, restq.1, e1 + e2 + e3 + restq.2));
                assert(params@.map_values(|p: AstParam| param_view(p))
                    =~= old_params.map_values(|p: AstParam| param_view(p)).push(pv));
                assert(whole.0 =~= params@.map_values(|p: AstParam| param_view(p)) + restq.0);
                lemma_reported_chain(mh, m1, m2, e1, e2);
                lemma_reported_chain(mh, m2, self.msgs(), e1 + e2, e3);
                lemma_reported_chain(m0, mh, self.msgs(), eacc, e1 + e2 + e3);
                assert(whole.2 =~= (eacc + (e1 + e2 + e3)) + restq.2);
                eacc = eacc + (e1 + e2 + e3);
            }
        }
        proof {
            let whole = sp_params(ts, p0);
            assert(sp_params(ts, self.at()) == (Seq::<ParamV>::empty(), self.at(), Seq::<Msg>::empty()));
            assert(whole.0 =~= params@.map_values(|p: AstParam| param_view(p)));
            assert(whole.2 =~= eacc);
        }
        params
    }

    fn parse_func_decl(&mut self) -> (r: AstFuncDecl)
        requires
            old(self).wf(),
            old(self).current() == Token::Func,
        ensures
            final(self).went_on_from(*old(self)),
            final(self).at() > old(self).at(),
            ({
                let (v, q, es) = sp_func(old(self).toks(), old(self).at());
                &&& func_view(r) == v
                &&& final(self).at() == q
                &&& reported(old(self).msgs(), final(self).msgs(), es)
            }),
    {
        let ghost ts = self.toks();
        let ghost m0 = self.msgs();
        let ghost p0 = self.at();
        let start_span = self.peek_span();
        self.expect(&Token::Func);
        let ghost p1 = self.at();
        let (name, name_span) = self.parse_name("expected function name");
        let ghost m2 = self.msgs();
        let ghost p2 = self.at();
        self.expect(&Token::LParen);
        let ghost m3 = self.msgs();
        let ghost p3 = self.at();
        let return_type = if self.check(&Token::RParen) {
            proof {
                lemma_reported_none(self.msgs());
            }
            AstType::Prim(PrimType::Void)
        } else {
            self.parse_type()
        };
        let ghost m4 = self.msgs();
        let ghost p4 = self.at();
        let params = self.parse_params();
        let ghost m5 = self.msgs();
        let ghost p5 = self.at();
        self.expect(&Token::RParen);
        let ghost m6 = self.msgs();
        let ghost p6 = self.at();
        self.expect(&Token::LBrace);
        let ghost m7 = self.msgs();
        let ghost p7 = self.at();
        let body = self.parse_block_body();
        let end_span = self.peek_span();
        proof {
            let e1 = expect_at(ts, p0, Token::Func).1;
            let e2 = sp_name(ts, p1, "expected function name"@).1;
            let e3 = expect_at(ts, p2, Token::LParen).1;
            let e4 = if tok_at(ts, p3) == Token::RParen { Seq::<Msg>::empty() } else { sp_type(ts, p3).2 };
            let e5 = sp_params(ts, p4).2;
            let e6 = expect_at(ts, p5, Token::RParen).1;
            let e7 = expect_at(ts, p6, Token::LBrace).1;
            let e8 = sp_block_body(ts, p7).2;
            assert(e1 == Seq::<Msg>::empty());
            lemma_reported_chain(m0, m2, m3, e1 + e2, e3);
            lemma_reported_chain(m0, m3, m4, e1 + e2 + e3, e4);
            lemma_reported_chain(m0, m4, m5, e1 + e2 + e3 + e4, e5);
            lemma_reported_chain(m0, m5, m6, e1 + e2 + e3 + e4 + e5, e6);
            lemma_reported_chain(m0, m6, m7, e1 + e2 + e3 + e4 + e5 + e6, e7);
            lemma_reported_chain(m0, m7, self.msgs(), e1 + e2 + e3 + e4 + e5 + e6 + e7, e8);
        }
        AstFuncDecl {
            name,
            name_span,
            return_type,
            params,
            body,
            span: Span { start: start_span.start, end: end_span.end },
        }
    }

    fn parse_block_body(&mut self) -> (r: Vec<SpStmt>)
        requires
            old(self).wf(),
        ensures
            final(self).went_on_from(*old(self)),
            ({
                let (v, q, es) = sp_block_body(old(self).toks(), old(self).at());
                &&& stmts_view(r@) == v
                &&& final(self).at() == q
                &&& reported(old(self).msgs(), final(self).msgs(), es)
            }),
        decreases old(self).left(), 6nat,
    {
        let ghost ts = self.toks();
        let ghost m0 = self.msgs();
        let ghost p0 = self.at();
        let mut stmts: Vec<SpStmt> = Vec::new();
        let ghost mut eacc: Seq<Msg> = seq![];
        proof {
            lemma_reported_none(m0);
            let whole = sp_stmts(ts, p0);
            assert(stmts_view(stmts@) =~= Seq::<SpStmtV>::empty());
            assert(whole.0 =~= stmts_view(stmts@) + whole.0);
            assert(whole.2 =~= eacc + whole.2);
        }
        while !self.check(&Token::RBrace) && !self.check(&Token::EOF)
            invariant
                self.went_on_from(*old(self)),
                ts == self.toks(),
                p0 <= self.at(),
                reported(m0, self.msgs(), eacc),
                ({
                    let whole = sp_stmts(ts, p0);
                    let rest = sp_stmts(ts, self.at());
                    &&& whole.0 == stmts_view(stmts@) + rest.0
                    &&& whole.1 == rest.1
                    &&& whole.2 == eacc + rest.2
                }),
            decreases self.left(),
        {
            let ghost h = self.at();
            let ghost mh = self.msgs();
            let ghost old_seq = stmts@;
            let st = self.parse_statement();
            let ghost sv = sp_stmt(ts, h);
            stmts.push(st);
            proof {
                let whole = sp_stmts(ts, p0);
                let restq = sp_stmts(ts, sv.1);
                assert(sp_stmts(ts, h) == (seq![sv.0] + restq.0, restq.1, sv.2 + restq.2));
                assert(stmts@.drop_last() =~= old_seq);
                assert(stmts_view(stmts@) == stmts_view(old_seq).push(sv.0));
                assert(whole.0 =~= stmts_view(stmts@) + restq.0);
                lemma_reported_chain(m0, mh, self.msgs(), eacc, sv.2);
                assert(whole.2 =~= (eacc + sv.2) + restq.2);
                eacc = eacc + sv.2;
            }
        }
        let ghost q = self.at();
        let ghost mq = self.msgs();
        self.expect(&Token::RBrace);
        proof {
            let whole = sp_stmts(ts, p0);
            assert(sp_stmts(ts, q) == (Seq::<SpStmtV>::empty(), q, Seq::<Msg>::empty()));
            assert(whole.0 =~= stmts_view(stmts@));
            assert(whole.2 =~= eacc);
            lemma_reported_chain(m0, mq, self.msgs(), eacc, expect_at(ts, q, Token::RBrace).1);
        }
        stmts
    }

    /// An expression followed by a semicolon.
    fn parse_expr_semi(&mut self) -> (r: SpExpr)
        requires
            old(self).wf(),
        ensures
            final(self).went_on_from(*old(self)),
            ({
                let (v, q, es) = sp_expr_semi(old(self).toks(), old(self).at());
                &&& expr_view(r) == v
                &&& final(self).at() == q
                &&& reported(old(self).msgs(), final(self).msgs(), es)
            }),
            old(self).current() != Token::EOF ==> final(self).at() > old(self).at(),
    {
        let ghost ts = self.toks();
        let ghost m0 = self.msgs();
        let e = self.parse_expr(0);
        let ghost q = self.at();
        let ghost m1 = self.msgs();
        self.expect(&Token::Semicolon);
        proof {
            lemma_reported_chain(m0, m1, self.msgs(), sp_expr(ts, old(self).at(), 0).2, expect_at(ts, q, Token::Semicolon).1);
        }
        e
    }

    /// Reads a name: an identifier, else `msg` is reported and the name is
    /// empty. The token is read either way.
    fn parse_name(&mut self, msg: &str) -> (r: (String, Span))
        requires
            old(self).wf(),
        ensures
            final(self).went_on_from(*old(self)),
            ({
                let (n, es) = sp_name(old(self).toks(), old(self).at(), msg@);
                &&& r.0@ == n
                &&& r.1 == old(self).current_span()
                &&& final(self).at() == step(old(self).toks(), old(self).at())
                &&& reported(old(self).msgs(), final(self).msgs(), es)
            }),
    {
        let (tok, span) = self.advance();
        match tok {
            Token::Ident(s) => {
                proof {
                    lemma_reported_none(self.msgs());
                }
                (s, span)
            },
            _ => {
                self.report(owned(msg), span);
                (String::new(), span)
            },
        }
    }

    #[verifier::rlimit(50)]
    fn parse_statement(&mut self) -> (r: SpStmt)
        requires
            old(self).wf(),
        ensures
            final(self).went_on_from(*old(self)),
            ({
                let (v, q, es) = sp_stmt(old(self).toks(), old(self).at());
                &&& stmt_view(r) == v
                &&& final(self).at() == q
                &&& reported(old(self).msgs(), final(self).msgs(), es)
            }),
            old(self).current() != Token::EOF ==> final(self).at() > old(self).at(),
        decreases old(self).left(), 5nat,
    {
        let ghost ts = self.toks();
        let ghost m0 = self.msgs();
        let ghost p0 = self.at();
        let start = self.peek_span();
        if self.check(&Token::Return) {
            self.advance();
            let expr = if !self.check(&Token::Semicolon) {
                Some(self.parse_expr_semi())
            } else {
                self.expect(&Token::Semicolon);
                None
            };
            let span = Span { start: start.start, end: self.pos };
            Spanned(StmtKind::Return(expr), span)
        } else if self.check(&Token::Let) {
            self.advance();
            let ghost p1 = self.at();
            let (name, _) = self.parse_name("expected variable name");
            let ghost m1 = self.msgs();
            let ghost p2 = self.at();
            self.expect(&Token::Colon);
            let ghost m2 = self.msgs();
            let ghost p3 = self.at();
            let type_ = self.parse_type();
            let ghost m3 = self.msgs();
            let ghost p4 = self.at();
            let init = if self.check_advance(&Token::Assign) {
                Some(self.parse_expr_semi())
            } else {
                self.expect(&Token::Semicolon);
                None
            };
            proof {
                let e1 = sp_name(ts, p1, "expected variable name"@).1;
                let e2 = expect_at(ts, p2, Token::Colon).1;
                let e3 = sp_type(ts, p3).2;
                let e4 = if tok_at(ts, p4) == Token::Assign { sp_expr_semi(ts, p4 + 1).2 } else { expect_at(ts, p4, Token::Semicolon).1 };
                lemma_reported_chain(m0, m1, m2, e1, e2);
                lemma_reported_chain(m0, m2, m3, e1 + e2, e3);
                lemma_reported_chain(m0, m3, self.msgs(), e1 + e2 + e3, e4);
            }
            let span = Span { start: start.start, end: self.pos };
            Spanned(StmtKind::VarDecl { name, type_, init }, span)
        } else if self.check(&Token::If) {
            self.parse_if()
        } else if self.check(&Token::While) {
            self.parse_while()
        } else if self.check(&Token::LBrace) {
            self.advance();
            let stmts = self.parse_block_body();
            let span = Span { start: start.start, end: self.pos };
            Spanned(StmtKind::Block(stmts), span)
        } else {
            let expr = self.parse_expr(0);
            let ghost m1 = self.msgs();
            let ghost p1 = self.at();
            let is_ident = match &expr.0 {
                ExprKind::Ident(_) => true,
                _ => false,
            };
            if self.check(&Token::Assign) && is_ident {
                self.advance();
                let value = self.parse_expr_semi();
                proof {
                    lemma_reported_chain(m0, m1, self.msgs(), sp_expr(ts, p0, 0).2, sp_expr_semi(ts, p1 + 1).2);
                }
                let name = match expr.0 {
                    ExprKind::Ident(s) => s,
                    _ => String::new(),
                };
                Spanned(StmtKind::Assign(name, value), Span { start: start.start, end: self.pos })
            } else {
                self.expect(&Token::Semicolon);
                proof {
                    lemma_reported_chain(m0, m1, self.msgs(), sp_expr(ts, p0, 0).2, expect_at(ts, p1, Token::Semicolon).1);
                }
                Spanned(StmtKind::Expr(expr), Span { start: start.start, end: self.pos })
            }
        }
    }

    /// The keyword, parenthesised condition and opening brace of an `if` or
    /// `while`.
    fn parse_head(&mut self) -> (r: SpExpr)
        requires
            old(self).wf(),
            old(self).current() == Token::If || old(self).current() == Token::While,
        ensures
            final(self).went_on_from(*old(self)),
            final(self).at() > old(self).at(),
            ({
                let (v, q, es) = sp_head(old(self).toks(), old(self).at());
                &&& expr_view(r) == v
                &&& final(self).at() == q
                &&& reported(old(self).msgs(), final(self).msgs(), es)
            }),
    {
        let ghost ts = self.toks();
        let ghost m0 = self.msgs();
        self.advance();
        let ghost p1 = self.at();
        self.expect(&Token::LParen);
        let ghost m1 = self.msgs();
        let ghost p2 = self.at();
        let cond = self.parse_expr(0);
        let ghost m2 = self.msgs();
        let ghost p3 = self.at();
        self.expect(&Token::RParen);
        let ghost m3 = self.msgs();
        let ghost p4 = self.at();
        self.expect(&Token::LBrace);
        proof {
            let e1 = expect_at(ts, p1, Token::LParen).1;
            let e2 = sp_expr(ts, p2, 0).2;
            let e3 = expect_at(ts, p3, Token::RParen).1;
            let e4 = expect_at(ts, p4, Token::LBrace).1;
            lemma_reported_chain(m0, m1, m2, e1, e2);
            lemma_reported_chain(m0, m2, m3, e1 + e2, e3);
            lemma_reported_chain(m0, m3, self.msgs(), e1 + e2 + e3, e4);
        }
        cond
    }

    fn parse_if(&mut self) -> (r: SpStmt)
        requires
            old(self).wf(),
            old(self).current() == Token::If,
        ensures
            final(self).went_on_from(*old(self)),
            final(self).at() > old(self).at(),
            ({
                let (v, q, es) = sp_if(old(self).toks(), old(self).at());
                &&& stmt_view(r) == v
                &&& final(self).at() == q
                &&& reported(old(self).msgs(), final(self).msgs(), es)
            }),
        decreases old(self).left(), 4nat,
    {
        let ghost ts = self.toks();
        let ghost m0 = self.msgs();
        let start = self.peek_span();
        let cond = self.parse_head();
        let ghost m1 = self.msgs();
        let ghost p5 = self.at();
        let then_body = self.parse_block_body();
        let ghost m2 = self.msgs();
        let ghost p6 = self.at();
        let else_body = self.parse_else(Ghost(old(self).at()));
        proof {
            lemma_reported_chain(m0, m1, m2, sp_head(ts, old(self).at()).2, sp_block_body(ts, p5).2);
            lemma_reported_chain(m0, m2, self.msgs(), sp_head(ts, old(self).at()).2 + sp_block_body(ts, p5).2,
                sp_else(ts, p6, old(self).at()).2);
        }
        Spanned(StmtKind::If(cond, then_body, else_body), Span { start: start.start, end: self.pos })
    }

    /// What may follow the body of an `if` that starts at `p`.
    fn parse_else(&mut self, Ghost(p): Ghost<int>) -> (r: Option<Vec<SpStmt>>)
        requires
            old(self).wf(),
            0 <= p < old(self).at(),
        ensures
            final(self).went_on_from(*old(self)),
            ({
                let (v, q, es) = sp_else(old(self).toks(), old(self).at(), p);
                &&& (match r { Some(b) => v == Some(stmts_view(b@)), None => v is None })
                &&& final(self).at() == q
                &&& reported(old(self).msgs(), final(self).msgs(), es)
            }),
        decreases old(self).left(), 3nat,
    {
        if self.check_advance(&Token::Else) {
            if self.check(&Token::LBrace) {
                self.advance();
                Some(self.parse_block_body())
            } else if self.check(&Token::If) {
                let if_stmt = self.parse_if();
                let mut v: Vec<SpStmt> = Vec::new();
                v.push(if_stmt);
                proof {
                    assert(v@.drop_last() =~= Seq::<SpStmt>::empty());
                    assert(stmts_view(v@.drop_last()) == Seq::<SpStmtV>::empty());
                    assert(stmts_view(v@) =~= seq![stmt_view(v@[0])]);
                }
                Some(v)
            } else {
                proof {
                    lemma_reported_none(self.msgs());
                }
                None
            }
        } else {
            proof {
                lemma_reported_none(self.msgs());
            }
            None
        }
    }

    fn parse_while(&mut self) -> (r: SpStmt)
        requires
            old(self).wf(),
            old(self).current() == Token::While,
        ensures
            final(self).went_on_from(*old(self)),
            final(self).at() > old(self).at(),
            ({
                let (v, q, es) = sp_while(old(self).toks(), old(self).at());
                &&& stmt_view(r) == v
                &&& final(self).at() == q
                &&& reported(old(self).msgs(), final(self).msgs(), es)
            }),
        decreases old(self).left(), 4nat,
    {
        let ghost ts = self.toks();
        let ghost m0 = self.msgs();
        let start = self.peek_span();
        let cond = self.parse_head();
        let ghost m1 = self.msgs();
        let ghost p5 = self.at();
        let body = self.parse_block_body();
        proof {
            lemma_reported_chain(m0, m1, self.msgs(), sp_head(ts, old(self).at()).2, sp_block_body(ts, p5).2);
        }
        Spanned(StmtKind::While(cond, body), Span { start: start.start, end: self.pos })
    }
}

} // verus!

verus! {

/// The precedence level of each binary operator of L1S, loosest first:
/// `||`, then `&&`, then `==` `!=`, then `<` `>` `<=` `>=`, then `+` `-`,
/// then `*` `/`.
pub open spec fn precedence_level(t: Token) -> Option<nat> {
    match t {
        Token::OrOr => Some(0),
        Token::AndAnd => Some(1),
        Token::Eq | Token::Neq => Some(2),
        Token::Lt | Token::Gt | Token::Le | Token::Ge => Some(3),
        Token::Plus | Token::Minus => Some(4),
        Token::Star | Token::Slash => Some(5),
        _ => None,
    }
}

/// The binding powers give the operators their precedence and make each
/// of them left-associative. For binary operators `p` and `q`:
/// - on one level, `a p b q c` groups as `(a p b) q c`: `q`'s left power is
///   below `p`'s right power (so in particular `a - b - c` is `(a - b) - c`);
/// - where `q` binds tighter than `p`, `a p b q c` groups as `a p (b q c)`
///   and `a q b p c` as `(a q b) p c`.
/// The operators are exactly the tokens with a level; apart from them only
/// the call parenthesis has binding powers.
pub proof fn lemma_binding_powers_follow_precedence(p: Token, q: Token)
    ensures
        precedence_level(p) is Some <==> (spec_infix_bp(p) is Some && p != Token::LParen),
        (precedence_level(p) is Some && precedence_level(q) is Some) ==> {
            let lp = precedence_level(p)->0;
            let lq = precedence_level(q)->0;
            let (pl, pr) = spec_infix_bp(p)->0;
            let (ql, qr) = spec_infix_bp(q)->0;
            &&& pl < pr
            &&& (lp == lq ==> ql < pr)
            &&& (lp < lq ==> ql >= pr && pl < qr)
        },
{
}

/// Each operator token stands for the operator written the same way, and
/// the operator tokens are exactly those with a precedence level.
pub proof fn lemma_operator_tokens(t: Token)
    ensures
        spec_binary_op(t) is Some ==> token_text(t) == binary_op_text(spec_binary_op(t)->0),
        spec_binary_op(t) is Some <==> precedence_level(t) is Some,
{
}

} // verus!
