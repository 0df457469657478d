//! The grammar of the language, written as a parser over the token list:
//! each function takes the tokens and a position and gives what is read
//! there, the position after it, and the errors reported on the way, in
//! order. Where the parser meets a token it does not expect it reports an
//! error and goes on, so every token list has a reading.
//!
//! The conditions that give a default reading (a position out of range, or
//! one that would move backwards) never hold on a token list that ends with
//! its one end-of-file token; they are there so that each definition
//! visibly terminates.

use vstd::prelude::*;
use crate::ssa::span::Span;
use crate::ssa::token::{Token, token_text};
use crate::ssa::diag::{Diagnostic, Severity, pushed_error};
use crate::ssa::ast::{PrimType, UnaryOp, TypeV, ExprV, SpExprV, StmtV, SpStmtV, ParamV, FuncV};
use crate::ssa::parser::{spec_prim_type, spec_prefix_bp, spec_infix_bp, spec_binary_op, spec_is_type_token, found_message};

verus! {

/// An error: its message and the span it points at.
pub type Msg = (Seq<char>, Span);

/// The tokens a parser reads, with their spans.
pub type Toks = Seq<(Token, Span)>;

/// Whether `d` is the error `m`.
pub open spec fn error_is(d: Diagnostic, m: Msg) -> bool {
    &&& d.severity == Severity::Error
    &&& d.message@ == m.0
    &&& d.span == Some(m.1)
    &&& d.notes@.len() == 0
}

/// Whether `ds` is `old` followed by the errors `ms`, in order.
pub open spec fn reported(old: Seq<Diagnostic>, ds: Seq<Diagnostic>, ms: Seq<Msg>) -> bool {
    &&& ds.len() == old.len() + ms.len()
    &&& forall|i: int| 0 <= i < old.len() ==> #[trigger] ds[i] == old[i]
    &&& forall|i: int| old.len() <= i < ds.len() ==> error_is(#[trigger] ds[i], ms[i - old.len()])
}

/// Adding nothing reports nothing.
pub proof fn lemma_reported_none(a: Seq<Diagnostic>)
    ensures
        reported(a, a, seq![]),
{
}

/// Reports in a row add up.
pub proof fn lemma_reported_chain(a: Seq<Diagnostic>, b: Seq<Diagnostic>, c: Seq<Diagnostic>, m1: Seq<Msg>, m2: Seq<Msg>)
    requires
        reported(a, b, m1),
        reported(b, c, m2),
    ensures
        reported(a, c, m1 + m2),
{
    assert forall|i: int| 0 <= i < a.len() implies #[trigger] c[i] == a[i] by {
        assert(c[i] == b[i]);
    }
    assert forall|i: int| a.len() <= i < c.len() implies error_is(#[trigger] c[i], (m1 + m2)[i - a.len()]) by {
        if i < b.len() {
            assert(c[i] == b[i]);
        }
    }
}

/// One pushed error is one report.
pub proof fn lemma_pushed_reported(a: Seq<Diagnostic>, b: Seq<Diagnostic>, msg: Seq<char>, span: Span)
    requires
        pushed_error(a, b, msg, Some(span)),
    ensures
        reported(a, b, seq![(msg, span)]),
{
    assert forall|i: int| 0 <= i < a.len() implies #[trigger] b[i] == a[i] by {
        assert(b.take(a.len() as int)[i] == b[i]);
    }
}

/// The token at `p`.
pub open spec fn tok_at(ts: Toks, p: int) -> Token {
    ts[p].0
}

/// The span of the token at `p`.
pub open spec fn span_at(ts: Toks, p: int) -> Span {
    ts[p].1
}

/// The position after the token at `p`; the end-of-file token is never
/// left.
pub open spec fn step(ts: Toks, p: int) -> int {
    if tok_at(ts, p) == Token::EOF { p } else { p + 1 }
}

/// Reading the token `t` at `p`: the position after it, or, for another
/// token, an error and the same position.
pub open spec fn expect_at(ts: Toks, p: int, t: Token) -> (int, Seq<Msg>) {
    if tok_at(ts, p) == t {
        (step(ts, p), seq![])
    } else {
        (p, seq![(found_message(token_text(t), tok_at(ts, p)), span_at(ts, p))])
    }
}

/// The span of the token before `p` (the first token's at the start).
pub open spec fn prev_span_at(ts: Toks, p: int) -> Span {
    if p > 0 { span_at(ts, p - 1) } else { span_at(ts, 0) }
}

/// The reading of an expression where none could be read.
pub open spec fn no_expr(sp: Span) -> SpExprV {
    SpExprV { kind: ExprV::Int(0), span: sp }
}

/// A type at `p`: a primitive type, a name, `*` and a type, or `[` a type,
/// optionally `;` and a length, and `]`.
pub open spec fn sp_type(ts: Toks, p: int) -> (TypeV, int, Seq<Msg>)
    decreases ts.len() - p,
{
    if !(0 <= p < ts.len()) {
        (TypeV::Prim(PrimType::I32), p, seq![])
    } else {
        let t = tok_at(ts, p);
        match spec_prim_type(t) {
            Some(pt) => (TypeV::Prim(pt), p + 1, seq![]),
            None => match t {
                Token::Star => {
                    let (inner, q, es) = sp_type(ts, p + 1);
                    (TypeV::Ptr(Box::new(inner)), q, es)
                },
                Token::LBracket => {
                    let (inner, q1, e1) = sp_type(ts, p + 1);
                    let (size, q3) = if tok_at(ts, q1) == Token::Semicolon {
                        let q2 = q1 + 1;
                        (match tok_at(ts, q2) {
                            Token::IntLit(n) => Some(n as usize),
                            _ => None,
                        }, step(ts, q2))
                    } else {
                        (None, q1)
                    };
                    let (q4, e2) = expect_at(ts, q3, Token::RBracket);
                    (TypeV::Array(Box::new(inner), size), q4, e1 + e2)
                },
                Token::Ident(w) => (TypeV::Named(w@), p + 1, seq![]),
                _ => (TypeV::Prim(PrimType::I32), p, seq![(found_message("type"@, t), span_at(ts, p))]),
            },
        }
    }
}

/// An expression at `p` whose operators bind at least as tightly as
/// `min_bp`: a prefix, then operators and calls while they bind tightly
/// enough. A token no expression starts with is reported.
pub open spec fn sp_expr(ts: Toks, p: int, min_bp: u8) -> (SpExprV, int, Seq<Msg>)
    decreases ts.len() - p, 2nat,
{
    if !(0 <= p < ts.len()) {
        (no_expr(Span { start: 0, end: 0 }), p, seq![])
    } else {
        let t = tok_at(ts, p);
        let s0 = span_at(ts, p);
        let p1 = step(ts, p);
        let e0: Seq<Msg> = if spec_prefix_bp(t) is None { seq![(found_message("expression"@, t), s0)] } else { seq![] };
        let (k, sp1, p2, e1) = sp_prefix(ts, p1, t, s0);
        if !(p1 <= p2 <= ts.len()) {
            (no_expr(s0), p2, e0 + e1)
        } else {
            let (k2, sp2, p3, e2) = sp_infix(ts, p2, min_bp, k, sp1);
            (SpExprV { kind: k2, span: sp2 }, p3, e0 + e1 + e2)
        }
    }
}

/// What follows the token `t` (read at `start`) that starts an expression;
/// `p` is the position after `t`.
pub open spec fn sp_prefix(ts: Toks, p: int, t: Token, start: Span) -> (ExprV, Span, int, Seq<Msg>)
    decreases ts.len() - p, if t == Token::EOF { 0nat } else { 3nat },
{
    if !(0 <= p < ts.len()) {
        (ExprV::Int(0), start, p, seq![])
    } else {
        match t {
            Token::IntLit(n) => (ExprV::Int(n), start, p, seq![]),
            Token::True => (ExprV::Bool(true), start, p, seq![]),
            Token::False => (ExprV::Bool(false), start, p, seq![]),
            Token::Ident(w) => (ExprV::Ident(w@), start, p, seq![]),
            Token::Minus => {
                let (rhs, q, es) = sp_expr(ts, p, 15);
                (ExprV::Unary(UnaryOp::Neg, Box::new(rhs)), Span { start: start.start, end: rhs.span.end }, q, es)
            },
            Token::Not => {
                let (rhs, q, es) = sp_expr(ts, p, 15);
                (ExprV::Unary(UnaryOp::Not, Box::new(rhs)), Span { start: start.start, end: rhs.span.end }, q, es)
            },
            Token::LParen => {
                let (e, q, e1) = sp_expr(ts, p, 0);
                let (q2, e2) = expect_at(ts, q, Token::RParen);
                (e.kind, e.span, q2, e1 + e2)
            },
            _ => {
                if spec_is_type_token(t) {
                    let (ty, q, e1) = sp_type(ts, p);
                    if !(p <= q <= ts.len()) {
                        (ExprV::Int(0), start, q, e1)
                    } else {
                        let (rhs, q2, e2) = sp_expr(ts, q, 15);
                        (ExprV::Cast(ty, Box::new(rhs)), Span { start: start.start, end: rhs.span.end }, q2, e1 + e2)
                    }
                } else {
                    (ExprV::Int(0), start, p, seq![(found_message("expression"@, t), start)])
                }
            },
        }
    }
}

/// The operators and calls that follow the operand `lhs` (spanning `span`)
/// at `p`, as long as they bind at least as tightly as `min_bp`.
pub open spec fn sp_infix(ts: Toks, p: int, min_bp: u8, lhs: ExprV, span: Span) -> (ExprV, Span, int, Seq<Msg>)
    decreases ts.len() - p, 1nat,
{
    if !(0 <= p < ts.len()) {
        (lhs, span, p, seq![])
    } else {
        let t = tok_at(ts, p);
        match spec_infix_bp(t) {
            None => (lhs, span, p, seq![]),
            Some((l, r)) => {
                if l < min_bp {
                    (lhs, span, p, seq![])
                } else {
                    let p1 = step(ts, p);
                    if t == Token::LParen {
                        let (name, e0) = match lhs {
                            ExprV::Ident(s) => (s, Seq::<Msg>::empty()),
                            _ => (Seq::<char>::empty(), seq![("callee must be an identifier"@, span)]),
                        };
                        let (args, p2, e1) = sp_call_args(ts, p1);
                        let (p3, e2) = expect_at(ts, p2, Token::RParen);
                        let sp2 = Span { start: span.start, end: prev_span_at(ts, p3).end };
                        if !(p < p3 <= ts.len()) {
                            (ExprV::Call(name, args), sp2, p3, e0 + e1 + e2)
                        } else {
                            let (k, s, p4, e3) = sp_infix(ts, p3, min_bp, ExprV::Call(name, args), sp2);
                            (k, s, p4, e0 + e1 + e2 + e3)
                        }
                    } else {
                        let (rhs, p2, e1) = sp_expr(ts, p1, r);
                        let full = Span { start: span.start, end: rhs.span.end };
                        let (lhs2, e2) = match spec_binary_op(t) {
                            Some(op) => (ExprV::Binary(op, Box::new(SpExprV { kind: lhs, span }), Box::new(rhs)), Seq::<Msg>::empty()),
                            None => (lhs, seq![("unexpected operator "@ + token_text(t), span_at(ts, p))]),
                        };
                        if !(p < p2 <= ts.len()) {
                            (lhs2, full, p2, e1 + e2)
                        } else {
                            let (k, s, p3, e3) = sp_infix(ts, p2, min_bp, lhs2, full);
                            (k, s, p3, e1 + e2 + e3)
                        }
                    }
                }
            },
        }
    }
}

/// The arguments of a call at `p` (after its opening parenthesis): none
/// when a closing parenthesis follows, else expressions separated by
/// commas.
pub open spec fn sp_call_args(ts: Toks, p: int) -> (Seq<SpExprV>, int, Seq<Msg>)
    decreases ts.len() - p, 3nat,
{
    if !(0 <= p < ts.len()) || tok_at(ts, p) == Token::RParen {
        (Seq::<SpExprV>::empty(), p, Seq::<Msg>::empty())
    } else {
        let (a, q, ea) = sp_expr(ts, p, 0);
        if !(p <= q <= ts.len()) {
            (seq![a], q, ea)
        } else {
            let (rest, q2, er) = sp_args_rest(ts, q);
            (seq![a] + rest, q2, ea + er)
        }
    }
}

/// The further arguments of a call at `p`: while a comma follows, another
/// expression.
pub open spec fn sp_args_rest(ts: Toks, p: int) -> (Seq<SpExprV>, int, Seq<Msg>)
    decreases ts.len() - p, 2nat,
{
    if !(0 <= p < ts.len()) {
        (seq![], p, seq![])
    } else if tok_at(ts, p) == Token::Comma {
        let (a, q, e1) = sp_expr(ts, p + 1, 0);
        if !(p < q <= ts.len()) {
            (seq![a], q, e1)
        } else {
            let (rest, q2, e2) = sp_args_rest(ts, q);
            (seq![a] + rest, q2, e1 + e2)
        }
    } else {
        (seq![], p, seq![])
    }
}


/// Two alike tokens read the same way everywhere in the grammar.
pub proof fn lemma_alike_same(t1: Token, t2: Token)
    requires
        t1.alike(t2),
    ensures
        token_text(t1) == token_text(t2),
        spec_prefix_bp(t1) == spec_prefix_bp(t2),
        spec_infix_bp(t1) == spec_infix_bp(t2),
        spec_binary_op(t1) == spec_binary_op(t2),
        spec_is_type_token(t1) == spec_is_type_token(t2),
        spec_prim_type(t1) == spec_prim_type(t2),
        (t1 == Token::EOF) == (t2 == Token::EOF),
        (t1 == Token::LParen) == (t2 == Token::LParen),
        t1 is Ident == t2 is Ident,
        t1 is Ident ==> t1->Ident_0@ == t2->Ident_0@,
        t1 is IntLit ==> t1 == t2,
{
}

/// What follows a token does not depend on which of two alike tokens it is.
pub proof fn lemma_prefix_alike(ts: Toks, p: int, t1: Token, t2: Token, start: Span)
    requires
        t1.alike(t2),
    ensures
        sp_prefix(ts, p, t1, start) == sp_prefix(ts, p, t2, start),
{
    lemma_alike_same(t1, t2);
    if !(t1 is Ident || t1 is Error) {
        assert(t1 == t2);
    }
}


/// Statements at `p`, up to a closing brace or the end of the input.
pub open spec fn sp_stmts(ts: Toks, p: int) -> (Seq<SpStmtV>, int, Seq<Msg>)
    decreases ts.len() - p, 6nat,
{
    if !(0 <= p < ts.len()) || tok_at(ts, p) == Token::RBrace || tok_at(ts, p) == Token::EOF {
        (seq![], p, seq![])
    } else {
        let (st, q, e1) = sp_stmt(ts, p);
        if !(p < q <= ts.len()) {
            (seq![st], q, e1)
        } else {
            let (rest, q2, e2) = sp_stmts(ts, q);
            (seq![st] + rest, q2, e1 + e2)
        }
    }
}

/// The body of a block at `p` (after its opening brace): statements, then
/// the closing brace.
pub open spec fn sp_block_body(ts: Toks, p: int) -> (Seq<SpStmtV>, int, Seq<Msg>)
    decreases ts.len() - p, 7nat,
{
    if !(0 <= p < ts.len()) {
        (seq![], p, seq![])
    } else {
        let (ss, q, e1) = sp_stmts(ts, p);
        let (q2, e2) = expect_at(ts, q, Token::RBrace);
        (ss, q2, e1 + e2)
    }
}

/// An expression at `p` followed by a semicolon.
pub open spec fn sp_expr_semi(ts: Toks, p: int) -> (SpExprV, int, Seq<Msg>) {
    let (e, q, e1) = sp_expr(ts, p, 0);
    let (q2, e2) = expect_at(ts, q, Token::Semicolon);
    (e, q2, e1 + e2)
}

/// The name in a declaration at `p`: an identifier, else an error with the
/// given message and an empty name. The token is read either way.
pub open spec fn sp_name(ts: Toks, p: int, msg: Seq<char>) -> (Seq<char>, Seq<Msg>) {
    match tok_at(ts, p) {
        Token::Ident(w) => (w@, seq![]),
        _ => (Seq::<char>::empty(), seq![(msg, span_at(ts, p))]),
    }
}

/// A statement at `p`. Its span runs from the start of its first token to
/// the position (as a token index) after it.
pub open spec fn sp_stmt(ts: Toks, p: int) -> (SpStmtV, int, Seq<Msg>)
    decreases ts.len() - p, 5nat,
{
    if !(0 <= p < ts.len()) {
        (SpStmtV { kind: StmtV::Block(seq![]), span: Span { start: 0, end: 0 } }, p, seq![])
    } else {
        let start = span_at(ts, p);
        let t = tok_at(ts, p);
        if t == Token::Return {
            let p1 = p + 1;
            if tok_at(ts, p1) != Token::Semicolon {
                let (e, q, es) = sp_expr_semi(ts, p1);
                (SpStmtV { kind: StmtV::Return(Some(e)), span: Span { start: start.start, end: q as usize } }, q, es)
            } else {
                let (q, es) = expect_at(ts, p1, Token::Semicolon);
                (SpStmtV { kind: StmtV::Return(None), span: Span { start: start.start, end: q as usize } }, q, es)
            }
        } else if t == Token::Let {
            let p1 = p + 1;
            let (name, e1) = sp_name(ts, p1, "expected variable name"@);
            let (p3, e2) = expect_at(ts, step(ts, p1), Token::Colon);
            let (ty, p4, e3) = sp_type(ts, p3);
            if tok_at(ts, p4) == Token::Assign {
                let (x, q, e4) = sp_expr_semi(ts, p4 + 1);
                (SpStmtV { kind: StmtV::VarDecl(name, ty, Some(x)), span: Span { start: start.start, end: q as usize } },
                    q, e1 + e2 + e3 + e4)
            } else {
                let (q, e4) = expect_at(ts, p4, Token::Semicolon);
                (SpStmtV { kind: StmtV::VarDecl(name, ty, None), span: Span { start: start.start, end: q as usize } },
                    q, e1 + e2 + e3 + e4)
            }
        } else if t == Token::If {
            sp_if(ts, p)
        } else if t == Token::While {
            sp_while(ts, p)
        } else if t == Token::LBrace {
            let (ss, q, es) = sp_block_body(ts, p + 1);
            (SpStmtV { kind: StmtV::Block(ss), span: Span { start: start.start, end: q as usize } }, q, es)
        } else {
            let (e, p1, e1) = sp_expr(ts, p, 0);
            if tok_at(ts, p1) == Token::Assign && e.kind is Ident {
                let (v, q, e2) = sp_expr_semi(ts, p1 + 1);
                (SpStmtV { kind: StmtV::Assign(e.kind->Ident_0, v), span: Span { start: start.start, end: q as usize } },
                    q, e1 + e2)
            } else {
                let (q, e2) = expect_at(ts, p1, Token::Semicolon);
                (SpStmtV { kind: StmtV::Expr(e), span: Span { start: start.start, end: q as usize } }, q, e1 + e2)
            }
        }
    }
}

/// The condition and body of an `if` or `while` at `p`: the keyword, a
/// parenthesised expression and an opening brace; gives the condition, the
/// position of the body and the errors.
pub open spec fn sp_head(ts: Toks, p: int) -> (SpExprV, int, Seq<Msg>) {
    let (p2, e1) = expect_at(ts, p + 1, Token::LParen);
    let (c, p3, e2) = sp_expr(ts, p2, 0);
    let (p4, e3) = expect_at(ts, p3, Token::RParen);
    let (p5, e4) = expect_at(ts, p4, Token::LBrace);
    (c, p5, e1 + e2 + e3 + e4)
}

/// An `if` statement at `p`, with an optional `else` followed by a block
/// or another `if`.
pub open spec fn sp_if(ts: Toks, p: int) -> (SpStmtV, int, Seq<Msg>)
    decreases ts.len() - p, 4nat,
{
    let start = span_at(ts, p);
    let (c, p5, e1) = sp_head(ts, p);
    if !(0 <= p < p5 <= ts.len()) {
        (SpStmtV { kind: StmtV::If(c, seq![], None), span: Span { start: start.start, end: p5 as usize } }, p5, e1)
    } else {
        let (then_body, p6, e2) = sp_block_body(ts, p5);
        let (else_body, p8, e3) = sp_else(ts, p6, p);
        (SpStmtV { kind: StmtV::If(c, then_body, else_body), span: Span { start: start.start, end: p8 as usize } },
            p8, e1 + e2 + e3)
    }
}

/// What may follow the body of an `if` (that starts at `p`) at `q`: `else`
/// and a block, `else` and another `if`, or nothing.
pub open spec fn sp_else(ts: Toks, q: int, p: int) -> (Option<Seq<SpStmtV>>, int, Seq<Msg>)
    decreases ts.len() - p, 3nat,
{
    if tok_at(ts, q) == Token::Else && 0 <= p < q {
        let p7 = q + 1;
        if tok_at(ts, p7) == Token::LBrace && p7 < ts.len() {
            let (eb, r, es) = sp_block_body(ts, p7 + 1);
            (Some(eb), r, es)
        } else if tok_at(ts, p7) == Token::If && p7 <= ts.len() {
            let (st, r, es) = sp_if(ts, p7);
            (Some(seq![st]), r, es)
        } else {
            (None, p7, seq![])
        }
    } else {
        (None, q, seq![])
    }
}

/// A `while` statement at `p`.
pub open spec fn sp_while(ts: Toks, p: int) -> (SpStmtV, int, Seq<Msg>)
    decreases ts.len() - p, 4nat,
{
    let start = span_at(ts, p);
    let (c, p5, e1) = sp_head(ts, p);
    if !(0 <= p < p5 <= ts.len()) {
        (SpStmtV { kind: StmtV::While(c, seq![]), span: Span { start: start.start, end: p5 as usize } }, p5, e1)
    } else {
        let (body, p6, e2) = sp_block_body(ts, p5);
        (SpStmtV { kind: StmtV::While(c, body), span: Span { start: start.start, end: p6 as usize } }, p6, e1 + e2)
    }
}


/// Parameters at `p`: while a comma follows, a name, a colon and a type.
pub open spec fn sp_params(ts: Toks, p: int) -> (Seq<ParamV>, int, Seq<Msg>)
    decreases ts.len() - p,
{
    if !(0 <= p < ts.len()) || tok_at(ts, p) != Token::Comma {
        (seq![], p, seq![])
    } else {
        let q = p + 1;
        let (name, e1) = sp_name(ts, q, "expected parameter name"@);
        let (q2, e2) = expect_at(ts, step(ts, q), Token::Colon);
        let (ty, q3, e3) = sp_type(ts, q2);
        let prm: ParamV = (name, span_at(ts, q), ty);
        if !(p < q3 <= ts.len()) {
            (seq![prm], q3, e1 + e2 + e3)
        } else {
            let (rest, q4, e4) = sp_params(ts, q3);
            (seq![prm] + rest, q4, e1 + e2 + e3 + e4)
        }
    }
}

/// A function declaration at `p`: `func`, a name, `(`, the return type (or
/// `void` when `)` follows at once), the parameters, each after a comma,
/// `)` and a block. Its span runs from the start of `func` to the end of
/// the token after the block.
pub open spec fn sp_func(ts: Toks, p: int) -> (FuncV, int, Seq<Msg>) {
    let start = span_at(ts, p);
    let (p1, e1) = expect_at(ts, p, Token::Func);
    let (name, e2) = sp_name(ts, p1, "expected function name"@);
    let (p3, e3) = expect_at(ts, step(ts, p1), Token::LParen);
    let (ret, p4, e4) = if tok_at(ts, p3) == Token::RParen {
        (TypeV::Prim(PrimType::Void), p3, Seq::<Msg>::empty())
    } else {
        sp_type(ts, p3)
    };
    let (params, p5, e5) = sp_params(ts, p4);
    let (p6, e6) = expect_at(ts, p5, Token::RParen);
    let (p7, e7) = expect_at(ts, p6, Token::LBrace);
    let (body, p8, e8) = sp_block_body(ts, p7);
    (FuncV {
        name,
        name_span: span_at(ts, p1),
        return_type: ret,
        params,
        body,
        span: Span { start: start.start, end: span_at(ts, p8).end },
    }, p8, e1 + e2 + e3 + e4 + e5 + e6 + e7 + e8)
}

/// The first position at or after `p` that holds `func`, `let` or the end
/// of the input.
pub open spec fn sp_sync(ts: Toks, p: int) -> int
    decreases ts.len() - p,
{
    if !(0 <= p < ts.len()) {
        p
    } else {
        let t = tok_at(ts, p);
        if t == Token::Func || t == Token::Let || t == Token::EOF { p } else { sp_sync(ts, p + 1) }
    }
}

/// One top-level item at `p` (not the end of the input): a function; or a
/// `let`, which is reported and skipped up to the next `func` or `let`; or
/// any other token, which is reported and skipped.
pub open spec fn sp_decl(ts: Toks, p: int) -> (Option<FuncV>, int, Seq<Msg>) {
    if tok_at(ts, p) == Token::Func {
        let (f, q, e1) = sp_func(ts, p);
        (Some(f), q, e1)
    } else if tok_at(ts, p) == Token::Let {
        (None, sp_sync(ts, p + 1), seq![("global variable declarations not supported yet"@, span_at(ts, p))])
    } else {
        (None, p + 1, seq![("expected top-level declaration"@, span_at(ts, p))])
    }
}

/// The declarations from `p` to the end of the input.
pub open spec fn sp_program(ts: Toks, p: int) -> (Seq<FuncV>, int, Seq<Msg>)
    decreases ts.len() - p,
{
    if !(0 <= p < ts.len()) || tok_at(ts, p) == Token::EOF {
        (seq![], p, seq![])
    } else {
        let (d, q, e1) = sp_decl(ts, p);
        let here: Seq<FuncV> = match d { Some(f) => seq![f], None => seq![] };
        if !(p < q <= ts.len()) {
            (here, q, e1)
        } else {
            let (rest, q2, e2) = sp_program(ts, q);
            (here + rest, q2, e1 + e2)
        }
    }
}

} // verus!
