//! The grammar of the stack-slot compiler's language, written as a parser
//! over the token list: each function takes the tokens and a position and
//! gives what is read there, the position after it, and the errors reported
//! on the way, in order. Where the parser meets a token it does not expect
//! it reports an error and goes on, so every token list has a reading.
//!
//! The conditions that give a default reading (a position out of range, or
//! one that would not move forward where the parser always does) never hold
//! on a token list that ends with its end-of-file token; they are there so
//! that each definition visibly terminates.

use vstd::prelude::*;
use crate::basic::span::Span;
use crate::basic::token::{Token, SpannedToken};
use crate::basic::diag::{Diagnostic, Severity};
use crate::basic::ast::{PrimType, UnaryOp, TypeB, ExprB, StmtB, DeclB};
use crate::basic::parser::{spec_infix, spec_binary_op, spec_prim_type, token_debug_text};
use crate::text::spec_parse_i64;

verus! {

/// An error: its message and the span it points at.
pub type Msg = (Seq<char>, Span);

/// Whether `ds` is `old` followed by the errors `ms`, in order.
pub open spec fn reported(old: Seq<Diagnostic>, ds: Seq<Diagnostic>, ms: Seq<Msg>) -> bool {
    &&& ds.len() == old.len() + ms.len()
    &&& forall|i: int| 0 <= i < old.len() ==> #[trigger] ds[i] == old[i]
    &&& forall|i: int| old.len() <= i < ds.len() ==> {
        &&& (#[trigger] ds[i]).severity == Severity::Error
        &&& ds[i].message@ == ms[i - old.len()].0
        &&& ds[i].span == ms[i - old.len()].1
    }
}

/// Adding nothing reports nothing.
pub proof fn lemma_reported_none(a: Seq<Diagnostic>)
    ensures
        reported(a, a, seq![]),
{
}

/// Reports in a row add up.
pub proof fn lemma_reported_chain(a: Seq<Diagnostic>, b: Seq<Diagnostic>, c: Seq<Diagnostic>, m1: Seq<Msg>, m2: Seq<Msg>)
    requires
        reported(a, b, m1),
        reported(b, c, m2),
    ensures
        reported(a, c, m1 + m2),
{
    assert forall|i: int| 0 <= i < a.len() implies #[trigger] c[i] == a[i] by {
        assert(c[i] == b[i]);
    }
    assert forall|i: int| a.len() <= i < c.len() implies {
        &&& (#[trigger] c[i]).severity == Severity::Error
        &&& c[i].message@ == (m1 + m2)[i - a.len()].0
        &&& c[i].span == (m1 + m2)[i - a.len()].1
    } by {
        if i < b.len() {
            assert(c[i] == b[i]);
        }
    }
}

/// One pushed error is one report.
pub proof fn lemma_push_reported(a: Seq<Diagnostic>, d: Diagnostic)
    requires
        d.severity == Severity::Error,
    ensures
        reported(a, a.push(d), seq![(d.message@, d.span)]),
{
    let b = a.push(d);
    assert forall|i: int| 0 <= i < a.len() implies #[trigger] b[i] == a[i] by {}
}

/// The token at `p`.
pub open spec fn tok_at(ts: Seq<SpannedToken>, p: int) -> Token {
    ts[p].0
}

/// The span of the token at `p`.
pub open spec fn span_at(ts: Seq<SpannedToken>, p: int) -> Span {
    ts[p].1
}

/// The position after `p`; the last token is never left.
pub open spec fn step(ts: Seq<SpannedToken>, p: int) -> int {
    if p + 1 < ts.len() { p + 1 } else { p }
}

/// Reading the token `t` at `p`: the position after it, or, for another
/// token, an error and the same position.
pub open spec fn expect_at(ts: Seq<SpannedToken>, p: int, t: Token) -> (int, Seq<Msg>) {
    if tok_at(ts, p) == t {
        (step(ts, p), seq![])
    } else {
        (p, seq![("expected "@ + token_debug_text(t) + ", got "@ + token_debug_text(tok_at(ts, p)), span_at(ts, p))])
    }
}

/// Reading a name at `p`: an identifier, else an error, an empty name and
/// the same position.
pub open spec fn ident_at(ts: Seq<SpannedToken>, p: int) -> (Seq<char>, int, Seq<Msg>) {
    match tok_at(ts, p) {
        Token::Ident(w) => (w@, step(ts, p), seq![]),
        _ => (Seq::<char>::empty(), p, seq![("expected identifier"@, span_at(ts, p))]),
    }
}

/// A type at `p`: a primitive type, a name, `@` and a type, or `[`, a
/// length expression, `]` and the element type. Any other token is
/// reported and skipped.
pub open spec fn sp_type(ts: Seq<SpannedToken>, p: int) -> (TypeB, int, Seq<Msg>)
    decreases ts.len() - p, 4nat,
{
    if !(0 <= p < ts.len()) {
        (TypeB::Prim(PrimType::I32), p, seq![])
    } else {
        let t = tok_at(ts, p);
        let p1 = step(ts, p);
        match spec_prim_type(t) {
            Some(pt) => (TypeB::Prim(pt), p1, seq![]),
            None => match t {
                Token::At => {
                    if p1 <= p {
                        (TypeB::Prim(PrimType::I32), p1, seq![])
                    } else {
                        let (inner, q, es) = sp_type(ts, p1);
                        (TypeB::Ptr(Box::new(inner)), q, es)
                    }
                },
                Token::OpenBracket => {
                    if p1 <= p {
                        (TypeB::Prim(PrimType::I32), p1, seq![])
                    } else {
                        let (size, q1, e1) = sp_expr(ts, p1, 0);
                        let (q2, e2) = expect_at(ts, q1, Token::CloseBracket);
                        if !(p < q2 <= ts.len()) {
                            (TypeB::Prim(PrimType::I32), q2, e1 + e2)
                        } else {
                            let (elem, q3, e3) = sp_type(ts, q2);
                            (TypeB::Array(Box::new(size), Box::new(elem)), q3, e1 + e2 + e3)
                        }
                    }
                },
                Token::Ident(w) => (TypeB::Named(w@), p1, seq![]),
                _ => (TypeB::Prim(PrimType::I32), p1, seq![("expected type"@, span_at(ts, p))]),
            },
        }
    }
}

/// An expression at `p` whose operators bind at least as tightly as
/// `min_bp`: a prefix, then the operators that follow.
pub open spec fn sp_expr(ts: Seq<SpannedToken>, p: int, min_bp: u8) -> (ExprB, int, Seq<Msg>)
    decreases ts.len() - p, 2nat,
{
    if !(0 <= p < ts.len()) {
        (ExprB::Int(0), p, seq![])
    } else {
        let (lhs, p1, e1) = sp_prefix(ts, p);
        if !(p <= p1 <= ts.len()) {
            (lhs, p1, e1)
        } else {
            let (e, q, e2) = sp_infix(ts, p1, min_bp, lhs);
            (e, q, e1 + e2)
        }
    }
}

/// What an expression starts with at `p`: a literal, a name, `-` or `!`
/// and an operand, a parenthesised expression, or `cast(type, expr)`. Any
/// other token is reported and skipped.
pub open spec fn sp_prefix(ts: Seq<SpannedToken>, p: int) -> (ExprB, int, Seq<Msg>)
    decreases ts.len() - p, 1nat,
{
    if !(0 <= p < ts.len()) {
        (ExprB::Int(0), p, seq![])
    } else {
        let p1 = step(ts, p);
        match tok_at(ts, p) {
            Token::NumLiteral(n) => (ExprB::Int(match spec_parse_i64(n@) { Some(v) => v, None => 0 }), p1, seq![]),
            Token::True => (ExprB::Bool(true), p1, seq![]),
            Token::False => (ExprB::Bool(false), p1, seq![]),
            Token::Minus => {
                if p1 <= p {
                    (ExprB::Int(0), p1, seq![])
                } else {
                    let (x, q, es) = sp_expr(ts, p1, 8);
                    (ExprB::Unary(UnaryOp::Neg, Box::new(x)), q, es)
                }
            },
            Token::Bang => {
                if p1 <= p {
                    (ExprB::Int(0), p1, seq![])
                } else {
                    let (x, q, es) = sp_expr(ts, p1, 8);
                    (ExprB::Unary(UnaryOp::Not, Box::new(x)), q, es)
                }
            },
            Token::OpenParen => {
                if p1 <= p {
                    (ExprB::Int(0), p1, seq![])
                } else {
                    let (x, q, e1) = sp_expr(ts, p1, 0);
                    let (q2, e2) = expect_at(ts, q, Token::CloseParen);
                    (x, q2, e1 + e2)
                }
            },
            Token::Ident(w) => {
                if w@ == "cast"@ && tok_at(ts, p1) == Token::OpenParen && p < p1 {
                    let p2 = step(ts, p1);
                    if p2 <= p1 {
                        (ExprB::Int(0), p2, seq![])
                    } else {
                        let (ty, q, e1) = sp_type(ts, p2);
                        let (q2, e2) = expect_at(ts, q, Token::Comma);
                        if !(p < q2 <= ts.len()) {
                            (ExprB::Int(0), q2, e1 + e2)
                        } else {
                            let (x, q3, e3) = sp_expr(ts, q2, 0);
                            let (q4, e4) = expect_at(ts, q3, Token::CloseParen);
                            (ExprB::Cast(Box::new(ty), Box::new(x)), q4, e1 + e2 + e3 + e4)
                        }
                    }
                } else {
                    (ExprB::Ident(w@), p1, seq![])
                }
            },
            _ => (ExprB::Int(0), p1, seq![("expected expression"@, span_at(ts, p))]),
        }
    }
}

/// The operators that follow the operand `lhs` at `p`, as long as they
/// bind at least as tightly as `min_bp`: binary operators, calls, and
/// assignment (which binds to the right).
pub open spec fn sp_infix(ts: Seq<SpannedToken>, p: int, min_bp: u8, lhs: ExprB) -> (ExprB, int, Seq<Msg>)
    decreases ts.len() - p, 0nat,
{
    if !(0 <= p < ts.len()) {
        (lhs, p, seq![])
    } else {
        let t = tok_at(ts, p);
        let p1 = step(ts, p);
        match spec_infix(t) {
            None => (lhs, p, seq![]),
            Some((l, r)) => {
                if (t == Token::Eq && r < min_bp) || (t != Token::Eq && l < min_bp) || p1 <= p {
                    (lhs, p, seq![])
                } else if t == Token::OpenParen {
                    let (args, p2, e1) = sp_call_args(ts, p1);
                    let (p3, e2) = expect_at(ts, p2, Token::CloseParen);
                    let (lhs2, e3) = match lhs {
                        ExprB::Ident(name) => (ExprB::Call(name, args), Seq::<Msg>::empty()),
                        _ => (lhs, seq![("callee must be identifier"@, span_at(ts, p3))]),
                    };
                    if !(p < p3 <= ts.len()) {
                        (lhs2, p3, e1 + e2 + e3)
                    } else {
                        let (e, q, e4) = sp_infix(ts, p3, min_bp, lhs2);
                        (e, q, e1 + e2 + e3 + e4)
                    }
                } else {
                    let (rhs, p2, e1) = sp_expr(ts, p1, r);
                    let lhs2 = if t == Token::Eq {
                        ExprB::Assign(Box::new(lhs), Box::new(rhs))
                    } else {
                        ExprB::Binary(spec_binary_op(t)->0, Box::new(lhs), Box::new(rhs))
                    };
                    if !(p < p2 <= ts.len()) {
                        (lhs2, p2, e1)
                    } else {
                        let (e, q, e2) = sp_infix(ts, p2, min_bp, lhs2);
                        (e, q, e1 + e2)
                    }
                }
            },
        }
    }
}

/// The arguments of a call at `p` (after its opening parenthesis): none
/// when a closing parenthesis follows, else expressions separated by
/// commas.
pub open spec fn sp_call_args(ts: Seq<SpannedToken>, p: int) -> (Seq<ExprB>, int, Seq<Msg>)
    decreases ts.len() - p, 3nat,
{
    if !(0 <= p < ts.len()) || tok_at(ts, p) == Token::CloseParen {
        (Seq::<ExprB>::empty(), p, Seq::<Msg>::empty())
    } else {
        let (a, q, ea) = sp_expr(ts, p, 0);
        if !(p <= q <= ts.len()) {
            (seq![a], q, ea)
        } else {
            let (rest, q2, er) = sp_args_rest(ts, q);
            (seq![a] + rest, q2, ea + er)
        }
    }
}

/// The further arguments of a call at `p`: while a comma follows, another
/// expression.
pub open spec fn sp_args_rest(ts: Seq<SpannedToken>, p: int) -> (Seq<ExprB>, int, Seq<Msg>)
    decreases ts.len() - p, 2nat,
{
    if !(0 <= p < ts.len()) || tok_at(ts, p) != Token::Comma || step(ts, p) <= p {
        (seq![], p, seq![])
    } else {
        let (a, q, e1) = sp_expr(ts, step(ts, p), 0);
        if !(p < q <= ts.len()) {
            (seq![a], q, e1)
        } else {
            let (rest, q2, e2) = sp_args_rest(ts, q);
            (seq![a] + rest, q2, e1 + e2)
        }
    }
}


/// A block at `p`: `{`, statements up to `}` or the end of the input, and
/// `}`.
pub open spec fn sp_block(ts: Seq<SpannedToken>, p: int) -> (Seq<StmtB>, int, Seq<Msg>)
    decreases ts.len() - p, if tok_at(ts, p) == Token::OpenBrace { 0nat } else { 7nat },
{
    if !(0 <= p < ts.len()) {
        (seq![], p, seq![])
    } else {
        let (p1, e1) = expect_at(ts, p, Token::OpenBrace);
        if !(p <= p1 <= ts.len()) || (p1 == p && tok_at(ts, p) == Token::OpenBrace) {
            (seq![], p1, e1)
        } else {
            let (ss, p2, e2) = sp_stmts(ts, p1);
            let (q, e3) = expect_at(ts, p2, Token::CloseBrace);
            (ss, q, e1 + e2 + e3)
        }
    }
}

/// Statements at `p`, up to `}` or the end of the input.
pub open spec fn sp_stmts(ts: Seq<SpannedToken>, p: int) -> (Seq<StmtB>, int, Seq<Msg>)
    decreases ts.len() - p, 6nat,
{
    if !(0 <= p < ts.len()) || tok_at(ts, p) == Token::CloseBrace || tok_at(ts, p) == Token::Eof {
        (seq![], p, seq![])
    } else {
        let (st, q, e1) = sp_stmt(ts, p);
        if !(p < q <= ts.len()) {
            (seq![st], q, e1)
        } else {
            let (rest, q2, e2) = sp_stmts(ts, q);
            (seq![st] + rest, q2, e1 + e2)
        }
    }
}

/// An expression at `p` followed by a semicolon.
pub open spec fn sp_expr_semi(ts: Seq<SpannedToken>, p: int) -> (ExprB, int, Seq<Msg>) {
    let (x, q, e1) = sp_expr(ts, p, 0);
    let (q2, e2) = expect_at(ts, q, Token::Semicolon);
    (x, q2, e1 + e2)
}

/// The condition of an `if` or `while` at `p` (on the keyword): the keyword
/// and a parenthesised expression.
pub open spec fn sp_cond(ts: Seq<SpannedToken>, p: int) -> (ExprB, int, Seq<Msg>) {
    let (p2, e1) = expect_at(ts, step(ts, p), Token::OpenParen);
    let (c, p3, e2) = sp_expr(ts, p2, 0);
    let (p4, e3) = expect_at(ts, p3, Token::CloseParen);
    (c, p4, e1 + e2 + e3)
}

/// A statement at `p`.
pub open spec fn sp_stmt(ts: Seq<SpannedToken>, p: int) -> (StmtB, int, Seq<Msg>)
    decreases ts.len() - p, 5nat,
{
    if !(0 <= p < ts.len()) {
        (StmtB::Block(seq![]), p, seq![])
    } else {
        let t = tok_at(ts, p);
        let p1 = step(ts, p);
        if t == Token::Return {
            if tok_at(ts, p1) != Token::Semicolon {
                let (x, q, es) = sp_expr_semi(ts, p1);
                (StmtB::Return(Some(x)), q, es)
            } else {
                let (q, es) = expect_at(ts, p1, Token::Semicolon);
                (StmtB::Return(None), q, es)
            }
        } else if t == Token::Let {
            let (name, p2, e1) = ident_at(ts, p1);
            let (p3, e2) = expect_at(ts, p2, Token::Colon);
            let (ty, p4, e3) = sp_type(ts, p3);
            let (init, p5, e4) = if tok_at(ts, p4) == Token::Eq {
                let (x, q, es) = sp_expr(ts, step(ts, p4), 0);
                (Some(x), q, es)
            } else {
                (None, p4, Seq::<Msg>::empty())
            };
            let (q, e5) = expect_at(ts, p5, Token::Semicolon);
            (StmtB::VarDecl(name, ty, init), q, e1 + e2 + e3 + e4 + e5)
        } else if t == Token::If {
            let (c, p4, e1) = sp_cond(ts, p);
            if !(p < p4 <= ts.len()) {
                (StmtB::If(c, seq![], None), p4, e1)
            } else {
                let (then_block, p5, e2) = sp_block(ts, p4);
                let (els, q, e3) = sp_if_else(ts, p5, p);
                (StmtB::If(c, then_block, els), q, e1 + e2 + e3)
            }
        } else if t == Token::While {
            let (c, p4, e1) = sp_cond(ts, p);
            if !(p < p4 <= ts.len()) {
                (StmtB::While(c, seq![]), p4, e1)
            } else {
                let (body, q, e2) = sp_block(ts, p4);
                (StmtB::While(c, body), q, e1 + e2)
            }
        } else if t == Token::OpenBrace {
            let (b, q, es) = sp_block(ts, p);
            (StmtB::Block(b), q, es)
        } else {
            let (x, q, es) = sp_expr_semi(ts, p);
            (StmtB::Expr(x), q, es)
        }
    }
}

/// What may follow the block of an `if` that starts at `p`, at `q`: `else`
/// and another `if`, `else` and a block, or nothing.
pub open spec fn sp_if_else(ts: Seq<SpannedToken>, q: int, p: int) -> (Option<Box<StmtB>>, int, Seq<Msg>)
    decreases ts.len() - p, 4nat,
{
    if tok_at(ts, q) == Token::Else && 0 <= p < q && q < step(ts, q) {
        let p6 = step(ts, q);
        if tok_at(ts, p6) == Token::If {
            let (st, r, es) = sp_stmt(ts, p6);
            (Some(Box::new(st)), r, es)
        } else {
            let (b, r, es) = sp_block(ts, p6);
            (Some(Box::new(StmtB::Block(b))), r, es)
        }
    } else {
        (None, q, seq![])
    }
}

/// The parameters of a function at `p` (after the comma that follows the
/// return type): names with types, separated by commas, up to `)` or the
/// end of the input.
pub open spec fn sp_params(ts: Seq<SpannedToken>, p: int) -> (Seq<(Seq<char>, TypeB)>, int, Seq<Msg>)
    decreases ts.len() - p,
{
    if !(0 <= p < ts.len()) || tok_at(ts, p) == Token::CloseParen || tok_at(ts, p) == Token::Eof {
        (seq![], p, seq![])
    } else {
        let (name, p1, e1) = ident_at(ts, p);
        let (p2, e2) = expect_at(ts, p1, Token::Colon);
        let (ty, p3, e3) = sp_type(ts, p2);
        let prm = (name, ty);
        if tok_at(ts, p3) == Token::Comma && p < step(ts, p3) <= ts.len() {
            let (rest, q, e4) = sp_params(ts, step(ts, p3));
            (seq![prm] + rest, q, e1 + e2 + e3 + e4)
        } else {
            (seq![prm], p3, e1 + e2 + e3)
        }
    }
}

/// A function declaration at `p` (on `func`): a name, `(`, the return type,
/// optionally a comma and parameters, `)` and a block.
pub open spec fn sp_func(ts: Seq<SpannedToken>, p: int, pub_: bool) -> (DeclB, int, Seq<Msg>) {
    let (p1, e1) = expect_at(ts, p, Token::Func);
    let (name, p2, e2) = ident_at(ts, p1);
    let (p3, e3) = expect_at(ts, p2, Token::OpenParen);
    let (ret, p4, e4) = sp_type(ts, p3);
    let (params, p5, e5) = if tok_at(ts, p4) == Token::Comma {
        sp_params(ts, step(ts, p4))
    } else {
        (Seq::<(Seq<char>, TypeB)>::empty(), p4, Seq::<Msg>::empty())
    };
    let (p6, e6) = expect_at(ts, p5, Token::CloseParen);
    let (body, p7, e7) = sp_block(ts, p6);
    (DeclB::Func(pub_, name, ret, params, body), p7, e1 + e2 + e3 + e4 + e5 + e6 + e7)
}

/// A declaration at `p`: optionally `pub`, then a function, or `static`, a
/// name, `:`, a type and `;` (read as an empty struct); anything else is
/// reported and gives no declaration.
pub open spec fn sp_decl(ts: Seq<SpannedToken>, p: int) -> (Option<DeclB>, int, Seq<Msg>) {
    let pub_ = tok_at(ts, p) == Token::Pub;
    let p1 = if pub_ { step(ts, p) } else { p };
    if tok_at(ts, p1) == Token::Func {
        let (f, q, es) = sp_func(ts, p1, pub_);
        (Some(f), q, es)
    } else if tok_at(ts, p1) == Token::Static {
        let (name, p3, e1) = ident_at(ts, step(ts, p1));
        let (p4, e2) = expect_at(ts, p3, Token::Colon);
        let (ty, p5, e3) = sp_type(ts, p4);
        let (q, e4) = expect_at(ts, p5, Token::Semicolon);
        (Some(DeclB::Struct(name, seq![])), q, e1 + e2 + e3 + e4)
    } else {
        (None, p1, seq![("expected declaration"@, span_at(ts, p1))])
    }
}

/// The declarations from `p` to the end of the input; after a token that
/// starts no declaration, the parser moves on by one token.
pub open spec fn sp_program(ts: Seq<SpannedToken>, p: int) -> (Seq<DeclB>, int, Seq<Msg>)
    decreases ts.len() - p,
{
    if !(0 <= p < ts.len()) || tok_at(ts, p) == Token::Eof {
        (seq![], p, seq![])
    } else {
        let (d, q, e1) = sp_decl(ts, p);
        let (here, q1): (Seq<DeclB>, int) = match d { Some(x) => (seq![x], q), None => (seq![], step(ts, q)) };
        if !(p < q1 <= ts.len()) {
            (here, q1, e1)
        } else {
            let (rest, q2, e2) = sp_program(ts, q1);
            (here + rest, q2, e1 + e2)
        }
    }
}

} // verus!
