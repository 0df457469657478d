use vstd::prelude::*;
use crate::basic::span::Span;
use crate::text::same_text;

verus! {

/// The tokens of the language.
#[derive(Clone, Debug, PartialEq)]
pub enum Token {
    Func, Let, Return, If, Else, While, For, Asm, Import, Static, Spec, Pub,
    True, False,
    I32, I64, U32, U64, I8, U8, Bool, Char, Void, Isize, Usize,
    Ident(String), NumLiteral(String), StrLiteral(String),
    Plus, Minus, Star, Slash,
    Eq, EqEq, Bang, BangEq, Lt, Gt, LtEq, GtEq, AndAnd, PipePipe,
    OpenParen, CloseParen, OpenBrace, CloseBrace, OpenBracket, CloseBracket,
    Colon, Comma, Semicolon, Dot, Arrow, At,
    Eof,
}

/// A token with the span of source text it was read from.
pub type SpannedToken = (Token, Span);

impl Token {
    /// Whether the token carries text (an identifier or a literal).
    pub open spec fn has_text(self) -> bool {
        self is Ident || self is NumLiteral || self is StrLiteral
    }

    /// Two tokens are alike when they are the same kind of token and, for
    /// tokens that carry text, the texts are equal.
    pub open spec fn alike(self, other: Token) -> bool {
        match (self, other) {
            (Token::Ident(a), Token::Ident(b)) => a@ == b@,
            (Token::NumLiteral(a), Token::NumLiteral(b)) => a@ == b@,
            (Token::StrLiteral(a), Token::StrLiteral(b)) => a@ == b@,
            _ => !self.has_text() && self == other,
        }
    }

    /// A copy of the token.
    pub fn duplicate(&self) -> (r: Token)
        ensures
            r.alike(*self),
    {
        match self {
            Token::Ident(s) => Token::Ident(s.clone()),
            Token::NumLiteral(s) => Token::NumLiteral(s.clone()),
            Token::StrLiteral(s) => Token::StrLiteral(s.clone()),
            Token::Func => Token::Func, Token::Let => Token::Let, Token::Return => Token::Return,
            Token::If => Token::If, Token::Else => Token::Else, Token::While => Token::While,
            Token::For => Token::For, Token::Asm => Token::Asm, Token::Import => Token::Import,
            Token::Static => Token::Static, Token::Spec => Token::Spec, Token::Pub => Token::Pub,
            Token::True => Token::True, Token::False => Token::False,
            Token::I32 => Token::I32, Token::I64 => Token::I64, Token::U32 => Token::U32,
            Token::U64 => Token::U64, Token::I8 => Token::I8, Token::U8 => Token::U8,
            Token::Bool => Token::Bool, Token::Char => Token::Char, Token::Void => Token::Void,
            Token::Isize => Token::Isize, Token::Usize => Token::Usize,
            Token::Plus => Token::Plus, Token::Minus => Token::Minus, Token::Star => Token::Star,
            Token::Slash => Token::Slash, Token::Eq => Token::Eq, Token::EqEq => Token::EqEq,
            Token::Bang => Token::Bang, Token::BangEq => Token::BangEq, Token::Lt => Token::Lt,
            Token::Gt => Token::Gt, Token::LtEq => Token::LtEq, Token::GtEq => Token::GtEq,
            Token::AndAnd => Token::AndAnd, Token::PipePipe => Token::PipePipe,
            Token::OpenParen => Token::OpenParen, Token::CloseParen => Token::CloseParen,
            Token::OpenBrace => Token::OpenBrace, Token::CloseBrace => Token::CloseBrace,
            Token::OpenBracket => Token::OpenBracket, Token::CloseBracket => Token::CloseBracket,
            Token::Colon => Token::Colon, Token::Comma => Token::Comma,
            Token::Semicolon => Token::Semicolon, Token::Dot => Token::Dot,
            Token::Arrow => Token::Arrow, Token::At => Token::At, Token::Eof => Token::Eof,
        }
    }

    /// Compares the token with a token that carries no text.
    pub fn is(&self, other: &Token) -> (r: bool)
        requires
            !other.has_text(),
        ensures
            r == (*self == *other),
    {
        match (self, other) {
            (Token::Ident(_), _) | (Token::NumLiteral(_), _) | (Token::StrLiteral(_), _) => false,
            (Token::Func, Token::Func) | (Token::Let, Token::Let) | (Token::Return, Token::Return)
            | (Token::If, Token::If) | (Token::Else, Token::Else) | (Token::While, Token::While)
            | (Token::For, Token::For) | (Token::Asm, Token::Asm) | (Token::Import, Token::Import)
            | (Token::Static, Token::Static) | (Token::Spec, Token::Spec) | (Token::Pub, Token::Pub)
            | (Token::True, Token::True) | (Token::False, Token::False) | (Token::I32, Token::I32)
            | (Token::I64, Token::I64) | (Token::U32, Token::U32) | (Token::U64, Token::U64)
            | (Token::I8, Token::I8) | (Token::U8, Token::U8) | (Token::Bool, Token::Bool)
            | (Token::Char, Token::Char) | (Token::Void, Token::Void)
            | (Token::Isize, Token::Isize) | (Token::Usize, Token::Usize)
            | (Token::Plus, Token::Plus) | (Token::Minus, Token::Minus) | (Token::Star, Token::Star)
            | (Token::Slash, Token::Slash) | (Token::Eq, Token::Eq) | (Token::EqEq, Token::EqEq)
            | (Token::Bang, Token::Bang) | (Token::BangEq, Token::BangEq) | (Token::Lt, Token::Lt)
            | (Token::Gt, Token::Gt) | (Token::LtEq, Token::LtEq) | (Token::GtEq, Token::GtEq)
            | (Token::AndAnd, Token::AndAnd) | (Token::PipePipe, Token::PipePipe)
            | (Token::OpenParen, Token::OpenParen) | (Token::CloseParen, Token::CloseParen)
            | (Token::OpenBrace, Token::OpenBrace) | (Token::CloseBrace, Token::CloseBrace)
            | (Token::OpenBracket, Token::OpenBracket)
            | (Token::CloseBracket, Token::CloseBracket) | (Token::Colon, Token::Colon)
            | (Token::Comma, Token::Comma) | (Token::Semicolon, Token::Semicolon)
            | (Token::Dot, Token::Dot) | (Token::Arrow, Token::Arrow) | (Token::At, Token::At)
            | (Token::Eof, Token::Eof) => true,
            _ => false,
        }
    }
}

/// The keyword a word spells, if it spells one.
pub open spec fn spec_keyword_token(s: Seq<char>) -> Option<Token> {
    if s == "func"@ { Some(Token::Func) }
    else if s == "let"@ { Some(Token::Let) }
    else if s == "return"@ { Some(Token::Return) }
    else if s == "if"@ { Some(Token::If) }
    else if s == "else"@ { Some(Token::Else) }
    else if s == "while"@ { Some(Token::While) }
    else if s == "for"@ { Some(Token::For) }
    else if s == "asm"@ { Some(Token::Asm) }
    else if s == "import"@ { Some(Token::Import) }
    else if s == "static"@ { Some(Token::Static) }
    else if s == "spec"@ { Some(Token::Spec) }
    else if s == "pub"@ { Some(Token::Pub) }
    else if s == "true"@ { Some(Token::True) }
    else if s == "false"@ { Some(Token::False) }
    else if s == "i32"@ { Some(Token::I32) }
    else if s == "i64"@ { Some(Token::I64) }
    else if s == "u32"@ { Some(Token::U32) }
    else if s == "u64"@ { Some(Token::U64) }
    else if s == "i8"@ { Some(Token::I8) }
    else if s == "u8"@ { Some(Token::U8) }
    else if s == "bool"@ { Some(Token::Bool) }
    else if s == "char"@ { Some(Token::Char) }
    else if s == "void"@ { Some(Token::Void) }
    else if s == "isize"@ { Some(Token::Isize) }
    else if s == "usize"@ { Some(Token::Usize) }
    else { None }
}

/// The keyword token spelled by `s`, if `s` is a keyword.
pub fn keyword_token(s: &str) -> (r: Option<Token>)
    ensures
        r == spec_keyword_token(s@),
{
    if same_text(s, "func") { Some(Token::Func) }
    else if same_text(s, "let") { Some(Token::Let) }
    else if same_text(s, "return") { Some(Token::Return) }
    else if same_text(s, "if") { Some(Token::If) }
    else if same_text(s, "else") { Some(Token::Else) }
    else if same_text(s, "while") { Some(Token::While) }
    else if same_text(s, "for") { Some(Token::For) }
    else if same_text(s, "asm") { Some(Token::Asm) }
    else if same_text(s, "import") { Some(Token::Import) }
    else if same_text(s, "static") { Some(Token::Static) }
    else if same_text(s, "spec") { Some(Token::Spec) }
    else if same_text(s, "pub") { Some(Token::Pub) }
    else if same_text(s, "true") { Some(Token::True) }
    else if same_text(s, "false") { Some(Token::False) }
    else if same_text(s, "i32") { Some(Token::I32) }
    else if same_text(s, "i64") { Some(Token::I64) }
    else if same_text(s, "u32") { Some(Token::U32) }
    else if same_text(s, "u64") { Some(Token::U64) }
    else if same_text(s, "i8") { Some(Token::I8) }
    else if same_text(s, "u8") { Some(Token::U8) }
    else if same_text(s, "bool") { Some(Token::Bool) }
    else if same_text(s, "char") { Some(Token::Char) }
    else if same_text(s, "void") { Some(Token::Void) }
    else if same_text(s, "isize") { Some(Token::Isize) }
    else if same_text(s, "usize") { Some(Token::Usize) }
    else { None }
}

} // verus!
