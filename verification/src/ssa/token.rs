use vstd::prelude::*;
use crate::text::{owned, same_text, push_signed_decimal, signed_decimal};

verus! {

/// The tokens of the language.
#[derive(Clone, Debug)]
pub enum Token {
    Func, Let, Return, If, Else, While, True, False,
    I32, I64, U32, U64, I8, U8, Bool, Void,
    Ident(String),
    IntLit(i64),
    LParen, RParen, LBrace, RBrace, LBracket, RBracket,
    Comma, Semicolon, Colon,
    Plus, Minus, Arrow, Star, Slash,
    Eq, Assign, Neq, Not, Le, Lt, Ge, Gt, AndAnd, OrOr,
    /// A stretch of source that is no token; the text says why.
    Error(String),
    EOF,
}

impl Token {
    /// Whether the token carries a string (an identifier or an error).
    pub open spec fn has_text(self) -> bool {
        self is Ident || self is Error
    }

    /// Two tokens are alike when they are the same kind of token with equal
    /// contents.
    pub open spec fn alike(self, other: Token) -> bool {
        match (self, other) {
            (Token::Ident(a), Token::Ident(b)) => a@ == b@,
            (Token::Error(a), Token::Error(b)) => a@ == b@,
            _ => !self.has_text() && self == other,
        }
    }

    /// A copy of the token.
    pub fn duplicate(&self) -> (r: Token)
        ensures
            r.alike(*self),
    {
        match self {
            Token::Ident(s) => Token::Ident(s.clone()),
            Token::Error(s) => Token::Error(s.clone()),
            Token::IntLit(n) => Token::IntLit(*n),
            Token::Func => Token::Func, Token::Let => Token::Let, Token::Return => Token::Return,
            Token::If => Token::If, Token::Else => Token::Else, Token::While => Token::While,
            Token::True => Token::True, Token::False => Token::False,
            Token::I32 => Token::I32, Token::I64 => Token::I64, Token::U32 => Token::U32,
            Token::U64 => Token::U64, Token::I8 => Token::I8, Token::U8 => Token::U8,
            Token::Bool => Token::Bool, Token::Void => Token::Void,
            Token::LParen => Token::LParen, Token::RParen => Token::RParen,
            Token::LBrace => Token::LBrace, Token::RBrace => Token::RBrace,
            Token::LBracket => Token::LBracket, Token::RBracket => Token::RBracket,
            Token::Comma => Token::Comma, Token::Semicolon => Token::Semicolon,
            Token::Colon => Token::Colon, Token::Plus => Token::Plus, Token::Minus => Token::Minus,
            Token::Arrow => Token::Arrow, Token::Star => Token::Star, Token::Slash => Token::Slash,
            Token::Eq => Token::Eq, Token::Assign => Token::Assign, Token::Neq => Token::Neq,
            Token::Not => Token::Not, Token::Le => Token::Le, Token::Lt => Token::Lt,
            Token::Ge => Token::Ge, Token::Gt => Token::Gt, Token::AndAnd => Token::AndAnd,
            Token::OrOr => Token::OrOr, Token::EOF => Token::EOF,
        }
    }

    /// Compares the token with a token that carries no string.
    pub fn is(&self, other: &Token) -> (r: bool)
        requires
            !other.has_text(),
        ensures
            r == (*self == *other),
    {
        match (self, other) {
            (Token::IntLit(a), Token::IntLit(b)) => *a == *b,
            (Token::Func, Token::Func) | (Token::Let, Token::Let) | (Token::Return, Token::Return)
            | (Token::If, Token::If) | (Token::Else, Token::Else) | (Token::While, Token::While)
            | (Token::True, Token::True) | (Token::False, Token::False)
            | (Token::I32, Token::I32) | (Token::I64, Token::I64) | (Token::U32, Token::U32)
            | (Token::U64, Token::U64) | (Token::I8, Token::I8) | (Token::U8, Token::U8)
            | (Token::Bool, Token::Bool) | (Token::Void, Token::Void)
            | (Token::LParen, Token::LParen) | (Token::RParen, Token::RParen)
            | (Token::LBrace, Token::LBrace) | (Token::RBrace, Token::RBrace)
            | (Token::LBracket, Token::LBracket) | (Token::RBracket, Token::RBracket)
            | (Token::Comma, Token::Comma) | (Token::Semicolon, Token::Semicolon)
            | (Token::Colon, Token::Colon) | (Token::Plus, Token::Plus)
            | (Token::Minus, Token::Minus) | (Token::Arrow, Token::Arrow)
            | (Token::Star, Token::Star) | (Token::Slash, Token::Slash)
            | (Token::Eq, Token::Eq) | (Token::Assign, Token::Assign)
            | (Token::Neq, Token::Neq) | (Token::Not, Token::Not) | (Token::Le, Token::Le)
            | (Token::Lt, Token::Lt) | (Token::Ge, Token::Ge) | (Token::Gt, Token::Gt)
            | (Token::AndAnd, Token::AndAnd) | (Token::OrOr, Token::OrOr)
            | (Token::EOF, Token::EOF) => true,
            _ => false,
        }
    }

    /// How the token reads in a message: keywords and punctuation as they
    /// are written, identifiers by their name, literals by their value,
    /// error tokens by their reason, and the end of input as "end of file".
    pub fn to_text(&self) -> (r: String)
        ensures
            r@ == token_text(*self),
    {
        match self {
            Token::Ident(s) => s.clone(),
            Token::Error(s) => s.clone(),
            Token::IntLit(n) => {
                let mut s = String::new();
                push_signed_decimal(&mut s, *n);
                s
            },
            Token::Func => owned("func"), Token::Let => owned("let"), Token::Return => owned("return"),
            Token::If => owned("if"), Token::Else => owned("else"), Token::While => owned("while"),
            Token::True => owned("true"), Token::False => owned("false"),
            Token::I32 => owned("i32"), Token::I64 => owned("i64"), Token::U32 => owned("u32"),
            Token::U64 => owned("u64"), Token::I8 => owned("i8"), Token::U8 => owned("u8"),
            Token::Bool => owned("bool"), Token::Void => owned("void"),
            Token::LParen => owned("("), Token::RParen => owned(")"),
            Token::LBrace => owned("{"), Token::RBrace => owned("}"),
            Token::LBracket => owned("["), Token::RBracket => owned("]"),
            Token::Comma => owned(","), Token::Semicolon => owned(";"), Token::Colon => owned(":"),
            Token::Plus => owned("+"), Token::Minus => owned("-"), Token::Arrow => owned("->"),
            Token::Star => owned("*"), Token::Slash => owned("/"), Token::Eq => owned("=="),
            Token::Assign => owned("="), Token::Neq => owned("!="), Token::Not => owned("!"),
            Token::Le => owned("<="), Token::Lt => owned("<"), Token::Ge => owned(">="),
            Token::Gt => owned(">"), Token::AndAnd => owned("&&"), Token::OrOr => owned("||"),
            Token::EOF => owned("end of file"),
        }
    }
}

/// How a token reads in a message.
pub open spec fn token_text(t: Token) -> Seq<char> {
    match t {
        Token::Ident(s) => s@,
        Token::Error(s) => s@,
        Token::IntLit(n) => signed_decimal(n as int),
        Token::Func => "func"@, Token::Let => "let"@, Token::Return => "return"@,
        Token::If => "if"@, Token::Else => "else"@, Token::While => "while"@,
        Token::True => "true"@, Token::False => "false"@,
        Token::I32 => "i32"@, Token::I64 => "i64"@, Token::U32 => "u32"@,
        Token::U64 => "u64"@, Token::I8 => "i8"@, Token::U8 => "u8"@,
        Token::Bool => "bool"@, Token::Void => "void"@,
        Token::LParen => "("@, Token::RParen => ")"@, Token::LBrace => "{"@, Token::RBrace => "}"@,
        Token::LBracket => "["@, Token::RBracket => "]"@,
        Token::Comma => ","@, Token::Semicolon => ";"@, Token::Colon => ":"@,
        Token::Plus => "+"@, Token::Minus => "-"@, Token::Arrow => "->"@,
        Token::Star => "*"@, Token::Slash => "/"@, Token::Eq => "=="@,
        Token::Assign => "="@, Token::Neq => "!="@, Token::Not => "!"@,
        Token::Le => "<="@, Token::Lt => "<"@, Token::Ge => ">="@,
        Token::Gt => ">"@, Token::AndAnd => "&&"@, Token::OrOr => "||"@,
        Token::EOF => "end of file"@,
    }
}

/// The keyword a word spells, if it is one.
pub open spec fn spec_keyword_token(s: Seq<char>) -> Option<Token> {
    if s == "func"@ { Some(Token::Func) }
    else if s == "let"@ { Some(Token::Let) }
    else if s == "return"@ { Some(Token::Return) }
    else if s == "if"@ { Some(Token::If) }
    else if s == "else"@ { Some(Token::Else) }
    else if s == "while"@ { Some(Token::While) }
    else if s == "true"@ { Some(Token::True) }
    else if s == "false"@ { Some(Token::False) }
    else if s == "i32"@ { Some(Token::I32) }
    else if s == "i64"@ { Some(Token::I64) }
    else if s == "u32"@ { Some(Token::U32) }
    else if s == "u64"@ { Some(Token::U64) }
    else if s == "i8"@ { Some(Token::I8) }
    else if s == "u8"@ { Some(Token::U8) }
    else if s == "bool"@ { Some(Token::Bool) }
    else if s == "void"@ { Some(Token::Void) }
    else { None }
}

/// The keyword token that `s` spells, or `None` for any other word.
pub fn keyword_token(s: &str) -> (r: Option<Token>)
    ensures
        r == spec_keyword_token(s@),
{
    if same_text(s, "func") { Some(Token::Func) }
    else if same_text(s, "let") { Some(Token::Let) }
    else if same_text(s, "return") { Some(Token::Return) }
    else if same_text(s, "if") { Some(Token::If) }
    else if same_text(s, "else") { Some(Token::Else) }
    else if same_text(s, "while") { Some(Token::While) }
    else if same_text(s, "true") { Some(Token::True) }
    else if same_text(s, "false") { Some(Token::False) }
    else if same_text(s, "i32") { Some(Token::I32) }
    else if same_text(s, "i64") { Some(Token::I64) }
    else if same_text(s, "u32") { Some(Token::U32) }
    else if same_text(s, "u64") { Some(Token::U64) }
    else if same_text(s, "i8") { Some(Token::I8) }
    else if same_text(s, "u8") { Some(Token::U8) }
    else if same_text(s, "bool") { Some(Token::Bool) }
    else if same_text(s, "void") { Some(Token::Void) }
    else { None }
}

} // verus!
