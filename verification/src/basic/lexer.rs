use vstd::prelude::*;
use crate::basic::span::Span;
use crate::basic::token::{Token, SpannedToken, keyword_token, spec_keyword_token};
use crate::basic::diag::{Diagnostics, Diagnostic, Severity};
use crate::text::{owned, cat, push_char, chars_of, string_of_chars, char_is_alphanumeric, unicode_alphanumeric, ascii_letter, ascii_digit};

verus! {

/// Turns source text into tokens.
pub struct Lexer {
    source: Vec<char>,
    pos: usize,
    diag: Diagnostics,
}

/// The characters `is_ascii_whitespace` accepts.
pub open spec fn ascii_space(c: char) -> bool {
    c == ' ' || c == '\t' || c == '\n' || c == '\u{c}' || c == '\r'
}

/// The first position at or after `p` that is not ASCII whitespace.
pub open spec fn skip_space(s: Seq<char>, p: int) -> int
    decreases s.len() - p,
{
    if 0 <= p < s.len() && ascii_space(s[p]) { skip_space(s, p + 1) } else { p }
}

/// The first line break at or after `p` (or the end).
pub open spec fn line_end(s: Seq<char>, p: int) -> int
    decreases s.len() - p,
{
    if 0 <= p < s.len() && s[p] != '\n' { line_end(s, p + 1) } else { p }
}

/// The end of the run of ASCII digits starting at `p`.
pub open spec fn digits_end(s: Seq<char>, p: int) -> int
    decreases s.len() - p,
{
    if 0 <= p < s.len() && ascii_digit(s[p]) { digits_end(s, p + 1) } else { p }
}

/// The end of the run of identifier characters starting at `p`.
pub open spec fn word_end(s: Seq<char>, p: int) -> int
    decreases s.len() - p,
{
    if 0 <= p < s.len() && (unicode_alphanumeric(s[p]) || s[p] == '_') { word_end(s, p + 1) } else { p }
}

/// The end of a string literal whose body starts at `p`: just past the
/// closing quote, or the end of the text when it is missing. A backslash
/// escapes the character after it, so a literal that ends in a lone
/// backslash reaches one past the end of the text.
pub open spec fn quote_end(s: Seq<char>, p: int) -> int
    decreases s.len() + 2 - p,
{
    if p < 0 || p >= s.len() {
        p
    } else if s[p] == '"' {
        p + 1
    } else if s[p] == '\\' {
        quote_end(s, p + 2)
    } else {
        quote_end(s, p + 1)
    }
}

/// What a token starting with a given character is.
pub enum Lexeme {
    /// A token that carries no text.
    Punct(Token),
    /// An identifier or keyword.
    Word,
    /// A number literal.
    Number,
    /// A string literal.
    Str,
    /// A `//` comment, which yields no token.
    Comment,
    /// A character no token starts with.
    Unexpected,
}

/// Whether the character after `p` is `c`.
pub open spec fn next_is(s: Seq<char>, p: int, c: char) -> bool {
    p + 1 < s.len() && s[p + 1] == c
}

/// The lexeme starting at `p` (a non-space character) and where it ends.
pub open spec fn lexeme_at(s: Seq<char>, p: int) -> (Lexeme, int) {
    let c = s[p];
    if c == '(' { (Lexeme::Punct(Token::OpenParen), p + 1) }
    else if c == ')' { (Lexeme::Punct(Token::CloseParen), p + 1) }
    else if c == '{' { (Lexeme::Punct(Token::OpenBrace), p + 1) }
    else if c == '}' { (Lexeme::Punct(Token::CloseBrace), p + 1) }
    else if c == '[' { (Lexeme::Punct(Token::OpenBracket), p + 1) }
    else if c == ']' { (Lexeme::Punct(Token::CloseBracket), p + 1) }
    else if c == ':' { (Lexeme::Punct(Token::Colon), p + 1) }
    else if c == ',' { (Lexeme::Punct(Token::Comma), p + 1) }
    else if c == ';' { (Lexeme::Punct(Token::Semicolon), p + 1) }
    else if c == '.' { (Lexeme::Punct(Token::Dot), p + 1) }
    else if c == '@' { (Lexeme::Punct(Token::At), p + 1) }
    else if c == '+' { (Lexeme::Punct(Token::Plus), p + 1) }
    else if c == '-' {
        if next_is(s, p, '>') { (Lexeme::Punct(Token::Arrow), p + 2) } else { (Lexeme::Punct(Token::Minus), p + 1) }
    } else if c == '*' { (Lexeme::Punct(Token::Star), p + 1) }
    else if c == '/' {
        if next_is(s, p, '/') { (Lexeme::Comment, line_end(s, p + 2)) } else { (Lexeme::Punct(Token::Slash), p + 1) }
    } else if c == '!' {
        if next_is(s, p, '=') { (Lexeme::Punct(Token::BangEq), p + 2) } else { (Lexeme::Punct(Token::Bang), p + 1) }
    } else if c == '=' {
        if next_is(s, p, '=') { (Lexeme::Punct(Token::EqEq), p + 2) } else { (Lexeme::Punct(Token::Eq), p + 1) }
    } else if c == '<' {
        if next_is(s, p, '=') { (Lexeme::Punct(Token::LtEq), p + 2) } else { (Lexeme::Punct(Token::Lt), p + 1) }
    } else if c == '>' {
        if next_is(s, p, '=') { (Lexeme::Punct(Token::GtEq), p + 2) } else { (Lexeme::Punct(Token::Gt), p + 1) }
    } else if c == '&' {
        if next_is(s, p, '&') { (Lexeme::Punct(Token::AndAnd), p + 2) } else { (Lexeme::Punct(Token::AndAnd), p + 1) }
    } else if c == '|' {
        if next_is(s, p, '|') { (Lexeme::Punct(Token::PipePipe), p + 2) } else { (Lexeme::Punct(Token::PipePipe), p + 1) }
    } else if c == '"' { (Lexeme::Str, quote_end(s, p + 1)) }
    else if ascii_digit(c) { (Lexeme::Number, digits_end(s, p + 1)) }
    else if ascii_letter(c) || c == '_' { (Lexeme::Word, word_end(s, p + 1)) }
    else { (Lexeme::Unexpected, p + 1) }
}

/// The scanning helpers never go back, and stay within the text (a string may end one past it).
pub proof fn lemma_ends(s: Seq<char>, p: int)
    requires
        0 <= p,
    ensures
        p <= skip_space(s, p),
        p <= s.len() ==> skip_space(s, p) <= s.len(),
        p <= line_end(s, p),
        p <= s.len() ==> line_end(s, p) <= s.len(),
        p <= digits_end(s, p),
        p <= s.len() ==> digits_end(s, p) <= s.len(),
        p <= word_end(s, p),
        p <= s.len() ==> word_end(s, p) <= s.len(),
        p <= quote_end(s, p),
        p <= s.len() ==> quote_end(s, p) <= s.len() + 1,
    decreases s.len() + 2 - p,
{
    if p < s.len() {
        lemma_ends(s, p + 1);
        lemma_ends(s, p + 2);
    }
}

/// Each lexeme ends after it starts, within the text (a string may end one past it).
pub proof fn lemma_lexeme_advances(s: Seq<char>, p: int)
    requires
        0 <= p < s.len(),
    ensures
        p < lexeme_at(s, p).1 <= s.len() + 1,
        !(lexeme_at(s, p).0 is Str) ==> lexeme_at(s, p).1 <= s.len(),
{
    lemma_ends(s, p + 1);
    lemma_ends(s, p + 2);
}

/// The tokens read from position `p` on (before the end marker), each with
/// the span of text it was read from.
pub open spec fn lex_tokens(s: Seq<char>, p: int) -> Seq<(Lexeme, int, int)>
    decreases s.len() + 2 - p,
{
    let q = skip_space(s, p);
    if p < 0 || p > s.len() || q >= s.len() {
        Seq::empty()
    } else {
        let (lx, e) = lexeme_at(s, q);
        proof {
            lemma_ends(s, p);
            lemma_lexeme_advances(s, q);
        }
        match lx {
            Lexeme::Comment => lex_tokens(s, e),
            Lexeme::Unexpected => lex_tokens(s, e),
            _ => seq![(lx, q, e)] + lex_tokens(s, e),
        }
    }
}

/// The positions, from `p` on, of characters no token can start with.
pub open spec fn lex_errors(s: Seq<char>, p: int) -> Seq<int>
    decreases s.len() + 2 - p,
{
    let q = skip_space(s, p);
    if p < 0 || p > s.len() || q >= s.len() {
        Seq::empty()
    } else {
        let (lx, e) = lexeme_at(s, q);
        proof {
            lemma_ends(s, p);
            lemma_lexeme_advances(s, q);
        }
        match lx {
            Lexeme::Unexpected => seq![q] + lex_errors(s, e),
            _ => lex_errors(s, e),
        }
    }
}

/// Whether lexing from `p` stays inside the text: it does unless a string
/// literal ends in a lone backslash at the very end of the text.
pub open spec fn lex_in_bounds(s: Seq<char>, p: int) -> bool
    decreases s.len() + 2 - p,
{
    let q = skip_space(s, p);
    if p < 0 || p > s.len() || q >= s.len() {
        true
    } else {
        let (lx, e) = lexeme_at(s, q);
        proof {
            lemma_ends(s, p);
            lemma_lexeme_advances(s, q);
        }
        e <= s.len() && lex_in_bounds(s, e)
    }
}

/// Whether `t` is the token for lexeme `lx` read from `text`.
pub open spec fn token_fits(t: Token, lx: Lexeme, text: Seq<char>) -> bool {
    match lx {
        Lexeme::Punct(k) => t == k,
        Lexeme::Word => match spec_keyword_token(text) {
            Some(k) => t == k,
            None => t matches Token::Ident(w) && w@ == text,
        },
        Lexeme::Number => t matches Token::NumLiteral(w) && w@ == text,
        Lexeme::Str => t matches Token::StrLiteral(w) && w@ == text,
        _ => false,
    }
}

/// The message for an unexpected character.
pub open spec fn unexpected_message(c: char) -> Seq<char> {
    "unexpected character '"@ + seq![c] + "'"@
}

/// Whether `d` is the error reported for an unexpected character at `p`.
pub open spec fn error_fits(d: Diagnostic, s: Seq<char>, p: int) -> bool {
    &&& d.severity == Severity::Error
    &&& d.span == Span { start: p as usize, end: (p + 1) as usize }
    &&& d.message@ == unexpected_message(s[p])
}

impl Lexer {
    /// The characters being lexed.
    pub closed spec fn source_chars(&self) -> Seq<char> {
        self.source@
    }

    /// Where lexing stands.
    pub closed spec fn position(&self) -> usize {
        self.pos
    }

    /// The messages reported so far.
    pub closed spec fn reported(&self) -> Seq<Diagnostic> {
        self.diag.diagnostics@
    }

    /// A lexer at the start of `source`.
    pub fn new(source: &str) -> (r: Self)
        ensures
            r.source_chars() == source@,
            r.position() == 0,
            r.reported() == Seq::<Diagnostic>::empty(),
    {
        Lexer { source: chars_of(source), pos: 0, diag: Diagnostics::new() }
    }

    /// Reads all tokens from the current position to the end, followed by
    /// an end marker, and hands back the messages reported so far (earlier
    /// ones first), leaving the lexer with none.
    pub fn tokenize(&mut self) -> (r: (Vec<SpannedToken>, Diagnostics))
        requires
            old(self).position() <= old(self).source_chars().len(),
            old(self).source_chars().len() + 2 <= usize::MAX,
            lex_in_bounds(old(self).source_chars(), old(self).position() as int),
        ensures
            ({
                let s = old(self).source_chars();
                let toks = lex_tokens(s, old(self).position() as int);
                let errs = lex_errors(s, old(self).position() as int);
                &&& r.0@.len() == toks.len() + 1
                &&& forall|i: int| 0 <= i < toks.len() ==> {
                    &&& token_fits((#[trigger] r.0@[i]).0, toks[i].0, s.subrange(toks[i].1, toks[i].2))
                    &&& r.0@[i].1 == Span { start: toks[i].1 as usize, end: toks[i].2 as usize }
                }
                &&& r.0@[toks.len() as int] == (Token::Eof, Span { start: s.len() as usize, end: s.len() as usize })
                &&& r.1.diagnostics@.len() == old(self).reported().len() + errs.len()
                &&& forall|i: int| 0 <= i < old(self).reported().len() ==>
                    #[trigger] r.1.diagnostics@[i] == old(self).reported()[i]
                &&& forall|i: int| 0 <= i < errs.len() ==>
                    error_fits(#[trigger] r.1.diagnostics@[old(self).reported().len() + i], s, errs[i])
            }),
            final(self).source_chars() == old(self).source_chars(),
            final(self).position() == old(self).source_chars().len(),
            final(self).reported() == Seq::<Diagnostic>::empty(),
    {
        let ghost s = self.source@;
        let ghost p0 = self.pos as int;
        let ghost d0 = self.diag.diagnostics@;
        let mut tokens: Vec<SpannedToken> = Vec::new();
        let ghost mut done: Seq<(Lexeme, int, int)> = Seq::empty();
        let ghost mut errs: Seq<int> = Seq::empty();
        loop
            invariant
                self.source@ == s,
                s.len() + 2 <= usize::MAX,
                0 <= p0 <= self.pos <= s.len(),
                lex_in_bounds(s, self.pos as int),
                lex_tokens(s, p0) == done + lex_tokens(s, self.pos as int),
                lex_errors(s, p0) == errs + lex_errors(s, self.pos as int),
                tokens@.len() == done.len(),
                forall|i: int| 0 <= i < done.len() ==> {
                    &&& token_fits((#[trigger] tokens@[i]).0, done[i].0, s.subrange(done[i].1, done[i].2))
                    &&& tokens@[i].1 == Span { start: done[i].1 as usize, end: done[i].2 as usize }
                },
                self.diag.diagnostics@.len() == d0.len() + errs.len(),
                forall|i: int| 0 <= i < d0.len() ==> #[trigger] self.diag.diagnostics@[i] == d0[i],
                forall|i: int| 0 <= i < errs.len() ==>
                    error_fits(#[trigger] self.diag.diagnostics@[d0.len() + i], s, errs[i]),
            ensures
                self.pos == s.len(),
            decreases s.len() - self.pos,
        {
            let ghost before = self.pos as int;
            proof {
                lemma_ends(s, before);
            }
            self.skip_whitespace();
            if self.pos >= self.source.len() {
                assert(lex_tokens(s, before) == Seq::<(Lexeme, int, int)>::empty());
                assert(lex_errors(s, before) == Seq::<int>::empty());
                break;
            }
            let start = self.pos;
            let ch = self.source[self.pos];
            proof {
                lemma_lexeme_advances(s, start as int);
            }
            let ghost lx = lexeme_at(s, start as int);
            assert(lex_in_bounds(s, before) == (lx.1 <= s.len() && lex_in_bounds(s, lx.1)));
            let n = self.source.len();
            let token = if ch == '(' { self.pos = self.pos + 1; Token::OpenParen }
            else if ch == ')' { self.pos = self.pos + 1; Token::CloseParen }
            else if ch == '{' { self.pos = self.pos + 1; Token::OpenBrace }
            else if ch == '}' { self.pos = self.pos + 1; Token::CloseBrace }
            else if ch == '[' { self.pos = self.pos + 1; Token::OpenBracket }
            else if ch == ']' { self.pos = self.pos + 1; Token::CloseBracket }
            else if ch == ':' { self.pos = self.pos + 1; Token::Colon }
            else if ch == ',' { self.pos = self.pos + 1; Token::Comma }
            else if ch == ';' { self.pos = self.pos + 1; Token::Semicolon }
            else if ch == '.' { self.pos = self.pos + 1; Token::Dot }
            else if ch == '@' { self.pos = self.pos + 1; Token::At }
            else if ch == '+' { self.pos = self.pos + 1; Token::Plus }
            else if ch == '-' {
                if self.pos + 1 < n && self.source[self.pos + 1] == '>' {
                    self.pos = self.pos + 2; Token::Arrow
                } else { self.pos = self.pos + 1; Token::Minus }
            } else if ch == '*' { self.pos = self.pos + 1; Token::Star }
            else if ch == '/' {
                if self.pos + 1 < n && self.source[self.pos + 1] == '/' {
                    self.skip_comment();
                    proof {
                        lemma_ends(s, start + 2);
                        assert(line_end(s, start as int) == line_end(s, start + 1));
                        assert(line_end(s, start + 1) == line_end(s, start + 2));
                    }
                    continue;
                }
                self.pos = self.pos + 1; Token::Slash
            } else if ch == '!' {
                if self.pos + 1 < n && self.source[self.pos + 1] == '=' {
                    self.pos = self.pos + 2; Token::BangEq
                } else { self.pos = self.pos + 1; Token::Bang }
            } else if ch == '=' {
                if self.pos + 1 < n && self.source[self.pos + 1] == '=' {
                    self.pos = self.pos + 2; Token::EqEq
                } else { self.pos = self.pos + 1; Token::Eq }
            } else if ch == '<' {
                if self.pos + 1 < n && self.source[self.pos + 1] == '=' {
                    self.pos = self.pos + 2; Token::LtEq
                } else { self.pos = self.pos + 1; Token::Lt }
            } else if ch == '>' {
                if self.pos + 1 < n && self.source[self.pos + 1] == '=' {
                    self.pos = self.pos + 2; Token::GtEq
                } else { self.pos = self.pos + 1; Token::Gt }
            } else if ch == '&' {
                if self.pos + 1 < n && self.source[self.pos + 1] == '&' {
                    self.pos = self.pos + 2; Token::AndAnd
                } else { self.pos = self.pos + 1; Token::AndAnd }
            } else if ch == '|' {
                if self.pos + 1 < n && self.source[self.pos + 1] == '|' {
                    self.pos = self.pos + 2; Token::PipePipe
                } else { self.pos = self.pos + 1; Token::PipePipe }
            } else if ch == '"' {
                self.lex_string()
            } else if '0' <= ch && ch <= '9' {
                self.lex_number()
            } else if ('a' <= ch && ch <= 'z') || ('A' <= ch && ch <= 'Z') || ch == '_' {
                self.lex_identifier_or_keyword()
            } else {
                let mut msg = owned("unexpected character '");
                push_char(&mut msg, ch);
                let msg = cat(msg, "'");
                assert(msg@ == unexpected_message(ch));
                let ghost dprev = self.diag.diagnostics@;
                self.diag.error(Span::new(start, start + 1), msg);
                self.pos = self.pos + 1;
                proof {
                    errs = errs.push(start as int);
                    assert(lex_errors(s, before) == seq![start as int] + lex_errors(s, self.pos as int));
                    assert forall|i: int| 0 <= i < errs.len() implies
                        error_fits(#[trigger] self.diag.diagnostics@[d0.len() + i], s, errs[i]) by {
                        if i == errs.len() - 1 {
                            assert(d0.len() + i == dprev.len());
                            assert(errs[i] == start as int);
                        }
                        if i < errs.len() - 1 {
                            assert(self.diag.diagnostics@[d0.len() + i] == dprev[d0.len() + i]);
                        }
                    }
                }
                continue;
            };
            proof {
                assert(lex_tokens(s, before) == seq![(lx.0, start as int, self.pos as int)] + lex_tokens(s, self.pos as int));
                assert(lex_errors(s, before) == lex_errors(s, self.pos as int));
                done = done.push((lx.0, start as int, self.pos as int));
            }
            tokens.push((token, Span::new(start, self.pos)));
        }
        tokens.push((Token::Eof, Span::new(self.pos, self.pos)));
        let mut out = Diagnostics::new();
        std::mem::swap(&mut out, &mut self.diag);
        assert(lex_tokens(s, s.len() as int) == Seq::<(Lexeme, int, int)>::empty());
        assert(lex_errors(s, s.len() as int) == Seq::<int>::empty());
        assert(done + Seq::<(Lexeme, int, int)>::empty() == done);
        assert(errs + Seq::<int>::empty() == errs);
        (tokens, out)
    }

    fn skip_whitespace(&mut self)
        requires
            old(self).pos <= old(self).source@.len(),
        ensures
            final(self).pos == skip_space(old(self).source@, old(self).pos as int),
            final(self).source@ == old(self).source@,
            final(self).diag == old(self).diag,
    {
        while self.pos < self.source.len() && is_ascii_space(self.source[self.pos])
            invariant
                self.source@ == old(self).source@,
                self.diag == old(self).diag,
                old(self).pos <= self.pos <= self.source@.len(),
                skip_space(self.source@, old(self).pos as int) == skip_space(self.source@, self.pos as int),
            decreases self.source@.len() - self.pos,
        {
            self.pos = self.pos + 1;
        }
    }

    fn skip_comment(&mut self)
        requires
            old(self).pos <= old(self).source@.len(),
        ensures
            final(self).pos == line_end(old(self).source@, old(self).pos as int),
            final(self).source@ == old(self).source@,
            final(self).diag == old(self).diag,
    {
        while self.pos < self.source.len() && self.source[self.pos] != '\n'
            invariant
                self.source@ == old(self).source@,
                self.diag == old(self).diag,
                old(self).pos <= self.pos <= self.source@.len(),
                line_end(self.source@, old(self).pos as int) == line_end(self.source@, self.pos as int),
            decreases self.source@.len() - self.pos,
        {
            self.pos = self.pos + 1;
        }
    }

    fn lex_identifier_or_keyword(&mut self) -> (t: Token)
        requires
            old(self).pos < old(self).source@.len(),
            ascii_letter(old(self).source@[old(self).pos as int]) || old(self).source@[old(self).pos as int] == '_',
        ensures
            final(self).pos == word_end(old(self).source@, old(self).pos + 1),
            final(self).source@ == old(self).source@,
            final(self).diag == old(self).diag,
            token_fits(t, Lexeme::Word, old(self).source@.subrange(old(self).pos as int, final(self).pos as int)),
    {
        let start = self.pos;
        while self.pos < self.source.len()
            && (char_is_alphanumeric(self.source[self.pos]) || self.source[self.pos] == '_')
            invariant
                self.source@ == old(self).source@,
                self.diag == old(self).diag,
                start == old(self).pos,
                start <= self.pos <= self.source@.len(),
                self.pos == start || word_end(self.source@, start + 1) == word_end(self.source@, self.pos as int),
                self.pos == start ==> (ascii_letter(self.source@[start as int]) || self.source@[start as int] == '_'),
            decreases self.source@.len() - self.pos,
        {
            self.pos = self.pos + 1;
        }
        let word = string_of_chars(&self.source, start, self.pos);
        match keyword_token(word.as_str()) {
            Some(k) => k,
            None => Token::Ident(word),
        }
    }

    fn lex_number(&mut self) -> (t: Token)
        requires
            old(self).pos < old(self).source@.len(),
            ascii_digit(old(self).source@[old(self).pos as int]),
        ensures
            final(self).pos == digits_end(old(self).source@, old(self).pos + 1),
            final(self).source@ == old(self).source@,
            final(self).diag == old(self).diag,
            token_fits(t, Lexeme::Number, old(self).source@.subrange(old(self).pos as int, final(self).pos as int)),
    {
        let start = self.pos;
        while self.pos < self.source.len() && is_digit_char(self.source[self.pos])
            invariant
                self.source@ == old(self).source@,
                self.diag == old(self).diag,
                start == old(self).pos,
                start <= self.pos <= self.source@.len(),
                self.pos == start || digits_end(self.source@, start + 1) == digits_end(self.source@, self.pos as int),
                self.pos == start ==> ascii_digit(self.source@[start as int]),
            decreases self.source@.len() - self.pos,
        {
            self.pos = self.pos + 1;
        }
        Token::NumLiteral(string_of_chars(&self.source, start, self.pos))
    }

    fn lex_string(&mut self) -> (t: Token)
        requires
            old(self).pos < old(self).source@.len(),
            old(self).source@.len() + 2 <= usize::MAX,
            quote_end(old(self).source@, old(self).pos + 1) <= old(self).source@.len(),
        ensures
            final(self).pos == quote_end(old(self).source@, old(self).pos + 1),
            final(self).source@ == old(self).source@,
            final(self).diag == old(self).diag,
            token_fits(t, Lexeme::Str, old(self).source@.subrange(old(self).pos as int, final(self).pos as int)),
    {
        let start = self.pos;
        self.pos = self.pos + 1;
        let n = self.source.len();
        while self.pos < n && self.source[self.pos] != '"'
            invariant
                self.source@ == old(self).source@,
                self.diag == old(self).diag,
                n == self.source@.len(),
                n + 2 <= usize::MAX,
                start == old(self).pos,
                start < self.pos <= n + 1,
                quote_end(self.source@, start + 1) == quote_end(self.source@, self.pos as int),
                quote_end(self.source@, start + 1) <= n,
            decreases n + 2 - self.pos,
        {
            if self.source[self.pos] == '\\' {
                self.pos = self.pos + 1;
            }
            self.pos = self.pos + 1;
        }
        if self.pos < n {
            self.pos = self.pos + 1;
        }
        Token::StrLiteral(string_of_chars(&self.source, start, self.pos))
    }
}

impl Lexer {
    /// Whether reading tokens from the current position stays inside the
    /// text. It does not exactly when some string literal is left open and
    /// the text ends in a lone backslash inside it: reading that literal
    /// would step one past the end.
    pub fn lexes_in_bounds(&self) -> (r: bool)
        requires
            self.position() <= self.source_chars().len(),
            self.source_chars().len() + 2 <= usize::MAX,
        ensures
            r == lex_in_bounds(self.source_chars(), self.position() as int),
    {
        let ghost s = self.source@;
        let n = self.source.len();
        let mut p = self.pos;
        loop
            invariant
                s == self.source@,
                n == s.len(),
                n + 2 <= usize::MAX,
                p <= n,
                lex_in_bounds(s, self.pos as int) == lex_in_bounds(s, p as int),
            decreases n - p,
        {
            proof {
                lemma_ends(s, p as int);
            }
            let q = space_end(&self.source, p);
            if q >= n {
                return true;
            }
            proof {
                lemma_lexeme_advances(s, q as int);
            }
            let e = lexeme_end(&self.source, q);
            if e > n {
                return false;
            }
            p = e;
        }
    }
}

/// Where the run of ASCII whitespace at `p` ends.
fn space_end(cs: &Vec<char>, p: usize) -> (r: usize)
    requires
        p <= cs@.len(),
    ensures
        r == skip_space(cs@, p as int),
{
    let mut q = p;
    while q < cs.len() && is_ascii_space(cs[q])
        invariant
            p <= q <= cs@.len(),
            skip_space(cs@, p as int) == skip_space(cs@, q as int),
        decreases cs@.len() - q,
    {
        q = q + 1;
    }
    q
}

/// Where the line holding `p` ends.
fn line_end_at(cs: &Vec<char>, p: usize) -> (r: usize)
    requires
        p <= cs@.len(),
    ensures
        r == line_end(cs@, p as int),
{
    let mut q = p;
    while q < cs.len() && cs[q] != '\n'
        invariant
            p <= q <= cs@.len(),
            line_end(cs@, p as int) == line_end(cs@, q as int),
        decreases cs@.len() - q,
    {
        q = q + 1;
    }
    q
}

/// Where the run of ASCII digits at `p` ends.
fn digits_end_at(cs: &Vec<char>, p: usize) -> (r: usize)
    requires
        p <= cs@.len(),
    ensures
        r == digits_end(cs@, p as int),
{
    let mut q = p;
    while q < cs.len() && is_digit_char(cs[q])
        invariant
            p <= q <= cs@.len(),
            digits_end(cs@, p as int) == digits_end(cs@, q as int),
        decreases cs@.len() - q,
    {
        q = q + 1;
    }
    q
}

/// Where the run of identifier characters at `p` ends.
fn word_end_at(cs: &Vec<char>, p: usize) -> (r: usize)
    requires
        p <= cs@.len(),
    ensures
        r == word_end(cs@, p as int),
{
    let mut q = p;
    while q < cs.len() && (char_is_alphanumeric(cs[q]) || cs[q] == '_')
        invariant
            p <= q <= cs@.len(),
            word_end(cs@, p as int) == word_end(cs@, q as int),
        decreases cs@.len() - q,
    {
        q = q + 1;
    }
    q
}

/// Where a string literal whose body starts at `p` ends.
fn quote_end_at(cs: &Vec<char>, p: usize) -> (r: usize)
    requires
        p <= cs@.len(),
        cs@.len() + 2 <= usize::MAX,
    ensures
        r == quote_end(cs@, p as int),
{
    let mut q = p;
    while q < cs.len() && cs[q] != '"'
        invariant
            p <= q <= cs@.len() + 1,
            cs@.len() + 2 <= usize::MAX,
            quote_end(cs@, p as int) == quote_end(cs@, q as int),
        decreases cs@.len() + 2 - q,
    {
        if cs[q] == '\\' {
            q = q + 2;
        } else {
            q = q + 1;
        }
    }
    if q < cs.len() {
        q + 1
    } else {
        q
    }
}

/// Where the lexeme starting at `p` ends.
fn lexeme_end(cs: &Vec<char>, p: usize) -> (r: usize)
    requires
        p < cs@.len(),
        cs@.len() + 2 <= usize::MAX,
    ensures
        r == lexeme_at(cs@, p as int).1,
{
    let c = cs[p];
    let n = cs.len();
    let follows = |d: char| -> (b: bool)
        ensures
            b == next_is(cs@, p as int, d),
        { p + 1 < n && cs[p + 1] == d };
    if c == '"' {
        quote_end_at(cs, p + 1)
    } else if '0' <= c && c <= '9' {
        digits_end_at(cs, p + 1)
    } else if ('a' <= c && c <= 'z') || ('A' <= c && c <= 'Z') || c == '_' {
        word_end_at(cs, p + 1)
    } else if c == '/' && follows('/') {
        line_end_at(cs, p + 2)
    } else if (c == '-' && follows('>')) || (c == '!' && follows('=')) || (c == '=' && follows('='))
        || (c == '<' && follows('=')) || (c == '>' && follows('=')) || (c == '&' && follows('&'))
        || (c == '|' && follows('|')) {
        p + 2
    } else {
        p + 1
    }
}

/// `char::is_ascii_whitespace`.
fn is_ascii_space(c: char) -> (r: bool)
    ensures
        r == ascii_space(c),
{
    c == ' ' || c == '\t' || c == '\n' || c == '\u{c}' || c == '\r'
}

/// `char::is_ascii_digit`.
fn is_digit_char(c: char) -> (r: bool)
    ensures
        r == ascii_digit(c),
{
    '0' <= c && c <= '9'
}

} // verus!

verus! {

/// The `//` comments read from position `p` on, as the spans they cover.
pub open spec fn lex_comments(s: Seq<char>, p: int) -> Seq<(int, int)>
    decreases s.len() + 2 - p,
{
    let q = skip_space(s, p);
    if p < 0 || p > s.len() || q >= s.len() {
        Seq::empty()
    } else {
        let (lx, e) = lexeme_at(s, q);
        proof {
            lemma_ends(s, p);
            lemma_lexeme_advances(s, q);
        }
        match lx {
            Lexeme::Comment => seq![(q, e)] + lex_comments(s, e),
            _ => lex_comments(s, e),
        }
    }
}

/// Position `k` lies in a token, a comment or an unexpected character read
/// from `p` on.
pub open spec fn lexed_at(s: Seq<char>, p: int, k: int) -> bool {
    ||| exists|i: int| 0 <= i < lex_tokens(s, p).len() && lex_tokens(s, p)[i].1 <= k < #[trigger] lex_tokens(s, p)[i].2
    ||| exists|i: int| 0 <= i < lex_comments(s, p).len() && lex_comments(s, p)[i].0 <= k < #[trigger] lex_comments(s, p)[i].1
    ||| lex_errors(s, p).contains(k)
}

proof fn lemma_skipped_spaces(s: Seq<char>, p: int, k: int)
    requires
        0 <= p <= k < skip_space(s, p),
    ensures
        ascii_space(s[k]),
    decreases s.len() - p,
{
    if k > p {
        lemma_skipped_spaces(s, p + 1, k);
    }
}

/// The tokens come in order, each after the one before and none empty, and
/// every character from `p` on that is not blank lies in a token, a
/// comment or an unexpected character.
pub proof fn lemma_tokens_ordered_and_cover(s: Seq<char>, p: int)
    requires
        0 <= p,
    ensures
        forall|i: int| 0 <= i < lex_tokens(s, p).len() ==> p <= #[trigger] lex_tokens(s, p)[i].1 < lex_tokens(s, p)[i].2,
        forall|i: int| 0 <= i < lex_tokens(s, p).len() - 1 ==> #[trigger] lex_tokens(s, p)[i].2 <= lex_tokens(s, p)[i + 1].1,
        forall|k: int| p <= k < s.len() && !ascii_space(#[trigger] s[k]) ==> lexed_at(s, p, k),
    decreases s.len() + 2 - p,
{
    let q = skip_space(s, p);
    lemma_ends(s, p);
    if p > s.len() || q >= s.len() {
        assert forall|k: int| p <= k < s.len() && !ascii_space(#[trigger] s[k]) implies lexed_at(s, p, k) by {
            lemma_skipped_spaces(s, p, k);
        }
    } else {
        let (lx, e) = lexeme_at(s, q);
        lemma_lexeme_advances(s, q);
        lemma_tokens_ordered_and_cover(s, e);
        let toks = lex_tokens(s, p);
        let rest = lex_tokens(s, e);
        let cs = lex_comments(s, p);
        let crest = lex_comments(s, e);
        let errs = lex_errors(s, p);
        let erest = lex_errors(s, e);
        let is_tok = !(lx is Comment) && !(lx is Unexpected);
        if is_tok {
            assert(toks == seq![(lx, q, e)] + rest);
        } else {
            assert(toks == rest);
        }
        if lx is Comment {
            assert(cs == seq![(q, e)] + crest);
        } else {
            assert(cs == crest);
        }
        if lx is Unexpected {
            assert(errs == seq![q] + erest);
        } else {
            assert(errs == erest);
        }
        assert forall|i: int| 0 <= i < toks.len() implies p <= #[trigger] toks[i].1 < toks[i].2 by {
            if is_tok && i > 0 {
                assert(toks[i] == rest[i - 1]);
            }
        }
        assert forall|i: int| 0 <= i < toks.len() - 1 implies #[trigger] toks[i].2 <= toks[i + 1].1 by {
            if is_tok {
                if i == 0 {
                    assert(toks[1] == rest[0]);
                } else {
                    assert(toks[i] == rest[i - 1] && toks[i + 1] == rest[i]);
                }
            }
        }
        assert forall|k: int| p <= k < s.len() && !ascii_space(#[trigger] s[k]) implies lexed_at(s, p, k) by {
            if k < q {
                lemma_skipped_spaces(s, p, k);
            } else if k < e {
                if is_tok {
                    assert(toks[0].1 <= k < toks[0].2);
                } else if lx is Comment {
                    assert(cs[0].0 <= k < cs[0].1);
                } else {
                    assert(errs[0] == q);
                    assert(k == q);
                }
            } else {
                assert(lexed_at(s, e, k));
                if exists|i: int| 0 <= i < rest.len() && rest[i].1 <= k < #[trigger] rest[i].2 {
                    let i = choose|i: int| 0 <= i < rest.len() && rest[i].1 <= k < #[trigger] rest[i].2;
                    if is_tok {
                        assert(toks[i + 1] == rest[i]);
                        assert(toks[i + 1].1 <= k < toks[i + 1].2);
                    } else {
                        assert(toks[i].1 <= k < toks[i].2);
                    }
                } else if exists|i: int| 0 <= i < crest.len() && crest[i].0 <= k < #[trigger] crest[i].1 {
                    let i = choose|i: int| 0 <= i < crest.len() && crest[i].0 <= k < #[trigger] crest[i].1;
                    if lx is Comment {
                        assert(cs[i + 1] == crest[i]);
                        assert(cs[i + 1].0 <= k < cs[i + 1].1);
                    } else {
                        assert(cs[i].0 <= k < cs[i].1);
                    }
                } else {
                    assert(erest.contains(k));
                    let i = choose|i: int| 0 <= i < erest.len() && erest[i] == k;
                    if lx is Unexpected {
                        assert(errs[i + 1] == k);
                    } else {
                        assert(errs[i] == k);
                    }
                }
            }
        }
    }
}

} // verus!
