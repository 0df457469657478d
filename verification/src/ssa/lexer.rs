use vstd::prelude::*;
use crate::ssa::span::Span;
use crate::ssa::token::{Token, keyword_token, spec_keyword_token};
use crate::ssa::diag::{Diagnostics, pushed_error};
use crate::text::{
    owned, cat, push_char, chars_of, string_of_chars, parse_i64, spec_parse_i64, char_is_alphabetic,
    char_is_alphanumeric, char_is_whitespace, unicode_alphabetic, unicode_alphanumeric,
    unicode_whitespace, ascii_digit,
};

verus! {

/// Reads tokens from source text, one at a time.
pub struct Lexer {
    chars: Vec<char>,
    pos: usize,
}

/// The first line break at or after `p` (or the end).
pub open spec fn line_end(s: Seq<char>, p: int) -> int
    decreases s.len() - p,
{
    if 0 <= p < s.len() && s[p] != '\n' { line_end(s, p + 1) } else { p }
}

/// `line_end` stops at the first newline from `p`, or at the end.
pub proof fn lemma_line_end(s: Seq<char>, p: int)
    requires
        0 <= p,
    ensures
        p <= line_end(s, p),
        p <= s.len() ==> line_end(s, p) <= s.len(),
        forall|i: int| p <= i < line_end(s, p) ==> s[i] != '\n',
        line_end(s, p) < s.len() ==> s[line_end(s, p)] == '\n',
    decreases s.len() - p,
{
    if 0 <= p < s.len() && s[p] != '\n' {
        lemma_line_end(s, p + 1);
    }
}

/// Whether a `//` comment starts at `p`.
pub open spec fn comment_at(s: Seq<char>, p: int) -> bool {
    0 <= p && p + 1 < s.len() && s[p] == '/' && s[p + 1] == '/'
}

/// The first position at or after `p` that is neither whitespace nor
/// inside a `//` comment.
pub open spec fn skip_blank(s: Seq<char>, p: int) -> int
    decreases s.len() - p,
{
    if 0 <= p < s.len() && unicode_whitespace(s[p]) {
        skip_blank(s, p + 1)
    } else if comment_at(s, p) {
        proof {
            lemma_line_end(s, p + 2);
        }
        skip_blank(s, line_end(s, p + 2))
    } else {
        p
    }
}

/// `skip_blank` moves forward within the text and stops on neither blank nor comment.
pub proof fn lemma_skip_blank(s: Seq<char>, p: int)
    requires
        0 <= p <= s.len(),
    ensures
        p <= skip_blank(s, p) <= s.len(),
        skip_blank(s, p) < s.len() ==> !unicode_whitespace(s[skip_blank(s, p)]),
        !comment_at(s, skip_blank(s, p)),
    decreases s.len() - p,
{
    if 0 <= p < s.len() && unicode_whitespace(s[p]) {
        lemma_skip_blank(s, p + 1);
    } else if comment_at(s, p) {
        lemma_line_end(s, p + 2);
        lemma_skip_blank(s, line_end(s, p + 2));
    }
}

/// The end of the run of identifier characters starting at `p`.
pub open spec fn word_end(s: Seq<char>, p: int) -> int
    decreases s.len() - p,
{
    if 0 <= p < s.len() && (unicode_alphanumeric(s[p]) || s[p] == '_') { word_end(s, p + 1) } else { p }
}

/// The end of the run of digits and underscores starting at `p`.
pub open spec fn number_end(s: Seq<char>, p: int) -> int
    decreases s.len() - p,
{
    if 0 <= p < s.len() && (ascii_digit(s[p]) || s[p] == '_') { number_end(s, p + 1) } else { p }
}

proof fn lemma_runs(s: Seq<char>, p: int)
    requires
        0 <= p <= s.len(),
    ensures
        p <= word_end(s, p) <= s.len(),
        p <= number_end(s, p) <= s.len(),
        forall|i: int| p <= i < number_end(s, p) ==> ascii_digit(s[i]) || s[i] == '_',
    decreases s.len() - p,
{
    if p < s.len() {
        lemma_runs(s, p + 1);
    }
}

/// What kind of token starts at a position.
pub enum Lexeme {
    /// A token that carries nothing.
    Punct(Token),
    /// An identifier or keyword.
    Word,
    /// An integer literal.
    Number,
    /// Text no token is made of, with the message reported for it.
    Bad(Seq<char>),
}

/// Whether the character after `p` is `c`.
pub open spec fn next_is(s: Seq<char>, p: int, c: char) -> bool {
    p + 1 < s.len() && s[p + 1] == c
}

/// The lexeme starting at `p` (neither whitespace nor a comment) and where
/// it ends.
pub open spec fn lexeme_at(s: Seq<char>, p: int) -> (Lexeme, int) {
    let c = s[p];
    if c == '(' { (Lexeme::Punct(Token::LParen), p + 1) }
    else if c == ')' { (Lexeme::Punct(Token::RParen), p + 1) }
    else if c == '{' { (Lexeme::Punct(Token::LBrace), p + 1) }
    else if c == '}' { (Lexeme::Punct(Token::RBrace), p + 1) }
    else if c == '[' { (Lexeme::Punct(Token::LBracket), p + 1) }
    else if c == ']' { (Lexeme::Punct(Token::RBracket), p + 1) }
    else if c == ',' { (Lexeme::Punct(Token::Comma), p + 1) }
    else if c == ';' { (Lexeme::Punct(Token::Semicolon), p + 1) }
    else if c == ':' {
        if next_is(s, p, ':') { (Lexeme::Bad("unexpected '::'"@), p + 2) } else { (Lexeme::Punct(Token::Colon), p + 1) }
    } else if c == '+' { (Lexeme::Punct(Token::Plus), p + 1) }
    else if c == '-' {
        if next_is(s, p, '>') { (Lexeme::Punct(Token::Arrow), p + 2) } else { (Lexeme::Punct(Token::Minus), p + 1) }
    } else if c == '*' { (Lexeme::Punct(Token::Star), p + 1) }
    else if c == '/' { (Lexeme::Punct(Token::Slash), p + 1) }
    else if c == '=' {
        if next_is(s, p, '=') { (Lexeme::Punct(Token::Eq), p + 2) } else { (Lexeme::Punct(Token::Assign), p + 1) }
    } else if c == '!' {
        if next_is(s, p, '=') { (Lexeme::Punct(Token::Neq), p + 2) } else { (Lexeme::Punct(Token::Not), p + 1) }
    } else if c == '<' {
        if next_is(s, p, '=') { (Lexeme::Punct(Token::Le), p + 2) }
        else if next_is(s, p, '<') { (Lexeme::Bad("unexpected '<<'"@), p + 2) }
        else { (Lexeme::Punct(Token::Lt), p + 1) }
    } else if c == '>' {
        if next_is(s, p, '=') { (Lexeme::Punct(Token::Ge), p + 2) }
        else if next_is(s, p, '>') { (Lexeme::Bad("unexpected '>>'"@), p + 2) }
        else { (Lexeme::Punct(Token::Gt), p + 1) }
    } else if c == '&' {
        if next_is(s, p, '&') { (Lexeme::Punct(Token::AndAnd), p + 2) } else { (Lexeme::Bad("unexpected '&'"@), p + 1) }
    } else if c == '|' {
        if next_is(s, p, '|') { (Lexeme::Punct(Token::OrOr), p + 2) } else { (Lexeme::Bad("unexpected '|'"@), p + 1) }
    } else if unicode_alphabetic(c) || c == '_' { (Lexeme::Word, word_end(s, p + 1)) }
    else if ascii_digit(c) { (Lexeme::Number, number_end(s, p + 1)) }
    else { (Lexeme::Bad("unexpected character '"@ + seq![c] + "'"@), p + 1) }
}

/// The digits of a number literal: its text without underscores.
pub open spec fn literal_digits(text: Seq<char>) -> Seq<char>
    decreases text.len(),
{
    if text.len() == 0 {
        text
    } else if text.last() == '_' {
        literal_digits(text.drop_last())
    } else {
        literal_digits(text.drop_last()).push(text.last())
    }
}

/// Whether `t` is the token for lexeme `lx` read from `text`.
pub open spec fn token_fits(t: Token, lx: Lexeme, text: Seq<char>) -> bool {
    match lx {
        Lexeme::Punct(k) => t == k,
        Lexeme::Word => match spec_keyword_token(text) {
            Some(k) => t == k,
            None => t matches Token::Ident(w) && w@ == text,
        },
        Lexeme::Number => match spec_parse_i64(literal_digits(text)) {
            Some(v) => t == Token::IntLit(v),
            None => t matches Token::Error(w) && w@ == "overflow"@,
        },
        Lexeme::Bad(m) => t matches Token::Error(w) && w@ == m,
    }
}

/// The message reported for lexeme `lx` read from `text`, if any.
pub open spec fn lexeme_error(lx: Lexeme, text: Seq<char>) -> Option<Seq<char>> {
    match lx {
        Lexeme::Bad(m) => Some(m),
        Lexeme::Number => if spec_parse_i64(literal_digits(text)) is None {
            Some("integer literal overflow"@)
        } else {
            None
        },
        _ => None,
    }
}

/// The lexemes of `s` from `p` on, each with where it starts and ends.
pub open spec fn lex_items(s: Seq<char>, p: int) -> Seq<(Lexeme, int, int)>
    decreases s.len() - p,
{
    if !(0 <= p <= s.len()) {
        seq![]
    } else {
        let q = skip_blank(s, p);
        if !(p <= q < s.len()) {
            seq![]
        } else {
            let (lx, e) = lexeme_at(s, q);
            if !(q < e <= s.len()) {
                seq![]
            } else {
                seq![(lx, q, e)] + lex_items(s, e)
            }
        }
    }
}

/// The errors reported for lexemes of `s`, in order: each message with the
/// span of its lexeme.
pub open spec fn item_errors(s: Seq<char>, items: Seq<(Lexeme, int, int)>) -> Seq<(Seq<char>, Span)>
    decreases items.len(),
{
    if items.len() == 0 {
        seq![]
    } else {
        let (lx, q, e) = items.last();
        let here: Seq<(Seq<char>, Span)> = match lexeme_error(lx, s.subrange(q, e)) {
            Some(m) => seq![(m, Span { start: q as usize, end: e as usize })],
            None => seq![],
        };
        item_errors(s, items.drop_last()) + here
    }
}

/// Whether `toks` are the tokens of `s`: one for each lexeme, with its
/// span, then the end-of-file token at the end of the text.
pub open spec fn tokens_of(s: Seq<char>, toks: Seq<(Token, Span)>) -> bool {
    let items = lex_items(s, 0);
    &&& toks.len() == items.len() + 1
    &&& forall|i: int| 0 <= i < items.len() ==> {
        &&& token_fits((#[trigger] toks[i]).0, items[i].0, s.subrange(items[i].1, items[i].2))
        &&& toks[i].1 == Span { start: items[i].1 as usize, end: items[i].2 as usize }
    }
    &&& toks.last() == (Token::EOF, Span { start: s.len() as usize, end: s.len() as usize })
}

impl Lexer {
    /// The text being read.
    pub closed spec fn text(&self) -> Seq<char> {
        self.chars@
    }

    /// The position of the next character to read.
    pub closed spec fn at(&self) -> int {
        self.pos as int
    }

    /// The position is never before the start of the text.
    pub proof fn lemma_at_nonneg(&self)
        ensures
            0 <= self.at(),
    {
    }

    /// A lexer at the start of `source`.
    pub fn new(source: &str) -> (r: Self)
        ensures
            r.text() == source@,
            r.at() == 0,
    {
        Lexer { chars: chars_of(source), pos: 0 }
    }

    fn peek(&self) -> (r: Option<char>)
        ensures
            self.pos < self.chars@.len() ==> r == Some(self.chars@[self.pos as int]),
            self.pos >= self.chars@.len() ==> r is None,
    {
        if self.pos < self.chars.len() { Some(self.chars[self.pos]) } else { None }
    }

    fn peek_next(&self) -> (r: Option<char>)
        ensures
            self.pos + 1 < self.chars@.len() ==> r == Some(self.chars@[self.pos + 1]),
            self.pos + 1 >= self.chars@.len() ==> r is None,
    {
        if self.pos < self.chars.len() && self.pos + 1 < self.chars.len() {
            Some(self.chars[self.pos + 1])
        } else {
            None
        }
    }

    fn skip_line_comment(&mut self)
        requires
            old(self).pos <= old(self).chars@.len(),
        ensures
            final(self).chars@ == old(self).chars@,
            final(self).pos == line_end(old(self).chars@, old(self).pos as int),
    {
        proof {
            lemma_line_end(self.chars@, self.pos as int);
        }
        while self.pos < self.chars.len() && self.chars[self.pos] != '\n'
            invariant
                self.chars@ == old(self).chars@,
                self.pos <= self.chars@.len(),
                line_end(self.chars@, self.pos as int) == line_end(old(self).chars@, old(self).pos as int),
            decreases self.chars@.len() - self.pos,
        {
            self.pos = self.pos + 1;
        }
    }

    fn skip_whitespace_and_comments(&mut self)
        requires
            old(self).pos <= old(self).chars@.len(),
        ensures
            final(self).chars@ == old(self).chars@,
            final(self).pos == skip_blank(old(self).chars@, old(self).pos as int),
    {
        loop
            invariant
                self.chars@ == old(self).chars@,
                self.pos <= self.chars@.len(),
                skip_blank(self.chars@, self.pos as int) == skip_blank(old(self).chars@, old(self).pos as int),
            ensures
                self.chars@ == old(self).chars@,
                self.pos == skip_blank(old(self).chars@, old(self).pos as int),
            decreases self.chars@.len() - self.pos,
        {
            if self.pos < self.chars.len() && char_is_whitespace(self.chars[self.pos]) {
                self.pos = self.pos + 1;
            } else if self.pos < self.chars.len() && self.pos + 1 < self.chars.len() && self.chars[self.pos] == '/'
                && self.chars[self.pos + 1] == '/' {
                proof {
                    lemma_line_end(self.chars@, self.pos + 2);
                    lemma_line_end(self.chars@, self.pos as int);
                    assert(line_end(self.chars@, self.pos as int) == line_end(self.chars@, self.pos + 2)) by {
                        assert(line_end(self.chars@, self.pos as int) == line_end(self.chars@, self.pos + 1));
                    }
                }
                self.skip_line_comment();
            } else {
                break;
            }
        }
    }

    /// Reads the next token and the span of text it came from; past the end
    /// of the text every token is `EOF`. Text that is no token gives an
    /// `Error` token and an error in `diags`.
    pub fn next_token(&mut self, diags: &mut Diagnostics) -> (r: (Token, Span))
        requires
            old(self).at() <= old(self).text().len(),
            old(self).text().len() + 2 <= usize::MAX,
        ensures
            final(self).text() == old(self).text(),
            0 <= final(self).at() <= final(self).text().len(),
            ({
                let s = old(self).text();
                let q = skip_blank(s, old(self).at());
                if q >= s.len() {
                    &&& r.0 == Token::EOF
                    &&& r.1 == Span { start: q as usize, end: q as usize }
                    &&& final(self).at() == q
                    &&& final(diags).diags@ == old(diags).diags@
                } else {
                    let (lx, e) = lexeme_at(s, q);
                    &&& token_fits(r.0, lx, s.subrange(q, e))
                    &&& r.1 == Span { start: q as usize, end: e as usize }
                    &&& final(self).at() == e
                    &&& q < e
                    &&& match lexeme_error(lx, s.subrange(q, e)) {
                        Some(m) => pushed_error(old(diags).diags@, final(diags).diags@, m, Some(r.1)),
                        None => final(diags).diags@ == old(diags).diags@,
                    }
                }
            }),
            r.0 != Token::EOF ==> final(self).at() > old(self).at(),
        decreases old(self).text().len() - old(self).at(),
    {
        let ghost s = self.chars@;
        proof {
            lemma_skip_blank(s, self.pos as int);
        }
        self.skip_whitespace_and_comments();
        let start = self.pos;
        if start >= self.chars.len() {
            return (Token::EOF, Span { start, end: start });
        }
        let c = self.chars[start];
        self.pos = self.pos + 1;
        proof {
            lemma_runs(s, start + 1);
        }
        if c == '(' { return (Token::LParen, Span { start, end: self.pos }); }
        if c == ')' { return (Token::RParen, Span { start, end: self.pos }); }
        if c == '{' { return (Token::LBrace, Span { start, end: self.pos }); }
        if c == '}' { return (Token::RBrace, Span { start, end: self.pos }); }
        if c == '[' { return (Token::LBracket, Span { start, end: self.pos }); }
        if c == ']' { return (Token::RBracket, Span { start, end: self.pos }); }
        if c == ',' { return (Token::Comma, Span { start, end: self.pos }); }
        if c == ';' { return (Token::Semicolon, Span { start, end: self.pos }); }
        if c == ':' {
            if self.peek() == Some(':') {
                self.pos = self.pos + 1;
                return self.bad(start, "unexpected '::'", diags);
            }
            return (Token::Colon, Span { start, end: self.pos });
        }
        if c == '+' { return (Token::Plus, Span { start, end: self.pos }); }
        if c == '-' {
            if self.peek() == Some('>') {
                self.pos = self.pos + 1;
                return (Token::Arrow, Span { start, end: self.pos });
            }
            return (Token::Minus, Span { start, end: self.pos });
        }
        if c == '*' { return (Token::Star, Span { start, end: self.pos }); }
        if c == '/' {
            if self.peek() == Some('/') {
                self.skip_line_comment();
                return self.next_token(diags);
            }
            return (Token::Slash, Span { start, end: self.pos });
        }
        if c == '=' {
            if self.peek() == Some('=') {
                self.pos = self.pos + 1;
                return (Token::Eq, Span { start, end: self.pos });
            }
            return (Token::Assign, Span { start, end: self.pos });
        }
        if c == '!' {
            if self.peek() == Some('=') {
                self.pos = self.pos + 1;
                return (Token::Neq, Span { start, end: self.pos });
            }
            return (Token::Not, Span { start, end: self.pos });
        }
        if c == '<' {
            if self.peek() == Some('=') {
                self.pos = self.pos + 1;
                return (Token::Le, Span { start, end: self.pos });
            }
            if self.peek() == Some('<') {
                self.pos = self.pos + 1;
                return self.bad(start, "unexpected '<<'", diags);
            }
            return (Token::Lt, Span { start, end: self.pos });
        }
        if c == '>' {
            if self.peek() == Some('=') {
                self.pos = self.pos + 1;
                return (Token::Ge, Span { start, end: self.pos });
            }
            if self.peek() == Some('>') {
                self.pos = self.pos + 1;
                return self.bad(start, "unexpected '>>'", diags);
            }
            return (Token::Gt, Span { start, end: self.pos });
        }
        if c == '&' {
            if self.peek() == Some('&') {
                self.pos = self.pos + 1;
                return (Token::AndAnd, Span { start, end: self.pos });
            }
            return self.bad(start, "unexpected '&'", diags);
        }
        if c == '|' {
            if self.peek() == Some('|') {
                self.pos = self.pos + 1;
                return (Token::OrOr, Span { start, end: self.pos });
            }
            return self.bad(start, "unexpected '|'", diags);
        }
        if char_is_alphabetic(c) || c == '_' {
            return self.scan_ident(start);
        }
        if '0' <= c && c <= '9' {
            return self.scan_number(start, diags);
        }
        let mut msg = owned("unexpected character '");
        push_char(&mut msg, c);
        msg = cat(msg, "'");
        let msg2 = msg.clone();
        assert(msg@ == "unexpected character '"@ + seq![c] + "'"@);
        assert(lexeme_at(s, start as int) == (Lexeme::Bad(msg@), start + 1));
        assert(msg2@ == msg@);
        diags.error(msg, Some(Span { start, end: self.pos }));
        (Token::Error(msg2), Span { start, end: self.pos })
    }

    fn bad(&self, start: usize, msg: &str, diags: &mut Diagnostics) -> (r: (Token, Span))
        requires
            start <= self.pos,
        ensures
            r.0 matches Token::Error(w) && w@ == msg@,
            r.1 == (Span { start, end: self.pos }),
            pushed_error(old(diags).diags@, final(diags).diags@, msg@, Some(r.1)),
    {
        diags.error(owned(msg), Some(Span { start, end: self.pos }));
        (Token::Error(owned(msg)), Span { start, end: self.pos })
    }

    fn scan_ident(&mut self, start: usize) -> (r: (Token, Span))
        requires
            start < old(self).pos <= old(self).chars@.len(),
        ensures
            final(self).chars@ == old(self).chars@,
            final(self).pos == word_end(old(self).chars@, old(self).pos as int),
            r.1 == (Span { start, end: final(self).pos }),
            token_fits(r.0, Lexeme::Word, final(self).chars@.subrange(start as int, final(self).pos as int)),
    {
        while self.pos < self.chars.len()
            && (char_is_alphanumeric(self.chars[self.pos]) || self.chars[self.pos] == '_')
            invariant
                self.chars@ == old(self).chars@,
                start < self.pos <= self.chars@.len(),
                word_end(self.chars@, self.pos as int) == word_end(old(self).chars@, old(self).pos as int),
            decreases self.chars@.len() - self.pos,
        {
            self.pos = self.pos + 1;
        }
        let ident = string_of_chars(&self.chars, start, self.pos);
        match keyword_token(ident.as_str()) {
            Some(kw) => (kw, Span { start, end: self.pos }),
            None => (Token::Ident(ident), Span { start, end: self.pos }),
        }
    }

    fn scan_number(&mut self, start: usize, diags: &mut Diagnostics) -> (r: (Token, Span))
        requires
            start < old(self).pos <= old(self).chars@.len(),
        ensures
            final(self).chars@ == old(self).chars@,
            final(self).pos == number_end(old(self).chars@, old(self).pos as int),
            r.1 == (Span { start, end: final(self).pos }),
            token_fits(r.0, Lexeme::Number, final(self).chars@.subrange(start as int, final(self).pos as int)),
            (match lexeme_error(Lexeme::Number, final(self).chars@.subrange(start as int, final(self).pos as int)) {
                Some(m) => pushed_error(old(diags).diags@, final(diags).diags@, m, Some(r.1)),
                None => final(diags).diags@ == old(diags).diags@,
            }),
    {
        while self.pos < self.chars.len() && (('0' <= self.chars[self.pos] && self.chars[self.pos] <= '9')
            || self.chars[self.pos] == '_')
            invariant
                self.chars@ == old(self).chars@,
                start < self.pos <= self.chars@.len(),
                number_end(self.chars@, self.pos as int) == number_end(old(self).chars@, old(self).pos as int),
            decreases self.chars@.len() - self.pos,
        {
            self.pos = self.pos + 1;
        }
        let ghost text = self.chars@.subrange(start as int, self.pos as int);
        let mut digits = String::new();
        let mut i = start;
        while i < self.pos
            invariant
                self.chars@ == old(self).chars@,
                start <= i <= self.pos <= self.chars@.len(),
                text == self.chars@.subrange(start as int, self.pos as int),
                digits@ == literal_digits(text.take(i - start)),
            decreases self.pos - i,
        {
            let c = self.chars[i];
            proof {
                let t = text.take(i - start + 1);
                assert(t.drop_last() == text.take(i - start));
                assert(t.last() == c);
            }
            if c != '_' {
                push_char(&mut digits, c);
            }
            i = i + 1;
        }
        proof {
            assert(text.take(text.len() as int) == text);
        }
        match parse_i64(digits.as_str()) {
            Some(val) => (Token::IntLit(val), Span { start, end: self.pos }),
            None => {
                diags.error(owned("integer literal overflow"), Some(Span { start, end: self.pos }));
                (Token::Error(owned("overflow")), Span { start, end: self.pos })
            },
        }
    }
}

} // verus!
