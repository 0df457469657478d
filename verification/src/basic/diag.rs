use vstd::prelude::*;
use crate::basic::span::Span;
use crate::ssa::span::{byte_len, utf8_width};
use crate::text::{owned, cat, chars_of, push_decimal, decimal};

verus! {

/// How serious a message is.
#[derive(Clone, Copy, Debug, PartialEq, Eq, Structural)]
pub enum Severity {
    Error,
    Warning,
}

/// A message about the source, with where it points.
#[derive(Clone, Debug)]
pub struct Diagnostic {
    pub span: Span,
    pub message: String,
    pub severity: Severity,
}

/// The messages gathered while compiling, in the order they were reported.
#[derive(Clone, Debug)]
pub struct Diagnostics {
    pub diagnostics: Vec<Diagnostic>,
}

/// Whether any of the messages is an error.
pub open spec fn any_error(ds: Seq<Diagnostic>) -> bool {
    exists|i: int| 0 <= i < ds.len() && (#[trigger] ds[i]).severity == Severity::Error
}

impl Diagnostics {
    /// No messages yet.
    pub fn new() -> (r: Self)
        ensures
            r.diagnostics@ == Seq::<Diagnostic>::empty(),
    {
        Diagnostics { diagnostics: Vec::new() }
    }

    /// Records an error at `span`.
    pub fn error(&mut self, span: Span, msg: String)
        ensures
            final(self).diagnostics@ == old(self).diagnostics@.push(
                Diagnostic { span, message: msg, severity: Severity::Error },
            ),
    {
        self.diagnostics.push(Diagnostic { span, message: msg, severity: Severity::Error });
    }

    /// Records a warning at `span`.
    pub fn warn(&mut self, span: Span, msg: String)
        ensures
            final(self).diagnostics@ == old(self).diagnostics@.push(
                Diagnostic { span, message: msg, severity: Severity::Warning },
            ),
    {
        self.diagnostics.push(Diagnostic { span, message: msg, severity: Severity::Warning });
    }

    /// Whether any message is an error.
    pub fn has_errors(&self) -> (r: bool)
        ensures
            r == any_error(self.diagnostics@),
    {
        let mut i: usize = 0;
        while i < self.diagnostics.len()
            invariant
                i <= self.diagnostics@.len(),
                forall|j: int| 0 <= j < i ==> (#[trigger] self.diagnostics@[j]).severity != Severity::Error,
            decreases self.diagnostics@.len() - i,
        {
            if self.diagnostics[i].severity == Severity::Error {
                return true;
            }
            i = i + 1;
        }
        false
    }

    /// Appends the messages of `other` after this one's.
    pub fn merge(&mut self, other: Diagnostics)
        ensures
            final(self).diagnostics@ == old(self).diagnostics@ + other.diagnostics@,
    {
        let mut other = other;
        self.diagnostics.append(&mut other.diagnostics);
    }
}

/// After an error is recorded there are errors; a warning changes nothing
/// about whether there are errors.
pub proof fn lemma_error_makes_errors(ds: Seq<Diagnostic>, d: Diagnostic)
    ensures
        d.severity == Severity::Error ==> any_error(ds.push(d)),
        d.severity == Severity::Warning ==> (any_error(ds.push(d)) == any_error(ds)),
{
    let e = ds.push(d);
    if d.severity == Severity::Error {
        assert(e[ds.len() as int] == d);
    } else {
        if any_error(e) {
            let i = choose|i: int| 0 <= i < e.len() && (#[trigger] e[i]).severity == Severity::Error;
            assert(e[i] == ds[i]);
        }
        if any_error(ds) {
            let i = choose|i: int| 0 <= i < ds.len() && (#[trigger] ds[i]).severity == Severity::Error;
            assert(e[i] == ds[i]);
        }
    }
}

/// Merged messages hold an error exactly when one of the two parts does.
pub proof fn lemma_merge_errors(a: Seq<Diagnostic>, b: Seq<Diagnostic>)
    ensures
        any_error(a + b) == (any_error(a) || any_error(b)),
{
    let c = a + b;
    if any_error(c) {
        let i = choose|i: int| 0 <= i < c.len() && (#[trigger] c[i]).severity == Severity::Error;
        if i < a.len() {
            assert(c[i] == a[i]);
        } else {
            assert(c[i] == b[i - a.len()]);
        }
    }
    if any_error(a) {
        let i = choose|i: int| 0 <= i < a.len() && (#[trigger] a[i]).severity == Severity::Error;
        assert(c[i] == a[i]);
    }
    if any_error(b) {
        let i = choose|i: int| 0 <= i < b.len() && (#[trigger] b[i]).severity == Severity::Error;
        assert(c[i + a.len()] == b[i]);
    }
}


/// How many line breaks `s` holds.
pub open spec fn newline_count(s: Seq<char>) -> nat
    decreases s.len(),
{
    if s.len() == 0 {
        0
    } else {
        newline_count(s.drop_last()) + if s.last() == '\n' { 1nat } else { 0nat }
    }
}

/// The byte offset just past the last line break of `s`, or 0 when it has
/// none.
pub open spec fn last_line_start(s: Seq<char>) -> nat
    decreases s.len(),
{
    if s.len() == 0 {
        0
    } else if s.last() == '\n' {
        byte_len(s)
    } else {
        last_line_start(s.drop_last())
    }
}

/// Whether byte offset `b` of `cs` falls between two characters (or at
/// either end).
pub open spec fn on_boundary(cs: Seq<char>, b: int) -> bool {
    exists|k: int| 0 <= k <= cs.len() && byte_len(cs.take(k)) == b
}

/// The characters before byte offset `b` of `cs`.
pub open spec fn text_before(cs: Seq<char>, b: int) -> Seq<char> {
    cs.take(choose|k: int| 0 <= k <= cs.len() && byte_len(cs.take(k)) == b)
}

/// How a severity is named in a report.
pub open spec fn severity_text(s: Severity) -> Seq<char> {
    match s {
        Severity::Error => "error"@,
        Severity::Warning => "warning"@,
    }
}

/// The line that reports `d` against the text `cs`: the line of its start
/// (from 1), its column (in bytes, from 0), its width in bytes, then the
/// severity and the message.
pub open spec fn report_line(d: Diagnostic, cs: Seq<char>) -> Seq<char> {
    let pre = text_before(cs, d.span.start as int);
    decimal(newline_count(pre) + 1) + ":"@ + decimal((d.span.start - last_line_start(pre)) as nat) + ":"@
        + decimal((d.span.end - d.span.start) as nat) + ": "@ + severity_text(d.severity) + ": "@ + d.message@
}

proof fn lemma_bytes_grow(cs: Seq<char>, a: int, b: int)
    requires
        0 <= a < b <= cs.len(),
    ensures
        byte_len(cs.take(a)) < byte_len(cs.take(b)),
    decreases b - a,
{
    assert(cs.take(b).drop_last() == cs.take(b - 1));
    if a < b - 1 {
        lemma_bytes_grow(cs, a, b - 1);
    }
}

proof fn lemma_counts_bounded(s: Seq<char>)
    ensures
        newline_count(s) <= s.len(),
        last_line_start(s) <= byte_len(s),
    decreases s.len(),
{
    if s.len() > 0 {
        lemma_counts_bounded(s.drop_last());
    }
}

/// The report line for one message.
fn report(d: &Diagnostic, cs: &Vec<char>) -> (r: String)
    requires
        on_boundary(cs@, d.span.start as int),
        d.span.start <= d.span.end,
        cs@.len() < usize::MAX,
    ensures
        r@ == report_line(*d, cs@),
{
    let ghost s = cs@;
    let ghost kstar = choose|k: int| 0 <= k <= s.len() && byte_len(s.take(k)) == d.span.start;
    let start = d.span.start;
    let mut k: usize = 0;
    let mut b: usize = 0;
    let mut line: usize = 1;
    let mut ls: usize = 0;
    assert(s.take(0) =~= Seq::<char>::empty());
    while b < start
        invariant
            s == cs@,
            s.len() < usize::MAX,
            start == d.span.start,
            0 <= kstar <= s.len(),
            byte_len(s.take(kstar)) == start,
            k <= kstar,
            b == byte_len(s.take(k as int)),
            line == newline_count(s.take(k as int)) + 1,
            ls == last_line_start(s.take(k as int)),
        decreases kstar - k,
    {
        proof {
            if k + 1 < kstar {
                lemma_bytes_grow(s, k + 1, kstar);
            }
            assert(s.take(k + 1).drop_last() =~= s.take(k as int));
            lemma_counts_bounded(s.take(k as int));
        }
        let c = cs[k];
        b = b + utf8_width(c);
        if c == '\n' {
            line = line + 1;
            ls = b;
        }
        k = k + 1;
    }
    proof {
        if k < kstar {
            lemma_bytes_grow(s, k as int, kstar);
        }
        lemma_counts_bounded(s.take(k as int));
        assert(k == kstar);
        assert(text_before(s, start as int) == s.take(k as int));
    }
    let ghost pre = s.take(k as int);
    let mut r = String::new();
    push_decimal(&mut r, line as u64);
    assert(r@ == decimal(newline_count(pre) + 1));
    r = cat(r, ":");
    push_decimal(&mut r, (start - ls) as u64);
    assert(r@ == decimal(newline_count(pre) + 1) + ":"@ + decimal((d.span.start - last_line_start(pre)) as nat));
    r = cat(r, ":");
    push_decimal(&mut r, (d.span.end - start) as u64);
    r = cat(r, ": ");
    assert(r@ == decimal(newline_count(pre) + 1) + ":"@ + decimal((d.span.start - last_line_start(pre)) as nat) + ":"@
        + decimal((d.span.end - d.span.start) as nat) + ": "@);
    let sev = match d.severity {
        Severity::Error => owned("error"),
        Severity::Warning => owned("warning"),
    };
    assert(sev@ == severity_text(d.severity));
    r = cat(r, sev.as_str());
    r = cat(r, ": ");
    let r = cat(r, d.message.as_str());
    assert(r@ == decimal(newline_count(pre) + 1) + ":"@ + decimal((d.span.start - last_line_start(pre)) as nat) + ":"@
        + decimal((d.span.end - d.span.start) as nat) + ": "@ + severity_text(d.severity) + ": "@ + d.message@);
    r
}

impl Diagnostics {
    /// The lines that report the messages against `source`, in order: one
    /// line per message.
    pub fn render(&self, source: &str) -> (r: Vec<String>)
        requires
            source@.len() < usize::MAX,
            forall|i: int| 0 <= i < self.diagnostics@.len() ==> {
                &&& on_boundary(source@, (#[trigger] self.diagnostics@[i]).span.start as int)
                &&& self.diagnostics@[i].span.start <= self.diagnostics@[i].span.end
            },
        ensures
            r@.len() == self.diagnostics@.len(),
            forall|i: int| 0 <= i < r@.len() ==> (#[trigger] r@[i])@ == report_line(self.diagnostics@[i], source@),
    {
        let cs = chars_of(source);
        let mut out: Vec<String> = Vec::new();
        let mut i: usize = 0;
        while i < self.diagnostics.len()
            invariant
                cs@ == source@,
                source@.len() < usize::MAX,
                i <= self.diagnostics@.len(),
                out@.len() == i,
                forall|j: int| 0 <= j < self.diagnostics@.len() ==> {
                    &&& on_boundary(source@, (#[trigger] self.diagnostics@[j]).span.start as int)
                    &&& self.diagnostics@[j].span.start <= self.diagnostics@[j].span.end
                },
                forall|j: int| 0 <= j < i ==> (#[trigger] out@[j])@ == report_line(self.diagnostics@[j], source@),
            decreases self.diagnostics@.len() - i,
        {
            let line = report(&self.diagnostics[i], &cs);
            out.push(line);
            i = i + 1;
        }
        out
    }
}

} // verus!
