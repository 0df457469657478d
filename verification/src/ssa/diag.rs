use vstd::prelude::*;
use crate::ssa::span::{Span, SourceFile, byte_len, line_start_bytes, line_text};
use crate::text::{owned, cat, push_char, push_decimal, decimal};

verus! {

/// How serious a message is.
#[derive(Clone, Copy, Debug, PartialEq, Eq, Structural)]
pub enum Severity {
    Error,
    Warning,
    Note,
}

/// A message about the source, with where it points.
#[derive(Debug)]
pub struct Diagnostic {
    pub severity: Severity,
    pub message: String,
    pub span: Option<Span>,
    pub notes: Vec<String>,
}

/// The messages gathered while compiling, in the order they were reported.
#[derive(Debug)]
pub struct Diagnostics {
    pub diags: Vec<Diagnostic>,
}

/// Whether any of the messages is an error.
pub open spec fn any_error(ds: Seq<Diagnostic>) -> bool {
    exists|i: int| 0 <= i < ds.len() && (#[trigger] ds[i]).severity == Severity::Error
}

/// `ds` is `old` with one more message at the end: an error with the text
/// `msg` at `span`, without notes.
pub open spec fn pushed_error(old: Seq<Diagnostic>, ds: Seq<Diagnostic>, msg: Seq<char>, span: Option<Span>) -> bool {
    &&& ds.len() == old.len() + 1
    &&& ds.take(old.len() as int) == old
    &&& ds.last().severity == Severity::Error
    &&& ds.last().message@ == msg
    &&& ds.last().span == span
    &&& ds.last().notes@.len() == 0
}

impl Diagnostics {
    /// No messages yet.
    pub fn new() -> (r: Self)
        ensures
            r.diags@ == Seq::<Diagnostic>::empty(),
    {
        Diagnostics { diags: Vec::new() }
    }

    /// Records an error.
    pub fn error(&mut self, msg: String, span: Option<Span>)
        ensures
            pushed_error(old(self).diags@, final(self).diags@, msg@, span),
            final(self).diags@.last().message == msg,
    {
        self.diags.push(Diagnostic { severity: Severity::Error, message: msg, span, notes: Vec::new() });
        proof {
            assert(self.diags@.take(self.diags@.len() - 1) == old(self).diags@);
        }
    }

    /// Records a warning.
    pub fn warn(&mut self, msg: String, span: Option<Span>)
        ensures
            final(self).diags@.len() == old(self).diags@.len() + 1,
            final(self).diags@.take(old(self).diags@.len() as int) == old(self).diags@,
            final(self).diags@.last().severity == Severity::Warning,
            final(self).diags@.last().message == msg,
            final(self).diags@.last().span == span,
            final(self).diags@.last().notes@.len() == 0,
    {
        self.diags.push(Diagnostic { severity: Severity::Warning, message: msg, span, notes: Vec::new() });
        proof {
            assert(self.diags@.take(self.diags@.len() - 1) == old(self).diags@);
        }
    }

    /// Whether any message is an error.
    pub fn has_errors(&self) -> (r: bool)
        ensures
            r == any_error(self.diags@),
    {
        let mut i: usize = 0;
        while i < self.diags.len()
            invariant
                i <= self.diags@.len(),
                forall|j: int| 0 <= j < i ==> (#[trigger] self.diags@[j]).severity != Severity::Error,
            decreases self.diags@.len() - i,
        {
            if self.diags[i].severity == Severity::Error {
                return true;
            }
            i = i + 1;
        }
        false
    }

    /// The lines that report the messages against `source`, in order.
    pub fn render(&self, source: &SourceFile) -> (r: Vec<String>)
        requires
            source.wf(),
        ensures
            r@.map_values(|s: String| s@) == rendered(self.diags@, source.text()),
    {
        let mut out: Vec<String> = Vec::new();
        let mut i: usize = 0;
        while i < self.diags.len()
            invariant
                source.wf(),
                i <= self.diags@.len(),
                out@.map_values(|s: String| s@) == rendered(self.diags@.take(i as int), source.text()),
            decreases self.diags@.len() - i,
        {
            let ghost before = out@;
            render_one(&self.diags[i], source, &mut out);
            proof {
                assert(self.diags@.take(i + 1).drop_last() == self.diags@.take(i as int));
                assert(out@.map_values(|s: String| s@) == before.map_values(|s: String| s@)
                    + diag_lines(self.diags@[i as int], source.text()));
            }
            i = i + 1;
        }
        proof {
            assert(self.diags@.take(self.diags@.len() as int) == self.diags@);
        }
        out
    }
}

/// How a severity is named in a report.
pub open spec fn severity_text(s: Severity) -> Seq<char> {
    match s {
        Severity::Error => "error"@,
        Severity::Warning => "warning"@,
        Severity::Note => "note"@,
    }
}

/// `n` copies of `c`.
pub open spec fn repeated(c: char, n: int) -> Seq<char> {
    Seq::new(if n < 0 { 0nat } else { n as nat }, |i: int| c)
}

/// Whether byte offset `pos` lies on line `l` (from 1), given where the
/// lines start.
pub open spec fn on_line(st: Seq<int>, pos: int, l: int) -> bool {
    &&& 1 <= l <= st.len()
    &&& st[l - 1] <= pos
    &&& l < st.len() ==> pos < st[l]
}

/// The line and column (from 1) of byte offset `pos` in `cs`.
pub open spec fn spec_line_col(cs: Seq<char>, pos: int) -> (int, int) {
    let st = line_start_bytes(cs);
    if pos >= byte_len(cs) {
        (st.len() as int, 1)
    } else {
        let l = choose|l: int| on_line(st, pos, l);
        (l, pos - st[l - 1] + 1)
    }
}

/// The lines that report one message: where and what, then its notes.
pub open spec fn diag_lines(d: Diagnostic, cs: Seq<char>) -> Seq<Seq<char>> {
    head_lines(d, cs) + d.notes@.map_values(|n: String| "  note: "@ + n@)
}

/// The lines that say where a message points and what it says.
pub open spec fn head_lines(d: Diagnostic, cs: Seq<char>) -> Seq<Seq<char>> {
    match d.span {
        Some(sp) => {
            let (line, col) = spec_line_col(cs, sp.start as int);
            let width = if sp.end > sp.start { sp.end - sp.start } else { 1 };
            seq![
                severity_text(d.severity) + "["@ + decimal(line as nat) + ":"@ + decimal(col as nat) + "]: "@ + d.message@,
                " "@ + decimal(line as nat) + " | "@ + line_text(cs, line),
                "   | "@ + repeated(' ', col - 1) + repeated('^', width),
            ]
        },
        None => seq![severity_text(d.severity) + ": "@ + d.message@],
    }
}

/// The lines that report all of `ds`, in order.
pub open spec fn rendered(ds: Seq<Diagnostic>, cs: Seq<char>) -> Seq<Seq<char>>
    decreases ds.len(),
{
    if ds.len() == 0 {
        Seq::empty()
    } else {
        rendered(ds.drop_last(), cs) + diag_lines(ds.last(), cs)
    }
}

fn severity_string(s: Severity) -> (r: String)
    ensures
        r@ == severity_text(s),
{
    match s {
        Severity::Error => owned("error"),
        Severity::Warning => owned("warning"),
        Severity::Note => owned("note"),
    }
}

fn push_repeated(s: &mut String, c: char, n: usize)
    ensures
        final(s)@ == old(s)@ + repeated(c, n as int),
{
    let mut i: usize = 0;
    while i < n
        invariant
            i <= n,
            s@ == old(s)@ + repeated(c, i as int),
        decreases n - i,
    {
        push_char(s, c);
        i = i + 1;
        assert(repeated(c, i as int) == repeated(c, i - 1).push(c));
    }
}

fn render_one(d: &Diagnostic, source: &SourceFile, out: &mut Vec<String>)
    requires
        source.wf(),
    ensures
        final(out)@.map_values(|s: String| s@) == old(out)@.map_values(|s: String| s@)
            + diag_lines(*d, source.text()),
{
    let ghost start = out@;
    match d.span {
        Some(sp) => {
            let (line, col) = source.line_col(sp.start);
            proof {
                lemma_line_col_spec(source, sp.start, line, col);
                source.lemma_starts_increase();
            }
            let mut a = severity_string(d.severity);
            a = cat(a, "[");
            push_decimal(&mut a, line as u64);
            a = cat(a, ":");
            push_decimal(&mut a, col as u64);
            a = cat(a, "]: ");
            a = cat(a, d.message.as_str());
            out.push(a);
            let mut b = owned(" ");
            push_decimal(&mut b, line as u64);
            b = cat(b, " | ");
            b = cat(b, source.get_line(line).as_str());
            out.push(b);
            let width = if sp.end > sp.start { sp.end - sp.start } else { 1 };
            let mut c = owned("   | ");
            push_repeated(&mut c, ' ', col - 1);
            push_repeated(&mut c, '^', width);
            out.push(c);
        },
        None => {
            let mut a = severity_string(d.severity);
            a = cat(a, ": ");
            a = cat(a, d.message.as_str());
            out.push(a);
        },
    }
    let ghost mid = out@.map_values(|s: String| s@);
    assert(mid == start.map_values(|s: String| s@) + head_lines(*d, source.text()));
    let mut k: usize = 0;
    while k < d.notes.len()
        invariant
            k <= d.notes@.len(),
            out@.map_values(|s: String| s@) == mid + d.notes@.take(k as int).map_values(|n: String| "  note: "@ + n@),
        decreases d.notes@.len() - k,
    {
        let n = cat(owned("  note: "), d.notes[k].as_str());
        let ghost before = out@;
        out.push(n);
        assert(out@.map_values(|s: String| s@) == before.map_values(|s: String| s@).push(n@));
        proof {
            assert(d.notes@.take(k + 1).map_values(|n: String| "  note: "@ + n@)
                == d.notes@.take(k as int).map_values(|n: String| "  note: "@ + n@).push("  note: "@ + d.notes@[k as int]@));
        }
        k = k + 1;
    }
    proof {
        assert(d.notes@.take(d.notes@.len() as int) == d.notes@);
    }
}

proof fn lemma_line_col_spec(source: &SourceFile, pos: usize, line: usize, col: usize)
    requires
        source.wf(),
        pos >= byte_len(source.text()) ==> line == source.starts().len() && col == 1,
        pos < byte_len(source.text()) ==> {
            &&& 1 <= line <= source.starts().len()
            &&& source.starts()[line - 1] <= pos
            &&& line < source.starts().len() ==> pos < source.starts()[line as int]
            &&& col == pos - source.starts()[line - 1] + 1
        },
    ensures
        (line as int, col as int) == spec_line_col(source.text(), pos as int),
{
    source.lemma_starts_spec();
    source.lemma_starts_increase();
    let st = line_start_bytes(source.text());
    if pos < byte_len(source.text()) {
        assert(on_line(st, pos as int, line as int));
        let l = choose|l: int| on_line(st, pos as int, l);
        assert(1 <= line <= st.len() && st[line - 1] <= pos && (line < st.len() ==> pos < st[line as int]));
        if l < line {
            assert(st[l] <= st[line - 1]);
        } else if l > line {
            assert(st[line as int] <= st[l - 1]);
        }
    }
}

} // verus!
