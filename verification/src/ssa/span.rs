use vstd::prelude::*;
use crate::text::{chars_of, string_of_chars};

verus! {

/// A stretch of source text, as character positions `start..end`.
#[derive(Clone, Copy, Debug, PartialEq, Eq, Structural)]
pub struct Span {
    pub start: usize,
    pub end: usize,
}

/// How many bytes the UTF-8 encoding of `c` takes.
pub open spec fn char_width(c: char) -> nat {
    if (c as u32) < 0x80 {
        1
    } else if (c as u32) < 0x800 {
        2
    } else if (c as u32) < 0x10000 {
        3
    } else {
        4
    }
}

/// How many bytes the UTF-8 encoding of `cs` takes.
pub open spec fn byte_len(cs: Seq<char>) -> nat
    decreases cs.len(),
{
    if cs.len() == 0 {
        0
    } else {
        byte_len(cs.drop_last()) + char_width(cs.last())
    }
}

/// The character index at which each line of `cs` starts: 0, and the index
/// after each newline, in order.
pub open spec fn line_start_chars(cs: Seq<char>) -> Seq<int>
    decreases cs.len(),
{
    if cs.len() == 0 {
        seq![0int]
    } else if cs.last() == '\n' {
        line_start_chars(cs.drop_last()).push(cs.len() as int)
    } else {
        line_start_chars(cs.drop_last())
    }
}

/// The byte offset at which each line of `cs` starts.
pub open spec fn line_start_bytes(cs: Seq<char>) -> Seq<int> {
    line_start_chars(cs).map_values(|k: int| byte_len(cs.take(k)) as int)
}

/// A line's text without its line ending (`"\n"` or `"\r\n"`).
pub open spec fn without_line_end(l: Seq<char>) -> Seq<char> {
    if l.len() > 0 && l.last() == '\n' {
        if l.len() > 1 && l[l.len() - 2] == '\r' {
            l.take(l.len() - 2)
        } else {
            l.take(l.len() - 1)
        }
    } else {
        l
    }
}

/// A source text together with where its lines start.
pub struct SourceFile {
    pub source: String,
    chars: Vec<char>,
    line_starts: Vec<usize>,
    line_chars: Vec<usize>,
    total: usize,
}

/// The UTF-8 width of a character.
pub(crate) fn utf8_width(c: char) -> (r: usize)
    ensures
        r == char_width(c),
{
    let u = c as u32;
    if u < 0x80 {
        1
    } else if u < 0x800 {
        2
    } else if u < 0x10000 {
        3
    } else {
        4
    }
}

proof fn lemma_line_starts_shape(cs: Seq<char>)
    ensures
        line_start_chars(cs).len() >= 1,
        line_start_chars(cs)[0] == 0,
        forall|i: int| 0 <= i < line_start_chars(cs).len() ==> 0 <= #[trigger] line_start_chars(cs)[i] <= cs.len(),
        forall|i: int, j: int| 0 <= i < j < line_start_chars(cs).len()
            ==> line_start_chars(cs)[i] < line_start_chars(cs)[j],
        forall|i: int| 1 <= i < line_start_chars(cs).len() ==> cs[#[trigger] line_start_chars(cs)[i] - 1] == '\n',
    decreases cs.len(),
{
    if cs.len() > 0 {
        lemma_line_starts_shape(cs.drop_last());
    }
}

proof fn lemma_byte_len_take(cs: Seq<char>, k: int)
    requires
        0 <= k < cs.len(),
    ensures
        byte_len(cs.take(k + 1)) == byte_len(cs.take(k)) + char_width(cs[k]),
{
    assert(cs.take(k + 1).drop_last() == cs.take(k));
}

proof fn lemma_byte_len_mono(cs: Seq<char>, a: int, b: int)
    requires
        0 <= a < b <= cs.len(),
    ensures
        byte_len(cs.take(a)) + (b - a) <= byte_len(cs.take(b)),
    decreases b - a,
{
    lemma_byte_len_take(cs, b - 1);
    if a < b - 1 {
        lemma_byte_len_mono(cs, a, b - 1);
    }
}

proof fn lemma_byte_len_bound(cs: Seq<char>)
    ensures
        byte_len(cs) <= 4 * cs.len(),
    decreases cs.len(),
{
    if cs.len() > 0 {
        lemma_byte_len_bound(cs.drop_last());
    }
}

impl SourceFile {
    /// The text of the file.
    pub closed spec fn text(&self) -> Seq<char> {
        self.chars@
    }

    /// The byte offsets at which the lines start.
    pub closed spec fn starts(&self) -> Seq<int> {
        self.line_starts@.map_values(|v: usize| v as int)
    }

    /// The line starts are those of the text.
    pub closed spec fn wf(&self) -> bool {
        &&& self.chars@ == self.source@
        &&& self.total == byte_len(self.chars@)
        &&& self.line_chars@.len() == line_start_chars(self.chars@).len()
        &&& self.line_starts@.len() == self.line_chars@.len()
        &&& forall|i: int| 0 <= i < self.line_chars@.len()
            ==> #[trigger] self.line_chars@[i] == line_start_chars(self.chars@)[i]
        &&& forall|i: int| 0 <= i < self.line_starts@.len()
            ==> #[trigger] self.line_starts@[i] == byte_len(self.chars@.take(self.line_chars@[i] as int))
    }

    /// Reads where the lines of `source` start.
    pub fn new(source: String) -> (r: Self)
        requires
            4 * source@.len() <= usize::MAX,
        ensures
            r.wf(),
            r.text() == source@,
            r.starts() == line_start_bytes(source@),
    {
        let chars = chars_of(source.as_str());
        let mut line_starts: Vec<usize> = vec![0usize];
        let mut line_chars: Vec<usize> = vec![0usize];
        let mut bytes: usize = 0;
        let mut i: usize = 0;
        proof {
            assert(chars@.take(0) == Seq::<char>::empty());
        }
        while i < chars.len()
            invariant
                chars@ == source@,
                4 * chars@.len() <= usize::MAX,
                i <= chars@.len(),
                bytes == byte_len(chars@.take(i as int)),
                line_chars@ == line_start_chars(chars@.take(i as int)).map_values(|k: int| k as usize),
                line_starts@.len() == line_chars@.len(),
                forall|j: int| 0 <= j < line_chars@.len() ==> 0 <= #[trigger] line_start_chars(chars@.take(i as int))[j] <= i,
                forall|j: int| 0 <= j < line_starts@.len()
                    ==> #[trigger] line_starts@[j] == byte_len(chars@.take(line_chars@[j] as int)),
            decreases chars@.len() - i,
        {
            let c = chars[i];
            proof {
                lemma_byte_len_take(chars@, i as int);
                lemma_byte_len_bound(chars@.take(i + 1));
                assert(chars@.take(i + 1).drop_last() == chars@.take(i as int));
                assert(chars@.take(i + 1).last() == c);
            }
            bytes = bytes + utf8_width(c);
            if c == '\n' {
                line_chars.push(i + 1);
                line_starts.push(bytes);
            }
            i = i + 1;
            proof {
                assert forall|j: int| 0 <= j < line_chars@.len() implies
                    0 <= #[trigger] line_start_chars(chars@.take(i as int))[j] <= i by {
                    lemma_line_starts_shape(chars@.take(i as int));
                }
            }
        }
        proof {
            assert(chars@.take(chars@.len() as int) == chars@);
            lemma_line_starts_shape(chars@);
            assert(line_chars@.len() == line_start_chars(chars@).len());
            assert forall|j: int| 0 <= j < line_chars@.len() implies
                #[trigger] line_chars@[j] == line_start_chars(chars@)[j] by {
                assert(line_chars@[j] == line_start_chars(chars@)[j] as usize);
            }
        }
        let r = SourceFile { source, chars, line_starts, line_chars, total: bytes };
        proof {
            assert(r.starts() =~= line_start_bytes(source@));
        }
        r
    }

    /// The first line starts at 0 and line starts increase.
    pub proof fn lemma_starts_increase(&self)
        requires
            self.wf(),
        ensures
            self.starts().len() >= 1,
            self.starts()[0] == 0,
            forall|i: int, j: int| 0 <= i < j < self.starts().len() ==> self.starts()[i] < self.starts()[j],
    {
        lemma_line_starts_shape(self.chars@);
        let st = self.starts();
        assert(self.line_chars@[0] == 0);
        assert(self.chars@.take(0) == Seq::<char>::empty());
        assert forall|i: int, j: int| 0 <= i < j < st.len() implies st[i] < st[j] by {
            let a = self.line_chars@[i] as int;
            let b = self.line_chars@[j] as int;
            assert(line_start_chars(self.chars@)[i] < line_start_chars(self.chars@)[j]);
            lemma_byte_len_mono(self.chars@, a, b);
        }
    }

    /// The line starts are the byte offsets where lines start.
    pub proof fn lemma_starts_spec(&self)
        requires
            self.wf(),
        ensures
            self.starts() == line_start_bytes(self.text()),
    {
        assert(self.starts() =~= line_start_bytes(self.text()));
    }

    /// The line and column (both from 1) of the byte offset `pos`; an offset
    /// at or past the end is on the last line, column 1.
    pub fn line_col(&self, pos: usize) -> (r: (usize, usize))
        requires
            self.wf(),
        ensures
            pos >= byte_len(self.text()) ==> r.0 == self.starts().len() && r.1 == 1,
            pos < byte_len(self.text()) ==> {
                &&& 1 <= r.0 <= self.starts().len()
                &&& self.starts()[r.0 - 1] <= pos
                &&& r.0 < self.starts().len() ==> pos < self.starts()[r.0 as int]
                &&& r.1 == pos - self.starts()[r.0 - 1] + 1
            },
    {
        if pos >= self.total {
            return (self.line_starts.len(), 1);
        }
        proof {
            self.lemma_starts_increase();
        }
        let ghost st = self.starts();
        let mut lo: usize = 0;
        let mut hi: usize = self.line_starts.len();
        while lo < hi
            invariant
                self.wf(),
                st == self.starts(),
                st.len() == self.line_starts@.len(),
                0 <= lo <= hi <= st.len(),
                forall|j: int| 0 <= j < lo ==> st[j] <= pos,
                forall|j: int| hi <= j < st.len() ==> st[j] > pos,
                forall|i: int, j: int| 0 <= i < j < st.len() ==> st[i] < st[j],
            decreases hi - lo,
        {
            let mid = lo + (hi - lo) / 2;
            assert(st[mid as int] == self.line_starts@[mid as int] as int);
            if self.line_starts[mid] <= pos {
                lo = mid + 1;
            } else {
                hi = mid;
            }
        }
        proof {
            assert(st[0] == 0);
            if lo == 0 {
                assert(st[0] > pos);
            }
        }
        let line = lo;
        assert(st[line - 1] == self.line_starts@[line - 1] as int);
        let col = pos - self.line_starts[line - 1] + 1;
        (line, col)
    }

    /// The text of line `line` (from 1), without its line ending.
    pub fn get_line(&self, line: usize) -> (r: String)
        requires
            self.wf(),
            1 <= line <= self.starts().len(),
        ensures
            r@ == line_text(self.text(), line as int),
    {
        let a = self.line_chars[line - 1];
        let b = if line < self.line_chars.len() { self.line_chars[line] } else { self.chars.len() };
        proof {
            lemma_line_starts_shape(self.chars@);
            if line < self.line_chars@.len() {
                assert(line_start_chars(self.chars@)[line - 1] < line_start_chars(self.chars@)[line as int]);
            }
        }
        let ghost l = self.chars@.subrange(a as int, b as int);
        let end = if b > a && self.chars[b - 1] == '\n' {
            if b > a + 1 && self.chars[b - 2] == '\r' {
                b - 2
            } else {
                b - 1
            }
        } else {
            b
        };
        proof {
            assert(self.chars@.subrange(a as int, end as int) == without_line_end(l));
        }
        string_of_chars(&self.chars, a, end)
    }
}

/// The text of line `line` (from 1) of `cs`, without its line ending.
pub open spec fn line_text(cs: Seq<char>, line: int) -> Seq<char> {
    let st = line_start_chars(cs);
    let a = st[line - 1];
    let b = if line < st.len() { st[line] } else { cs.len() as int };
    without_line_end(cs.subrange(a, b))
}

} // verus!
