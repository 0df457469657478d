use vstd::prelude::*;

verus! {

/// A range `[start, end)` of character positions in the source text.
#[derive(Clone, Copy, Debug, Default)]
pub struct Span {
    pub start: usize,
    pub end: usize,
}

/// The smaller of two positions.
pub open spec fn min_pos(a: usize, b: usize) -> usize {
    if a <= b { a } else { b }
}

/// The larger of two positions.
pub open spec fn max_pos(a: usize, b: usize) -> usize {
    if a >= b { a } else { b }
}

impl Span {
    /// The span from `start` to `end`.
    pub fn new(start: usize, end: usize) -> (r: Span)
        ensures
            r.start == start,
            r.end == end,
    {
        Span { start, end }
    }

    /// The smallest span that starts where the earlier of the two starts and
    /// ends where the later of the two ends.
    pub fn combine(self, other: Span) -> (r: Span)
        ensures
            r.start == min_pos(self.start, other.start),
            r.end == max_pos(self.end, other.end),
    {
        let start = if self.start <= other.start { self.start } else { other.start };
        let end = if self.end >= other.end { self.end } else { other.end };
        Span::new(start, end)
    }
}

/// Combining spans does not depend on their order, and the result reaches
/// from at or before either start to at or after either end.
pub proof fn lemma_combine_commutes_and_covers(a: Span, b: Span)
    ensures
        min_pos(a.start, b.start) == min_pos(b.start, a.start),
        max_pos(a.end, b.end) == max_pos(b.end, a.end),
        min_pos(a.start, b.start) <= a.start,
        min_pos(a.start, b.start) <= b.start,
        max_pos(a.end, b.end) >= a.end,
        max_pos(a.end, b.end) >= b.end,
{
}

} // verus!
