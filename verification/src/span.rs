//! Labeled, scored spans over an input sequence.

use vstd::prelude::*;

verus! {

/// Probabilities are fixed-point values in millionths: `PROB_ONE` stands for 1.0.
pub const PROB_ONE: u32 = 1000000;

/// A labeled, scored contiguous range over one input sequence.
///
/// Offsets are half-open character offsets into the sequence's text:
/// `start` is inclusive, `end` exclusive.
#[derive(Debug, Clone)]
pub struct Span {
    /// Input index in the batch.
    pub sequence: usize,
    /// Start offset (inclusive).
    pub start: usize,
    /// End offset (exclusive).
    pub end: usize,
    /// Class label.
    pub class: String,
    /// Probability, in millionths (`0 ..= PROB_ONE`).
    pub probability: u32,
    /// Materialized text of the span.
    pub text: String,
}

impl Span {
    /// A well-formed span covers at least one character and carries a
    /// probability no greater than 1.0.
    pub open spec fn wf(self) -> bool {
        self.start < self.end && self.probability <= PROB_ONE
    }

    pub fn new(
        sequence: usize,
        start: usize,
        end: usize,
        class: String,
        probability: u32,
        text: String,
    ) -> (r: Span)
        requires
            start < end,
            probability <= PROB_ONE,
        ensures
            r == (Span { sequence, start, end, class, probability, text }),
            r.wf(),
    {
        Span { sequence, start, end, class, probability, text }
    }

    /// The `(start, end)` offset pair.
    pub fn offsets(&self) -> (r: (usize, usize))
        ensures
            r.0 == self.start,
            r.1 == self.end,
    {
        (self.start, self.end)
    }
}

/// The two ranges share at least one position.
pub open spec fn intersects(a: Span, b: Span) -> bool {
    a.start < b.end && b.start < a.end
}

/// `a`'s range contains `b`'s range (not necessarily strictly).
pub open spec fn contains(a: Span, b: Span) -> bool {
    a.start <= b.start && b.end <= a.end
}

/// The two ranges have exactly the same offsets.
pub open spec fn same_offsets(a: Span, b: Span) -> bool {
    a.start == b.start && a.end == b.end
}

/// Crossing overlap: the ranges intersect but neither contains the other.
pub open spec fn crossing(a: Span, b: Span) -> bool {
    intersects(a, b) && !contains(a, b) && !contains(b, a)
}

} // verus!
