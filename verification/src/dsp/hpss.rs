//! The spans of the median filters that part harmonics from percussion.

use vstd::prelude::*;

verus! {

/// Lengths of the two median filters.
#[derive(Clone, Copy, Debug, PartialEq, Eq, Structural)]
pub struct Spans {
    /// Length in frames of the filter that enhances harmonics.
    pub harmonic: usize,
    /// Length in bins of the filter that enhances percussion.
    pub percussive: usize,
}

/// The least odd number that is not below a span.
pub open spec fn odd_span(span: int) -> int {
    if span % 2 == 1 {
        span
    } else {
        span + 1
    }
}

/// The least odd number that is not below a span, and at least one.
pub fn odd_at_least_one(span: usize) -> (odd: usize)
    ensures
        odd == odd_span(span as int),
        odd % 2 == 1,
{
    if span < 1 {
        1
    } else if span % 2 == 0 {
        assert(span < usize::MAX) by {
            assert(usize::MAX % 2 == 1) by {
                if usize::MAX == 0xffff_ffff {
                } else {
                    assert(usize::MAX == 0xffff_ffff_ffff_ffff);
                }
            }
        }
        span + 1
    } else {
        span
    }
}

impl Spans {
    /// Forces both spans to be odd and at least one, so the filters stay centred
    /// on the sample they replace.
    pub fn normalized(self) -> (spans: Self)
        ensures
            spans.harmonic == odd_span(self.harmonic as int),
            spans.percussive == odd_span(self.percussive as int),
    {
        Spans {
            harmonic: odd_at_least_one(self.harmonic),
            percussive: odd_at_least_one(self.percussive),
        }
    }
}

/// Whether a filter of a span at one position reads another.
pub open spec fn reaches(position: int, span: int, other: int) -> bool {
    position - other <= span / 2 && other - position <= span / 2
}

/// The stretch that a filter of a span reads around a position: as far on either
/// side as half the span and the ends allow.
pub fn neighbourhood(position: usize, span: usize, length: usize) -> (range: (usize, usize))
    requires
        position < length,
        length + span <= usize::MAX,
    ensures
        range.0 == if position <= span / 2 {
            0
        } else {
            position - span / 2
        },
        range.1 == if position + span / 2 + 1 <= length {
            position + span / 2 + 1
        } else {
            length as int
        },
        range.0 <= position < range.1 <= length,
        forall|i: int|
            0 <= i < length ==> (range.0 <= i < range.1 <==> #[trigger] reaches(
                position as int,
                span as int,
                i,
            )),
{
    let half: usize = span / 2;
    let start: usize = if position <= half {
        0
    } else {
        position - half
    };
    let end: usize = if half + 1 <= length - position {
        position + half + 1
    } else {
        length
    };
    (start, end)
}

/// A span of a filter is the least odd number that is not below what was asked for.
pub proof fn law_spans_are_the_next_odd_number(span: int, odd: int)
    requires
        span >= 0,
        odd % 2 == 1,
        odd >= span,
    ensures
        odd_span(span) % 2 == 1,
        span <= odd_span(span) <= odd,
{
}

} // verus!
