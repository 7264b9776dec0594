//! Relevance scores as exact rational numbers.
//!
//! A document flushed from a bucket is scored by the bucket's global rank
//! fraction `num / den`, a value in (0, 1]. The pair is kept unreduced, so
//! the numerator and denominator are exactly the global bucket position and
//! the global bucket count.

use vstd::prelude::*;

verus! {

/// A bucket-position fraction `num / den`, with `1 <= num <= den`.
#[derive(Clone, Copy, Debug, PartialEq, Eq, Structural)]
pub struct Score {
    pub num: u64,
    pub den: u64,
}

/// A well-formed score lies in (0, 1].
pub open spec fn score_wf(s: Score) -> bool {
    1 <= s.num <= s.den
}

/// Fraction comparison: `a <= b`, by cross multiplication.
pub open spec fn score_le(a: Score, b: Score) -> bool {
    (a.num as int) * (b.den as int) <= (b.num as int) * (a.den as int)
}

/// A sequence of scores in non-increasing order.
pub open spec fn scores_non_increasing(s: Seq<Score>) -> bool {
    forall|i: int, j: int| 0 <= i < j < s.len() ==> score_le(#[trigger] s[j], #[trigger] s[i])
}

impl Score {
    /// The whole-search fraction 1/1, the score of every document when no
    /// rule splits the universe.
    pub fn one() -> (r: Score)
        ensures
            r == (Score { num: 1, den: 1 }),
    {
        Score { num: 1, den: 1 }
    }
}

} // verus!
