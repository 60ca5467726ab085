use vstd::prelude::*;

use crate::index::{pos_spec, Index};

verus! {

/// A pair of index endpoints with inclusive or exclusive semantics. A
/// descending pair is valid: resolution does not order the endpoints.
#[derive(Clone, Copy, Debug, PartialEq, Eq, Structural)]
pub struct Range {
    pub start: Index,
    pub end: Index,
    pub inclusive: bool,
}

/// What resolving a range against a sequence of length `len` yields: both
/// endpoints resolved, the end decremented by one when the range is
/// exclusive, and the pair only if both positions lie inside `[0, len)`.
pub open spec fn bounds_spec(r: Range, len: int) -> Option<(int, int)> {
    let s = pos_spec(r.start, len);
    let e0 = pos_spec(r.end, len);
    let e = if r.inclusive {
        e0
    } else {
        e0 - 1
    };
    if 0 <= s < len && 0 <= e < len {
        Some((s, e))
    } else {
        None
    }
}

impl Range {
    /// A range that excludes its end position.
    pub fn exclusive(start: Index, end: Index) -> (r: Range)
        ensures
            r == (Range { start, end, inclusive: false }),
    {
        Range { start, end, inclusive: false }
    }

    /// A range that includes its end position.
    pub fn inclusive(start: Index, end: Index) -> (r: Range)
        ensures
            r == (Range { start, end, inclusive: true }),
    {
        Range { start, end, inclusive: true }
    }

    /// The half-open range from `start` through the end of the sequence.
    pub fn from(start: Index) -> (r: Range)
        ensures
            r == (Range { start, end: Index::Backward(0), inclusive: true }),
    {
        Range { start, end: Index::Backward(0), inclusive: true }
    }

    /// The half-open range from the start of the sequence up to, and not
    /// including, `end`.
    pub fn to(end: Index) -> (r: Range)
        ensures
            r == (Range { start: Index::Forward(0), end, inclusive: false }),
    {
        Range { start: Index::Forward(0), end, inclusive: false }
    }

    /// Resolves both endpoints against a sequence of `vector_length`
    /// elements, yielding the start and end positions, or nothing when either
    /// falls outside the sequence. The start may exceed the end: that is a
    /// descending selection, not a failure.
    pub fn bounds(&self, vector_length: usize) -> (r: Option<(usize, usize)>)
        ensures
            match r {
                Some(p) => bounds_spec(*self, vector_length as int) == Some(
                    (p.0 as int, p.1 as int),
                ),
                None => bounds_spec(*self, vector_length as int) is None,
            },
    {
        let s: usize = match self.start {
            Index::Forward(n) => n,
            Index::Backward(n) => {
                if n < vector_length {
                    vector_length - 1 - n
                } else {
                    return None;
                }
            },
        };
        let e0: usize = match self.end {
            Index::Forward(n) => n,
            Index::Backward(n) => {
                if n < vector_length {
                    vector_length - 1 - n
                } else {
                    return None;
                }
            },
        };
        let e: usize = if self.inclusive {
            e0
        } else {
            if e0 == 0 {
                return None;
            } else {
                e0 - 1
            }
        };
        if s < vector_length && e < vector_length {
            Some((s, e))
        } else {
            None
        }
    }
}

} // verus!
