//! Resolution of range specifications against a known length.
//!
//! `IndexRange` describes a half-open, closed or unbounded span of logical
//! indices; `get_start_end` turns it into a concrete `[start, end)` pair.

use vstd::prelude::*;

verus! {

/// One edge of an index range: inclusive, exclusive, or absent.
#[derive(Clone, Copy, Debug, PartialEq, Eq, Structural)]
pub enum RangeEdge {
    Included(usize),
    Excluded(usize),
    Unbounded,
}

/// A range of logical indices, described by its two edges.
///
/// The constructors mirror the usual range notations: `to(a, b)` is
/// `a..b`, `to_inclusive(a, b)` is `a..=b`, `from(a)` is `a..`,
/// `upto(b)` is `..b`, and `full()` is `..`.
#[derive(Clone, Copy, Debug, PartialEq, Eq, Structural)]
pub struct IndexRange {
    pub start: RangeEdge,
    pub end: RangeEdge,
}

impl IndexRange {
    /// The span `a..b`.
    pub fn to(a: usize, b: usize) -> (r: IndexRange)
        ensures
            r == (IndexRange { start: RangeEdge::Included(a), end: RangeEdge::Excluded(b) }),
    {
        IndexRange { start: RangeEdge::Included(a), end: RangeEdge::Excluded(b) }
    }

    /// The span `a..=b`.
    pub fn to_inclusive(a: usize, b: usize) -> (r: IndexRange)
        ensures
            r == (IndexRange { start: RangeEdge::Included(a), end: RangeEdge::Included(b) }),
    {
        IndexRange { start: RangeEdge::Included(a), end: RangeEdge::Included(b) }
    }

    /// The span `a..`.
    pub fn from(a: usize) -> (r: IndexRange)
        ensures
            r == (IndexRange { start: RangeEdge::Included(a), end: RangeEdge::Unbounded }),
    {
        IndexRange { start: RangeEdge::Included(a), end: RangeEdge::Unbounded }
    }

    /// The span `..b`.
    pub fn upto(b: usize) -> (r: IndexRange)
        ensures
            r == (IndexRange { start: RangeEdge::Unbounded, end: RangeEdge::Excluded(b) }),
    {
        IndexRange { start: RangeEdge::Unbounded, end: RangeEdge::Excluded(b) }
    }

    /// The span `..`.
    pub fn full() -> (r: IndexRange)
        ensures
            r == (IndexRange { start: RangeEdge::Unbounded, end: RangeEdge::Unbounded }),
    {
        IndexRange { start: RangeEdge::Unbounded, end: RangeEdge::Unbounded }
    }
}

/// The concrete start index an edge resolves to: an unbounded start is 0,
/// an exclusive start begins one past the named index.
pub open spec fn resolved_start(e: RangeEdge) -> int {
    match e {
        RangeEdge::Included(n) => n as int,
        RangeEdge::Excluded(n) => n + 1,
        RangeEdge::Unbounded => 0,
    }
}

/// The concrete end index an edge resolves to against a reference length:
/// an unbounded end is the length, an inclusive end reaches one past the
/// named index.
pub open spec fn resolved_end(e: RangeEdge, len: int) -> int {
    match e {
        RangeEdge::Included(n) => n + 1,
        RangeEdge::Excluded(n) => n as int,
        RangeEdge::Unbounded => len,
    }
}

/// The sequence `s` with the elements from position `at` on overwritten
/// by `vals`, which must lie entirely within `s`; everything outside that
/// span keeps its value.
pub open spec fn overwritten<T>(s: Seq<T>, at: int, vals: Seq<T>) -> Seq<T> {
    Seq::new(
        s.len(),
        |i: int|
            if at <= i < at + vals.len() {
                vals[i - at]
            } else {
                s[i]
            },
    )
}

/// Resolves a range specification against a reference length, yielding the
/// concrete `[start, end)` pair. A result with `start >= end` denotes an
/// empty span; callers treat it as such, not as an error.
pub fn get_start_end(range: IndexRange, len: usize) -> (r: (usize, usize))
    requires
        range.start matches RangeEdge::Excluded(n) ==> n < usize::MAX,
        range.end matches RangeEdge::Included(n) ==> n < usize::MAX,
    ensures
        r.0 == resolved_start(range.start),
        r.1 == resolved_end(range.end, len as int),
{
    let start: usize = match range.start {
        RangeEdge::Included(n) => n,
        RangeEdge::Excluded(n) => n + 1,
        RangeEdge::Unbounded => 0,
    };
    let end: usize = match range.end {
        RangeEdge::Included(n) => n + 1,
        RangeEdge::Excluded(n) => n,
        RangeEdge::Unbounded => len,
    };
    (start, end)
}

} // verus!
