//! A two-variant sum type for range views over the ring buffer.
//!
//! A range of a ring buffer is physically either one contiguous span or a
//! pair of spans when the logical range wraps past the last slot. `Either`
//! lets `Buffer::range` return one concrete type for both shapes.

use vstd::prelude::*;

verus! {

/// Either a single contiguous span or a chained pair of spans.
pub enum Either<S, C> {
    Single(S),
    Chain(C),
}

impl<T> Either<Vec<T>, (Vec<T>, Vec<T>)> {
    /// The elements of the view in logical order: the single span as it
    /// stands, or the leading span followed by the wrapped span.
    pub open spec fn elements(&self) -> Seq<T> {
        match self {
            Either::Single(v) => v@,
            Either::Chain(c) => c.0@ + c.1@,
        }
    }

    /// Flattens the view into one vector, chaining the wrapped span after
    /// the leading span.
    pub fn concat(self) -> (r: Vec<T>)
        ensures
            r@ == self.elements(),
    {
        match self {
            Either::Single(v) => v,
            Either::Chain(c) => {
                let (mut a, mut b) = c;
                a.append(&mut b);
                a
            },
        }
    }
}

} // verus!
