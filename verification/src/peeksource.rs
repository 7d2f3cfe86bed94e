//! Origin tags for tentatively consumed elements.
//!
//! A conditional consumption pulls an element from the front region, the
//! source itself, or the back region. The tag records where it came from,
//! so that a rejected element is returned to the structurally correct
//! place rather than always the nearest one.

use vstd::prelude::*;

verus! {

/// An element together with the place it was produced from.
pub enum PeekSource<T> {
    Front(T),
    Iter(T),
    Back(T),
}

impl<T> PeekSource<T> {
    /// The carried element, whatever its origin.
    pub open spec fn item(&self) -> T {
        match self {
            PeekSource::Front(t) => *t,
            PeekSource::Iter(t) => *t,
            PeekSource::Back(t) => *t,
        }
    }

    /// Unwraps the carried element, dropping the origin tag.
    pub fn into_item(self) -> (r: T)
        ensures
            r == self.item(),
    {
        match self {
            PeekSource::Front(t) => t,
            PeekSource::Iter(t) => t,
            PeekSource::Back(t) => t,
        }
    }

    /// Borrows the carried element without dropping the origin tag.
    pub fn as_ref(&self) -> (r: &T)
        ensures
            *r == self.item(),
    {
        match self {
            PeekSource::Front(t) => t,
            PeekSource::Iter(t) => t,
            PeekSource::Back(t) => t,
        }
    }
}

} // verus!
