//! Vocabulary for contracts over caller-supplied predicates.

use vstd::prelude::*;

verus! {

/// The predicate `func`, applied to `value`, can return `verdict`. The
/// conditional-consumption operations promise their outcomes in these
/// terms: an element is consumed only on a `true` verdict and pushed back
/// only on a `false` one.
pub open spec fn decides<T, F: FnOnce(&T) -> bool>(func: F, value: T, verdict: bool) -> bool {
    exists|x: &T| *x == value && call_ensures(func, (x,), verdict)
}

} // verus!
