//! Iterator-style adapters for peeking multiple elements ahead or behind a
//! sequence source, with verified contracts over the logical remaining
//! sequence.
//!
//! - `peekn` — forward peeking at any depth (`PeekN`, `SizedPeekN`)
//! - `peekdn` — double-ended peeking at any depth (`PeekDN`, `SizedPeekDN`)
//! - `peekablede` — lightweight double-ended peek, one element per end
//!   (`PeekableDE`)
//!
//! Growable adapters buffer peeked elements on the heap; the `Sized*`
//! adapters use a fixed-capacity ring buffer (`Buffer`) instead.

mod either;
mod peekablede;
mod peekdn;
mod peekn;
mod peeksource;
mod predicate;
mod ranges;
mod ringbuffer;
mod sizedpeekdn;
mod sizedpeekn;
mod source;

pub use either::Either;
pub use peekablede::{PeekableDE, peekablede};
pub use peekdn::{PeekDN, covered, lemma_cross_end_convergence, peekdn};
pub use peekn::{PeekN, peekn};
pub use peeksource::PeekSource;
pub use predicate::decides;
pub use ranges::{IndexRange, RangeEdge, get_start_end, overwritten, resolved_end, resolved_start};
pub use ringbuffer::Buffer;
pub use sizedpeekdn::{SizedPeekDN, sizedpeekdn};
pub use sizedpeekn::{SizedPeekN, sizedpeekn};
pub use source::{DoubleEndedSource, ForwardSource, IntRange, VecSource, lemma_consumption_enumerates};
