//! Double-ended peeking over fixed-capacity ring buffers.
//!
//! `SizedPeekDN` is the fixed-capacity counterpart of `PeekDN`: up to `F`
//! elements can be outstanding as peeked from the front and up to `B` from
//! the back, with no heap growth. Asking for a peek depth at or beyond a
//! side's bound is a contract violation, ruled out by the operations'
//! preconditions rather than silently truncated.

use vstd::prelude::*;
use vstd::std_specs::cmp::PartialEqSpec;

use crate::peekablede::PeekableDE;
use crate::peeksource::PeekSource;
use crate::predicate::decides;
use crate::ranges::{IndexRange, RangeEdge, get_start_end, overwritten, resolved_end, resolved_start};
use crate::ringbuffer::Buffer;
use crate::source::{DoubleEndedSource, ForwardSource};

verus! {

/// An adapter over a double-ended source with a fixed-capacity peek
/// region at each end.
pub struct SizedPeekDN<T: Copy, S: DoubleEndedSource<T>, const F: usize, const B: usize> {
    iter: S,
    front: Buffer<T, F>,
    back: Buffer<T, B>,
}

impl<T: Copy, S: DoubleEndedSource<T>, const F: usize, const B: usize> SizedPeekDN<T, S, F, B> {
    /// The front region: elements peeked from the front, in consumption
    /// order.
    pub closed spec fn front_buffered(&self) -> Seq<T> {
        self.front@
    }

    /// The back region: elements peeked from the back, the logical last
    /// element first.
    pub closed spec fn back_buffered(&self) -> Seq<T> {
        self.back@
    }

    /// The elements the wrapped source has not yet produced.
    pub closed spec fn source_remaining(&self) -> Seq<T> {
        self.iter.remaining()
    }

    /// Wraps a source; nothing is peeked yet.
    pub fn new(iter: S) -> (r: SizedPeekDN<T, S, F, B>)
        ensures
            r.remaining() == iter.remaining(),
            r.front_buffered() == Seq::<T>::empty(),
            r.back_buffered() == Seq::<T>::empty(),
    {
        let r = SizedPeekDN { iter, front: Buffer::new(), back: Buffer::new() };
        proof {
            assert(r.remaining() =~= r.iter.remaining());
        }
        r
    }

    /// Rebuilds an adapter from a source and an already-filled front
    /// region; the back region starts empty.
    pub(crate) fn from_front_parts(iter: S, front: Buffer<T, F>) -> (r: SizedPeekDN<T, S, F, B>)
        ensures
            r.source_remaining() == iter.remaining(),
            r.front_buffered() == front@,
            r.back_buffered() == Seq::<T>::empty(),
    {
        SizedPeekDN { iter, front, back: Buffer::new() }
    }

    /// The maximum number of elements that can be outstanding as peeked
    /// from the front.
    pub fn front_capacity(&self) -> (r: usize)
        ensures
            r == F,
    {
        self.front.capacity()
    }

    /// The maximum number of elements that can be outstanding as peeked
    /// from the back.
    pub fn back_capacity(&self) -> (r: usize)
        ensures
            r == B,
    {
        self.back.capacity()
    }

    /// Pulls from the source's front until `want` elements sit in the
    /// front region, stopping early on exhaustion; reports whether the
    /// region reached `want`. The back region is never touched.
    fn fill_front(&mut self, want: usize) -> (ok: bool)
        requires
            want <= F,
        ensures
            final(self).remaining() == old(self).remaining(),
            final(self).back_buffered() == old(self).back_buffered(),
            old(self).front_buffered().len() >= want ==> *final(self) == *old(self),
            final(self).front_buffered().len() >= old(self).front_buffered().len(),
            final(self).front_buffered() == old(self).remaining().take(
                final(self).front_buffered().len() as int,
            ),
            final(self).source_remaining() == old(self).source_remaining().skip(
                final(self).front_buffered().len() - old(self).front_buffered().len(),
            ),
            ok <==> final(self).front_buffered().len() >= want,
            !ok ==> final(self).source_remaining().len() == 0,
            final(self).front_buffered().len() == if old(self).front_buffered().len() >= want {
                old(self).front_buffered().len() as int
            } else if old(self).front_buffered().len() + old(self).source_remaining().len()
                >= want {
                want as int
            } else {
                old(self).front_buffered().len() + old(self).source_remaining().len() as int
            },
    {
        let ghost all = old(self).remaining();
        proof {
            assert(self.front_buffered() =~= all.take(self.front_buffered().len() as int));
        }
        if self.front.len() >= want {
            return true;
        }
        while self.front.len() < want
            invariant
                self.front_buffered() + self.source_remaining() + self.back_buffered().reverse()
                    == all,
                self.front_buffered() == all.take(self.front_buffered().len() as int),
                self.front_buffered().len() >= old(self).front_buffered().len(),
                self.front_buffered().len() <= want,
                self.source_remaining() == old(self).source_remaining().skip(
                    self.front_buffered().len() - old(self).front_buffered().len(),
                ),
                self.back_buffered() == old(self).back_buffered(),
                self.front_buffered().len() + self.source_remaining().len() == old(self).front_buffered().len() + old(self).source_remaining().len(),
                old(self).remaining() == all,
                old(self).front_buffered().len() < want,
                want <= F,
            decreases want - self.front_buffered().len(),
        {
            match self.iter.next_item() {
                Some(item) => {
                    self.front.push_back(item);
                    proof {
                        assert(self.front_buffered() + self.source_remaining()
                            + self.back_buffered().reverse() =~= all);
                        assert(self.front_buffered() =~= all.take(
                            self.front_buffered().len() as int,
                        ));
                        assert(self.source_remaining() =~= old(self).source_remaining().skip(
                            self.front_buffered().len() - old(self).front_buffered().len(),
                        ));
                    }
                },
                None => {
                    return false;
                },
            }
        }
        true
    }

    /// Pulls from the source's back until `want` elements sit in the back
    /// region, stopping early on exhaustion; reports whether the region
    /// reached `want`. The front region is never touched.
    fn fill_back(&mut self, want: usize) -> (ok: bool)
        requires
            want <= B,
        ensures
            final(self).remaining() == old(self).remaining(),
            final(self).front_buffered() == old(self).front_buffered(),
            old(self).back_buffered().len() >= want ==> *final(self) == *old(self),
            final(self).back_buffered().len() >= old(self).back_buffered().len(),
            final(self).back_buffered() == old(self).remaining().reverse().take(
                final(self).back_buffered().len() as int,
            ),
            final(self).source_remaining() == old(self).source_remaining().take(
                old(self).source_remaining().len() - (final(self).back_buffered().len() - old(
                    self,
                ).back_buffered().len()),
            ),
            ok <==> final(self).back_buffered().len() >= want,
            !ok ==> final(self).source_remaining().len() == 0,
            final(self).back_buffered().len() == if old(self).back_buffered().len() >= want {
                old(self).back_buffered().len() as int
            } else if old(self).back_buffered().len() + old(self).source_remaining().len()
                >= want {
                want as int
            } else {
                old(self).back_buffered().len() + old(self).source_remaining().len() as int
            },
    {
        let ghost all = old(self).remaining();
        proof {
            assert(self.back_buffered() =~= all.reverse().take(self.back_buffered().len() as int));
        }
        if self.back.len() >= want {
            return true;
        }
        while self.back.len() < want
            invariant
                self.front_buffered() + self.source_remaining() + self.back_buffered().reverse()
                    == all,
                self.back_buffered() == all.reverse().take(self.back_buffered().len() as int),
                self.back_buffered().len() >= old(self).back_buffered().len(),
                self.back_buffered().len() <= want,
                self.source_remaining() == old(self).source_remaining().take(
                    old(self).source_remaining().len() - (self.back_buffered().len() - old(
                        self,
                    ).back_buffered().len()),
                ),
                self.front_buffered() == old(self).front_buffered(),
                self.back_buffered().len() + self.source_remaining().len() == old(self).back_buffered().len() + old(self).source_remaining().len(),
                old(self).remaining() == all,
                old(self).back_buffered().len() < want,
                want <= B,
            decreases want - self.back_buffered().len(),
        {
            match self.iter.next_back_item() {
                Some(item) => {
                    self.back.push_back(item);
                    proof {
                        assert(self.front_buffered() + self.source_remaining()
                            + self.back_buffered().reverse() =~= all);
                        assert(self.back_buffered() =~= all.reverse().take(
                            self.back_buffered().len() as int,
                        ));
                        assert(self.source_remaining() =~= old(self).source_remaining().take(
                            old(self).source_remaining().len() - (self.back_buffered().len()
                                - old(self).back_buffered().len()),
                        ));
                    }
                },
                None => {
                    return false;
                },
            }
        }
        true
    }

    /// Inspects the element `n` steps from the front (0 is the next
    /// element), filling the front region as needed; the depth must lie
    /// below the front bound. Once the source is exhausted, a depth that
    /// reaches past the front region resolves into the back region, which
    /// then holds the tail of the same remaining sequence.
    pub fn peek_front_nth(&mut self, n: usize) -> (r: Option<&T>)
        requires
            n < F,
        ensures
            final(self).remaining() == old(self).remaining(),
            final(self).back_buffered() == old(self).back_buffered(),
            r is Some <==> n < old(self).remaining().len(),
            r matches Some(v) ==> *v == old(self).remaining()[n as int],
            n < old(self).front_buffered().len() ==> *final(self) == *old(self),
            final(self).front_buffered() == old(self).remaining().take(
                final(self).front_buffered().len() as int,
            ),
            final(self).front_buffered().len() >= old(self).front_buffered().len(),
            final(self).front_buffered().len() == if n < old(self).front_buffered().len() {
                old(self).front_buffered().len() as int
            } else if old(self).front_buffered().len() + old(self).source_remaining().len() >= n
                + 1 {
                n + 1
            } else {
                old(self).front_buffered().len() + old(self).source_remaining().len() as int
            },
            final(self).front_buffered().len() <= n ==> final(self).source_remaining().len() == 0,
            final(self).source_remaining() == old(self).source_remaining().skip(
                final(self).front_buffered().len() - old(self).front_buffered().len(),
            ),
    {
        if self.front.len() > n {
            proof {
                assert(self.front_buffered() =~= self.remaining().take(
                    self.front_buffered().len() as int,
                ));
            }
            return self.front.get(n);
        }
        let got = self.fill_front(n + 1);
        if got {
            return self.front.get(n);
        }
        let f = self.front.len();
        let b = self.back.len();
        let d = n - f;
        if d < b {
            proof {
                assert(old(self).remaining()[n as int] == self.back_buffered()[b - 1 - d]);
            }
            self.back.get(b - 1 - d)
        } else {
            None
        }
    }

    /// Inspects the element `n` steps from the back (0 is the last
    /// element), filling the back region as needed; the depth must lie
    /// below the back bound. Once the source is exhausted, a depth that
    /// reaches past the back region resolves into the front region.
    pub fn peek_back_nth(&mut self, n: usize) -> (r: Option<&T>)
        requires
            n < B,
        ensures
            final(self).remaining() == old(self).remaining(),
            final(self).front_buffered() == old(self).front_buffered(),
            r is Some <==> n < old(self).remaining().len(),
            r matches Some(v) ==> *v == old(self).remaining()[old(self).remaining().len() - 1
                - n],
            n < old(self).back_buffered().len() ==> *final(self) == *old(self),
            final(self).back_buffered() == old(self).remaining().reverse().take(
                final(self).back_buffered().len() as int,
            ),
            final(self).back_buffered().len() >= old(self).back_buffered().len(),
            final(self).back_buffered().len() == if n < old(self).back_buffered().len() {
                old(self).back_buffered().len() as int
            } else if old(self).back_buffered().len() + old(self).source_remaining().len() >= n
                + 1 {
                n + 1
            } else {
                old(self).back_buffered().len() + old(self).source_remaining().len() as int
            },
            final(self).back_buffered().len() <= n ==> final(self).source_remaining().len() == 0,
            final(self).source_remaining() == old(self).source_remaining().take(
                old(self).source_remaining().len() - (final(self).back_buffered().len() - old(
                    self,
                ).back_buffered().len()),
            ),
    {
        if self.back.len() > n {
            proof {
                assert(self.back_buffered() =~= self.remaining().reverse().take(
                    self.back_buffered().len() as int,
                ));
            }
            return self.back.get(n);
        }
        let got = self.fill_back(n + 1);
        if got {
            return self.back.get(n);
        }
        let f = self.front.len();
        let b = self.back.len();
        let d = n - b;
        if d < f {
            proof {
                assert(old(self).remaining()[old(self).remaining().len() - 1 - n]
                    == self.front_buffered()[f - 1 - d]);
            }
            self.front.get(f - 1 - d)
        } else {
            None
        }
    }

    /// Inspects the next front element; the same as `peek_front_nth(0)`.
    pub fn peek_front(&mut self) -> (r: Option<&T>)
        requires
            0 < F,
        ensures
            final(self).remaining() == old(self).remaining(),
            final(self).back_buffered() == old(self).back_buffered(),
            r is Some <==> old(self).remaining().len() > 0,
            r matches Some(v) ==> *v == old(self).remaining()[0],
            old(self).front_buffered().len() > 0 ==> *final(self) == *old(self),
            final(self).front_buffered().len() == if old(self).front_buffered().len() > 0 {
                old(self).front_buffered().len() as int
            } else if old(self).source_remaining().len() > 0 {
                1int
            } else {
                0int
            },
            final(self).source_remaining() == old(self).source_remaining().skip(
                final(self).front_buffered().len() - old(self).front_buffered().len(),
            ),
    {
        self.peek_front_nth(0)
    }

    /// Inspects the next back element; the same as `peek_back_nth(0)`.
    pub fn peek_back(&mut self) -> (r: Option<&T>)
        requires
            0 < B,
        ensures
            final(self).remaining() == old(self).remaining(),
            final(self).front_buffered() == old(self).front_buffered(),
            r is Some <==> old(self).remaining().len() > 0,
            r matches Some(v) ==> *v == old(self).remaining().last(),
            old(self).back_buffered().len() > 0 ==> *final(self) == *old(self),
            final(self).back_buffered().len() == if old(self).back_buffered().len() > 0 {
                old(self).back_buffered().len() as int
            } else if old(self).source_remaining().len() > 0 {
                1int
            } else {
                0int
            },
            final(self).source_remaining() == old(self).source_remaining().take(
                old(self).source_remaining().len() - (final(self).back_buffered().len() - old(
                    self,
                ).back_buffered().len()),
            ),
    {
        self.peek_back_nth(0)
    }

    /// Overwrites the element `n` steps from the front, filling the front
    /// region as needed; reports whether such an element existed.
    pub fn peek_front_nth_mut(&mut self, n: usize, value: T) -> (r: bool)
        requires
            n < F,
        ensures
            r == (n < old(self).remaining().len()),
            r ==> final(self).remaining() == old(self).remaining().update(n as int, value),
            !r ==> final(self).remaining() == old(self).remaining(),
    {
        let got = self.fill_front(n + 1);
        if got {
            let ghost before = self.front_buffered();
            let updated = self.front.set(n, value);
            proof {
                assert(self.front_buffered() =~= before.update(n as int, value));
                assert(self.remaining() =~= old(self).remaining().update(n as int, value));
            }
            true
        } else {
            let f = self.front.len();
            let b = self.back.len();
            let d = n - f;
            if d < b {
                let ghost before = self.back_buffered();
                let updated = self.back.set(b - 1 - d, value);
                proof {
                    assert(self.back_buffered() =~= before.update(b - 1 - d, value));
                    assert(self.remaining() =~= old(self).remaining().update(n as int, value));
                }
                true
            } else {
                false
            }
        }
    }

    /// Overwrites the element `n` steps from the back, filling the back
    /// region as needed; reports whether such an element existed.
    pub fn peek_back_nth_mut(&mut self, n: usize, value: T) -> (r: bool)
        requires
            n < B,
        ensures
            r == (n < old(self).remaining().len()),
            r ==> final(self).remaining() == old(self).remaining().update(
                old(self).remaining().len() - 1 - n,
                value,
            ),
            !r ==> final(self).remaining() == old(self).remaining(),
    {
        let got = self.fill_back(n + 1);
        if got {
            let ghost before = self.back_buffered();
            let updated = self.back.set(n, value);
            proof {
                assert(self.back_buffered() =~= before.update(n as int, value));
                assert(self.remaining() =~= old(self).remaining().update(
                    old(self).remaining().len() - 1 - n,
                    value,
                ));
            }
            true
        } else {
            let f = self.front.len();
            let b = self.back.len();
            let d = n - b;
            if d < f {
                let ghost before = self.front_buffered();
                let updated = self.front.set(f - 1 - d, value);
                proof {
                    assert(self.front_buffered() =~= before.update(f - 1 - d, value));
                    assert(self.remaining() =~= old(self).remaining().update(
                        old(self).remaining().len() - 1 - n,
                        value,
                    ));
                }
                true
            } else {
                false
            }
        }
    }

    /// Overwrites the next front element; the same as
    /// `peek_front_nth_mut(0, value)`.
    pub fn peek_front_mut(&mut self, value: T) -> (r: bool)
        requires
            0 < F,
        ensures
            r == (old(self).remaining().len() > 0),
            r ==> final(self).remaining() == old(self).remaining().update(0, value),
            !r ==> final(self).remaining() == old(self).remaining(),
    {
        self.peek_front_nth_mut(0, value)
    }

    /// Overwrites the next back element; the same as
    /// `peek_back_nth_mut(0, value)`.
    pub fn peek_back_mut(&mut self, value: T) -> (r: bool)
        requires
            0 < B,
        ensures
            r == (old(self).remaining().len() > 0),
            r ==> final(self).remaining() == old(self).remaining().update(
                old(self).remaining().len() - 1,
                value,
            ),
            !r ==> final(self).remaining() == old(self).remaining(),
    {
        self.peek_back_nth_mut(0, value)
    }

    /// Consumes and returns the next front element: the front region
    /// first, then the source, then — once both are exhausted — the far
    /// end of the back region, which keeps order once both regions draw
    /// down toward the middle.
    pub fn next(&mut self) -> (r: Option<T>)
        ensures
            old(self).remaining().len() == 0 ==> r is None && final(self).remaining() == old(self).remaining(),
            old(self).remaining().len() > 0 ==> r == Some(old(self).remaining()[0]) && final(self).remaining() == old(self).remaining().drop_first(),
    {
        match self.next_with_source() {
            Some(tagged) => Some(tagged.into_item()),
            None => None,
        }
    }

    /// Consumes and returns the next back element: the back region first,
    /// then the source, then the far end of the front region.
    pub fn next_back(&mut self) -> (r: Option<T>)
        ensures
            old(self).remaining().len() == 0 ==> r is None && final(self).remaining() == old(self).remaining(),
            old(self).remaining().len() > 0 ==> r == Some(old(self).remaining().last()) && final(self).remaining() == old(self).remaining().drop_last(),
    {
        match self.next_back_with_source() {
            Some(tagged) => Some(tagged.into_item()),
            None => None,
        }
    }

    /// Consumes the next front element with its origin tag.
    fn next_with_source(&mut self) -> (r: Option<PeekSource<T>>)
        ensures
            r is Some <==> old(self).remaining().len() > 0,
            r is None ==> final(self).remaining() == old(self).remaining() && final(self).front_buffered() == old(self).front_buffered() && final(self).back_buffered() == old(self).back_buffered(),
            r matches Some(ps) ==> ps.item() == old(self).remaining()[0] && final(self).remaining()
                == old(self).remaining().drop_first(),
            r matches Some(ps) && ps is Front ==> old(self).front_buffered().len() > 0 && final(self).front_buffered() == old(self).front_buffered().drop_first() && final(self).front_buffered().len() < F && final(self).back_buffered() == old(self).back_buffered() && final(self).source_remaining() == old(self).source_remaining(),
            r matches Some(ps) && ps is Iter ==> old(self).front_buffered().len() == 0 && final(self).front_buffered().len() == 0 && final(self).back_buffered() == old(self).back_buffered(),
            r matches Some(ps) && ps is Back ==> old(self).front_buffered().len() == 0 && final(self).front_buffered().len() == 0 && old(self).source_remaining().len() == 0 && final(self).source_remaining().len() == 0 && final(self).back_buffered() == old(self).back_buffered().drop_last() && final(self).back_buffered().len() < B,
    {
        let popped = self.front.pop_front();
        match popped {
            Some(item) => {
                proof {
                    assert(self.remaining() =~= old(self).remaining().drop_first());
                }
                Some(PeekSource::Front(item))
            },
            None => {
                match self.iter.next_item() {
                    Some(item) => {
                        proof {
                            assert(self.remaining() =~= old(self).remaining().drop_first());
                        }
                        Some(PeekSource::Iter(item))
                    },
                    None => {
                        let popped_back = self.back.pop_back();
                        match popped_back {
                            Some(item) => {
                                proof {
                                    assert(old(self).remaining()[0] == old(self).back_buffered().last());
                                    assert(self.remaining() =~= old(self).remaining().drop_first());
                                }
                                Some(PeekSource::Back(item))
                            },
                            None => {
                                proof {
                                    assert(self.remaining() =~= old(self).remaining());
                                }
                                None
                            },
                        }
                    },
                }
            },
        }
    }

    /// Restores a rejected front-side element to where it came from.
    fn cache_front(&mut self, item: PeekSource<T>)
        requires
            item is Front || item is Iter ==> old(self).front_buffered().len() < F,
            item is Back ==> old(self).back_buffered().len() < B,
        ensures
            item is Front ==> final(self).front_buffered() == seq![item.item()] + old(self).front_buffered() && final(self).back_buffered() == old(self).back_buffered(),
            item is Iter ==> final(self).front_buffered() == old(self).front_buffered().push(
                item.item(),
            ) && final(self).back_buffered() == old(self).back_buffered(),
            item is Back ==> final(self).back_buffered() == old(self).back_buffered().push(
                item.item(),
            ) && final(self).front_buffered() == old(self).front_buffered(),
            final(self).source_remaining() == old(self).source_remaining(),
    {
        match item {
            PeekSource::Front(v) => {
                self.front.push_front(v);
            },
            PeekSource::Iter(v) => {
                self.front.push_back(v);
            },
            PeekSource::Back(v) => {
                self.back.push_back(v);
            },
        }
    }

    /// Consumes the next back element with its origin tag.
    fn next_back_with_source(&mut self) -> (r: Option<PeekSource<T>>)
        ensures
            r is Some <==> old(self).remaining().len() > 0,
            r is None ==> final(self).remaining() == old(self).remaining() && final(self).front_buffered() == old(self).front_buffered() && final(self).back_buffered() == old(self).back_buffered(),
            r matches Some(ps) ==> ps.item() == old(self).remaining().last() && final(self).remaining() == old(self).remaining().drop_last(),
            r matches Some(ps) && ps is Back ==> old(self).back_buffered().len() > 0 && final(self).back_buffered() == old(self).back_buffered().drop_first() && final(self).back_buffered().len() < B && final(self).front_buffered() == old(self).front_buffered() && final(self).source_remaining()
                == old(self).source_remaining(),
            r matches Some(ps) && ps is Iter ==> old(self).back_buffered().len() == 0 && final(self).back_buffered().len() == 0 && final(self).front_buffered() == old(self).front_buffered(),
            r matches Some(ps) && ps is Front ==> old(self).back_buffered().len() == 0 && final(self).back_buffered().len() == 0 && old(self).source_remaining().len() == 0 && final(self).source_remaining().len() == 0 && final(self).front_buffered() == old(self).front_buffered().drop_last() && final(self).front_buffered().len() < F,
    {
        let popped = self.back.pop_front();
        match popped {
            Some(item) => {
                proof {
                    assert(old(self).remaining().last() == old(self).back_buffered()[0]);
                    assert(self.remaining() =~= old(self).remaining().drop_last());
                }
                Some(PeekSource::Back(item))
            },
            None => {
                match self.iter.next_back_item() {
                    Some(item) => {
                        proof {
                            assert(self.remaining() =~= old(self).remaining().drop_last());
                        }
                        Some(PeekSource::Iter(item))
                    },
                    None => {
                        let popped_front = self.front.pop_back();
                        match popped_front {
                            Some(item) => {
                                proof {
                                    assert(old(self).remaining().last() == old(self).front_buffered().last());
                                    assert(self.remaining() =~= old(self).remaining().drop_last());
                                }
                                Some(PeekSource::Front(item))
                            },
                            None => {
                                proof {
                                    assert(self.remaining() =~= old(self).remaining());
                                }
                                None
                            },
                        }
                    },
                }
            },
        }
    }

    /// Restores a rejected back-side element to where it came from.
    fn cache_back(&mut self, item: PeekSource<T>)
        requires
            item is Back || item is Iter ==> old(self).back_buffered().len() < B,
            item is Front ==> old(self).front_buffered().len() < F,
        ensures
            item is Back ==> final(self).back_buffered() == seq![item.item()] + old(self).back_buffered() && final(self).front_buffered() == old(self).front_buffered(),
            item is Iter ==> final(self).back_buffered() == old(self).back_buffered().push(
                item.item(),
            ) && final(self).front_buffered() == old(self).front_buffered(),
            item is Front ==> final(self).front_buffered() == old(self).front_buffered().push(
                item.item(),
            ) && final(self).back_buffered() == old(self).back_buffered(),
            final(self).source_remaining() == old(self).source_remaining(),
    {
        match item {
            PeekSource::Front(v) => {
                self.front.push_back(v);
            },
            PeekSource::Iter(v) => {
                self.back.push_back(v);
            },
            PeekSource::Back(v) => {
                self.back.push_front(v);
            },
        }
    }

    /// Consumes and returns the next front element only if the predicate
    /// accepts it; a rejected element is restored to the structurally
    /// correct region, so the remaining sequence is exactly what it was
    /// before the call.
    pub fn next_if<P: FnOnce(&T) -> bool>(&mut self, func: P) -> (r: Option<T>)
        requires
            0 < F,
            forall|x: &T| #[trigger] call_requires(func, (x,)),
        ensures
            old(self).remaining().len() == 0 ==> r is None,
            r matches Some(v) ==> old(self).remaining().len() > 0 && v == old(self).remaining()[0]
                && final(self).remaining() == old(self).remaining().drop_first(),
            r is None ==> final(self).remaining() == old(self).remaining(),
            r is None && old(self).front_buffered().len() > 0 ==> final(self).front_buffered()
                == old(self).front_buffered() && final(self).back_buffered() == old(
                self,
            ).back_buffered(),
            r is None && old(self).front_buffered().len() == 0 && old(
                self,
            ).source_remaining().len() > 0 ==> final(self).front_buffered() == seq![
                old(self).remaining()[0],
            ] && final(self).back_buffered() == old(self).back_buffered(),
            r is None && old(self).front_buffered().len() == 0 && old(
                self,
            ).source_remaining().len() == 0 ==> final(self).front_buffered() == old(
                self,
            ).front_buffered() && final(self).back_buffered() == old(self).back_buffered(),
            r matches Some(v) ==> decides(func, v, true),
            r is None && old(self).remaining().len() > 0 ==> decides(
                func,
                old(self).remaining()[0],
                false,
            ),
    {
        match self.next_with_source() {
            Some(tagged) => {
                let accepted = {
                    let item_ref = tagged.as_ref();
                    let verdict = func(item_ref);
                    proof {
                        assert(decides(func, tagged.item(), verdict)) by {
                            assert(*item_ref == tagged.item() && call_ensures(
                                func,
                                (item_ref,),
                                verdict,
                            ));
                        }
                    }
                    verdict
                };
                if accepted {
                    Some(tagged.into_item())
                } else {
                    let ghost rem0 = old(self).remaining();
                    let ghost tag = tagged;
                    self.cache_front(tagged);
                    proof {
                        if tag is Back {
                            assert(self.remaining() =~= rem0);
                        } else {
                            assert(self.remaining() =~= seq![tag.item()] + rem0.drop_first());
                            assert(seq![tag.item()] + rem0.drop_first() =~= rem0);
                        }
                        if tag is Front {
                            assert(self.front_buffered() =~= old(self).front_buffered());
                        }
                        if tag is Iter {
                            assert(self.front_buffered() =~= seq![old(self).remaining()[0]]);
                        }
                        if tag is Back {
                            assert(self.back_buffered() =~= old(self).back_buffered());
                        }
                    }
                    None
                }
            },
            None => None,
        }
    }

    /// Consumes and returns the next back element only if the predicate
    /// accepts it; a rejected element is restored to the structurally
    /// correct region.
    pub fn next_back_if<P: FnOnce(&T) -> bool>(&mut self, func: P) -> (r: Option<T>)
        requires
            0 < B,
            forall|x: &T| #[trigger] call_requires(func, (x,)),
        ensures
            old(self).remaining().len() == 0 ==> r is None,
            r matches Some(v) ==> old(self).remaining().len() > 0 && v == old(self).remaining().last() && final(self).remaining() == old(self).remaining().drop_last(),
            r is None ==> final(self).remaining() == old(self).remaining(),
            r is None && old(self).back_buffered().len() > 0 ==> final(self).back_buffered()
                == old(self).back_buffered() && final(self).front_buffered() == old(
                self,
            ).front_buffered(),
            r is None && old(self).back_buffered().len() == 0 && old(
                self,
            ).source_remaining().len() > 0 ==> final(self).back_buffered() == seq![
                old(self).remaining().last(),
            ] && final(self).front_buffered() == old(self).front_buffered(),
            r is None && old(self).back_buffered().len() == 0 && old(
                self,
            ).source_remaining().len() == 0 ==> final(self).back_buffered() == old(
                self,
            ).back_buffered() && final(self).front_buffered() == old(self).front_buffered(),
            r matches Some(v) ==> decides(func, v, true),
            r is None && old(self).remaining().len() > 0 ==> decides(
                func,
                old(self).remaining().last(),
                false,
            ),
    {
        match self.next_back_with_source() {
            Some(tagged) => {
                let accepted = {
                    let item_ref = tagged.as_ref();
                    let verdict = func(item_ref);
                    proof {
                        assert(decides(func, tagged.item(), verdict)) by {
                            assert(*item_ref == tagged.item() && call_ensures(
                                func,
                                (item_ref,),
                                verdict,
                            ));
                        }
                    }
                    verdict
                };
                if accepted {
                    Some(tagged.into_item())
                } else {
                    let ghost rem0 = old(self).remaining();
                    let ghost tag = tagged;
                    self.cache_back(tagged);
                    proof {
                        if tag is Front {
                            assert(self.remaining() =~= rem0);
                        } else {
                            assert(self.remaining() =~= rem0.drop_last() + seq![tag.item()]);
                            assert(rem0.drop_last() + seq![tag.item()] =~= rem0);
                        }
                        if tag is Back {
                            assert(self.back_buffered() =~= old(self).back_buffered());
                        }
                        if tag is Iter {
                            assert(self.back_buffered() =~= seq![old(self).remaining().last()]);
                        }
                        if tag is Front {
                            assert(self.front_buffered() =~= old(self).front_buffered());
                        }
                    }
                    None
                }
            },
            None => None,
        }
    }

    /// Consumes and returns the next front element only if it equals
    /// `expected`; a rejected element is restored to the correct region.
    pub fn next_if_eq(&mut self, expected: &T) -> (r: Option<T>) where T: PartialEqSpec
        requires
            0 < F,
        ensures
            old(self).remaining().len() == 0 ==> r is None,
            r matches Some(v) ==> old(self).remaining().len() > 0 && v == old(self).remaining()[0]
                && final(self).remaining() == old(self).remaining().drop_first(),
            r is None ==> final(self).remaining() == old(self).remaining(),
            r is None && old(self).front_buffered().len() > 0 ==> final(self).front_buffered()
                == old(self).front_buffered() && final(self).back_buffered() == old(
                self,
            ).back_buffered(),
            r is None && old(self).front_buffered().len() == 0 && old(
                self,
            ).source_remaining().len() > 0 ==> final(self).front_buffered() == seq![
                old(self).remaining()[0],
            ] && final(self).back_buffered() == old(self).back_buffered(),
            r is None && old(self).front_buffered().len() == 0 && old(
                self,
            ).source_remaining().len() == 0 ==> final(self).front_buffered() == old(
                self,
            ).front_buffered() && final(self).back_buffered() == old(self).back_buffered(),
            T::obeys_eq_spec() ==> (r is Some <==> old(self).remaining().len() > 0 && old(self).remaining()[0].eq_spec(expected)),
    {
        match self.next_with_source() {
            Some(tagged) => {
                let accepted = tagged.as_ref().eq(expected);
                if accepted {
                    Some(tagged.into_item())
                } else {
                    let ghost rem0 = old(self).remaining();
                    let ghost tag = tagged;
                    self.cache_front(tagged);
                    proof {
                        if tag is Back {
                            assert(self.remaining() =~= rem0);
                        } else {
                            assert(self.remaining() =~= seq![tag.item()] + rem0.drop_first());
                            assert(seq![tag.item()] + rem0.drop_first() =~= rem0);
                        }
                        if tag is Front {
                            assert(self.front_buffered() =~= old(self).front_buffered());
                        }
                        if tag is Iter {
                            assert(self.front_buffered() =~= seq![old(self).remaining()[0]]);
                        }
                        if tag is Back {
                            assert(self.back_buffered() =~= old(self).back_buffered());
                        }
                    }
                    None
                }
            },
            None => None,
        }
    }

    /// Consumes and returns the next back element only if it equals
    /// `expected`; a rejected element is restored to the correct region.
    pub fn next_back_if_eq(&mut self, expected: &T) -> (r: Option<T>) where T: PartialEqSpec
        requires
            0 < B,
        ensures
            old(self).remaining().len() == 0 ==> r is None,
            r matches Some(v) ==> old(self).remaining().len() > 0 && v == old(self).remaining().last() && final(self).remaining() == old(self).remaining().drop_last(),
            r is None ==> final(self).remaining() == old(self).remaining(),
            r is None && old(self).back_buffered().len() > 0 ==> final(self).back_buffered()
                == old(self).back_buffered() && final(self).front_buffered() == old(
                self,
            ).front_buffered(),
            r is None && old(self).back_buffered().len() == 0 && old(
                self,
            ).source_remaining().len() > 0 ==> final(self).back_buffered() == seq![
                old(self).remaining().last(),
            ] && final(self).front_buffered() == old(self).front_buffered(),
            r is None && old(self).back_buffered().len() == 0 && old(
                self,
            ).source_remaining().len() == 0 ==> final(self).back_buffered() == old(
                self,
            ).back_buffered() && final(self).front_buffered() == old(self).front_buffered(),
            T::obeys_eq_spec() ==> (r is Some <==> old(self).remaining().len() > 0 && old(self).remaining().last().eq_spec(expected)),
    {
        match self.next_back_with_source() {
            Some(tagged) => {
                let accepted = tagged.as_ref().eq(expected);
                if accepted {
                    Some(tagged.into_item())
                } else {
                    let ghost rem0 = old(self).remaining();
                    let ghost tag = tagged;
                    self.cache_back(tagged);
                    proof {
                        if tag is Front {
                            assert(self.remaining() =~= rem0);
                        } else {
                            assert(self.remaining() =~= rem0.drop_last() + seq![tag.item()]);
                            assert(rem0.drop_last() + seq![tag.item()] =~= rem0);
                        }
                        if tag is Back {
                            assert(self.back_buffered() =~= old(self).back_buffered());
                        }
                        if tag is Iter {
                            assert(self.back_buffered() =~= seq![old(self).remaining().last()]);
                        }
                        if tag is Front {
                            assert(self.front_buffered() =~= old(self).front_buffered());
                        }
                    }
                    None
                }
            },
            None => None,
        }
    }

    /// Consumes and returns the front elements that a run of `next_if`
    /// calls would accept, stopping at the first rejection or exhaustion.
    pub fn while_next_front<P: Fn(&T) -> bool>(&mut self, func: P) -> (r: Vec<T>)
        requires
            0 < F,
            forall|x: &T| #[trigger] call_requires(func, (x,)),
        ensures
            r@.len() <= old(self).remaining().len(),
            r@ == old(self).remaining().take(r@.len() as int),
            final(self).remaining() == old(self).remaining().skip(r@.len() as int),
            forall|k: int| 0 <= k < r@.len() ==> decides(func, #[trigger] r@[k], true),
            r@.len() < old(self).remaining().len() ==> decides(
                func,
                old(self).remaining()[r@.len() as int],
                false,
            ),
    {
        let ghost all = old(self).remaining();
        let mut out: Vec<T> = Vec::new();
        let mut done = false;
        proof {
            assert(all.take(0) =~= out@);
            assert(all.skip(0) =~= all);
        }
        while !done
            invariant
                0 < F,
                forall|x: &T| #[trigger] call_requires(func, (x,)),
                out@.len() <= all.len(),
                out@ == all.take(out@.len() as int),
                self.remaining() == all.skip(out@.len() as int),
                forall|k: int| 0 <= k < out@.len() ==> decides(func, #[trigger] out@[k], true),
                done ==> (out@.len() == all.len() || decides(func, all[out@.len() as int], false)),
            decreases all.len() - out@.len() + if done {
                0int
            } else {
                1int
            },
        {
            match self.next_if(&func) {
                Some(item) => {
                    out.push(item);
                    proof {
                        assert(out@ =~= all.take(out@.len() as int));
                    }
                },
                None => {
                    done = true;
                },
            }
        }
        out
    }

    /// Consumes and returns the back elements that a run of `next_back_if`
    /// calls would accept, stopping at the first rejection or exhaustion.
    pub fn while_next_back<P: Fn(&T) -> bool>(&mut self, func: P) -> (r: Vec<T>)
        requires
            0 < B,
            forall|x: &T| #[trigger] call_requires(func, (x,)),
        ensures
            r@.len() <= old(self).remaining().len(),
            r@ == old(self).remaining().skip(old(self).remaining().len() - r@.len()).reverse(),
            final(self).remaining() == old(self).remaining().take(
                old(self).remaining().len() - r@.len(),
            ),
            forall|k: int| 0 <= k < r@.len() ==> decides(func, #[trigger] r@[k], true),
            r@.len() < old(self).remaining().len() ==> decides(
                func,
                old(self).remaining()[old(self).remaining().len() - r@.len() - 1],
                false,
            ),
    {
        let ghost all = old(self).remaining();
        let mut out: Vec<T> = Vec::new();
        let mut done = false;
        proof {
            assert(all.skip(all.len() as int).reverse() =~= out@);
            assert(all.take(all.len() as int) =~= all);
        }
        while !done
            invariant
                0 < B,
                forall|x: &T| #[trigger] call_requires(func, (x,)),
                out@.len() <= all.len(),
                out@ == all.skip(all.len() - out@.len()).reverse(),
                self.remaining() == all.take(all.len() - out@.len()),
                forall|k: int| 0 <= k < out@.len() ==> decides(func, #[trigger] out@[k], true),
                done ==> (out@.len() == all.len() || decides(
                    func,
                    all[all.len() - out@.len() - 1],
                    false,
                )),
            decreases all.len() - out@.len() + if done {
                0int
            } else {
                1int
            },
        {
            match self.next_back_if(&func) {
                Some(item) => {
                    out.push(item);
                    proof {
                        assert(out@ =~= all.skip(all.len() - out@.len()).reverse());
                    }
                },
                None => {
                    done = true;
                },
            }
        }
        out
    }

    /// Counts how many consecutive front elements satisfy the predicate,
    /// peeking but never consuming; stops at the first element the
    /// predicate rejects, at exhaustion, or at the front bound.
    pub fn while_peek_front<P: Fn(&T) -> bool>(&mut self, func: P) -> (r: usize)
        requires
            forall|x: &T| #[trigger] call_requires(func, (x,)),
        ensures
            final(self).remaining() == old(self).remaining(),
            r <= old(self).remaining().len(),
            r <= F,
            forall|k: int|
                0 <= k < r ==> decides(func, #[trigger] old(self).remaining()[k], true),
            r < old(self).remaining().len() && r < F ==> decides(
                func,
                old(self).remaining()[r as int],
                false,
            ),
    {
        let ghost all = old(self).remaining();
        let mut count: usize = 0;
        let mut done = false;
        while !done
            invariant
                forall|x: &T| #[trigger] call_requires(func, (x,)),
                count <= all.len(),
                count <= F,
                self.remaining() == all,
                forall|k: int| 0 <= k < count ==> decides(func, #[trigger] all[k], true),
                done ==> (count == all.len() || count == F || decides(
                    func,
                    all[count as int],
                    false,
                )),
            decreases all.len() + F - 2 * count + if done {
                0int
            } else {
                1int
            },
        {
            if count >= self.front_capacity() {
                done = true;
                continue;
            }
            match self.peek_front_nth(count) {
                Some(item) => {
                    let accepted = func(item);
                    proof {
                        assert(decides(func, all[count as int], accepted)) by {
                            assert(*item == all[count as int] && call_ensures(
                                func,
                                (item,),
                                accepted,
                            ));
                        }
                    }
                    if accepted {
                        count = count + 1;
                    } else {
                        done = true;
                    }
                },
                None => {
                    done = true;
                },
            }
        }
        count
    }

    /// Counts how many consecutive back elements satisfy the predicate,
    /// peeking but never consuming; stops at the first element the
    /// predicate rejects, at exhaustion, or at the back bound.
    pub fn while_peek_back<P: Fn(&T) -> bool>(&mut self, func: P) -> (r: usize)
        requires
            forall|x: &T| #[trigger] call_requires(func, (x,)),
        ensures
            final(self).remaining() == old(self).remaining(),
            r <= old(self).remaining().len(),
            r <= B,
            forall|k: int|
                0 <= k < r ==> decides(
                    func,
                    #[trigger] old(self).remaining()[old(self).remaining().len() - 1 - k],
                    true,
                ),
            r < old(self).remaining().len() && r < B ==> decides(
                func,
                old(self).remaining()[old(self).remaining().len() - 1 - r],
                false,
            ),
    {
        let ghost all = old(self).remaining();
        let mut count: usize = 0;
        let mut done = false;
        while !done
            invariant
                forall|x: &T| #[trigger] call_requires(func, (x,)),
                count <= all.len(),
                count <= B,
                self.remaining() == all,
                forall|k: int|
                    0 <= k < count ==> decides(func, #[trigger] all[all.len() - 1 - k], true),
                done ==> (count == all.len() || count == B || decides(
                    func,
                    all[all.len() - 1 - count],
                    false,
                )),
            decreases all.len() + B - 2 * count + if done {
                0int
            } else {
                1int
            },
        {
            if count >= self.back_capacity() {
                done = true;
                continue;
            }
            match self.peek_back_nth(count) {
                Some(item) => {
                    let accepted = func(item);
                    proof {
                        assert(decides(func, all[all.len() - 1 - count], accepted)) by {
                            assert(*item == all[all.len() - 1 - count] && call_ensures(
                                func,
                                (item,),
                                accepted,
                            ));
                        }
                    }
                    if accepted {
                        count = count + 1;
                    } else {
                        done = true;
                    }
                },
                None => {
                    done = true;
                },
            }
        }
        count
    }

    /// The total number of elements left, both peek regions included.
    pub fn len(&self) -> (r: usize)
        requires
            self.remaining().len() <= usize::MAX,
        ensures
            r == self.remaining().len(),
    {
        self.front.len() + self.iter.remaining_len() + self.back.len()
    }

    /// Inspects the elements at logical front indices `[start, end)`,
    /// filling the front region as needed; once the source is exhausted
    /// the view continues into the back region in logical order. The
    /// result is truncated to what could still be reached; the resolved
    /// end must lie within the front bound. An empty or inverted range
    /// yields nothing.
    pub fn peek_front_range(&mut self, range: IndexRange) -> (r: Vec<T>)
        requires
            old(self).remaining().len() <= usize::MAX,
            range.start matches RangeEdge::Excluded(n) ==> n < usize::MAX,
            range.end matches RangeEdge::Included(n) ==> n < usize::MAX,
            resolved_end(range.end, old(self).remaining().len() as int) <= F,
        ensures
            final(self).remaining() == old(self).remaining(),
            ({
                let s = resolved_start(range.start);
                let e = resolved_end(range.end, old(self).remaining().len() as int);
                let e2 = if e <= old(self).remaining().len() {
                    e
                } else {
                    old(self).remaining().len() as int
                };
                r@ == if s < e2 {
                    old(self).remaining().subrange(s, e2)
                } else {
                    Seq::<T>::empty()
                }
            }),
            ({
                let s = resolved_start(range.start);
                let e = resolved_end(range.end, old(self).remaining().len() as int);
                let e2 = if e <= old(self).remaining().len() {
                    e
                } else {
                    old(self).remaining().len() as int
                };
                if s < e2 {
                    final(self).back_buffered() == old(self).back_buffered() && final(self).front_buffered().len() == if old(self).front_buffered().len() >= e2 {
                        old(self).front_buffered().len() as int
                    } else if old(self).front_buffered().len() + old(self).source_remaining().len() >= e2 {
                        e2
                    } else {
                        old(self).front_buffered().len() + old(self).source_remaining().len()
                            as int
                    }
                } else {
                    *final(self) == *old(self)
                }
            }),
    {
        let ghost all = old(self).remaining();
        let total = self.len();
        let (start, end) = get_start_end(range, total);
        if start >= end {
            let out: Vec<T> = Vec::new();
            proof {
                assert(out@ =~= Seq::<T>::empty());
            }
            return out;
        }
        let end2 = if end <= total {
            end
        } else {
            total
        };
        if start >= end2 {
            let out: Vec<T> = Vec::new();
            proof {
                assert(out@ =~= Seq::<T>::empty());
            }
            return out;
        }
        let mut out: Vec<T> = Vec::new();
        let mut j = start;
        while j < end2
            invariant
                start <= j,
                j <= end2 || j == start,
                end2 <= all.len() <= usize::MAX,
                end2 <= F,
                self.remaining() == all,
                self.back_buffered() == old(self).back_buffered(),
                self.front_buffered().len() + self.source_remaining().len() == old(self).front_buffered().len() + old(self).source_remaining().len(),
                j == start ==> self.front_buffered().len() == old(self).front_buffered().len(),
                j > start ==> self.front_buffered().len() == (if old(self).front_buffered().len() >= j {
                    old(self).front_buffered().len() as int
                } else if old(self).front_buffered().len() + old(self).source_remaining().len()
                    >= j {
                    j as int
                } else {
                    old(self).front_buffered().len() + old(self).source_remaining().len() as int
                }),
                out@.len() == j - start,
                forall|k: int| 0 <= k < out@.len() ==> out@[k] == all[start + k],
            decreases end2 - j,
        {
            let item = match self.peek_front_nth(j) {
                Some(v) => *v,
                None => {
                    proof {
                        assert(false);
                    }
                    return out;
                },
            };
            out.push(item);
            j = j + 1;
        }
        proof {
            let s = resolved_start(range.start);
            let e = resolved_end(range.end, all.len() as int);
            let e2 = if e <= all.len() {
                e
            } else {
                all.len() as int
            };
            if s < e2 {
                assert(out@ =~= all.subrange(s, e2));
            } else {
                assert(out@ =~= Seq::<T>::empty());
            }
        }
        out
    }

    /// Inspects the elements at logical back indices `[start, end)` — 0 is
    /// the last element — filling the back region as needed; once the
    /// source is exhausted the view continues into the front region. The
    /// result is truncated to what could still be reached; the resolved
    /// end must lie within the back bound. An empty or inverted range
    /// yields nothing.
    pub fn peek_back_range(&mut self, range: IndexRange) -> (r: Vec<T>)
        requires
            old(self).remaining().len() <= usize::MAX,
            range.start matches RangeEdge::Excluded(n) ==> n < usize::MAX,
            range.end matches RangeEdge::Included(n) ==> n < usize::MAX,
            resolved_end(range.end, old(self).remaining().len() as int) <= B,
        ensures
            final(self).remaining() == old(self).remaining(),
            ({
                let s = resolved_start(range.start);
                let e = resolved_end(range.end, old(self).remaining().len() as int);
                let e2 = if e <= old(self).remaining().len() {
                    e
                } else {
                    old(self).remaining().len() as int
                };
                r@ == if s < e2 {
                    old(self).remaining().reverse().subrange(s, e2)
                } else {
                    Seq::<T>::empty()
                }
            }),
            ({
                let s = resolved_start(range.start);
                let e = resolved_end(range.end, old(self).remaining().len() as int);
                let e2 = if e <= old(self).remaining().len() {
                    e
                } else {
                    old(self).remaining().len() as int
                };
                if s < e2 {
                    final(self).front_buffered() == old(self).front_buffered() && final(self).back_buffered().len() == if old(self).back_buffered().len() >= e2 {
                        old(self).back_buffered().len() as int
                    } else if old(self).back_buffered().len() + old(self).source_remaining().len() >= e2 {
                        e2
                    } else {
                        old(self).back_buffered().len() + old(self).source_remaining().len()
                            as int
                    }
                } else {
                    *final(self) == *old(self)
                }
            }),
    {
        let ghost all = old(self).remaining();
        let total = self.len();
        let (start, end) = get_start_end(range, total);
        if start >= end {
            let out: Vec<T> = Vec::new();
            proof {
                assert(out@ =~= Seq::<T>::empty());
            }
            return out;
        }
        let end2 = if end <= total {
            end
        } else {
            total
        };
        if start >= end2 {
            let out: Vec<T> = Vec::new();
            proof {
                assert(out@ =~= Seq::<T>::empty());
            }
            return out;
        }
        let mut out: Vec<T> = Vec::new();
        let mut j = start;
        while j < end2
            invariant
                start <= j,
                j <= end2 || j == start,
                end2 <= all.len() <= usize::MAX,
                end2 <= B,
                self.remaining() == all,
                self.front_buffered() == old(self).front_buffered(),
                self.back_buffered().len() + self.source_remaining().len() == old(self).back_buffered().len() + old(self).source_remaining().len(),
                j == start ==> self.back_buffered().len() == old(self).back_buffered().len(),
                j > start ==> self.back_buffered().len() == (if old(self).back_buffered().len() >= j {
                    old(self).back_buffered().len() as int
                } else if old(self).back_buffered().len() + old(self).source_remaining().len()
                    >= j {
                    j as int
                } else {
                    old(self).back_buffered().len() + old(self).source_remaining().len() as int
                }),
                out@.len() == j - start,
                forall|k: int| 0 <= k < out@.len() ==> out@[k] == all[all.len() - 1 - (start + k)],
            decreases end2 - j,
        {
            let item = match self.peek_back_nth(j) {
                Some(v) => *v,
                None => {
                    proof {
                        assert(false);
                    }
                    return out;
                },
            };
            out.push(item);
            j = j + 1;
        }
        proof {
            let s = resolved_start(range.start);
            let e = resolved_end(range.end, all.len() as int);
            let e2 = if e <= all.len() {
                e
            } else {
                all.len() as int
            };
            if s < e2 {
                assert(out@ =~= all.reverse().subrange(s, e2));
            } else {
                assert(out@ =~= Seq::<T>::empty());
            }
        }
        out
    }

    /// Overwrites the elements at logical front indices `[start, end)`
    /// with the given values, filling the front region as needed — past
    /// source exhaustion the overwrite resolves into the back region, as
    /// `peek_front_nth_mut` does; overwriting stops at
    /// the end of the range, of the values, or of what the source could
    /// still provide, whichever comes first. Returns how many elements
    /// were overwritten. An empty or inverted range overwrites nothing.
    #[verifier::rlimit(50)]
    pub fn peek_front_range_mut(&mut self, range: IndexRange, values: &Vec<T>) -> (r: usize)
        requires
            old(self).remaining().len() <= usize::MAX,
            range.start matches RangeEdge::Excluded(n) ==> n < usize::MAX,
            range.end matches RangeEdge::Included(n) ==> n < usize::MAX,
            resolved_end(range.end, old(self).remaining().len() as int) <= F,
        ensures
            ({
                let s = resolved_start(range.start);
                let e = resolved_end(range.end, old(self).remaining().len() as int);
                let e2 = if e <= old(self).remaining().len() {
                    e
                } else {
                    old(self).remaining().len() as int
                };
                let span = if s < e2 {
                    e2 - s
                } else {
                    0
                };
                r == if span <= values@.len() {
                    span
                } else {
                    values@.len() as int
                } && final(self).remaining() == overwritten(
                    old(self).remaining(),
                    s,
                    values@.take(r as int),
                )
            }),
    {
        let ghost all = old(self).remaining();
        let total = self.len();
        let (start, end) = get_start_end(range, total);
        let end2 = if end <= total {
            end
        } else {
            total
        };
        let span = if start < end2 {
            end2 - start
        } else {
            0
        };
        let count = if span <= values.len() {
            span
        } else {
            values.len()
        };
        let mut i: usize = 0;
        proof {
            assert(self.remaining() =~= overwritten(all, start as int, values@.take(0)));
        }
        while i < count
            invariant
                i <= count,
                count == 0 || start + count <= all.len(),
                count == 0 || start + count <= F,
                all.len() <= usize::MAX,
                count <= values@.len(),
                self.remaining() == overwritten(all, start as int, values@.take(i as int)),
            decreases count - i,
        {
            let _ = self.peek_front_nth_mut(start + i, values[i]);
            proof {
                assert(self.remaining() =~= overwritten(
                    all,
                    start as int,
                    values@.take(i + 1 as int),
                ));
            }
            i = i + 1;
        }
        count
    }

    /// Overwrites the elements at logical back indices `[start, end)` —
    /// 0 is the last element — with the given values, filling the back
    /// region as needed; past source exhaustion the overwrite resolves
    /// into the front region, as `peek_back_nth_mut` does. Overwriting
    /// stops at the end of the range, of the values, or of what could
    /// still be reached. Returns how many elements were overwritten.
    #[verifier::rlimit(50)]
    pub fn peek_back_range_mut(&mut self, range: IndexRange, values: &Vec<T>) -> (r: usize)
        requires
            old(self).remaining().len() <= usize::MAX,
            range.start matches RangeEdge::Excluded(n) ==> n < usize::MAX,
            range.end matches RangeEdge::Included(n) ==> n < usize::MAX,
            resolved_end(range.end, old(self).remaining().len() as int) <= B,
        ensures
            ({
                let s = resolved_start(range.start);
                let e = resolved_end(range.end, old(self).remaining().len() as int);
                let e2 = if e <= old(self).remaining().len() {
                    e
                } else {
                    old(self).remaining().len() as int
                };
                let span = if s < e2 {
                    e2 - s
                } else {
                    0
                };
                r == if span <= values@.len() {
                    span
                } else {
                    values@.len() as int
                } && final(self).remaining() == overwritten(
                    old(self).remaining().reverse(),
                    s,
                    values@.take(r as int),
                ).reverse()
            }),
    {
        let ghost all = old(self).remaining();
        let total = self.len();
        let (start, end) = get_start_end(range, total);
        let end2 = if end <= total {
            end
        } else {
            total
        };
        let span = if start < end2 {
            end2 - start
        } else {
            0
        };
        let count = if span <= values.len() {
            span
        } else {
            values.len()
        };
        let mut i: usize = 0;
        proof {
            assert(self.remaining().reverse() =~= overwritten(
                all.reverse(),
                start as int,
                values@.take(0),
            ));
        }
        while i < count
            invariant
                i <= count,
                count == 0 || start + count <= all.len(),
                count == 0 || start + count <= B,
                all.len() <= usize::MAX,
                count <= values@.len(),
                self.remaining().len() == all.len(),
                self.remaining().reverse() == overwritten(
                    all.reverse(),
                    start as int,
                    values@.take(i as int),
                ),
            decreases count - i,
        {
            let ghost rem_before = self.remaining();
            let _ = self.peek_back_nth_mut(start + i, values[i]);
            proof {
                assert(self.remaining().reverse() =~= rem_before.reverse().update(
                    start + i,
                    values@[i as int],
                ));
                assert(self.remaining().reverse() =~= overwritten(
                    all.reverse(),
                    start as int,
                    values@.take(i + 1 as int),
                ));
            }
            i = i + 1;
        }
        proof {
            assert(self.remaining() =~= self.remaining().reverse().reverse());
        }
        count
    }

    /// The number of elements in the front peek region.
    pub fn front_peeked_len(&self) -> (r: usize)
        ensures
            r == self.front_buffered().len(),
    {
        self.front.len()
    }

    /// The number of elements in the back peek region.
    pub fn back_peeked_len(&self) -> (r: usize)
        ensures
            r == self.back_buffered().len(),
    {
        self.back.len()
    }

    /// Whether at least `n + 1` elements sit in the front region.
    pub fn has_front_peeked(&self, n: usize) -> (r: bool)
        ensures
            r == (self.front_buffered().len() > n),
    {
        self.front_peeked_len() > n
    }

    /// Whether at least `n + 1` elements sit in the back region.
    pub fn has_back_peeked(&self, n: usize) -> (r: bool)
        ensures
            r == (self.back_buffered().len() > n),
    {
        self.back_peeked_len() > n
    }

    /// Discards every element of the front region; they are lost, not
    /// replayed.
    pub fn clear_front_peeked(&mut self)
        ensures
            final(self).front_buffered() == Seq::<T>::empty(),
            final(self).back_buffered() == old(self).back_buffered(),
            final(self).remaining() == old(self).remaining().skip(
                old(self).front_buffered().len() as int,
            ),
    {
        self.front.clear();
        proof {
            assert(self.remaining() =~= old(self).remaining().skip(
                old(self).front_buffered().len() as int,
            ));
        }
    }

    /// Discards every element of the back region; they are lost, not
    /// replayed.
    pub fn clear_back_peeked(&mut self)
        ensures
            final(self).back_buffered() == Seq::<T>::empty(),
            final(self).front_buffered() == old(self).front_buffered(),
            final(self).remaining() == old(self).remaining().take(
                old(self).remaining().len() - old(self).back_buffered().len(),
            ),
    {
        self.back.clear();
        proof {
            assert(self.remaining() =~= old(self).remaining().take(
                old(self).remaining().len() - old(self).back_buffered().len(),
            ));
        }
    }

    /// Discards both peek regions without advancing the source.
    pub fn clear_peeked(&mut self)
        ensures
            final(self).front_buffered() == Seq::<T>::empty(),
            final(self).back_buffered() == Seq::<T>::empty(),
            final(self).remaining() == old(self).source_remaining(),
    {
        self.clear_front_peeked();
        self.clear_back_peeked();
        proof {
            assert(self.remaining() =~= old(self).source_remaining());
        }
    }

    /// Discards the first `until` elements of the front region (all of
    /// them if fewer are buffered).
    pub fn drain_front_peeked(&mut self, until: usize)
        ensures
            ({
                let k = if until <= old(self).front_buffered().len() {
                    until as int
                } else {
                    old(self).front_buffered().len() as int
                };
                final(self).front_buffered() == old(self).front_buffered().skip(k) && final(self).back_buffered() == old(self).back_buffered() && final(self).remaining() == old(self).remaining().skip(k)
            }),
    {
        let count = if until <= self.front.len() {
            until
        } else {
            self.front.len()
        };
        self.front.drain(IndexRange::upto(count));
        proof {
            assert(self.front_buffered() =~= old(self).front_buffered().skip(count as int));
            assert(self.remaining() =~= old(self).remaining().skip(count as int));
        }
    }

    /// Discards the first `until` elements of the back region — the
    /// logical last elements — (all of them if fewer are buffered).
    pub fn drain_back_peeked(&mut self, until: usize)
        ensures
            ({
                let k = if until <= old(self).back_buffered().len() {
                    until as int
                } else {
                    old(self).back_buffered().len() as int
                };
                final(self).back_buffered() == old(self).back_buffered().skip(k) && final(self).front_buffered() == old(self).front_buffered() && final(self).remaining() == old(self).remaining().take(old(self).remaining().len() - k)
            }),
    {
        let count = if until <= self.back.len() {
            until
        } else {
            self.back.len()
        };
        self.back.drain(IndexRange::upto(count));
        proof {
            assert(self.back_buffered() =~= old(self).back_buffered().skip(count as int));
            assert(self.remaining() =~= old(self).remaining().take(
                old(self).remaining().len() - count,
            ));
        }
    }

    /// Drains both peek regions up to the given limits: first the front
    /// region, then the back region.
    pub fn drain_peeked(&mut self, front_until: usize, back_until: usize)
        ensures
            ({
                let kf = if front_until <= old(self).front_buffered().len() {
                    front_until as int
                } else {
                    old(self).front_buffered().len() as int
                };
                let kb = if back_until <= old(self).back_buffered().len() {
                    back_until as int
                } else {
                    old(self).back_buffered().len() as int
                };
                final(self).front_buffered() == old(self).front_buffered().skip(kf) && final(self).back_buffered() == old(self).back_buffered().skip(kb) && final(self).remaining()
                    == old(self).remaining().skip(kf).take(old(self).remaining().len() - kf - kb)
            }),
    {
        let ghost rem0 = self.remaining();
        self.drain_front_peeked(front_until);
        self.drain_back_peeked(back_until);
        proof {
            let kf = if front_until <= old(self).front_buffered().len() {
                front_until as int
            } else {
                old(self).front_buffered().len() as int
            };
            let kb = if back_until <= old(self).back_buffered().len() {
                back_until as int
            } else {
                old(self).back_buffered().len() as int
            };
            assert(self.remaining() =~= rem0.skip(kf).take(rem0.len() - kf - kb));
        }
    }

    /// Hands back the wrapped source, discarding both peek regions: what
    /// was peeked at either end is lost.
    pub fn into_peekable_lossy(self) -> (r: S)
        ensures
            r.remaining() == self.source_remaining(),
    {
        self.iter
    }

    /// Wraps the source of a lightweight double-ended peekable,
    /// discarding nothing: its peeked state stays inside the wrapped
    /// value.
    pub fn from_peekable_lossy<S2: DoubleEndedSource<T>>(value: PeekableDE<T, S2>) -> (r:
        SizedPeekDN<T, PeekableDE<T, S2>, F, B>)
        ensures
            r.remaining() == value.remaining(),
    {
        SizedPeekDN::new(value)
    }
}

impl<T: Copy, S: DoubleEndedSource<T>, const F: usize, const B: usize> ForwardSource<T> for SizedPeekDN<T, S, F, B> {
    /// The front region comes first and the reversed back region last —
    /// its first element is the logical last — with the source's remaining
    /// elements between them.
    open spec fn remaining(&self) -> Seq<T> {
        self.front_buffered() + self.source_remaining() + self.back_buffered().reverse()
    }

    fn next_item(&mut self) -> (r: Option<T>) {
        self.next()
    }

    fn remaining_len(&self) -> (n: usize) {
        self.len()
    }
}

impl<T: Copy, S: DoubleEndedSource<T>, const F: usize, const B: usize> DoubleEndedSource<T> for SizedPeekDN<T, S, F, B> {
    fn next_back_item(&mut self) -> (r: Option<T>) {
        self.next_back()
    }
}

/// Wraps a double-ended source in a `SizedPeekDN` with front capacity `F`
/// and back capacity `B`.
pub fn sizedpeekdn<T: Copy, S: DoubleEndedSource<T>, const F: usize, const B: usize>(iter: S) -> (r:
    SizedPeekDN<T, S, F, B>)
    ensures
        r.remaining() == iter.remaining(),
        r.front_buffered() == Seq::<T>::empty(),
        r.back_buffered() == Seq::<T>::empty(),
{
    SizedPeekDN::new(iter)
}

} // verus!
