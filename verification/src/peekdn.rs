//! Double-ended peeking at arbitrary depth over growable buffers.
//!
//! `PeekDN` wraps a double-ended source and keeps two independent peek
//! regions: a front region holding elements peeked from the front, and a
//! back region holding elements peeked from the back (its first element is
//! the logical last). While the source still produces, the regions never
//! overlap; once it is exhausted the two regions jointly hold the whole
//! remaining sequence, and consumption from one end drains the far end of
//! the other region to keep order. A deep peek on one side may therefore
//! legitimately resolve into an element held by the other side's region.

use std::collections::VecDeque;

use vstd::prelude::*;
use vstd::std_specs::cmp::PartialEqSpec;

use crate::peekablede::PeekableDE;
use crate::peekn::PeekN;
use crate::peeksource::PeekSource;
use crate::predicate::decides;
use crate::ranges::{IndexRange, RangeEdge, get_start_end, overwritten, resolved_end, resolved_start};
use crate::source::{DoubleEndedSource, ForwardSource};

verus! {

/// An adapter over a double-ended source that buffers peeked elements at
/// both ends so any remaining element can be inspected from either end.
pub struct PeekDN<T, S: DoubleEndedSource<T>> {
    iter: S,
    front: VecDeque<T>,
    back: VecDeque<T>,
}

impl<T, S: DoubleEndedSource<T>> PeekDN<T, S> {
    /// The front region: elements peeked from the front, in consumption
    /// order.
    pub closed spec fn front_buffered(&self) -> Seq<T> {
        self.front@
    }

    /// The back region: elements peeked from the back, the logical last
    /// element first.
    pub closed spec fn back_buffered(&self) -> Seq<T> {
        self.back@
    }

    /// The elements the wrapped source has not yet produced.
    pub closed spec fn source_remaining(&self) -> Seq<T> {
        self.iter.remaining()
    }

    /// Wraps a source; nothing is peeked yet.
    pub fn new(iter: S) -> (r: PeekDN<T, S>)
        ensures
            r.remaining() == iter.remaining(),
            r.front_buffered() == Seq::<T>::empty(),
            r.back_buffered() == Seq::<T>::empty(),
    {
        let r = PeekDN { iter, front: VecDeque::new(), back: VecDeque::new() };
        proof {
            assert(r.remaining() =~= r.iter.remaining());
        }
        r
    }

    /// Wraps a source, pre-allocating space in each peek region.
    pub fn with_capacity(iter: S, front: usize, back: usize) -> (r: PeekDN<T, S>)
        ensures
            r.remaining() == iter.remaining(),
            r.front_buffered() == Seq::<T>::empty(),
            r.back_buffered() == Seq::<T>::empty(),
    {
        let r = PeekDN {
            iter,
            front: VecDeque::with_capacity(front),
            back: VecDeque::with_capacity(back),
        };
        proof {
            assert(r.remaining() =~= r.iter.remaining());
        }
        r
    }

    /// Wraps the source of a lightweight double-ended peekable,
    /// discarding nothing: its peeked state stays inside the wrapped
    /// value.
    pub fn from_peekable_lossy<S2: DoubleEndedSource<T>>(value: PeekableDE<T, S2>) -> (r: PeekDN<
        T,
        PeekableDE<T, S2>,
    >)
        ensures
            r.remaining() == value.remaining(),
            r.front_buffered() == Seq::<T>::empty(),
            r.back_buffered() == Seq::<T>::empty(),
    {
        PeekDN::new(value)
    }

    /// Rebuilds an adapter from a source and already-filled peek regions.
    pub(crate) fn from_parts(iter: S, front: VecDeque<T>, back: VecDeque<T>) -> (r: PeekDN<T, S>)
        ensures
            r.source_remaining() == iter.remaining(),
            r.front_buffered() == front@,
            r.back_buffered() == back@,
    {
        PeekDN { iter, front, back }
    }

    /// Turns this double-ended adapter back into a forward one over the
    /// same source. The front region carries over; the back region is
    /// discarded, since a forward adapter cannot represent lookbehind.
    pub fn into_peekn(self) -> (r: PeekN<T, S>)
        ensures
            r.remaining() == self.front_buffered() + self.source_remaining(),
            r.buffered() == self.front_buffered(),
            r.source_remaining() == self.source_remaining(),
    {
        let r = PeekN::from_parts(self.iter, self.front);
        proof {
            assert(r.remaining() =~= r.buffered() + r.source_remaining());
        }
        r
    }

    /// Pulls from the source's front until `want` elements sit in the
    /// front region, stopping early on exhaustion; reports whether the
    /// region reached `want`. The back region is never touched.
    fn fill_front(&mut self, want: usize) -> (ok: bool)
        ensures
            final(self).remaining() == old(self).remaining(),
            final(self).back_buffered() == old(self).back_buffered(),
            old(self).front_buffered().len() >= want ==> *final(self) == *old(self),
            final(self).front_buffered().len() >= old(self).front_buffered().len(),
            final(self).front_buffered() == old(self).remaining().take(
                final(self).front_buffered().len() as int,
            ),
            final(self).source_remaining() == old(self).source_remaining().skip(
                final(self).front_buffered().len() - old(self).front_buffered().len(),
            ),
            ok <==> final(self).front_buffered().len() >= want,
            !ok ==> final(self).source_remaining().len() == 0,
            final(self).front_buffered().len() == if old(self).front_buffered().len() >= want {
                old(self).front_buffered().len() as int
            } else if old(self).front_buffered().len() + old(self).source_remaining().len()
                >= want {
                want as int
            } else {
                old(self).front_buffered().len() + old(self).source_remaining().len() as int
            },
    {
        let ghost all = old(self).remaining();
        proof {
            assert(self.front_buffered() =~= all.take(self.front_buffered().len() as int));
        }
        if self.front.len() >= want {
            return true;
        }
        while self.front.len() < want
            invariant
                self.front_buffered() + self.source_remaining() + self.back_buffered().reverse()
                    == all,
                self.front_buffered() == all.take(self.front_buffered().len() as int),
                self.front_buffered().len() >= old(self).front_buffered().len(),
                self.front_buffered().len() <= want,
                self.source_remaining() == old(self).source_remaining().skip(
                    self.front_buffered().len() - old(self).front_buffered().len(),
                ),
                self.back_buffered() == old(self).back_buffered(),
                self.front_buffered().len() + self.source_remaining().len() == old(self).front_buffered().len() + old(self).source_remaining().len(),
                old(self).remaining() == all,
                old(self).front_buffered().len() < want,
                want <= usize::MAX,
            decreases want - self.front.len(),
        {
            match self.iter.next_item() {
                Some(item) => {
                    self.front.push_back(item);
                    proof {
                        assert(self.front_buffered() + self.source_remaining()
                            + self.back_buffered().reverse() =~= all);
                        assert(self.front_buffered() =~= all.take(
                            self.front_buffered().len() as int,
                        ));
                        assert(self.source_remaining() =~= old(self).source_remaining().skip(
                            self.front_buffered().len() - old(self).front_buffered().len(),
                        ));
                    }
                },
                None => {
                    return false;
                },
            }
        }
        true
    }

    /// Pulls from the source's back until `want` elements sit in the back
    /// region, stopping early on exhaustion; reports whether the region
    /// reached `want`. The front region is never touched.
    fn fill_back(&mut self, want: usize) -> (ok: bool)
        ensures
            final(self).remaining() == old(self).remaining(),
            final(self).front_buffered() == old(self).front_buffered(),
            old(self).back_buffered().len() >= want ==> *final(self) == *old(self),
            final(self).back_buffered().len() >= old(self).back_buffered().len(),
            final(self).back_buffered() == old(self).remaining().reverse().take(
                final(self).back_buffered().len() as int,
            ),
            final(self).source_remaining() == old(self).source_remaining().take(
                old(self).source_remaining().len() - (final(self).back_buffered().len() - old(
                    self,
                ).back_buffered().len()),
            ),
            ok <==> final(self).back_buffered().len() >= want,
            !ok ==> final(self).source_remaining().len() == 0,
            final(self).back_buffered().len() == if old(self).back_buffered().len() >= want {
                old(self).back_buffered().len() as int
            } else if old(self).back_buffered().len() + old(self).source_remaining().len()
                >= want {
                want as int
            } else {
                old(self).back_buffered().len() + old(self).source_remaining().len() as int
            },
    {
        let ghost all = old(self).remaining();
        proof {
            assert(self.back_buffered() =~= all.reverse().take(self.back_buffered().len() as int));
        }
        if self.back.len() >= want {
            return true;
        }
        while self.back.len() < want
            invariant
                self.front_buffered() + self.source_remaining() + self.back_buffered().reverse()
                    == all,
                self.back_buffered() == all.reverse().take(self.back_buffered().len() as int),
                self.back_buffered().len() >= old(self).back_buffered().len(),
                self.back_buffered().len() <= want,
                self.source_remaining() == old(self).source_remaining().take(
                    old(self).source_remaining().len() - (self.back_buffered().len() - old(
                        self,
                    ).back_buffered().len()),
                ),
                self.front_buffered() == old(self).front_buffered(),
                self.back_buffered().len() + self.source_remaining().len() == old(self).back_buffered().len() + old(self).source_remaining().len(),
                old(self).remaining() == all,
                old(self).back_buffered().len() < want,
                want <= usize::MAX,
            decreases want - self.back.len(),
        {
            match self.iter.next_back_item() {
                Some(item) => {
                    self.back.push_back(item);
                    proof {
                        assert(self.front_buffered() + self.source_remaining()
                            + self.back_buffered().reverse() =~= all);
                        assert(self.back_buffered() =~= all.reverse().take(
                            self.back_buffered().len() as int,
                        ));
                        assert(self.source_remaining() =~= old(self).source_remaining().take(
                            old(self).source_remaining().len() - (self.back_buffered().len()
                                - old(self).back_buffered().len()),
                        ));
                    }
                },
                None => {
                    return false;
                },
            }
        }
        true
    }

    /// Inspects the element `n` steps from the front (0 is the next
    /// element), filling the front region as needed. Once the source is
    /// exhausted, a depth that reaches past the front region resolves into
    /// the back region, which then holds the tail of the same remaining
    /// sequence.
    pub fn peek_front_nth(&mut self, n: usize) -> (r: Option<&T>)
        requires
            n < usize::MAX,
        ensures
            final(self).remaining() == old(self).remaining(),
            final(self).back_buffered() == old(self).back_buffered(),
            r is Some <==> n < old(self).remaining().len(),
            r matches Some(v) ==> *v == old(self).remaining()[n as int],
            n < old(self).front_buffered().len() ==> *final(self) == *old(self),
            final(self).front_buffered() == old(self).remaining().take(
                final(self).front_buffered().len() as int,
            ),
            final(self).front_buffered().len() >= old(self).front_buffered().len(),
            final(self).front_buffered().len() == if n < old(self).front_buffered().len() {
                old(self).front_buffered().len() as int
            } else if old(self).front_buffered().len() + old(self).source_remaining().len() >= n
                + 1 {
                n + 1
            } else {
                old(self).front_buffered().len() + old(self).source_remaining().len() as int
            },
            final(self).front_buffered().len() <= n ==> final(self).source_remaining().len() == 0,
            final(self).source_remaining() == old(self).source_remaining().skip(
                final(self).front_buffered().len() - old(self).front_buffered().len(),
            ),
    {
        if self.front.len() > n {
            proof {
                assert(self.front_buffered() =~= self.remaining().take(
                    self.front_buffered().len() as int,
                ));
            }
            return Some(&self.front[n]);
        }
        let got = self.fill_front(n + 1);
        if got {
            return Some(&self.front[n]);
        }
        let f = self.front.len();
        let b = self.back.len();
        let d = n - f;
        if d < b {
            proof {
                assert(old(self).remaining()[n as int] == self.back_buffered()[b - 1 - d]);
            }
            Some(&self.back[b - 1 - d])
        } else {
            None
        }
    }

    /// Inspects the element `n` steps from the back (0 is the last
    /// element), filling the back region as needed. Once the source is
    /// exhausted, a depth that reaches past the back region resolves into
    /// the front region.
    pub fn peek_back_nth(&mut self, n: usize) -> (r: Option<&T>)
        requires
            n < usize::MAX,
        ensures
            final(self).remaining() == old(self).remaining(),
            final(self).front_buffered() == old(self).front_buffered(),
            r is Some <==> n < old(self).remaining().len(),
            r matches Some(v) ==> *v == old(self).remaining()[old(self).remaining().len() - 1
                - n],
            n < old(self).back_buffered().len() ==> *final(self) == *old(self),
            final(self).back_buffered() == old(self).remaining().reverse().take(
                final(self).back_buffered().len() as int,
            ),
            final(self).back_buffered().len() >= old(self).back_buffered().len(),
            final(self).back_buffered().len() == if n < old(self).back_buffered().len() {
                old(self).back_buffered().len() as int
            } else if old(self).back_buffered().len() + old(self).source_remaining().len() >= n
                + 1 {
                n + 1
            } else {
                old(self).back_buffered().len() + old(self).source_remaining().len() as int
            },
            final(self).back_buffered().len() <= n ==> final(self).source_remaining().len() == 0,
            final(self).source_remaining() == old(self).source_remaining().take(
                old(self).source_remaining().len() - (final(self).back_buffered().len() - old(
                    self,
                ).back_buffered().len()),
            ),
    {
        if self.back.len() > n {
            proof {
                assert(self.back_buffered() =~= self.remaining().reverse().take(
                    self.back_buffered().len() as int,
                ));
            }
            return Some(&self.back[n]);
        }
        let got = self.fill_back(n + 1);
        if got {
            return Some(&self.back[n]);
        }
        let f = self.front.len();
        let b = self.back.len();
        let d = n - b;
        if d < f {
            proof {
                assert(old(self).remaining()[old(self).remaining().len() - 1 - n]
                    == self.front_buffered()[f - 1 - d]);
            }
            Some(&self.front[f - 1 - d])
        } else {
            None
        }
    }

    /// Inspects the next front element; the same as `peek_front_nth(0)`.
    pub fn peek_front(&mut self) -> (r: Option<&T>)
        ensures
            final(self).remaining() == old(self).remaining(),
            final(self).back_buffered() == old(self).back_buffered(),
            r is Some <==> old(self).remaining().len() > 0,
            r matches Some(v) ==> *v == old(self).remaining()[0],
            old(self).front_buffered().len() > 0 ==> *final(self) == *old(self),
            final(self).front_buffered().len() == if old(self).front_buffered().len() > 0 {
                old(self).front_buffered().len() as int
            } else if old(self).source_remaining().len() > 0 {
                1int
            } else {
                0int
            },
            final(self).source_remaining() == old(self).source_remaining().skip(
                final(self).front_buffered().len() - old(self).front_buffered().len(),
            ),
    {
        self.peek_front_nth(0)
    }

    /// Inspects the next back element; the same as `peek_back_nth(0)`.
    pub fn peek_back(&mut self) -> (r: Option<&T>)
        ensures
            final(self).remaining() == old(self).remaining(),
            final(self).front_buffered() == old(self).front_buffered(),
            r is Some <==> old(self).remaining().len() > 0,
            r matches Some(v) ==> *v == old(self).remaining().last(),
            old(self).back_buffered().len() > 0 ==> *final(self) == *old(self),
            final(self).back_buffered().len() == if old(self).back_buffered().len() > 0 {
                old(self).back_buffered().len() as int
            } else if old(self).source_remaining().len() > 0 {
                1int
            } else {
                0int
            },
            final(self).source_remaining() == old(self).source_remaining().take(
                old(self).source_remaining().len() - (final(self).back_buffered().len() - old(
                    self,
                ).back_buffered().len()),
            ),
    {
        self.peek_back_nth(0)
    }

    /// Overwrites the element `n` steps from the front, filling the front
    /// region as needed; reports whether such an element existed.
    pub fn peek_front_nth_mut(&mut self, n: usize, value: T) -> (r: bool)
        requires
            n < usize::MAX,
        ensures
            r == (n < old(self).remaining().len()),
            r ==> final(self).remaining() == old(self).remaining().update(n as int, value),
            !r ==> final(self).remaining() == old(self).remaining(),
    {
        let got = self.fill_front(n + 1);
        if got {
            let ghost before = self.front_buffered();
            let _ = self.front.remove(n);
            self.front.insert(n, value);
            proof {
                assert(self.front_buffered() =~= before.update(n as int, value));
                assert(self.remaining() =~= old(self).remaining().update(n as int, value));
            }
            true
        } else {
            let f = self.front.len();
            let b = self.back.len();
            let d = n - f;
            if d < b {
                let ghost before = self.back_buffered();
                let _ = self.back.remove(b - 1 - d);
                self.back.insert(b - 1 - d, value);
                proof {
                    assert(self.back_buffered() =~= before.update(b - 1 - d, value));
                    assert(self.remaining() =~= old(self).remaining().update(n as int, value));
                }
                true
            } else {
                false
            }
        }
    }

    /// Overwrites the element `n` steps from the back, filling the back
    /// region as needed; reports whether such an element existed.
    pub fn peek_back_nth_mut(&mut self, n: usize, value: T) -> (r: bool)
        requires
            n < usize::MAX,
        ensures
            r == (n < old(self).remaining().len()),
            r ==> final(self).remaining() == old(self).remaining().update(
                old(self).remaining().len() - 1 - n,
                value,
            ),
            !r ==> final(self).remaining() == old(self).remaining(),
    {
        let got = self.fill_back(n + 1);
        if got {
            let ghost before = self.back_buffered();
            let _ = self.back.remove(n);
            self.back.insert(n, value);
            proof {
                assert(self.back_buffered() =~= before.update(n as int, value));
                assert(self.remaining() =~= old(self).remaining().update(
                    old(self).remaining().len() - 1 - n,
                    value,
                ));
            }
            true
        } else {
            let f = self.front.len();
            let b = self.back.len();
            let d = n - b;
            if d < f {
                let ghost before = self.front_buffered();
                let _ = self.front.remove(f - 1 - d);
                self.front.insert(f - 1 - d, value);
                proof {
                    assert(self.front_buffered() =~= before.update(f - 1 - d, value));
                    assert(self.remaining() =~= old(self).remaining().update(
                        old(self).remaining().len() - 1 - n,
                        value,
                    ));
                }
                true
            } else {
                false
            }
        }
    }

    /// Overwrites the next front element; the same as
    /// `peek_front_nth_mut(0, value)`.
    pub fn peek_front_mut(&mut self, value: T) -> (r: bool)
        ensures
            r == (old(self).remaining().len() > 0),
            r ==> final(self).remaining() == old(self).remaining().update(0, value),
            !r ==> final(self).remaining() == old(self).remaining(),
    {
        self.peek_front_nth_mut(0, value)
    }

    /// Overwrites the next back element; the same as
    /// `peek_back_nth_mut(0, value)`.
    pub fn peek_back_mut(&mut self, value: T) -> (r: bool)
        ensures
            r == (old(self).remaining().len() > 0),
            r ==> final(self).remaining() == old(self).remaining().update(
                old(self).remaining().len() - 1,
                value,
            ),
            !r ==> final(self).remaining() == old(self).remaining(),
    {
        self.peek_back_nth_mut(0, value)
    }

    /// Consumes and returns the next front element: the front region
    /// first, then the source, then — once both are exhausted — the far
    /// end of the back region, which keeps order once both regions draw
    /// down toward the middle.
    pub fn next(&mut self) -> (r: Option<T>)
        ensures
            old(self).remaining().len() == 0 ==> r is None && final(self).remaining() == old(self).remaining(),
            old(self).remaining().len() > 0 ==> r == Some(old(self).remaining()[0]) && final(self).remaining() == old(self).remaining().drop_first(),
    {
        match self.next_with_source() {
            Some(tagged) => Some(tagged.into_item()),
            None => None,
        }
    }

    /// Consumes and returns the next back element: the back region first,
    /// then the source, then the far end of the front region.
    pub fn next_back(&mut self) -> (r: Option<T>)
        ensures
            old(self).remaining().len() == 0 ==> r is None && final(self).remaining() == old(self).remaining(),
            old(self).remaining().len() > 0 ==> r == Some(old(self).remaining().last()) && final(self).remaining() == old(self).remaining().drop_last(),
    {
        match self.next_back_with_source() {
            Some(tagged) => Some(tagged.into_item()),
            None => None,
        }
    }

    /// Consumes the next front element with its origin tag.
    fn next_with_source(&mut self) -> (r: Option<PeekSource<T>>)
        ensures
            r is Some <==> old(self).remaining().len() > 0,
            r is None ==> final(self).remaining() == old(self).remaining() && final(self).front_buffered() == old(self).front_buffered() && final(self).back_buffered() == old(self).back_buffered(),
            r matches Some(ps) ==> ps.item() == old(self).remaining()[0] && final(self).remaining()
                == old(self).remaining().drop_first(),
            r matches Some(ps) && ps is Front ==> old(self).front_buffered().len() > 0 && final(self).front_buffered() == old(self).front_buffered().drop_first() && final(self).back_buffered() == old(self).back_buffered() && final(self).source_remaining() == old(self).source_remaining(),
            r matches Some(ps) && ps is Iter ==> old(self).front_buffered().len() == 0 && final(self).front_buffered().len() == 0 && final(self).back_buffered() == old(self).back_buffered(),
            r matches Some(ps) && ps is Back ==> old(self).front_buffered().len() == 0 && final(self).front_buffered().len() == 0 && old(self).source_remaining().len() == 0 && final(self).source_remaining().len() == 0 && final(self).back_buffered() == old(self).back_buffered().drop_last(),
    {
        let popped = self.front.pop_front();
        match popped {
            Some(item) => {
                proof {
                    assert(self.remaining() =~= old(self).remaining().drop_first());
                }
                Some(PeekSource::Front(item))
            },
            None => {
                match self.iter.next_item() {
                    Some(item) => {
                        proof {
                            assert(self.remaining() =~= old(self).remaining().drop_first());
                        }
                        Some(PeekSource::Iter(item))
                    },
                    None => {
                        let popped_back = self.back.pop_back();
                        match popped_back {
                            Some(item) => {
                                proof {
                                    assert(old(self).remaining()[0] == old(self).back_buffered().last());
                                    assert(self.remaining() =~= old(self).remaining().drop_first());
                                }
                                Some(PeekSource::Back(item))
                            },
                            None => {
                                proof {
                                    assert(self.remaining() =~= old(self).remaining());
                                }
                                None
                            },
                        }
                    },
                }
            },
        }
    }

    /// Restores a rejected front-side element to where it came from.
    fn cache_front(&mut self, item: PeekSource<T>)
        ensures
            item is Front ==> final(self).front_buffered() == seq![item.item()] + old(self).front_buffered() && final(self).back_buffered() == old(self).back_buffered(),
            item is Iter ==> final(self).front_buffered() == old(self).front_buffered().push(
                item.item(),
            ) && final(self).back_buffered() == old(self).back_buffered(),
            item is Back ==> final(self).back_buffered() == old(self).back_buffered().push(
                item.item(),
            ) && final(self).front_buffered() == old(self).front_buffered(),
            final(self).source_remaining() == old(self).source_remaining(),
    {
        match item {
            PeekSource::Front(v) => {
                self.front.push_front(v);
            },
            PeekSource::Iter(v) => {
                self.front.push_back(v);
            },
            PeekSource::Back(v) => {
                self.back.push_back(v);
            },
        }
    }

    /// Consumes the next back element with its origin tag.
    fn next_back_with_source(&mut self) -> (r: Option<PeekSource<T>>)
        ensures
            r is Some <==> old(self).remaining().len() > 0,
            r is None ==> final(self).remaining() == old(self).remaining() && final(self).front_buffered() == old(self).front_buffered() && final(self).back_buffered() == old(self).back_buffered(),
            r matches Some(ps) ==> ps.item() == old(self).remaining().last() && final(self).remaining() == old(self).remaining().drop_last(),
            r matches Some(ps) && ps is Back ==> old(self).back_buffered().len() > 0 && final(self).back_buffered() == old(self).back_buffered().drop_first() && final(self).front_buffered() == old(self).front_buffered() && final(self).source_remaining()
                == old(self).source_remaining(),
            r matches Some(ps) && ps is Iter ==> old(self).back_buffered().len() == 0 && final(self).back_buffered().len() == 0 && final(self).front_buffered() == old(self).front_buffered(),
            r matches Some(ps) && ps is Front ==> old(self).back_buffered().len() == 0 && final(self).back_buffered().len() == 0 && old(self).source_remaining().len() == 0 && final(self).source_remaining().len() == 0 && final(self).front_buffered() == old(self).front_buffered().drop_last(),
    {
        let popped = self.back.pop_front();
        match popped {
            Some(item) => {
                proof {
                    assert(old(self).remaining().last() == old(self).back_buffered()[0]);
                    assert(self.remaining() =~= old(self).remaining().drop_last());
                }
                Some(PeekSource::Back(item))
            },
            None => {
                match self.iter.next_back_item() {
                    Some(item) => {
                        proof {
                            assert(self.remaining() =~= old(self).remaining().drop_last());
                        }
                        Some(PeekSource::Iter(item))
                    },
                    None => {
                        let popped_front = self.front.pop_back();
                        match popped_front {
                            Some(item) => {
                                proof {
                                    assert(old(self).remaining().last() == old(self).front_buffered().last());
                                    assert(self.remaining() =~= old(self).remaining().drop_last());
                                }
                                Some(PeekSource::Front(item))
                            },
                            None => {
                                proof {
                                    assert(self.remaining() =~= old(self).remaining());
                                }
                                None
                            },
                        }
                    },
                }
            },
        }
    }

    /// Restores a rejected back-side element to where it came from.
    fn cache_back(&mut self, item: PeekSource<T>)
        ensures
            item is Back ==> final(self).back_buffered() == seq![item.item()] + old(self).back_buffered() && final(self).front_buffered() == old(self).front_buffered(),
            item is Iter ==> final(self).back_buffered() == old(self).back_buffered().push(
                item.item(),
            ) && final(self).front_buffered() == old(self).front_buffered(),
            item is Front ==> final(self).front_buffered() == old(self).front_buffered().push(
                item.item(),
            ) && final(self).back_buffered() == old(self).back_buffered(),
            final(self).source_remaining() == old(self).source_remaining(),
    {
        match item {
            PeekSource::Front(v) => {
                self.front.push_back(v);
            },
            PeekSource::Iter(v) => {
                self.back.push_back(v);
            },
            PeekSource::Back(v) => {
                self.back.push_front(v);
            },
        }
    }

    /// Consumes and returns the next front element only if the predicate
    /// accepts it; a rejected element is restored to the structurally
    /// correct region, so the remaining sequence is exactly what it was
    /// before the call.
    pub fn next_if<F: FnOnce(&T) -> bool>(&mut self, func: F) -> (r: Option<T>)
        requires
            forall|x: &T| #[trigger] call_requires(func, (x,)),
        ensures
            old(self).remaining().len() == 0 ==> r is None,
            r matches Some(v) ==> old(self).remaining().len() > 0 && v == old(self).remaining()[0]
                && final(self).remaining() == old(self).remaining().drop_first(),
            r is None ==> final(self).remaining() == old(self).remaining(),
            r is None && old(self).front_buffered().len() > 0 ==> final(self).front_buffered()
                == old(self).front_buffered() && final(self).back_buffered() == old(
                self,
            ).back_buffered(),
            r is None && old(self).front_buffered().len() == 0 && old(
                self,
            ).source_remaining().len() > 0 ==> final(self).front_buffered() == seq![
                old(self).remaining()[0],
            ] && final(self).back_buffered() == old(self).back_buffered(),
            r is None && old(self).front_buffered().len() == 0 && old(
                self,
            ).source_remaining().len() == 0 ==> final(self).front_buffered() == old(
                self,
            ).front_buffered() && final(self).back_buffered() == old(self).back_buffered(),
            r matches Some(v) ==> decides(func, v, true),
            r is None && old(self).remaining().len() > 0 ==> decides(
                func,
                old(self).remaining()[0],
                false,
            ),
    {
        match self.next_with_source() {
            Some(tagged) => {
                let accepted = {
                    let item_ref = tagged.as_ref();
                    let verdict = func(item_ref);
                    proof {
                        assert(decides(func, tagged.item(), verdict)) by {
                            assert(*item_ref == tagged.item() && call_ensures(
                                func,
                                (item_ref,),
                                verdict,
                            ));
                        }
                    }
                    verdict
                };
                if accepted {
                    Some(tagged.into_item())
                } else {
                    let ghost rem0 = old(self).remaining();
                    let ghost tag = tagged;
                    self.cache_front(tagged);
                    proof {
                        if tag is Back {
                            assert(self.remaining() =~= rem0);
                        } else {
                            assert(self.remaining() =~= seq![tag.item()] + rem0.drop_first());
                            assert(seq![tag.item()] + rem0.drop_first() =~= rem0);
                        }
                        if tag is Front {
                            assert(self.front_buffered() =~= old(self).front_buffered());
                        }
                        if tag is Iter {
                            assert(self.front_buffered() =~= seq![old(self).remaining()[0]]);
                        }
                        if tag is Back {
                            assert(self.back_buffered() =~= old(self).back_buffered());
                        }
                    }
                    None
                }
            },
            None => None,
        }
    }

    /// Consumes and returns the next back element only if the predicate
    /// accepts it; a rejected element is restored to the structurally
    /// correct region.
    pub fn next_back_if<F: FnOnce(&T) -> bool>(&mut self, func: F) -> (r: Option<T>)
        requires
            forall|x: &T| #[trigger] call_requires(func, (x,)),
        ensures
            old(self).remaining().len() == 0 ==> r is None,
            r matches Some(v) ==> old(self).remaining().len() > 0 && v == old(self).remaining().last() && final(self).remaining() == old(self).remaining().drop_last(),
            r is None ==> final(self).remaining() == old(self).remaining(),
            r is None && old(self).back_buffered().len() > 0 ==> final(self).back_buffered()
                == old(self).back_buffered() && final(self).front_buffered() == old(
                self,
            ).front_buffered(),
            r is None && old(self).back_buffered().len() == 0 && old(
                self,
            ).source_remaining().len() > 0 ==> final(self).back_buffered() == seq![
                old(self).remaining().last(),
            ] && final(self).front_buffered() == old(self).front_buffered(),
            r is None && old(self).back_buffered().len() == 0 && old(
                self,
            ).source_remaining().len() == 0 ==> final(self).back_buffered() == old(
                self,
            ).back_buffered() && final(self).front_buffered() == old(self).front_buffered(),
            r matches Some(v) ==> decides(func, v, true),
            r is None && old(self).remaining().len() > 0 ==> decides(
                func,
                old(self).remaining().last(),
                false,
            ),
    {
        match self.next_back_with_source() {
            Some(tagged) => {
                let accepted = {
                    let item_ref = tagged.as_ref();
                    let verdict = func(item_ref);
                    proof {
                        assert(decides(func, tagged.item(), verdict)) by {
                            assert(*item_ref == tagged.item() && call_ensures(
                                func,
                                (item_ref,),
                                verdict,
                            ));
                        }
                    }
                    verdict
                };
                if accepted {
                    Some(tagged.into_item())
                } else {
                    let ghost rem0 = old(self).remaining();
                    let ghost tag = tagged;
                    self.cache_back(tagged);
                    proof {
                        if tag is Front {
                            assert(self.remaining() =~= rem0);
                        } else {
                            assert(self.remaining() =~= rem0.drop_last() + seq![tag.item()]);
                            assert(rem0.drop_last() + seq![tag.item()] =~= rem0);
                        }
                        if tag is Back {
                            assert(self.back_buffered() =~= old(self).back_buffered());
                        }
                        if tag is Iter {
                            assert(self.back_buffered() =~= seq![old(self).remaining().last()]);
                        }
                        if tag is Front {
                            assert(self.front_buffered() =~= old(self).front_buffered());
                        }
                    }
                    None
                }
            },
            None => None,
        }
    }

    /// Consumes and returns the next front element only if it equals
    /// `expected`; a rejected element is restored to the correct region.
    pub fn next_if_eq(&mut self, expected: &T) -> (r: Option<T>) where T: PartialEqSpec
        ensures
            old(self).remaining().len() == 0 ==> r is None,
            r matches Some(v) ==> old(self).remaining().len() > 0 && v == old(self).remaining()[0]
                && final(self).remaining() == old(self).remaining().drop_first(),
            r is None ==> final(self).remaining() == old(self).remaining(),
            r is None && old(self).front_buffered().len() > 0 ==> final(self).front_buffered()
                == old(self).front_buffered() && final(self).back_buffered() == old(
                self,
            ).back_buffered(),
            r is None && old(self).front_buffered().len() == 0 && old(
                self,
            ).source_remaining().len() > 0 ==> final(self).front_buffered() == seq![
                old(self).remaining()[0],
            ] && final(self).back_buffered() == old(self).back_buffered(),
            r is None && old(self).front_buffered().len() == 0 && old(
                self,
            ).source_remaining().len() == 0 ==> final(self).front_buffered() == old(
                self,
            ).front_buffered() && final(self).back_buffered() == old(self).back_buffered(),
            T::obeys_eq_spec() ==> (r is Some <==> old(self).remaining().len() > 0 && old(self).remaining()[0].eq_spec(expected)),
    {
        match self.next_with_source() {
            Some(tagged) => {
                let accepted = tagged.as_ref().eq(expected);
                if accepted {
                    Some(tagged.into_item())
                } else {
                    let ghost rem0 = old(self).remaining();
                    let ghost tag = tagged;
                    self.cache_front(tagged);
                    proof {
                        if tag is Back {
                            assert(self.remaining() =~= rem0);
                        } else {
                            assert(self.remaining() =~= seq![tag.item()] + rem0.drop_first());
                            assert(seq![tag.item()] + rem0.drop_first() =~= rem0);
                        }
                        if tag is Front {
                            assert(self.front_buffered() =~= old(self).front_buffered());
                        }
                        if tag is Iter {
                            assert(self.front_buffered() =~= seq![old(self).remaining()[0]]);
                        }
                        if tag is Back {
                            assert(self.back_buffered() =~= old(self).back_buffered());
                        }
                    }
                    None
                }
            },
            None => None,
        }
    }

    /// Consumes and returns the next back element only if it equals
    /// `expected`; a rejected element is restored to the correct region.
    pub fn next_back_if_eq(&mut self, expected: &T) -> (r: Option<T>) where T: PartialEqSpec
        ensures
            old(self).remaining().len() == 0 ==> r is None,
            r matches Some(v) ==> old(self).remaining().len() > 0 && v == old(self).remaining().last() && final(self).remaining() == old(self).remaining().drop_last(),
            r is None ==> final(self).remaining() == old(self).remaining(),
            r is None && old(self).back_buffered().len() > 0 ==> final(self).back_buffered()
                == old(self).back_buffered() && final(self).front_buffered() == old(
                self,
            ).front_buffered(),
            r is None && old(self).back_buffered().len() == 0 && old(
                self,
            ).source_remaining().len() > 0 ==> final(self).back_buffered() == seq![
                old(self).remaining().last(),
            ] && final(self).front_buffered() == old(self).front_buffered(),
            r is None && old(self).back_buffered().len() == 0 && old(
                self,
            ).source_remaining().len() == 0 ==> final(self).back_buffered() == old(
                self,
            ).back_buffered() && final(self).front_buffered() == old(self).front_buffered(),
            T::obeys_eq_spec() ==> (r is Some <==> old(self).remaining().len() > 0 && old(self).remaining().last().eq_spec(expected)),
    {
        match self.next_back_with_source() {
            Some(tagged) => {
                let accepted = tagged.as_ref().eq(expected);
                if accepted {
                    Some(tagged.into_item())
                } else {
                    let ghost rem0 = old(self).remaining();
                    let ghost tag = tagged;
                    self.cache_back(tagged);
                    proof {
                        if tag is Front {
                            assert(self.remaining() =~= rem0);
                        } else {
                            assert(self.remaining() =~= rem0.drop_last() + seq![tag.item()]);
                            assert(rem0.drop_last() + seq![tag.item()] =~= rem0);
                        }
                        if tag is Back {
                            assert(self.back_buffered() =~= old(self).back_buffered());
                        }
                        if tag is Iter {
                            assert(self.back_buffered() =~= seq![old(self).remaining().last()]);
                        }
                        if tag is Front {
                            assert(self.front_buffered() =~= old(self).front_buffered());
                        }
                    }
                    None
                }
            },
            None => None,
        }
    }

    /// Consumes and returns the front elements that a run of `next_if`
    /// calls would accept, stopping at the first rejection or exhaustion.
    pub fn while_next_front<F: Fn(&T) -> bool>(&mut self, func: F) -> (r: Vec<T>)
        requires
            forall|x: &T| #[trigger] call_requires(func, (x,)),
        ensures
            r@.len() <= old(self).remaining().len(),
            r@ == old(self).remaining().take(r@.len() as int),
            final(self).remaining() == old(self).remaining().skip(r@.len() as int),
            forall|k: int| 0 <= k < r@.len() ==> decides(func, #[trigger] r@[k], true),
            r@.len() < old(self).remaining().len() ==> decides(
                func,
                old(self).remaining()[r@.len() as int],
                false,
            ),
    {
        let ghost all = old(self).remaining();
        let mut out: Vec<T> = Vec::new();
        let mut done = false;
        proof {
            assert(all.take(0) =~= out@);
            assert(all.skip(0) =~= all);
        }
        while !done
            invariant
                forall|x: &T| #[trigger] call_requires(func, (x,)),
                out@.len() <= all.len(),
                out@ == all.take(out@.len() as int),
                self.remaining() == all.skip(out@.len() as int),
                forall|k: int| 0 <= k < out@.len() ==> decides(func, #[trigger] out@[k], true),
                done ==> (out@.len() == all.len() || decides(func, all[out@.len() as int], false)),
            decreases all.len() - out@.len() + if done {
                0int
            } else {
                1int
            },
        {
            match self.next_if(&func) {
                Some(item) => {
                    out.push(item);
                    proof {
                        assert(out@ =~= all.take(out@.len() as int));
                    }
                },
                None => {
                    done = true;
                },
            }
        }
        out
    }

    /// Consumes and returns the back elements that a run of `next_back_if`
    /// calls would accept, stopping at the first rejection or exhaustion.
    pub fn while_next_back<F: Fn(&T) -> bool>(&mut self, func: F) -> (r: Vec<T>)
        requires
            forall|x: &T| #[trigger] call_requires(func, (x,)),
        ensures
            r@.len() <= old(self).remaining().len(),
            r@ == old(self).remaining().skip(old(self).remaining().len() - r@.len()).reverse(),
            final(self).remaining() == old(self).remaining().take(
                old(self).remaining().len() - r@.len(),
            ),
            forall|k: int| 0 <= k < r@.len() ==> decides(func, #[trigger] r@[k], true),
            r@.len() < old(self).remaining().len() ==> decides(
                func,
                old(self).remaining()[old(self).remaining().len() - r@.len() - 1],
                false,
            ),
    {
        let ghost all = old(self).remaining();
        let mut out: Vec<T> = Vec::new();
        let mut done = false;
        proof {
            assert(all.skip(all.len() as int).reverse() =~= out@);
            assert(all.take(all.len() as int) =~= all);
        }
        while !done
            invariant
                forall|x: &T| #[trigger] call_requires(func, (x,)),
                out@.len() <= all.len(),
                out@ == all.skip(all.len() - out@.len()).reverse(),
                self.remaining() == all.take(all.len() - out@.len()),
                forall|k: int| 0 <= k < out@.len() ==> decides(func, #[trigger] out@[k], true),
                done ==> (out@.len() == all.len() || decides(
                    func,
                    all[all.len() - out@.len() - 1],
                    false,
                )),
            decreases all.len() - out@.len() + if done {
                0int
            } else {
                1int
            },
        {
            match self.next_back_if(&func) {
                Some(item) => {
                    out.push(item);
                    proof {
                        assert(out@ =~= all.skip(all.len() - out@.len()).reverse());
                    }
                },
                None => {
                    done = true;
                },
            }
        }
        out
    }

    /// Counts how many consecutive front elements satisfy the predicate,
    /// peeking but never consuming; stops at the first element the
    /// predicate rejects or at exhaustion.
    pub fn while_peek_front<F: Fn(&T) -> bool>(&mut self, func: F) -> (r: usize)
        requires
            forall|x: &T| #[trigger] call_requires(func, (x,)),
            old(self).remaining().len() < usize::MAX,
        ensures
            final(self).remaining() == old(self).remaining(),
            r <= old(self).remaining().len(),
            forall|k: int|
                0 <= k < r ==> decides(func, #[trigger] old(self).remaining()[k], true),
            r < old(self).remaining().len() ==> decides(
                func,
                old(self).remaining()[r as int],
                false,
            ),
    {
        let ghost all = old(self).remaining();
        let mut count: usize = 0;
        let mut done = false;
        while !done
            invariant
                forall|x: &T| #[trigger] call_requires(func, (x,)),
                count <= all.len() < usize::MAX,
                self.remaining() == all,
                forall|k: int| 0 <= k < count ==> decides(func, #[trigger] all[k], true),
                done ==> (count == all.len() || decides(func, all[count as int], false)),
            decreases all.len() - count + if done {
                0int
            } else {
                1int
            },
        {
            match self.peek_front_nth(count) {
                Some(item) => {
                    let accepted = func(item);
                    proof {
                        assert(decides(func, all[count as int], accepted)) by {
                            assert(*item == all[count as int] && call_ensures(
                                func,
                                (item,),
                                accepted,
                            ));
                        }
                    }
                    if accepted {
                        count = count + 1;
                    } else {
                        done = true;
                    }
                },
                None => {
                    done = true;
                },
            }
        }
        count
    }

    /// Counts how many consecutive back elements satisfy the predicate,
    /// peeking but never consuming; stops at the first element the
    /// predicate rejects or at exhaustion.
    pub fn while_peek_back<F: Fn(&T) -> bool>(&mut self, func: F) -> (r: usize)
        requires
            forall|x: &T| #[trigger] call_requires(func, (x,)),
            old(self).remaining().len() < usize::MAX,
        ensures
            final(self).remaining() == old(self).remaining(),
            r <= old(self).remaining().len(),
            forall|k: int|
                0 <= k < r ==> decides(
                    func,
                    #[trigger] old(self).remaining()[old(self).remaining().len() - 1 - k],
                    true,
                ),
            r < old(self).remaining().len() ==> decides(
                func,
                old(self).remaining()[old(self).remaining().len() - 1 - r],
                false,
            ),
    {
        let ghost all = old(self).remaining();
        let mut count: usize = 0;
        let mut done = false;
        while !done
            invariant
                forall|x: &T| #[trigger] call_requires(func, (x,)),
                count <= all.len() < usize::MAX,
                self.remaining() == all,
                forall|k: int|
                    0 <= k < count ==> decides(func, #[trigger] all[all.len() - 1 - k], true),
                done ==> (count == all.len() || decides(func, all[all.len() - 1 - count], false)),
            decreases all.len() - count + if done {
                0int
            } else {
                1int
            },
        {
            match self.peek_back_nth(count) {
                Some(item) => {
                    let accepted = func(item);
                    proof {
                        assert(decides(func, all[all.len() - 1 - count], accepted)) by {
                            assert(*item == all[all.len() - 1 - count] && call_ensures(
                                func,
                                (item,),
                                accepted,
                            ));
                        }
                    }
                    if accepted {
                        count = count + 1;
                    } else {
                        done = true;
                    }
                },
                None => {
                    done = true;
                },
            }
        }
        count
    }

    /// The total number of elements left, both peek regions included.
    pub fn len(&self) -> (r: usize)
        requires
            self.remaining().len() <= usize::MAX,
        ensures
            r == self.remaining().len(),
    {
        self.front.len() + self.iter.remaining_len() + self.back.len()
    }

    /// Inspects the elements at logical front indices `[start, end)`,
    /// filling the front region as needed; once the source is exhausted
    /// the view continues into the back region in logical order. The
    /// result is truncated to what could still be reached. An empty or
    /// inverted range yields nothing.
    pub fn peek_front_range(&mut self, range: IndexRange) -> (r: Vec<T>) where T: Copy
        requires
            old(self).remaining().len() <= usize::MAX,
            range.start matches RangeEdge::Excluded(n) ==> n < usize::MAX,
            range.end matches RangeEdge::Included(n) ==> n < usize::MAX,
        ensures
            final(self).remaining() == old(self).remaining(),
            ({
                let s = resolved_start(range.start);
                let e = resolved_end(range.end, old(self).remaining().len() as int);
                let e2 = if e <= old(self).remaining().len() {
                    e
                } else {
                    old(self).remaining().len() as int
                };
                r@ == if s < e2 {
                    old(self).remaining().subrange(s, e2)
                } else {
                    Seq::<T>::empty()
                }
            }),
            ({
                let s = resolved_start(range.start);
                let e = resolved_end(range.end, old(self).remaining().len() as int);
                let e2 = if e <= old(self).remaining().len() {
                    e
                } else {
                    old(self).remaining().len() as int
                };
                if s < e2 {
                    final(self).back_buffered() == old(self).back_buffered() && final(self).front_buffered().len() == if old(self).front_buffered().len() >= e2 {
                        old(self).front_buffered().len() as int
                    } else if old(self).front_buffered().len() + old(self).source_remaining().len() >= e2 {
                        e2
                    } else {
                        old(self).front_buffered().len() + old(self).source_remaining().len()
                            as int
                    }
                } else {
                    *final(self) == *old(self)
                }
            }),
    {
        let ghost all = old(self).remaining();
        let total = self.len();
        let (start, end) = get_start_end(range, total);
        if start >= end {
            let out: Vec<T> = Vec::new();
            proof {
                assert(out@ =~= Seq::<T>::empty());
            }
            return out;
        }
        let end2 = if end <= total {
            end
        } else {
            total
        };
        if start >= end2 {
            let out: Vec<T> = Vec::new();
            proof {
                assert(out@ =~= Seq::<T>::empty());
            }
            return out;
        }
        let mut out: Vec<T> = Vec::new();
        let mut j = start;
        while j < end2
            invariant
                start <= j,
                j <= end2 || j == start,
                end2 <= all.len() <= usize::MAX,
                self.remaining() == all,
                self.back_buffered() == old(self).back_buffered(),
                self.front_buffered().len() + self.source_remaining().len() == old(self).front_buffered().len() + old(self).source_remaining().len(),
                j == start ==> self.front_buffered().len() == old(self).front_buffered().len(),
                j > start ==> self.front_buffered().len() == (if old(self).front_buffered().len() >= j {
                    old(self).front_buffered().len() as int
                } else if old(self).front_buffered().len() + old(self).source_remaining().len()
                    >= j {
                    j as int
                } else {
                    old(self).front_buffered().len() + old(self).source_remaining().len() as int
                }),
                out@.len() == j - start,
                forall|k: int| 0 <= k < out@.len() ==> out@[k] == all[start + k],
            decreases end2 - j,
        {
            let item = match self.peek_front_nth(j) {
                Some(v) => *v,
                None => {
                    proof {
                        assert(false);
                    }
                    return out;
                },
            };
            out.push(item);
            j = j + 1;
        }
        proof {
            let s = resolved_start(range.start);
            let e = resolved_end(range.end, all.len() as int);
            let e2 = if e <= all.len() {
                e
            } else {
                all.len() as int
            };
            if s < e2 {
                assert(out@ =~= all.subrange(s, e2));
            } else {
                assert(out@ =~= Seq::<T>::empty());
            }
        }
        out
    }

    /// Inspects the elements at logical back indices `[start, end)` — 0 is
    /// the last element — filling the back region as needed; once the
    /// source is exhausted the view continues into the front region. The
    /// result is truncated to what could still be reached. An empty or
    /// inverted range yields nothing.
    pub fn peek_back_range(&mut self, range: IndexRange) -> (r: Vec<T>) where T: Copy
        requires
            old(self).remaining().len() <= usize::MAX,
            range.start matches RangeEdge::Excluded(n) ==> n < usize::MAX,
            range.end matches RangeEdge::Included(n) ==> n < usize::MAX,
        ensures
            final(self).remaining() == old(self).remaining(),
            ({
                let s = resolved_start(range.start);
                let e = resolved_end(range.end, old(self).remaining().len() as int);
                let e2 = if e <= old(self).remaining().len() {
                    e
                } else {
                    old(self).remaining().len() as int
                };
                r@ == if s < e2 {
                    old(self).remaining().reverse().subrange(s, e2)
                } else {
                    Seq::<T>::empty()
                }
            }),
            ({
                let s = resolved_start(range.start);
                let e = resolved_end(range.end, old(self).remaining().len() as int);
                let e2 = if e <= old(self).remaining().len() {
                    e
                } else {
                    old(self).remaining().len() as int
                };
                if s < e2 {
                    final(self).front_buffered() == old(self).front_buffered() && final(self).back_buffered().len() == if old(self).back_buffered().len() >= e2 {
                        old(self).back_buffered().len() as int
                    } else if old(self).back_buffered().len() + old(self).source_remaining().len() >= e2 {
                        e2
                    } else {
                        old(self).back_buffered().len() + old(self).source_remaining().len()
                            as int
                    }
                } else {
                    *final(self) == *old(self)
                }
            }),
    {
        let ghost all = old(self).remaining();
        let total = self.len();
        let (start, end) = get_start_end(range, total);
        if start >= end {
            let out: Vec<T> = Vec::new();
            proof {
                assert(out@ =~= Seq::<T>::empty());
            }
            return out;
        }
        let end2 = if end <= total {
            end
        } else {
            total
        };
        if start >= end2 {
            let out: Vec<T> = Vec::new();
            proof {
                assert(out@ =~= Seq::<T>::empty());
            }
            return out;
        }
        let mut out: Vec<T> = Vec::new();
        let mut j = start;
        while j < end2
            invariant
                start <= j,
                j <= end2 || j == start,
                end2 <= all.len() <= usize::MAX,
                self.remaining() == all,
                self.front_buffered() == old(self).front_buffered(),
                self.back_buffered().len() + self.source_remaining().len() == old(self).back_buffered().len() + old(self).source_remaining().len(),
                j == start ==> self.back_buffered().len() == old(self).back_buffered().len(),
                j > start ==> self.back_buffered().len() == (if old(self).back_buffered().len() >= j {
                    old(self).back_buffered().len() as int
                } else if old(self).back_buffered().len() + old(self).source_remaining().len()
                    >= j {
                    j as int
                } else {
                    old(self).back_buffered().len() + old(self).source_remaining().len() as int
                }),
                out@.len() == j - start,
                forall|k: int| 0 <= k < out@.len() ==> out@[k] == all[all.len() - 1 - (start + k)],
            decreases end2 - j,
        {
            let item = match self.peek_back_nth(j) {
                Some(v) => *v,
                None => {
                    proof {
                        assert(false);
                    }
                    return out;
                },
            };
            out.push(item);
            j = j + 1;
        }
        proof {
            let s = resolved_start(range.start);
            let e = resolved_end(range.end, all.len() as int);
            let e2 = if e <= all.len() {
                e
            } else {
                all.len() as int
            };
            if s < e2 {
                assert(out@ =~= all.reverse().subrange(s, e2));
            } else {
                assert(out@ =~= Seq::<T>::empty());
            }
        }
        out
    }

    /// Overwrites the elements at logical front indices `[start, end)`
    /// with the given values, filling the front region as needed — past
    /// source exhaustion the overwrite resolves into the back region, as
    /// `peek_front_nth_mut` does; overwriting stops at
    /// the end of the range, of the values, or of what the source could
    /// still provide, whichever comes first. Returns how many elements
    /// were overwritten. An empty or inverted range overwrites nothing.
    #[verifier::rlimit(50)]
    pub fn peek_front_range_mut(&mut self, range: IndexRange, values: &Vec<T>) -> (r: usize) where
        T: Copy

        requires
            old(self).remaining().len() <= usize::MAX,
            range.start matches RangeEdge::Excluded(n) ==> n < usize::MAX,
            range.end matches RangeEdge::Included(n) ==> n < usize::MAX,
        ensures
            ({
                let s = resolved_start(range.start);
                let e = resolved_end(range.end, old(self).remaining().len() as int);
                let e2 = if e <= old(self).remaining().len() {
                    e
                } else {
                    old(self).remaining().len() as int
                };
                let span = if s < e2 {
                    e2 - s
                } else {
                    0
                };
                r == if span <= values@.len() {
                    span
                } else {
                    values@.len() as int
                } && final(self).remaining() == overwritten(
                    old(self).remaining(),
                    s,
                    values@.take(r as int),
                )
            }),
    {
        let ghost all = old(self).remaining();
        let total = self.len();
        let (start, end) = get_start_end(range, total);
        let end2 = if end <= total {
            end
        } else {
            total
        };
        let span = if start < end2 {
            end2 - start
        } else {
            0
        };
        let count = if span <= values.len() {
            span
        } else {
            values.len()
        };
        let mut i: usize = 0;
        proof {
            assert(self.remaining() =~= overwritten(all, start as int, values@.take(0)));
        }
        while i < count
            invariant
                i <= count,
                count == 0 || start + count <= all.len(),
                all.len() <= usize::MAX,
                count <= values@.len(),
                self.remaining() == overwritten(all, start as int, values@.take(i as int)),
            decreases count - i,
        {
            let _ = self.peek_front_nth_mut(start + i, values[i]);
            proof {
                assert(self.remaining() =~= overwritten(
                    all,
                    start as int,
                    values@.take(i + 1 as int),
                ));
            }
            i = i + 1;
        }
        count
    }

    /// Overwrites the elements at logical back indices `[start, end)` —
    /// 0 is the last element — with the given values, filling the back
    /// region as needed; past source exhaustion the overwrite resolves
    /// into the front region, as `peek_back_nth_mut` does. Overwriting
    /// stops at the end of the range, of the values, or of what could
    /// still be reached. Returns how many elements were overwritten.
    #[verifier::rlimit(50)]
    pub fn peek_back_range_mut(&mut self, range: IndexRange, values: &Vec<T>) -> (r: usize) where
        T: Copy

        requires
            old(self).remaining().len() <= usize::MAX,
            range.start matches RangeEdge::Excluded(n) ==> n < usize::MAX,
            range.end matches RangeEdge::Included(n) ==> n < usize::MAX,
        ensures
            ({
                let s = resolved_start(range.start);
                let e = resolved_end(range.end, old(self).remaining().len() as int);
                let e2 = if e <= old(self).remaining().len() {
                    e
                } else {
                    old(self).remaining().len() as int
                };
                let span = if s < e2 {
                    e2 - s
                } else {
                    0
                };
                r == if span <= values@.len() {
                    span
                } else {
                    values@.len() as int
                } && final(self).remaining() == overwritten(
                    old(self).remaining().reverse(),
                    s,
                    values@.take(r as int),
                ).reverse()
            }),
    {
        let ghost all = old(self).remaining();
        let total = self.len();
        let (start, end) = get_start_end(range, total);
        let end2 = if end <= total {
            end
        } else {
            total
        };
        let span = if start < end2 {
            end2 - start
        } else {
            0
        };
        let count = if span <= values.len() {
            span
        } else {
            values.len()
        };
        let mut i: usize = 0;
        proof {
            assert(self.remaining().reverse() =~= overwritten(
                all.reverse(),
                start as int,
                values@.take(0),
            ));
        }
        while i < count
            invariant
                i <= count,
                count == 0 || start + count <= all.len(),
                all.len() <= usize::MAX,
                count <= values@.len(),
                self.remaining().len() == all.len(),
                self.remaining().reverse() == overwritten(
                    all.reverse(),
                    start as int,
                    values@.take(i as int),
                ),
            decreases count - i,
        {
            let ghost rem_before = self.remaining();
            let _ = self.peek_back_nth_mut(start + i, values[i]);
            proof {
                assert(self.remaining().reverse() =~= rem_before.reverse().update(
                    start + i,
                    values@[i as int],
                ));
                assert(self.remaining().reverse() =~= overwritten(
                    all.reverse(),
                    start as int,
                    values@.take(i + 1 as int),
                ));
            }
            i = i + 1;
        }
        proof {
            assert(self.remaining() =~= self.remaining().reverse().reverse());
        }
        count
    }

    /// The number of elements in the front peek region.
    pub fn front_peeked_len(&self) -> (r: usize)
        ensures
            r == self.front_buffered().len(),
    {
        self.front.len()
    }

    /// The number of elements in the back peek region.
    pub fn back_peeked_len(&self) -> (r: usize)
        ensures
            r == self.back_buffered().len(),
    {
        self.back.len()
    }

    /// Whether at least `n + 1` elements sit in the front region.
    pub fn has_front_peeked(&self, n: usize) -> (r: bool)
        ensures
            r == (self.front_buffered().len() > n),
    {
        self.front_peeked_len() > n
    }

    /// Whether at least `n + 1` elements sit in the back region.
    pub fn has_back_peeked(&self, n: usize) -> (r: bool)
        ensures
            r == (self.back_buffered().len() > n),
    {
        self.back_peeked_len() > n
    }

    /// Discards every element of the front region; they are lost, not
    /// replayed.
    pub fn clear_front_peeked(&mut self)
        ensures
            final(self).front_buffered() == Seq::<T>::empty(),
            final(self).back_buffered() == old(self).back_buffered(),
            final(self).remaining() == old(self).remaining().skip(
                old(self).front_buffered().len() as int,
            ),
    {
        self.front.clear();
        proof {
            assert(self.remaining() =~= old(self).remaining().skip(
                old(self).front_buffered().len() as int,
            ));
        }
    }

    /// Discards every element of the back region; they are lost, not
    /// replayed.
    pub fn clear_back_peeked(&mut self)
        ensures
            final(self).back_buffered() == Seq::<T>::empty(),
            final(self).front_buffered() == old(self).front_buffered(),
            final(self).remaining() == old(self).remaining().take(
                old(self).remaining().len() - old(self).back_buffered().len(),
            ),
    {
        self.back.clear();
        proof {
            assert(self.remaining() =~= old(self).remaining().take(
                old(self).remaining().len() - old(self).back_buffered().len(),
            ));
        }
    }

    /// Discards both peek regions without advancing the source.
    pub fn clear_peeked(&mut self)
        ensures
            final(self).front_buffered() == Seq::<T>::empty(),
            final(self).back_buffered() == Seq::<T>::empty(),
            final(self).remaining() == old(self).source_remaining(),
    {
        self.clear_front_peeked();
        self.clear_back_peeked();
        proof {
            assert(self.remaining() =~= old(self).source_remaining());
        }
    }

    /// Discards the first `until` elements of the front region (all of
    /// them if fewer are buffered).
    pub fn drain_front_peeked(&mut self, until: usize)
        ensures
            ({
                let k = if until <= old(self).front_buffered().len() {
                    until as int
                } else {
                    old(self).front_buffered().len() as int
                };
                final(self).front_buffered() == old(self).front_buffered().skip(k) && final(self).back_buffered() == old(self).back_buffered() && final(self).remaining() == old(self).remaining().skip(k)
            }),
    {
        let count = if until <= self.front.len() {
            until
        } else {
            self.front.len()
        };
        let mut i: usize = 0;
        while i < count
            invariant
                i <= count,
                count <= old(self).front_buffered().len(),
                self.front_buffered() == old(self).front_buffered().skip(i as int),
                self.back_buffered() == old(self).back_buffered(),
                self.source_remaining() == old(self).source_remaining(),
            decreases count - i,
        {
            let _ = self.front.pop_front();
            proof {
                assert(self.front_buffered() =~= old(self).front_buffered().skip(i + 1));
            }
            i = i + 1;
        }
        proof {
            assert(self.remaining() =~= old(self).remaining().skip(count as int));
        }
    }

    /// Discards the first `until` elements of the back region — the
    /// logical last elements — (all of them if fewer are buffered).
    pub fn drain_back_peeked(&mut self, until: usize)
        ensures
            ({
                let k = if until <= old(self).back_buffered().len() {
                    until as int
                } else {
                    old(self).back_buffered().len() as int
                };
                final(self).back_buffered() == old(self).back_buffered().skip(k) && final(self).front_buffered() == old(self).front_buffered() && final(self).remaining() == old(self).remaining().take(old(self).remaining().len() - k)
            }),
    {
        let count = if until <= self.back.len() {
            until
        } else {
            self.back.len()
        };
        let mut i: usize = 0;
        while i < count
            invariant
                i <= count,
                count <= old(self).back_buffered().len(),
                self.back_buffered() == old(self).back_buffered().skip(i as int),
                self.front_buffered() == old(self).front_buffered(),
                self.source_remaining() == old(self).source_remaining(),
            decreases count - i,
        {
            let _ = self.back.pop_front();
            proof {
                assert(self.back_buffered() =~= old(self).back_buffered().skip(i + 1));
            }
            i = i + 1;
        }
        proof {
            assert(self.remaining() =~= old(self).remaining().take(
                old(self).remaining().len() - count,
            ));
        }
    }

    /// Drains both peek regions up to the given limits: first the front
    /// region, then the back region.
    pub fn drain_peeked(&mut self, front_until: usize, back_until: usize)
        ensures
            ({
                let kf = if front_until <= old(self).front_buffered().len() {
                    front_until as int
                } else {
                    old(self).front_buffered().len() as int
                };
                let kb = if back_until <= old(self).back_buffered().len() {
                    back_until as int
                } else {
                    old(self).back_buffered().len() as int
                };
                final(self).front_buffered() == old(self).front_buffered().skip(kf) && final(self).back_buffered() == old(self).back_buffered().skip(kb) && final(self).remaining()
                    == old(self).remaining().skip(kf).take(old(self).remaining().len() - kf - kb)
            }),
    {
        let ghost rem0 = self.remaining();
        self.drain_front_peeked(front_until);
        self.drain_back_peeked(back_until);
        proof {
            let kf = if front_until <= old(self).front_buffered().len() {
                front_until as int
            } else {
                old(self).front_buffered().len() as int
            };
            let kb = if back_until <= old(self).back_buffered().len() {
                back_until as int
            } else {
                old(self).back_buffered().len() as int
            };
            assert(self.remaining() =~= rem0.skip(kf).take(rem0.len() - kf - kb));
        }
    }

    /// Wraps the whole adapter, peeked state included, in a lightweight
    /// single-lookahead peekable; nothing buffered is lost, but depths
    /// beyond one element can no longer be addressed directly.
    pub fn into_peekable_lossy(self) -> (r: PeekableDE<T, PeekDN<T, S>>)
        ensures
            r.remaining() == self.remaining(),
    {
        PeekableDE::new(self)
    }

    /// Turns this adapter into a lightweight double-ended peekable over
    /// the same source, keeping of each region what the simpler shape can
    /// represent: the nearest peeked element per end. Deeper buffered
    /// elements are discarded, leaving a gap before the source's
    /// remaining elements.
    pub fn into_peekablede(self) -> (r: PeekableDE<T, S>)
        ensures
            r.wf(),
            r.source_remaining() == self.source_remaining(),
            r.front_item() == self.front_buffered().take(
                if self.front_buffered().len() > 0 {
                    1int
                } else {
                    0int
                },
            ),
            r.back_item() == self.back_buffered().take(
                if self.back_buffered().len() > 0 {
                    1int
                } else {
                    0int
                },
            ),
    {
        let mut front = self.front;
        let mut back = self.back;
        let front_slot = front.pop_front();
        let back_slot = back.pop_front();
        let r = PeekableDE::from_slots(self.iter, front_slot, back_slot);
        proof {
            if self.front_buffered().len() > 0 {
                assert(r.front_item() =~= self.front_buffered().take(1));
            }
            if self.back_buffered().len() > 0 {
                assert(r.back_item() =~= self.back_buffered().take(1));
            }
        }
        r
    }
}

impl<T, S: DoubleEndedSource<T>> ForwardSource<T> for PeekDN<T, S> {
    /// The front region comes first and the reversed back region last —
    /// its first element is the logical last — with the source's remaining
    /// elements between them.
    open spec fn remaining(&self) -> Seq<T> {
        self.front_buffered() + self.source_remaining() + self.back_buffered().reverse()
    }

    fn next_item(&mut self) -> (r: Option<T>) {
        self.next()
    }

    fn remaining_len(&self) -> (n: usize) {
        self.len()
    }
}

impl<T, S: DoubleEndedSource<T>> DoubleEndedSource<T> for PeekDN<T, S> {
    fn next_back_item(&mut self) -> (r: Option<T>) {
        self.next_back()
    }
}

/// Cross-end convergence. `peek_front_nth(i)` addresses element `i` of
/// the remaining sequence and `peek_back_nth(j)` addresses element
/// `len - 1 - j`, wherever the elements physically sit. Over a sequence
/// of length `L`, peeking `a` elements from the front and `b` from the
/// back with `a + b >= L` therefore makes every element retrievable by a
/// depth-appropriate peek on one of the sides; the two ends enumerate the
/// same elements in opposite orders, so none is duplicated or lost.
/// Position `i` of a remaining sequence of length `len` is addressable
/// within front peek depths below `a` or back peek depths below `b`.
pub open spec fn covered(len: int, a: int, b: int, i: int) -> bool {
    i < a || len - 1 - i < b
}

pub proof fn lemma_cross_end_convergence<T>(s: Seq<T>, a: int, b: int)
    requires
        0 <= a,
        0 <= b,
        a + b >= s.len(),
    ensures
        forall|i: int| 0 <= i < s.len() ==> #[trigger] covered(s.len() as int, a, b, i),
        forall|j: int| 0 <= j < s.len() ==> #[trigger] s.reverse()[j] == s[s.len() - 1 - j],
        s.reverse().reverse() == s,
{
    assert(s.reverse().reverse() =~= s);
}

/// Wraps a double-ended source in a `PeekDN`.
pub fn peekdn<T, S: DoubleEndedSource<T>>(iter: S) -> (r: PeekDN<T, S>)
    ensures
        r.remaining() == iter.remaining(),
        r.front_buffered() == Seq::<T>::empty(),
        r.back_buffered() == Seq::<T>::empty(),
{
    PeekDN::new(iter)
}

} // verus!
