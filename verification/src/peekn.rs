//! Forward peeking at arbitrary depth over a growable buffer.
//!
//! `PeekN` wraps a forward source and lets the caller inspect any upcoming
//! element without consuming it. Peeked-but-unconsumed elements live in a
//! FIFO buffer logically positioned immediately before the unconsumed part
//! of the source, so `remaining()` — the buffer followed by the source's
//! remaining elements — is the sequence that consumption will yield.

use std::collections::VecDeque;

use vstd::prelude::*;
use vstd::std_specs::cmp::PartialEqSpec;

use crate::peekablede::PeekableDE;
use crate::peekdn::PeekDN;
use crate::predicate::decides;
use crate::ranges::{IndexRange, RangeEdge, get_start_end, overwritten, resolved_end, resolved_start};
use crate::source::{DoubleEndedSource, ForwardSource};

verus! {

/// An adapter over a forward source that buffers peeked elements so any
/// future element can be inspected before it is consumed.
pub struct PeekN<T, S: ForwardSource<T>> {
    iter: S,
    buffer: VecDeque<T>,
}

impl<T, S: ForwardSource<T>> PeekN<T, S> {
    /// The elements peeked but not yet consumed, in consumption order.
    pub closed spec fn buffered(&self) -> Seq<T> {
        self.buffer@
    }

    /// The elements the wrapped source has not yet produced.
    pub closed spec fn source_remaining(&self) -> Seq<T> {
        self.iter.remaining()
    }

    /// Wraps a source; nothing is peeked yet.
    pub fn new(iter: S) -> (r: PeekN<T, S>)
        ensures
            r.remaining() == iter.remaining(),
            r.buffered() == Seq::<T>::empty(),
    {
        let r = PeekN { iter, buffer: VecDeque::new() };
        proof {
            assert(r.remaining() =~= r.iter.remaining());
        }
        r
    }

    /// Wraps a source, pre-allocating space for `capacity` peeked
    /// elements.
    pub fn with_capacity(iter: S, capacity: usize) -> (r: PeekN<T, S>)
        ensures
            r.remaining() == iter.remaining(),
            r.buffered() == Seq::<T>::empty(),
    {
        let r = PeekN { iter, buffer: VecDeque::with_capacity(capacity) };
        proof {
            assert(r.remaining() =~= r.iter.remaining());
        }
        r
    }

    /// Pulls from the source until `want` elements are buffered, stopping
    /// early on exhaustion; reports whether the buffer reached `want`.
    fn fill(&mut self, want: usize) -> (ok: bool)
        ensures
            final(self).remaining() == old(self).remaining(),
            old(self).buffered().len() >= want ==> *final(self) == *old(self),
            final(self).buffered().len() >= old(self).buffered().len(),
            final(self).buffered() == old(self).remaining().take(
                final(self).buffered().len() as int,
            ),
            final(self).source_remaining() == old(self).source_remaining().skip(
                final(self).buffered().len() - old(self).buffered().len(),
            ),
            ok <==> final(self).buffered().len() >= want,
            final(self).buffered().len() == if old(self).buffered().len() >= want {
                old(self).buffered().len() as int
            } else if old(self).remaining().len() >= want {
                want as int
            } else {
                old(self).remaining().len() as int
            },
    {
        let ghost all = old(self).remaining();
        proof {
            assert(self.buffered() =~= all.take(self.buffered().len() as int));
        }
        if self.buffer.len() >= want {
            return true;
        }
        while self.buffer.len() < want
            invariant
                self.buffered() + self.source_remaining() == all,
                self.buffered() == all.take(self.buffered().len() as int),
                self.buffered().len() >= old(self).buffered().len(),
                self.buffered().len() <= want,
                self.source_remaining() == old(self).source_remaining().skip(
                    self.buffered().len() - old(self).buffered().len(),
                ),
                old(self).remaining() == all,
                old(self).buffered().len() < want,
                want <= usize::MAX,
            decreases want - self.buffer.len(),
        {
            match self.iter.next_item() {
                Some(item) => {
                    self.buffer.push_back(item);
                    proof {
                        assert(self.buffered() + self.source_remaining() =~= all);
                        assert(self.buffered() =~= all.take(self.buffered().len() as int));
                        assert(self.source_remaining() =~= old(self).source_remaining().skip(
                            self.buffered().len() - old(self).buffered().len(),
                        ));
                    }
                },
                None => {
                    proof {
                        assert(self.buffered() =~= all);
                        assert(all.take(all.len() as int) =~= all);
                    }
                    return false;
                },
            }
        }
        true
    }

    /// Inspects the element `n` steps ahead (0 is the next element),
    /// buffering elements as needed; already-buffered elements are never
    /// pulled again. Reports exhaustion when fewer than `n + 1` elements
    /// remain.
    pub fn peek_nth(&mut self, n: usize) -> (r: Option<&T>)
        requires
            n < usize::MAX,
        ensures
            final(self).remaining() == old(self).remaining(),
            r is Some <==> n < old(self).remaining().len(),
            r matches Some(v) ==> *v == old(self).remaining()[n as int],
            n < old(self).buffered().len() ==> *final(self) == *old(self),
            r is Some ==> n < final(self).buffered().len(),
            final(self).buffered().len() == if n < old(self).buffered().len() {
                old(self).buffered().len() as int
            } else if old(self).remaining().len() >= n + 1 {
                n + 1
            } else {
                old(self).remaining().len() as int
            },
            final(self).buffered() == old(self).remaining().take(
                final(self).buffered().len() as int,
            ),
            final(self).buffered().len() >= old(self).buffered().len(),
            final(self).source_remaining() == old(self).source_remaining().skip(
                final(self).buffered().len() - old(self).buffered().len(),
            ),
    {
        let got = self.fill(n + 1);
        if got {
            Some(&self.buffer[n])
        } else {
            None
        }
    }

    /// Inspects the next element without consuming it; the same as
    /// `peek_nth(0)`.
    pub fn peek(&mut self) -> (r: Option<&T>)
        ensures
            final(self).remaining() == old(self).remaining(),
            r is Some <==> old(self).remaining().len() > 0,
            r matches Some(v) ==> *v == old(self).remaining()[0],
            old(self).buffered().len() > 0 ==> *final(self) == *old(self),
            final(self).buffered() == old(self).remaining().take(
                final(self).buffered().len() as int,
            ),
            final(self).buffered().len() == if old(self).buffered().len() > 0 {
                old(self).buffered().len() as int
            } else if old(self).remaining().len() > 0 {
                1int
            } else {
                0int
            },
            final(self).source_remaining() == old(self).source_remaining().skip(
                final(self).buffered().len() - old(self).buffered().len(),
            ),
    {
        self.peek_nth(0)
    }

    /// Overwrites the element `n` steps ahead, buffering elements as
    /// needed so the replacement lands in the peek buffer; reports whether
    /// such an element existed.
    pub fn peek_nth_mut(&mut self, n: usize, value: T) -> (r: bool)
        requires
            n < usize::MAX,
        ensures
            r == (n < old(self).remaining().len()),
            r ==> final(self).remaining() == old(self).remaining().update(n as int, value),
            !r ==> final(self).remaining() == old(self).remaining(),
    {
        let got = self.fill(n + 1);
        if got {
            let ghost before = self.buffered();
            let _ = self.buffer.remove(n);
            self.buffer.insert(n, value);
            proof {
                assert(self.buffered() =~= before.update(n as int, value));
                assert(self.remaining() =~= old(self).remaining().update(n as int, value));
            }
            true
        } else {
            false
        }
    }

    /// Overwrites the next element; the same as `peek_nth_mut(0, value)`.
    pub fn peek_mut(&mut self, value: T) -> (r: bool)
        ensures
            r == (old(self).remaining().len() > 0),
            r ==> final(self).remaining() == old(self).remaining().update(0, value),
            !r ==> final(self).remaining() == old(self).remaining(),
    {
        self.peek_nth_mut(0, value)
    }

    /// Consumes and returns the next element: the buffer's front if one is
    /// buffered, else the source's next element.
    pub fn next(&mut self) -> (r: Option<T>)
        ensures
            old(self).remaining().len() == 0 ==> r is None && final(self).remaining() == old(self).remaining(),
            old(self).remaining().len() > 0 ==> r == Some(old(self).remaining()[0]) && final(self).remaining() == old(self).remaining().drop_first(),
            final(self).buffered() == if old(self).buffered().len() > 0 {
                old(self).buffered().drop_first()
            } else {
                old(self).buffered()
            },
    {
        let popped = self.buffer.pop_front();
        match popped {
            Some(item) => {
                proof {
                    assert(self.remaining() =~= old(self).remaining().drop_first());
                    assert(self.buffered() =~= old(self).buffered().drop_first());
                }
                Some(item)
            },
            None => {
                let r = self.iter.next_item();
                proof {
                    if old(self).remaining().len() > 0 {
                        assert(self.remaining() =~= old(self).remaining().drop_first());
                    } else {
                        assert(self.remaining() =~= old(self).remaining());
                    }
                }
                r
            },
        }
    }

    /// Consumes and returns the next element only if the predicate accepts
    /// it; a rejected element is pushed back to the buffer's front, so the
    /// remaining sequence is exactly what it was before the call.
    pub fn next_if<F: FnOnce(&T) -> bool>(&mut self, func: F) -> (r: Option<T>)
        requires
            forall|x: &T| #[trigger] call_requires(func, (x,)),
        ensures
            old(self).remaining().len() == 0 ==> r is None,
            r matches Some(v) ==> old(self).remaining().len() > 0 && v == old(self).remaining()[0]
                && final(self).remaining() == old(self).remaining().drop_first(),
            r is None ==> final(self).remaining() == old(self).remaining(),
            r is None && old(self).buffered().len() > 0 ==> final(self).buffered() == old(
                self,
            ).buffered(),
            r is None && old(self).buffered().len() == 0 && old(self).remaining().len() > 0
                ==> final(self).buffered() == seq![old(self).remaining()[0]],
            r is None && old(self).remaining().len() == 0 ==> final(self).buffered() == old(
                self,
            ).buffered(),
            r matches Some(v) ==> final(self).buffered() == if old(self).buffered().len() > 0 {
                old(self).buffered().drop_first()
            } else {
                old(self).buffered()
            },
            r matches Some(v) ==> decides(func, v, true),
            r is None && old(self).remaining().len() > 0 ==> decides(
                func,
                old(self).remaining()[0],
                false,
            ),
    {
        match self.next() {
            Some(matched) => {
                let matched_ref = &matched;
                let accepted = func(matched_ref);
                proof {
                    assert(decides(func, matched, accepted)) by {
                        assert(*matched_ref == matched && call_ensures(
                            func,
                            (matched_ref,),
                            accepted,
                        ));
                    }
                }
                if accepted {
                    Some(matched)
                } else {
                    self.buffer.push_front(matched);
                    proof {
                        assert(self.remaining() =~= seq![matched] + old(
                            self,
                        ).remaining().drop_first());
                        assert(seq![matched] + old(self).remaining().drop_first() =~= old(
                            self,
                        ).remaining());
                        if old(self).buffered().len() > 0 {
                            assert(self.buffered() =~= old(self).buffered());
                        } else {
                            assert(self.buffered() =~= seq![matched]);
                        }
                    }
                    None
                }
            },
            None => None,
        }
    }

    /// Consumes and returns the next element only if it equals `expected`;
    /// a rejected element is pushed back to the buffer's front.
    pub fn next_if_eq(&mut self, expected: &T) -> (r: Option<T>) where T: PartialEqSpec
        ensures
            old(self).remaining().len() == 0 ==> r is None,
            r matches Some(v) ==> old(self).remaining().len() > 0 && v == old(self).remaining()[0]
                && final(self).remaining() == old(self).remaining().drop_first(),
            r is None ==> final(self).remaining() == old(self).remaining(),
            r is None && old(self).buffered().len() > 0 ==> final(self).buffered() == old(
                self,
            ).buffered(),
            r is None && old(self).buffered().len() == 0 && old(self).remaining().len() > 0
                ==> final(self).buffered() == seq![old(self).remaining()[0]],
            r is None && old(self).remaining().len() == 0 ==> final(self).buffered() == old(
                self,
            ).buffered(),
            r matches Some(v) ==> final(self).buffered() == if old(self).buffered().len() > 0 {
                old(self).buffered().drop_first()
            } else {
                old(self).buffered()
            },
            T::obeys_eq_spec() ==> (r is Some <==> old(self).remaining().len() > 0 && old(self).remaining()[0].eq_spec(expected)),
    {
        match self.next() {
            Some(matched) => {
                if matched.eq(expected) {
                    Some(matched)
                } else {
                    self.buffer.push_front(matched);
                    proof {
                        assert(self.remaining() =~= seq![matched] + old(
                            self,
                        ).remaining().drop_first());
                        assert(seq![matched] + old(self).remaining().drop_first() =~= old(
                            self,
                        ).remaining());
                        if old(self).buffered().len() > 0 {
                            assert(self.buffered() =~= old(self).buffered());
                        } else {
                            assert(self.buffered() =~= seq![matched]);
                        }
                    }
                    None
                }
            },
            None => None,
        }
    }

    /// Consumes and returns the elements that a run of `next_if` calls
    /// would accept: elements are taken in order while the predicate holds
    /// and the first rejected element, if any, is pushed back unread.
    pub fn while_next<F: Fn(&T) -> bool>(&mut self, func: F) -> (r: Vec<T>)
        requires
            forall|x: &T| #[trigger] call_requires(func, (x,)),
        ensures
            r@.len() <= old(self).remaining().len(),
            r@ == old(self).remaining().take(r@.len() as int),
            final(self).remaining() == old(self).remaining().skip(r@.len() as int),
            forall|k: int| 0 <= k < r@.len() ==> decides(func, #[trigger] r@[k], true),
            r@.len() < old(self).remaining().len() ==> decides(
                func,
                old(self).remaining()[r@.len() as int],
                false,
            ),
    {
        let ghost all = old(self).remaining();
        let mut out: Vec<T> = Vec::new();
        let mut done = false;
        proof {
            assert(all.take(0) =~= out@);
            assert(all.skip(0) =~= all);
        }
        while !done
            invariant
                forall|x: &T| #[trigger] call_requires(func, (x,)),
                out@.len() <= all.len(),
                out@ == all.take(out@.len() as int),
                self.remaining() == all.skip(out@.len() as int),
                forall|k: int| 0 <= k < out@.len() ==> decides(func, #[trigger] out@[k], true),
                done ==> (out@.len() == all.len() || decides(
                    func,
                    all[out@.len() as int],
                    false,
                )),
            decreases all.len() - out@.len() + if done {
                0int
            } else {
                1int
            },
        {
            match self.next() {
                Some(item) => {
                    let item_ref = &item;
                    let accepted = func(item_ref);
                    proof {
                        assert(decides(func, item, accepted)) by {
                            assert(*item_ref == item && call_ensures(func, (item_ref,), accepted));
                        }
                    }
                    if accepted {
                        out.push(item);
                        proof {
                            assert(out@ =~= all.take(out@.len() as int));
                        }
                    } else {
                        let ghost k = out@.len() as int;
                        self.buffer.push_front(item);
                        proof {
                            assert(self.remaining() =~= seq![item] + all.skip(k).drop_first());
                            assert(seq![item] + all.skip(k).drop_first() =~= all.skip(k));
                        }
                        done = true;
                    }
                },
                None => {
                    done = true;
                },
            }
        }
        out
    }

    /// Counts how many consecutive upcoming elements satisfy the
    /// predicate, peeking but never consuming; stops at the first element
    /// the predicate rejects or at exhaustion.
    pub fn while_peek<F: Fn(&T) -> bool>(&mut self, func: F) -> (r: usize)
        requires
            forall|x: &T| #[trigger] call_requires(func, (x,)),
            old(self).remaining().len() < usize::MAX,
        ensures
            final(self).remaining() == old(self).remaining(),
            r <= old(self).remaining().len(),
            forall|k: int|
                0 <= k < r ==> decides(func, #[trigger] old(self).remaining()[k], true),
            r < old(self).remaining().len() ==> decides(
                func,
                old(self).remaining()[r as int],
                false,
            ),
    {
        let ghost all = old(self).remaining();
        let mut count: usize = 0;
        let mut done = false;
        while !done
            invariant
                forall|x: &T| #[trigger] call_requires(func, (x,)),
                count <= all.len() < usize::MAX,
                self.remaining() == all,
                forall|k: int| 0 <= k < count ==> decides(func, #[trigger] all[k], true),
                done ==> (count == all.len() || decides(func, all[count as int], false)),
            decreases all.len() - count + if done {
                0int
            } else {
                1int
            },
        {
            match self.peek_nth(count) {
                Some(item) => {
                    let accepted = func(item);
                    proof {
                        assert(decides(func, all[count as int], accepted)) by {
                            assert(*item == all[count as int] && call_ensures(
                                func,
                                (item,),
                                accepted,
                            ));
                        }
                    }
                    if accepted {
                        count = count + 1;
                    } else {
                        done = true;
                    }
                },
                None => {
                    done = true;
                },
            }
        }
        count
    }

    /// The total number of elements left, buffered elements included.
    pub fn len(&self) -> (r: usize)
        requires
            self.remaining().len() <= usize::MAX,
        ensures
            r == self.remaining().len(),
    {
        self.buffer.len() + self.iter.remaining_len()
    }

    /// Inspects the elements at logical indices `[start, end)`, filling
    /// the buffer as needed; the result is truncated to what the source
    /// could still provide. An empty or inverted range yields nothing.
    pub fn peek_range(&mut self, range: IndexRange) -> (r: Vec<T>) where T: Copy
        requires
            old(self).remaining().len() <= usize::MAX,
            range.start matches RangeEdge::Excluded(n) ==> n < usize::MAX,
            range.end matches RangeEdge::Included(n) ==> n < usize::MAX,
        ensures
            final(self).remaining() == old(self).remaining(),
            ({
                let s = resolved_start(range.start);
                let e = resolved_end(range.end, old(self).remaining().len() as int);
                let e2 = if e <= old(self).remaining().len() {
                    e
                } else {
                    old(self).remaining().len() as int
                };
                r@ == if s < e2 {
                    old(self).remaining().subrange(s, e2)
                } else {
                    Seq::<T>::empty()
                }
            }),
            ({
                let s = resolved_start(range.start);
                let e = resolved_end(range.end, old(self).remaining().len() as int);
                if s < e {
                    final(self).buffered().len() == if old(self).buffered().len() >= e {
                        old(self).buffered().len() as int
                    } else if old(self).remaining().len() >= e {
                        e
                    } else {
                        old(self).remaining().len() as int
                    }
                } else {
                    *final(self) == *old(self)
                }
            }),
    {
        let ghost all = old(self).remaining();
        let total = self.len();
        let (start, end) = get_start_end(range, total);
        if start >= end {
            let out: Vec<T> = Vec::new();
            proof {
                assert(out@ =~= Seq::<T>::empty());
            }
            return out;
        }
        self.fill(end);
        let ghost filled = self.buffered();
        let safe_end = if end <= self.buffer.len() {
            end
        } else {
            self.buffer.len()
        };
        let mut out: Vec<T> = Vec::new();
        let mut j = start;
        while j < safe_end
            invariant
                start <= j,
                j <= safe_end || j == start,
                safe_end <= self.buffered().len(),
                self.remaining() == all,
                self.buffered() == filled,
                self.buffered() == all.take(self.buffered().len() as int),
                out@.len() == j - start,
                forall|k: int| 0 <= k < out@.len() ==> out@[k] == self.buffered()[start + k],
            decreases safe_end - j,
        {
            let item = self.buffer[j];
            out.push(item);
            j = j + 1;
        }
        proof {
            let s = resolved_start(range.start);
            let e = resolved_end(range.end, old(self).remaining().len() as int);
            let e2 = if e <= old(self).remaining().len() {
                e
            } else {
                old(self).remaining().len() as int
            };
            assert(self.buffered().len() <= all.len());
            if s < e2 {
                assert(out@ =~= old(self).remaining().subrange(s, e2));
            } else {
                assert(out@.len() == 0);
                assert(out@ =~= Seq::<T>::empty());
            }
        }
        out
    }

    /// Overwrites the elements at logical indices `[start, end)` with the
    /// given values, filling the buffer as needed; overwriting stops at
    /// the end of the range, of the values, or of what the source could
    /// still provide, whichever comes first. Returns how many elements
    /// were overwritten. An empty or inverted range overwrites nothing.
    pub fn peek_range_mut(&mut self, range: IndexRange, values: &Vec<T>) -> (r: usize) where
        T: Copy

        requires
            old(self).remaining().len() <= usize::MAX,
            range.start matches RangeEdge::Excluded(n) ==> n < usize::MAX,
            range.end matches RangeEdge::Included(n) ==> n < usize::MAX,
        ensures
            ({
                let s = resolved_start(range.start);
                let e = resolved_end(range.end, old(self).remaining().len() as int);
                let e2 = if e <= old(self).remaining().len() {
                    e
                } else {
                    old(self).remaining().len() as int
                };
                let span = if s < e2 {
                    e2 - s
                } else {
                    0
                };
                r == if span <= values@.len() {
                    span
                } else {
                    values@.len() as int
                } && final(self).remaining() == overwritten(
                    old(self).remaining(),
                    s,
                    values@.take(r as int),
                )
            }),
    {
        let ghost all = old(self).remaining();
        let total = self.len();
        let (start, end) = get_start_end(range, total);
        let end2 = if end <= total {
            end
        } else {
            total
        };
        let span = if start < end2 {
            end2 - start
        } else {
            0
        };
        let count = if span <= values.len() {
            span
        } else {
            values.len()
        };
        let mut i: usize = 0;
        proof {
            assert(self.remaining() =~= overwritten(all, start as int, values@.take(0)));
        }
        while i < count
            invariant
                i <= count,
                count == 0 || start + count <= all.len(),
                all.len() <= usize::MAX,
                count <= values@.len(),
                self.remaining() == overwritten(all, start as int, values@.take(i as int)),
            decreases count - i,
        {
            let _ = self.peek_nth_mut(start + i, values[i]);
            proof {
                assert(self.remaining() =~= overwritten(
                    all,
                    start as int,
                    values@.take(i + 1 as int),
                ));
            }
            i = i + 1;
        }
        count
    }

    /// Takes the adapter apart into its source and its peek buffer.
    pub(crate) fn into_parts(self) -> (r: (S, VecDeque<T>))
        ensures
            r.0.remaining() == self.source_remaining(),
            r.1@ == self.buffered(),
    {
        (self.iter, self.buffer)
    }

    /// Rebuilds an adapter from a source and an already-filled peek
    /// buffer.
    pub(crate) fn from_parts(iter: S, buffer: VecDeque<T>) -> (r: PeekN<T, S>)
        ensures
            r.source_remaining() == iter.remaining(),
            r.buffered() == buffer@,
    {
        PeekN { iter, buffer }
    }

    /// Turns this forward adapter into a double-ended one over the same
    /// source. Every buffered element keeps its value and its order in
    /// the new adapter's front region; the conversion consumes the
    /// forward adapter.
    pub fn into_peekdn(self) -> (r: PeekDN<T, S>) where S: DoubleEndedSource<T>
        ensures
            r.remaining() == self.remaining(),
            r.front_buffered() == self.buffered(),
            r.back_buffered() == Seq::<T>::empty(),
            r.source_remaining() == self.source_remaining(),
    {
        let ghost rem0 = self.remaining();
        let (iter, buffer) = self.into_parts();
        let r = PeekDN::from_parts(iter, buffer, VecDeque::new());
        proof {
            assert(r.remaining() =~= rem0);
        }
        r
    }

    /// Wraps the source of a lightweight double-ended peekable,
    /// discarding nothing: its peeked state stays inside the wrapped
    /// value.
    pub fn from_peekable_lossy<S2: DoubleEndedSource<T>>(value: PeekableDE<T, S2>) -> (r: PeekN<
        T,
        PeekableDE<T, S2>,
    >)
        ensures
            r.remaining() == value.remaining(),
            r.buffered() == Seq::<T>::empty(),
    {
        PeekN::new(value)
    }

    /// Hands back the wrapped source, discarding every buffered element:
    /// what was peeked beyond the source's own state is lost.
    pub fn into_peekable_lossy(self) -> (r: S)
        ensures
            r.remaining() == self.remaining().skip(self.buffered().len() as int),
    {
        proof {
            assert(self.remaining().skip(self.buffered().len() as int) =~= self.iter.remaining());
        }
        self.iter
    }

    /// The number of elements currently buffered (peeked, not consumed).
    pub fn peeked_len(&self) -> (r: usize)
        ensures
            r == self.buffered().len(),
    {
        self.buffer.len()
    }

    /// Whether at least `n + 1` elements are buffered.
    pub fn has_peeked(&self, n: usize) -> (r: bool)
        ensures
            r == (self.buffered().len() > n),
    {
        self.peeked_len() > n
    }

    /// Discards every buffered element without consuming them from the
    /// adapter's point of view: the elements are lost, not replayed.
    pub fn clear_peeked(&mut self)
        ensures
            final(self).buffered() == Seq::<T>::empty(),
            final(self).remaining() == old(self).remaining().skip(old(self).buffered().len() as int),
    {
        self.buffer.clear();
        proof {
            assert(self.remaining() =~= old(self).remaining().skip(
                old(self).buffered().len() as int,
            ));
        }
    }

    /// Discards the first `until` buffered elements (all of them if fewer
    /// are buffered).
    pub fn drain_peeked(&mut self, until: usize)
        ensures
            ({
                let k = if until <= old(self).buffered().len() {
                    until as int
                } else {
                    old(self).buffered().len() as int
                };
                final(self).buffered() == old(self).buffered().skip(k) && final(self).remaining()
                    == old(self).remaining().skip(k)
            }),
    {
        let count = if until <= self.buffer.len() {
            until
        } else {
            self.buffer.len()
        };
        let mut i: usize = 0;
        while i < count
            invariant
                i <= count,
                count <= old(self).buffered().len(),
                self.buffered() == old(self).buffered().skip(i as int),
                self.source_remaining() == old(self).source_remaining(),
            decreases count - i,
        {
            let _ = self.buffer.pop_front();
            proof {
                assert(self.buffered() =~= old(self).buffered().skip(i + 1));
            }
            i = i + 1;
        }
        proof {
            assert(self.remaining() =~= old(self).remaining().skip(count as int));
        }
    }
}

impl<T, S: ForwardSource<T>> ForwardSource<T> for PeekN<T, S> {
    /// The adapter yields its buffered elements first, then whatever the
    /// source has left: peeking never reorders or skips consumption.
    open spec fn remaining(&self) -> Seq<T> {
        self.buffered() + self.source_remaining()
    }

    fn next_item(&mut self) -> (r: Option<T>) {
        self.next()
    }

    fn remaining_len(&self) -> (n: usize) {
        self.len()
    }
}

/// Wraps a forward source in a `PeekN`.
pub fn peekn<T, S: ForwardSource<T>>(iter: S) -> (r: PeekN<T, S>)
    ensures
        r.remaining() == iter.remaining(),
        r.buffered() == Seq::<T>::empty(),
{
    PeekN::new(iter)
}

} // verus!
