//! The fixed-capacity circular buffer that backs the `Sized*` adapters.
//!
//! `Buffer<T, N>` keeps its elements in `N` fixed slots, logically
//! contiguous from `head` and wrapping past the last slot. Slots outside
//! the live range hold no logical value and are never read. The view of a
//! buffer is the sequence of its live elements, front first.

use vstd::prelude::*;

use crate::either::Either;
use crate::ranges::{IndexRange, RangeEdge, get_start_end, resolved_end, resolved_start};

verus! {

/// The physical slot of logical offset `i` in a buffer whose front lives
/// at slot `head`, out of `n` slots.
pub open spec fn wrap_index(head: int, i: int, n: int) -> int {
    if head + i < n {
        head + i
    } else {
        head + i - n
    }
}

/// A fixed-capacity ring buffer of `N` slots, supporting insertion and
/// removal at both ends, indexed access, range views and sub-range
/// removal. Capacity exhaustion is a caller error: the insertion
/// operations demand free space.
pub struct Buffer<T: Copy, const N: usize> {
    slots: Vec<Option<T>>,
    head: usize,
    len: usize,
}

impl<T: Copy, const N: usize> Buffer<T, N> {
    #[verifier::type_invariant]
    closed spec fn wf(&self) -> bool {
        &&& self.slots@.len() == N
        &&& self.len <= N
        &&& if N == 0 {
            self.head == 0
        } else {
            self.head < N
        }
        &&& forall|i: int|
            0 <= i < self.len ==> (#[trigger] self.slots@[wrap_index(
                self.head as int,
                i,
                N as int,
            )]) is Some
    }

    /// The live elements, front first.
    pub closed spec fn view(&self) -> Seq<T> {
        Seq::new(
            self.len as nat,
            |i: int| self.slots@[wrap_index(self.head as int, i, N as int)]->0,
        )
    }

    /// An empty buffer.
    pub fn new() -> (r: Buffer<T, N>)
        ensures
            r@ == Seq::<T>::empty(),
    {
        let mut slots: Vec<Option<T>> = Vec::new();
        let mut i: usize = 0;
        while i < N
            invariant
                i <= N,
                slots@.len() == i,
            decreases N - i,
        {
            slots.push(None);
            i = i + 1;
        }
        let r = Buffer { slots, head: 0, len: 0 };
        proof {
            assert(r@ =~= Seq::<T>::empty());
        }
        r
    }

    /// The number of live elements.
    pub fn len(&self) -> (r: usize)
        ensures
            r == self@.len(),
            r <= N,
    {
        proof {
            use_type_invariant(self);
        }
        self.len
    }

    /// The fixed capacity `N`.
    pub fn capacity(&self) -> (r: usize)
        ensures
            r == N,
    {
        N
    }

    /// The physical slot of logical offset `i`; `i` may reach `N` so that
    /// advancing the head over a full drain stays in range.
    fn phys(&self, i: usize) -> (r: usize)
        requires
            i <= N,
            0 < N,
        ensures
            r == wrap_index(self.head as int, i as int, N as int),
            r < N,
    {
        proof {
            use_type_invariant(self);
        }
        if i < N - self.head {
            self.head + i
        } else {
            i - (N - self.head)
        }
    }

    /// Appends an element at the back. The buffer must have free space.
    pub fn push_back(&mut self, value: T)
        requires
            old(self)@.len() < N,
        ensures
            final(self)@ == old(self)@.push(value),
    {
        proof {
            use_type_invariant(&*self);
        }
        let pos = self.phys(self.len);
        self.slots[pos] = Some(value);
        self.len = self.len + 1;
        proof {
            assert(final(self)@ =~= old(self)@.push(value));
        }
    }

    /// Inserts an element at the front. The buffer must have free space.
    pub fn push_front(&mut self, value: T)
        requires
            old(self)@.len() < N,
        ensures
            final(self)@ == seq![value] + old(self)@,
    {
        proof {
            use_type_invariant(&*self);
        }
        let new_head = if self.head == 0 {
            N - 1
        } else {
            self.head - 1
        };
        proof {
            let s2 = self.slots@.update(new_head as int, Some(value));
            assert forall|i: int| 0 <= i < self.len implies (#[trigger] s2[wrap_index(
                self.head as int,
                i,
                N as int,
            )]) is Some by {
                assert(self.slots@[wrap_index(self.head as int, i, N as int)] is Some);
            }
            assert forall|i: int| 0 <= i < self.len + 1 implies (#[trigger] s2[wrap_index(
                new_head as int,
                i,
                N as int,
            )]) is Some by {
                if i > 0 {
                    assert(wrap_index(new_head as int, i, N as int) == wrap_index(
                        self.head as int,
                        i - 1,
                        N as int,
                    ));
                    assert(self.slots@[wrap_index(self.head as int, i - 1, N as int)] is Some);
                }
            }
        }
        self.slots[new_head] = Some(value);
        self.head = new_head;
        self.len = self.len + 1;
        proof {
            assert(final(self)@ =~= seq![value] + old(self)@);
        }
    }

    /// Removes and returns the front element, or reports an empty buffer.
    pub fn pop_front(&mut self) -> (r: Option<T>)
        ensures
            old(self)@.len() == 0 ==> r is None && final(self)@ == old(self)@,
            old(self)@.len() > 0 ==> r == Some(old(self)@[0]) && final(self)@ == old(
                self,
            )@.drop_first(),
            old(self)@.len() > 0 ==> final(self)@.len() < N,
    {
        proof {
            use_type_invariant(&*self);
        }
        if self.len == 0 {
            proof {
                assert(final(self)@ =~= old(self)@);
            }
            return None;
        }
        let value = self.slots[self.head];
        self.len = self.len - 1;
        let new_head = if self.head + 1 == N {
            0
        } else {
            self.head + 1
        };
        proof {
            assert forall|i: int| 0 <= i < self.len implies (#[trigger] self.slots@[wrap_index(
                new_head as int,
                i,
                N as int,
            )]) is Some by {
                assert(wrap_index(new_head as int, i, N as int) == wrap_index(
                    self.head as int,
                    i + 1,
                    N as int,
                ));
                assert(self.slots@[wrap_index(self.head as int, i + 1, N as int)] is Some);
            }
        }
        self.head = new_head;
        proof {
            assert(old(self)@[0] == value->0);
            assert(final(self)@ =~= old(self)@.drop_first());
        }
        match value {
            Some(v) => Some(v),
            None => None,
        }
    }

    /// Removes and returns the back element, or reports an empty buffer.
    pub fn pop_back(&mut self) -> (r: Option<T>)
        ensures
            old(self)@.len() == 0 ==> r is None && final(self)@ == old(self)@,
            old(self)@.len() > 0 ==> r == Some(old(self)@.last()) && final(self)@ == old(
                self,
            )@.drop_last(),
            old(self)@.len() > 0 ==> final(self)@.len() < N,
    {
        proof {
            use_type_invariant(&*self);
        }
        if self.len == 0 {
            proof {
                assert(final(self)@ =~= old(self)@);
            }
            return None;
        }
        let pos = self.phys(self.len - 1);
        let value = self.slots[pos];
        self.len = self.len - 1;
        proof {
            assert(old(self)@.last() == value->0);
            assert(final(self)@ =~= old(self)@.drop_last());
        }
        match value {
            Some(v) => Some(v),
            None => None,
        }
    }

    /// The `index`-th logical element (0 is the front), or out-of-range.
    pub fn get(&self, index: usize) -> (r: Option<&T>)
        ensures
            index < self@.len() <==> r is Some,
            r matches Some(v) ==> *v == self@[index as int],
    {
        proof {
            use_type_invariant(self);
        }
        if index >= self.len {
            return None;
        }
        let pos = self.phys(index);
        match &self.slots[pos] {
            Some(v) => Some(v),
            None => None,
        }
    }

    /// Overwrites the `index`-th logical element; reports whether the
    /// index was in range.
    pub fn set(&mut self, index: usize, value: T) -> (r: bool)
        ensures
            r == (index < old(self)@.len()),
            r ==> final(self)@ == old(self)@.update(index as int, value),
            !r ==> final(self)@ == old(self)@,
    {
        proof {
            use_type_invariant(&*self);
        }
        if index >= self.len {
            return false;
        }
        let pos = self.phys(index);
        let stored_len = self.len;
        // The slot leaves the live range while it is rewritten, so that the
        // invariant holds at every intermediate state.
        self.len = index;
        self.slots[pos] = Some(value);
        proof {
            assert forall|i: int| 0 <= i < stored_len implies (#[trigger] self.slots@[wrap_index(
                self.head as int,
                i,
                N as int,
            )]) is Some by {
                assert(0 <= wrap_index(self.head as int, i, N as int) < N);
                assert(old(self).slots@[wrap_index(self.head as int, i, N as int)] is Some);
            }
        }
        self.len = stored_len;
        proof {
            assert(final(self)@ =~= old(self)@.update(index as int, value));
        }
        true
    }

    /// Removes the logical indices `[start, end)` in place. Removing a
    /// prefix advances the head and removing a suffix retreats the tail;
    /// only an interior span moves elements, shifting the ones after the
    /// span into the freed slots.
    pub fn drain(&mut self, range: IndexRange)
        requires
            range.start matches RangeEdge::Excluded(n) ==> n < usize::MAX,
            range.end matches RangeEdge::Included(n) ==> n < usize::MAX,
            resolved_start(range.start) <= resolved_end(range.end, old(self)@.len() as int),
            resolved_end(range.end, old(self)@.len() as int) <= old(self)@.len(),
        ensures
            final(self)@ == old(self)@.subrange(0, resolved_start(range.start)) + old(
                self,
            )@.subrange(resolved_end(range.end, old(self)@.len() as int), old(self)@.len() as int),
    {
        proof {
            use_type_invariant(&*self);
        }
        let ghost target = old(self)@.subrange(0, resolved_start(range.start)) + old(
            self,
        )@.subrange(resolved_end(range.end, old(self)@.len() as int), old(self)@.len() as int);
        let (start, end) = get_start_end(range, self.len);
        let count = end - start;
        if count == 0 {
            proof {
                assert(final(self)@ =~= target);
            }
            return ;
        }
        if start == 0 {
            self.len = self.len - count;
            let new_head = self.phys(count);
            proof {
                assert forall|i: int|
                    0 <= i < self.len implies (#[trigger] self.slots@[wrap_index(
                    new_head as int,
                    i,
                    N as int,
                )]) is Some by {
                    assert(wrap_index(new_head as int, i, N as int) == wrap_index(
                        self.head as int,
                        i + count,
                        N as int,
                    ));
                    assert(self.slots@[wrap_index(self.head as int, i + count, N as int)] is Some);
                }
            }
            self.head = new_head;
            proof {
                assert(final(self)@ =~= target);
            }
        } else if end == self.len {
            self.len = self.len - count;
            proof {
                assert(final(self)@ =~= target);
            }
        } else {
            let stored_len = self.len;
            let tail_count = stored_len - end;
            let ghost h = self.head as int;
            let ghost orig_slots = self.slots@;
            // The shifted region leaves the live range while its slots are
            // rewritten, so that the invariant holds at every state.
            self.len = start;
            let mut i: usize = 0;
            while i < tail_count
                invariant
                    i <= tail_count,
                    start < end,
                    end + tail_count == stored_len,
                    end == start + count,
                    stored_len <= N,
                    0 < N,
                    self.head == h,
                    0 <= h < N,
                    self.len == start,
                    self.slots@.len() == N,
                    orig_slots.len() == N,
                    forall|o: int|
                        0 <= o < start ==> #[trigger] self.slots@[wrap_index(h, o, N as int)]
                            == orig_slots[wrap_index(h, o, N as int)],
                    forall|o: int|
                        start <= o < start + i ==> #[trigger] self.slots@[wrap_index(h, o, N as int)]
                            == orig_slots[wrap_index(h, o + count, N as int)],
                    forall|o: int|
                        start + i <= o < stored_len ==> #[trigger] self.slots@[wrap_index(
                            h,
                            o,
                            N as int,
                        )] == orig_slots[wrap_index(h, o, N as int)],
                    forall|o: int|
                        0 <= o < stored_len ==> (#[trigger] orig_slots[wrap_index(
                            h,
                            o,
                            N as int,
                        )]) is Some,
                decreases tail_count - i,
            {
                let from = self.phys(end + i);
                let to = self.phys(start + i);
                let v = self.slots[from];
                proof {
                    assert(self.slots@[wrap_index(h, end + i, N as int)] == orig_slots[wrap_index(
                        h,
                        end + i,
                        N as int,
                    )]);
                    assert forall|a: int, b: int|
                        #![trigger wrap_index(h, a, N as int), wrap_index(h, b, N as int)]
                        0 <= a < N && 0 <= b < N && a != b implies wrap_index(h, a, N as int)
                            != wrap_index(h, b, N as int) by {}
                }
                self.slots[to] = v;
                i = i + 1;
            }
            proof {
                assert forall|o: int|
                    0 <= o < stored_len - count implies (#[trigger] self.slots@[wrap_index(
                    h,
                    o,
                    N as int,
                )]) is Some by {
                    if o < start {
                        assert(self.slots@[wrap_index(h, o, N as int)] == orig_slots[wrap_index(
                            h,
                            o,
                            N as int,
                        )]);
                    } else {
                        assert(self.slots@[wrap_index(h, o, N as int)] == orig_slots[wrap_index(
                            h,
                            o + count,
                            N as int,
                        )]);
                    }
                }
            }
            self.len = stored_len - count;
            proof {
                assert forall|o: int| 0 <= o < final(self)@.len() implies final(self)@[o]
                    == target[o] by {
                    if o >= start {
                        assert(self.slots@[wrap_index(h, o, N as int)] == orig_slots[wrap_index(
                            h,
                            o + count,
                            N as int,
                        )]);
                    }
                }
                assert(final(self)@ =~= target);
            }
        }
    }

    /// A view of the logical indices `[start, end)`: one contiguous span
    /// when the physical range does not wrap past the last slot, else the
    /// leading span chained with the wrapped span.
    pub fn range(&self, range: IndexRange) -> (r: Either<Vec<T>, (Vec<T>, Vec<T>)>)
        requires
            range.start matches RangeEdge::Excluded(n) ==> n < usize::MAX,
            range.end matches RangeEdge::Included(n) ==> n < usize::MAX,
            resolved_start(range.start) <= resolved_end(range.end, self@.len() as int),
            resolved_end(range.end, self@.len() as int) <= self@.len(),
        ensures
            r.elements() == self@.subrange(
                resolved_start(range.start),
                resolved_end(range.end, self@.len() as int),
            ),
            r matches Either::Chain(c) ==> c.0@.len() > 0 && c.1@.len() > 0,
    {
        proof {
            use_type_invariant(self);
        }
        let ghost target = self@.subrange(
            resolved_start(range.start),
            resolved_end(range.end, self@.len() as int),
        );
        let (start, end) = get_start_end(range, self.len);
        let count = end - start;
        if count == 0 {
            let out: Vec<T> = Vec::new();
            proof {
                assert(out@ =~= target);
            }
            return Either::Single(out);
        }
        let first_index = self.phys(start);
        if count <= N - first_index {
            let mut out: Vec<T> = Vec::new();
            let mut j: usize = 0;
            while j < count
                invariant
                    j <= count,
                    out@.len() == j,
                    start + count <= self@.len(),
                    first_index == wrap_index(self.head as int, start as int, N as int),
                    first_index + count <= N,
                    forall|k: int| 0 <= k < j ==> out@[k] == self@[start + k],
                decreases count - j,
            {
                proof {
                    use_type_invariant(self);
                    assert(first_index + j == wrap_index(self.head as int, start + j, N as int));
                }
                match self.slots[first_index + j] {
                    Some(v) => out.push(v),
                    None => (),
                }
                j = j + 1;
            }
            proof {
                assert(out@ =~= target);
            }
            Either::Single(out)
        } else {
            let first_len = N - first_index;
            let second_len = count - first_len;
            let mut a: Vec<T> = Vec::new();
            let mut j: usize = 0;
            while j < first_len
                invariant
                    j <= first_len,
                    a@.len() == j,
                    start + count <= self@.len(),
                    first_index == wrap_index(self.head as int, start as int, N as int),
                    first_index + first_len == N,
                    first_len <= count,
                    forall|k: int| 0 <= k < j ==> a@[k] == self@[start + k],
                decreases first_len - j,
            {
                proof {
                    use_type_invariant(self);
                    assert(first_index + j == wrap_index(self.head as int, start + j, N as int));
                }
                match self.slots[first_index + j] {
                    Some(v) => a.push(v),
                    None => (),
                }
                j = j + 1;
            }
            let mut b: Vec<T> = Vec::new();
            let mut j: usize = 0;
            while j < second_len
                invariant
                    j <= second_len,
                    b@.len() == j,
                    start + count <= self@.len(),
                    first_index == wrap_index(self.head as int, start as int, N as int),
                    first_index + first_len == N,
                    first_len + second_len == count,
                    forall|k: int| 0 <= k < j ==> b@[k] == self@[start + first_len + k],
                decreases second_len - j,
            {
                proof {
                    use_type_invariant(self);
                    assert(j == wrap_index(self.head as int, start + first_len + j, N as int));
                }
                match self.slots[j] {
                    Some(v) => b.push(v),
                    None => (),
                }
                j = j + 1;
            }
            proof {
                assert(a@ + b@ =~= target);
            }
            Either::Chain((a, b))
        }
    }

    /// A buffer holding the elements of a vector, front first. The
    /// elements must fit in the `N` slots.
    pub fn from_iter(items: Vec<T>) -> (r: Buffer<T, N>)
        requires
            items@.len() <= N,
        ensures
            r@ == items@,
    {
        let mut buffer = Buffer::new();
        let mut i: usize = 0;
        while i < items.len()
            invariant
                i <= items@.len() <= N,
                buffer@ == items@.take(i as int),
            decreases items@.len() - i,
        {
            buffer.push_back(items[i]);
            proof {
                assert(buffer@ =~= items@.take(i + 1));
            }
            i = i + 1;
        }
        proof {
            assert(buffer@ =~= items@);
        }
        buffer
    }

    /// Forgets all elements.
    pub fn clear(&mut self)
        ensures
            final(self)@ == Seq::<T>::empty(),
    {
        proof {
            use_type_invariant(&*self);
        }
        self.len = 0;
        self.head = 0;
        proof {
            assert(final(self)@ =~= Seq::<T>::empty());
        }
    }
}

impl<T: Copy, const N: usize> Default for Buffer<T, N> {
    /// The default buffer is empty.
    fn default() -> (r: Buffer<T, N>)
        ensures
            r@ == Seq::<T>::empty(),
    {
        Buffer::new()
    }
}

} // verus!
