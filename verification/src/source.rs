//! The sequence sources that the peeking adapters wrap.
//!
//! A source owns a finite logical sequence of elements, exposed to
//! specifications through `remaining()`. A `ForwardSource` hands elements
//! out from the front; a `DoubleEndedSource` additionally hands them out
//! from the back. Both ends draw from the same remaining sequence, so the
//! two traversals converge in the middle.

use vstd::prelude::*;

verus! {

/// A producer of elements from the front of a finite logical sequence.
///
/// `next_item` removes and returns the first element of `remaining()`,
/// or reports exhaustion — and stays exhausted — once the sequence is
/// empty (the fused contract).
pub trait ForwardSource<T>: Sized {
    /// The elements not yet produced, front first.
    spec fn remaining(&self) -> Seq<T>;

    fn next_item(&mut self) -> (r: Option<T>)
        ensures
            old(self).remaining().len() == 0 ==> r is None && final(self).remaining()
                == old(self).remaining(),
            old(self).remaining().len() > 0 ==> r == Some(old(self).remaining()[0])
                && final(self).remaining() == old(self).remaining().drop_first(),
    ;

    /// The exact number of elements left; every source reports its size.
    fn remaining_len(&self) -> (n: usize)
        requires
            self.remaining().len() <= usize::MAX,
        ensures
            n == self.remaining().len(),
    ;
}

/// A producer that can also hand out elements from the back end of the
/// same remaining sequence.
pub trait DoubleEndedSource<T>: ForwardSource<T> {
    fn next_back_item(&mut self) -> (r: Option<T>)
        ensures
            old(self).remaining().len() == 0 ==> r is None && final(self).remaining()
                == old(self).remaining(),
            old(self).remaining().len() > 0 ==> r == Some(old(self).remaining().last())
                && final(self).remaining() == old(self).remaining().drop_last(),
    ;
}

/// Order preservation. Every adapter implements `ForwardSource` over its
/// own `remaining()`, and its peeks leave `remaining()` unchanged, so
/// consumption interleaved with arbitrary peeks behaves exactly like
/// consumption of the unwrapped source: each `next` yields
/// `remaining()[0]` and leaves `remaining().drop_first()`. This step
/// lemma discharges the induction that a run of `k` consumptions from a
/// remaining sequence `s` yields exactly `s.take(k)`, in order, with
/// `s.skip(k)` left — no element reordered or skipped.
pub proof fn lemma_consumption_enumerates<T>(s: Seq<T>, k: int)
    requires
        0 <= k < s.len(),
    ensures
        s.skip(k)[0] == s[k],
        s.skip(k).drop_first() == s.skip(k + 1),
        s.take(k + 1) == s.take(k).push(s[k]),
{
    assert(s.skip(k).drop_first() =~= s.skip(k + 1));
    assert(s.take(k + 1) =~= s.take(k).push(s[k]));
}

/// A double-ended source over the elements of a vector.
pub struct VecSource<T> {
    items: Vec<T>,
    lo: usize,
    hi: usize,
}

impl<T> VecSource<T> {
    #[verifier::type_invariant]
    closed spec fn wf(&self) -> bool {
        self.lo <= self.hi <= self.items@.len()
    }

    pub closed spec fn view_remaining(&self) -> Seq<T> {
        self.items@.subrange(self.lo as int, self.hi as int)
    }

    /// Wraps a vector; the source yields its elements in order.
    pub fn new(items: Vec<T>) -> (r: VecSource<T>)
        ensures
            r.view_remaining() == items@,
    {
        let hi = items.len();
        let r = VecSource { items, lo: 0, hi };
        proof {
            assert(r.view_remaining() =~= r.items@);
        }
        r
    }
}

impl<T> ForwardSource<T> for VecSource<T> where T: Copy {
    open spec fn remaining(&self) -> Seq<T> {
        self.view_remaining()
    }

    fn remaining_len(&self) -> (n: usize) {
        proof {
            use_type_invariant(self);
        }
        self.hi - self.lo
    }

    fn next_item(&mut self) -> (r: Option<T>) {
        proof {
            use_type_invariant(&*self);
        }
        if self.lo < self.hi {
            let v = self.items[self.lo];
            self.lo = self.lo + 1;
            proof {
                assert(self.view_remaining() =~= old(self).view_remaining().drop_first());
            }
            Some(v)
        } else {
            proof {
                assert(self.view_remaining() =~= old(self).view_remaining());
                assert(self.view_remaining().len() == 0);
            }
            None
        }
    }
}

impl<T> DoubleEndedSource<T> for VecSource<T> where T: Copy {
    fn next_back_item(&mut self) -> (r: Option<T>) {
        proof {
            use_type_invariant(&*self);
        }
        if self.lo < self.hi {
            let v = self.items[self.hi - 1];
            self.hi = self.hi - 1;
            proof {
                assert(self.view_remaining() =~= old(self).view_remaining().drop_last());
            }
            Some(v)
        } else {
            proof {
                assert(self.view_remaining() =~= old(self).view_remaining());
                assert(self.view_remaining().len() == 0);
            }
            None
        }
    }
}

/// A double-ended source over the integers of a half-open span `lo..hi`,
/// yielded in ascending order.
pub struct IntRange {
    lo: usize,
    hi: usize,
}

impl IntRange {
    pub closed spec fn view_remaining(&self) -> Seq<usize> {
        if self.lo <= self.hi {
            Seq::new((self.hi - self.lo) as nat, |i: int| (self.lo + i) as usize)
        } else {
            Seq::empty()
        }
    }

    /// The integers `lo..hi`; an inverted pair denotes the empty span.
    pub fn new(lo: usize, hi: usize) -> (r: IntRange)
        ensures
            r.remaining() == if lo <= hi {
                Seq::new((hi - lo) as nat, |i: int| (lo + i) as usize)
            } else {
                Seq::<usize>::empty()
            },
    {
        IntRange { lo, hi }
    }
}

impl ForwardSource<usize> for IntRange {
    open spec fn remaining(&self) -> Seq<usize> {
        self.view_remaining()
    }

    fn remaining_len(&self) -> (n: usize) {
        if self.lo < self.hi {
            self.hi - self.lo
        } else {
            0
        }
    }

    fn next_item(&mut self) -> (r: Option<usize>) {
        if self.lo < self.hi {
            let v = self.lo;
            self.lo = self.lo + 1;
            proof {
                assert(self.view_remaining() =~= old(self).view_remaining().drop_first());
            }
            Some(v)
        } else {
            proof {
                assert(self.view_remaining() =~= old(self).view_remaining());
            }
            None
        }
    }
}

impl DoubleEndedSource<usize> for IntRange {
    fn next_back_item(&mut self) -> (r: Option<usize>) {
        if self.lo < self.hi {
            let v = self.hi - 1;
            self.hi = self.hi - 1;
            proof {
                assert(self.view_remaining() =~= old(self).view_remaining().drop_last());
            }
            Some(v)
        } else {
            proof {
                assert(self.view_remaining() =~= old(self).view_remaining());
            }
            None
        }
    }
}

} // verus!
