//! A lightweight double-ended peek: one cached element per end.
//!
//! `PeekableDE` wraps a double-ended source and holds at most one peeked
//! element per end. Each slot distinguishes "never queried" from "queried,
//! source was exhausted" from "queried, holds this element", so that a
//! peek against an exhausted source is cached instead of querying again.

use vstd::prelude::*;
use vstd::std_specs::cmp::PartialEqSpec;

use crate::peeksource::PeekSource;
use crate::predicate::decides;
use crate::source::{DoubleEndedSource, ForwardSource};

verus! {

/// An adapter over a double-ended source with a one-element peek slot at
/// each end.
pub struct PeekableDE<T, S: DoubleEndedSource<T>> {
    iter: S,
    front: Option<Option<T>>,
    back: Option<Option<T>>,
}

impl<T, S: DoubleEndedSource<T>> PeekableDE<T, S> {
    /// A slot caching "source exhausted" is honest: the source really has
    /// nothing left. The fused source contract keeps it that way; the
    /// constructor establishes this well-formedness and every operation
    /// preserves it.
    pub closed spec fn wf(&self) -> bool {
        &&& (self.front matches Some(f) && f is None ==> self.iter.remaining().len() == 0)
        &&& (self.back matches Some(b) && b is None ==> self.iter.remaining().len() == 0)
    }

    /// Whether the front slot has been decided: it was queried and now
    /// caches either an element or the source's exhaustion.
    pub closed spec fn front_queried(&self) -> bool {
        self.front is Some
    }

    /// Whether the back slot has been decided: it was queried and now
    /// caches either an element or the source's exhaustion.
    pub closed spec fn back_queried(&self) -> bool {
        self.back is Some
    }

    /// The element held by the front slot, as a sequence of zero or one.
    pub closed spec fn front_item(&self) -> Seq<T> {
        match self.front {
            Some(Some(v)) => seq![v],
            _ => Seq::empty(),
        }
    }

    /// The element held by the back slot, as a sequence of zero or one.
    pub closed spec fn back_item(&self) -> Seq<T> {
        match self.back {
            Some(Some(v)) => seq![v],
            _ => Seq::empty(),
        }
    }

    /// The elements the wrapped source has not yet produced.
    pub closed spec fn source_remaining(&self) -> Seq<T> {
        self.iter.remaining()
    }

    /// Wraps a source; neither end has been queried yet.
    pub fn new(iter: S) -> (r: PeekableDE<T, S>)
        ensures
            r.wf(),
            r.remaining() == iter.remaining(),
            r.front_item() == Seq::<T>::empty(),
            r.back_item() == Seq::<T>::empty(),
            !r.front_queried(),
            !r.back_queried(),
    {
        let r = PeekableDE { iter, front: None, back: None };
        proof {
            assert(r.remaining() =~= r.iter.remaining());
        }
        r
    }

    /// Rebuilds an adapter from a source and one already-peeked element
    /// per end, where present.
    pub(crate) fn from_slots(iter: S, front: Option<T>, back: Option<T>) -> (r: PeekableDE<T, S>)
        ensures
            r.wf(),
            r.source_remaining() == iter.remaining(),
            r.front_item() == match front {
                Some(v) => seq![v],
                None => Seq::<T>::empty(),
            },
            r.back_item() == match back {
                Some(v) => seq![v],
                None => Seq::<T>::empty(),
            },
            r.front_queried() == front is Some,
            r.back_queried() == back is Some,
    {
        let front_slot = match front {
            Some(v) => Some(Some(v)),
            None => None,
        };
        let back_slot = match back {
            Some(v) => Some(Some(v)),
            None => None,
        };
        PeekableDE { iter, front: front_slot, back: back_slot }
    }

    /// Queries the source for the front slot if that slot has never been
    /// queried; afterwards the slot is decided one way or the other.
    fn fill_front(&mut self)
        requires
            old(self).wf(),
        ensures
            final(self).wf(),
            final(self).remaining() == old(self).remaining(),
            final(self).back == old(self).back,
            final(self).back_item() == old(self).back_item(),
            final(self).front is Some,
            old(self).front is Some ==> *final(self) == *old(self),
            final(self).front_item() == old(self).remaining().take(
                final(self).front_item().len() as int,
            ),
            final(self).front_item().len() == 0 ==> final(self).source_remaining().len() == 0,
    {
        proof {
            assert(self.front_item() =~= self.remaining().take(self.front_item().len() as int));
        }
        if self.front.is_none() {
            let got = self.iter.next_item();
            self.front = Some(got);
            proof {
                assert(self.remaining() =~= old(self).remaining());
                assert(self.front_item() =~= self.remaining().take(
                    self.front_item().len() as int,
                ));
            }
        }
    }

    /// Queries the source for the back slot if that slot has never been
    /// queried; afterwards the slot is decided one way or the other.
    fn fill_back(&mut self)
        requires
            old(self).wf(),
        ensures
            final(self).wf(),
            final(self).remaining() == old(self).remaining(),
            final(self).front == old(self).front,
            final(self).front_item() == old(self).front_item(),
            final(self).back is Some,
            old(self).back is Some ==> *final(self) == *old(self),
            final(self).back_item().len() > 0 ==> final(self).back_item() == seq![
                old(self).remaining().last(),
            ],
            final(self).back_item().len() == 0 ==> final(self).source_remaining().len() == 0,
    {
        if self.back.is_none() {
            let got = self.iter.next_back_item();
            self.back = Some(got);
            proof {
                assert(self.remaining() =~= old(self).remaining());
            }
        }
    }

    /// Inspects the next front element without consuming it, querying the
    /// source at most once; once the source is exhausted, the element held
    /// at the other end — if any — is the next front element.
    pub fn peek_front(&mut self) -> (r: Option<&T>)
        requires
            old(self).wf(),
        ensures
            final(self).wf(),
            final(self).remaining() == old(self).remaining(),
            final(self).back_item() == old(self).back_item(),
            r is Some <==> old(self).remaining().len() > 0,
            r matches Some(v) ==> *v == old(self).remaining()[0],
            final(self).front_queried(),
            final(self).back_queried() == old(self).back_queried(),
            old(self).front_queried() ==> *final(self) == *old(self),
            final(self).front_item() == old(self).remaining().take(
                final(self).front_item().len() as int,
            ),
            final(self).front_item().len() == 0 ==> final(self).source_remaining().len() == 0,
    {
        self.fill_front();
        match &self.front {
            Some(Some(v)) => Some(v),
            _ => {
                match &self.back {
                    Some(Some(v)) => Some(v),
                    _ => None,
                }
            },
        }
    }

    /// Inspects the next back element without consuming it, querying the
    /// source at most once; once the source is exhausted, the element held
    /// at the other end — if any — is the next back element.
    pub fn peek_back(&mut self) -> (r: Option<&T>)
        requires
            old(self).wf(),
        ensures
            final(self).wf(),
            final(self).remaining() == old(self).remaining(),
            final(self).front_item() == old(self).front_item(),
            r is Some <==> old(self).remaining().len() > 0,
            r matches Some(v) ==> *v == old(self).remaining().last(),
            final(self).back_queried(),
            final(self).front_queried() == old(self).front_queried(),
            old(self).back_queried() ==> *final(self) == *old(self),
            final(self).back_item().len() > 0 ==> final(self).back_item() == seq![
                old(self).remaining().last(),
            ],
            final(self).back_item().len() == 0 ==> final(self).source_remaining().len() == 0,
    {
        self.fill_back();
        match &self.back {
            Some(Some(v)) => Some(v),
            _ => {
                match &self.front {
                    Some(Some(v)) => Some(v),
                    _ => None,
                }
            },
        }
    }

    /// Overwrites the next front element, querying the source at most
    /// once; reports whether any element remained.
    pub fn peek_front_mut(&mut self, value: T) -> (r: bool)
        requires
            old(self).wf(),
        ensures
            final(self).wf(),
            r == (old(self).remaining().len() > 0),
            r ==> final(self).remaining() == old(self).remaining().update(0, value),
            !r ==> final(self).remaining() == old(self).remaining(),
    {
        self.fill_front();
        let has_front = matches!(&self.front, Some(Some(_)));
        if has_front {
            self.front = Some(Some(value));
            proof {
                assert(self.remaining() =~= old(self).remaining().update(0, value));
            }
            true
        } else {
            let has_back = matches!(&self.back, Some(Some(_)));
            if has_back {
                self.back = Some(Some(value));
                proof {
                    assert(self.remaining() =~= old(self).remaining().update(0, value));
                }
                true
            } else {
                proof {
                    assert(self.remaining() =~= old(self).remaining());
                }
                false
            }
        }
    }

    /// Overwrites the next back element, querying the source at most
    /// once; reports whether any element remained.
    pub fn peek_back_mut(&mut self, value: T) -> (r: bool)
        requires
            old(self).wf(),
        ensures
            final(self).wf(),
            r == (old(self).remaining().len() > 0),
            r ==> final(self).remaining() == old(self).remaining().update(
                old(self).remaining().len() - 1,
                value,
            ),
            !r ==> final(self).remaining() == old(self).remaining(),
    {
        self.fill_back();
        let has_back = matches!(&self.back, Some(Some(_)));
        if has_back {
            self.back = Some(Some(value));
            proof {
                assert(self.remaining() =~= old(self).remaining().update(
                    old(self).remaining().len() - 1,
                    value,
                ));
            }
            true
        } else {
            let has_front = matches!(&self.front, Some(Some(_)));
            if has_front {
                self.front = Some(Some(value));
                proof {
                    assert(self.remaining() =~= old(self).remaining().update(
                        old(self).remaining().len() - 1,
                        value,
                    ));
                }
                true
            } else {
                proof {
                    assert(self.remaining() =~= old(self).remaining());
                }
                false
            }
        }
    }

    /// Consumes and returns the next front element: the front slot first,
    /// then the source, then — once both are exhausted — the back slot.
    pub fn next(&mut self) -> (r: Option<T>)
        ensures
            old(self).wf() ==> final(self).wf(),
            old(self).remaining().len() == 0 ==> r is None && final(self).remaining() == old(self).remaining(),
            old(self).remaining().len() > 0 ==> r == Some(old(self).remaining()[0]) && final(self).remaining() == old(self).remaining().drop_first(),
    {
        match self.next_with_source() {
            Some(tagged) => Some(tagged.into_item()),
            None => None,
        }
    }

    /// Consumes and returns the next back element: the back slot first,
    /// then the source, then — once both are exhausted — the front slot.
    pub fn next_back(&mut self) -> (r: Option<T>)
        ensures
            old(self).wf() ==> final(self).wf(),
            old(self).remaining().len() == 0 ==> r is None && final(self).remaining() == old(self).remaining(),
            old(self).remaining().len() > 0 ==> r == Some(old(self).remaining().last()) && final(self).remaining() == old(self).remaining().drop_last(),
    {
        match self.next_back_with_source() {
            Some(tagged) => Some(tagged.into_item()),
            None => None,
        }
    }

    /// Consumes the next front element with its origin tag.
    fn next_with_source(&mut self) -> (r: Option<PeekSource<T>>)
        ensures
            old(self).wf() ==> final(self).wf(),
            old(self).remaining().len() == 0 ==> r is None && final(self).remaining() == old(self).remaining() && final(self).front_item() == old(self).front_item() && final(self).back_item() == old(self).back_item(),
            r matches Some(ps) ==> ps.item() == old(self).remaining()[0] && final(self).remaining()
                == old(self).remaining().drop_first(),
            r is Some <==> old(self).remaining().len() > 0,
            r matches Some(ps) && ps is Front ==> old(self).front_item().len() > 0 && final(self).front_item().len() == 0 && final(self).back_item() == old(self).back_item(),
            r matches Some(ps) && ps is Iter ==> old(self).front_item().len() == 0 && final(self).front_item().len() == 0 && final(self).back_item() == old(self).back_item(),
            r matches Some(ps) && ps is Back ==> old(self).front_item().len() == 0 && final(self).front_item().len() == 0 && old(self).source_remaining().len() == 0 && final(self).source_remaining().len() == 0 && final(self).back_item().len() == 0,
    {
        let taken = self.front.take();
        match taken {
            Some(Some(v)) => {
                proof {
                    assert(self.remaining() =~= old(self).remaining().drop_first());
                }
                Some(PeekSource::Front(v))
            },
            _ => {
                match self.iter.next_item() {
                    Some(v) => {
                        proof {
                            assert(self.remaining() =~= old(self).remaining().drop_first());
                        }
                        Some(PeekSource::Iter(v))
                    },
                    None => {
                        let back_taken = self.back.take();
                        match back_taken {
                            Some(Some(v)) => {
                                proof {
                                    assert(self.remaining() =~= old(self).remaining().drop_first());
                                }
                                Some(PeekSource::Back(v))
                            },
                            _ => {
                                proof {
                                    assert(self.remaining() =~= old(self).remaining());
                                }
                                None
                            },
                        }
                    },
                }
            },
        }
    }

    /// Restores a rejected front-side element to where it came from.
    fn cache_front(&mut self, item: PeekSource<T>)
        ensures
            old(self).wf() ==> final(self).wf(),
            item is Front || item is Iter ==> final(self).front_item() == seq![item.item()]
                && final(self).back_item() == old(self).back_item(),
            item is Back ==> final(self).back_item() == seq![item.item()] && final(self).front_item() == old(self).front_item(),
            final(self).source_remaining() == old(self).source_remaining(),
    {
        match item {
            PeekSource::Front(v) => {
                self.front = Some(Some(v));
            },
            PeekSource::Iter(v) => {
                self.front = Some(Some(v));
            },
            PeekSource::Back(v) => {
                self.back = Some(Some(v));
            },
        }
    }

    /// Consumes the next back element with its origin tag.
    fn next_back_with_source(&mut self) -> (r: Option<PeekSource<T>>)
        ensures
            old(self).wf() ==> final(self).wf(),
            old(self).remaining().len() == 0 ==> r is None && final(self).remaining() == old(self).remaining() && final(self).front_item() == old(self).front_item() && final(self).back_item() == old(self).back_item(),
            r matches Some(ps) ==> ps.item() == old(self).remaining().last() && final(self).remaining() == old(self).remaining().drop_last(),
            r is Some <==> old(self).remaining().len() > 0,
            r matches Some(ps) && ps is Back ==> old(self).back_item().len() > 0 && final(self).back_item().len() == 0 && final(self).front_item() == old(self).front_item(),
            r matches Some(ps) && ps is Iter ==> old(self).back_item().len() == 0 && final(self).back_item().len() == 0 && final(self).front_item() == old(self).front_item(),
            r matches Some(ps) && ps is Front ==> old(self).back_item().len() == 0 && final(self).back_item().len() == 0 && old(self).source_remaining().len() == 0 && final(self).source_remaining().len() == 0 && final(self).front_item().len() == 0,
    {
        let taken = self.back.take();
        match taken {
            Some(Some(v)) => {
                proof {
                    assert(self.remaining() =~= old(self).remaining().drop_last());
                }
                Some(PeekSource::Back(v))
            },
            _ => {
                match self.iter.next_back_item() {
                    Some(v) => {
                        proof {
                            assert(self.remaining() =~= old(self).remaining().drop_last());
                        }
                        Some(PeekSource::Iter(v))
                    },
                    None => {
                        let front_taken = self.front.take();
                        match front_taken {
                            Some(Some(v)) => {
                                proof {
                                    assert(self.remaining() =~= old(self).remaining().drop_last());
                                }
                                Some(PeekSource::Front(v))
                            },
                            _ => {
                                proof {
                                    assert(self.remaining() =~= old(self).remaining());
                                }
                                None
                            },
                        }
                    },
                }
            },
        }
    }

    /// Restores a rejected back-side element to where it came from.
    fn cache_back(&mut self, item: PeekSource<T>)
        ensures
            old(self).wf() ==> final(self).wf(),
            item is Back || item is Iter ==> final(self).back_item() == seq![item.item()] && final(self).front_item() == old(self).front_item(),
            item is Front ==> final(self).front_item() == seq![item.item()] && final(self).back_item() == old(self).back_item(),
            final(self).source_remaining() == old(self).source_remaining(),
    {
        match item {
            PeekSource::Front(v) => {
                self.front = Some(Some(v));
            },
            PeekSource::Iter(v) => {
                self.back = Some(Some(v));
            },
            PeekSource::Back(v) => {
                self.back = Some(Some(v));
            },
        }
    }

    /// Consumes and returns the next front element only if the predicate
    /// accepts it; a rejected element is restored to the correct side, so
    /// the remaining sequence is exactly what it was before the call.
    pub fn next_if<F: FnOnce(&T) -> bool>(&mut self, func: F) -> (r: Option<T>)
        requires
            forall|x: &T| #[trigger] call_requires(func, (x,)),
        ensures
            old(self).wf() ==> final(self).wf(),
            old(self).remaining().len() == 0 ==> r is None,
            r matches Some(v) ==> old(self).remaining().len() > 0 && v == old(self).remaining()[0]
                && final(self).remaining() == old(self).remaining().drop_first(),
            r is None ==> final(self).remaining() == old(self).remaining(),
            r is None && old(self).front_item().len() > 0 ==> final(self).front_item() == old(self).front_item() && final(self).back_item() == old(self).back_item(),
            r is None && old(self).front_item().len() == 0 && old(self).source_remaining().len()
                > 0 ==> final(self).front_item() == seq![old(self).remaining()[0]] && final(self).back_item() == old(self).back_item(),
            r is None && old(self).front_item().len() == 0 && old(self).source_remaining().len()
                == 0 ==> final(self).front_item().len() == 0 && final(self).back_item() == old(self).back_item(),
            r matches Some(v) ==> decides(func, v, true),
            r is None && old(self).remaining().len() > 0 ==> decides(
                func,
                old(self).remaining()[0],
                false,
            ),
    {
        match self.next_with_source() {
            Some(tagged) => {
                let accepted = {
                    let item_ref = tagged.as_ref();
                    let verdict = func(item_ref);
                    proof {
                        assert(decides(func, tagged.item(), verdict)) by {
                            assert(*item_ref == tagged.item() && call_ensures(
                                func,
                                (item_ref,),
                                verdict,
                            ));
                        }
                    }
                    verdict
                };
                if accepted {
                    Some(tagged.into_item())
                } else {
                    let ghost rem0 = old(self).remaining();
                    let ghost tag = tagged;
                    self.cache_front(tagged);
                    proof {
                        if tag is Back {
                            assert(self.remaining() =~= rem0);
                        } else {
                            assert(self.remaining() =~= seq![tag.item()] + rem0.drop_first());
                            assert(seq![tag.item()] + rem0.drop_first() =~= rem0);
                        }
                        if tag is Front {
                            assert(self.front_item() =~= old(self).front_item());
                        }
                        if tag is Iter {
                            assert(self.front_item() =~= seq![old(self).remaining()[0]]);
                        }
                        if tag is Back {
                            assert(self.back_item() =~= old(self).back_item());
                        }
                    }
                    None
                }
            },
            None => None,
        }
    }

    /// Consumes and returns the next back element only if the predicate
    /// accepts it; a rejected element is restored to the correct side.
    pub fn next_back_if<F: FnOnce(&T) -> bool>(&mut self, func: F) -> (r: Option<T>)
        requires
            forall|x: &T| #[trigger] call_requires(func, (x,)),
        ensures
            old(self).wf() ==> final(self).wf(),
            old(self).remaining().len() == 0 ==> r is None,
            r matches Some(v) ==> old(self).remaining().len() > 0 && v == old(self).remaining().last() && final(self).remaining() == old(self).remaining().drop_last(),
            r is None ==> final(self).remaining() == old(self).remaining(),
            r is None && old(self).back_item().len() > 0 ==> final(self).back_item() == old(self).back_item() && final(self).front_item() == old(self).front_item(),
            r is None && old(self).back_item().len() == 0 && old(self).source_remaining().len()
                > 0 ==> final(self).back_item() == seq![old(self).remaining().last()] && final(self).front_item() == old(self).front_item(),
            r is None && old(self).back_item().len() == 0 && old(self).source_remaining().len()
                == 0 ==> final(self).back_item().len() == 0 && final(self).front_item() == old(self).front_item(),
            r matches Some(v) ==> decides(func, v, true),
            r is None && old(self).remaining().len() > 0 ==> decides(
                func,
                old(self).remaining().last(),
                false,
            ),
    {
        match self.next_back_with_source() {
            Some(tagged) => {
                let accepted = {
                    let item_ref = tagged.as_ref();
                    let verdict = func(item_ref);
                    proof {
                        assert(decides(func, tagged.item(), verdict)) by {
                            assert(*item_ref == tagged.item() && call_ensures(
                                func,
                                (item_ref,),
                                verdict,
                            ));
                        }
                    }
                    verdict
                };
                if accepted {
                    Some(tagged.into_item())
                } else {
                    let ghost rem0 = old(self).remaining();
                    let ghost tag = tagged;
                    self.cache_back(tagged);
                    proof {
                        if tag is Front {
                            assert(self.remaining() =~= rem0);
                        } else {
                            assert(self.remaining() =~= rem0.drop_last() + seq![tag.item()]);
                            assert(rem0.drop_last() + seq![tag.item()] =~= rem0);
                        }
                        if tag is Back {
                            assert(self.back_item() =~= old(self).back_item());
                        }
                        if tag is Iter {
                            assert(self.back_item() =~= seq![old(self).remaining().last()]);
                        }
                        if tag is Front {
                            assert(self.front_item() =~= old(self).front_item());
                        }
                    }
                    None
                }
            },
            None => None,
        }
    }

    /// Consumes and returns the next front element only if it equals
    /// `expected`; a rejected element is restored to the correct side.
    pub fn next_if_eq(&mut self, expected: &T) -> (r: Option<T>) where T: PartialEqSpec
        ensures
            old(self).wf() ==> final(self).wf(),
            old(self).remaining().len() == 0 ==> r is None,
            r matches Some(v) ==> old(self).remaining().len() > 0 && v == old(self).remaining()[0]
                && final(self).remaining() == old(self).remaining().drop_first(),
            r is None ==> final(self).remaining() == old(self).remaining(),
            r is None && old(self).front_item().len() > 0 ==> final(self).front_item() == old(self).front_item() && final(self).back_item() == old(self).back_item(),
            r is None && old(self).front_item().len() == 0 && old(self).source_remaining().len()
                > 0 ==> final(self).front_item() == seq![old(self).remaining()[0]] && final(self).back_item() == old(self).back_item(),
            r is None && old(self).front_item().len() == 0 && old(self).source_remaining().len()
                == 0 ==> final(self).front_item().len() == 0 && final(self).back_item() == old(self).back_item(),
            T::obeys_eq_spec() ==> (r is Some <==> old(self).remaining().len() > 0 && old(self).remaining()[0].eq_spec(expected)),
    {
        match self.next_with_source() {
            Some(tagged) => {
                let accepted = tagged.as_ref().eq(expected);
                if accepted {
                    Some(tagged.into_item())
                } else {
                    let ghost rem0 = old(self).remaining();
                    let ghost tag = tagged;
                    self.cache_front(tagged);
                    proof {
                        if tag is Back {
                            assert(self.remaining() =~= rem0);
                        } else {
                            assert(self.remaining() =~= seq![tag.item()] + rem0.drop_first());
                            assert(seq![tag.item()] + rem0.drop_first() =~= rem0);
                        }
                        if tag is Front {
                            assert(self.front_item() =~= old(self).front_item());
                        }
                        if tag is Iter {
                            assert(self.front_item() =~= seq![old(self).remaining()[0]]);
                        }
                        if tag is Back {
                            assert(self.back_item() =~= old(self).back_item());
                        }
                    }
                    None
                }
            },
            None => None,
        }
    }

    /// Consumes and returns the next back element only if it equals
    /// `expected`; a rejected element is restored to the correct side.
    pub fn next_back_if_eq(&mut self, expected: &T) -> (r: Option<T>) where T: PartialEqSpec
        ensures
            old(self).wf() ==> final(self).wf(),
            old(self).remaining().len() == 0 ==> r is None,
            r matches Some(v) ==> old(self).remaining().len() > 0 && v == old(self).remaining().last() && final(self).remaining() == old(self).remaining().drop_last(),
            r is None ==> final(self).remaining() == old(self).remaining(),
            r is None && old(self).back_item().len() > 0 ==> final(self).back_item() == old(self).back_item() && final(self).front_item() == old(self).front_item(),
            r is None && old(self).back_item().len() == 0 && old(self).source_remaining().len()
                > 0 ==> final(self).back_item() == seq![old(self).remaining().last()] && final(self).front_item() == old(self).front_item(),
            r is None && old(self).back_item().len() == 0 && old(self).source_remaining().len()
                == 0 ==> final(self).back_item().len() == 0 && final(self).front_item() == old(self).front_item(),
            T::obeys_eq_spec() ==> (r is Some <==> old(self).remaining().len() > 0 && old(self).remaining().last().eq_spec(expected)),
    {
        match self.next_back_with_source() {
            Some(tagged) => {
                let accepted = tagged.as_ref().eq(expected);
                if accepted {
                    Some(tagged.into_item())
                } else {
                    let ghost rem0 = old(self).remaining();
                    let ghost tag = tagged;
                    self.cache_back(tagged);
                    proof {
                        if tag is Front {
                            assert(self.remaining() =~= rem0);
                        } else {
                            assert(self.remaining() =~= rem0.drop_last() + seq![tag.item()]);
                            assert(rem0.drop_last() + seq![tag.item()] =~= rem0);
                        }
                        if tag is Back {
                            assert(self.back_item() =~= old(self).back_item());
                        }
                        if tag is Iter {
                            assert(self.back_item() =~= seq![old(self).remaining().last()]);
                        }
                        if tag is Front {
                            assert(self.front_item() =~= old(self).front_item());
                        }
                    }
                    None
                }
            },
            None => None,
        }
    }

    /// Consumes and returns the front elements that a run of `next_if`
    /// calls would accept, stopping at the first rejection or exhaustion.
    pub fn while_next_front<F: Fn(&T) -> bool>(&mut self, func: F) -> (r: Vec<T>)
        requires
            forall|x: &T| #[trigger] call_requires(func, (x,)),
        ensures
            old(self).wf() ==> final(self).wf(),
            r@.len() <= old(self).remaining().len(),
            r@ == old(self).remaining().take(r@.len() as int),
            final(self).remaining() == old(self).remaining().skip(r@.len() as int),
            forall|k: int| 0 <= k < r@.len() ==> decides(func, #[trigger] r@[k], true),
            r@.len() < old(self).remaining().len() ==> decides(
                func,
                old(self).remaining()[r@.len() as int],
                false,
            ),
    {
        let ghost all = old(self).remaining();
        let ghost wf0 = self.wf();
        let mut out: Vec<T> = Vec::new();
        let mut done = false;
        proof {
            assert(all.take(0) =~= out@);
            assert(all.skip(0) =~= all);
        }
        while !done
            invariant
                forall|x: &T| #[trigger] call_requires(func, (x,)),
                wf0 ==> self.wf(),
                out@.len() <= all.len(),
                out@ == all.take(out@.len() as int),
                self.remaining() == all.skip(out@.len() as int),
                forall|k: int| 0 <= k < out@.len() ==> decides(func, #[trigger] out@[k], true),
                done ==> (out@.len() == all.len() || decides(func, all[out@.len() as int], false)),
            decreases all.len() - out@.len() + if done {
                0int
            } else {
                1int
            },
        {
            let ghost k = out@.len() as int;
            match self.next_if(&func) {
                Some(item) => {
                    out.push(item);
                    proof {
                        assert(out@ =~= all.take(out@.len() as int));
                    }
                },
                None => {
                    done = true;
                },
            }
        }
        out
    }

    /// Consumes and returns the back elements that a run of `next_back_if`
    /// calls would accept, stopping at the first rejection or exhaustion.
    pub fn while_next_back<F: Fn(&T) -> bool>(&mut self, func: F) -> (r: Vec<T>)
        requires
            forall|x: &T| #[trigger] call_requires(func, (x,)),
        ensures
            old(self).wf() ==> final(self).wf(),
            r@.len() <= old(self).remaining().len(),
            r@ == old(self).remaining().skip(
                old(self).remaining().len() - r@.len(),
            ).reverse(),
            final(self).remaining() == old(self).remaining().take(
                old(self).remaining().len() - r@.len(),
            ),
            forall|k: int| 0 <= k < r@.len() ==> decides(func, #[trigger] r@[k], true),
            r@.len() < old(self).remaining().len() ==> decides(
                func,
                old(self).remaining()[old(self).remaining().len() - r@.len() - 1],
                false,
            ),
    {
        let ghost all = old(self).remaining();
        let ghost wf0 = self.wf();
        let mut out: Vec<T> = Vec::new();
        let mut done = false;
        proof {
            assert(all.skip(all.len() as int).reverse() =~= out@);
            assert(all.take(all.len() as int) =~= all);
        }
        while !done
            invariant
                forall|x: &T| #[trigger] call_requires(func, (x,)),
                wf0 ==> self.wf(),
                out@.len() <= all.len(),
                out@ == all.skip(all.len() - out@.len()).reverse(),
                self.remaining() == all.take(all.len() - out@.len()),
                forall|k: int| 0 <= k < out@.len() ==> decides(func, #[trigger] out@[k], true),
                done ==> (out@.len() == all.len() || decides(
                    func,
                    all[all.len() - out@.len() - 1],
                    false,
                )),
            decreases all.len() - out@.len() + if done {
                0int
            } else {
                1int
            },
        {
            match self.next_back_if(&func) {
                Some(item) => {
                    out.push(item);
                    proof {
                        assert(out@ =~= all.skip(all.len() - out@.len()).reverse());
                    }
                },
                None => {
                    done = true;
                },
            }
        }
        out
    }

    /// Whether the front slot currently holds a peeked element.
    pub fn has_front_peeked(&self) -> (r: bool)
        ensures
            r == (self.front_item().len() > 0),
    {
        matches!(&self.front, Some(Some(_)))
    }

    /// Whether the back slot currently holds a peeked element.
    pub fn has_back_peeked(&self) -> (r: bool)
        ensures
            r == (self.back_item().len() > 0),
    {
        matches!(&self.back, Some(Some(_)))
    }

    /// Discards the front slot, peeked element and cached exhaustion
    /// alike; a held element is lost, not replayed.
    pub fn clear_front_peeked(&mut self)
        ensures
            old(self).wf() ==> final(self).wf(),
            !final(self).front_queried(),
            final(self).back_queried() == old(self).back_queried(),
            final(self).front_item() == Seq::<T>::empty(),
            final(self).back_item() == old(self).back_item(),
            final(self).remaining() == old(self).remaining().skip(
                old(self).front_item().len() as int,
            ),
    {
        self.front = None;
        proof {
            assert(self.remaining() =~= old(self).remaining().skip(
                old(self).front_item().len() as int,
            ));
        }
    }

    /// Discards the back slot, peeked element and cached exhaustion
    /// alike; a held element is lost, not replayed.
    pub fn clear_back_peeked(&mut self)
        ensures
            old(self).wf() ==> final(self).wf(),
            !final(self).back_queried(),
            final(self).front_queried() == old(self).front_queried(),
            final(self).back_item() == Seq::<T>::empty(),
            final(self).front_item() == old(self).front_item(),
            final(self).remaining() == old(self).remaining().take(
                old(self).remaining().len() - old(self).back_item().len(),
            ),
    {
        self.back = None;
        proof {
            assert(self.remaining() =~= old(self).remaining().take(
                old(self).remaining().len() - old(self).back_item().len(),
            ));
        }
    }

    /// Discards both slots without advancing the source.
    pub fn clear_peeked(&mut self)
        ensures
            old(self).wf() ==> final(self).wf(),
            !final(self).front_queried(),
            !final(self).back_queried(),
            final(self).front_item() == Seq::<T>::empty(),
            final(self).back_item() == Seq::<T>::empty(),
            final(self).remaining() == old(self).remaining().skip(
                old(self).front_item().len() as int,
            ).take(
                old(self).remaining().len() - old(self).front_item().len() - old(self).back_item().len(),
            ),
    {
        let ghost rem0 = self.remaining();
        self.clear_front_peeked();
        self.clear_back_peeked();
        proof {
            assert(self.remaining() =~= rem0.skip(old(self).front_item().len() as int).take(
                rem0.len() - old(self).front_item().len() - old(self).back_item().len(),
            ));
        }
    }

    /// Hands back the wrapped source, discarding both peek slots: what was
    /// peeked at either end is lost.
    pub fn into_peekable_lossy(self) -> (r: S)
        ensures
            r.remaining() == self.source_remaining(),
    {
        self.iter
    }
}

impl<T, S: DoubleEndedSource<T>> ForwardSource<T> for PeekableDE<T, S> {
    /// The front slot's element comes first and the back slot's element
    /// last; the source's remaining elements lie between them.
    open spec fn remaining(&self) -> Seq<T> {
        self.front_item() + self.source_remaining() + self.back_item()
    }

    fn next_item(&mut self) -> (r: Option<T>) {
        self.next()
    }

    fn remaining_len(&self) -> (n: usize) {
        let slots: usize = if matches!(&self.front, Some(Some(_))) {
            1
        } else {
            0
        };
        let slots = if matches!(&self.back, Some(Some(_))) {
            slots + 1
        } else {
            slots
        };
        slots + self.iter.remaining_len()
    }
}

impl<T, S: DoubleEndedSource<T>> DoubleEndedSource<T> for PeekableDE<T, S> {
    fn next_back_item(&mut self) -> (r: Option<T>) {
        self.next_back()
    }
}

/// Wraps a double-ended source in a `PeekableDE`.
pub fn peekablede<T, S: DoubleEndedSource<T>>(iter: S) -> (r: PeekableDE<T, S>)
    ensures
        r.wf(),
        r.remaining() == iter.remaining(),
        r.front_item() == Seq::<T>::empty(),
        r.back_item() == Seq::<T>::empty(),
        !r.front_queried(),
        !r.back_queried(),
{
    PeekableDE::new(iter)
}

} // verus!
