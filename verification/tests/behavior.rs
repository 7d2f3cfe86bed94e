use peeknth::{
    Buffer, Either, ForwardSource, IndexRange, IntRange, RangeEdge, VecSource, get_start_end,
    peekablede, peekdn, peekn, sizedpeekdn, sizedpeekn,
};

#[test]
fn order_preserved_under_interleaved_peeks() {
    // Peeks at arbitrary depths never reorder or skip consumption.
    let mut plain = VecSource::new(vec![4, 8, 15, 16, 23, 42]);
    let mut adapter = peekdn(VecSource::new(vec![4, 8, 15, 16, 23, 42]));
    let _ = adapter.peek_front_nth(3);
    let _ = adapter.peek_back_nth(1);
    let _ = adapter.peek_front();
    let mut direct = Vec::new();
    let mut wrapped = Vec::new();
    loop {
        match plain.next_item() {
            Some(v) => direct.push(v),
            None => break,
        }
    }
    loop {
        match adapter.next() {
            Some(v) => wrapped.push(v),
            None => break,
        }
    }
    assert_eq!(direct, wrapped);
}

#[test]
fn idempotent_peek() {
    let mut iter = peekn(IntRange::new(0, 50));
    let first = *iter.peek_nth(3).unwrap();
    let len_after_first = iter.peeked_len();
    let second = *iter.peek_nth(3).unwrap();
    assert_eq!(first, second);
    assert_eq!(iter.peeked_len(), len_after_first);
}

#[test]
fn push_back_exactness_forward() {
    // A rejected element leaves the consumption sequence untouched.
    let mut with_reject = peekn(VecSource::new(vec![7, 9, 11]));
    assert_eq!(with_reject.next_if(|&x| x > 100), None);
    let drained = with_reject.while_next(|_| true);
    assert_eq!(drained, vec![7, 9, 11]);
}

#[test]
fn push_back_exactness_double_ended() {
    // Rejections restore the element to the structurally correct region,
    // even when both regions already hold elements.
    let mut iter = peekdn(IntRange::new(1, 6));
    let _ = iter.peek_front_nth(1); // front region: 1, 2
    let _ = iter.peek_back_nth(1); // back region: 5, 4
    assert_eq!(iter.next_back_if(|&x| x > 100), None);
    assert_eq!(iter.next_if(|&x| x > 100), None);
    assert_eq!(iter.next_back(), Some(5));
    assert_eq!(iter.next_back(), Some(4));
    assert_eq!(iter.next(), Some(1));
    assert_eq!(iter.next(), Some(2));
    assert_eq!(iter.next(), Some(3));
    assert_eq!(iter.next(), None);
}

#[test]
fn full_depth_peeks_within_capacity() {
    // With bound 3, every depth 0..3 succeeds on a long source.
    let mut iter = sizedpeekn::<_, _, 3>(IntRange::new(0, 100));
    assert_eq!(iter.peek_nth(0), Some(&0));
    assert_eq!(iter.peek_nth(1), Some(&1));
    assert_eq!(iter.peek_nth(2), Some(&2));
    assert_eq!(iter.peeked_len(), 3);
}

#[test]
fn sized_while_peek_stops_at_capacity() {
    let mut iter = sizedpeekn::<_, _, 2>(IntRange::new(0, 100));
    let count = iter.while_peek(|_| true);
    assert_eq!(count, 2);
}

#[test]
fn cross_end_convergence() {
    // Peeking 2 from the front and 2 from the back of a 4-element source
    // makes every element retrievable from both ends.
    let mut iter = peekdn(IntRange::new(1, 5));
    let _ = iter.peek_front_nth(1);
    let _ = iter.peek_back_nth(1);
    for i in 0..4usize {
        assert_eq!(iter.peek_front_nth(i), Some(&(1 + i)));
        assert_eq!(iter.peek_back_nth(i), Some(&(4 - i)));
    }
    assert_eq!(iter.peek_front_nth(4), None);
    assert_eq!(iter.peek_back_nth(4), None);
}

#[test]
fn deep_peek_falls_back_into_other_region() {
    // Once the source is exhausted, a deep front peek resolves into the
    // back region.
    let mut iter = peekdn(IntRange::new(1, 4));
    assert_eq!(iter.peek_back_nth(2), Some(&1)); // back region holds 3, 2, 1
    assert_eq!(iter.front_peeked_len(), 0);
    assert_eq!(iter.peek_front_nth(0), Some(&1));
    assert_eq!(iter.peek_front_nth(2), Some(&3));
    assert_eq!(iter.peek_front_nth(3), None);
}

#[test]
fn reindex_after_consumption() {
    // Depths re-aim as elements are consumed from either end.
    let mut iter = peekdn(IntRange::new(1, 6));
    assert_eq!(iter.peek_front_nth(2), Some(&3));
    assert_eq!(iter.next(), Some(1));
    assert_eq!(iter.next_back(), Some(5));
    assert_eq!(iter.peek_front_nth(1), Some(&3));
}

#[test]
fn peek_range_then_next() {
    let mut iter = peekn(IntRange::new(0, 100));
    let values = iter.peek_range(IndexRange::to(2, 5));
    assert_eq!(values, vec![2, 3, 4]);
    assert_eq!(iter.next(), Some(0));
    assert_eq!(iter.next(), Some(1));
    assert_eq!(iter.next(), Some(2));
}

#[test]
fn peek_range_truncated_by_exhaustion() {
    let mut iter = peekn(VecSource::new(vec![1, 2, 3]));
    let values = iter.peek_range(IndexRange::to(1, 10));
    assert_eq!(values, vec![2, 3]);
    let none = iter.peek_range(IndexRange::to(5, 10));
    assert_eq!(none, Vec::<i32>::new());
}

#[test]
fn sized_peek_range_uses_ring_view() {
    let mut iter = sizedpeekn::<_, _, 5>(IntRange::new(0, 100));
    let values = iter.peek_range(IndexRange::to(1, 4));
    assert_eq!(values, vec![1, 2, 3]);
    let full = iter.peek_range(IndexRange::to_inclusive(0, 4));
    assert_eq!(full, vec![0, 1, 2, 3, 4]);
}

#[test]
fn lightweight_cross_end() {
    let mut iter = peekablede(IntRange::new(1, 4));
    assert_eq!(iter.next(), Some(1));
    assert_eq!(iter.next_back(), Some(3));
    assert_eq!(iter.next(), Some(2));
    assert_eq!(iter.next_back(), None);
}

#[test]
fn single_element_seen_from_both_ends() {
    let mut iter = peekablede(IntRange::new(1, 2));
    assert_eq!(iter.peek_back(), Some(&1));
    assert_eq!(iter.peek_front(), Some(&1));
    assert_eq!(iter.next(), Some(1));
    assert_eq!(iter.next_back(), None);
    assert_eq!(iter.peek_front(), None);
}

#[test]
fn forward_to_double_round_trip() {
    // Buffered elements keep value and order in the new front region.
    let mut fwd = peekn(IntRange::new(1, 6));
    let _ = fwd.peek_nth(2); // buffer: 1, 2, 3
    assert_eq!(fwd.peeked_len(), 3);
    let mut de = fwd.into_peekdn();
    assert_eq!(de.front_peeked_len(), 3);
    assert_eq!(de.back_peeked_len(), 0);
    let all = de.while_next_front(|_| true);
    assert_eq!(all, vec![1, 2, 3, 4, 5]);
}

#[test]
fn sized_to_growable_round_trip() {
    let mut fixed = sizedpeekn::<_, _, 4>(IntRange::new(1, 6));
    let _ = fixed.peek_nth(1); // buffer: 1, 2
    let mut grown = fixed.into_peekn();
    assert_eq!(grown.peeked_len(), 2);
    let all = grown.while_next(|_| true);
    assert_eq!(all, vec![1, 2, 3, 4, 5]);
}

#[test]
fn sized_forward_to_sized_double() {
    let mut fixed = sizedpeekn::<_, _, 3>(IntRange::new(1, 6));
    let _ = fixed.peek_nth(2); // buffer: 1, 2, 3
    let mut de = fixed.into_sizedpeekdn::<2>();
    assert_eq!(de.front_peeked_len(), 3);
    assert_eq!(de.next_back(), Some(5));
    assert_eq!(de.next(), Some(1));
}

#[test]
fn double_to_forward_drops_lookbehind() {
    let mut de = peekdn(IntRange::new(1, 6));
    let _ = de.peek_front_nth(1); // front region: 1, 2
    let _ = de.peek_back_nth(0); // back region: 5
    let mut fwd = de.into_peekn();
    // the front region and the source carry over; the back region is lost
    let all = fwd.while_next(|_| true);
    assert_eq!(all, vec![1, 2, 3, 4]);
}

#[test]
fn ring_buffer_wraparound() {
    let mut buf: Buffer<u32, 4> = Buffer::new();
    buf.push_back(1);
    buf.push_back(2);
    buf.push_back(3);
    assert_eq!(buf.pop_front(), Some(1));
    buf.push_back(4);
    buf.push_back(5); // wraps past the last slot
    assert_eq!(buf.len(), 4);
    assert_eq!(buf.get(0), Some(&2));
    assert_eq!(buf.get(3), Some(&5));
    assert_eq!(buf.pop_back(), Some(5));
    assert_eq!(buf.pop_front(), Some(2));
    assert_eq!(buf.len(), 2);
}

#[test]
fn ring_buffer_push_front() {
    let mut buf: Buffer<u32, 3> = Buffer::new();
    buf.push_back(2);
    buf.push_front(1);
    buf.push_back(3);
    assert_eq!(buf.get(0), Some(&1));
    assert_eq!(buf.get(1), Some(&2));
    assert_eq!(buf.get(2), Some(&3));
    assert_eq!(buf.get(3), None);
}

#[test]
fn ring_buffer_drain_prefix_suffix_interior() {
    let mut buf: Buffer<u32, 8> = Buffer::from_iter(vec![1, 2, 3, 4, 5, 6]);
    buf.drain(IndexRange::upto(2)); // prefix: drop 1, 2
    assert_eq!(buf.len(), 4);
    assert_eq!(buf.get(0), Some(&3));
    buf.drain(IndexRange::from(3)); // suffix: drop 6
    assert_eq!(buf.len(), 3);
    assert_eq!(buf.get(2), Some(&5));
    buf.drain(IndexRange::to(1, 2)); // interior: drop 4, shifting 5 down
    assert_eq!(buf.len(), 2);
    assert_eq!(buf.get(0), Some(&3));
    assert_eq!(buf.get(1), Some(&5));
}

#[test]
fn ring_buffer_range_contiguous_and_wrapped() {
    let mut buf: Buffer<u32, 4> = Buffer::new();
    buf.push_back(1);
    buf.push_back(2);
    buf.push_back(3);
    match buf.range(IndexRange::to(0, 3)) {
        Either::Single(v) => assert_eq!(v, vec![1, 2, 3]),
        Either::Chain(_) => panic!("a span that does not wrap must be single"),
    }
    // advance the head so that the live range wraps past the last slot
    assert_eq!(buf.pop_front(), Some(1));
    assert_eq!(buf.pop_front(), Some(2));
    buf.push_back(4);
    buf.push_back(5);
    buf.push_back(6);
    match buf.range(IndexRange::full()) {
        Either::Single(_) => panic!("a wrapped span must be chained"),
        Either::Chain((a, b)) => {
            assert_eq!(a, vec![3, 4]);
            assert_eq!(b, vec![5, 6]);
        },
    }
    let flat = buf.range(IndexRange::full()).concat();
    assert_eq!(flat, vec![3, 4, 5, 6]);
}

#[test]
fn ring_buffer_set_and_clear() {
    let mut buf: Buffer<u32, 3> = Buffer::from_iter(vec![1, 2, 3]);
    assert!(buf.set(1, 20));
    assert!(!buf.set(3, 40));
    assert_eq!(buf.get(1), Some(&20));
    assert_eq!(buf.capacity(), 3);
    buf.clear();
    assert_eq!(buf.len(), 0);
    assert_eq!(buf.pop_front(), None);
    assert_eq!(buf.pop_back(), None);
}

#[test]
fn get_start_end_forms() {
    assert_eq!(get_start_end(IndexRange::to(1, 4), 10), (1, 4));
    assert_eq!(get_start_end(IndexRange::to_inclusive(1, 4), 10), (1, 5));
    assert_eq!(get_start_end(IndexRange::from(3), 10), (3, 10));
    assert_eq!(get_start_end(IndexRange::upto(4), 10), (0, 4));
    assert_eq!(get_start_end(IndexRange::full(), 10), (0, 10));
    let excl = IndexRange { start: RangeEdge::Excluded(2), end: RangeEdge::Unbounded };
    assert_eq!(get_start_end(excl, 7), (3, 7));
}

#[test]
fn peek_past_exhaustion() {
    let mut iter = peekn(VecSource::new(vec![1, 2]));
    assert_eq!(iter.peek_nth(10), None);
    assert_eq!(iter.next(), Some(1));
    assert_eq!(iter.next(), Some(2));
    assert_eq!(iter.next(), None);
    assert_eq!(iter.peek(), None);
}

#[test]
fn adapters_compose() {
    // An adapter satisfies the same capability set it wraps, so it can
    // itself be wrapped.
    let inner = peekdn(IntRange::new(0, 6));
    let mut outer = peekablede(inner);
    assert_eq!(outer.peek_front(), Some(&0));
    assert_eq!(outer.peek_back(), Some(&5));
    assert_eq!(outer.next(), Some(0));
    assert_eq!(outer.next_back(), Some(5));
}

#[test]
fn lossy_unwrap_drops_buffered() {
    let mut iter = peekn(IntRange::new(0, 10));
    let _ = iter.peek_nth(4); // buffers 0..=4
    let mut source = peekn(iter.into_peekable_lossy());
    assert_eq!(source.next(), Some(5));
}

#[test]
fn back_range_reads_from_the_end() {
    let mut iter = sizedpeekdn::<_, _, 4, 4>(IntRange::new(0, 10));
    let back = iter.peek_back_range(IndexRange::to(1, 4));
    assert_eq!(back, vec![8, 7, 6]);
    let front = iter.peek_front_range(IndexRange::to(0, 2));
    assert_eq!(front, vec![0, 1]);
}

#[test]
fn drain_both_regions() {
    let mut iter = peekdn(IntRange::new(0, 10));
    let _ = iter.peek_front_nth(2); // front region: 0, 1, 2
    let _ = iter.peek_back_nth(1); // back region: 9, 8
    iter.drain_peeked(2, 1);
    assert_eq!(iter.front_peeked_len(), 1);
    assert_eq!(iter.back_peeked_len(), 1);
    assert_eq!(iter.next(), Some(2));
    assert_eq!(iter.next_back(), Some(8));
}

#[test]
fn range_overwrite_forward() {
    let mut iter = peekn(IntRange::new(0, 10));
    let replaced = iter.peek_range_mut(IndexRange::to(1, 3), &vec![20, 30]);
    assert_eq!(replaced, 2);
    assert_eq!(iter.next(), Some(0));
    assert_eq!(iter.next(), Some(20));
    assert_eq!(iter.next(), Some(30));
    assert_eq!(iter.next(), Some(3));
}

#[test]
fn range_overwrite_truncates() {
    // stops at the end of the values, and at exhaustion
    let mut iter = sizedpeekn::<_, _, 6>(IntRange::new(0, 4));
    let replaced = iter.peek_range_mut(IndexRange::to(2, 6), &vec![7]);
    assert_eq!(replaced, 1);
    let all = iter.while_next(|_| true);
    assert_eq!(all, vec![0, 1, 7, 3]);
}

#[test]
fn range_overwrite_from_the_back() {
    let mut iter = peekdn(IntRange::new(0, 5));
    let replaced = iter.peek_back_range_mut(IndexRange::to(0, 2), &vec![90, 80]);
    assert_eq!(replaced, 2);
    assert_eq!(iter.next_back(), Some(90));
    assert_eq!(iter.next_back(), Some(80));
    assert_eq!(iter.next_back(), Some(2));
    let mut iter = sizedpeekdn::<_, _, 3, 3>(IntRange::new(0, 5));
    let replaced = iter.peek_front_range_mut(IndexRange::to(0, 2), &vec![50, 60]);
    assert_eq!(replaced, 2);
    assert_eq!(iter.next(), Some(50));
    assert_eq!(iter.next(), Some(60));
    assert_eq!(iter.next(), Some(2));
}

#[test]
fn double_to_lightweight_keeps_nearest() {
    let mut de = peekdn(IntRange::new(0, 6));
    let _ = de.peek_front_nth(1); // front region: 0, 1
    let _ = de.peek_back_nth(0); // back region: 5
    let mut lite = de.into_peekablede();
    assert_eq!(lite.peek_front(), Some(&0));
    assert_eq!(lite.peek_back(), Some(&5));
    // the deeper buffered element 1 was discarded, leaving a gap
    assert_eq!(lite.next(), Some(0));
    assert_eq!(lite.next(), Some(2));
}

#[test]
fn idempotent_peek_double_ended() {
    // A repeated peek re-pulls nothing, even when the depth resolves into
    // the other side's region after exhaustion.
    let mut iter = peekdn(IntRange::new(1, 4));
    let _ = iter.peek_back_nth(2); // back region holds everything
    let first = *iter.peek_front_nth(1).unwrap(); // resolves via the back region
    let front_len = iter.front_peeked_len();
    let back_len = iter.back_peeked_len();
    let second = *iter.peek_front_nth(1).unwrap();
    assert_eq!(second, first);
    assert_eq!(iter.front_peeked_len(), front_len);
    assert_eq!(iter.back_peeked_len(), back_len);
}

#[test]
fn range_fills_to_resolved_end() {
    let mut iter = peekdn(IntRange::new(0, 10));
    let _ = iter.peek_front_range(IndexRange::to(2, 6));
    assert_eq!(iter.front_peeked_len(), 6);
    let _ = iter.peek_back_range(IndexRange::to(0, 3));
    assert_eq!(iter.back_peeked_len(), 3);
}

#[test]
fn clear_discards_exactly_the_buffered() {
    let mut iter = peekdn(IntRange::new(0, 10));
    let _ = iter.peek_front_nth(3); // front region: 0..=3
    let _ = iter.peek_back_nth(2); // back region: 9, 8, 7
    iter.clear_peeked();
    assert_eq!(iter.next(), Some(4)); // the first element never buffered
}
