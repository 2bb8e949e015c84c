use sherlock::ring_buffer::pop_slot;
use sherlock::ring_buffer::push_slot;
use sherlock::ring_buffer::size_mismatch;
use sherlock::ring_buffer::RingBuffer;

#[test]
fn push_pop_respects_fifo_order_and_capacity() {
    let mut rb = RingBuffer::<u32, 4>::new();
    assert_eq!(rb.pop(), None);

    for i in 0..4 {
        rb.push(i).unwrap();
    }
    assert_eq!(rb.push(99), Err(99));
    assert_eq!(rb.dropped_count(), 1);

    for i in 0..4 {
        assert_eq!(rb.pop(), Some(i));
    }
    assert_eq!(rb.pop(), None);
}

#[test]
fn new_does_not_overflow_the_stack_for_large_n() {
    let mut rb = RingBuffer::<u8, { 16 * 1024 * 1024 }>::new();
    rb.push(42).unwrap();
    assert_eq!(rb.pop(), Some(42));
}

#[test]
fn a_ring_goes_round_many_times() {
    let mut rb = RingBuffer::<u64, 3>::new();
    let mut next = 0u64;
    for round in 0..1000u64 {
        rb.push(2 * round).unwrap();
        rb.push(2 * round + 1).unwrap();
        assert_eq!(rb.pop(), Some(next));
        assert_eq!(rb.pop(), Some(next + 1));
        next += 2;
    }
    assert_eq!(rb.dropped_count(), 0);
}

#[test]
fn every_offered_item_is_kept_or_counted() {
    let mut rb = RingBuffer::<u8, 4>::new();
    let mut refused = Vec::new();
    for i in 0..10u8 {
        if let Err(back) = rb.push(i) {
            refused.push(back);
        }
    }
    assert_eq!(refused, vec![4, 5, 6, 7, 8, 9]);
    assert_eq!(rb.dropped_count(), 6);
    let mut kept = Vec::new();
    while let Some(i) = rb.pop() {
        kept.push(i);
    }
    assert_eq!(kept, vec![0, 1, 2, 3]);
}

#[test]
fn slots_follow_the_counters_across_their_wrap() {
    assert_eq!(push_slot(0, 0, 4), Some(0));
    assert_eq!(push_slot(0, 4, 4), None);
    assert_eq!(push_slot(u64::MAX - 1, 1, 4), Some(1));
    assert_eq!(push_slot(u64::MAX - 1, 2, 4), None);
    assert_eq!(pop_slot(7, 7, 4), None);
    assert_eq!(pop_slot(u64::MAX, 0, 4), Some(3));
}

#[test]
fn a_segment_of_another_size_is_refused() {
    assert_eq!(size_mismatch("/ring", 256, 256), None);
    assert_eq!(
        size_mismatch("/ring", 256, 320).unwrap(),
        "shared memory segment '/ring' is 256 bytes, expected 320 bytes \
         (RingBuffer<T, N> type/capacity mismatch between processes)"
    );
}

#[test]
fn every_item_is_accounted_for() {
    let mut ring = RingBuffer::<u32, 3>::new();
    let (mut pushes, mut refused) = (0u32, 0u64);
    let (mut accepted, mut taken): (Vec<u32>, Vec<u32>) = (Vec::new(), Vec::new());
    for round in 0..20u32 {
        for _ in 0..(round % 4 + 1) {
            match ring.push(pushes) {
                Ok(()) => accepted.push(pushes),
                Err(back) => {
                    assert_eq!(back, pushes);
                    refused += 1;
                }
            }
            pushes += 1;
        }
        for _ in 0..(round % 3) {
            taken.extend(ring.pop());
        }
    }
    assert!(refused > 0);
    assert_eq!(ring.dropped_count(), refused);
    assert_eq!(taken[..], accepted[..taken.len()]);
    let mut waiting = 0;
    while ring.pop().is_some() {
        waiting += 1;
    }
    assert_eq!(pushes as usize, taken.len() + waiting + refused as usize);
}
