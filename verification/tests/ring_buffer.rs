use learnkit::ring_buffer::RingBuffer;

#[test]
fn test_put_get() {
    let mut queue: RingBuffer<i32, 10> = RingBuffer::new();
    queue.put(42).unwrap();
    queue.put(57).unwrap();
    assert_eq!(queue.get(), Some(42));
    queue.put(38).unwrap();
    assert_eq!(queue.get(), Some(57));
    assert_eq!(queue.get(), Some(38));
    assert_eq!(queue.get(), None);
}

#[test]
fn test_full_capacity() {
    let mut queue: RingBuffer<i32, 3> = RingBuffer::new();

    queue.put(1).unwrap();
    queue.put(2).unwrap();
    queue.put(3).unwrap();

    assert_eq!(queue.get(), Some(1));
    assert_eq!(queue.get(), Some(2));
    assert_eq!(queue.get(), Some(3));
    assert_eq!(queue.get(), None);
}

#[test]
fn test_put_wrap() {
    let mut queue: RingBuffer<i32, 3> = RingBuffer::new();
    queue.put(42).unwrap();
    queue.put(57).unwrap();
    assert_eq!(queue.get(), Some(42));
    assert_eq!(queue.get(), Some(57));

    queue.put(1).unwrap();
    queue.put(2).unwrap();
    queue.put(3).unwrap();

    assert_eq!(queue.get(), Some(1));
    assert_eq!(queue.get(), Some(2));
    assert_eq!(queue.get(), Some(3));
    assert_eq!(queue.get(), None);
}

#[test]
fn test_buffer_overflow() {
    let mut queue: RingBuffer<i32, 3> = RingBuffer::new();
    queue.put(1).unwrap();
    queue.put(2).unwrap();
    queue.put(3).unwrap();

    assert!(queue.put(4).is_err());

    assert_eq!(queue.get(), Some(1));
    assert_eq!(queue.get(), Some(2));
    assert_eq!(queue.get(), Some(3));
    assert_eq!(queue.get(), None);
}

#[test]
fn test_is_empty_and_is_full() {
    let mut queue: RingBuffer<i32, 3> = RingBuffer::new();
    assert!(queue.is_empty());
    queue.put(1).unwrap();
    assert!(!queue.is_empty());
    assert!(!queue.is_full());
    queue.put(2).unwrap();
    queue.put(3).unwrap();
    assert!(queue.is_full());
}

#[test]
fn test_retain() {
    let mut queue: RingBuffer<i32, 3> = RingBuffer::new();
    queue.put(1).unwrap();
    queue.put(2).unwrap();
    queue.put(3).unwrap();

    queue.retain(|item| *item > 1);

    assert_eq!(queue.get(), Some(2));
    assert_eq!(queue.get(), Some(3));
    assert_eq!(queue.get(), None);
}

#[test]
fn test_retain_wrap() {
    let mut queue: RingBuffer<i32, 3> = RingBuffer::new();
    queue.put(1).unwrap();
    queue.put(2).unwrap();
    assert_eq!(queue.get(), Some(1));

    queue.put(11).unwrap();
    queue.put(22).unwrap();

    queue.retain(|item| *item > 10);

    assert_eq!(queue.get(), Some(11));
    assert_eq!(queue.get(), Some(22));
    assert_eq!(queue.get(), None);
}

#[test]
fn ring_buffer_overflow_error_message() {
    let mut queue: RingBuffer<u8, 1> = RingBuffer::new();
    assert_eq!(queue.put(9), Ok(()));
    assert_eq!(queue.put(10), Err("Buffer already full!"));
    assert_eq!(queue.get_count(), 1);
    assert_eq!(queue.get(), Some(9));
}

#[test]
fn ring_buffer_count_tracks_puts_and_gets() {
    let mut queue: RingBuffer<u32, 4> = RingBuffer::new();
    assert_eq!(queue.get_count(), 0);
    for i in 0..4 {
        queue.put(i).unwrap();
        assert_eq!(queue.get_count(), (i + 1) as usize);
    }
    assert!(queue.is_full());
    assert_eq!(queue.get(), Some(0));
    assert_eq!(queue.get_count(), 3);
    assert!(!queue.is_full());
}

#[test]
fn ring_buffer_fifo_across_many_wraps() {
    let mut queue: RingBuffer<u32, 3> = RingBuffer::new();
    let mut next_in = 0;
    let mut next_out = 0;
    for round in 0..20 {
        while !queue.is_full() {
            queue.put(next_in).unwrap();
            next_in += 1;
        }
        for _ in 0..(round % 3 + 1) {
            assert_eq!(queue.get(), Some(next_out));
            next_out += 1;
        }
    }
}

#[test]
fn ring_buffer_retain_full_keeps_order_of_kept() {
    // On a full buffer retain keeps exactly the matching items, in order.
    let mut queue: RingBuffer<i32, 5> = RingBuffer::new();
    for x in [1, 2, 3, 4, 5] {
        queue.put(x).unwrap();
    }
    queue.get();
    queue.get();
    for x in [6, 7] {
        queue.put(x).unwrap();
    }
    queue.retain(|x| x % 2 == 1);
    assert_eq!(queue.get_count(), 3);
    assert_eq!(queue.get(), Some(3));
    assert_eq!(queue.get(), Some(5));
    assert_eq!(queue.get(), Some(7));
    assert_eq!(queue.get(), None);
}

#[test]
fn ring_buffer_retain_nothing_and_everything() {
    let mut queue: RingBuffer<i32, 3> = RingBuffer::new();
    queue.retain(|_| false);
    assert!(queue.is_empty());
    for x in [1, 2, 3] {
        queue.put(x).unwrap();
    }
    queue.retain(|_| true);
    assert_eq!(queue.get_count(), 3);
    queue.retain(|_| false);
    assert!(queue.is_empty());
    assert_eq!(queue.get(), None);
}

#[test]
fn ring_buffer_retain_partial_buffer_examines_leading_slots() {
    // With a buffer that is not full, retain examines the slots
    // `(start + i) % count` for the i-th of its `count` items.
    let mut queue: RingBuffer<i32, 3> = RingBuffer::new();
    for x in [1, 2, 3] {
        queue.put(x).unwrap();
    }
    assert_eq!(queue.get(), Some(1));
    assert_eq!(queue.get(), Some(2));
    // One item (3) at slot 2; retain examines slot (2 + 0) % 1 == 0, which holds 1.
    queue.retain(|x| *x != 1);
    assert_eq!(queue.get_count(), 0);
    assert_eq!(queue.get(), None);
}
