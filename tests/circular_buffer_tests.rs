use neutils::circular_buffer::CircularBuffer;

#[test]
fn test_push_back_pop_front() {
    let mut buffer = CircularBuffer::new(5);

    buffer.push_back(1);
    buffer.push_back(2);
    buffer.push_back(3);

    assert_eq!(buffer.pop_front(), Some(1));
    assert_eq!(buffer.pop_front(), Some(2));

    buffer.push_back(4);
    buffer.push_back(5);

    assert_eq!(buffer.pop_front(), Some(3));
    assert_eq!(buffer.pop_front(), Some(4));
    assert_eq!(buffer.pop_front(), Some(5));
    assert_eq!(buffer.pop_front(), None);
}

#[test]
fn test_overflow() {
    let mut buffer = CircularBuffer::new(3);

    buffer.push_back(1);
    buffer.push_back(2);
    buffer.push_back(3);
    buffer.push_back(4); // the oldest byte is dropped

    assert_eq!(buffer.pop_front(), Some(2));
    assert_eq!(buffer.pop_front(), Some(3));
    assert_eq!(buffer.pop_front(), Some(4));
    assert_eq!(buffer.pop_front(), None);
}

#[test]
fn test_is_empty() {
    let mut buffer = CircularBuffer::new(5);

    assert!(buffer.is_empty());

    buffer.push_back(1);
    buffer.push_back(2);

    assert!(!buffer.is_empty());

    buffer.pop_front();
    buffer.pop_front();

    assert!(buffer.is_empty());
}

#[test]
fn test_extend() {
    let mut buffer = CircularBuffer::new(5);

    buffer.extend(&[1, 2, 3]);

    assert_eq!(buffer.pop_front(), Some(1));
    assert_eq!(buffer.pop_front(), Some(2));
    assert_eq!(buffer.pop_front(), Some(3));
    assert_eq!(buffer.pop_front(), None);
}

#[test]
fn ring_of_zero_capacity_stays_empty() {
    let mut buffer = CircularBuffer::new(0);
    buffer.push_back(9);
    buffer.extend(&[1, 2]);
    assert!(buffer.is_empty());
    assert_eq!(buffer.pop_front(), None);
}

#[test]
fn extend_past_capacity_keeps_the_last_bytes() {
    let mut buffer = CircularBuffer::new(3);
    buffer.push_back(7);
    buffer.extend(&[1, 2, 3, 4, 5]);
    assert_eq!(buffer.pop_front(), Some(3));
    assert_eq!(buffer.pop_front(), Some(4));
    assert_eq!(buffer.pop_front(), Some(5));
    assert_eq!(buffer.pop_front(), None);
}

#[test]
fn ring_wraps_around_many_times() {
    let mut buffer = CircularBuffer::new(4);
    for round in 0u8..10 {
        buffer.push_back(round);
        buffer.push_back(round.wrapping_add(100));
        assert_eq!(buffer.pop_front(), Some(round));
        assert_eq!(buffer.pop_front(), Some(round.wrapping_add(100)));
        assert!(buffer.is_empty());
    }
}

#[test]
fn full_ring_of_one_holds_the_latest_byte() {
    let mut buffer = CircularBuffer::new(1);
    buffer.push_back(1);
    buffer.push_back(2);
    assert!(!buffer.is_empty());
    assert_eq!(buffer.pop_front(), Some(2));
    assert!(buffer.is_empty());
}
