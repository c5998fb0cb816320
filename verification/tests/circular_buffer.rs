use rust_logger::circular_buffer::CircularBuffer;

#[test]
fn test_basic_push_and_get() {
    let mut buf: CircularBuffer<i32> = CircularBuffer::new(3);

    buf.push(1);
    buf.push(2);
    buf.push(3);

    assert_eq!(buf.get(0), Some(&1));
    assert_eq!(buf.get(2), Some(&3));
    assert_eq!(buf.len(), 3);
    assert!(buf.is_full());
}

#[test]
fn test_overwrite_when_full() {
    let mut buf: CircularBuffer<i32> = CircularBuffer::new(3);

    buf.push(1);
    buf.push(2);
    buf.push(3);
    buf.push(4);

    assert_eq!(buf.get(0), Some(&2));
    assert_eq!(buf.get(2), Some(&4));
    assert_eq!(buf.len(), 3);
}

#[test]
fn test_out_of_bounds_returns_none() {
    let mut buf: CircularBuffer<i32> = CircularBuffer::new(3);
    buf.push(10);

    assert_eq!(buf.get(1), None);
    assert_eq!(buf.get(99), None);
}

#[test]
fn circular_buffer_new_is_empty() {
    let buf: CircularBuffer<u8> = CircularBuffer::new(2);
    assert!(buf.is_empty());
    assert!(!buf.is_full());
    assert_eq!(buf.len(), 0);
    assert_eq!(buf.get(0), None);
    assert!(buf.iter().is_empty());
}

#[test]
fn circular_buffer_holds_most_recent_after_many_wraps() {
    let mut buf: CircularBuffer<u32> = CircularBuffer::new(4);
    for i in 0..11u32 {
        buf.push(i);
    }
    let items: Vec<u32> = buf.iter().into_iter().copied().collect();
    assert_eq!(items, vec![7, 8, 9, 10]);
    assert_eq!(buf.len(), 4);
}

#[test]
fn circular_buffer_capacity_one() {
    let mut buf: CircularBuffer<String> = CircularBuffer::new(1);
    buf.push("a".to_string());
    buf.push("b".to_string());
    assert_eq!(buf.len(), 1);
    assert_eq!(buf.get(0).map(|s| s.as_str()), Some("b"));
}

#[test]
fn circular_buffer_iter_before_full() {
    let mut buf: CircularBuffer<i32> = CircularBuffer::new(5);
    buf.push(3);
    buf.push(1);
    let items: Vec<i32> = buf.iter().into_iter().copied().collect();
    assert_eq!(items, vec![3, 1]);
}
