use reliable_rs::packet_queue::PacketQueue;

#[test]
fn test_basic_push_drain() {
    let mut q = PacketQueue::new(4, 64);

    assert!(q.push(0, b"hello"));
    assert!(q.push(1, b"world"));

    let mut results: Vec<(u16, Vec<u8>)> = Vec::new();
    q.drain(|seq, data| results.push((seq, data.to_vec())));

    assert_eq!(results.len(), 2);
    assert_eq!(results[0], (0, b"hello".to_vec()));
    assert_eq!(results[1], (1, b"world".to_vec()));
    assert_eq!(q.len(), 0);
}

#[test]
fn test_write_slot_in_place() {
    let mut q = PacketQueue::new(4, 64);

    let ok = q.write_slot(42, |buf| {
        buf[0..5].copy_from_slice(b"hello");
        5
    });
    assert!(ok);
    assert_eq!(q.len(), 1);

    let mut got_seq = 0u16;
    let mut got_data = Vec::new();
    q.drain(|seq, data| {
        got_seq = seq;
        got_data.extend_from_slice(data);
    });

    assert_eq!(got_seq, 42);
    assert_eq!(&got_data, b"hello");
    assert_eq!(q.len(), 0);
}

#[test]
fn test_full_queue_rejects() {
    let mut q = PacketQueue::new(2, 16);

    assert!(q.push(0, b"a"));
    assert!(q.push(1, b"b"));
    assert!(!q.push(2, b"c")); // queue is full
    assert_eq!(q.len(), 2);
}

#[test]
fn test_write_slot_returns_false_when_full() {
    let mut q = PacketQueue::new(2, 16);
    assert!(q.write_slot(0, |buf| {
        buf[0] = 1;
        1
    }));
    assert!(q.write_slot(1, |buf| {
        buf[0] = 2;
        1
    }));
    assert!(!q.write_slot(2, |buf| {
        buf[0] = 3;
        1
    }));
}

#[test]
fn test_clear_and_reuse() {
    let mut q = PacketQueue::new(4, 16);
    q.push(0, b"x");
    q.push(1, b"y");
    q.clear();
    assert_eq!(q.len(), 0);
    assert!(q.push(2, b"z"));
    let mut count = 0usize;
    q.drain(|seq, _| {
        assert_eq!(seq, 2);
        count += 1;
    });
    assert_eq!(count, 1);
}

#[test]
fn test_fifo_order_preserved() {
    let mut q = PacketQueue::new(8, 16);
    for i in 0u16..8 {
        q.push(i, &[i as u8]);
    }
    let mut order = Vec::new();
    q.drain(|seq, _| order.push(seq));
    assert_eq!(order, (0u16..8).collect::<Vec<_>>());
}

#[test]
fn test_head_tail_wraparound() {
    let mut q = PacketQueue::new(4, 16);
    // Fill and drain 3 times to force head/tail to wrap
    for cycle in 0..3u16 {
        for i in 0..4u16 {
            assert!(q.push(cycle * 4 + i, &[i as u8]));
        }
        let mut count = 0usize;
        q.drain(|seq, data| {
            assert_eq!(seq, cycle * 4 + count as u16);
            assert_eq!(data[0], count as u8);
            count += 1;
        });
        assert_eq!(count, 4);
    }
}

#[test]
fn test_is_empty_is_full() {
    let mut q = PacketQueue::new(2, 8);
    assert!(q.is_empty());
    assert!(!q.is_full());
    q.push(0, b"a");
    assert!(!q.is_empty());
    assert!(!q.is_full());
    q.push(1, b"b");
    assert!(!q.is_empty());
    assert!(q.is_full());
}

#[test]
fn push_truncates_to_slot_capacity() {
    let mut q = PacketQueue::new(2, 4);
    assert!(q.push(9, b"abcdefgh"));
    let mut got = Vec::new();
    q.drain(|seq, data| got.push((seq, data.to_vec())));
    assert_eq!(got, vec![(9, b"abcd".to_vec())]);
}

#[test]
fn interleaved_push_and_drain_keep_fifo() {
    let mut q = PacketQueue::new(2, 8);
    let mut seen = Vec::new();
    for i in 0..10u16 {
        assert!(q.push(i, &[i as u8, 1]));
        if i % 2 == 1 {
            q.drain(|seq, data| seen.push((seq, data.to_vec())));
        }
    }
    let expected: Vec<(u16, Vec<u8>)> = (0..10u16).map(|i| (i, vec![i as u8, 1])).collect();
    assert_eq!(seen, expected);
}
