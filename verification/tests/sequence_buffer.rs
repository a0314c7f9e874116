use reliable_rs::sequence_buffer::SequenceBuffer;

#[derive(Clone, Default, Debug, PartialEq)]
struct TestData {
    value: u32,
}

#[test]
fn test_basic_operations() {
    let mut buffer: SequenceBuffer<TestData> = SequenceBuffer::new(256);

    // Insert
    let data = buffer.insert(0).unwrap();
    data.value = 42;

    // Find
    assert_eq!(buffer.find(0).unwrap().value, 42);
    assert!(buffer.find(1).is_none());

    // Exists
    assert!(buffer.entry_exists(0));
    assert!(!buffer.entry_exists(1));
}

#[test]
fn sequence_buffer_test_sequence_wrap_around() {
    let mut buffer: SequenceBuffer<TestData> = SequenceBuffer::new(256);

    // Insert at wrap-around point
    buffer.insert(65535).unwrap().value = 1;
    buffer.insert(0).unwrap().value = 2;
    buffer.insert(1).unwrap().value = 3;

    assert_eq!(buffer.find(65535).unwrap().value, 1);
    assert_eq!(buffer.find(0).unwrap().value, 2);
    assert_eq!(buffer.find(1).unwrap().value, 3);
}

#[test]
fn test_stale_sequence_rejected() {
    let mut buffer: SequenceBuffer<TestData> = SequenceBuffer::new(256);

    // Advance sequence
    for i in 0..300u16 {
        buffer.insert(i);
    }

    // Old sequence should be rejected
    assert!(!buffer.can_insert(0));
    assert!(buffer.insert(0).is_none());
}

#[test]
fn test_generate_ack_bits() {
    let mut buffer: SequenceBuffer<TestData> = SequenceBuffer::new(256);

    buffer.insert(0);
    buffer.insert(1);
    buffer.insert(3); // Skip 2

    let (ack, ack_bits) = buffer.generate_ack_bits();
    assert_eq!(ack, 3);
    // Bits: 0=exists(3), 1=exists(2)=no, 2=exists(1), 3=exists(0)
    assert_eq!(ack_bits & 0b1111, 0b1101);
}

#[test]
fn test_remove() {
    let mut buffer: SequenceBuffer<TestData> = SequenceBuffer::new(256);

    buffer.insert(5).unwrap().value = 100;
    assert!(buffer.entry_exists(5));

    let removed = buffer.remove(5).unwrap();
    assert_eq!(removed.value, 100);
    assert!(!buffer.entry_exists(5));
}

#[test]
fn sequence_buffer_test_reset() {
    let mut buffer: SequenceBuffer<TestData> = SequenceBuffer::new(256);

    buffer.insert(0);
    buffer.insert(1);
    buffer.insert(2);

    buffer.reset();

    assert!(!buffer.entry_exists(0));
    assert!(!buffer.entry_exists(1));
    assert!(!buffer.entry_exists(2));
    assert_eq!(buffer.sequence(), 0);
}

#[test]
fn insert_advances_sequence_and_clears_skipped_slots() {
    let mut buffer: SequenceBuffer<TestData> = SequenceBuffer::new(4);
    buffer.insert(0).unwrap().value = 10;
    buffer.insert(1).unwrap().value = 11;
    assert_eq!(buffer.sequence(), 2);
    // Jumping ahead to 5 clears the slots of 2, 3, 4 and 5 (slots 2, 3, 0, 1).
    buffer.insert(5).unwrap().value = 15;
    assert_eq!(buffer.sequence(), 6);
    assert!(!buffer.entry_exists(0));
    assert!(!buffer.entry_exists(1));
    assert_eq!(buffer.find(5).unwrap().value, 15);
    // An older sequence inside the window does not move the sequence.
    buffer.insert(3).unwrap().value = 13;
    assert_eq!(buffer.sequence(), 6);
    assert_eq!(buffer.find(3).unwrap().value, 13);
    assert_eq!(buffer.size(), 4);
}

#[test]
fn insert_with_and_find_mut() {
    let mut buffer: SequenceBuffer<TestData> = SequenceBuffer::new(8);
    assert!(buffer.insert_with(3, TestData { value: 7 }));
    buffer.find_mut(3).unwrap().value += 1;
    assert_eq!(buffer.find(3), Some(&TestData { value: 8 }));
    assert!(buffer.find_mut(4).is_none());
    assert!(buffer.remove(4).is_none());
    for i in 4..40u16 {
        buffer.insert(i);
    }
    assert!(!buffer.insert_with(3, TestData { value: 1 }));
}

#[test]
fn iter_and_iter_range() {
    let mut buffer: SequenceBuffer<TestData> = SequenceBuffer::new(8);
    buffer.insert_with(65534, TestData { value: 1 });
    buffer.insert_with(0, TestData { value: 2 });
    buffer.insert_with(1, TestData { value: 3 });
    let all: Vec<u16> = buffer.iter().into_iter().map(|(s, _)| s).collect();
    // Slot order: 0 -> slot 0, 1 -> slot 1, 65534 -> slot 6.
    assert_eq!(all, vec![0, 1, 65534]);
    let range: Vec<(u16, u32)> =
        buffer.iter_range(65534, 1).into_iter().map(|(s, d)| (s, d.value)).collect();
    assert_eq!(range, vec![(65534, 1), (0, 2), (1, 3)]);
    assert!(buffer.iter_range(2, 1).is_empty());
}

#[test]
fn generate_ack_bits_full_window() {
    let mut buffer: SequenceBuffer<TestData> = SequenceBuffer::new(64);
    for i in 0..40u16 {
        buffer.insert(i);
    }
    let (ack, bits) = buffer.generate_ack_bits();
    assert_eq!(ack, 39);
    assert_eq!(bits, 0xFFFFFFFF);
    let empty: SequenceBuffer<TestData> = SequenceBuffer::new(64);
    assert_eq!(empty.generate_ack_bits(), (65535, 0));
}
