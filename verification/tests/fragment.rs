use reliable_rs::fragment::{fragment_packet, FragmentHeader, FragmentReassemblyBuffer, ReassemblyData};
use reliable_rs::packet_queue::PacketQueue;
use reliable_rs::FRAGMENT_HEADER_BYTES;

/// Helper: drain first payload from a PacketQueue into a Vec.
fn drain_first(q: &mut PacketQueue) -> Vec<u8> {
    let mut out = Vec::new();
    q.drain(|_, data| {
        if out.is_empty() {
            out.extend_from_slice(data);
        }
    });
    out
}

#[test]
fn test_fragment_header_roundtrip() {
    let header = FragmentHeader {
        sequence: 12345,
        fragment_id: 5,
        num_fragments: 16,
    };

    let mut buffer = [0u8; FRAGMENT_HEADER_BYTES];
    let written = header.write_to_slice(&mut buffer).unwrap();

    let (parsed, size) = FragmentHeader::read(&buffer[..written]).unwrap();
    assert_eq!(size, FRAGMENT_HEADER_BYTES);
    assert_eq!(header, parsed);
}

#[test]
fn test_fragment_packet() {
    let data = vec![0u8; 3000];
    let fragments = fragment_packet(100, &data, 1024, 16).unwrap();

    assert_eq!(fragments.len(), 3);
    assert_eq!(fragments[0].0.fragment_id, 0);
    assert_eq!(fragments[1].0.fragment_id, 1);
    assert_eq!(fragments[2].0.fragment_id, 2);

    assert_eq!(fragments[0].1.len(), 1024);
    assert_eq!(fragments[1].1.len(), 1024);
    assert_eq!(fragments[2].1.len(), 952); // 3000 - 2048
}

#[test]
fn test_reassembly() {
    let data = vec![1u8, 2, 3, 4, 5, 6, 7, 8, 9, 10];
    let fragments = fragment_packet(42, &data, 4, 16).unwrap();

    let mut reassembly = FragmentReassemblyBuffer::new(64, 4, 16);
    let mut q = PacketQueue::new(16, 4096);

    // Process fragments out of order
    let result0 = reassembly.process_fragment(&fragments[2].0, &fragments[2].1, 0, 0, &mut q);
    assert!(result0.is_none());

    let result1 = reassembly.process_fragment(&fragments[0].0, &fragments[0].1, 0, 0, &mut q);
    assert!(result1.is_none());

    let result2 = reassembly.process_fragment(&fragments[1].0, &fragments[1].1, 0, 0, &mut q);
    assert!(result2.is_some());

    let reassembled = drain_first(&mut q);
    assert_eq!(reassembled, data);
}

#[test]
fn test_reassembly_in_order() {
    let data = vec![1u8, 2, 3, 4, 5, 6, 7, 8, 9, 10];
    let fragments = fragment_packet(42, &data, 4, 16).unwrap();

    let mut reassembly = FragmentReassemblyBuffer::new(64, 4, 16);
    let mut q = PacketQueue::new(16, 4096);

    // Process fragments in order
    let result0 = reassembly.process_fragment(&fragments[0].0, &fragments[0].1, 0, 0, &mut q);
    assert!(result0.is_none());

    let result1 = reassembly.process_fragment(&fragments[1].0, &fragments[1].1, 0, 0, &mut q);
    assert!(result1.is_none());

    let result2 = reassembly.process_fragment(&fragments[2].0, &fragments[2].1, 0, 0, &mut q);
    assert!(result2.is_some());

    let reassembled = drain_first(&mut q);
    assert_eq!(reassembled, data);
}

#[test]
fn test_duplicate_fragment() {
    let data = vec![1u8, 2, 3, 4, 5, 6, 7, 8];
    let fragments = fragment_packet(42, &data, 4, 16).unwrap();

    let mut reassembly = FragmentReassemblyBuffer::new(64, 4, 16);
    let mut q = PacketQueue::new(16, 4096);

    // Process first fragment
    reassembly.process_fragment(&fragments[0].0, &fragments[0].1, 0, 0, &mut q);

    // Duplicate should return None
    let duplicate = reassembly.process_fragment(&fragments[0].0, &fragments[0].1, 0, 0, &mut q);
    assert!(duplicate.is_none());
}

#[test]
fn test_too_many_fragments() {
    let data = vec![0u8; 1000];

    // Should fail if too many fragments needed
    let result = fragment_packet(0, &data, 10, 16);
    assert!(result.is_none());
}

#[test]
fn test_large_packet_reassembly() {
    // Test with a larger packet that has an odd size
    let data: Vec<u8> = (0..1000).map(|i| (i % 256) as u8).collect();
    let fragments = fragment_packet(100, &data, 128, 16).unwrap();

    assert_eq!(fragments.len(), 8); // 1000 / 128 = 7.8125, rounds up to 8

    let mut reassembly = FragmentReassemblyBuffer::new(64, 128, 16);
    let mut q = PacketQueue::new(16, 4096);

    // Process in reverse order
    for i in (0..fragments.len()).rev() {
        let result = reassembly.process_fragment(&fragments[i].0, &fragments[i].1, 0, 0, &mut q);
        if i == 0 {
            assert!(result.is_some());
        } else {
            assert!(result.is_none());
        }
    }

    let reassembled = drain_first(&mut q);
    assert_eq!(reassembled, data);
}

#[test]
fn test_reassembly_reset_reuses_slab() {
    // Verify reset() retains preallocated slabs and allows reuse.
    let data = vec![42u8; 8];
    let fragments = fragment_packet(1, &data, 4, 16).unwrap();

    let mut buf = FragmentReassemblyBuffer::new(64, 4, 16);
    let mut q = PacketQueue::new(16, 4096);

    for frag in &fragments {
        buf.process_fragment(&frag.0, &frag.1, 0, 0, &mut q);
    }
    q.clear(); // discard first reassembly result

    buf.reset();

    // Same sequence should be accepted again after reset.
    let fragments2 = fragment_packet(1, &data, 4, 16).unwrap();
    let mut last = None;
    for frag in &fragments2 {
        last = buf.process_fragment(&frag.0, &frag.1, 0, 0, &mut q);
    }
    assert!(last.is_some());

    let reassembled = drain_first(&mut q);
    assert_eq!(reassembled, data);
}

#[test]
fn test_copy_to() {
    // Directly test the copy_to method on ReassemblyData.
    let mut rd = ReassemblyData::new_preallocated(4, 8);
    rd.reset(0, 0, 0, 3);

    rd.store_fragment(0, &[1, 2, 3, 4]);
    rd.store_fragment(1, &[5, 6]);
    rd.store_fragment(2, &[7, 8, 9]);
    rd.mark_fragment(0);
    rd.mark_fragment(1);
    rd.mark_fragment(2);
    rd.num_fragments_received = 3;

    let mut dest = vec![0u8; 32];
    let written = rd.copy_to(&mut dest);
    assert_eq!(written, 9);
    assert_eq!(&dest[..9], &[1, 2, 3, 4, 5, 6, 7, 8, 9]);
}

#[test]
fn fragment_header_exact_bytes_and_bad_flag() {
    let header = FragmentHeader { sequence: 0x0201, fragment_id: 3, num_fragments: 4 };
    let mut buffer = [9u8; 7];
    assert_eq!(header.write_to_slice(&mut buffer), Some(5));
    assert_eq!(buffer, [1, 0x01, 0x02, 3, 4, 9, 9]);
    assert!(FragmentHeader::read(&[0, 1, 2, 3, 4]).is_none());
    assert!(FragmentHeader::read(&[1, 1, 2, 3]).is_none());
    let mut small = [0u8; 4];
    assert_eq!(header.write_to_slice(&mut small), None);
}

#[test]
fn fragment_packet_edge_cases() {
    assert!(fragment_packet(1, &[], 4, 16).is_none());
    assert!(fragment_packet(1, &[1, 2, 3], 0, 16).is_none());
    // Exactly divisible: no trailing empty fragment.
    let f = fragment_packet(7, &[1, 2, 3, 4, 5, 6, 7, 8], 4, 2).unwrap();
    assert_eq!(f.len(), 2);
    assert_eq!(f[1].0, FragmentHeader { sequence: 7, fragment_id: 1, num_fragments: 2 });
    assert_eq!(f[1].1, vec![5, 6, 7, 8]);
    // More than 255 fragments is refused even when max_fragments allows it.
    let big = vec![0u8; 256];
    assert!(fragment_packet(0, &big, 1, 1000).is_none());
    assert_eq!(fragment_packet(0, &big[..255], 1, 1000).unwrap().len(), 255);
}

#[test]
fn reassembly_rejects_invalid_headers_and_mismatches() {
    let mut buf = FragmentReassemblyBuffer::new(8, 4, 4);
    let mut q = PacketQueue::new(4, 64);
    let bad_count = FragmentHeader { sequence: 1, fragment_id: 0, num_fragments: 0 };
    assert!(buf.process_fragment(&bad_count, &[1], 0, 0, &mut q).is_none());
    let too_many = FragmentHeader { sequence: 1, fragment_id: 0, num_fragments: 5 };
    assert!(buf.process_fragment(&too_many, &[1], 0, 0, &mut q).is_none());
    let bad_id = FragmentHeader { sequence: 1, fragment_id: 2, num_fragments: 2 };
    assert!(buf.process_fragment(&bad_id, &[1], 0, 0, &mut q).is_none());
    let first = FragmentHeader { sequence: 1, fragment_id: 0, num_fragments: 2 };
    assert!(buf.process_fragment(&first, &[1, 2, 3, 4, 5], 0, 0, &mut q).is_none());
    // Count mismatch with the packet in reassembly.
    let other_count = FragmentHeader { sequence: 1, fragment_id: 1, num_fragments: 3 };
    assert!(buf.process_fragment(&other_count, &[6], 0, 0, &mut q).is_none());
    let second = FragmentHeader { sequence: 1, fragment_id: 1, num_fragments: 2 };
    // Bytes beyond the fragment size are dropped.
    assert_eq!(buf.process_fragment(&second, &[6], 0, 0, &mut q), Some(5));
    assert_eq!(drain_first(&mut q), vec![1, 2, 3, 4, 6]);
}

#[test]
fn reassembly_single_fragment_and_full_queue() {
    let mut buf = FragmentReassemblyBuffer::new(8, 4, 4);
    let mut q = PacketQueue::new(1, 64);
    let only = FragmentHeader { sequence: 3, fragment_id: 0, num_fragments: 1 };
    assert_eq!(buf.process_fragment(&only, &[9, 8], 0, 0, &mut q), Some(2));
    // Queue now full: a completed packet is dropped, and its sequence is no
    // longer in reassembly.
    let next = FragmentHeader { sequence: 4, fragment_id: 0, num_fragments: 1 };
    assert_eq!(buf.process_fragment(&next, &[7], 0, 0, &mut q), None);
    assert_eq!(q.len(), 1);
    assert_eq!(drain_first(&mut q), vec![9, 8]);
    assert_eq!(buf.process_fragment(&next, &[7], 0, 0, &mut q), Some(1));
}

#[test]
fn reassembly_data_marks_and_completion() {
    let mut rd = ReassemblyData::new_preallocated(40, 2);
    rd.reset(5, 1, 2, 40);
    assert!(!rd.has_fragment(33));
    rd.mark_fragment(33);
    assert!(rd.has_fragment(33));
    assert!(!rd.has_fragment(1));
    assert!(!rd.is_complete());
    rd.num_fragments_received = 40;
    assert!(rd.is_complete());
}
