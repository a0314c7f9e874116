use reliable_rs::packet::is_fragment_packet;
use reliable_rs::{PacketHeader, MAX_PACKET_HEADER_BYTES};

#[test]
fn test_header_roundtrip() {
    let header = PacketHeader::new(100, 98, 0xFFFFFFFF);

    let mut buffer = Vec::new();
    let written = header.write(&mut buffer);

    let (parsed, read) = PacketHeader::read(&buffer).unwrap();

    assert_eq!(written, read);
    assert_eq!(header, parsed);
}

#[test]
fn test_header_with_partial_acks() {
    let header = PacketHeader::new(100, 98, 0b11110000_11001100_10101010_01010101);

    let mut buffer = Vec::new();
    header.write(&mut buffer);

    let (parsed, _) = PacketHeader::read(&buffer).unwrap();
    assert_eq!(header, parsed);
}

#[test]
fn test_header_wrap_around() {
    let header = PacketHeader::new(5, 65530, 0xFFFFFFFF);

    let mut buffer = Vec::new();
    header.write(&mut buffer);

    let (parsed, _) = PacketHeader::read(&buffer).unwrap();
    assert_eq!(header, parsed);
}

#[test]
fn test_header_sequence_diff_encoding() {
    // Small difference (fits in 1 byte)
    let header1 = PacketHeader::new(100, 50, 0xFFFFFFFF);
    let mut buf1 = Vec::new();
    let size1 = header1.write(&mut buf1);

    // Large difference (needs 2 bytes)
    let header2 = PacketHeader::new(100, 60000, 0xFFFFFFFF);
    let mut buf2 = Vec::new();
    let size2 = header2.write(&mut buf2);

    // Small diff should produce smaller header
    assert!(size1 < size2);

    // Both should roundtrip correctly
    let (p1, _) = PacketHeader::read(&buf1).unwrap();
    let (p2, _) = PacketHeader::read(&buf2).unwrap();
    assert_eq!(header1, p1);
    assert_eq!(header2, p2);
}

#[test]
fn test_invalid_header() {
    // Too short
    assert!(PacketHeader::read(&[]).is_none());
    assert!(PacketHeader::read(&[0]).is_none());
    assert!(PacketHeader::read(&[0, 0]).is_none());

    // Fragment flag set
    assert!(PacketHeader::read(&[1, 0, 0, 0, 0]).is_none());
}

#[test]
fn test_is_fragment() {
    assert!(!is_fragment_packet(&[0, 1, 2, 3]));
    assert!(is_fragment_packet(&[1, 1, 2, 3]));
    assert!(!is_fragment_packet(&[]));
}

#[test]
fn test_max_header_size() {
    // Worst case: full ack (2 bytes) + all ack_bits (4 bytes)
    let header = PacketHeader::new(0, 40000, 0x00000000);

    let mut buffer = Vec::new();
    let size = header.write(&mut buffer);

    assert!(size <= MAX_PACKET_HEADER_BYTES);
}

#[test]
fn header_exact_bytes_small_ack_all_bits_set() {
    let header = PacketHeader::new(0x1234, 0x1230, 0xFFFFFFFF);
    let mut buffer = Vec::new();
    let n = header.write(&mut buffer);
    assert_eq!(n, 4);
    assert_eq!(buffer, vec![0x20, 0x34, 0x12, 0x04]);
}

#[test]
fn header_exact_bytes_full_ack_and_bits() {
    let header = PacketHeader::new(0, 40000, 0x11FF2233);
    let mut buffer = vec![0xAA];
    let n = header.write(&mut buffer);
    // prefix: bytes 0, 1, 3 of ack_bits present (bits 1, 2, 4), full ack (bit 5 clear)
    assert_eq!(n, 8);
    assert_eq!(buffer, vec![0xAA, 0b0001_0110, 0x00, 0x00, 0x40, 0x9C, 0x33, 0x22, 0x11]);
    let (parsed, read) = PacketHeader::read(&buffer[1..]).unwrap();
    assert_eq!(read, 8);
    assert_eq!(parsed, header);
}

#[test]
fn header_write_to_slice_matches_write() {
    let header = PacketHeader::new(7, 65000, 0x00FF00FF);
    let mut v = Vec::new();
    let n = header.write(&mut v);
    let mut slice = [0xEEu8; 12];
    assert_eq!(header.write_to_slice(&mut slice), Some(n));
    assert_eq!(&slice[..n], &v[..]);
    assert!(slice[n..].iter().all(|&b| b == 0xEE));

    let mut small = [0u8; 8];
    assert_eq!(header.write_to_slice(&mut small), None);
    assert_eq!(small, [0u8; 8]);
}

#[test]
fn header_read_truncated_is_none() {
    let header = PacketHeader::new(300, 1, 0x12345678);
    let mut v = Vec::new();
    let n = header.write(&mut v);
    assert_eq!(n, 9);
    for cut in 0..n {
        assert!(PacketHeader::read(&v[..cut]).is_none());
    }
    let mut longer = v.clone();
    longer.extend_from_slice(&[1, 2, 3]);
    assert_eq!(PacketHeader::read(&longer), Some((header, 9)));
}
