use reliable_rs::utils::bits_required;
use reliable_rs::{sequence_greater_than, sequence_less_than};

#[test]
fn test_sequence_greater_than() {
    // Normal cases
    assert!(sequence_greater_than(1, 0));
    assert!(sequence_greater_than(100, 50));
    assert!(!sequence_greater_than(0, 1));
    assert!(!sequence_greater_than(50, 100));

    // Equal
    assert!(!sequence_greater_than(5, 5));

    // Wrap-around cases
    assert!(sequence_greater_than(0, 65535));
    assert!(sequence_greater_than(1, 65534));
    assert!(!sequence_greater_than(65535, 0));
    assert!(!sequence_greater_than(65534, 1));

    // Near wrap-around boundary
    assert!(sequence_greater_than(32768, 0));
    assert!(!sequence_greater_than(32769, 0));
}

#[test]
fn test_sequence_less_than() {
    assert!(sequence_less_than(0, 1));
    assert!(sequence_less_than(65535, 0));
    assert!(!sequence_less_than(1, 0));
    assert!(!sequence_less_than(0, 65535));
}

#[test]
fn test_bits_required() {
    assert_eq!(bits_required(0, 0), 0);
    assert_eq!(bits_required(0, 1), 1);
    assert_eq!(bits_required(0, 2), 2);
    assert_eq!(bits_required(0, 3), 2);
    assert_eq!(bits_required(0, 4), 3);
    assert_eq!(bits_required(0, 255), 8);
    assert_eq!(bits_required(0, 256), 9);
}

#[test]
fn sequence_order_is_asymmetric_and_total() {
    for &(a, b) in &[(0u16, 1u16), (65535, 0), (32768, 0), (0, 32768), (100, 40000), (7, 7)] {
        assert!(!(sequence_greater_than(a, b) && sequence_greater_than(b, a)));
        if a != b {
            assert!(sequence_greater_than(a, b) || sequence_greater_than(b, a));
        }
        assert_eq!(sequence_less_than(a, b), sequence_greater_than(b, a));
    }
}

#[test]
fn sequence_successor_is_greater() {
    for &a in &[0u16, 1, 32767, 32768, 65534, 65535] {
        assert!(sequence_greater_than(a.wrapping_add(1), a));
    }
}

#[test]
fn bits_required_with_offset_range() {
    assert_eq!(bits_required(10, 10), 0);
    assert_eq!(bits_required(10, 11), 1);
    assert_eq!(bits_required(100, 355), 8);
    assert_eq!(bits_required(0, u32::MAX), 32);
}
