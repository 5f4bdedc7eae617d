use jerky::dacs_byte::DacsByte;
use jerky::int_vectors::Access;

#[test]
fn test_basic() {
    let seq = DacsByte::from_slice(&[0xFFFF, 0xFF, 0xF, 0xFFFFF, 0xF]).unwrap();

    assert_eq!(seq.level_bytes(0), vec![0xFFu8, 0xFF, 0xF, 0xFF, 0xF]);
    assert_eq!(seq.level_bytes(1), vec![0xFFu8, 0xFF]);
    assert_eq!(seq.level_bytes(2), vec![0xFu8]);

    assert_eq!(seq.flag_bits(0), vec![true, false, false, true, false]);
    assert_eq!(seq.flag_bits(1), vec![false, true]);

    assert!(!seq.is_empty());
    assert_eq!(seq.len(), 5);
    assert_eq!(seq.num_levels(), 3);
    assert_eq!(seq.widths(), vec![8, 8, 8]);

    assert_eq!(seq.access(0), Some(0xFFFF));
    assert_eq!(seq.access(1), Some(0xFF));
    assert_eq!(seq.access(2), Some(0xF));
    assert_eq!(seq.access(3), Some(0xFFFFF));
    assert_eq!(seq.access(4), Some(0xF));
}

#[test]
fn test_empty() {
    let seq = DacsByte::from_slice(&[]).unwrap();
    assert!(seq.is_empty());
    assert_eq!(seq.len(), 0);
    assert_eq!(seq.num_levels(), 1);
    assert_eq!(seq.widths(), vec![8]);
}

#[test]
fn dacs_byte_test_all_zeros() {
    let seq = DacsByte::from_slice(&[0, 0, 0, 0]).unwrap();
    assert!(!seq.is_empty());
    assert_eq!(seq.len(), 4);
    assert_eq!(seq.num_levels(), 1);
    assert_eq!(seq.widths(), vec![8]);
    assert_eq!(seq.access(0), Some(0));
    assert_eq!(seq.access(1), Some(0));
    assert_eq!(seq.access(2), Some(0));
    assert_eq!(seq.access(3), Some(0));
}

#[test]
fn dacs_roundtrip_mixed() {
    let vals: Vec<u64> = vec![5, 0, 100000, 334, u64::MAX, 1 << 40, 255, 256];
    let seq = DacsByte::from_slice(&vals).unwrap();
    assert_eq!(seq.to_vec(), vals);
    assert_eq!(seq.access(4), Some(u64::MAX));
    assert_eq!(seq.access(8), None);
}
