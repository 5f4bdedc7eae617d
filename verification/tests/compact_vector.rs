use jerky::compact_vector::{CompactVector, CompactVectorBuilder};

#[test]
fn test_new_oob_0() {
    let e = CompactVector::new(0);
    assert_eq!(
        e.err().map(|x| x.message()),
        Some("width must be in 1..=64, but got 0.".to_string())
    );
}

#[test]
fn test_new_oob_65() {
    let e = CompactVector::new(65);
    assert_eq!(
        e.err().map(|x| x.message()),
        Some("width must be in 1..=64, but got 65.".to_string())
    );
}

#[test]
fn test_with_capacity_oob_0() {
    let e = CompactVector::with_capacity(0, 0);
    assert_eq!(
        e.err().map(|x| x.message()),
        Some("width must be in 1..=64, but got 0.".to_string())
    );
}

#[test]
fn test_with_capacity_oob_65() {
    let e = CompactVector::with_capacity(0, 65);
    assert_eq!(
        e.err().map(|x| x.message()),
        Some("width must be in 1..=64, but got 65.".to_string())
    );
}

#[test]
fn test_from_int_oob_0() {
    let e = CompactVector::from_int(0, 0, 0);
    assert_eq!(
        e.err().map(|x| x.message()),
        Some("width must be in 1..=64, but got 0.".to_string())
    );
}

#[test]
fn test_from_int_oob_65() {
    let e = CompactVector::from_int(0, 0, 65);
    assert_eq!(
        e.err().map(|x| x.message()),
        Some("width must be in 1..=64, but got 65.".to_string())
    );
}

#[test]
fn test_from_int_unfit() {
    let e = CompactVector::from_int(4, 0, 2);
    assert_eq!(
        e.err().map(|x| x.message()),
        Some("val must fit in width=2 bits, but got 4.".to_string())
    );
}

#[test]
fn test_set_int_oob() {
    let mut builder = CompactVectorBuilder::with_capacity(1, 2).unwrap();
    builder.push_int(0).unwrap();
    let e = builder.set_int(1, 1);
    assert_eq!(
        e.err().map(|x| x.message()),
        Some("pos must be no greater than self.len()=1, but got 1.".to_string())
    );
}

#[test]
fn test_set_int_unfit() {
    let mut builder = CompactVectorBuilder::with_capacity(1, 2).unwrap();
    builder.push_int(0).unwrap();
    let e = builder.set_int(0, 4);
    assert_eq!(
        e.err().map(|x| x.message()),
        Some("val must fit in self.width()=2 bits, but got 4.".to_string())
    );
}

#[test]
fn test_push_int_unfit() {
    let mut builder = CompactVectorBuilder::new(2).unwrap();
    let e = builder.push_int(4);
    assert_eq!(
        e.err().map(|x| x.message()),
        Some("val must fit in self.width()=2 bits, but got 4.".to_string())
    );
}

#[test]
fn test_extend_unfit() {
    let mut builder = CompactVectorBuilder::new(2).unwrap();
    let e = builder.extend(&[4]);
    assert_eq!(
        e.err().map(|x| x.message()),
        Some("val must fit in self.width()=2 bits, but got 4.".to_string())
    );
}

#[test]
fn test_64b() {
    let mut builder = CompactVectorBuilder::new(64).unwrap();
    builder.push_int(42).unwrap();
    assert_eq!(builder.clone().freeze().get_int(0), Some(42));
    builder.set_int(0, 334).unwrap();
    let cv = builder.freeze();
    assert_eq!(cv.get_int(0), Some(334));
}

#[test]
fn test_64b_from_int() {
    let cv = CompactVector::from_int(42, 1, 64).unwrap();
    assert_eq!(cv.get_int(0), Some(42));
}

#[test]
fn iter_collects() {
    let cv = CompactVector::from_slice(&[1, 2, 3]).unwrap();
    let collected: Vec<u64> = cv.to_vec();
    assert_eq!(collected, vec![1, 2, 3]);
}

#[test]
fn to_vec_collects() {
    let cv = CompactVector::from_slice(&[1, 2, 3]).unwrap();
    assert_eq!(cv.to_vec(), vec![1, 2, 3]);
}

#[test]
fn compact_vector_from_bytes_roundtrip() {
    let cv = CompactVector::from_slice(&[4, 5, 6]).unwrap();
    let (meta, bytes) = cv.to_bytes();
    let other = CompactVector::from_bytes(meta, bytes).unwrap();
    assert!(cv == other);
}

#[test]
fn builder_needs_clone() {
    let mut builder = CompactVectorBuilder::new(3).unwrap();
    builder.push_int(1).unwrap();
    builder.extend(&[2, 5]).unwrap();
    let cv = builder.freeze();
    assert_eq!(cv.get_int(1), Some(2));
    assert_eq!(cv.len(), 3);
}

#[test]
fn extend_error_leaves_builder_unchanged() {
    let mut builder = CompactVectorBuilder::new(3).unwrap();
    builder.push_int(1).unwrap();
    let e = builder.extend(&[2, 9, 4]);
    assert!(e.is_err());
    let cv = builder.freeze();
    assert_eq!(cv.to_vec(), vec![1]);
}
