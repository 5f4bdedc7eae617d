use jerky::bit_vector::{BitVector, BitVectorBuilder, BitVectorData, NoIndex};
use jerky::traits::{Access, NumBits, Rank, Select};

#[test]
fn no_index_wrapper() {
    let data = BitVectorData::from_bits(&[true, false, false, true]);
    let bv = BitVector::new(data, NoIndex);

    assert_eq!(bv.num_bits(), 4);
    assert_eq!(bv.num_ones(), 2);
    assert_eq!(bv.access(0), Some(true));
    assert_eq!(bv.rank1(4), Some(2));
    assert_eq!(bv.select1(1), Some(3));
    assert_eq!(bv.select0(0), Some(1));
}

#[test]
fn builder_freeze() {
    let mut builder = BitVectorBuilder::new();
    builder.extend_bits(&[true, false]);
    builder.push_bits(0b10, 2).unwrap();
    builder.set_bit(1, true).unwrap();
    let bv: BitVector<NoIndex> = builder.freeze::<NoIndex>();
    assert_eq!(bv.len(), 4);
    assert_eq!(bv.get_bits(0, 4), Some(0b1011));
}

#[test]
fn bit_vector_from_bytes_roundtrip() {
    let mut builder = BitVectorBuilder::new();
    builder.extend_bits(&[true, false, true, true, false]);
    let expected: BitVector<NoIndex> = builder.clone().freeze::<NoIndex>();
    let (len, bytes) = builder.into_bytes();

    let data = BitVectorData::from_bytes(len, bytes).unwrap();
    let other: BitVector<NoIndex> = data.into();
    assert!(expected == other);
}

#[test]
fn get_bits_wrapper() {
    let data = BitVectorData::from_bits(&[true, false, true, true, false]);
    let bv = BitVector::new(data.clone(), NoIndex);
    assert_eq!(data.get_bits(1, 3), Some(0b110));
    assert_eq!(data.get_bits(2, 4), None);
    assert_eq!(bv.get_bits(1, 3), Some(0b110));
    assert_eq!(bv.get_bits(2, 4), None);
}

#[test]
fn builder_push_bits_across_word() {
    let mut builder = BitVectorBuilder::new();
    builder.extend_bits(&vec![false; 62]);
    builder.push_bits(0b011111, 6).unwrap();
    let bv: BitVector<NoIndex> = builder.freeze::<NoIndex>();
    assert_eq!(bv.data.get_bits(61, 7).unwrap(), 0b0111110);
}

#[test]
fn push_bits_too_long() {
    let mut builder = BitVectorBuilder::new();
    let e = builder.push_bits(0, 65);
    assert_eq!(
        e.err().map(|x| x.message()),
        Some("len must be no greater than 64, but got 65.".to_string())
    );
}

#[test]
fn set_bit_out_of_bounds() {
    let mut builder = BitVectorBuilder::new();
    builder.push_bit(true);
    let e = builder.set_bit(1, false);
    assert_eq!(
        e.err().map(|x| x.message()),
        Some("pos must be no greater than self.len()=1, but got 1.".to_string())
    );
}

#[test]
fn from_bytes_rejects_short_buffer() {
    let mut builder = BitVectorBuilder::new();
    builder.extend_bits(&[true; 64]);
    let (_, bytes) = builder.into_bytes();
    let e = BitVectorData::from_bytes(129, bytes);
    assert!(e.is_err());
}
