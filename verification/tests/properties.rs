use jerky::bit_vector::{BitVector, BitVectorBuilder, BitVectorData, NoIndex};
use jerky::compact_vector::{CompactVector, CompactVectorMeta};
use jerky::dacs_byte::DacsByte;
use jerky::darray::DArray;
use jerky::rank9sel::Rank9Sel;
use jerky::traits::{Access, Build, NumBits, Rank, Select};
use rand::{RngExt, SeedableRng};
use rand_chacha::ChaChaRng;

fn gen_random_bits(len: usize, p: f64, seed: u64) -> Vec<bool> {
    let mut rng = ChaChaRng::seed_from_u64(seed);
    (0..len).map(|_| rng.random_bool(p)).collect()
}

#[test]
fn empty_input_queries() {
    let builder = BitVectorBuilder::new();
    let bv: BitVector<NoIndex> = builder.freeze::<NoIndex>();
    assert_eq!(bv.len(), 0);
    assert_eq!(bv.num_ones(), 0);
    assert_eq!(bv.select1(0), None);
    assert_eq!(bv.select0(0), None);
    assert_eq!(bv.rank1(0), Some(0));
    assert_eq!(bv.rank0(0), Some(0));
    assert_eq!(bv.rank1(1), None);
    assert_eq!(bv.rank0(1), None);

    let rs = Rank9Sel::build_from_bits(&[], true, true, true).unwrap();
    assert_eq!(rs.num_ones(), 0);
    assert_eq!(rs.select1(0), None);
    assert_eq!(rs.select0(0), None);
    assert_eq!(rs.rank1(0), Some(0));
    assert_eq!(rs.rank1(1), None);

    let da = DArray::build_from_bits(&[], true, true, true).unwrap();
    assert_eq!(da.num_ones(), 0);
    assert_eq!(da.select1(0), None);
    assert_eq!(da.select0(0), None);
    assert_eq!(da.rank1(0), Some(0));
    assert_eq!(da.rank1(1), None);
}

#[test]
fn all_zeros_length_1000() {
    let bits = vec![false; 1000];
    let rs = Rank9Sel::build_from_bits(&bits, true, true, true).unwrap();
    assert_eq!(rs.select1(0), None);
    for k in 0..1000 {
        assert_eq!(rs.select0(k), Some(k));
    }
    let da = DArray::build_from_bits(&bits, true, true, true).unwrap();
    assert_eq!(da.select1(0), None);
    for k in 0..1000 {
        assert_eq!(da.select0(k), Some(k));
    }
}

#[test]
fn all_ones_length_1000() {
    let bits = vec![true; 1000];
    let rs = Rank9Sel::build_from_bits(&bits, true, true, true).unwrap();
    assert_eq!(rs.select0(0), None);
    for k in 0..1000 {
        assert_eq!(rs.select1(k), Some(k));
    }
    let da = DArray::build_from_bits(&bits, true, true, true).unwrap();
    assert_eq!(da.select0(0), None);
    for k in 0..1000 {
        assert_eq!(da.select1(k), Some(k));
    }
}

#[test]
fn compact_vector_width_64_arbitrary() {
    let vals = vec![u64::MAX, 0, 1 << 63, 0xdead_beef_dead_beef];
    let cv = CompactVector::from_slice(&vals).unwrap();
    assert_eq!(cv.width(), 64);
    assert_eq!(cv.to_vec(), vals);
}

#[test]
fn scenario_four_bits() {
    let bits = [true, false, false, true];

    let bv = BitVector::new(BitVectorData::from_bits(&bits), NoIndex);
    assert_eq!(bv.num_bits(), 4);
    assert_eq!(bv.num_ones(), 2);
    assert_eq!(bv.rank1(2), Some(1));
    assert_eq!(bv.rank1(4), Some(2));
    assert_eq!(bv.select1(1), Some(3));
    assert_eq!(bv.select0(0), Some(1));

    let rs = Rank9Sel::build_from_bits(&bits, true, true, true).unwrap();
    assert_eq!(rs.num_bits(), 4);
    assert_eq!(rs.num_ones(), 2);
    assert_eq!(rs.rank1(2), Some(1));
    assert_eq!(rs.rank1(4), Some(2));
    assert_eq!(rs.select1(1), Some(3));
    assert_eq!(rs.select0(0), Some(1));

    let da = DArray::build_from_bits(&bits, true, true, true).unwrap();
    assert_eq!(da.num_bits(), 4);
    assert_eq!(da.num_ones(), 2);
    assert_eq!(da.rank1(2), Some(1));
    assert_eq!(da.rank1(4), Some(2));
    assert_eq!(da.select1(1), Some(3));
    assert_eq!(da.select0(0), Some(1));
}

#[test]
fn scenario_compact_vector() {
    let cv = CompactVector::from_slice(&[5, 256, 0]).unwrap();
    assert_eq!(cv.width(), 9);
    assert_eq!(cv.len(), 3);
    assert_eq!(cv.get_int(0), Some(5));
    assert_eq!(cv.get_int(1), Some(256));
    assert_eq!(cv.get_int(2), Some(0));
    assert_eq!(cv.get_int(3), None);
}

#[test]
fn scenario_dacs_byte() {
    let seq = DacsByte::from_slice(&[0xFFFF, 0xFF, 0xF, 0xFFFFF, 0xF]).unwrap();
    assert_eq!(seq.num_levels(), 3);
    assert_eq!(seq.level_bytes(0).len(), 5);
    assert_eq!(seq.level_bytes(1).len(), 2);
    assert_eq!(seq.level_bytes(2).len(), 1);
    assert_eq!(seq.get_int(3), Some(0xFFFFF));
    assert_eq!(seq.get_int(4), Some(0xF));
}

#[test]
fn rank_partition_random() {
    let bits = gen_random_bits(4096 + 17, 0.5, 7);
    let rs = Rank9Sel::build_from_bits(&bits, true, true, true).unwrap();
    for i in 0..=bits.len() {
        let r1 = rs.rank1(i).unwrap();
        let r0 = rs.rank0(i).unwrap();
        assert_eq!(r1 + r0, i);
    }
}

#[test]
fn rank_select_inverse_random() {
    let bits = gen_random_bits(4096 + 5, 0.3, 21);
    let rs = Rank9Sel::build_from_bits(&bits, true, true, true).unwrap();
    let ones = rs.num_ones();
    for k in 0..ones {
        let pos = rs.select1(k).unwrap();
        assert_eq!(rs.rank1(pos), Some(k));
        assert_eq!(rs.access(pos), Some(true));
        assert_eq!(rs.rank1(pos + 1), Some(k + 1));
    }
    let zeros = rs.num_zeros();
    for k in 0..zeros {
        let pos = rs.select0(k).unwrap();
        assert_eq!(rs.rank0(pos), Some(k));
        assert_eq!(rs.access(pos), Some(false));
    }
    assert_eq!(rs.select1(ones), None);
    assert_eq!(rs.select0(zeros), None);
}

#[test]
fn indexes_agree_on_random_bits() {
    for p in [0.01, 0.1, 0.5, 0.9, 0.99] {
        let bits = gen_random_bits(2048 + 13, p, 113);
        let bv = BitVector::new(BitVectorData::from_bits(&bits), NoIndex);
        let rs = Rank9Sel::build_from_bits(&bits, true, true, true).unwrap();
        let da = DArray::build_from_bits(&bits, true, true, true).unwrap();
        assert_eq!(bv.num_ones(), rs.num_ones());
        assert_eq!(bv.num_ones(), da.num_ones());
        for i in 0..=bits.len() {
            assert_eq!(bv.rank1(i), rs.rank1(i));
            assert_eq!(bv.rank0(i), rs.rank0(i));
            assert_eq!(bv.rank1(i), da.rank1(i));
        }
        for k in 0..=bits.len() {
            assert_eq!(bv.select1(k), rs.select1(k));
            assert_eq!(bv.select0(k), rs.select0(k));
            assert_eq!(bv.select1(k), da.select1(k));
            assert_eq!(bv.select0(k), da.select0(k));
        }
    }
}

#[test]
fn num_ones_matches_masked_popcount() {
    let bits = gen_random_bits(1000, 0.5, 5);
    let data = BitVectorData::from_bits(&bits);
    let bv = BitVector::new(data.clone(), NoIndex);
    let mut expected: usize = 0;
    let words = data.words();
    for (w, &word) in words.iter().enumerate() {
        let masked = if (w + 1) * 64 <= 1000 {
            word
        } else if w * 64 >= 1000 {
            0
        } else {
            word & ((1u64 << (1000 - w * 64)) - 1)
        };
        expected += masked.count_ones() as usize;
    }
    assert_eq!(bv.num_ones(), expected);
}

#[test]
fn compact_vector_roundtrip_random() {
    let mut rng = ChaChaRng::seed_from_u64(42);
    let vals: Vec<u64> = (0..1000).map(|_| rng.random_range(0..100000u64)).collect();
    let cv = CompactVector::from_slice(&vals).unwrap();
    assert_eq!(cv.to_vec(), vals);
}

#[test]
fn dacs_byte_roundtrip_random() {
    let mut rng = ChaChaRng::seed_from_u64(43);
    let vals: Vec<u64> = (0..1000).map(|_| rng.random_range(0..10_000_000u64)).collect();
    let seq = DacsByte::from_slice(&vals).unwrap();
    assert_eq!(seq.to_vec(), vals);
}

#[test]
fn data_bytes_roundtrip_random() {
    let bits = gen_random_bits(777, 0.5, 9);
    let data = BitVectorData::from_bits(&bits);
    let (len, bytes) = data.to_bytes();
    let back = BitVectorData::from_bytes(len, bytes).unwrap();
    assert!(data == back);
    for i in 0..len {
        assert_eq!(data.access(i), back.access(i));
    }
}

#[test]
fn builder_determinism() {
    let bits = gen_random_bits(500, 0.4, 3);
    let mut b1 = BitVectorBuilder::new();
    let mut b2 = BitVectorBuilder::new();
    for &b in &bits {
        b1.push_bit(b);
        b2.push_bit(b);
    }
    b1.push_bits(0b1011, 4).unwrap();
    b2.push_bits(0b1011, 4).unwrap();
    b1.set_bit(3, true).unwrap();
    b2.set_bit(3, true).unwrap();
    let (l1, bytes1) = b1.into_bytes();
    let (l2, bytes2) = b2.into_bytes();
    assert_eq!(l1, l2);
    assert_eq!(bytes1.as_ref(), bytes2.as_ref());
}

#[test]
fn freeze_to_bytes_from_bytes_equal() {
    let bits = gen_random_bits(321, 0.5, 77);
    let mut builder = BitVectorBuilder::new();
    builder.extend_bits(&bits);
    let bv: BitVector<NoIndex> = builder.freeze::<NoIndex>();
    let (len, bytes) = bv.data.to_bytes();
    let back = BitVectorData::from_bytes(len, bytes).unwrap();
    let other = BitVector::new(back, NoIndex);
    assert!(bv == other);
}

#[test]
fn rank9sel_space_on_large_random() {
    let bits = gen_random_bits(1 << 20, 0.5, 113);
    let plain = Rank9Sel::from_bits(&bits);
    let bpb = (plain.size_in_bytes() * 8) as f64 / (1 << 20) as f64;
    assert!(bpb <= 1.26, "bits per bit without hints: {bpb}");

    let hinted = Rank9Sel::build_from_bits(&bits, true, true, true).unwrap();
    let bpb = (hinted.size_in_bytes() * 8) as f64 / (1 << 20) as f64;
    assert!(bpb <= 1.30, "bits per bit with hints: {bpb}");
}

#[test]
fn darray_matches_on_large_random() {
    let bits = gen_random_bits(1 << 20, 0.5, 113);
    let bv = BitVector::new(BitVectorData::from_bits(&bits), NoIndex);
    let da = DArray::from_bits(&bits);
    let mut rng = ChaChaRng::seed_from_u64(99);
    for _ in 0..10_000 {
        let k: usize = rng.random_range(0..(1 << 20));
        assert_eq!(da.select1(k), bv.select1(k));
    }
    let bpb = (da.size_in_bytes() * 8) as f64 / (1 << 20) as f64;
    assert!(bpb <= 1.35, "bits per bit: {bpb}");
}

#[test]
fn darray_long_blocks_sparse_ones() {
    // 2048 ones spread every 150 positions: each super-block of 1024 ones
    // spans about 153600 bits, so the dense-array index stores the
    // positions verbatim in its overflow array.
    let len = 2048 * 150;
    let mut bits = vec![false; len];
    let mut expected = Vec::new();
    for k in 0..2048 {
        bits[k * 150] = true;
        expected.push(k * 150);
    }
    let da = DArray::from_bits(&bits).enable_rank().enable_select0();
    assert_eq!(da.num_ones(), 2048);
    for (k, &pos) in expected.iter().enumerate() {
        assert_eq!(da.select1(k), Some(pos));
    }
    assert_eq!(da.select1(2048), None);
}

#[test]
fn darray_long_blocks_sparse_zeros() {
    // The symmetric case: sparse zeros drive the zero-polarity index
    // through its overflow path.
    let len = 2048 * 150;
    let mut bits = vec![true; len];
    for k in 0..2048 {
        bits[k * 150] = false;
    }
    let da = DArray::from_bits(&bits).enable_select0();
    for k in 0..2048 {
        assert_eq!(da.select0(k), Some(k * 150));
    }
    assert_eq!(da.select0(2048), None);
}

#[test]
fn rank9sel_hinted_select_large() {
    let bits = gen_random_bits(100_000, 0.5, 31);
    let bv = BitVector::new(BitVectorData::from_bits(&bits), NoIndex);
    let hinted = Rank9Sel::build_from_bits(&bits, true, true, true).unwrap();
    let ones = hinted.num_ones();
    let zeros = hinted.num_zeros();
    let mut k = 0;
    while k < ones {
        assert_eq!(hinted.select1(k), bv.select1(k));
        k += 97;
    }
    let mut k = 0;
    while k < zeros {
        assert_eq!(hinted.select0(k), bv.select0(k));
        k += 97;
    }
    assert_eq!(hinted.select1(ones), None);
    assert_eq!(hinted.select0(zeros), None);
}

#[test]
fn compact_vector_from_bytes_rejects_bad_meta() {
    let cv = CompactVector::from_slice(&[1, 2, 3]).unwrap();
    let (_, bytes) = cv.to_bytes();
    let bad = CompactVectorMeta { len: 1000, width: 64 };
    assert!(CompactVector::from_bytes(bad, bytes).is_err());
}
