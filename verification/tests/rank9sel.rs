use jerky::rank9sel::Rank9Sel;
use jerky::traits::{Build, Rank, Select};

#[test]
fn test_rank1_all_zeros() {
    let bv = Rank9Sel::from_bits(&[false, false, false]);
    assert_eq!(bv.rank1(0), Some(0));
    assert_eq!(bv.rank1(1), Some(0));
    assert_eq!(bv.rank1(2), Some(0));
    assert_eq!(bv.rank1(3), Some(0));
    assert_eq!(bv.rank1(4), None);
}

#[test]
fn test_select1_all_zeros() {
    let bv = Rank9Sel::build_from_bits(&[false, false, false], false, true, false).unwrap();
    assert_eq!(bv.select1(0), None);
}

#[test]
fn test_rank0_all_ones() {
    let bv = Rank9Sel::from_bits(&[true, true, true]);
    assert_eq!(bv.rank0(0), Some(0));
    assert_eq!(bv.rank0(1), Some(0));
    assert_eq!(bv.rank0(2), Some(0));
    assert_eq!(bv.rank0(3), Some(0));
    assert_eq!(bv.rank0(4), None);
}

#[test]
fn test_select0_all_ones() {
    let bv = Rank9Sel::build_from_bits(&[true, true, true], false, false, true).unwrap();
    assert_eq!(bv.select0(0), None);
}

#[test]
fn test_select0_no_hint() {
    let bv = Rank9Sel::from_bits(&[true, false, false, true]);
    assert_eq!(bv.select0(0), Some(1));
    assert_eq!(bv.select0(1), Some(2));
    assert_eq!(bv.select0(2), None);
}

#[test]
fn test_select1_no_hint() {
    let bv = Rank9Sel::from_bits(&[true, false, false, true]);
    assert_eq!(bv.select1(0), Some(0));
    assert_eq!(bv.select1(1), Some(3));
    assert_eq!(bv.select1(2), None);
}
