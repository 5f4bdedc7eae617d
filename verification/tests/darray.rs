use jerky::darray::DArray;
use jerky::traits::{Rank, Select};

#[test]
fn darray_test_all_zeros() {
    let da = DArray::from_bits(&[false, false, false]);
    assert_eq!(da.select1(0), None);
}

#[test]
#[should_panic]
fn test_rank1() {
    let da = DArray::from_bits(&[false, true, false]);
    da.rank1(1);
}

#[test]
#[should_panic]
fn test_rank0() {
    let da = DArray::from_bits(&[false, true, false]);
    da.rank0(1);
}

#[test]
#[should_panic]
fn test_select1() {
    let da = DArray::from_bits(&[false, true, false]);
    da.select0(0);
}
