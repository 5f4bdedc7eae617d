//! The query trait surface for bit vectors. Every implementor views as a
//! bit sequence, and each trait carries a readiness predicate saying when
//! its queries may be asked; a query asked of an unready structure is a
//! precondition violation.

use vstd::prelude::*;

use crate::bitseq::{pol_bits, rank_of, select_answer_ok, total_ones};
use crate::error::Error;

verus! {

/// Reporting basic statistics of a bit vector.
pub trait NumBits: View<V = Seq<bool>> {
    /// The structure is ready for counting queries.
    spec fn counts_ready(&self) -> bool;

    /// Returns the number of bits stored.
    fn num_bits(&self) -> (r: usize)
        requires
            self.counts_ready(),
        ensures
            r == self@.len(),
    ;

    /// Returns the number of bits set.
    fn num_ones(&self) -> (r: usize)
        requires
            self.counts_ready(),
        ensures
            r == total_ones(self@),
    ;

    /// Returns the number of bits unset.
    fn num_zeros(&self) -> (r: usize)
        requires
            self.counts_ready(),
        ensures
            r == self@.len() - total_ones(self@),
    ;
}

/// Accessing single bits.
pub trait Access: View<V = Seq<bool>> {
    /// The structure is ready for access queries.
    spec fn access_ready(&self) -> bool;

    /// Returns the `pos`-th bit, or `None` if out of bounds.
    fn access(&self, pos: usize) -> (r: Option<bool>)
        requires
            self.access_ready(),
        ensures
            r == if pos < self@.len() {
                Some(self@[pos as int])
            } else {
                None::<bool>
            },
    ;
}

/// Rank queries on bit vectors.
pub trait Rank: View<V = Seq<bool>> {
    /// The structure is ready for rank queries.
    spec fn rank_ready(&self) -> bool;

    /// Returns the number of set bits below `pos`, or `None` if `pos`
    /// exceeds the length.
    fn rank1(&self, pos: usize) -> (r: Option<usize>)
        requires
            self.rank_ready(),
        ensures
            match r {
                Some(c) => pos <= self@.len() && c == rank_of(self@, pos as int),
                None => pos > self@.len(),
            },
    ;

    /// Returns the number of unset bits below `pos`, or `None` if `pos`
    /// exceeds the length.
    fn rank0(&self, pos: usize) -> (r: Option<usize>)
        requires
            self.rank_ready(),
        ensures
            match r {
                Some(c) => pos <= self@.len() && c == pos - rank_of(self@, pos as int),
                None => pos > self@.len(),
            },
    ;
}

/// Select queries on bit vectors.
pub trait Select: View<V = Seq<bool>> {
    /// The structure is ready for select queries over set bits.
    spec fn select1_ready(&self) -> bool;

    /// The structure is ready for select queries over unset bits.
    spec fn select0_ready(&self) -> bool;

    /// Returns the position of the `(k+1)`-th set bit, or `None` if fewer
    /// set bits exist.
    fn select1(&self, k: usize) -> (r: Option<usize>)
        requires
            self.select1_ready(),
        ensures
            select_answer_ok(self@, k as nat, r),
    ;

    /// Returns the position of the `(k+1)`-th unset bit, or `None` if
    /// fewer unset bits exist.
    fn select0(&self, k: usize) -> (r: Option<usize>)
        requires
            self.select0_ready(),
        ensures
            select_answer_ok(pol_bits(self@, false), k as nat, r),
    ;
}

/// Building a bit vector with rank/select support from a bit stream. The
/// bit count is bounded by a machine limit: the dense-array select index
/// encodes positions in signed 64-bit inventory entries.
pub trait Build: View<V = Seq<bool>> + Sized {
    /// Creates a new vector from the input bits. The three flags enable
    /// optional query support where a structure offers it.
    fn build_from_bits(bits: &[bool], with_rank: bool, with_select1: bool, with_select0: bool) -> (r:
        Result<Self, Error>)
        requires
            bits@.len() <= 0x7fff_ffff_ffff_ffff,
        ensures
            match r {
                Ok(v) => v@ == bits@,
                Err(_) => true,
            },
    ;
}

} // verus!
