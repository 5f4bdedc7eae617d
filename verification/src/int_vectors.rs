//! The query trait surface for integer sequences. Every implementor views
//! as a sequence of 64-bit values.

use vstd::prelude::*;

use crate::error::Error;

verus! {

/// Accessing single integers.
pub trait Access: View<V = Seq<u64>> {
    /// The structure is ready for access queries.
    spec fn access_ready(&self) -> bool;

    /// Returns the `pos`-th integer, or `None` if out of bounds.
    fn access(&self, pos: usize) -> (r: Option<u64>)
        requires
            self.access_ready(),
        ensures
            r == if pos < self@.len() {
                Some(self@[pos as int])
            } else {
                None::<u64>
            },
    ;
}

/// Reporting the number of integers stored.
pub trait NumVals: View<V = Seq<u64>> {
    /// The structure is ready for counting queries.
    spec fn counts_ready(&self) -> bool;

    /// Returns the number of integers stored.
    fn num_vals(&self) -> (r: usize)
        requires
            self.counts_ready(),
        ensures
            r == self@.len(),
    ;
}

/// Building an integer sequence from a slice.
pub trait Build: View<V = Seq<u64>> + Sized {
    /// Creates a new vector holding exactly the given integers.
    fn build_from_slice(vals: &[u64]) -> (r: Result<Self, Error>)
        ensures
            match r {
                Ok(v) => v@ == vals@,
                Err(_) => true,
            },
    ;
}

} // verus!
