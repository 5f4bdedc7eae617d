//! Succinct data structures for bit sequences and integer sequences.
//!
//! The crate provides compact, immutable, queryable containers built over
//! word-packed bit storage: a bit-vector builder that freezes into a
//! zero-copy view, linear-scan and constant-time rank/select indexes, a
//! fixed-width packed integer array, and byte-granular directly addressable
//! codes. Every query is specified against a mathematical model of the
//! stored bit sequence and verified against it.

use vstd::prelude::*;

pub mod bit_vector;
pub mod bitseq;
pub mod broadword;
pub mod compact_vector;
pub mod dacs_byte;
pub mod darray;
pub mod error;
pub mod int_vectors;
pub mod laws;
pub mod rank9sel;
pub mod traits;
pub mod utils;
pub mod views;
