//! The error type surfaced by construction operations. Queries never
//! raise; they return `None` for out-of-range arguments.

use vstd::prelude::*;

verus! {

/// An argument a construction operation rejects.
#[derive(Clone, Copy, Debug, PartialEq, Eq, Structural)]
pub enum Error {
    /// A bit width outside `1..=64`.
    WidthOutOfRange { got: usize },
    /// A value that does not fit the fixed width of the container.
    ValueTooWide { width: usize, val: u64 },
    /// A value that does not fit the width a constructor was given.
    ValueTooWideNew { width: usize, val: u64 },
    /// A position at or beyond the current length.
    PosOutOfBounds { len: usize, got: usize },
    /// More bits pushed at once than a word holds.
    PushTooLong { got: usize },
    /// A byte buffer that is misaligned or too short for the stated length.
    BytesMismatch,
}

#[verifier::external_body]
fn fmt_width_out_of_range(got: usize) -> String {
    format!("width must be in 1..=64, but got {got}.")
}

#[verifier::external_body]
fn fmt_value_too_wide(width: usize, val: u64) -> String {
    format!("val must fit in self.width()={width} bits, but got {val}.")
}

#[verifier::external_body]
fn fmt_value_too_wide_new(width: usize, val: u64) -> String {
    format!("val must fit in width={width} bits, but got {val}.")
}

#[verifier::external_body]
fn fmt_pos_out_of_bounds(len: usize, got: usize) -> String {
    format!("pos must be no greater than self.len()={len}, but got {got}.")
}

#[verifier::external_body]
fn fmt_push_too_long(got: usize) -> String {
    format!("len must be no greater than 64, but got {got}.")
}

#[verifier::external_body]
fn fmt_bytes_mismatch() -> String {
    format!("bytes must be word-aligned and hold at least the stated number of bits.")
}

impl Error {
    /// A human-readable description of the rejected argument.
    pub fn message(&self) -> String {
        match *self {
            Error::WidthOutOfRange { got } => fmt_width_out_of_range(got),
            Error::ValueTooWide { width, val } => fmt_value_too_wide(width, val),
            Error::ValueTooWideNew { width, val } => fmt_value_too_wide_new(width, val),
            Error::PosOutOfBounds { len, got } => fmt_pos_out_of_bounds(len, got),
            Error::PushTooLong { got } => fmt_push_too_long(got),
            Error::BytesMismatch => fmt_bytes_mismatch(),
        }
    }
}

} // verus!
