//! What reconstruction can fail with.

use vstd::prelude::*;

verus! {

/// The ways in which reconstruction fails.
#[derive(Clone, Copy, Debug, PartialEq, Eq, Structural)]
pub enum WinError {
    /// The blob does not start with the marker of preparsed data, or its
    /// tables contradict each other or reach past its end.
    InvalidPreparsedData,
    /// The descriptor does not fit into the caller's buffer. The number is the
    /// length that would have been enough.
    BufferTooSmall(usize),
}

pub type WinResult<T> = Result<T, WinError>;

} // verus!
