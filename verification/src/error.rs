//! The ways in which a split or a merge can fail.

use vstd::prelude::*;

verus! {

/// Why an operation was given up.
#[derive(Clone, Copy, Debug, PartialEq, Eq, Structural)]
pub enum Error {
    /// Opening, reading, seeking, writing, flushing or syncing a stream
    /// failed, or the input ended before the bytes that were asked for had
    /// been copied.
    Io,
    /// The maximum chunk size is zero.
    Config,
}

} // verus!
