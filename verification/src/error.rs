//! What can be wrong with stored data.

use vstd::prelude::*;

verus! {

/// A defect of a stored entry.
#[derive(Debug, Clone, Copy, PartialEq, Eq)]
pub enum Error {
    /// The payload does not have the checksum that its footer records.
    ChecksumMismatch {
        /// checksum of the payload as it was read
        checksum: u64,
        /// checksum that the footer records
        expected: u64,
    },
}

} // verus!
