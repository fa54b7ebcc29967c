//! Errors of the storage iterators.

use vstd::prelude::*;

verus! {

/// Why an iterator could not go on. Each one is fatal to the tree of
/// iterators in which it occurs.
#[derive(Clone, Copy, Debug, PartialEq, Eq, Structural)]
pub enum HummockError {
    /// The store holds no table with this id.
    ObjectNotFound { sst_id: u64 },
    /// A block could not be decoded: its checksum does not match.
    ChecksumMismatch { sst_id: u64, block_idx: usize },
}

pub type HummockResult<T> = Result<T, HummockError>;

} // verus!
