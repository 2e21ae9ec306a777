//! Error kinds of the storage core.

use vstd::prelude::*;

verus! {

/// Failure kinds of the B+tree core.
///
/// `IndexOutOfBounds` signals corruption or a caller bug (an accessor index
/// at or past a node's key count) and is never a normal-path condition.
/// `OversizedKey` / `OversizedValue` reject an input before any page is
/// touched. `PageStoreFailure` propagates, uninterpreted, a failure of the
/// page store; the mutation is abandoned before a new root is installed.
/// Absence of a key on search or delete is a normal result, not an error.
#[derive(Debug, Clone, Copy, PartialEq, Eq, Structural)]
pub enum BTreeError {
    IndexOutOfBounds,
    OversizedKey,
    OversizedValue,
    PageStoreFailure,
}

impl BTreeError {
    /// A human-readable description of the error kind.
    pub fn message(&self) -> &'static str {
        match self {
            BTreeError::IndexOutOfBounds => "the requested index is out of bounds",
            BTreeError::OversizedKey => "the key exceeds the maximum key size",
            BTreeError::OversizedValue => "the value exceeds the maximum value size",
            BTreeError::PageStoreFailure => "the page store reported a failure",
        }
    }
}

} // verus!
