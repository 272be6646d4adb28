//! The failures that an operation of the store can report.

use vstd::prelude::*;

verus! {

/// What went wrong in an operation of the store or of the codec.
#[derive(Clone, Copy, Debug, PartialEq, Eq, Structural)]
pub enum StoreError {
    /// The backing store could not be opened or prepared.
    StorageUnavailable,
    /// A read could not be carried out.
    QueryFailed,
    /// A new record could not be written.
    InsertFailed,
    /// An existing record could not be overwritten.
    UpdateFailed,
    /// The ranks of a sibling scope could not be rewritten.
    ReorderFailed,
    /// A settings text is not the serialization of any settings value.
    MalformedPayload,
}

impl StoreError {
    /// The name of the failure, as shown to a caller.
    pub fn message(&self) -> (text: String)
        ensures
            text@ == self.spec_message()@,
    {
        match self {
            StoreError::StorageUnavailable => String::from_str("storage unavailable"),
            StoreError::QueryFailed => String::from_str("query failed"),
            StoreError::InsertFailed => String::from_str("insert failed"),
            StoreError::UpdateFailed => String::from_str("update failed"),
            StoreError::ReorderFailed => String::from_str("reorder failed"),
            StoreError::MalformedPayload => String::from_str("malformed payload"),
        }
    }

    /// The text of `message`, by variant.
    pub open spec fn spec_message(&self) -> &'static str {
        match self {
            StoreError::StorageUnavailable => "storage unavailable",
            StoreError::QueryFailed => "query failed",
            StoreError::InsertFailed => "insert failed",
            StoreError::UpdateFailed => "update failed",
            StoreError::ReorderFailed => "reorder failed",
            StoreError::MalformedPayload => "malformed payload",
        }
    }
}

} // verus!
