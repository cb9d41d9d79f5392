//! The failures that store operations report.
use vstd::prelude::*;

verus! {

/// Why a store operation could not be carried out.
#[derive(Debug, Clone, Copy, PartialEq, Eq, Structural)]
pub enum StoreError {
    /// A row key could not be encoded.
    KeyEncode,
    /// A row key, or the part of it behind a listing prefix, is not a key of this store.
    KeyDecode,
    /// A record could not be serialized.
    ValueEncode,
    /// A stored record could not be deserialized.
    ValueDecode,
    /// A scan over stable-path rows met a row of another kind.
    ExpectedStablePath,
    /// The ID counter has no room for the requested range.
    IdRangeExhausted,
}

} // verus!
