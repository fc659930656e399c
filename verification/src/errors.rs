//! The error taxonomy of the resolution engine.

use vstd::prelude::*;

verus! {

/// Why a postcode or coordinate failed to resolve.
///
/// `StoreUnavailable` is recovered internally by falling back to the
/// dataset scan wherever a fallback exists; `NotFound` and
/// `InvalidLocation` are surfaced so that callers can tell "absent"
/// from "present but known bad". `RecordParseError` marks a malformed
/// matching record or stored value. `DatasetUnavailable` is reserved
/// for the process edge that opens the dataset: the engine itself never
/// produces it, and a caller that cannot supply dataset text reports it.
#[derive(Clone, Copy, Debug, PartialEq, Eq, Structural)]
pub enum ResolveError {
    NotFound,
    InvalidLocation,
    RecordParseError,
    StoreUnavailable,
    DatasetUnavailable,
}

/// Why a travel-matrix build failed.
///
/// `AllUnresolved` reports that not one postcode of the batch resolved;
/// `MatrixProviderError` reports a non-success provider status or a
/// malformed provider response, which aborts the whole build since a
/// partial matrix is unusable.
#[derive(Clone, Copy, Debug, PartialEq, Eq, Structural)]
pub enum MatrixError {
    AllUnresolved,
    MatrixProviderError,
}

} // verus!
