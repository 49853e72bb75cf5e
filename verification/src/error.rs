//! What a store reports when it cannot do what it was asked.
use vstd::prelude::*;

verus! {

/// A failure of the store behind a stream. The log hands such a failure to
/// its caller as it received it.
#[derive(Debug, PartialEq, Eq)]
pub enum StoreError {
    /// The store failed for the reason given.
    Internal(String),
    /// The store does not offer the operation.
    FunctionNotImplemented,
    /// No record is kept under the address.
    HashNotFound,
    /// The store's validation turned the record down, for the reason given.
    ValidationFailed(String),
    /// The store did not answer in time.
    Timeout,
}

} // verus!
