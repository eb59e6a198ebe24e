use vstd::prelude::*;

verus! {

/// Why an event was not stored.
#[derive(Debug)]
pub enum StoreError {
    /// The engine does not accept events of this type; nothing was changed.
    InvalidEventType(String),
}

/// Why a query was not answered.
#[derive(Debug)]
pub enum RetrieveError {
    /// More events matched than the given maximum; no partial result is returned.
    ResultTooLarge(u64),
}

} // verus!
