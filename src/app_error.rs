use vstd::prelude::*;

use crate::storage::{RetrieveError, StoreError};

verus! {

/// An error as the service reports it: each kind has a stable code.
#[derive(Debug)]
pub enum AppError {
    InvalidEventType(String),
    ResultTooLarge(u64),
}

impl AppError {
    /// The machine-readable code of the error kind.
    pub fn error_code(&self) -> (r: &'static str)
        ensures
            r@ == match self {
                AppError::InvalidEventType(_) => "INVALID_EVENT_TYPE"@,
                AppError::ResultTooLarge(_) => "RESULT_TOO_LARGE"@,
            },
    {
        match self {
            AppError::InvalidEventType(_) => "INVALID_EVENT_TYPE",
            AppError::ResultTooLarge(_) => "RESULT_TOO_LARGE",
        }
    }
}

impl From<StoreError> for AppError {
    fn from(error: StoreError) -> (r: Self) {
        match error {
            StoreError::InvalidEventType(event_type) => AppError::InvalidEventType(event_type),
        }
    }
}

impl vstd::std_specs::convert::FromSpecImpl<StoreError> for AppError {
    open spec fn obeys_from_spec() -> bool {
        true
    }

    open spec fn from_spec(v: StoreError) -> Self {
        match v {
            StoreError::InvalidEventType(event_type) => AppError::InvalidEventType(event_type),
        }
    }
}

impl From<RetrieveError> for AppError {
    fn from(error: RetrieveError) -> (r: Self) {
        match error {
            RetrieveError::ResultTooLarge(n) => AppError::ResultTooLarge(n),
        }
    }
}

impl vstd::std_specs::convert::FromSpecImpl<RetrieveError> for AppError {
    open spec fn obeys_from_spec() -> bool {
        true
    }

    open spec fn from_spec(v: RetrieveError) -> Self {
        match v {
            RetrieveError::ResultTooLarge(n) => AppError::ResultTooLarge(n),
        }
    }
}

} // verus!
