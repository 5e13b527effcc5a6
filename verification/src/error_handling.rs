//! Error kinds of the scoring service.
//!
//! A storage failure and a lock failure are internal faults a caller
//! cannot remedy; an oversized result-count request is a validation
//! fault of the request itself, kept as a distinct kind so callers
//! can tell a bad request from a degraded service.

use vstd::prelude::*;

verus! {

/// The data source could not complete a fetch.
#[derive(Debug)]
pub struct DbError {
    pub message: String,
}

/// A lock over a model could not be acquired.
#[derive(Debug)]
pub struct LockError {
    pub message: String,
}

/// The request asked for more results than the service allows.
#[derive(Debug)]
pub struct ValidationError {
    pub message: String,
}

impl DbError {
    pub fn new(message: String) -> (r: Self)
        ensures
            r.message == message,
    {
        Self { message }
    }
}

impl LockError {
    pub fn new(message: String) -> (r: Self)
        ensures
            r.message == message,
    {
        Self { message }
    }
}

impl ValidationError {
    pub fn new(message: String) -> (r: Self)
        ensures
            r.message == message,
    {
        Self { message }
    }
}

} // verus!
