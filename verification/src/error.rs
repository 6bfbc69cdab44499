//! Errors.
use vstd::prelude::*;

verus! {

/// An error of the database engine.
#[derive(Debug, PartialEq, Eq)]
pub enum LimboError {
    /// The statement cannot be compiled; the message says why.
    ParseError(String),
}

} // verus!
