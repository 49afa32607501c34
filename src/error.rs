//! Errors reported by column and table operations.

use vstd::prelude::*;

verus! {

/// Errors related to data operations.
#[derive(Debug, Clone, Copy, PartialEq, Eq, Structural)]
pub enum DataError {
    /// A value could not be cast to the requested type.
    DataCastError,
    /// The state of the object was not valid for the operation.
    InvalidStateError,
}

impl DataError {
    /// The variant's name.
    pub fn name(&self) -> (r: &'static str)
        ensures
            r@ == (match self {
                DataError::DataCastError => "DataCastError"@,
                DataError::InvalidStateError => "InvalidStateError"@,
            }),
    {
        proof {
            reveal_strlit("DataCastError");
            reveal_strlit("InvalidStateError");
        }
        match self {
            DataError::DataCastError => "DataCastError",
            DataError::InvalidStateError => "InvalidStateError",
        }
    }

    /// A short human readable description of the error.
    pub fn description(&self) -> (r: &'static str)
        ensures
            r@ == (match self {
                DataError::DataCastError => "Failed to cast data."@,
                DataError::InvalidStateError => "Operation was not valid for state of object."@,
            }),
    {
        proof {
            reveal_strlit("Failed to cast data.");
            reveal_strlit("Operation was not valid for state of object.");
        }
        match self {
            DataError::DataCastError => "Failed to cast data.",
            DataError::InvalidStateError => "Operation was not valid for state of object.",
        }
    }
}

} // verus!
