//! The ways in which an operation of the store can fail.

use vstd::prelude::*;

verus! {

/// Why an operation on a chain of deltas was refused.
#[derive(Debug, Clone, Copy, PartialEq, Eq, Structural)]
pub enum StoreError {
    /// A delta was to be added to a chain that holds no record.
    EmptyChain,
    /// The requested id names no record of the chain.
    UnknownVersion,
    /// The rebuilt bytes are not valid UTF-8.
    InvalidTextEncoding,
    /// The block size or the snapshot interval is zero.
    InvalidConfiguration,
}

impl StoreError {
    /// A short description of the error, for messages.
    pub fn message(&self) -> (text: &'static str)
        ensures
            text@ == Self::message_of(*self)@,
    {
        match self {
            StoreError::EmptyChain => "the chain holds no record",
            StoreError::UnknownVersion => "no record has the requested id",
            StoreError::InvalidTextEncoding => "the stored bytes are not valid UTF-8",
            StoreError::InvalidConfiguration => "block size and snapshot interval must be positive",
        }
    }

    /// The text that `message` returns for each error.
    pub open spec fn message_of(e: StoreError) -> &'static str {
        match e {
            StoreError::EmptyChain => "the chain holds no record",
            StoreError::UnknownVersion => "no record has the requested id",
            StoreError::InvalidTextEncoding => "the stored bytes are not valid UTF-8",
            StoreError::InvalidConfiguration => "block size and snapshot interval must be positive",
        }
    }
}

} // verus!
