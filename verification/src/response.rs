//! The responses of the text protocol.

use vstd::prelude::*;

verus! {

/// A response.
#[derive(Debug, Clone, PartialEq, Eq)]
pub enum Response {
    Stored,
    NotStored,
    Exists,
    NotFound,
    Value { key: Vec<u8>, flags: u32, bytes: usize, payload: Vec<u8> },
    End,
    ServerError(String),
    ClientError(String),
    Deleted,
}

} // verus!
