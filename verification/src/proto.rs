//! The messages that the client and the server exchange.

use vstd::prelude::*;

verus! {

/// A request to the server.
#[derive(Debug, PartialEq, Eq)]
pub enum Request {
    /// Set the value of a key.
    Put { key: String, value: String },
    /// Remove a key.
    Rm { key: String },
    /// Get the value of a key.
    Get { key: String },
}

/// The server's answer to a request of the same kind.
#[derive(Debug, PartialEq, Eq)]
pub enum Response {
    Put(Result<()>),
    Rm(Result<()>),
    Get(Result<Option<String>>),
}

/// An outcome, with the error as the message the server sends.
#[derive(Debug, PartialEq, Eq)]
pub struct Result<T>(pub core::result::Result<T, String>);

} // verus!
