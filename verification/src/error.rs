//! The errors of the log-structured store.

use vstd::prelude::*;

verus! {

#[verifier::external_type_specification]
#[verifier::external_body]
pub struct ExIoError(std::io::Error);

/// What can go wrong in the log-structured store.
#[derive(Debug)]
pub enum KvsError {
    /// Reading or writing a log file failed.
    Io(std::io::Error),
    /// A log record could not be written or read.
    Serde(postcard::Error),
    /// The key to remove is not in the store.
    KeyNotFound,
    /// The index pointed at a record that does not set a value: a corrupted
    /// log or a bug.
    UnexpectedCommandType,
}

} // verus!
