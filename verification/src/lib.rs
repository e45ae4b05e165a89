//! A log-structured key/value store.
//!
//! The store keeps every write in append-only log files and an in-memory
//! index from each key to the place of its latest record. This crate holds
//! the verified part of the store: the record format, the index with its
//! recovery, compaction and rotation rules, the naming of log files, the
//! storage engines' interface with the sled engine, and the protocol types.
//! Reading and writing the files is done by the caller.

pub mod engines;
pub mod error;
mod format;
pub mod kv;
pub mod log_files;
pub mod proto;
pub mod record;

pub use error::KvsError;
pub use kv::KvIndex;

use vstd::prelude::*;

verus! {

#[verifier::external_type_specification]
#[verifier::external_body]
pub struct ExFromUtf8Error(std::string::FromUtf8Error);

#[verifier::external_type_specification]
#[verifier::external_body]
pub struct ExSledError(sled::Error);

/// What can go wrong in a storage engine or in the server.
#[derive(Debug)]
pub enum EngineError {
    /// IO error.
    Io(std::io::Error),
    /// Serialization or deserialization error.
    Serde(postcard::Error),
    /// Removing non-existent key error.
    KeyNotFound,
    /// Unexpected command type error: a corrupted log or a program bug.
    UnexpectedCommandType,
    /// The engine recorded in the metadata is not one this program knows.
    MalformedMetadata(String),
    /// A key or value is not valid UTF-8.
    Utf8(std::string::FromUtf8Error),
    /// An error of the sled engine.
    Sled(sled::Error),
    /// An error that the server answered with.
    Server(String),
}

/// The result of a storage engine's operation.
pub type Result<T> = std::result::Result<T, EngineError>;

} // verus!
