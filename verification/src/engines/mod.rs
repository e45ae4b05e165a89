//! Storage engines.

mod sled_store;

pub use sled_store::SledStore;

use vstd::prelude::*;

verus! {

/// The storage interface: every engine keeps a map from keys to values,
/// which its operations read and change alike.
pub trait KvsEngine {
    /// The keys and values that the engine holds.
    spec fn contents(&self) -> Map<Seq<char>, Seq<char>>;

    /// Set the value for a key.
    fn set(&mut self, key: String, value: String) -> (r: crate::Result<()>)
        ensures
            r is Ok ==> final(self).contents() == old(self).contents().insert(key@, value@),
    ;

    /// Remove a given key; a key that is not there is
    /// [`crate::EngineError::KeyNotFound`], and changes nothing.
    fn remove(&mut self, key: String) -> (r: crate::Result<()>)
        ensures
            r is Ok ==> old(self).contents().contains_key(key@) && final(self).contents() == old(
                self,
            ).contents().remove(key@),
            r matches Err(crate::EngineError::KeyNotFound) ==> !old(self).contents().contains_key(key@)
                && final(self).contents() == old(self).contents(),
    ;

    /// Get the value for a key.
    fn get(&mut self, key: String) -> (r: crate::Result<Option<String>>)
        ensures
            final(self).contents() == old(self).contents(),
            r matches Ok(v) ==> match v {
                Some(v) => old(self).contents().contains_key(key@) && v@ == old(self).contents()[key@],
                None => !old(self).contents().contains_key(key@),
            },
    ;
}

/// The storage engines a server can run.
#[derive(Clone, Copy, Debug, PartialEq, Eq, Structural)]
pub enum Engine {
    /// The log-structured store of this crate.
    Kvs,
    /// The sled database.
    Sled,
}

/// Why a server refuses to start with the engine it was asked for.
#[derive(Clone, Copy, Debug, PartialEq, Eq, Structural)]
pub enum EngineMismatch {
    /// The data was written by the other engine.
    DifferentEngine,
}

/// The engine a server runs: the one asked for, which must be the one the
/// data was written with if that is recorded; else the recorded one; else
/// the log-structured store.
pub fn select_engine(requested: Option<Engine>, persisted: Option<Engine>) -> (r: core::result::Result<
    Engine,
    EngineMismatch,
>)
    ensures
        r == (match (requested, persisted) {
            (Some(e), Some(p)) => if e == p {
                Ok(e)
            } else {
                Err(EngineMismatch::DifferentEngine)
            },
            (Some(e), None) => Ok(e),
            (None, Some(p)) => Ok(p),
            (None, None) => Ok(Engine::Kvs),
        }),
{
    match requested {
        Some(e) => match persisted {
            Some(p) => if e == p {
                Ok(e)
            } else {
                Err(EngineMismatch::DifferentEngine)
            },
            None => Ok(e),
        },
        None => match persisted {
            Some(p) => Ok(p),
            None => Ok(Engine::Kvs),
        },
    }
}

} // verus!
