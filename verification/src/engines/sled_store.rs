//! The storage engine backed by the sled database.

use vstd::prelude::*;
use vstd::utf8::{decode_utf8, encode_utf8, valid_utf8};
use crate::EngineError;
use crate::engines::KvsEngine;

verus! {

#[verifier::external_type_specification]
#[verifier::external_body]
pub struct ExSledDb(sled::Db);

/// The keys and values, as bytes, that the sled database `db` holds.
pub uninterp spec fn sled_contents(db: sled::Db) -> Map<Seq<u8>, Seq<u8>>;

/// The directory of the database `db`: the path it was opened at.
pub uninterp spec fn sled_path(db: sled::Db) -> Seq<char>;

/// Opens the database at `path` with `sled::open`. Claimed of sled: a
/// database that opens is the one at `path`. Whether it opens, and what it
/// holds, depend on what is on disk, and are not stated.
#[verifier::external_body]
fn sled_open(path: String) -> (r: core::result::Result<sled::Db, sled::Error>)
    ensures
        r matches Ok(db) ==> sled_path(db) == path@,
{
    sled::open(path.as_str())
}

/// Calls `sled::Tree::insert` (through `Db`'s `Deref`), with the value as
/// bytes, and drops the old value it returns. Claimed of sled: on success
/// the database maps `key` to `value` and is otherwise unchanged.
#[verifier::external_body]
fn sled_insert(db: &mut sled::Db, key: &[u8], value: &[u8]) -> (r: core::result::Result<(), sled::Error>)
    ensures
        r is Ok ==> sled_contents(*final(db)) == sled_contents(*old(db)).insert(key@, value@),
{
    db.insert(key, value).map(|_| ())
}

/// Calls `sled::Tree::get`, with the value it returns as bytes. Claimed of
/// sled: on success, the value that the database maps `key` to, if any.
#[verifier::external_body]
fn sled_get(db: &sled::Db, key: &[u8]) -> (r: core::result::Result<Option<Vec<u8>>, sled::Error>)
    ensures
        r matches Ok(v) ==> match v {
            Some(bytes) => sled_contents(*db).contains_key(key@) && bytes@ == sled_contents(*db)[key@],
            None => !sled_contents(*db).contains_key(key@),
        },
{
    db.get(key).map(|v| v.map(|ivec| ivec.to_vec()))
}

/// Calls `sled::Tree::remove`, with the old value it returns as bytes.
/// Claimed of sled: on success, the database no longer maps `key` and is
/// otherwise unchanged, and the old value is the one it mapped `key` to.
#[verifier::external_body]
fn sled_remove(db: &mut sled::Db, key: &[u8]) -> (r: core::result::Result<Option<Vec<u8>>, sled::Error>)
    ensures
        r matches Ok(v) ==> {
            &&& sled_contents(*final(db)) == sled_contents(*old(db)).remove(key@)
            &&& match v {
                Some(bytes) => sled_contents(*old(db)).contains_key(key@) && bytes@ == sled_contents(
                    *old(db),
                )[key@],
                None => !sled_contents(*old(db)).contains_key(key@),
            }
        },
{
    db.remove(key).map(|v| v.map(|ivec| ivec.to_vec()))
}

/// Calls `sled::Db::flush`, which writes the database's dirty data to disk
/// and leaves what it holds unchanged; the number of bytes flushed is
/// dropped. That the contents are then on disk is not stated: no spec
/// function here describes what is on disk.
#[verifier::external_body]
fn sled_flush(db: &sled::Db) -> (r: core::result::Result<(), sled::Error>) {
    db.flush().map(|_| ())
}

/// Calls `String::from_utf8`. Claimed of std: it succeeds exactly on valid
/// UTF-8, and the string's UTF-8 bytes are then the input.
#[verifier::external_body]
fn string_from_utf8(bytes: Vec<u8>) -> (r: core::result::Result<String, std::string::FromUtf8Error>)
    ensures
        r is Ok <==> valid_utf8(bytes@),
        r matches Ok(s) ==> encode_utf8(s@) == bytes@,
{
    String::from_utf8(bytes)
}

/// A storage engine backed by a sled database.
pub struct SledStore(sled::Db);

impl View for SledStore {
    type V = Map<Seq<u8>, Seq<u8>>;

    closed spec fn view(&self) -> Map<Seq<u8>, Seq<u8>> {
        sled_contents(self.0)
    }
}

impl SledStore {
    /// The directory of the database.
    pub closed spec fn path(self) -> Seq<char> {
        sled_path(self.0)
    }

    /// Opens the sled database at `path`.
    pub fn open(path: String) -> (r: crate::Result<Self>)
        ensures
            r matches Ok(s) ==> s.path() == path@,
            r matches Err(e) ==> e is Sled,
    {
        match sled_open(path) {
            Ok(db) => Ok(SledStore(db)),
            Err(e) => Err(EngineError::Sled(e)),
        }
    }
}

/// The strings that `db` maps, keys and values read as UTF-8.
pub open spec fn decoded(db: Map<Seq<u8>, Seq<u8>>) -> Map<Seq<char>, Seq<char>> {
    Map::new(
        |k: Seq<char>| db.contains_key(encode_utf8(k)),
        |k: Seq<char>| decode_utf8(db[encode_utf8(k)]),
    )
}

/// Mapping the UTF-8 bytes of a key to those of a value maps the key to the
/// value, read as strings.
proof fn lemma_decoded_insert(db: Map<Seq<u8>, Seq<u8>>, key: Seq<char>, value: Seq<char>)
    ensures
        decoded(db.insert(encode_utf8(key), encode_utf8(value))) == decoded(db).insert(key, value),
        decoded(db.remove(encode_utf8(key))) == decoded(db).remove(key),
{
    let a = decoded(db.insert(encode_utf8(key), encode_utf8(value)));
    let b = decoded(db).insert(key, value);
    assert forall|k: Seq<char>| #[trigger] a.contains_key(k) == b.contains_key(k) by {
        vstd::utf8::encode_utf8_decode_utf8(k);
        vstd::utf8::encode_utf8_decode_utf8(key);
    }
    assert forall|k: Seq<char>| a.contains_key(k) implies #[trigger] a[k] == b[k] by {
        vstd::utf8::encode_utf8_decode_utf8(k);
        vstd::utf8::encode_utf8_decode_utf8(key);
        vstd::utf8::encode_utf8_decode_utf8(value);
    }
    assert(a =~= b);
    let c = decoded(db.remove(encode_utf8(key)));
    let d = decoded(db).remove(key);
    assert forall|k: Seq<char>| #[trigger] c.contains_key(k) == d.contains_key(k) by {
        vstd::utf8::encode_utf8_decode_utf8(k);
        vstd::utf8::encode_utf8_decode_utf8(key);
    }
    assert(c =~= d);
}

impl KvsEngine for SledStore {
    /// The strings that the database maps.
    open spec fn contents(&self) -> Map<Seq<char>, Seq<char>> {
        decoded(self@)
    }

    /// Maps the key's UTF-8 bytes to the value's.
    fn set(&mut self, key: String, value: String) -> (r: crate::Result<()>)
        ensures
            match r {
                Ok(()) => final(self)@ == old(self)@.insert(encode_utf8(key@), encode_utf8(value@)),
                Err(e) => e is Sled,
            },
    {
        proof {
            lemma_decoded_insert(self@, key@, value@);
        }
        match sled_insert(&mut self.0, key.as_str().as_bytes(), value.as_str().as_bytes()) {
            Ok(()) => Ok(()),
            Err(e) => Err(EngineError::Sled(e)),
        }
    }

    /// Removes the key, then flushes the database to disk; a key that is
    /// not there is [`EngineError::KeyNotFound`].
    fn remove(&mut self, key: String) -> (r: crate::Result<()>)
        ensures
            match r {
                Ok(()) => old(self)@.contains_key(encode_utf8(key@)) && final(self)@ == old(self)@.remove(
                    encode_utf8(key@),
                ),
                Err(EngineError::KeyNotFound) => !old(self)@.contains_key(encode_utf8(key@)) && final(self)@
                    == old(self)@,
                Err(e) => e is Sled,
            },
    {
        proof {
            lemma_decoded_insert(self@, key@, key@);
        }
        match sled_remove(&mut self.0, key.as_str().as_bytes()) {
            Ok(Some(_)) => {},
            Ok(None) => {
                proof {
                    assert(sled_contents(self.0) =~= sled_contents(old(self).0));
                }
                return Err(EngineError::KeyNotFound);
            },
            Err(e) => return Err(EngineError::Sled(e)),
        }
        match sled_flush(&self.0) {
            Ok(()) => Ok(()),
            Err(e) => Err(EngineError::Sled(e)),
        }
    }

    /// The value of the key, if the key is there; a value that is not UTF-8
    /// is [`EngineError::Utf8`].
    fn get(&mut self, key: String) -> (r: crate::Result<Option<String>>)
        ensures
            final(self)@ == old(self)@,
            match r {
                Ok(None) => !old(self)@.contains_key(encode_utf8(key@)),
                Ok(Some(v)) => old(self)@.contains_key(encode_utf8(key@)) && encode_utf8(v@)
                    == old(self)@[encode_utf8(key@)],
                Err(EngineError::Utf8(_)) => old(self)@.contains_key(encode_utf8(key@)) && !valid_utf8(
                    old(self)@[encode_utf8(key@)],
                ),
                Err(e) => e is Sled,
            },
    {
        match sled_get(&self.0, key.as_str().as_bytes()) {
            Ok(Some(bytes)) => match string_from_utf8(bytes) {
                Ok(s) => {
                    proof {
                        vstd::utf8::encode_utf8_decode_utf8(s@);
                    }
                    Ok(Some(s))
                },
                Err(e) => Err(EngineError::Utf8(e)),
            },
            Ok(None) => Ok(None),
            Err(e) => Err(EngineError::Sled(e)),
        }
    }
}

/// What the sled engine stores is read back: after `set` maps the key to
/// the value's UTF-8 bytes, the string that `get` returns for the key, whose
/// UTF-8 bytes are those the database maps the key to, is the value.
pub proof fn lemma_sled_read_after_write(
    before: Map<Seq<u8>, Seq<u8>>,
    after: Map<Seq<u8>, Seq<u8>>,
    key: Seq<char>,
    value: Seq<char>,
    got: Seq<char>,
)
    requires
        after == before.insert(encode_utf8(key), encode_utf8(value)),
        after.contains_key(encode_utf8(key)),
        encode_utf8(got) == after[encode_utf8(key)],
    ensures
        got == value,
{
    vstd::utf8::encode_utf8_decode_utf8(got);
    vstd::utf8::encode_utf8_decode_utf8(value);
}

} // verus!
