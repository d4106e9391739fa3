//! The adapter from the engine interface to the `sled` ordered-tree
//! backend. The tree itself lives outside the library: its handle type is
//! declared opaque, its contents get a name, and each call the adapter
//! makes is wrapped in one trusted item whose contract states what the
//! call's own documentation promises. Everything around the calls — the
//! string conversions and the error rule for a missing key — is verified.
use vstd::prelude::*;
use vstd::utf8::encode_utf8;
use crate::engine::KvsEngine;
use crate::error::KvsError;
use crate::text::{bytes_to_string, str_to_bytes};

verus! {

/// The handle type of the `sled` tree, opaque to the library.
#[verifier::external_type_specification]
#[verifier::external_body]
pub struct ExDb(sled::Db);

/// What the tree behind a handle holds: a mapping from key bytes to value
/// bytes. It lives on disk, so only the wrapped calls below say anything
/// about it. The contracts treat each handle as owning its tree: verified
/// code cannot clone a handle, and the adapter must be given one that no
/// other live handle shares, as the server does.
pub uninterp spec fn db_kv(db: sled::Db) -> Map<Seq<u8>, Seq<u8>>;

/// The engine over a `sled` tree.
pub struct SledStore {
    db: sled::Db,
}

impl SledStore {
    /// Wraps an open handle to the tree.
    pub fn new(db: sled::Db) -> (s: SledStore)
        ensures
            s.wf(),
            s.kv() == db_kv(db),
    {
        SledStore { db }
    }

    /// Relies on `sled::Tree::insert`: binds the key to the value and
    /// returns the value it replaced, if any.
    #[verifier::external_body]
    fn db_insert(&mut self, key: &[u8], value: Vec<u8>) -> (r: Result<
        Option<Vec<u8>>,
        KvsError,
    >)
        ensures
            match r {
                Result::Ok(prev) => db_kv(final(self).db) == db_kv(old(self).db).insert(
                    key@,
                    value@,
                ) && match prev {
                    Some(p) => db_kv(old(self).db).contains_key(key@) && p@ == db_kv(
                        old(self).db,
                    )[key@],
                    None => !db_kv(old(self).db).contains_key(key@),
                },
                Result::Err(e) => e == KvsError::SledError,
            },
    {
        match self.db.insert(key, value) {
            Ok(Some(prev)) => Ok(Some(prev.to_vec())),
            Ok(None) => Ok(None),
            Err(_) => Err(KvsError::SledError),
        }
    }

    /// Relies on `sled::Tree::get`: the value bound to the key, if any;
    /// the tree is not changed.
    #[verifier::external_body]
    fn db_get(&self, key: &[u8]) -> (r: Result<Option<Vec<u8>>, KvsError>)
        ensures
            match r {
                Result::Ok(Some(v)) => db_kv(self.db).contains_key(key@) && v@ == db_kv(
                    self.db,
                )[key@],
                Result::Ok(None) => !db_kv(self.db).contains_key(key@),
                Result::Err(e) => e == KvsError::SledError,
            },
    {
        match self.db.get(key) {
            Ok(Some(v)) => Ok(Some(v.to_vec())),
            Ok(None) => Ok(None),
            Err(_) => Err(KvsError::SledError),
        }
    }

    /// Relies on `sled::Tree::remove`: unbinds the key and returns the
    /// value it had, if any.
    #[verifier::external_body]
    fn db_remove(&mut self, key: &[u8]) -> (r: Result<Option<Vec<u8>>, KvsError>)
        ensures
            match r {
                Result::Ok(Some(v)) => db_kv(old(self).db).contains_key(key@) && v@ == db_kv(
                    old(self).db,
                )[key@] && db_kv(final(self).db) == db_kv(old(self).db).remove(key@),
                Result::Ok(None) => !db_kv(old(self).db).contains_key(key@) && db_kv(
                    final(self).db,
                ) == db_kv(old(self).db),
                Result::Err(e) => e == KvsError::SledError,
            },
    {
        match self.db.remove(key) {
            Ok(Some(v)) => Ok(Some(v.to_vec())),
            Ok(None) => Ok(None),
            Err(_) => Err(KvsError::SledError),
        }
    }

    /// Relies on `sled::Tree::flush`: forces the dirty buffers to disk.
    /// It takes the tree by shared reference and does not change its
    /// contents.
    #[verifier::external_body]
    fn db_flush(&self) -> (r: Result<(), KvsError>)
        ensures
            match r {
                Result::Ok(u) => u == (),
                Result::Err(e) => e == KvsError::SledError,
            },
    {
        match self.db.flush() {
            Ok(_) => Ok(()),
            Err(_) => Err(KvsError::SledError),
        }
    }
}

impl KvsEngine for SledStore {
    closed spec fn kv(&self) -> Map<Seq<u8>, Seq<u8>> {
        db_kv(self.db)
    }

    open spec fn wf(&self) -> bool {
        true
    }

    fn set(&mut self, key: String, value: String) -> (r: Result<(), KvsError>) {
        let kb = str_to_bytes(key.as_str());
        let vb = str_to_bytes(value.as_str());
        match self.db_insert(kb.as_slice(), vb) {
            Ok(_) => {
                match self.db_flush() {
                    Ok(()) => Ok(()),
                    Err(e) => Err(e),
                }
            },
            Err(e) => Err(e),
        }
    }

    fn get(&mut self, key: String) -> (r: Result<Option<String>, KvsError>) {
        let kb = str_to_bytes(key.as_str());
        let got = self.db_get(kb.as_slice());
        match self.db_flush() {
            Ok(()) => {},
            Err(e) => {
                return Err(e);
            },
        }
        match got {
            Ok(Some(v)) => {
                match bytes_to_string(v) {
                    Some(s) => Ok(Some(s)),
                    None => Err(KvsError::FromUtf8Error),
                }
            },
            Ok(None) => Ok(None),
            Err(e) => Err(e),
        }
    }

    fn remove(&mut self, key: String) -> (r: Result<(), KvsError>) {
        let kb = str_to_bytes(key.as_str());
        let prev = match self.db_remove(kb.as_slice()) {
            Ok(p) => p,
            Err(e) => {
                return Err(e);
            },
        };
        match self.db_flush() {
            Ok(()) => {},
            Err(e) => {
                return Err(e);
            },
        }
        match prev {
            Some(_) => Ok(()),
            None => Err(KvsError::NotFound),
        }
    }
}

} // verus!
