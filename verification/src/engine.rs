//! The engine interface: the three store operations that both the
//! log-structured store and the ordered-tree adapter provide, with one
//! shared contract over a map from key bytes to value bytes.
use vstd::prelude::*;
use vstd::utf8::encode_utf8;
use crate::error::KvsError;

verus! {

/// An engine maps string keys to string values, durably. Its model is the
/// map from UTF-8 key bytes to UTF-8 value bytes; an engine may fail with
/// an error at any point (a disk can), so success is promised only where
/// the concrete engine's own contract says more.
pub trait KvsEngine: Sized {
    /// The engine's contents, as a map from key bytes to value bytes.
    spec fn kv(&self) -> Map<Seq<u8>, Seq<u8>>;

    /// The engine's well-formedness, preserved by every operation.
    spec fn wf(&self) -> bool;

    /// Binds `key` to `value`; on success the contents gained exactly that
    /// binding.
    fn set(&mut self, key: String, value: String) -> (r: Result<(), KvsError>)
        requires
            old(self).wf(),
        ensures
            final(self).wf(),
            r is Ok ==> final(self).kv() == old(self).kv().insert(
                encode_utf8(key@),
                encode_utf8(value@),
            ),
    ;

    /// Looks `key` up; the contents are unchanged, and an answer is
    /// faithful to them.
    fn get(&mut self, key: String) -> (r: Result<Option<String>, KvsError>)
        requires
            old(self).wf(),
        ensures
            final(self).wf(),
            final(self).kv() == old(self).kv(),
            match r {
                Result::Ok(Some(s)) => old(self).kv().contains_key(encode_utf8(key@))
                    && old(self).kv()[encode_utf8(key@)] == encode_utf8(s@),
                Result::Ok(None) => !old(self).kv().contains_key(encode_utf8(key@)),
                Result::Err(_) => true,
            },
    ;

    /// Unbinds `key`; success means it was bound and is gone, and
    /// `NotFound` means it was not bound and nothing changed.
    fn remove(&mut self, key: String) -> (r: Result<(), KvsError>)
        requires
            old(self).wf(),
        ensures
            final(self).wf(),
            match r {
                Result::Ok(()) => old(self).kv().contains_key(encode_utf8(key@))
                    && final(self).kv() == old(self).kv().remove(encode_utf8(key@)),
                Result::Err(e) => e == KvsError::NotFound ==> (!old(self).kv().contains_key(
                    encode_utf8(key@),
                ) && final(self).kv() == old(self).kv()),
            },
    ;
}

} // verus!
