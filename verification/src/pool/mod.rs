//! A pool is a place that chunks can be stored.

use vstd::prelude::*;
use crate::chunk::Chunk;
use crate::error::Error;
use crate::kind::Kind;
use crate::oid::Oid;

pub mod adump;
pub mod ident;
pub mod ram;

pub use adump::AdumpPool;
pub use ram::RamPool;

verus! {

/// What a pool holds under an object-id: a kind and a payload.
pub struct Held {
    pub kind: Kind,
    pub data: Seq<u8>,
}

/// Is the object-id one of the row?
pub open spec fn lists(row: Seq<Oid>, key: Seq<u8>) -> bool {
    exists|i: int| 0 <= i < row.len() && (#[trigger] row[i])@ == key
}

/// A source of chunks.  This is similar to a `Map`, except that the values
/// aren't kept in memory, so we have to return real items rather than
/// references to them.
///
/// A pool may fail for reasons of its own wherever it is asked something.
/// What is stated here is what holds where it does not fail.
pub trait ChunkSource {
    /// What the pool holds.
    spec fn holds(&self) -> Map<Seq<u8>, Held>;

    /// The identity of the pool.
    spec fn ident(&self) -> u128;

    /// Return a new chunk with the given key.
    fn find(&self, key: &Oid) -> (r: Result<Chunk, Error>)
        ensures
            r matches Ok(c) ==> {
                &&& self.holds().contains_key(key@)
                &&& c.wf()
                &&& c.spec_kind() == self.holds()[key@].kind
                &&& c.payload() == Some(self.holds()[key@].data)
            },
            r matches Err(Error::MissingChunk) ==> !self.holds().contains_key(key@),
    ;

    /// Is this key present in the store.
    fn contains_key(&self, key: &Oid) -> (r: Result<bool, Error>)
        ensures
            r matches Ok(b) ==> b == self.holds().contains_key(key@),
    ;

    /// Return the Uuid associated with this pool.
    fn uuid(&self) -> (id: u128)
        ensures
            id == self.ident(),
    ;

    /// Return the set of backups stored in this pool: the object-ids of the
    /// chunks of the kind "back".
    fn backups(&self) -> (r: Result<Vec<Oid>, Error>)
        ensures
            r matches Ok(row) ==> {
                &&& forall|i: int|
                    0 <= i < row@.len() ==> self.holds().contains_key((#[trigger] row@[i])@)
                        && self.holds()[row@[i]@].kind == Kind(adump::BACK)
                &&& forall|k: Seq<u8>|
                    #[trigger] self.holds().contains_key(k) && self.holds()[k].kind == Kind(
                        adump::BACK,
                    ) ==> lists(row@, k)
            },
    ;

    /// Begin allowing writing on this particular ChunkSource.
    fn begin_writing(&mut self) -> (r: Result<(), Error>)
        ensures
            final(self).holds() == old(self).holds(),
            final(self).ident() == old(self).ident(),
    ;

    /// Add a new chunk to this pool.  What the pool holds under the
    /// object-id of the chunk already is left as it is.
    fn add(&mut self, chunk: &mut Chunk) -> (r: Result<(), Error>)
        ensures
            final(chunk).wf(),
            final(chunk).same_chunk(*old(chunk)),
            final(self).ident() == old(self).ident(),
            r is Ok ==> old(chunk).payload() is Some && final(self).holds() == if old(
                self,
            ).holds().contains_key(old(chunk).spec_oid()@) {
                old(self).holds()
            } else {
                old(self).holds().insert(
                    old(chunk).spec_oid()@,
                    Held { kind: old(chunk).spec_kind(), data: old(chunk).payload()->0 },
                )
            },
            r is Err ==> final(self).holds() == old(self).holds(),
    ;

    /// Close the transaction: what was added is kept from now on.
    fn flush(&mut self) -> (r: Result<(), Error>)
        ensures
            final(self).holds() == old(self).holds(),
            final(self).ident() == old(self).ident(),
    ;
}

} // verus!
