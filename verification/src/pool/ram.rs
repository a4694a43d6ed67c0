//! RAM pools.

use vstd::prelude::*;
use vstd::slice::slice_to_vec;
use crate::chunk::{Chunk, MAX_PAYLOAD};
use crate::error::Error;
use crate::kind::Kind;
use crate::oid::Oid;
use crate::pool::adump::index::{ascending, key_at, lemma_table_map_row, table_map, Index, RamIndex};
use crate::pool::adump::BACK;
use crate::pool::ident::uuid_random;
use crate::pool::{lists, ChunkSource, Held};

verus! {

/// A chunk as the pool keeps it.
#[derive(Debug)]
pub struct Stashed {
    kind: Kind,
    data: Vec<u8>,
}

impl Stashed {
    /// The kind of the chunk.
    pub closed spec fn spec_kind(self) -> Kind {
        self.kind
    }

    /// The payload of the chunk.
    pub closed spec fn spec_data(self) -> Seq<u8> {
        self.data@
    }

    /// No payload is kept that is longer than a chunk may hold.
    #[verifier::type_invariant]
    pub closed spec fn wf(self) -> bool {
        self.data@.len() <= MAX_PAYLOAD
    }

    /// Keep the payload of a chunk of this kind.
    pub fn new(kind: Kind, data: Vec<u8>) -> (r: Stashed)
        requires
            data@.len() <= MAX_PAYLOAD,
        ensures
            r.spec_kind() == kind,
            r.spec_data() == data@,
    {
        Stashed { kind: kind, data: data }
    }

    /// The chunk again.
    pub fn to_chunk(&self) -> (c: Chunk)
        ensures
            c.wf(),
            c.genuine(),
            c.spec_kind() == self.spec_kind(),
            c.payload() == Some(self.spec_data()),
    {
        proof {
            use_type_invariant(self);
        }
        Chunk::new_plain(self.kind, slice_to_vec(self.data.as_slice()))
    }
}

/// A pool that keeps its chunks in memory.
#[derive(Debug)]
pub struct RamPool {
    uuid: u128,
    // Where each chunk stands in `chunks`.
    index: RamIndex,
    chunks: Vec<Stashed>,
}

impl RamPool {
    /// Each object-id leads to a chunk that is kept, and to one of its kind.
    #[verifier::type_invariant]
    pub closed spec fn wf(self) -> bool {
        &&& self.chunks@.len() <= u32::MAX
        &&& forall|k: Seq<u8>| #[trigger]
            self.index.map().contains_key(k) ==> self.index.map()[k].offset < self.chunks@.len()
                && self.chunks@[self.index.map()[k].offset as int].spec_kind()
                == self.index.map()[k].kind
    }

    /// Can the pool take no chunk more?  It keeps count of its chunks in 32
    /// bits.
    pub closed spec fn full(self) -> bool {
        self.chunks@.len() >= u32::MAX
    }

    /// A pool with the identity `uuid`, that holds nothing yet.
    pub fn with_uuid(uuid: u128) -> (r: RamPool)
        ensures
            r.ident() == uuid,
            r.holds() == Map::<Seq<u8>, Held>::empty(),
            !r.full(),
    {
        let r = RamPool { uuid: uuid, index: RamIndex::new(), chunks: Vec::new() };
        assert(r.holds() =~= Map::<Seq<u8>, Held>::empty());
        r
    }

    /// A pool with an identity of its own, drawn at random.
    pub fn new() -> (r: RamPool)
        ensures
            r.holds() == Map::<Seq<u8>, Held>::empty(),
            !r.full(),
    {
        RamPool::with_uuid(uuid_random())
    }
}

impl ChunkSource for RamPool {
    closed spec fn holds(&self) -> Map<Seq<u8>, Held> {
        Map::new(
            |k: Seq<u8>| self.index.map().contains_key(k),
            |k: Seq<u8>|
                Held {
                    kind: self.index.map()[k].kind,
                    data: self.chunks@[self.index.map()[k].offset as int].spec_data(),
                },
        )
    }

    closed spec fn ident(&self) -> u128 {
        self.uuid
    }

    fn find(&self, key: &Oid) -> (r: Result<Chunk, Error>)
        ensures
            r is Ok <==> self.holds().contains_key(key@),
            r matches Err(e) ==> e is MissingChunk,
    {
        proof {
            use_type_invariant(self);
        }
        match self.index.get(key) {
            Some(info) => Ok(self.chunks[info.offset as usize].to_chunk()),
            None => Err(Error::MissingChunk),
        }
    }

    fn contains_key(&self, key: &Oid) -> (r: Result<bool, Error>)
        ensures
            r is Ok,
    {
        Ok(self.index.contains_key(key))
    }

    fn uuid(&self) -> (id: u128) {
        self.uuid
    }

    fn backups(&self) -> (r: Result<Vec<Oid>, Error>)
        ensures
            r is Ok,
    {
        proof {
            use_type_invariant(self);
            use_type_invariant(&self.index);
            self.index.lemma_columns();
        }
        let ghost oids = self.index.oids();
        let ghost infos = self.index.infos();
        let mut result: Vec<Oid> = Vec::new();
        let mut walk = self.index.iter();
        loop
            invariant
                walk.index() == self.index,
                oids == self.index.oids(),
                infos == self.index.infos(),
                oids.len() == infos.len(),
                ascending(oids),
                self.index.map() == table_map(oids, infos),
                walk.position() <= oids.len(),
                forall|j: int|
                    0 <= j < result@.len() ==> self.index.map().contains_key((#[trigger] result@[j])@)
                        && self.index.map()[result@[j]@].kind == Kind(BACK),
                forall|a: int|
                    0 <= a < walk.position() && infos[a].kind == Kind(BACK) ==> lists(
                        result@,
                        #[trigger] oids[a],
                    ),
            ensures
                forall|j: int|
                    0 <= j < result@.len() ==> self.index.map().contains_key((#[trigger] result@[j])@)
                        && self.index.map()[result@[j]@].kind == Kind(BACK),
                forall|a: int| 0 <= a < oids.len() && infos[a].kind == Kind(BACK) ==> lists(
                    result@,
                    #[trigger] oids[a],
                ),
            decreases oids.len() - walk.position(),
        {
            let ghost at = walk.position() as int;
            match walk.next() {
                Some(item) => {
                    proof {
                        lemma_table_map_row(oids, infos, at);
                    }
                    if item.kind.0 == BACK {
                        let ghost was = result@;
                        result.push(*item.oid);
                        proof {
                            assert(result@[was.len() as int]@ == oids[at]);
                            assert forall|a: int|
                                0 <= a < at + 1 && infos[a].kind == Kind(BACK) implies lists(
                                result@,
                                #[trigger] oids[a],
                            ) by {
                                if a < at {
                                    let j = choose|j: int| 0 <= j < was.len() && (#[trigger] was[j])@ == oids[a];
                                    assert(result@[j] == was[j]);
                                }
                            }
                        }
                    }
                },
                None => {
                    break;
                },
            }
        }
        proof {
            assert forall|k: Seq<u8>|
                #[trigger] self.holds().contains_key(k) && self.holds()[k].kind == Kind(
                    BACK,
                ) implies lists(result@, k) by {
                let a = choose|a: int| key_at(oids, k, a);
                lemma_table_map_row(oids, infos, a);
            }
        }
        Ok(result)
    }

    fn begin_writing(&mut self) -> (r: Result<(), Error>)
        ensures
            r is Ok,
    {
        Ok(())
    }

    /// Add a chunk to the pool.  A chunk without a payload is corrupt, and so
    /// is one whose payload is longer than a chunk may hold.  A pool that is
    /// full takes no chunk that it does not hold yet.
    fn add(&mut self, chunk: &mut Chunk) -> (r: Result<(), Error>)
        ensures
            r matches Err(Error::CorruptChunk(_)) <==> !(old(chunk).payload() matches Some(d)
                && d.len() <= MAX_PAYLOAD),
            r matches Err(Error::CorruptPool(_)) <==> (old(chunk).payload() matches Some(d)
                && d.len() <= MAX_PAYLOAD) && old(self).full() && !old(self).holds().contains_key(
                old(chunk).spec_oid()@,
            ),
            r matches Err(e) ==> e is CorruptChunk || e is CorruptPool,
    {
        proof {
            use_type_invariant(&*self);
        }
        let id = *chunk.oid();
        let kind = chunk.kind();
        let data = match chunk.data() {
            Ok(d) => {
                if d.len() > MAX_PAYLOAD {
                    return Err(Error::CorruptChunk("Payload too long".to_owned()));
                }
                slice_to_vec(d.as_slice())
            },
            Err(e) => {
                return Err(e);
            },
        };
        if self.index.contains_key(&id) {
            return Ok(());
        }
        let ghost before = *self;
        let mut taken = RamPool::with_uuid(0);
        core::mem::swap(self, &mut taken);
        let RamPool { uuid, mut index, mut chunks } = taken;
        let slot = chunks.len();
        if slot >= u32::MAX as usize {
            *self = RamPool { uuid: uuid, index: index, chunks: chunks };
            return Err(Error::CorruptPool("Pool is full".to_owned()));
        }
        chunks.push(Stashed::new(kind, data));
        RamIndex::insert(&mut index, id, slot as u32, kind);
        proof {
            assert forall|k: Seq<u8>| #[trigger] index.map().contains_key(k) implies index.map()[k].offset
                < chunks@.len() && chunks@[index.map()[k].offset as int].spec_kind()
                == index.map()[k].kind by {
                if k != id@ {
                    assert(before.index.map().contains_key(k));
                }
            }
        }
        *self = RamPool { uuid: uuid, index: index, chunks: chunks };
        proof {
            assert(self.holds() =~= before.holds().insert(
                id@,
                Held { kind: kind, data: data@ },
            )) by {
                assert forall|k: Seq<u8>| before.holds().contains_key(k) implies self.holds()[k]
                    == before.holds()[k] by {
                    assert(before.index.map().contains_key(k));
                }
            }
        }
        Ok(())
    }

    fn flush(&mut self) -> (r: Result<(), Error>)
        ensures
            r is Ok,
    {
        Ok(())
    }
}

} // verus!
