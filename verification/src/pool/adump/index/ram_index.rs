//! A `RamIndex` is a purely memory-based index mapping hashes to IndexInfo.

use vstd::prelude::*;
use crate::kind::Kind;
use crate::oid::{lex_lt, views, Oid};
use super::{
    ascending, key_at, lemma_search_miss, lemma_table_map_empty, lemma_table_map_miss,
    lemma_table_map_row, search, table_map, Index, IndexInfo, IndexUpdate, IterItem,
};

verus! {

/// The index in memory: a table of object-ids in ascending order, and beside
/// each what is kept of its chunk.
#[derive(Debug)]
pub struct RamIndex {
    oids: Vec<Oid>,
    infos: Vec<IndexInfo>,
}

/// What putting a row into an ascending table does to its map.
pub proof fn lemma_insert_row(
    oids: Seq<Seq<u8>>,
    infos: Seq<IndexInfo>,
    at: int,
    key: Seq<u8>,
    info: IndexInfo,
)
    requires
        ascending(oids),
        oids.len() == infos.len(),
        0 <= at <= oids.len(),
        forall|j: int| 0 <= j < at ==> lex_lt(#[trigger] oids[j], key),
        forall|j: int| at <= j < oids.len() ==> lex_lt(key, #[trigger] oids[j]),
    ensures
        ascending(oids.insert(at, key)),
        table_map(oids.insert(at, key), infos.insert(at, info)) == table_map(oids, infos).insert(
            key,
            info,
        ),
{
    let oids2 = oids.insert(at, key);
    let infos2 = infos.insert(at, info);
    assert forall|i: int, j: int| 0 <= i < j < oids2.len() implies lex_lt(
        #[trigger] oids2[i],
        #[trigger] oids2[j],
    ) by {
        let a = if i < at { i } else { i - 1 };
        let b = if j < at { j } else { j - 1 };
        if i == at {
            assert(oids2[j] == oids[b]);
        } else if j == at {
            assert(oids2[i] == oids[a]);
        } else {
            assert(oids2[i] == oids[a]);
            assert(oids2[j] == oids[b]);
            assert(lex_lt(oids[a], oids[b]));
        }
    }
    let m = table_map(oids, infos).insert(key, info);
    let m2 = table_map(oids2, infos2);
    assert forall|k: Seq<u8>| m.contains_key(k) <==> m2.contains_key(k) by {
        if m.contains_key(k) {
            if k == key {
                assert(key_at(oids2, k, at));
            } else {
                let i = choose|i: int| key_at(oids, k, i);
                let i2 = if i < at { i } else { i + 1 };
                assert(key_at(oids2, k, i2));
            }
        }
        if m2.contains_key(k) {
            let i2 = choose|i: int| key_at(oids2, k, i);
            if i2 != at {
                let i = if i2 < at { i2 } else { i2 - 1 };
                assert(key_at(oids, k, i));
            }
        }
    }
    assert forall|k: Seq<u8>| m.contains_key(k) implies m[k] == m2[k] by {
        if k == key {
            lemma_table_map_row(oids2, infos2, at);
        } else {
            let i = choose|i: int| key_at(oids, k, i);
            let i2 = if i < at { i } else { i + 1 };
            assert(oids2[i2] == oids[i]);
            lemma_table_map_row(oids2, infos2, i2);
            lemma_table_map_row(oids, infos, i);
        }
    }
    assert(m =~= m2);
}

impl RamIndex {
    /// The object-ids of the index, in ascending order.
    pub closed spec fn oids(self) -> Seq<Seq<u8>> {
        views(self.oids@)
    }

    /// What is kept beside each object-id.
    pub closed spec fn infos(self) -> Seq<IndexInfo> {
        self.infos@
    }

    /// The table is in strictly ascending order, so that no object-id stands
    /// twice.
    #[verifier::type_invariant]
    pub closed spec fn wf(self) -> bool {
        self.oids@.len() == self.infos@.len() && ascending(views(self.oids@))
    }

    /// What the two columns say of the index.
    pub proof fn lemma_columns(self)
        requires
            self.wf(),
        ensures
            self.oids().len() == self.infos().len(),
            ascending(self.oids()),
            self.map() == table_map(self.oids(), self.infos()),
    {
    }

    pub fn new() -> (r: RamIndex)
        ensures
            r.wf(),
            r.map() == Map::<Seq<u8>, IndexInfo>::empty(),
            r.oids().len() == 0,
    {
        let r = RamIndex { oids: Vec::new(), infos: Vec::new() };
        proof {
            lemma_table_map_empty(views(r.oids@), r.infos@);
        }
        r
    }

    /// Put a chunk into the index.  The index must not know its object-id
    /// yet: to put one in twice is a mistake of the caller.
    pub fn insert(&mut self, id: Oid, offset: u32, kind: Kind)
        requires
            !old(self).map().contains_key(id@),
        ensures
            final(self).wf(),
            final(self).map() == old(self).map().insert(id@, IndexInfo { offset, kind }),
            final(self).oids().len() == old(self).oids().len() + 1,
    {
        proof {
            use_type_invariant(&*self);
        }
        let info = IndexInfo { offset: offset, kind: kind };
        let at = match search(&self.oids, 0, self.oids.len(), &id) {
            Ok(at) => {
                proof {
                    lemma_table_map_row(views(self.oids@), self.infos@, at as int);
                }
                at
            },
            Err(at) => at,
        };
        // Take the two columns out, change them, and put them back together.
        let mut taken = RamIndex { oids: Vec::new(), infos: Vec::new() };
        core::mem::swap(self, &mut taken);
        let RamIndex { mut oids, mut infos } = taken;
        proof {
            lemma_insert_row(views(oids@), infos@, at as int, id@, info);
            assert(views(oids@.insert(at as int, id)) =~= views(oids@).insert(at as int, id@));
        }
        oids.insert(at, id);
        infos.insert(at, info);
        *self = RamIndex { oids: oids, infos: infos };
    }

    /// Is nothing in the index?
    pub fn is_empty(&self) -> (b: bool)
        ensures
            b == (self.oids().len() == 0),
            b == (self.map() == Map::<Seq<u8>, IndexInfo>::empty()),
    {
        proof {
            use_type_invariant(self);
            if self.oids@.len() > 0 {
                lemma_table_map_row(views(self.oids@), self.infos@, 0);
            } else {
                lemma_table_map_empty(views(self.oids@), self.infos@);
            }
        }
        self.oids.len() == 0
    }

    /// How many chunks the index knows.
    pub fn len(&self) -> (n: usize)
        ensures
            n == self.oids().len(),
    {
        self.oids.len()
    }

    /// Walk the index in the order of the object-ids.
    pub fn iter(&self) -> (r: Iter<'_>)
        ensures
            r.index() == *self,
            r.position() == 0,
    {
        Iter { parent: self, pos: 0 }
    }
}

impl Index for RamIndex {
    closed spec fn map(&self) -> Map<Seq<u8>, IndexInfo> {
        table_map(views(self.oids@), self.infos@)
    }

    fn contains_key(&self, key: &Oid) -> (b: bool) {
        self.get(key).is_some()
    }

    fn get(&self, key: &Oid) -> (r: Option<IndexInfo>) {
        proof {
            use_type_invariant(self);
        }
        match search(&self.oids, 0, self.oids.len(), key) {
            Ok(at) => {
                proof {
                    lemma_table_map_row(views(self.oids@), self.infos@, at as int);
                }
                Some(self.infos[at])
            },
            Err(at) => {
                proof {
                    lemma_search_miss(views(self.oids@), 0, self.oids@.len() as int, at as int, key@);
                    lemma_table_map_miss(views(self.oids@), self.infos@, key@);
                }
                None
            },
        }
    }
}

impl IndexUpdate for RamIndex {
    fn insert(&mut self, key: Oid, offset: u32, kind: Kind) {
        RamIndex::insert(self, key, offset, kind)
    }
}

/// A walk through a `RamIndex`.
pub struct Iter<'a> {
    parent: &'a RamIndex,
    pos: usize,
}

impl<'a> Iter<'a> {
    /// The index that is walked.
    pub closed spec fn index(self) -> RamIndex {
        *self.parent
    }

    /// How many rows the walk has left behind.
    pub closed spec fn position(self) -> nat {
        self.pos as nat
    }

    /// The next row of the index, until there is none left.
    pub fn next(&mut self) -> (r: Option<IterItem<'a>>)
        ensures
            final(self).index() == old(self).index(),
            match r {
                Some(item) => {
                    let at = old(self).position() as int;
                    &&& at < old(self).index().oids().len()
                    &&& final(self).position() == at + 1
                    &&& item.oid@ == old(self).index().oids()[at]
                    &&& item.info() == old(self).index().infos()[at]
                },
                None => {
                    &&& old(self).position() >= old(self).index().oids().len()
                    &&& final(self).position() == old(self).position()
                },
            },
    {
        proof {
            use_type_invariant(self.parent);
        }
        if self.pos >= self.parent.oids.len() {
            None
        } else {
            let pos = self.pos;
            self.pos = pos + 1;
            let info = self.parent.infos[pos];
            Some(IterItem { oid: &self.parent.oids[pos], kind: info.kind, offset: info.offset })
        }
    }
}

} // verus!
