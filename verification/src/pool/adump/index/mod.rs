//! The hash index.
//!
//! Each backup file contains one or more chunks, which are identified by
//! their sha1 hash.  To allow us to find chunks, we manage an index of
//! every chunk within the file.  This index is written to a separate file,
//! and loaded into memory.  The file being written can also have additions
//! made to its index in memory that are later written out.
//!
//! The types exposed here are the `Index` and `IndexUpdate` trait which
//! are types that can be searched and updated respectively.  The
//! `PairIndex` combines an index loaded from a file with an index in ram.

use vstd::prelude::*;
use crate::kind::Kind;
use crate::oid::{lex_lt, lemma_lex_irreflexive, lemma_lex_transitive, views, Oid, Side};

pub mod file_index;
pub mod format;
pub mod pair_index;
pub mod ram_index;

pub use file_index::FileIndex;
pub use pair_index::PairIndex;
pub use ram_index::RamIndex;

verus! {

/// Where a chunk lies in its pool file, and of what kind it is.
#[derive(Debug, Clone, Copy, PartialEq, Eq)]
pub struct IndexInfo {
    pub offset: u32,
    pub kind: Kind,
}

/// All of the indices can be iterated, producing an IterItem.
#[derive(Debug, Clone, Copy)]
pub struct IterItem<'a> {
    pub oid: &'a Oid,
    pub kind: Kind,
    pub offset: u32,
}

impl<'a> IterItem<'a> {
    /// What the index keeps of the chunk.
    pub open spec fn info(self) -> IndexInfo {
        IndexInfo { offset: self.offset, kind: self.kind }
    }
}

pub trait Index {
    /// What the index holds: for each object-id that it knows, where the
    /// chunk lies and of what kind it is.
    spec fn map(&self) -> Map<Seq<u8>, IndexInfo>;

    fn contains_key(&self, key: &Oid) -> (b: bool)
        ensures
            b == self.map().contains_key(key@),
    ;

    fn get(&self, key: &Oid) -> (r: Option<IndexInfo>)
        ensures
            r == if self.map().contains_key(key@) {
                Some(self.map()[key@])
            } else {
                None
            },
    ;
}

pub trait IndexUpdate: Index {
    /// Like a map insert, but the key must not be present yet.
    fn insert(&mut self, key: Oid, offset: u32, kind: Kind)
        requires
            !old(self).map().contains_key(key@),
        ensures
            final(self).map() == old(self).map().insert(key@, IndexInfo { offset, kind }),
    ;
}

/// Object-ids in strictly ascending order.
pub open spec fn ascending(oids: Seq<Seq<u8>>) -> bool {
    forall|i: int, j: int| 0 <= i < j < oids.len() ==> lex_lt(#[trigger] oids[i], #[trigger] oids[j])
}

/// Is `key` at position `i` of the table?
pub open spec fn key_at(oids: Seq<Seq<u8>>, key: Seq<u8>, i: int) -> bool {
    0 <= i < oids.len() && oids[i] == key
}

/// The map that two columns of one length make: the object-ids, and what is
/// kept of each.
pub open spec fn table_map(oids: Seq<Seq<u8>>, infos: Seq<IndexInfo>) -> Map<Seq<u8>, IndexInfo> {
    Map::new(
        |k: Seq<u8>| exists|i: int| key_at(oids, k, i),
        |k: Seq<u8>| infos[choose|i: int| key_at(oids, k, i)],
    )
}

/// In an ascending table each object-id stands once.
pub proof fn lemma_ascending_distinct(oids: Seq<Seq<u8>>, i: int, j: int)
    requires
        ascending(oids),
        0 <= i < oids.len(),
        0 <= j < oids.len(),
        oids[i] == oids[j],
    ensures
        i == j,
{
    lemma_lex_irreflexive(oids[i]);
    if i < j {
        assert(lex_lt(oids[i], oids[j]));
    } else if j < i {
        assert(lex_lt(oids[j], oids[i]));
    }
}

/// The map of an ascending table holds each row of the table.
pub proof fn lemma_table_map_row(oids: Seq<Seq<u8>>, infos: Seq<IndexInfo>, i: int)
    requires
        ascending(oids),
        0 <= i < oids.len(),
    ensures
        table_map(oids, infos).contains_key(oids[i]),
        table_map(oids, infos)[oids[i]] == infos[i],
{
    let k = oids[i];
    assert(key_at(oids, k, i));
    let c = choose|c: int| key_at(oids, k, c);
    lemma_ascending_distinct(oids, i, c);
}

/// The map of a table holds nothing that is not in the table.
pub proof fn lemma_table_map_miss(oids: Seq<Seq<u8>>, infos: Seq<IndexInfo>, key: Seq<u8>)
    requires
        forall|j: int| 0 <= j < oids.len() ==> oids[j] != key,
    ensures
        !table_map(oids, infos).contains_key(key),
{
    if table_map(oids, infos).contains_key(key) {
        let i = choose|i: int| key_at(oids, key, i);
        assert(key_at(oids, key, i));
    }
}

/// The map of an ascending table holds as many object-ids as the table has
/// rows.
pub proof fn lemma_table_map_len(oids: Seq<Seq<u8>>, infos: Seq<IndexInfo>)
    requires
        ascending(oids),
    ensures
        table_map(oids, infos).dom().finite(),
        table_map(oids, infos).dom().len() == oids.len(),
{
    assert forall|i: int, j: int| 0 <= i < oids.len() && 0 <= j < oids.len() && i != j implies oids[i]
        != oids[j] by {
        if oids[i] == oids[j] {
            lemma_ascending_distinct(oids, i, j);
        }
    }
    oids.unique_seq_to_set();
    vstd::seq_lib::seq_to_set_is_finite(oids);
    assert forall|k: Seq<u8>| table_map(oids, infos).dom().contains(k) == oids.to_set().contains(k) by {
        if oids.to_set().contains(k) {
            let i = choose|i: int| 0 <= i < oids.len() && oids[i] == k;
            assert(key_at(oids, k, i));
        }
        if table_map(oids, infos).dom().contains(k) {
            let i = choose|i: int| key_at(oids, k, i);
            assert(oids[i] == k);
        }
    }
    assert(table_map(oids, infos).dom() =~= oids.to_set());
}

/// The map of an empty table is empty.
pub proof fn lemma_table_map_empty(oids: Seq<Seq<u8>>, infos: Seq<IndexInfo>)
    requires
        oids.len() == 0,
    ensures
        table_map(oids, infos) == Map::<Seq<u8>, IndexInfo>::empty(),
{
    assert forall|k: Seq<u8>| !table_map(oids, infos).contains_key(k) by {
        lemma_table_map_miss(oids, infos, k);
    }
    assert(table_map(oids, infos) =~= Map::<Seq<u8>, IndexInfo>::empty());
}

/// Look for `key` among the object-ids from `low` up to `high`.  Either it
/// is found, or the place is, where it would have to stand.
pub fn search(oids: &Vec<Oid>, low: usize, high: usize, key: &Oid) -> (r: Result<usize, usize>)
    requires
        low <= high <= oids@.len(),
        ascending(views(oids@)),
    ensures
        match r {
            Ok(i) => low <= i < high && views(oids@)[i as int] == key@,
            Err(i) => {
                &&& low <= i <= high
                &&& forall|j: int| low <= j < i ==> lex_lt(#[trigger] views(oids@)[j], key@)
                &&& forall|j: int| i <= j < high ==> lex_lt(key@, #[trigger] views(oids@)[j])
            },
        },
{
    let ghost rows = views(oids@);
    let mut lo: usize = low;
    let mut hi: usize = high;
    while lo < hi
        invariant
            low <= lo <= hi <= high <= oids@.len(),
            rows == views(oids@),
            ascending(rows),
            forall|j: int| low <= j < lo ==> lex_lt(#[trigger] rows[j], key@),
            forall|j: int| hi <= j < high ==> lex_lt(key@, #[trigger] rows[j]),
        decreases hi - lo,
    {
        let mid = lo + (hi - lo) / 2;
        assert(rows[mid as int] == oids@[mid as int]@);
        match oids[mid].side(key) {
            Side::Same => {
                return Ok(mid);
            },
            Side::Before => {
                assert forall|j: int| low <= j < mid + 1 implies lex_lt(#[trigger] rows[j], key@) by {
                    if lo <= j < mid {
                        assert(lex_lt(rows[j], rows[mid as int]));
                        lemma_lex_transitive(rows[j], rows[mid as int], key@);
                    }
                }
                lo = mid + 1;
            },
            Side::After => {
                assert forall|j: int| mid <= j < high implies lex_lt(key@, #[trigger] rows[j]) by {
                    if mid < j < hi {
                        assert(lex_lt(rows[mid as int], rows[j]));
                        lemma_lex_transitive(key@, rows[mid as int], rows[j]);
                    }
                }
                hi = mid;
            },
        }
    }
    Err(lo)
}

/// What a fruitless search shows: the key is nowhere between `low` and `high`.
pub proof fn lemma_search_miss(oids: Seq<Seq<u8>>, low: int, high: int, at: int, key: Seq<u8>)
    requires
        low <= at <= high,
        forall|j: int| low <= j < at ==> lex_lt(#[trigger] oids[j], key),
        forall|j: int| at <= j < high ==> lex_lt(key, #[trigger] oids[j]),
    ensures
        forall|j: int| low <= j < high ==> oids[j] != key,
{
    lemma_lex_irreflexive(key);
    assert forall|j: int| low <= j < high implies oids[j] != key by {
        if j < at {
            assert(lex_lt(oids[j], key));
        } else {
            assert(lex_lt(key, oids[j]));
        }
    }
}

} // verus!
