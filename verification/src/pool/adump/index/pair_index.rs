//! A PairIndex combines a FileIndex with a RamIndex to allow in-memory
//! updates to file data, that can then be written out.

use vstd::prelude::*;
use crate::error::Error;
use crate::kind::Kind;
use crate::oid::Oid;
use super::file_index::FileIndex;
use super::format::{
    distinct_oids, fault_is, image_for, image_infos, image_map, image_of, index_bytes,
    item_infos, item_map, item_oids, lemma_map_in_any_order, load_fault,
};
use super::ram_index::RamIndex;
use super::{
    ascending, key_at, lemma_ascending_distinct, lemma_table_map_len, lemma_table_map_row,
    table_map, Index, IndexInfo, IndexUpdate, IterItem,
};

verus! {

/// A PairIndex combines a possibly loaded index with a ram index allowing
/// for update.  The whole pair can then be written to a new index file,
/// and loaded later.
#[derive(Debug)]
pub struct PairIndex {
    file: FileIndex,
    ram: RamIndex,
}

impl PairIndex {
    /// The index that was loaded.
    pub closed spec fn file(self) -> FileIndex {
        self.file
    }

    /// What has been put in since.
    pub closed spec fn ram(self) -> RamIndex {
        self.ram
    }

    /// Both halves are well formed, and no object-id stands in both.
    #[verifier::type_invariant]
    pub closed spec fn wf(self) -> bool {
        &&& self.file.wf()
        &&& self.ram.wf()
        &&& forall|k: Seq<u8>| !(self.file.map().contains_key(k) && #[trigger] self.ram.map().contains_key(k))
    }

    /// How many entries the pair has.
    pub open spec fn count(self) -> nat {
        self.file().image().oids.len() + self.ram().oids().len()
    }

    /// Has anything been put in since the index was loaded?
    pub open spec fn dirty(self) -> bool {
        self.ram().map() != Map::<Seq<u8>, IndexInfo>::empty()
    }

    /// The pair has one entry for each object-id that it knows.
    pub proof fn lemma_count(self)
        requires
            self.wf(),
        ensures
            self.map().dom().finite(),
            self.map().dom().len() == self.count(),
    {
        self.file.lemma_image();
        self.ram.lemma_columns();
        let img = self.file.image();
        lemma_table_map_len(img.oids, image_infos(img));
        lemma_table_map_len(self.ram.oids(), self.ram.infos());
        let a = self.file.map().dom();
        let b = self.ram.map().dom();
        assert(a.disjoint(b));
        vstd::set_lib::lemma_set_disjoint_lens(a, b);
        assert(self.map().dom() =~= a + b);
    }

    /// Read the index out of the bytes of an index file, for a pool file of
    /// `size` bytes.  Nothing has been put in since.
    pub fn load(bytes: &[u8], size: u32) -> (r: Result<PairIndex, Error>)
        ensures
            match r {
                Ok(pair) => {
                    &&& pair.wf()
                    &&& load_fault(bytes@, size) is None
                    &&& pair.file().image() == image_of(bytes@)
                    &&& pair.map() == image_map(image_of(bytes@))
                    &&& pair.ram().map() == Map::<Seq<u8>, IndexInfo>::empty()
                },
                Err(e) => load_fault(bytes@, size) matches Some(f) && fault_is(e, f),
            },
    {
        match FileIndex::load(bytes, size) {
            Ok(file) => {
                let ram = RamIndex::new();
                proof {
                    file.lemma_image();
                    assert(file.map().union_prefer_right(ram.map()) =~= file.map());
                }
                Ok(PairIndex { file: file, ram: ram })
            },
            Err(e) => Err(e),
        }
    }

    /// A pair that knows no chunk: nothing was loaded, and nothing has been
    /// put in.
    pub fn empty() -> (r: PairIndex)
        ensures
            r.wf(),
            r.map() == Map::<Seq<u8>, IndexInfo>::empty(),
            r.file().map() == Map::<Seq<u8>, IndexInfo>::empty(),
            r.ram().map() == Map::<Seq<u8>, IndexInfo>::empty(),
            r.count() == 0,
            !r.dirty(),
    {
        let file = FileIndex::empty();
        let ram = RamIndex::new();
        proof {
            assert(file.map().union_prefer_right(ram.map()) =~= Map::<Seq<u8>, IndexInfo>::empty());
        }
        PairIndex { file: file, ram: ram }
    }

    /// Has anything been put in since the index was loaded?
    pub fn is_dirty(&self) -> (b: bool)
        ensures
            b == self.dirty(),
    {
        !self.ram.is_empty()
    }

    /// The entries of the pair: those of the loaded index, in the order of
    /// their object-ids, and behind them those that were put in since, in the
    /// order of theirs.
    pub fn items(&self) -> (r: Vec<IterItem<'_>>)
        ensures
            item_oids(r@) == self.file().image().oids + self.ram().oids(),
            item_infos(r@) == image_infos(self.file().image()) + self.ram().infos(),
            distinct_oids(r@),
            item_map(r@) == self.map(),
    {
        proof {
            use_type_invariant(self);
            use_type_invariant(&self.file);
            use_type_invariant(&self.ram);
            self.file.lemma_image();
            self.ram.lemma_columns();
        }
        let ghost img = self.file.image();
        let ghost f_oids = img.oids;
        let ghost f_infos = image_infos(img);
        let ghost r_oids = self.ram.oids();
        let ghost r_infos = self.ram.infos();
        let mut out: Vec<IterItem<'_>> = Vec::new();
        let mut walk = self.file.iter();
        loop
            invariant
                walk.index() == self.file,
                img == self.file.image(),
                f_oids == img.oids,
                f_infos == image_infos(img),
                walk.position() <= f_oids.len(),
                out@.len() == walk.position(),
                item_oids(out@) == f_oids.take(walk.position() as int),
                item_infos(out@) == f_infos.take(walk.position() as int),
            ensures
                item_oids(out@) == f_oids,
                item_infos(out@) == f_infos,
            decreases f_oids.len() - walk.position(),
        {
            let ghost before = out@;
            match walk.next() {
                Some(item) => {
                    out.push(item);
                    proof {
                        let at = before.len() as int;
                        assert(item_oids(out@) =~= f_oids.take(at + 1));
                        assert(item_infos(out@) =~= f_infos.take(at + 1));
                    }
                },
                None => {
                    proof {
                        assert(f_oids.take(f_oids.len() as int) =~= f_oids);
                        assert(f_infos.take(f_oids.len() as int) =~= f_infos);
                    }
                    break;
                },
            }
        }
        let ghost first = out@;
        let mut walk = self.ram.iter();
        loop
            invariant
                walk.index() == self.ram,
                r_oids == self.ram.oids(),
                r_infos == self.ram.infos(),
                r_oids.len() == r_infos.len(),
                walk.position() <= r_oids.len(),
                out@.len() == first.len() + walk.position(),
                item_oids(first) == f_oids,
                item_infos(first) == f_infos,
                item_oids(out@) == f_oids + r_oids.take(walk.position() as int),
                item_infos(out@) == f_infos + r_infos.take(walk.position() as int),
            ensures
                item_oids(out@) == f_oids + r_oids,
                item_infos(out@) == f_infos + r_infos,
            decreases r_oids.len() - walk.position(),
        {
            let ghost before = out@;
            let ghost at = walk.position() as int;
            match walk.next() {
                Some(item) => {
                    out.push(item);
                    proof {
                        assert(out@ == before.push(item));
                        assert(item_oids(first).len() == first.len());
                        assert(item_infos(first).len() == first.len());
                        assert(item_oids(out@) =~= item_oids(before).push(item.oid@));
                        assert(item_infos(out@) =~= item_infos(before).push(item.info()));
                        assert(item_oids(out@) =~= f_oids + r_oids.take(at + 1));
                        assert(item_infos(out@) =~= f_infos + r_infos.take(at + 1));
                    }
                },
                None => {
                    proof {
                        assert(r_oids.take(r_oids.len() as int) =~= r_oids);
                        assert(r_infos.take(r_oids.len() as int) =~= r_infos);
                    }
                    break;
                },
            }
        }
        proof {
            lemma_two_tables(f_oids, f_infos, r_oids, r_infos);
            let all = item_oids(out@);
            assert forall|i: int, j: int|
                0 <= i < out@.len() && 0 <= j < out@.len() && i != j implies (#[trigger] out@[i]).oid@ != (
            #[trigger] out@[j]).oid@ by {
                assert(all[i] == out@[i].oid@ && all[j] == out@[j].oid@);
            }
        }
        out
    }

    /// Write the index file of the pair, for a pool file of `size` bytes.
    /// Where the kinds are well formed and no more than 256, what is written
    /// is read back as an index of the same map.
    pub fn save(&self, size: u32) -> (r: Result<Vec<u8>, Error>)
        ensures
            match r {
                Ok(bytes) => {
                    &&& self.count() <= u32::MAX
                    &&& exists|sorted: Seq<IterItem<'_>>|
                        {
                            &&& item_map(sorted) == self.map()
                            &&& ascending(item_oids(sorted))
                            &&& sorted.len() <= u32::MAX
                            &&& bytes@ == #[trigger] index_bytes(size, image_for(sorted))
                        }
                },
                Err(e) => e is InvalidIndex && self.count() > u32::MAX,
            },
    {
        let nodes = self.items();
        let ghost given = nodes@;
        assert(given.len() == item_oids(given).len());
        match FileIndex::save(size, nodes) {
            Ok(bytes) => {
                proof {
                    let sorted = choose|sorted: Seq<IterItem<'_>>|
                        {
                            &&& sorted.to_multiset() == given.to_multiset()
                            &&& ascending(item_oids(sorted))
                            &&& bytes@ == #[trigger] index_bytes(size, image_for(sorted))
                        };
                    lemma_map_in_any_order(given, sorted);
                    sorted.to_multiset_ensures();
                    given.to_multiset_ensures();
                    assert(sorted.len() == sorted.to_multiset().len());
                    assert(given.len() == given.to_multiset().len());
                }
                Ok(bytes)
            },
            Err(e) => Err(e),
        }
    }
}

/// Two ascending tables that share no object-id, one behind the other: no
/// object-id stands twice, and the map is that of the first with that of the
/// second laid over it.
pub proof fn lemma_two_tables(
    a_oids: Seq<Seq<u8>>,
    a_infos: Seq<IndexInfo>,
    b_oids: Seq<Seq<u8>>,
    b_infos: Seq<IndexInfo>,
)
    requires
        ascending(a_oids),
        ascending(b_oids),
        a_oids.len() == a_infos.len(),
        b_oids.len() == b_infos.len(),
        forall|k: Seq<u8>|
            !(table_map(a_oids, a_infos).contains_key(k) && #[trigger] table_map(
                b_oids,
                b_infos,
            ).contains_key(k)),
    ensures
        forall|i: int, j: int|
            0 <= i < (a_oids + b_oids).len() && 0 <= j < (a_oids + b_oids).len() && i != j ==> (
            #[trigger] (a_oids + b_oids)[i]) != (#[trigger] (a_oids + b_oids)[j]),
        table_map(a_oids + b_oids, a_infos + b_infos) == table_map(a_oids, a_infos).union_prefer_right(
            table_map(b_oids, b_infos),
        ),
{
    let all = a_oids + b_oids;
    let infos = a_infos + b_infos;
    let ma = table_map(a_oids, a_infos);
    let mb = table_map(b_oids, b_infos);
    let na = a_oids.len() as int;
    assert forall|i: int, j: int| 0 <= i < all.len() && 0 <= j < all.len() && i != j implies (
    #[trigger] all[i]) != (#[trigger] all[j]) by {
        if all[i] == all[j] {
            if i < na && j < na {
                lemma_ascending_distinct(a_oids, i, j);
            } else if i >= na && j >= na {
                lemma_ascending_distinct(b_oids, i - na, j - na);
            } else {
                let (x, y) = if i < na { (i, j - na) } else { (j, i - na) };
                lemma_table_map_row(a_oids, a_infos, x);
                lemma_table_map_row(b_oids, b_infos, y);
                assert(mb.contains_key(b_oids[y]));
            }
        }
    }
    let m = table_map(all, infos);
    let u = ma.union_prefer_right(mb);
    assert forall|k: Seq<u8>| #[trigger] m.dom().contains(k) implies u.dom().contains(k) && m[k] == u[k] by {
        let i = choose|i: int| key_at(all, k, i);
        if i < na {
            assert(key_at(a_oids, k, i));
            lemma_table_map_row(a_oids, a_infos, i);
            assert(ma.contains_key(k));
            if mb.contains_key(k) {
                assert(false);
            }
        } else {
            assert(key_at(b_oids, k, i - na));
            lemma_table_map_row(b_oids, b_infos, i - na);
        }
    }
    assert forall|k: Seq<u8>| #[trigger] u.dom().contains(k) implies m.dom().contains(k) by {
        if mb.contains_key(k) {
            let j = choose|j: int| key_at(b_oids, k, j);
            assert(key_at(all, k, na + j));
        } else {
            let i = choose|i: int| key_at(a_oids, k, i);
            assert(key_at(all, k, i));
        }
    }
    assert(m =~= u);
}

impl Index for PairIndex {
    closed spec fn map(&self) -> Map<Seq<u8>, IndexInfo> {
        self.file.map().union_prefer_right(self.ram.map())
    }

    fn contains_key(&self, key: &Oid) -> (b: bool) {
        self.ram.contains_key(key) || self.file.contains_key(key)
    }

    fn get(&self, key: &Oid) -> (r: Option<IndexInfo>) {
        match self.ram.get(key) {
            Some(info) => Some(info),
            None => self.file.get(key),
        }
    }
}

impl IndexUpdate for PairIndex {
    /// What is put in goes to the half in memory; what was loaded stays as it
    /// is.  The pair is dirty from then on.
    fn insert(&mut self, key: Oid, offset: u32, kind: Kind)
        ensures
            final(self).wf(),
            final(self).file() == old(self).file(),
            final(self).ram().map() == old(self).ram().map().insert(key@, IndexInfo { offset, kind }),
            final(self).count() == old(self).count() + 1,
            final(self).dirty(),
    {
        proof {
            use_type_invariant(&*self);
        }
        let mut taken = PairIndex::empty();
        core::mem::swap(self, &mut taken);
        let PairIndex { file, mut ram } = taken;
        ram.insert(key, offset, kind);
        proof {
            assert(file.map().union_prefer_right(ram.map()) =~= old(self).map().insert(
                key@,
                IndexInfo { offset, kind },
            ));
            assert(ram.map().contains_key(key@));
        }
        *self = PairIndex { file: file, ram: ram };
    }
}

} // verus!
