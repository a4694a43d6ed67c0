//! A FileIndex is a file-based mapping of hashes to IndexInfo.

use std::collections::BTreeMap;
use vstd::prelude::*;
use vstd::slice::slice_to_vec;
use crate::cursor::{u32_at, Cursor};
use crate::endian::{
    lemma_le_value_of_bytes, lemma_u32_table_empty, lemma_u32_table_push, put_bytes, put_u32,
    u32_table,
};
use crate::error::Error;
use crate::kind::Kind;
use crate::oid::{lex_lt, views, Oid, Side};
use crate::ordered::{note, noted};
use crate::text::lemma_ascii_is_utf8;
use super::format::{
    Image, LoadFault, count_upto, distinct_oids, entry_count, fault_is, image_for, image_infos,
    image_map, image_of, image_wf, index_bytes, index_magic, item_kinds, item_oids, kind_count,
    kind_fault_from, kind_names_at, kind_raws, kind_table, lemma_count_is_prefix,
    lemma_count_is_the_cut, lemma_distinct_in_any_order, lemma_first_bytes_rise,
    lemma_kind_place, lemma_kind_table, lemma_neighbours_ascend, lemma_oid_table_empty,
    lemma_oid_table_push, lemma_twice_in_row, load_fault, offsets_at, oid_table,
};
use super::{
    ascending, key_at, lemma_search_miss, lemma_table_map_empty, lemma_table_map_miss,
    lemma_table_map_row, search, Index, IndexInfo, IterItem,
};

verus! {

/// The table of counts by first byte, for ascending object-ids.
pub fn compute_top(oids: &Vec<Oid>) -> (top: Vec<u32>)
    requires
        ascending(views(oids@)),
        oids@.len() <= u32::MAX,
    ensures
        top@.len() == 256,
        forall|b: int| 0 <= b < 256 ==> #[trigger] top@[b] == count_upto(views(oids@), b),
{
    let ghost rows = views(oids@);
    let mut top: Vec<u32> = Vec::with_capacity(256);
    let mut pos: usize = 0;
    let mut first: usize = 0;
    while first < 256
        invariant
            first <= 256,
            pos <= oids@.len() <= u32::MAX,
            rows == views(oids@),
            ascending(rows),
            top@.len() == first,
            forall|b: int| 0 <= b < first ==> #[trigger] top@[b] == count_upto(rows, b),
            forall|i: int| 0 <= i < pos ==> (#[trigger] rows[i])[0] < first,
        decreases 256 - first,
    {
        // Scan until we hit a value that is too large.
        while pos < oids.len() && oids[pos].0[0] as usize <= first
            invariant
                first < 256,
                pos <= oids@.len(),
                rows == views(oids@),
                forall|i: int| 0 <= i < pos ==> (#[trigger] rows[i])[0] <= first,
            decreases oids@.len() - pos,
        {
            assert(rows[pos as int] == oids@[pos as int]@);
            pos += 1;
        }
        proof {
            assert forall|i: int| pos <= i < rows.len() implies (#[trigger] rows[i])[0] > first by {
                assert(rows[pos as int] == oids@[pos as int]@);
                lemma_first_bytes_rise(rows, pos as int, i);
            }
            lemma_count_is_the_cut(rows, first as int, pos as int);
        }
        top.push(pos as u32);
        first += 1;
    }
    top
}

/// Are these the eight bytes that an index file begins with?
fn is_index_magic(s: &[u8]) -> (b: bool)
    requires
        s@.len() == 8,
    ensures
        b == (s@ == index_magic()),
{
    let b = s[0] == 0x6c && s[1] == 0x64 && s[2] == 0x75 && s[3] == 0x6d && s[4] == 0x70 && s[5]
        == 0x69 && s[6] == 0x64 && s[7] == 0x78;
    proof {
        if b {
            assert(s@ =~= index_magic());
        }
    }
    b
}

/// Put the entries in the order of their object-ids.
///
/// `slice::sort_by_key` with the bytes of the object-id for the key: the
/// entries are the same as before, and stand in the order of their keys.
/// Arrays of bytes are ordered byte by byte, the first difference deciding.
#[verifier::external_body]
fn sort_by_oid<'a>(nodes: &mut Vec<IterItem<'a>>)
    ensures
        final(nodes)@.to_multiset() == old(nodes)@.to_multiset(),
        forall|i: int, j: int|
            0 <= i < j < final(nodes)@.len() ==> !lex_lt(
                (#[trigger] final(nodes)@[j]).oid@,
                (#[trigger] final(nodes)@[i]).oid@,
            ),
{
    nodes.sort_by_key(|n| n.oid.0);
}

/// The object-ids of the entries, if each comes before the next; else the
/// place of one that does not come after the one before it.
fn ascending_oids<'a>(nodes: &Vec<IterItem<'a>>) -> (r: Result<Vec<Oid>, usize>)
    ensures
        match r {
            Ok(oids) => views(oids@) == item_oids(nodes@) && ascending(item_oids(nodes@)),
            Err(at) => 0 < at < nodes@.len() && !lex_lt(
                nodes@[at - 1].oid@,
                nodes@[at as int].oid@,
            ),
        },
{
    let ghost rows = item_oids(nodes@);
    let count = nodes.len();
    let mut oids: Vec<Oid> = Vec::with_capacity(count);
    let mut i: usize = 0;
    while i < count
        invariant
            i <= count == nodes@.len(),
            rows == item_oids(nodes@),
            oids@.len() == i,
            views(oids@) == rows.take(i as int),
            forall|k: int| 0 < k < i ==> lex_lt(#[trigger] rows[k - 1], rows[k]),
        decreases count - i,
    {
        if i > 0 {
            match nodes[i - 1].oid.side(nodes[i].oid) {
                Side::Before => {},
                _ => {
                    return Err(i);
                },
            }
        }
        oids.push(*nodes[i].oid);
        i += 1;
        assert(views(oids@) =~= rows.take(i as int));
    }
    proof {
        assert(rows.take(count as int) =~= rows);
        lemma_neighbours_ascend(rows);
    }
    Ok(oids)
}

/// Write the eight bytes that an index file begins with.
fn emit_magic(out: &mut Vec<u8>)
    ensures
        final(out)@ == old(out)@ + index_magic(),
{
    out.push(0x6c);
    out.push(0x64);
    out.push(0x75);
    out.push(0x6d);
    out.push(0x70);
    out.push(0x69);
    out.push(0x64);
    out.push(0x78);
    assert(out@ =~= old(out)@ + index_magic());
}

/// Write a row of numbers.
fn emit_u32s(out: &mut Vec<u8>, xs: &Vec<u32>)
    ensures
        final(out)@ == old(out)@ + u32_table(xs@),
{
    let ghost base = out@;
    let mut i: usize = 0;
    proof {
        lemma_u32_table_empty();
        assert(xs@.take(0) =~= Seq::<u32>::empty());
        assert(out@ =~= base + u32_table(xs@.take(0)));
    }
    while i < xs.len()
        invariant
            i <= xs@.len(),
            out@ == base + u32_table(xs@.take(i as int)),
        decreases xs@.len() - i,
    {
        proof {
            lemma_u32_table_push(xs@.take(i as int), xs@[i as int]);
            assert(xs@.take(i as int).push(xs@[i as int]) =~= xs@.take(i + 1));
        }
        put_u32(out, xs[i]);
        i += 1;
        assert(out@ =~= base + u32_table(xs@.take(i as int)));
    }
    assert(xs@.take(xs@.len() as int) =~= xs@);
}

/// Write the object-ids of the entries.
fn emit_oids<'a>(out: &mut Vec<u8>, nodes: &Vec<IterItem<'a>>)
    ensures
        final(out)@ == old(out)@ + oid_table(item_oids(nodes@)),
{
    let ghost base = out@;
    let ghost rows = item_oids(nodes@);
    let mut i: usize = 0;
    proof {
        lemma_oid_table_empty();
        assert(rows.take(0) =~= Seq::<Seq<u8>>::empty());
        assert(out@ =~= base + oid_table(rows.take(0)));
    }
    while i < nodes.len()
        invariant
            i <= nodes@.len(),
            rows == item_oids(nodes@),
            out@ == base + oid_table(rows.take(i as int)),
        decreases nodes@.len() - i,
    {
        proof {
            lemma_oid_table_push(rows.take(i as int), rows[i as int]);
            assert(rows.take(i as int).push(rows[i as int]) =~= rows.take(i + 1));
        }
        put_bytes(out, nodes[i].oid.0.as_slice());
        i += 1;
        assert(out@ =~= base + oid_table(rows.take(i as int)));
    }
    assert(rows.take(nodes@.len() as int) =~= rows);
}

/// Write the offsets of the entries.
fn emit_offsets<'a>(out: &mut Vec<u8>, nodes: &Vec<IterItem<'a>>)
    ensures
        final(out)@ == old(out)@ + u32_table(image_for(nodes@).offsets),
{
    let ghost base = out@;
    let ghost col = image_for(nodes@).offsets;
    let mut i: usize = 0;
    proof {
        lemma_u32_table_empty();
        assert(col.take(0) =~= Seq::<u32>::empty());
        assert(out@ =~= base + u32_table(col.take(0)));
    }
    while i < nodes.len()
        invariant
            i <= nodes@.len(),
            col == image_for(nodes@).offsets,
            out@ == base + u32_table(col.take(i as int)),
        decreases nodes@.len() - i,
    {
        proof {
            lemma_u32_table_push(col.take(i as int), col[i as int]);
            assert(col.take(i as int).push(col[i as int]) =~= col.take(i + 1));
        }
        put_u32(out, nodes[i].offset);
        i += 1;
        assert(out@ =~= base + u32_table(col.take(i as int)));
    }
    assert(col.take(nodes@.len() as int) =~= col);
}

/// Write the names of the kind table.
fn emit_kind_names(out: &mut Vec<u8>, kinds: &Vec<Kind>)
    ensures
        final(out)@ == old(out)@ + u32_table(kind_raws(kinds@)),
{
    let ghost base = out@;
    let ghost col = kind_raws(kinds@);
    let mut i: usize = 0;
    proof {
        lemma_u32_table_empty();
        assert(col.take(0) =~= Seq::<u32>::empty());
        assert(out@ =~= base + u32_table(col.take(0)));
    }
    while i < kinds.len()
        invariant
            i <= kinds@.len(),
            col == kind_raws(kinds@),
            out@ == base + u32_table(col.take(i as int)),
        decreases kinds@.len() - i,
    {
        proof {
            lemma_u32_table_push(col.take(i as int), col[i as int]);
            assert(col.take(i as int).push(col[i as int]) =~= col.take(i + 1));
        }
        put_u32(out, kinds[i].0);
        i += 1;
        assert(out@ =~= base + u32_table(col.take(i as int)));
    }
    assert(col.take(kinds@.len() as int) =~= col);
}

/// The kind table of the entries, and for each entry the lowest byte of the
/// place of its kind in the table.
fn kind_columns<'a>(nodes: &Vec<IterItem<'a>>) -> (r: (Vec<Kind>, Vec<u8>))
    ensures
        r.0@ == kind_table(item_kinds(nodes@)),
        kind_raws(r.0@) == image_for(nodes@).kind_names,
        r.1@ == image_for(nodes@).kinds,
{
    let ghost col = item_kinds(nodes@);
    let ghost img = image_for(nodes@);
    let count = nodes.len();
    let mut kinds: Vec<Kind> = Vec::new();
    let mut kind_map: BTreeMap<u32, usize> = BTreeMap::new();
    let mut places: Vec<u8> = Vec::with_capacity(count);
    let mut i: usize = 0;
    assert(col.take(0) =~= Seq::<Kind>::empty());
    while i < count
        invariant
            i <= count == nodes@.len(),
            col == item_kinds(nodes@),
            img == image_for(nodes@),
            kinds@ == kind_table(col.take(i as int)),
            forall|k: u32| #[trigger] kind_map@.contains_key(k) <==> kinds@.contains(Kind(k)),
            forall|k: u32| #[trigger]
                kind_map@.contains_key(k) ==> kind_map@[k] < kinds@.len() && kinds@[kind_map@[k] as int]
                    == Kind(k),
            places@.len() == i,
            forall|k: int| 0 <= k < i ==> #[trigger] places@[k] == img.kinds[k],
        decreases count - i,
    {
        let kind = nodes[i].kind;
        let ghost table = kinds@;
        proof {
            assert(col.take(i + 1).drop_last() =~= col.take(i as int));
            assert(col.take(i + 1).last() == kind);
            lemma_kind_table(col.take(i + 1));
            assert(kind == Kind(kind.0));
        }
        let place = match noted(&kind_map, kind.0) {
            Some(p) => p,
            None => {
                note(&mut kind_map, kind.0, kinds.len());
                kinds.push(kind);
                proof {
                    assert(kinds@[table.len() as int] == kind);
                    assert forall|k: u32| #[trigger] kind_map@.contains_key(k) <==> kinds@.contains(
                        Kind(k),
                    ) by {
                        if table.contains(Kind(k)) {
                            let j = choose|j: int| 0 <= j < table.len() && table[j] == Kind(k);
                            assert(kinds@[j] == Kind(k));
                        }
                        if kinds@.contains(Kind(k)) && k != kind.0 {
                            let j = choose|j: int| 0 <= j < kinds@.len() && kinds@[j] == Kind(k);
                            assert(table[j] == Kind(k));
                        }
                    }
                    assert forall|k: u32| #[trigger] kind_map@.contains_key(k) implies kind_map@[k]
                        < kinds@.len() && kinds@[kind_map@[k] as int] == Kind(k) by {
                        if k != kind.0 {
                            assert(kinds@[kind_map@[k] as int] == table[kind_map@[k] as int]);
                        }
                    }
                }
                kinds.len() - 1
            },
        };
        proof {
            lemma_kind_place(col, i as int, place as int);
        }
        places.push((place % 256) as u8);
        i += 1;
    }
    proof {
        assert(col.take(count as int) =~= col);
        assert(places@ =~= img.kinds);
        assert(kind_raws(kinds@) =~= img.kind_names);
    }
    (kinds, places)
}

#[derive(Debug)]
pub struct FileIndex {
    top: Vec<u32>,
    offsets: Vec<u32>,
    oids: Vec<Oid>,
    kind_names: Vec<Kind>,
    kinds: Vec<u8>,
}

impl FileIndex {
    /// The columns of the index.
    pub closed spec fn image(self) -> Image {
        Image {
            top: self.top@,
            oids: views(self.oids@),
            offsets: self.offsets@,
            kind_names: kind_raws(self.kind_names@),
            kinds: self.kinds@,
        }
    }

    #[verifier::type_invariant]
    pub closed spec fn wf(self) -> bool {
        image_wf(self.image())
    }

    /// What holds of every index: its object-ids ascend, its table of counts
    /// counts them by their first byte, and its map is that of its columns.
    pub proof fn lemma_image(self)
        requires
            self.wf(),
        ensures
            image_wf(self.image()),
            self.map() == image_map(self.image()),
    {
    }

    /// Each entry of the index is found under its object-id, with what the
    /// index keeps of it.
    pub proof fn lemma_lookup_hit(self, i: int)
        requires
            self.wf(),
            0 <= i < self.image().oids.len(),
        ensures
            self.map().contains_key(self.image().oids[i]),
            self.map()[self.image().oids[i]] == image_infos(self.image())[i],
    {
        lemma_table_map_row(self.image().oids, image_infos(self.image()), i);
    }

    /// Nothing is found under an object-id that is none of the index.
    pub proof fn lemma_lookup_miss(self, key: Seq<u8>)
        requires
            self.wf(),
            forall|i: int| 0 <= i < self.image().oids.len() ==> self.image().oids[i] != key,
        ensures
            !self.map().contains_key(key),
    {
        lemma_table_map_miss(self.image().oids, image_infos(self.image()), key);
    }

    /// The object-ids of an index ascend, and its table of counts tells for
    /// each byte how many of them begin with that byte or a lower one.
    pub proof fn lemma_ordering(self)
        requires
            self.wf(),
        ensures
            ascending(self.image().oids),
            self.image().top.len() == 256,
            forall|b: int| 0 <= b < 256 ==> #[trigger] self.image().top[b] == count_upto(self.image().oids, b),
    {
    }

    /// Read an index out of the bytes of an index file.  `size` is the size of
    /// the pool file that the index is to be for: an index that was written
    /// for another size is refused.
    #[verifier::loop_isolation(false)]
    pub fn load(bytes: &[u8], size: u32) -> (r: Result<FileIndex, Error>)
        ensures
            match r {
                Ok(idx) => load_fault(bytes@, size) is None && idx.wf() && idx.image() == image_of(
                    bytes@,
                ),
                Err(e) => load_fault(bytes@, size) matches Some(f) && fault_is(e, f),
            },
    {
        let ghost all = bytes@;
        let ghost n = entry_count(all);
        let ghost kc = kind_count(all);
        let mut rd = Cursor::new(bytes);

        let magic = rd.read_exact(8)?;
        if !is_index_magic(magic) {
            return Err(Error::InvalidIndex("bad magic".to_owned()));
        }
        let version = rd.read_u32()?;
        if version != 4 {
            return Err(Error::InvalidIndex("Version mismatch".to_owned()));
        }
        let file_size = rd.read_u32()?;
        if file_size != size {
            return Err(Error::InvalidIndex("Index size mismatch".to_owned()));
        }

        let mut top: Vec<u32> = Vec::with_capacity(256);
        let mut b: usize = 0;
        while b < 256
            invariant
                b <= 256,
                rd.wf(),
                rd.bytes() == all,
                rd.position() == 16 + 4 * b,
                top@.len() == b,
                forall|j: int| 0 <= j < b ==> #[trigger] top@[j] == u32_at(all, 16 + 4 * j),
                all.len() >= 16,
                n >= 0,
            decreases 256 - b,
        {
            match rd.read_u32() {
                Ok(x) => {
                    top.push(x);
                },
                Err(e) => {
                    return Err(e);
                },
            }
            b += 1;
        }
        let count = top[255] as usize;
        assert(count == n);

        let mut oids: Vec<Oid> = Vec::new();
        let mut i: usize = 0;
        while i < count
            invariant
                i <= count == n,
                rd.wf(),
                rd.bytes() == all,
                rd.position() == 1040 + 20 * i,
                oids@.len() == i,
                forall|j: int|
                    0 <= j < i ==> (#[trigger] oids@[j])@ == all.subrange(1040 + 20 * j, 1060 + 20 * j),
            decreases count - i,
        {
            match rd.read_exact(20) {
                Ok(raw) => {
                    oids.push(Oid::from_raw(raw));
                },
                Err(e) => {
                    return Err(e);
                },
            }
            i += 1;
        }

        let mut offsets: Vec<u32> = Vec::new();
        let mut i: usize = 0;
        while i < count
            invariant
                i <= count == n,
                rd.wf(),
                rd.bytes() == all,
                rd.position() == offsets_at(n) + 4 * i,
                offsets@.len() == i,
                forall|j: int| 0 <= j < i ==> #[trigger] offsets@[j] == u32_at(all, offsets_at(n) + 4 * j),
            decreases count - i,
        {
            match rd.read_u32() {
                Ok(x) => {
                    offsets.push(x);
                },
                Err(e) => {
                    return Err(e);
                },
            }
            i += 1;
        }

        let kind_count = rd.read_u32()? as usize;
        assert(kind_count == kc);
        let mut kind_names: Vec<Kind> = Vec::new();
        let mut j: usize = 0;
        while j < kind_count
            invariant
                j <= kind_count == kc,
                rd.wf(),
                rd.bytes() == all,
                rd.position() == kind_names_at(n) + 4 * j,
                kind_names@.len() == j,
                forall|k: int|
                    0 <= k < j ==> (#[trigger] kind_names@[k]).0 == u32_at(all, kind_names_at(n) + 4 * k)
                        && kind_names@[k].wf(),
                kind_fault_from(all, kind_names_at(n), kc as nat) == kind_fault_from(
                    all,
                    kind_names_at(n) + 4 * j,
                    (kc - j) as nat,
                ),
            decreases kind_count - j,
        {
            let raw = match rd.read_exact(4) {
                Ok(raw) => raw,
                Err(e) => {
                    return Err(e);
                },
            };
            match Kind::from_bytes(raw) {
                Ok(kind) => {
                    proof {
                        lemma_le_value_of_bytes(kind.0);
                        lemma_ascii_is_utf8(raw@);
                        let at = kind_names_at(n) + 4 * j;
                        assert(raw@ == all.subrange(at, at + 4));
                        assert(kind_fault_from(all, at, (kc - j) as nat) == kind_fault_from(
                            all,
                            at + 4,
                            (kc - j - 1) as nat,
                        ));
                    }
                    kind_names.push(kind);
                },
                Err(e) => {
                    return Err(e);
                },
            }
            j += 1;
        }

        let kinds: Vec<u8> = match rd.read_exact(count) {
            Ok(raw) => slice_to_vec(raw),
            Err(e) => {
                return Err(e);
            },
        };

        let ghost img = Image {
            top: top@,
            oids: views(oids@),
            offsets: offsets@,
            kind_names: kind_raws(kind_names@),
            kinds: kinds@,
        };
        assert(img =~= image_of(all));

        // The columns are read.  Do they fit together?
        let mut i: usize = 1;
        while i < count
            invariant
                1 <= i,
                count == oids@.len(),
                forall|k: int| 0 < k < i && k < count ==> lex_lt(#[trigger] views(oids@)[k - 1], views(oids@)[k]),
                img.oids == views(oids@),
                img == image_of(all),
                load_fault(all, size) is None || load_fault(all, size) == Some(LoadFault::Inconsistent),
                load_fault(all, size) is None <==> image_wf(img),
            decreases count - i,
        {
            match oids[i - 1].side(&oids[i]) {
                Side::Before => {},
                _ => {
                    proof {
                        if image_wf(img) {
                            assert(lex_lt(img.oids[i - 1], img.oids[i as int]));
                        }
                    }
                    return Err(Error::InvalidIndex("Index out of order".to_owned()));
                },
            }
            i += 1;
        }
        proof {
            lemma_neighbours_ascend(views(oids@));
        }
        let mut i: usize = 0;
        while i < count
            invariant
                i <= count == kinds@.len(),
                forall|k: int| 0 <= k < i ==> (#[trigger] kinds@[k]) < kind_names@.len(),
                img.kinds == kinds@,
                img.kind_names.len() == kind_names@.len(),
                img == image_of(all),
                load_fault(all, size) is None || load_fault(all, size) == Some(LoadFault::Inconsistent),
                load_fault(all, size) is None <==> image_wf(img),
            decreases count - i,
        {
            if kinds[i] as usize >= kind_names.len() {
                proof {
                    if image_wf(img) {
                        assert(img.kinds[i as int] < img.kind_names.len());
                    }
                }
                return Err(Error::InvalidIndex("Index out of order".to_owned()));
            }
            i += 1;
        }
        let expect = compute_top(&oids);
        let mut b: usize = 0;
        while b < 256
            invariant
                b <= 256,
                top@.len() == 256,
                expect@.len() == 256,
                forall|k: int| 0 <= k < 256 ==> #[trigger] expect@[k] == count_upto(views(oids@), k),
                forall|k: int| 0 <= k < b ==> #[trigger] top@[k] == count_upto(views(oids@), k),
                img.top == top@,
                img.oids == views(oids@),
                img == image_of(all),
                load_fault(all, size) is None || load_fault(all, size) == Some(LoadFault::Inconsistent),
                load_fault(all, size) is None <==> image_wf(img),
            decreases 256 - b,
        {
            if top[b] != expect[b] {
                proof {
                    if image_wf(img) {
                        assert(img.top[b as int] == count_upto(img.oids, b as int));
                    }
                }
                return Err(Error::InvalidIndex("Index out of order".to_owned()));
            }
            b += 1;
        }
        assert(image_wf(img));
        Ok(FileIndex { top: top, offsets: offsets, oids: oids, kind_names: kind_names, kinds: kinds })
    }

    /// Construct an empty index, that contains no values.
    pub fn empty() -> (r: FileIndex)
        ensures
            r.wf(),
            r.map() == Map::<Seq<u8>, IndexInfo>::empty(),
            r.image().oids.len() == 0,
    {
        let mut top: Vec<u32> = Vec::with_capacity(256);
        let mut b: usize = 0;
        while b < 256
            invariant
                b <= 256,
                top@.len() == b,
                forall|j: int| 0 <= j < b ==> top@[j] == 0,
            decreases 256 - b,
        {
            top.push(0);
            b += 1;
        }
        let r = FileIndex {
            top: top,
            offsets: Vec::new(),
            oids: Vec::new(),
            kind_names: Vec::new(),
            kinds: Vec::new(),
        };
        proof {
            lemma_table_map_empty(r.image().oids, image_infos(r.image()));
        }
        r
    }

    /// Write the index file for these entries, and for a pool file of `size`
    /// bytes.  The entries may come in any order; no two may have the same
    /// object-id, and there may not be more of them than a count of four
    /// bytes can tell.
    pub fn save<'a>(size: u32, nodes: Vec<IterItem<'a>>) -> (r: Result<Vec<u8>, Error>)
        ensures
            match r {
                Ok(bytes) => {
                    &&& nodes@.len() <= u32::MAX
                    &&& distinct_oids(nodes@)
                    &&& exists|sorted: Seq<IterItem<'a>>|
                        {
                            &&& sorted.to_multiset() == nodes@.to_multiset()
                            &&& ascending(item_oids(sorted))
                            &&& bytes@ == #[trigger] index_bytes(size, image_for(sorted))
                        }
                },
                Err(e) => e is InvalidIndex && (nodes@.len() > u32::MAX || !distinct_oids(nodes@)),
            },
    {
        if nodes.len() > u32::MAX as usize {
            return Err(Error::InvalidIndex("Too many entries".to_owned()));
        }
        let ghost given = nodes@;
        let mut nodes = nodes;
        sort_by_oid(&mut nodes);
        let ghost sorted = nodes@;
        proof {
            sorted.to_multiset_ensures();
            given.to_multiset_ensures();
            assert(sorted.len() == sorted.to_multiset().len());
            assert(given.len() == given.to_multiset().len());
        }
        let oids = match ascending_oids(&nodes) {
            Ok(oids) => oids,
            Err(at) => {
                proof {
                    lemma_twice_in_row(given, sorted, at as int);
                }
                return Err(Error::InvalidIndex("Duplicate object-id".to_owned()));
            },
        };
        proof {
            lemma_distinct_in_any_order(given, sorted);
        }
        let ghost img = image_for(sorted);

        let mut out: Vec<u8> = Vec::new();
        emit_magic(&mut out);
        put_u32(&mut out, 4);
        put_u32(&mut out, size);

        // Write the top-level index.
        assert(oids@.len() == views(oids@).len());
        let top = compute_top(&oids);
        assert(top@ =~= img.top);
        emit_u32s(&mut out, &top);

        // Write out the hashes themselves, and the offset table.
        emit_oids(&mut out, &nodes);
        emit_offsets(&mut out, &nodes);

        // Compute the kind map, and write it out.
        let (kinds, places) = kind_columns(&nodes);
        proof {
            lemma_kind_table(item_kinds(sorted));
        }
        put_u32(&mut out, kinds.len() as u32);
        emit_kind_names(&mut out, &kinds);

        // Then write out the values.
        put_bytes(&mut out, places.as_slice());
        assert(out@ =~= index_bytes(size, img));
        Ok(out)
    }

    pub fn len(&self) -> (n: usize)
        ensures
            n == self.image().oids.len(),
    {
        proof {
            use_type_invariant(self);
        }
        self.offsets.len()
    }

    /// Scan this index for a given hash.
    fn find(&self, key: &Oid) -> (r: Option<usize>)
        ensures
            match r {
                Some(i) => key_at(self.image().oids, key@, i as int),
                None => forall|j: int| 0 <= j < self.image().oids.len() ==> self.image().oids[j] != key@,
            },
    {
        proof {
            use_type_invariant(self);
        }
        let ghost rows = views(self.oids@);
        let first_byte = key.0[0] as usize;
        let low = if first_byte > 0 {
            self.top[first_byte - 1] as usize
        } else {
            0
        };
        let high = self.top[first_byte] as usize;
        proof {
            lemma_count_is_prefix(rows, first_byte as int);
            if first_byte > 0 {
                lemma_count_is_prefix(rows, first_byte - 1);
                if high < low {
                    assert(rows[high as int][0] <= first_byte - 1);
                }
            }
        }
        match search(&self.oids, low, high, key) {
            Ok(index) => Some(index),
            Err(at) => {
                proof {
                    lemma_search_miss(rows, low as int, high as int, at as int, key@);
                    assert forall|j: int| 0 <= j < rows.len() implies rows[j] != key@ by {
                        if j < low {
                            assert(rows[j][0] <= first_byte - 1);
                        } else if j >= high {
                            assert(rows[j][0] > first_byte);
                        }
                    }
                }
                None
            },
        }
    }

    /// Walk the index in the order of the object-ids.
    pub fn iter(&self) -> (r: Iter<'_>)
        ensures
            r.index() == *self,
            r.position() == 0,
    {
        Iter { parent: self, pos: 0 }
    }
}

impl Index for FileIndex {
    closed spec fn map(&self) -> Map<Seq<u8>, IndexInfo> {
        image_map(self.image())
    }

    fn contains_key(&self, key: &Oid) -> (b: bool) {
        self.get(key).is_some()
    }

    fn get(&self, key: &Oid) -> (r: Option<IndexInfo>) {
        proof {
            use_type_invariant(self);
        }
        match self.find(key) {
            Some(num) => {
                proof {
                    lemma_table_map_row(self.image().oids, image_infos(self.image()), num as int);
                }
                Some(
                    IndexInfo {
                        offset: self.offsets[num],
                        kind: self.kind_names[self.kinds[num] as usize],
                    },
                )
            },
            None => {
                proof {
                    lemma_table_map_miss(self.image().oids, image_infos(self.image()), key@);
                }
                None
            },
        }
    }
}

/// A walk through a `FileIndex`.
pub struct Iter<'a> {
    parent: &'a FileIndex,
    pos: usize,
}

impl<'a> Iter<'a> {
    /// The index that is walked.
    pub closed spec fn index(self) -> FileIndex {
        *self.parent
    }

    /// How many entries the walk has left behind.
    pub closed spec fn position(self) -> nat {
        self.pos as nat
    }

    /// The next entry of the index, until there is none left.
    pub fn next(&mut self) -> (r: Option<IterItem<'a>>)
        ensures
            final(self).index() == old(self).index(),
            match r {
                Some(item) => {
                    let at = old(self).position() as int;
                    let img = old(self).index().image();
                    &&& at < img.oids.len()
                    &&& final(self).position() == at + 1
                    &&& item.oid@ == img.oids[at]
                    &&& item.info() == image_infos(img)[at]
                },
                None => {
                    &&& old(self).position() >= old(self).index().image().oids.len()
                    &&& final(self).position() == old(self).position()
                },
            },
    {
        proof {
            use_type_invariant(self.parent);
        }
        if self.pos >= self.parent.oids.len() {
            None
        } else {
            let pos = self.pos;
            self.pos = pos + 1;
            Some(
                IterItem {
                    oid: &self.parent.oids[pos],
                    kind: self.parent.kind_names[self.parent.kinds[pos] as usize],
                    offset: self.parent.offsets[pos],
                },
            )
        }
    }
}

} // verus!
