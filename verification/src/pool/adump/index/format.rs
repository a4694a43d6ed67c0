//! The layout of an index file, and what is read out of the bytes that were
//! written.
//!
//! The file holds, all numbers little-endian:
//!
//! ```text
//!   0  8      magic   "ldumpidx"
//!   8  4      version = 4
//!  12  4      file_size, the size of the pool file beside it
//!  16  256*4  top: top[b] = count of entries whose first byte is b or less
//!      N*20   oids, sorted ascending
//!      N*4    offsets, parallel to oids
//!      4      K, the number of distinct kinds
//!      K*4    kind table
//!      N*1    for each entry the place of its kind in the kind table
//! ```
//!
//! `N` is `top[255]`.

use vstd::prelude::*;
use vstd::utf8::valid_utf8;
use crate::cursor::u32_at;
use crate::endian::{
    le_bytes, lemma_le_value_of_bytes, lemma_u32_table_len, lemma_u32_table_row, u32_table,
};
use crate::error::Error;
use crate::kind::Kind;
use crate::oid::{lemma_lex_first_byte, lemma_lex_total, lemma_lex_transitive, lex_lt};
use crate::text::{all_ascii, lemma_ascii_is_utf8};
use super::{ascending, key_at, lemma_ascending_distinct, table_map, IndexInfo, IterItem};

verus! {

/// What an index file holds, column by column.
#[verifier::ext_equal]
pub struct Image {
    pub top: Seq<u32>,
    pub oids: Seq<Seq<u8>>,
    pub offsets: Seq<u32>,
    pub kind_names: Seq<u32>,
    pub kinds: Seq<u8>,
}

/// How many of the object-ids begin with the byte `b` or a lower one.
pub open spec fn count_upto(oids: Seq<Seq<u8>>, b: int) -> int
    decreases oids.len(),
{
    if oids.len() == 0 {
        0
    } else {
        count_upto(oids.drop_last(), b) + if oids.last()[0] <= b {
            1int
        } else {
            0int
        }
    }
}

/// What holds of the columns of every index.
pub open spec fn image_wf(img: Image) -> bool {
    &&& img.top.len() == 256
    &&& img.oids.len() == img.top[255]
    &&& img.offsets.len() == img.oids.len()
    &&& img.kinds.len() == img.oids.len()
    &&& forall|i: int| 0 <= i < img.oids.len() ==> (#[trigger] img.oids[i]).len() == 20
    &&& ascending(img.oids)
    &&& forall|b: int| 0 <= b < 256 ==> #[trigger] img.top[b] == count_upto(img.oids, b)
    &&& forall|j: int| 0 <= j < img.kind_names.len() ==> Kind(#[trigger] img.kind_names[j]).wf()
    &&& forall|i: int| 0 <= i < img.kinds.len() ==> (#[trigger] img.kinds[i]) < img.kind_names.len()
}

/// What the index keeps of each entry, in the order of the object-ids.
pub open spec fn image_infos(img: Image) -> Seq<IndexInfo> {
    Seq::new(
        img.oids.len(),
        |i: int| IndexInfo { offset: img.offsets[i], kind: Kind(img.kind_names[img.kinds[i] as int]) },
    )
}

/// The map that the columns stand for.
pub open spec fn image_map(img: Image) -> Map<Seq<u8>, IndexInfo> {
    table_map(img.oids, image_infos(img))
}

/// In ascending object-ids the first bytes never fall.
pub proof fn lemma_first_bytes_rise(oids: Seq<Seq<u8>>, i: int, j: int)
    requires
        ascending(oids),
        0 <= i <= j < oids.len(),
    ensures
        oids[i][0] <= oids[j][0],
{
    if i < j {
        assert(lex_lt(oids[i], oids[j]));
        lemma_lex_first_byte(oids[i], oids[j]);
    }
}

/// Among ascending object-ids, those that begin with `b` or less stand
/// first, and `count_upto` tells how many they are.
pub proof fn lemma_count_is_prefix(oids: Seq<Seq<u8>>, b: int)
    requires
        ascending(oids),
    ensures
        0 <= count_upto(oids, b) <= oids.len(),
        forall|i: int| 0 <= i < oids.len() ==> ((i < count_upto(oids, b)) <==> (#[trigger] oids[i])[0] <= b),
    decreases oids.len(),
{
    if oids.len() > 0 {
        let init = oids.drop_last();
        assert(ascending(init)) by {
            assert forall|i: int, j: int| 0 <= i < j < init.len() implies lex_lt(
                #[trigger] init[i],
                #[trigger] init[j],
            ) by {
                assert(lex_lt(oids[i], oids[j]));
            }
        }
        lemma_count_is_prefix(init, b);
        let n = oids.len() as int;
        if oids.last()[0] <= b {
            if n - 1 > 0 {
                lemma_first_bytes_rise(oids, n - 2, n - 1);
                assert(init[n - 2] == oids[n - 2]);
                assert(n - 2 < count_upto(init, b));
            }
            assert(count_upto(init, b) == n - 1);
        }
        assert forall|i: int| 0 <= i < n implies ((i < count_upto(oids, b)) <==> (#[trigger] oids[i])[0]
            <= b) by {
            if i < n - 1 {
                assert(init[i] == oids[i]);
            }
        }
    }
}

/// A number that cuts ascending object-ids where `count_upto` cuts them is
/// that count.
pub proof fn lemma_count_is_the_cut(oids: Seq<Seq<u8>>, b: int, cut: int)
    requires
        ascending(oids),
        0 <= cut <= oids.len(),
        forall|i: int| 0 <= i < cut ==> (#[trigger] oids[i])[0] <= b,
        forall|i: int| cut <= i < oids.len() ==> (#[trigger] oids[i])[0] > b,
    ensures
        cut == count_upto(oids, b),
{
    lemma_count_is_prefix(oids, b);
    let c = count_upto(oids, b);
    if c < cut {
        assert(oids[c][0] <= b);
    } else if cut < c {
        assert(oids[cut][0] > b);
    }
}

/// Where each object-id comes before the next, the whole row ascends.
pub proof fn lemma_neighbours_ascend(oids: Seq<Seq<u8>>)
    requires
        forall|i: int| 0 < i < oids.len() ==> lex_lt(#[trigger] oids[i - 1], oids[i]),
    ensures
        ascending(oids),
{
    assert forall|i: int, j: int| 0 <= i < j < oids.len() implies lex_lt(
        #[trigger] oids[i],
        #[trigger] oids[j],
    ) by {
        lemma_neighbours_reach(oids, i, j);
    }
}

proof fn lemma_neighbours_reach(oids: Seq<Seq<u8>>, i: int, j: int)
    requires
        forall|k: int| 0 < k < oids.len() ==> lex_lt(#[trigger] oids[k - 1], oids[k]),
        0 <= i < j < oids.len(),
    ensures
        lex_lt(oids[i], oids[j]),
    decreases j - i,
{
    assert(lex_lt(oids[j - 1], oids[j]));
    if i < j - 1 {
        lemma_neighbours_reach(oids, i, j - 1);
        lemma_lex_transitive(oids[i], oids[j - 1], oids[j]);
    }
}

/// The eight bytes that an index file begins with: "ldumpidx".
pub open spec fn index_magic() -> Seq<u8> {
    seq![0x6c, 0x64, 0x75, 0x6d, 0x70, 0x69, 0x64, 0x78]
}

/// The number of entries that an index file states: the last of its counts.
pub open spec fn entry_count(bytes: Seq<u8>) -> int {
    u32_at(bytes, 1036) as int
}

/// Where the offsets stand in a file of `n` entries.
pub open spec fn offsets_at(n: int) -> int {
    1040 + 20 * n
}

/// Where the kind table stands, after its length.
pub open spec fn kind_names_at(n: int) -> int {
    1044 + 24 * n
}

/// The number of kinds that an index file states.
pub open spec fn kind_count(bytes: Seq<u8>) -> int {
    u32_at(bytes, 1040 + 24 * entry_count(bytes)) as int
}

/// Where the kind of each entry stands, in a file of `n` entries and `kc` kinds.
pub open spec fn kinds_at(n: int, kc: int) -> int {
    1044 + 24 * n + 4 * kc
}

/// The columns that the bytes of an index file spell.
pub open spec fn image_of(bytes: Seq<u8>) -> Image {
    let n = entry_count(bytes);
    let kc = kind_count(bytes);
    Image {
        top: Seq::new(256, |b: int| u32_at(bytes, 16 + 4 * b)),
        oids: Seq::new(n as nat, |i: int| bytes.subrange(1040 + 20 * i, 1060 + 20 * i)),
        offsets: Seq::new(n as nat, |i: int| u32_at(bytes, offsets_at(n) + 4 * i)),
        kind_names: Seq::new(kc as nat, |j: int| u32_at(bytes, kind_names_at(n) + 4 * j)),
        kinds: Seq::new(n as nat, |i: int| bytes[kinds_at(n, kc) + i]),
    }
}

/// Why an index file is refused.
pub enum LoadFault {
    /// The file ends before the index does.
    Truncated,
    /// The file does not begin as an index file does.
    BadMagic,
    /// The version is not the one that is read here.
    BadVersion,
    /// The index was written for a pool file of another size.
    SizeMismatch,
    /// A name in the kind table is no text.
    KindNotUtf8,
    /// A name in the kind table is text, but not ASCII.
    KindNotAscii,
    /// The columns do not fit together: the object-ids do not ascend, the
    /// counts by first byte are not theirs, or an entry names a kind that
    /// the kind table has not.
    Inconsistent,
}

/// The first fault among `left` names of the kind table, from `at` on.
pub open spec fn kind_fault_from(bytes: Seq<u8>, at: int, left: nat) -> Option<LoadFault>
    decreases left,
{
    if left == 0 {
        None
    } else if bytes.len() < at + 4 {
        Some(LoadFault::Truncated)
    } else if !valid_utf8(bytes.subrange(at, at + 4)) {
        Some(LoadFault::KindNotUtf8)
    } else if !all_ascii(bytes.subrange(at, at + 4)) {
        Some(LoadFault::KindNotAscii)
    } else {
        kind_fault_from(bytes, at + 4, (left - 1) as nat)
    }
}

/// The fault for which an index file is refused, if there is one: the first
/// that a reader meets who goes through the file from its start, and holds
/// the columns against each other when all are read.
pub open spec fn load_fault(bytes: Seq<u8>, size: u32) -> Option<LoadFault> {
    let n = entry_count(bytes);
    let kc = kind_count(bytes);
    if bytes.len() < 8 {
        Some(LoadFault::Truncated)
    } else if bytes.subrange(0, 8) != index_magic() {
        Some(LoadFault::BadMagic)
    } else if bytes.len() < 12 {
        Some(LoadFault::Truncated)
    } else if u32_at(bytes, 8) != 4 {
        Some(LoadFault::BadVersion)
    } else if bytes.len() < 16 {
        Some(LoadFault::Truncated)
    } else if u32_at(bytes, 12) != size {
        Some(LoadFault::SizeMismatch)
    } else if bytes.len() < kind_names_at(n) {
        Some(LoadFault::Truncated)
    } else if kind_fault_from(bytes, kind_names_at(n), kc as nat) is Some {
        kind_fault_from(bytes, kind_names_at(n), kc as nat)
    } else if bytes.len() < kinds_at(n, kc) + n {
        Some(LoadFault::Truncated)
    } else if !image_wf(image_of(bytes)) {
        Some(LoadFault::Inconsistent)
    } else {
        None
    }
}

/// Is `e` the error that stands for the fault `f`?
pub open spec fn fault_is(e: Error, f: LoadFault) -> bool {
    match f {
        LoadFault::Truncated => e matches Error::Io(io) && io.unexpected_eof,
        LoadFault::BadMagic => e matches Error::InvalidIndex(m) && m@ == "bad magic"@,
        LoadFault::BadVersion => e matches Error::InvalidIndex(m) && m@ == "Version mismatch"@,
        LoadFault::SizeMismatch => e matches Error::InvalidIndex(m) && m@ == "Index size mismatch"@,
        LoadFault::KindNotUtf8 => e is Utf8Error,
        LoadFault::KindNotAscii => e is NonAsciiKind,
        LoadFault::Inconsistent => e matches Error::InvalidIndex(m) && m@ == "Index out of order"@,
    }
}

/// The object-ids of a row of entries.
pub open spec fn item_oids<'a>(items: Seq<IterItem<'a>>) -> Seq<Seq<u8>> {
    Seq::new(items.len(), |i: int| items[i].oid@)
}

/// The kinds of a row of entries.
pub open spec fn item_kinds<'a>(items: Seq<IterItem<'a>>) -> Seq<Kind> {
    Seq::new(items.len(), |i: int| items[i].kind)
}

/// What the index keeps of each of a row of entries.
pub open spec fn item_infos<'a>(items: Seq<IterItem<'a>>) -> Seq<IndexInfo> {
    Seq::new(items.len(), |i: int| items[i].info())
}

/// The map that a row of entries stands for.
pub open spec fn item_map<'a>(items: Seq<IterItem<'a>>) -> Map<Seq<u8>, IndexInfo> {
    table_map(item_oids(items), item_infos(items))
}

/// No two of the entries have the same object-id.
pub open spec fn distinct_oids<'a>(items: Seq<IterItem<'a>>) -> bool {
    forall|i: int, j: int|
        0 <= i < items.len() && 0 <= j < items.len() && i != j ==> (#[trigger] items[i]).oid@ != (
        #[trigger] items[j]).oid@
}

/// The kind table of a row of kinds: each kind once, in the order in which
/// the row first shows it.
pub open spec fn kind_table(kinds: Seq<Kind>) -> Seq<Kind>
    decreases kinds.len(),
{
    if kinds.len() == 0 {
        Seq::<Kind>::empty()
    } else {
        let table = kind_table(kinds.drop_last());
        if table.contains(kinds.last()) {
            table
        } else {
            table.push(kinds.last())
        }
    }
}

/// A row of object-ids, each written as its twenty bytes.
#[verifier::opaque]
pub open spec fn oid_table(oids: Seq<Seq<u8>>) -> Seq<u8> {
    Seq::new(20 * oids.len(), |p: int| oids[p / 20][p % 20])
}

/// The columns of the index file that is written for entries in ascending
/// order.  An entry names its kind by the place of the kind in the kind
/// table; of a place beyond 255 only the lowest byte is written.
pub open spec fn image_for<'a>(items: Seq<IterItem<'a>>) -> Image {
    let table = kind_table(item_kinds(items));
    Image {
        top: Seq::new(256, |b: int| count_upto(item_oids(items), b) as u32),
        oids: item_oids(items),
        offsets: Seq::new(items.len(), |i: int| items[i].offset),
        kind_names: kind_raws(table),
        kinds: Seq::new(items.len(), |i: int| (table.index_of(items[i].kind) % 256) as u8),
    }
}

/// The bytes of the index file that holds the columns `img`, written for a
/// pool file of `size` bytes.
pub open spec fn index_bytes(size: u32, img: Image) -> Seq<u8> {
    index_magic() + le_bytes(4) + le_bytes(size) + u32_table(img.top) + oid_table(img.oids)
        + u32_table(img.offsets) + le_bytes(img.kind_names.len() as u32) + u32_table(img.kind_names)
        + img.kinds
}

/// A table that has grown by one object-id has grown by its twenty bytes.
pub proof fn lemma_oid_table_push(oids: Seq<Seq<u8>>, oid: Seq<u8>)
    requires
        oid.len() == 20,
    ensures
        oid_table(oids.push(oid)) == oid_table(oids) + oid,
{
    reveal(oid_table);
    assert(oid_table(oids.push(oid)) =~= oid_table(oids) + oid);
}

/// The table of no object-ids is empty.
pub proof fn lemma_oid_table_empty()
    ensures
        oid_table(Seq::<Seq<u8>>::empty()) == Seq::<u8>::empty(),
{
    reveal(oid_table);
    assert(oid_table(Seq::<Seq<u8>>::empty()) =~= Seq::<u8>::empty());
}

/// The object-id at place `i` of a table can be read out of its bytes.
pub proof fn lemma_oid_table_row(oids: Seq<Seq<u8>>, i: int)
    requires
        0 <= i < oids.len(),
        oids[i].len() == 20,
    ensures
        oid_table(oids).len() == 20 * oids.len(),
        oid_table(oids).subrange(20 * i, 20 * i + 20) == oids[i],
{
    reveal(oid_table);
    assert(oid_table(oids).subrange(20 * i, 20 * i + 20) =~= oids[i]);
}

/// A table of object-ids is twenty times as long as the row.
pub proof fn lemma_oid_table_len(oids: Seq<Seq<u8>>)
    ensures
        oid_table(oids).len() == 20 * oids.len(),
{
    reveal(oid_table);
}

/// What holds of every kind table: it holds each kind of the row, each once,
/// and no other.
pub proof fn lemma_kind_table(kinds: Seq<Kind>)
    ensures
        kind_table(kinds).no_duplicates(),
        kind_table(kinds).len() <= kinds.len(),
        forall|i: int| 0 <= i < kinds.len() ==> kind_table(kinds).contains(#[trigger] kinds[i]),
        forall|j: int|
            0 <= j < kind_table(kinds).len() ==> kinds.contains(#[trigger] kind_table(kinds)[j]),
    decreases kinds.len(),
{
    if kinds.len() > 0 {
        let init = kinds.drop_last();
        let before = kind_table(init);
        let table = kind_table(kinds);
        lemma_kind_table(init);
        assert forall|i: int| 0 <= i < kinds.len() implies table.contains(#[trigger] kinds[i]) by {
            if i < init.len() {
                assert(init[i] == kinds[i]);
                let j = choose|j: int| 0 <= j < before.len() && before[j] == kinds[i];
                assert(table[j] == kinds[i]);
            } else if before.contains(kinds.last()) {
            } else {
                assert(table[before.len() as int] == kinds[i]);
            }
        }
        assert forall|j: int| 0 <= j < table.len() implies kinds.contains(#[trigger] table[j]) by {
            if j < before.len() {
                assert(before[j] == table[j]);
                let i = choose|i: int| 0 <= i < init.len() && init[i] == before[j];
                assert(kinds[i] == table[j]);
            } else {
                assert(kinds[kinds.len() - 1] == table[j]);
            }
        }
    }
}

/// The kind table of the first kinds of a row is the start of the kind table
/// of the whole row.
pub proof fn lemma_kind_table_grows(kinds: Seq<Kind>, i: int)
    requires
        0 <= i <= kinds.len(),
    ensures
        kind_table(kinds.take(i)).len() <= kind_table(kinds).len(),
        kind_table(kinds.take(i)) == kind_table(kinds).take(kind_table(kinds.take(i)).len() as int),
    decreases kinds.len() - i,
{
    if i == kinds.len() {
        assert(kinds.take(i) =~= kinds);
        assert(kind_table(kinds) =~= kind_table(kinds).take(kind_table(kinds).len() as int));
    } else {
        lemma_kind_table_grows(kinds, i + 1);
        assert(kinds.take(i + 1).drop_last() =~= kinds.take(i));
        let a = kind_table(kinds.take(i));
        let b = kind_table(kinds.take(i + 1));
        assert(a =~= b.take(a.len() as int));
        assert(a =~= kind_table(kinds).take(a.len() as int));
    }
}

/// The place of a kind in the table so far is its place in the whole table.
pub proof fn lemma_kind_place(kinds: Seq<Kind>, i: int, place: int)
    requires
        0 <= i < kinds.len(),
        0 <= place < kind_table(kinds.take(i + 1)).len(),
        kind_table(kinds.take(i + 1))[place] == kinds[i],
    ensures
        kind_table(kinds).index_of(kinds[i]) == place,
        place < kind_table(kinds).len(),
        kind_table(kinds)[place] == kinds[i],
{
    lemma_kind_table_grows(kinds, i + 1);
    lemma_kind_table(kinds);
    let table = kind_table(kinds);
    let part = kind_table(kinds.take(i + 1));
    assert(part[place] == table.take(part.len() as int)[place]);
    assert(table[place] == kinds[i]);
    let c = table.index_of(kinds[i]);
    assert(0 <= c < table.len() && table[c] == kinds[i]);
}

/// Two rows of the same entries: what stands in one stands in the other.
pub proof fn lemma_same_members<'a>(a: Seq<IterItem<'a>>, b: Seq<IterItem<'a>>, x: IterItem<'a>)
    requires
        a.to_multiset() == b.to_multiset(),
        a.contains(x),
    ensures
        b.contains(x),
{
    a.to_multiset_ensures();
    b.to_multiset_ensures();
    assert(a.to_multiset().count(x) > 0);
    assert(b.to_multiset().count(x) > 0);
}

/// Entries in ascending order are all different, and so are their
/// object-ids; then the same holds of the entries in any other order.
pub proof fn lemma_distinct_in_any_order<'a>(given: Seq<IterItem<'a>>, sorted: Seq<IterItem<'a>>)
    requires
        sorted.to_multiset() == given.to_multiset(),
        ascending(item_oids(sorted)),
    ensures
        distinct_oids(given),
        given.no_duplicates(),
        sorted.no_duplicates(),
{
    let rows = item_oids(sorted);
    assert forall|i: int, j: int| 0 <= i < sorted.len() && 0 <= j < sorted.len() && i != j implies (
    #[trigger] sorted[i]).oid@ != (#[trigger] sorted[j]).oid@ by {
        assert(rows[i] == sorted[i].oid@ && rows[j] == sorted[j].oid@);
        if rows[i] == rows[j] {
            lemma_ascending_distinct(rows, i, j);
        }
    }
    assert(sorted.no_duplicates());
    sorted.lemma_multiset_has_no_duplicates();
    given.lemma_multiset_has_no_duplicates_conv();
    sorted.to_multiset_ensures();
    given.to_multiset_ensures();
    assert forall|i: int, j: int| 0 <= i < given.len() && 0 <= j < given.len() && i != j implies (
    #[trigger] given[i]).oid@ != (#[trigger] given[j]).oid@ by {
        lemma_same_members(given, sorted, given[i]);
        lemma_same_members(given, sorted, given[j]);
        let a = choose|a: int| 0 <= a < sorted.len() && sorted[a] == given[i];
        let b = choose|b: int| 0 <= b < sorted.len() && sorted[b] == given[j];
        assert(a != b);
    }
}

/// Where an entry of the sorted row does not come before the next, an
/// object-id stands twice among the entries.
pub proof fn lemma_twice_in_row<'a>(given: Seq<IterItem<'a>>, sorted: Seq<IterItem<'a>>, i: int)
    requires
        sorted.to_multiset() == given.to_multiset(),
        0 < i < sorted.len(),
        !lex_lt(sorted[i].oid@, sorted[i - 1].oid@),
        !lex_lt(sorted[i - 1].oid@, sorted[i].oid@),
    ensures
        !distinct_oids(given),
{
    lemma_lex_total(sorted[i - 1].oid@, sorted[i].oid@);
    sorted.to_multiset_ensures();
    given.to_multiset_ensures();
    let x = sorted[i - 1];
    let y = sorted[i];
    lemma_same_members(sorted, given, x);
    lemma_same_members(sorted, given, y);
    let a = choose|a: int| 0 <= a < given.len() && given[a] == x;
    let b = choose|b: int| 0 <= b < given.len() && given[b] == y;
    if a == b {
        // One entry stands twice in the sorted row, so twice among the given.
        assert(!sorted.no_duplicates());
        if given.no_duplicates() {
            given.lemma_multiset_has_no_duplicates();
            sorted.lemma_multiset_has_no_duplicates_conv();
        }
        let (p, q) = choose|p: int, q: int|
            0 <= p < given.len() && 0 <= q < given.len() && p != q && given[p] == given[q];
        assert(given[p].oid@ == given[q].oid@);
    } else {
        assert(given[a].oid@ == given[b].oid@);
    }
}

/// Every object-id begins with a byte of 255 or less, so the last count
/// counts them all.
pub proof fn lemma_count_all(oids: Seq<Seq<u8>>)
    ensures
        count_upto(oids, 255) == oids.len(),
    decreases oids.len(),
{
    if oids.len() > 0 {
        lemma_count_all(oids.drop_last());
    }
}

/// The names of a kind table whose kinds are all well formed are read
/// without fault.
proof fn lemma_kind_names_read(bytes: Seq<u8>, at: int, names: Seq<u32>, from: int)
    requires
        0 <= from <= names.len(),
        0 <= at,
        at + 4 * names.len() <= bytes.len(),
        forall|j: int|
            0 <= j < names.len() ==> bytes.subrange(at + 4 * j, at + 4 * j + 4) == le_bytes(
                #[trigger] names[j],
            ),
        forall|j: int| 0 <= j < names.len() ==> Kind(#[trigger] names[j]).wf(),
    ensures
        kind_fault_from(bytes, at + 4 * from, (names.len() - from) as nat) is None,
    decreases names.len() - from,
{
    if from < names.len() {
        let name = bytes.subrange(at + 4 * from, at + 4 * from + 4);
        assert(name == le_bytes(names[from]));
        assert(Kind(names[from]).wf());
        lemma_ascii_is_utf8(name);
        lemma_kind_names_read(bytes, at, names, from + 1);
    }
}

/// A number written into a file is read where it was written.
pub proof fn lemma_read_number(bytes: Seq<u8>, before: Seq<u8>, x: u32, after: Seq<u8>)
    requires
        bytes == before + le_bytes(x) + after,
    ensures
        u32_at(bytes, before.len() as int) == x,
        bytes.subrange(before.len() as int, before.len() as int + 4) == le_bytes(x),
{
    assert(bytes.subrange(before.len() as int, before.len() as int + 4) =~= le_bytes(x));
    lemma_le_value_of_bytes(x);
}

/// A number of a table written into a file is read where it was written.
pub proof fn lemma_read_row(bytes: Seq<u8>, before: Seq<u8>, xs: Seq<u32>, after: Seq<u8>, i: int)
    requires
        bytes == before + u32_table(xs) + after,
        0 <= i < xs.len(),
    ensures
        u32_at(bytes, before.len() + 4 * i) == xs[i],
        bytes.subrange(before.len() + 4 * i, before.len() + 4 * i + 4) == le_bytes(xs[i]),
{
    lemma_u32_table_row(xs, i);
    assert(bytes.subrange(before.len() + 4 * i, before.len() + 4 * i + 4) =~= u32_table(xs).subrange(
        4 * i,
        4 * i + 4,
    ));
}

/// An object-id of a table written into a file is read where it was written.
pub proof fn lemma_read_oid(
    bytes: Seq<u8>,
    before: Seq<u8>,
    oids: Seq<Seq<u8>>,
    after: Seq<u8>,
    i: int,
)
    requires
        bytes == before + oid_table(oids) + after,
        0 <= i < oids.len(),
        oids[i].len() == 20,
    ensures
        bytes.subrange(before.len() + 20 * i, before.len() + 20 * i + 20) == oids[i],
{
    lemma_oid_table_row(oids, i);
    assert(bytes.subrange(before.len() + 20 * i, before.len() + 20 * i + 20) =~= oid_table(
        oids,
    ).subrange(20 * i, 20 * i + 20));
}

/// Do the columns have the lengths that belong together?
pub open spec fn image_fits(img: Image) -> bool {
    &&& img.top.len() == 256
    &&& img.oids.len() == img.top[255]
    &&& img.offsets.len() == img.oids.len()
    &&& img.kinds.len() == img.oids.len()
    &&& img.kind_names.len() <= u32::MAX
    &&& forall|i: int| 0 <= i < img.oids.len() ==> (#[trigger] img.oids[i]).len() == 20
}

/// Columns whose lengths belong together are read back out of the bytes
/// that were written for them.
pub proof fn lemma_image_read_back(size: u32, img: Image)
    requires
        image_fits(img),
    ensures
        ({
            let bytes = index_bytes(size, img);
            let n = img.oids.len() as int;
            let kc = img.kind_names.len() as int;
            &&& bytes.len() == kinds_at(n, kc) + n
            &&& bytes.subrange(0, 8) == index_magic()
            &&& u32_at(bytes, 8) == 4
            &&& u32_at(bytes, 12) == size
            &&& entry_count(bytes) == n
            &&& kind_count(bytes) == kc
            &&& image_of(bytes) == img
            &&& forall|j: int|
                0 <= j < kc ==> bytes.subrange(
                    kind_names_at(n) + 4 * j,
                    kind_names_at(n) + 4 * j + 4,
                ) == le_bytes(#[trigger] img.kind_names[j])
        }),
{
    let bytes = index_bytes(size, img);
    let n = img.oids.len() as int;
    let kc = img.kind_names.len() as int;
    let s_top = u32_table(img.top);
    let s_oids = oid_table(img.oids);
    let s_offs = u32_table(img.offsets);
    let s_kc = le_bytes(kc as u32);
    let s_names = u32_table(img.kind_names);
    let to_magic = index_magic();
    let to_version = to_magic + le_bytes(4);
    let to_size = to_version + le_bytes(size);
    let to_top = to_size + s_top;
    let to_oids = to_top + s_oids;
    let to_offsets = to_oids + s_offs;
    let to_count = to_offsets + s_kc;
    let to_names = to_count + s_names;
    lemma_u32_table_len(img.top);
    lemma_oid_table_len(img.oids);
    lemma_u32_table_len(img.offsets);
    lemma_u32_table_len(img.kind_names);
    assert(bytes == to_names + img.kinds);
    assert(to_size.len() == 16 && to_top.len() == 1040 && to_oids.len() == 1040 + 20 * n);
    assert(to_offsets.len() == 1040 + 24 * n && to_count.len() == 1044 + 24 * n);
    assert(to_names.len() == 1044 + 24 * n + 4 * kc);

    assert(bytes.subrange(0, 8) =~= index_magic());
    assert(u32_at(bytes, 8) == 4) by {
        let after = le_bytes(size) + s_top + s_oids + s_offs + s_kc + s_names + img.kinds;
        assert(bytes =~= to_magic + le_bytes(4) + after);
        lemma_read_number(bytes, to_magic, 4, after);
    }
    assert(u32_at(bytes, 12) == size) by {
        let after = s_top + s_oids + s_offs + s_kc + s_names + img.kinds;
        assert(bytes =~= to_version + le_bytes(size) + after);
        lemma_read_number(bytes, to_version, size, after);
    }
    assert forall|b: int| 0 <= b < 256 implies u32_at(bytes, 16 + 4 * b) == #[trigger] img.top[b] by {
        let after = s_oids + s_offs + s_kc + s_names + img.kinds;
        assert(bytes =~= to_size + s_top + after);
        lemma_read_row(bytes, to_size, img.top, after, b);
    }
    assert(entry_count(bytes) == n);
    assert forall|i: int| 0 <= i < n implies bytes.subrange(1040 + 20 * i, 1060 + 20 * i)
        == #[trigger] img.oids[i] by {
        let after = s_offs + s_kc + s_names + img.kinds;
        assert(bytes =~= to_top + s_oids + after);
        lemma_read_oid(bytes, to_top, img.oids, after, i);
    }
    assert forall|i: int| 0 <= i < n implies u32_at(bytes, offsets_at(n) + 4 * i)
        == #[trigger] img.offsets[i] by {
        let after = s_kc + s_names + img.kinds;
        assert(bytes =~= to_oids + s_offs + after);
        lemma_read_row(bytes, to_oids, img.offsets, after, i);
    }
    assert(kind_count(bytes) == kc) by {
        let after = s_names + img.kinds;
        assert(bytes =~= to_offsets + s_kc + after);
        lemma_read_number(bytes, to_offsets, kc as u32, after);
    }
    assert forall|j: int| 0 <= j < kc implies u32_at(bytes, kind_names_at(n) + 4 * j)
        == #[trigger] img.kind_names[j] && bytes.subrange(
        kind_names_at(n) + 4 * j,
        kind_names_at(n) + 4 * j + 4,
    ) == le_bytes(img.kind_names[j]) by {
        assert(bytes =~= to_count + s_names + img.kinds);
        lemma_read_row(bytes, to_count, img.kind_names, img.kinds, j);
    }
    assert forall|i: int| 0 <= i < n implies bytes[kinds_at(n, kc) + i] == #[trigger] img.kinds[i] by {
        assert(bytes[to_names.len() + i] == img.kinds[i]);
    }
    assert(image_of(bytes) =~= img);
}

/// What is written for entries in ascending order is read back as the same
/// columns, and the columns stand for the same map as the entries.  This
/// holds where each kind is well formed and the kinds are 256 at most: of a
/// later kind only the lowest byte of its place would be written.
pub proof fn lemma_index_round_trip<'a>(size: u32, sorted: Seq<IterItem<'a>>)
    requires
        ascending(item_oids(sorted)),
        sorted.len() <= u32::MAX,
        forall|i: int| 0 <= i < sorted.len() ==> (#[trigger] sorted[i]).kind.wf(),
        kind_table(item_kinds(sorted)).len() <= 256,
    ensures
        load_fault(index_bytes(size, image_for(sorted)), size) is None,
        image_of(index_bytes(size, image_for(sorted))) == image_for(sorted),
        image_wf(image_for(sorted)),
        image_map(image_for(sorted)) == item_map(sorted),
{
    let img = image_for(sorted);
    let bytes = index_bytes(size, img);
    let n = sorted.len() as int;
    let col = item_kinds(sorted);
    let table = kind_table(col);
    let kc = table.len() as int;
    lemma_kind_table(col);
    lemma_count_all(img.oids);
    assert(image_fits(img));
    lemma_image_read_back(size, img);

    assert forall|i: int| 0 <= i < n implies table.index_of(#[trigger] col[i]) < kc && table[table.index_of(
        col[i],
    )] == col[i] by {
        assert(table.contains(col[i]));
    }
    assert(image_wf(img)) by {
        assert forall|b: int| 0 <= b < 256 implies #[trigger] img.top[b] == count_upto(img.oids, b) by {
            lemma_count_is_prefix(img.oids, b);
        }
        assert forall|j: int| 0 <= j < kc implies Kind(#[trigger] img.kind_names[j]).wf() by {
            assert(col.contains(table[j]));
            let i = choose|i: int| 0 <= i < col.len() && col[i] == table[j];
            assert(sorted[i].kind.wf());
        }
        assert forall|i: int| 0 <= i < img.kinds.len() implies (#[trigger] img.kinds[i])
            < img.kind_names.len() by {
            assert(table.index_of(col[i]) < kc);
        }
    }
    assert(kind_fault_from(bytes, kind_names_at(n), kc as nat) is None) by {
        lemma_kind_names_read(bytes, kind_names_at(n), img.kind_names, 0);
    }
    assert(image_infos(img) =~= item_infos(sorted)) by {
        assert forall|i: int| 0 <= i < n implies image_infos(img)[i] == item_infos(sorted)[i] by {
            assert(table.index_of(col[i]) < kc);
            assert(table[table.index_of(col[i])] == col[i]);
        }
    }
}

/// An index that was written for a pool file of one size is refused for a
/// pool file of any other size.
pub proof fn lemma_size_change_is_detected(size: u32, other: u32, img: Image)
    requires
        image_fits(img),
        other != size,
    ensures
        load_fault(index_bytes(size, img), other) == Some(LoadFault::SizeMismatch),
        forall|e: Error| #[trigger] fault_is(e, LoadFault::SizeMismatch) ==> e is InvalidIndex,
{
    lemma_image_read_back(size, img);
}

/// Entries with distinct object-ids stand for one map, in whatever order
/// they come.
pub proof fn lemma_map_in_any_order<'a>(given: Seq<IterItem<'a>>, sorted: Seq<IterItem<'a>>)
    requires
        sorted.to_multiset() == given.to_multiset(),
        ascending(item_oids(sorted)),
    ensures
        item_map(sorted) == item_map(given),
{
    lemma_distinct_in_any_order(given, sorted);
    let ms = item_map(sorted);
    let mg = item_map(given);
    let so = item_oids(sorted);
    let go = item_oids(given);
    assert forall|k: Seq<u8>| #[trigger] ms.dom().contains(k) implies mg.dom().contains(k) && mg[k] == ms[k] by {
        let i = choose|i: int| key_at(so, k, i);
        assert(sorted.contains(sorted[i]));
        lemma_same_members(sorted, given, sorted[i]);
        let j = choose|j: int| 0 <= j < given.len() && given[j] == sorted[i];
        assert(key_at(go, k, j));
        let c = choose|c: int| key_at(go, k, c);
        assert(given[c].oid@ == given[j].oid@);
        assert(c == j);
    }
    assert forall|k: Seq<u8>| #[trigger] mg.dom().contains(k) implies ms.dom().contains(k) by {
        let j = choose|j: int| key_at(go, k, j);
        assert(given.contains(given[j]));
        lemma_same_members(given, sorted, given[j]);
        let i = choose|i: int| 0 <= i < sorted.len() && sorted[i] == given[j];
        assert(key_at(so, k, i));
    }
    assert(ms =~= mg);
}

/// The numbers of a row of kinds.
pub open spec fn kind_raws(kinds: Seq<Kind>) -> Seq<u32> {
    Seq::new(kinds.len(), |i: int| kinds[i].0)
}

} // verus!
