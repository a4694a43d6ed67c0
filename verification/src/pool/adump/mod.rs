//! The pool of append-only files, each with an index beside it.
//!
//! What is here decides; it neither reads nor writes a file.  A caller that
//! holds the files asks what is to be done, does it, and tells what came of
//! it.

use vstd::prelude::*;
use vstd::utf8::encode_utf8;
use crate::chunk::Chunk;
use crate::error::Error;
use crate::kind::Kind;
use crate::oid::Oid;
use crate::pool::lists;
use crate::rows::{put_number, rising};
use self::chunkio::{chunk_frame, lemma_frame_shape, NOT_COMPRESSED};
use self::index::format::{fault_is, image_map, image_of, item_infos, item_oids, load_fault};
use self::index::{key_at, table_map, IndexInfo};
use self::kept::lemma_same_maps;
use self::names::{lemma_serial_is_small, pool_serial, serial_of};

pub mod cfile;
pub mod chunkio;
pub mod growth;
pub mod index;
pub mod kept;
pub mod names;
pub mod pfile;
pub mod props;

pub use cfile::{
    fits_index, kinds_fit, stands_for, written_for, Appended, ChunkFile, Flushed, ReadPlan, ReadWriter,
    WritePlan,
};
pub use props::{Blueprint, PoolBuilder, PoolProps, Site, DEFAULT_LIMIT};

verus! {

/// The largest size that a pool file may have.
pub const MAX_FILE_SIZE: u32 = 0x7fff_ffff;

/// "back", the kind of the chunks that head a backup.
pub const BACK: u32 = 0x6b63_6162;

/// How many bytes the frame of the chunk takes in a pool file.  A chunk
/// without a payload has no frame.
pub fn write_size(chunk: &mut Chunk) -> (r: Result<u32, Error>)
    ensures
        final(chunk).wf(),
        final(chunk).same_chunk(*old(chunk)),
        match r {
            Ok(n) => chunk_frame(*old(chunk)) matches Some(frame) && n == frame.len(),
            Err(e) => match chunk_frame(*old(chunk)) {
                None => e is CorruptChunk,
                Some(frame) => e is CorruptPool && frame.len() > u32::MAX,
            },
        },
{
    let ghost first = *chunk;
    let held = match chunk.zdata() {
        Some(p) => Some(p.len()),
        None => None,
    };
    let len: usize = match held {
        Some(n) => n,
        None => match chunk.data() {
            Ok(d) => d.len(),
            Err(e) => {
                return Err(e);
            },
        },
    };
    proof {
        let stored = match first.packed() {
            Some(z) => z,
            None => first.payload()->0,
        };
        lemma_frame_shape(
            first.spec_kind(),
            first.spec_oid()@,
            if first.packed() is Some { first.spec_data_len() } else { NOT_COMPRESSED },
            stored,
        );
    }
    let total: u64 = 48 + (len as u64 + 15) / 16 * 16;
    if total > u32::MAX as u64 {
        return Err(Error::CorruptPool("chunk is too large for a pool file".to_owned()));
    }
    Ok(total as u32)
}

/// What the files of a pool hold together.  Where two files hold the same
/// object-id, the earlier file is the one that is asked.
pub open spec fn files_map(files: Seq<ChunkFile>) -> Map<Seq<u8>, IndexInfo>
    decreases files.len(),
{
    if files.len() == 0 {
        Map::<Seq<u8>, IndexInfo>::empty()
    } else {
        files.last().map().union_prefer_right(files_map(files.drop_last()))
    }
}

/// An object-id that none of the files holds is not in the pool, and one
/// that a file holds is in the pool with what the first such file says.
pub proof fn lemma_files_map(files: Seq<ChunkFile>, key: Seq<u8>)
    ensures
        files_map(files).contains_key(key) <==> exists|i: int|
            0 <= i < files.len() && (#[trigger] files[i]).map().contains_key(key),
        forall|i: int|
            0 <= i < files.len() && (#[trigger] files[i]).map().contains_key(key) && (forall|j: int|
                0 <= j < i ==> !(#[trigger] files[j]).map().contains_key(key)) ==> files_map(
                files,
            )[key] == files[i].map()[key],
    decreases files.len(),
{
    if files.len() > 0 {
        let init = files.drop_last();
        lemma_files_map(init, key);
        let n = files.len() as int;
        if files_map(init).contains_key(key) {
            let i = choose|i: int| 0 <= i < init.len() && (#[trigger] init[i]).map().contains_key(key);
            assert(files[i] == init[i]);
        }
        if exists|i: int| 0 <= i < files.len() && (#[trigger] files[i]).map().contains_key(key) {
            let i = choose|i: int| 0 <= i < files.len() && (#[trigger] files[i]).map().contains_key(key);
            if i < n - 1 {
                assert(init[i] == files[i]);
            }
        }
        assert forall|i: int|
            0 <= i < files.len() && (#[trigger] files[i]).map().contains_key(key) && (forall|j: int|
                0 <= j < i ==> !(#[trigger] files[j]).map().contains_key(key)) implies files_map(
            files,
        )[key] == files[i].map()[key] by {
            if i < n - 1 {
                assert(init[i] == files[i]);
                assert forall|j: int| 0 <= j < i implies !(#[trigger] init[j]).map().contains_key(
                    key,
                ) by {
                    assert(init[j] == files[j]);
                }
            } else {
                if files_map(init).contains_key(key) {
                    let j = choose|j: int|
                        0 <= j < init.len() && (#[trigger] init[j]).map().contains_key(key);
                    assert(files[j] == init[j]);
                }
            }
        }
    }
}

/// Does the file hold a chunk of the kind "back" under this object-id?
pub open spec fn file_has_backup(file: ChunkFile, key: Seq<u8>) -> bool {
    file.map().contains_key(key) && file.map()[key].kind == Kind(BACK)
}

/// Does one of the files hold a chunk of the kind "back" under this
/// object-id?
pub open spec fn has_backup(files: Seq<ChunkFile>, key: Seq<u8>) -> bool {
    exists|f: int| 0 <= f < files.len() && file_has_backup(#[trigger] files[f], key)
}

/// Does the object-id stand among the first `upto` of the row?
pub open spec fn stands_before(oids: Seq<Seq<u8>>, upto: int, key: Seq<u8>) -> bool {
    exists|a: int| 0 <= a < upto && #[trigger] oids[a] == key
}

/// The object-ids of the chunks of the kind "back" in one file, each once.
pub fn backups_of(file: &ChunkFile) -> (r: Vec<Oid>)
    ensures
        forall|i: int| 0 <= i < r@.len() ==> file_has_backup(*file, (#[trigger] r@[i])@),
        forall|k: Seq<u8>| #[trigger] file_has_backup(*file, k) ==> lists(r@, k),
        listed_once(r@),
{
    let mut result: Vec<Oid> = Vec::new();
    let items = file.entries();
    let ghost m = file.map();
    let ghost oids = item_oids(items@);
    let ghost infos = item_infos(items@);
    proof {
        assert forall|a: int, b: int| 0 <= a < oids.len() && 0 <= b < oids.len() && a != b implies oids[a]
            != oids[b] by {
            assert(items@[a].oid@ != items@[b].oid@);
        }
    }
    let mut i: usize = 0;
    while i < items.len()
        invariant
            i <= items@.len(),
            m == file.map(),
            m == table_map(oids, infos),
            oids == item_oids(items@),
            infos == item_infos(items@),
            forall|a: int, b: int|
                0 <= a < oids.len() && 0 <= b < oids.len() && a != b ==> oids[a] != oids[b],
            forall|j: int| 0 <= j < result@.len() ==> file_has_backup(*file, (#[trigger] result@[j])@),
            forall|a: int| 0 <= a < i && infos[a].kind == Kind(BACK) ==> lists(result@, #[trigger] oids[a]),
            forall|j: int| 0 <= j < result@.len() ==> stands_before(oids, i as int, (#[trigger] result@[j])@),
            listed_once(result@),
        decreases items@.len() - i,
    {
        let ent = items[i];
        proof {
            lemma_row_of_distinct(oids, infos, i as int);
        }
        if ent.kind.0 == BACK {
            let ghost was = result@;
            result.push(*ent.oid);
            proof {
                assert(result@[was.len() as int]@ == oids[i as int]);
                assert forall|a: int| 0 <= a < i + 1 && infos[a].kind == Kind(BACK) implies lists(
                    result@,
                    #[trigger] oids[a],
                ) by {
                    if a < i {
                        let j = choose|j: int| 0 <= j < was.len() && (#[trigger] was[j])@ == oids[a];
                        assert(result@[j] == was[j]);
                    }
                }
                assert forall|x: int, y: int| 0 <= x < y < result@.len() implies (#[trigger] result@[x])@
                    != (#[trigger] result@[y])@ by {
                    if y == was.len() {
                        assert(result@[x] == was[x]);
                        assert(stands_before(oids, i as int, was[x]@));
                        let a = choose|a: int| 0 <= a < i && oids[a] == was[x]@;
                        assert(oids[a] != oids[i as int]);
                    } else {
                        assert(result@[x] == was[x] && result@[y] == was[y]);
                    }
                }
            }
        }
        proof {
            assert forall|j: int| 0 <= j < result@.len() implies stands_before(
                oids,
                i + 1,
                (#[trigger] result@[j])@,
            ) by {
                if result@[j]@ == oids[i as int] {
                } else {
                    assert(stands_before(oids, i as int, result@[j]@));
                    let a = choose|a: int| 0 <= a < i && oids[a] == result@[j]@;
                    assert(0 <= a < i + 1);
                }
            }
        }
        i += 1;
    }
    proof {
        assert forall|k: Seq<u8>| #[trigger] file_has_backup(*file, k) implies lists(result@, k) by {
            let a = choose|a: int| key_at(oids, k, a);
            lemma_row_of_distinct(oids, infos, a);
        }
    }
    result
}

/// Do the files stand in the order of their serial numbers, and is
/// `next_file` the number after the last, or zero where there is no file?
pub open spec fn in_order(files: Seq<ChunkFile>, next_file: u32) -> bool {
    &&& forall|i: int, j: int|
        0 <= i < j < files.len() ==> (#[trigger] files[i]).spec_serial() < (
        #[trigger] files[j]).spec_serial()
    &&& next_file == if files.len() == 0 {
        0
    } else {
        files.last().spec_serial() + 1
    }
}

/// Does no object-id stand in two of the files?
pub open spec fn files_apart(files: Seq<ChunkFile>) -> bool {
    forall|f: int, g: int, k: Seq<u8>|
        0 <= f < g < files.len() ==> !(#[trigger] files[f].map().contains_key(k)
            && #[trigger] files[g].map().contains_key(k))
}

/// Does no object-id stand twice in the row?
pub open spec fn listed_once(row: Seq<Oid>) -> bool {
    forall|i: int, j: int| 0 <= i < j < row.len() ==> (#[trigger] row[i])@ != (#[trigger] row[j])@
}

/// Does the row hold the backups of the file, each once, and nothing else?
pub open spec fn file_row(file: ChunkFile, row: Seq<Oid>) -> bool {
    &&& listed_once(row)
    &&& forall|i: int| 0 <= i < row.len() ==> file_has_backup(file, (#[trigger] row[i])@)
    &&& forall|k: Seq<u8>| #[trigger] file_has_backup(file, k) ==> lists(row, k)
}

/// The rows, one after the other.
pub open spec fn joined(rows: Seq<Seq<Oid>>) -> Seq<Oid>
    decreases rows.len(),
{
    if rows.len() == 0 {
        Seq::<Oid>::empty()
    } else {
        joined(rows.drop_last()) + rows.last()
    }
}

/// Is the row made of a row for each file, file after file, each with the
/// backups of its file?  An object-id stands in it once for each file that
/// holds a backup under it.
pub open spec fn pool_row(files: Seq<ChunkFile>, row: Seq<Oid>) -> bool {
    exists|rows: Seq<Seq<Oid>>|
        {
            &&& #[trigger] joined(rows) == row
            &&& rows.len() == files.len()
            &&& forall|f: int| 0 <= f < files.len() ==> file_row(files[f], #[trigger] rows[f])
        }
}

#[derive(Debug)]
pub struct AdumpPool {
    base: String,
    uuid: u128,
    newfile: bool,
    limit: u32,
    // Have we ever written to this pool in this session?
    dirty: bool,
    cfiles: Vec<ChunkFile>,
    next_file: u32,
}

/// What adding a chunk to the pool takes.
#[derive(Debug)]
pub struct Added {
    /// Is the file one that is begun for this chunk?  Then it is to be made,
    /// open to read, write and append; it must not be there yet.
    pub created: bool,
    /// Which of the files of the pool takes the chunk: the last.
    pub file: usize,
    /// The serial number of that file.
    pub serial: u32,
    /// What is to be written to it.
    pub appended: Appended,
}

impl AdumpPool {
    /// The directory of the pool.
    pub closed spec fn spec_base(self) -> Seq<char> {
        self.base@
    }

    /// The identity of the pool.
    pub closed spec fn spec_uuid(self) -> u128 {
        self.uuid
    }

    /// Is each session to write a file of its own?
    pub closed spec fn spec_newfile(self) -> bool {
        self.newfile
    }

    /// How large a pool file may grow.
    pub closed spec fn spec_limit(self) -> u32 {
        self.limit
    }

    /// Has this session written to the pool?
    pub closed spec fn spec_dirty(self) -> bool {
        self.dirty
    }

    /// The files of the pool, in the order of their serial numbers.
    pub closed spec fn files(self) -> Seq<ChunkFile> {
        self.cfiles@
    }

    /// The serial number of the next file that is begun.
    pub closed spec fn spec_next_file(self) -> u32 {
        self.next_file
    }

    /// What the pool holds.
    pub open spec fn map(self) -> Map<Seq<u8>, IndexInfo> {
        files_map(self.files())
    }

    /// The files of every pool stand in the order of their serial numbers,
    /// and the next file that is begun gets the number after the last.
    #[verifier::type_invariant]
    pub closed spec fn wf(self) -> bool {
        in_order(self.cfiles@, self.next_file)
    }

    /// What holds of every pool.
    pub proof fn lemma_wf(self)
        requires
            self.wf(),
        ensures
            in_order(self.files(), self.spec_next_file()),
    {
    }

    /// Is this the pool `other`, but for its files?
    pub open spec fn same_but_files(self, other: AdumpPool) -> bool {
        &&& self.spec_base() == other.spec_base()
        &&& self.spec_uuid() == other.spec_uuid()
        &&& self.spec_newfile() == other.spec_newfile()
        &&& self.spec_limit() == other.spec_limit()
        &&& self.spec_dirty() == other.spec_dirty()
        &&& self.spec_next_file() == other.spec_next_file()
    }

    /// Is this the pool `other`, but for one of its files?
    pub open spec fn same_but_file(self, other: AdumpPool, file: int) -> bool {
        &&& self.same_but_files(other)
        &&& self.files().len() == other.files().len()
        &&& forall|i: int|
            0 <= i < other.files().len() && i != file ==> #[trigger] self.files()[i] == other.files()[i]
    }

    /// Is a frame of `len` bytes refused?  It is where it alone is larger
    /// than a pool file may be; where a file would have to be begun for it,
    /// and the serial numbers have run out; and where the last file, though
    /// within its limit, would grow larger than a pool file may be.
    pub open spec fn add_refused(self, len: nat) -> bool {
        ||| len > MAX_FILE_SIZE
        ||| self.rolls_over(len as u32) && self.spec_next_file() == u32::MAX
        ||| !self.rolls_over(len as u32) && self.files().last().spec_size() + len > MAX_FILE_SIZE
    }

    /// Does a chunk whose frame takes `size` bytes go to a new file?
    pub open spec fn rolls_over(self, size: u32) -> bool {
        ||| self.spec_newfile() && !self.spec_dirty()
        ||| self.files().len() == 0
        ||| self.files().last().spec_size() + size > self.spec_limit()
    }

    pub fn new_builder(dir: String) -> (r: PoolBuilder)
        ensures
            r.spec_dir() == dir@,
            r.spec_newfile() == false,
            r.spec_limit() == DEFAULT_LIMIT,
    {
        PoolBuilder::new(dir)
    }

    /// Take up a pool that is there, out of what its property file says and
    /// its files.  The files come in the order of their serial numbers, and
    /// `next_file` is the number after the last, or zero where there is no
    /// file: that is what `scan_backups` gives.
    pub fn open(base: String, props: PoolProps, cfiles: Vec<ChunkFile>, next_file: u32) -> (r:
        AdumpPool)
        requires
            in_order(cfiles@, next_file),
        ensures
            r.wf(),
            r.spec_base() == base@,
            r.spec_uuid() == props.uuid,
            r.spec_newfile() == props.newfile,
            r.spec_limit() == props.limit,
            !r.spec_dirty(),
            r.files() == cfiles@,
            r.spec_next_file() == next_file,
    {
        AdumpPool {
            base: base,
            uuid: props.uuid,
            newfile: props.newfile,
            limit: props.limit,
            dirty: false,
            cfiles: cfiles,
            next_file: next_file,
        }
    }

    /// Does a write of size 'size' need a new pool file?
    pub fn needs_new_file(&self, size: u32) -> (b: bool)
        ensures
            b == self.rolls_over(size),
    {
        // If we're configured in newfile mode, always write the new file.
        if self.newfile && !self.dirty {
            return true;
        }
        let n = self.cfiles.len();
        if n == 0 {
            true
        } else {
            self.cfiles[n - 1].size() as u64 + size as u64 > self.limit as u64
        }
    }

    /// Where the chunk of this object-id lies: in which of the files, and
    /// where in it.  The caller reads the frame at that place.
    pub fn find(&self, key: &Oid) -> (r: Result<(usize, IndexInfo), Error>)
        ensures
            match r {
                Ok((file, info)) => {
                    &&& file < self.files().len()
                    &&& self.files()[file as int].map().contains_key(key@)
                    &&& self.files()[file as int].map()[key@] == info
                    &&& forall|j: int| 0 <= j < file ==> !(#[trigger] self.files()[j]).map().contains_key(key@)
                    &&& self.map().contains_key(key@)
                    &&& self.map()[key@] == info
                },
                Err(e) => e is MissingChunk && !self.map().contains_key(key@),
            },
    {
        let mut i: usize = 0;
        while i < self.cfiles.len()
            invariant
                i <= self.cfiles@.len(),
                forall|j: int| 0 <= j < i ==> !(#[trigger] self.cfiles@[j]).map().contains_key(key@),
            decreases self.cfiles@.len() - i,
        {
            match self.cfiles[i].find(key) {
                None => {},
                Some(info) => {
                    proof {
                        lemma_files_map(self.cfiles@, key@);
                    }
                    return Ok((i, info));
                },
            }
            i += 1;
        }
        proof {
            lemma_files_map(self.cfiles@, key@);
        }
        Err(Error::MissingChunk)
    }

    pub fn contains_key(&self, key: &Oid) -> (b: bool)
        ensures
            b == self.map().contains_key(key@),
    {
        self.find(key).is_ok()
    }

    pub fn uuid(&self) -> (id: u128)
        ensures
            id == self.spec_uuid(),
    {
        self.uuid
    }

    /// The directory of the pool.
    pub fn base(&self) -> (r: &String)
        ensures
            r@ == self.spec_base(),
    {
        &self.base
    }

    /// How many files the pool has.
    pub fn file_count(&self) -> (n: usize)
        ensures
            n == self.files().len(),
    {
        self.cfiles.len()
    }

    /// One of the files of the pool.
    pub fn file(&self, i: usize) -> (r: &ChunkFile)
        requires
            i < self.files().len(),
        ensures
            *r == self.files()[i as int],
    {
        &self.cfiles[i]
    }

    /// The object-ids of the chunks of the kind "back": the heads of the
    /// backups that the pool holds.  File after file, each entry of an index
    /// once: an object-id is listed twice only where two files hold it.
    pub fn backups(&self) -> (r: Vec<Oid>)
        ensures
            pool_row(self.files(), r@),
            forall|i: int| 0 <= i < r@.len() ==> has_backup(self.files(), (#[trigger] r@[i])@),
            forall|k: Seq<u8>| #[trigger] has_backup(self.files(), k) ==> lists(r@, k),
            files_apart(self.files()) ==> listed_once(r@),
    {
        let mut result: Vec<Oid> = Vec::new();
        let ghost mut rows: Seq<Seq<Oid>> = Seq::empty();
        let mut f: usize = 0;
        while f < self.cfiles.len()
            invariant
                f <= self.cfiles@.len(),
                rows.len() == f,
                joined(rows) == result@,
                forall|g: int| 0 <= g < f ==> file_row(self.cfiles@[g], #[trigger] rows[g]),
                forall|i: int|
                    0 <= i < result@.len() ==> has_backup(
                        self.cfiles@.take(f as int),
                        (#[trigger] result@[i])@,
                    ),
                forall|k: Seq<u8>|
                    #[trigger] has_backup(self.cfiles@.take(f as int), k) ==> lists(result@, k),
                files_apart(self.cfiles@) ==> listed_once(result@),
            decreases self.cfiles@.len() - f,
        {
            let ghost before = result@;
            let ghost done = self.cfiles@.take(f as int);
            let ghost file = self.cfiles@[f as int];
            let found = backups_of(&self.cfiles[f]);
            let mut i: usize = 0;
            while i < found.len()
                invariant
                    i <= found@.len(),
                    result@ == before + found@.take(i as int),
                decreases found@.len() - i,
            {
                result.push(found[i]);
                i += 1;
                assert(result@ =~= before + found@.take(i as int));
            }
            proof {
                assert(found@.take(found@.len() as int) =~= found@);
                assert(rows.push(found@).drop_last() =~= rows);
                rows = rows.push(found@);
                let grown = self.cfiles@.take(f + 1);
                assert(grown.drop_last() =~= done);
                assert(grown.last() == file);
                assert forall|j: int| 0 <= j < result@.len() implies has_backup(
                    grown,
                    (#[trigger] result@[j])@,
                ) by {
                    if j < before.len() {
                        assert(result@[j] == before[j]);
                        let k = before[j]@;
                        let g = choose|g: int| 0 <= g < done.len() && file_has_backup(#[trigger] done[g], k);
                        assert(grown[g] == done[g]);
                        assert(file_has_backup(grown[g], k));
                    } else {
                        assert(result@[j] == found@[j - before.len()]);
                        assert(file_has_backup(grown[f as int], result@[j]@));
                    }
                }
                if files_apart(self.cfiles@) {
                    assert forall|x: int, y: int| 0 <= x < y < result@.len() implies (
                    #[trigger] result@[x])@ != (#[trigger] result@[y])@ by {
                        if y < before.len() {
                            assert(result@[x] == before[x] && result@[y] == before[y]);
                        } else if x >= before.len() {
                            assert(result@[x] == found@[x - before.len()]);
                            assert(result@[y] == found@[y - before.len()]);
                        } else {
                            assert(result@[x] == before[x]);
                            assert(result@[y] == found@[y - before.len()]);
                            let k = before[x]@;
                            assert(has_backup(done, k));
                            let g = choose|g: int|
                                0 <= g < done.len() && file_has_backup(#[trigger] done[g], k);
                            assert(done[g] == self.cfiles@[g]);
                            assert(file_has_backup(self.cfiles@[f as int], found@[y - before.len()]@));
                            if k == result@[y]@ {
                                assert(self.cfiles@[g].map().contains_key(k));
                                assert(self.cfiles@[f as int].map().contains_key(k));
                            }
                        }
                    }
                }
                assert forall|k: Seq<u8>| #[trigger] has_backup(grown, k) implies lists(result@, k) by {
                    let g = choose|g: int| 0 <= g < grown.len() && file_has_backup(#[trigger] grown[g], k);
                    if g < f {
                        assert(done[g] == grown[g]);
                        assert(has_backup(done, k));
                        let j = choose|j: int| 0 <= j < before.len() && (#[trigger] before[j])@ == k;
                        assert(result@[j]@ == k);
                    } else {
                        let j = choose|j: int| 0 <= j < found@.len() && (#[trigger] found@[j])@ == k;
                        assert(result@[before.len() + j]@ == k);
                    }
                }
            }
            f += 1;
        }
        assert(self.cfiles@.take(self.cfiles@.len() as int) =~= self.cfiles@);
        result
    }

    /// Begin allowing writing on this pool.  Nothing is to be done for it.
    pub fn begin_writing(&mut self)
        ensures
            *final(self) == *old(self),
    {
    }

    /// Plan the adding of a chunk to this pool.  The chunk goes to the last
    /// file, or to a file that is begun for it: where the pool has no file
    /// yet, where each session is to write a file of its own and this one has
    /// not written yet, and where the last file would grow beyond the limit.
    /// The pool knows nothing of the chunk until `added` is told that the
    /// frame has been written.
    pub fn add(&self, chunk: &mut Chunk) -> (r: Result<Added, Error>)
        ensures
            final(chunk).wf(),
            final(chunk).same_chunk(*old(chunk)),
            match r {
                Ok(done) => {
                    let frame = chunk_frame(*old(chunk))->0;
                    &&& chunk_frame(*old(chunk)) is Some
                    &&& !self.add_refused(frame.len())
                    &&& done.appended.frame@ == frame
                    &&& done.created == self.rolls_over(frame.len() as u32)
                    &&& done.file == self.files().len() - if done.created {
                        0int
                    } else {
                        1int
                    }
                    &&& done.serial == if done.created {
                        self.spec_next_file()
                    } else {
                        self.files().last().spec_serial()
                    }
                    &&& done.appended.offset == if done.created {
                        0
                    } else {
                        self.files().last().spec_size()
                    }
                    &&& done.created || done.appended.offset + frame.len() <= self.spec_limit()
                },
                Err(e) => match chunk_frame(*old(chunk)) {
                    None => e is CorruptChunk,
                    Some(frame) => e is CorruptPool && self.add_refused(frame.len()),
                },
            },
    {
        let size = match write_size(chunk) {
            Ok(n) => n,
            Err(e) => {
                return Err(e);
            },
        };
        if size > MAX_FILE_SIZE {
            return Err(Error::CorruptPool("chunk is too large for a pool file".to_owned()));
        }
        let count = self.cfiles.len();
        if self.needs_new_file(size) {
            if self.next_file == u32::MAX {
                return Err(Error::CorruptPool("pool has too many files".to_owned()));
            }
            let fresh = ChunkFile::create(self.next_file);
            match fresh.add(chunk) {
                Ok(appended) => Ok(
                    Added { created: true, file: count, serial: self.next_file, appended: appended },
                ),
                Err(e) => Err(e),
            }
        } else {
            let last = &self.cfiles[count - 1];
            match last.add(chunk) {
                Ok(appended) => Ok(
                    Added {
                        created: false,
                        file: count - 1,
                        serial: last.serial(),
                        appended: appended,
                    },
                ),
                Err(e) => Err(e),
            }
        }
    }

    /// The frame of a chunk, `len` bytes long, has been written as `add` has
    /// planned it: the pool knows the chunk from now on, and this session has
    /// written.  Where the frame went to a file that was begun for it, the
    /// pool has that file from now on, open for writing.  The pool must not
    /// know the object-id yet, and `add` must not have refused the frame.
    pub fn added(&mut self, oid: Oid, kind: Kind, len: u32)
        requires
            !old(self).map().contains_key(oid@),
            !old(self).add_refused(len as nat),
            old(self).files().len() < usize::MAX,
        ensures
            final(self).wf(),
            final(self).spec_base() == old(self).spec_base(),
            final(self).spec_uuid() == old(self).spec_uuid(),
            final(self).spec_newfile() == old(self).spec_newfile(),
            final(self).spec_limit() == old(self).spec_limit(),
            final(self).spec_dirty(),
            grown_by(*old(self), *final(self), oid@, kind, len),
            files_apart(old(self).files()) ==> files_apart(final(self).files()),
            final(self).map() == old(self).map().insert(
                oid@,
                IndexInfo {
                    offset: if old(self).rolls_over(len) {
                        0
                    } else {
                        old(self).files().last().spec_size()
                    },
                    kind: kind,
                },
            ),
    {
        proof {
            use_type_invariant(&*self);
            lemma_files_map(self.cfiles@, oid@);
        }
        let ghost before = *self;
        let rolled = self.needs_new_file(len);
        let mut taken = AdumpPool::blank();
        core::mem::swap(self, &mut taken);
        let AdumpPool { base, uuid, newfile, limit, dirty, mut cfiles, next_file } = taken;
        let ghost files0 = cfiles@;
        let mut cfile = if rolled {
            ChunkFile::create(next_file)
        } else {
            match cfiles.pop() {
                Some(cf) => cf,
                None => ChunkFile::create(next_file),
            }
        };
        let ghost rest = cfiles@;
        let ghost target = cfile;
        proof {
            if !rolled {
                assert(files0[files0.len() - 1] == target);
                assert(rest =~= files0.drop_last());
            }
        }
        cfile.appended(oid, kind, len);
        proof {
            lemma_add_to_last(rest, target, cfile, oid@, IndexInfo {
                offset: target.spec_size(),
                kind: kind,
            });
            if !rolled {
                assert(rest.push(target) =~= files0);
            }
            assert(rest.push(cfile).drop_last() =~= rest);
            assert forall|i: int, j: int| 0 <= i < j < rest.push(cfile).len() implies (
            #[trigger] rest.push(cfile)[i]).spec_serial() < (#[trigger] rest.push(cfile)[j]).spec_serial() by {
                if j < rest.len() {
                    assert(rest[i] == files0[i] && rest[j] == files0[j]);
                } else {
                    assert(rest[i] == files0[i]);
                    if rolled {
                        assert(files0[i].spec_serial() <= files0.last().spec_serial());
                    }
                }
            }
        }
        cfiles.push(cfile);
        *self = AdumpPool {
            base: base,
            uuid: uuid,
            newfile: newfile,
            limit: limit,
            dirty: true,
            cfiles: cfiles,
            next_file: if rolled { next_file + 1 } else { next_file },
        };
        proof {
            if files_apart(before.files()) {
                lemma_stays_apart(before, *self, oid@, kind, len);
            }
        }
    }

    /// A pool of no files, to stand in the place of one that is taken apart.
    fn blank() -> (r: AdumpPool)
        ensures
            r.wf(),
            r.files().len() == 0,
    {
        AdumpPool {
            base: String::new(),
            uuid: 0,
            newfile: false,
            limit: 0,
            dirty: false,
            cfiles: Vec::new(),
            next_file: 0,
        }
    }

    /// Put `cf` in the place of one of the files, and give that file in its
    /// stead.  The two are files of one serial number.
    fn swap_file(&mut self, file: usize, cf: &mut ChunkFile)
        requires
            file < old(self).files().len(),
            old(cf).spec_serial() == old(self).files()[file as int].spec_serial(),
        ensures
            final(self).wf(),
            final(self).same_but_file(*old(self), file as int),
            final(self).files()[file as int] == *old(cf),
            *final(cf) == old(self).files()[file as int],
    {
        proof {
            use_type_invariant(&*self);
        }
        let mut taken = AdumpPool::blank();
        core::mem::swap(self, &mut taken);
        let AdumpPool { base, uuid, newfile, limit, dirty, mut cfiles, next_file } = taken;
        let ghost files0 = cfiles@;
        core::mem::swap(&mut cfiles[file], cf);
        proof {
            assert forall|i: int, j: int| 0 <= i < j < cfiles@.len() implies (
            #[trigger] cfiles@[i]).spec_serial() < (#[trigger] cfiles@[j]).spec_serial() by {
                assert(cfiles@[i].spec_serial() == files0[i].spec_serial());
                assert(cfiles@[j].spec_serial() == files0[j].spec_serial());
            }
            assert(cfiles@.last().spec_serial() == files0.last().spec_serial());
        }
        *self = AdumpPool {
            base: base,
            uuid: uuid,
            newfile: newfile,
            limit: limit,
            dirty: dirty,
            cfiles: cfiles,
            next_file: next_file,
        };
    }

    /// Configure one of the files for reading: what is to be done before it
    /// can be read.  Where that fails, `read_failed` is to be told.
    pub fn read(&mut self, file: usize) -> (plan: ReadPlan)
        requires
            file < old(self).files().len(),
        ensures
            plan == match old(self).files()[file as int].mode() {
                ReadWriter::Closed => ReadPlan::Open,
                ReadWriter::Read => ReadPlan::Ready,
                ReadWriter::Write => ReadPlan::Flip,
            },
            final(self).wf(),
            final(self).same_but_file(*old(self), file as int),
            reopened_as(old(self).files()[file as int], final(self).files()[file as int], ReadWriter::Read),
    {
        let mut cf = ChunkFile::create(self.cfiles[file].serial());
        self.swap_file(file, &mut cf);
        let plan = cf.read();
        self.swap_file(file, &mut cf);
        plan
    }

    /// What was to be done before reading one of the files has failed: the
    /// file is left closed, and the error is made that tells of it.
    pub fn read_failed(&mut self, file: usize, plan: ReadPlan, detail: String) -> (e: Error)
        requires
            file < old(self).files().len(),
        ensures
            final(self).wf(),
            final(self).same_but_file(*old(self), file as int),
            reopened_as(
                old(self).files()[file as int],
                final(self).files()[file as int],
                ReadWriter::Closed,
            ),
            match plan {
                ReadPlan::Flip => e matches Error::CorruptPool(m) && m@ == "error flushing buffer: "@
                    + detail@,
                _ => e matches Error::Io(f) && !f.unexpected_eof && f.detail@ == detail@,
            },
    {
        let mut cf = ChunkFile::create(self.cfiles[file].serial());
        self.swap_file(file, &mut cf);
        let e = cf.read_failed(plan, detail);
        self.swap_file(file, &mut cf);
        e
    }

    /// Configure one of the files for writing: what is to be done before it
    /// can be written.  A broken file cannot be written.  Where what is to be
    /// done fails, `write_failed` is to be told.
    pub fn write(&mut self, file: usize) -> (plan: WritePlan)
        requires
            file < old(self).files().len(),
            !old(self).files()[file as int].broken(),
        ensures
            plan == if old(self).files()[file as int].mode() == ReadWriter::Write {
                WritePlan::Ready
            } else if old(self).files()[file as int].spec_writable() {
                WritePlan::Rewrap
            } else {
                WritePlan::Reopen
            },
            final(self).wf(),
            final(self).same_but_file(*old(self), file as int),
            reopened_as(old(self).files()[file as int], final(self).files()[file as int], ReadWriter::Write),
    {
        let mut cf = ChunkFile::create(self.cfiles[file].serial());
        self.swap_file(file, &mut cf);
        let plan = cf.write();
        self.swap_file(file, &mut cf);
        plan
    }

    /// What was to be done before writing one of the files has failed: the
    /// file is left closed.
    pub fn write_failed(&mut self, file: usize)
        requires
            file < old(self).files().len(),
        ensures
            final(self).wf(),
            final(self).same_but_file(*old(self), file as int),
            reopened_as(
                old(self).files()[file as int],
                final(self).files()[file as int],
                ReadWriter::Closed,
            ),
    {
        let mut cf = ChunkFile::create(self.cfiles[file].serial());
        self.swap_file(file, &mut cf);
        cf.write_failed();
        self.swap_file(file, &mut cf);
    }

    /// Plan the flushing of the pool: what is to be done for each file, from
    /// the first on.  A file whose index has not changed has nothing written
    /// for it, so that a second flush finds nothing to do.  The plan stops at
    /// a file whose index has more entries than an index file can count;
    /// nothing else keeps a file from being flushed.  After the index file of
    /// a file has been installed, `flushed` is to be told.
    pub fn flush(&self) -> (r: PoolFlushed)
        ensures
            r.done@.len() <= self.files().len(),
            r.failed is None <==> r.done@.len() == self.files().len(),
            forall|i: int| 0 <= i < r.done@.len() ==> planned_as(#[trigger] self.files()[i], r.done@[i]),
            r.failed matches Some(e) ==> {
                &&& e is InvalidIndex
                &&& self.files()[r.done@.len() as int].index().dirty()
                &&& self.files()[r.done@.len() as int].index().count() > u32::MAX
            },
    {
        let mut done: Vec<Flushed> = Vec::new();
        let mut i: usize = 0;
        while i < self.cfiles.len()
            invariant
                i <= self.cfiles@.len(),
                done@.len() == i,
                forall|j: int| 0 <= j < i ==> planned_as(#[trigger] self.cfiles@[j], done@[j]),
            decreases self.cfiles@.len() - i,
        {
            match self.cfiles[i].flush() {
                Ok(f) => {
                    done.push(f);
                },
                Err(e) => {
                    return PoolFlushed { done: done, failed: Some(e) };
                },
            }
            i += 1;
        }
        PoolFlushed { done: done, failed: None }
    }

    /// The index file of one of the files has been installed with these
    /// bytes: the index of the file is read back out of them.  Where the
    /// bytes are refused, nothing has changed.  With the bytes that `flush`
    /// has given for the file, the pool holds what it held.
    pub fn flushed(&mut self, file: usize, bytes: &[u8]) -> (r: Result<(), Error>)
        requires
            file < old(self).files().len(),
        ensures
            final(self).wf(),
            final(self).same_but_file(*old(self), file as int),
            flushed_as(old(self).files()[file as int], final(self).files()[file as int], bytes@, r),
            r is Err ==> final(self).map() == old(self).map(),
            written_for(
                old(self).files()[file as int].map(),
                old(self).files()[file as int].spec_size(),
                bytes@,
            ) && fits_index(old(self).files()[file as int].map()) ==> r is Ok && final(self).map() == old(
                self,
            ).map(),
    {
        let ghost before = self.cfiles@;
        let mut cf = ChunkFile::create(self.cfiles[file].serial());
        self.swap_file(file, &mut cf);
        let r = cf.flushed(bytes);
        self.swap_file(file, &mut cf);
        proof {
            let after = self.cfiles@;
            if after[file as int].map() == before[file as int].map() {
                assert forall|i: int| 0 <= i < before.len() implies (#[trigger] after[i]).map()
                    == before[i].map() by {}
                lemma_same_maps(before, after);
            }
        }
        r
    }
}

/// Is `after` the pool `before` when it has taken the chunk of this object-id
/// and kind, whose frame is `len` bytes long?  The chunk went to the last
/// file, or to a file that was begun for it under the next serial number.
pub open spec fn grown_by(before: AdumpPool, after: AdumpPool, oid: Seq<u8>, kind: Kind, len: u32) -> bool {
    let rolled = before.rolls_over(len);
    let last = after.files().last();
    &&& after.files().len() == before.files().len() + if rolled {
        1int
    } else {
        0int
    }
    &&& after.files().drop_last() == if rolled {
        before.files()
    } else {
        before.files().drop_last()
    }
    &&& last.index().dirty()
    &&& if rolled {
        &&& last.spec_serial() == before.spec_next_file()
        &&& after.spec_next_file() == before.spec_next_file() + 1
        &&& last.mode() == ReadWriter::Write
        &&& last.spec_writable()
        &&& last.spec_size() == len
        &&& last.index().count() == 1
        &&& last.map() == Map::<Seq<u8>, IndexInfo>::empty().insert(
            oid,
            IndexInfo { offset: 0, kind: kind },
        )
    } else {
        let was = before.files().last();
        &&& after.spec_next_file() == before.spec_next_file()
        &&& last.spec_serial() == was.spec_serial()
        &&& last.mode() == was.mode()
        &&& last.spec_writable() == was.spec_writable()
        &&& last.spec_size() == was.spec_size() + len
        &&& last.index().count() == was.index().count() + 1
        &&& last.map() == was.map().insert(oid, IndexInfo { offset: was.spec_size(), kind: kind })
    }
}

/// Is `after` the file `before`, held open in the way `mode`?
pub open spec fn reopened_as(before: ChunkFile, after: ChunkFile, mode: ReadWriter) -> bool {
    &&& after.mode() == mode
    &&& after.index() == before.index()
    &&& after.spec_serial() == before.spec_serial()
    &&& after.spec_size() == before.spec_size()
    &&& after.spec_writable() == before.spec_writable()
}

/// What flushing a pool takes.
#[derive(Debug)]
pub struct PoolFlushed {
    /// What is to be done for each file, from the first on.
    pub done: Vec<Flushed>,
    /// Why the file that follows those cannot be flushed, if one cannot.  The
    /// files behind it have not been looked at.
    pub failed: Option<Error>,
}

/// Is `done` what is to be done to flush the file?
pub open spec fn planned_as(file: ChunkFile, done: Flushed) -> bool {
    &&& done.flush_writer == (file.mode() == ReadWriter::Write)
    &&& match done.index {
        None => !file.index().dirty(),
        Some(bytes) => {
            &&& file.index().dirty()
            &&& file.index().count() <= u32::MAX
            &&& written_for(file.map(), file.spec_size(), bytes@)
        },
    }
}

/// Is `after` the file `before` when it has been told that its index file was
/// installed with these bytes, and `r` what it answered?
pub open spec fn flushed_as(before: ChunkFile, after: ChunkFile, bytes: Seq<u8>, r: Result<(), Error>) -> bool {
    &&& after.spec_serial() == before.spec_serial()
    &&& after.spec_writable() == before.spec_writable()
    &&& after.mode() == before.mode()
    &&& after.spec_size() == before.spec_size()
    &&& match r {
        Ok(()) => {
            &&& load_fault(bytes, before.spec_size()) is None
            &&& after.map() == image_map(image_of(bytes))
            &&& !after.index().dirty()
        },
        Err(e) => {
            &&& load_fault(bytes, before.spec_size()) matches Some(f) && fault_is(e, f)
            &&& after == before
        },
    }
    &&& written_for(before.map(), before.spec_size(), bytes) && fits_index(before.map()) ==> r is Ok
        && after.map() == before.map()
}

/// The row at place `at` of a table in which no object-id stands twice is
/// what the map of the table says of that object-id.
pub proof fn lemma_row_of_distinct(oids: Seq<Seq<u8>>, infos: Seq<IndexInfo>, at: int)
    requires
        0 <= at < oids.len(),
        forall|a: int, b: int| 0 <= a < oids.len() && 0 <= b < oids.len() && a != b ==> oids[a] != oids[b],
    ensures
        table_map(oids, infos).contains_key(oids[at]),
        table_map(oids, infos)[oids[at]] == infos[at],
{
    assert(key_at(oids, oids[at], at));
    let c = choose|c: int| key_at(oids, oids[at], c);
    assert(c == at);
}

/// Where the last file takes an object-id that no file holds, the pool holds
/// it from then on, and nothing else has changed.
pub proof fn lemma_add_to_last(
    rest: Seq<ChunkFile>,
    before: ChunkFile,
    after: ChunkFile,
    key: Seq<u8>,
    info: IndexInfo,
)
    requires
        after.map() == before.map().insert(key, info),
        !files_map(rest).contains_key(key),
    ensures
        files_map(rest.push(after)) == files_map(rest.push(before)).insert(key, info),
{
    assert(rest.push(after).drop_last() =~= rest);
    assert(rest.push(before).drop_last() =~= rest);
    assert(files_map(rest.push(after)) =~= files_map(rest.push(before)).insert(key, info));
}

/// A pool in which no object-id stands in two files stays so when it takes
/// an object-id that it does not hold.
pub proof fn lemma_stays_apart(before: AdumpPool, after: AdumpPool, oid: Seq<u8>, kind: Kind, len: u32)
    requires
        grown_by(before, after, oid, kind, len),
        !before.map().contains_key(oid),
        files_apart(before.files()),
    ensures
        files_apart(after.files()),
{
    let was = before.files();
    let now = after.files();
    let n = now.len() as int;
    let rolled = before.rolls_over(len);
    lemma_files_map(was, oid);
    assert forall|f: int, g: int, k: Seq<u8>| 0 <= f < g < now.len() implies !(
    #[trigger] now[f].map().contains_key(k) && #[trigger] now[g].map().contains_key(k)) by {
        assert(now[f] == now.drop_last()[f]);
        if rolled {
            assert(now[f] == was[f]);
            if g < n - 1 {
                assert(now[g] == now.drop_last()[g]);
                assert(now[g] == was[g]);
            }
        } else {
            assert(now[f] == was.drop_last()[f]);
            assert(now[f] == was[f]);
            if g < n - 1 {
                assert(now[g] == now.drop_last()[g]);
                assert(now[g] == was.drop_last()[g]);
                assert(now[g] == was[g]);
            } else if k != oid && now[g].map().contains_key(k) {
                assert(was[n - 1].map().contains_key(k));
            }
        }
    }
}

/// Is `serial` the serial number that one of the names states?
pub open spec fn names_state(names: Seq<String>, serial: u32) -> bool {
    exists|i: int| 0 <= i < names.len() && serial_of(encode_utf8((#[trigger] names[i])@)) == Some(serial)
}

/// One name more states one serial number more, if it states one.
pub proof fn lemma_names_state_grows(names: Seq<String>, i: int, s: u32)
    requires
        0 <= i < names.len(),
    ensures
        names_state(names.take(i + 1), s) <==> names_state(names.take(i), s) || serial_of(
            encode_utf8(names[i]@),
        ) == Some(s),
{
    let seen = names.take(i);
    let grown = names.take(i + 1);
    if names_state(seen, s) {
        let a = choose|a: int| 0 <= a < seen.len() && serial_of(encode_utf8((#[trigger] seen[a])@)) == Some(s);
        assert(grown[a] == seen[a]);
    }
    if serial_of(encode_utf8(names[i]@)) == Some(s) {
        assert(grown[i] == names[i]);
    }
    if names_state(grown, s) {
        let a = choose|a: int|
            0 <= a < grown.len() && serial_of(encode_utf8((#[trigger] grown[a])@)) == Some(s);
        if a < i {
            assert(seen[a] == grown[a]);
        }
    }
}

/// Scan the names of a directory for pool files.  This gives the serial
/// numbers of the pool files, in ascending order, and the serial number of
/// the next file that is begun: one more than the largest, and zero where
/// there is no pool file yet.
pub fn scan_backups(names: &Vec<String>) -> (r: (Vec<u32>, u32))
    ensures
        rising(r.0@),
        forall|s: u32| #[trigger] r.0@.contains(s) <==> names_state(names@, s),
        r.1 == if r.0@.len() == 0 { 0 } else { r.0@.last() + 1 },
{
    let mut serials: Vec<u32> = Vec::new();
    let mut i: usize = 0;
    assert forall|s: u32| !names_state(names@.take(0), s) by {}
    while i < names.len()
        invariant
            i <= names@.len(),
            rising(serials@),
            forall|s: u32| #[trigger] serials@.contains(s) ==> s < 10000,
            forall|s: u32| #[trigger] serials@.contains(s) <==> names_state(names@.take(i as int), s),
        decreases names@.len() - i,
    {
        let ghost was = serials@;
        let found = pool_serial(names[i].as_str());
        proof {
            lemma_serial_is_small(encode_utf8(names@[i as int]@));
        }
        if let Some(serial) = found {
            put_number(&mut serials, serial);
        }
        proof {
            assert forall|s: u32| #[trigger] serials@.contains(s) <==> names_state(
                names@.take(i + 1),
                s,
            ) by {
                lemma_names_state_grows(names@, i as int, s);
                assert(was.contains(s) <==> names_state(names@.take(i as int), s));
            }
        }
        i += 1;
    }
    assert(names@.take(names@.len() as int) =~= names@);
    let n = serials.len();
    let next = if n == 0 {
        0
    } else {
        assert(serials@.contains(serials@[n - 1]));
        serials[n - 1] + 1
    };
    (serials, next)
}

/// The kinds of pool that a directory may hold.
#[derive(Debug, Clone, Copy, PartialEq, Eq)]
pub enum Layout {
    /// The older pool, of a database `data.db` and blobs beside it.
    Sql,
    /// The pool of append-only files, with `metadata/props.txt`.
    Adump,
}

/// Tell the kind of pool that a directory holds from what stands in it: a
/// file `data.db` makes it the older pool, whatever else is there; a file
/// `metadata/props.txt` makes it the pool of append-only files.  Any other
/// directory is no pool.
pub fn select(has_data_db: bool, has_props: bool) -> (r: Result<Layout, Error>)
    ensures
        match r {
            Ok(Layout::Sql) => has_data_db,
            Ok(Layout::Adump) => !has_data_db && has_props,
            Err(e) => e is NotAPool && !has_data_db && !has_props,
        },
{
    if has_data_db {
        Ok(Layout::Sql)
    } else if has_props {
        Ok(Layout::Adump)
    } else {
        Err(Error::NotAPool)
    }
}

} // verus!
