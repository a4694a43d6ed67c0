//! What a pool keeps: the frames in its data files, found again through its
//! indexes.
//!
//! The data files are the caller's.  What is stated here is stated of their
//! bytes: that a pool whose frames were written as it planned them names, for
//! every object-id that it holds, the place of a frame that is read back as
//! the chunk that was put in.

use vstd::prelude::*;
use crate::chunk::Chunk;
use crate::pool::Held;
use super::cfile::ChunkFile;
use super::chunkio::{
    chunk_frame, frame_fault, frame_holds, lemma_chunk_round_trip, lemma_frame_is_taken,
};
use super::index::IndexInfo;
use crate::kind::Kind;
use super::{files_map, grown_by, lemma_files_map, AdumpPool};

verus! {

/// Does the frame of the chunk `c`, a genuine chunk of a well-formed kind,
/// stand at the offset `at` of the data?
pub open spec fn framed_at(data: Seq<u8>, at: int, c: Chunk) -> bool {
    &&& c.wf()
    &&& c.genuine()
    &&& c.spec_kind().wf()
    &&& 0 <= at
    &&& chunk_frame(c) matches Some(frame) && at + frame.len() <= data.len() && data.subrange(
        at,
        at + frame.len(),
    ) == frame
}

/// Does the frame of a chunk of this object-id stand where the index says,
/// and is the chunk of the kind and the payload that are held under the
/// object-id?
pub open spec fn kept_at(data: Seq<u8>, info: IndexInfo, key: Seq<u8>, held: Held) -> bool {
    exists|c: Chunk|
        {
            &&& #[trigger] framed_at(data, info.offset as int, c)
            &&& c.spec_oid()@ == key
            &&& c.spec_kind() == info.kind
            &&& c.spec_kind() == held.kind
            &&& c.payload() == Some(held.data)
        }
}

/// Does the data file keep what the index of the file names: for each
/// object-id the frame of the chunk that is held under it?
pub open spec fn file_keeps(file: ChunkFile, data: Seq<u8>, held: Map<Seq<u8>, Held>) -> bool {
    &&& data.len() == file.spec_size()
    &&& forall|k: Seq<u8>| #[trigger]
        file.map().contains_key(k) ==> held.contains_key(k) && kept_at(data, file.map()[k], k, held[k])
}

/// Do the data files, one for each file of the pool, keep what the pool
/// names, and does the pool name all that is held?
pub open spec fn pool_keeps(pool: AdumpPool, disk: Seq<Seq<u8>>, held: Map<Seq<u8>, Held>) -> bool {
    &&& disk.len() == pool.files().len()
    &&& forall|i: int| 0 <= i < disk.len() ==> file_keeps(#[trigger] pool.files()[i], disk[i], held)
    &&& forall|k: Seq<u8>| #[trigger] held.contains_key(k) ==> pool.map().contains_key(k)
}

/// The data files after a frame has been written as the pool planned it:
/// behind the last file, or as a file of its own where the pool begins one.
pub open spec fn disk_with(disk: Seq<Seq<u8>>, rolled: bool, frame: Seq<u8>) -> Seq<Seq<u8>> {
    if rolled {
        disk.push(frame)
    } else {
        disk.drop_last().push(disk.last() + frame)
    }
}

/// A pool without files keeps nothing, on a disk without data files.
pub proof fn lemma_empty_keeps(pool: AdumpPool)
    requires
        pool.files().len() == 0,
    ensures
        pool_keeps(pool, Seq::<Seq<u8>>::empty(), Map::<Seq<u8>, Held>::empty()),
{
}

/// A frame that is written behind the data keeps what the file kept, and
/// the chunk of the frame as well.
pub proof fn lemma_file_takes(
    before: ChunkFile,
    after: ChunkFile,
    data: Seq<u8>,
    held: Map<Seq<u8>, Held>,
    c: Chunk,
)
    requires
        file_keeps(before, data, held),
        c.wf(),
        c.genuine(),
        c.spec_kind().wf(),
        chunk_frame(c) is Some,
        after.spec_size() == before.spec_size() + chunk_frame(c)->0.len(),
        after.map() == before.map().insert(
            c.spec_oid()@,
            IndexInfo { offset: before.spec_size(), kind: c.spec_kind() },
        ),
        !before.map().contains_key(c.spec_oid()@),
    ensures
        file_keeps(
            after,
            data + chunk_frame(c)->0,
            held.insert(c.spec_oid()@, Held { kind: c.spec_kind(), data: c.payload()->0 }),
        ),
{
    let frame = chunk_frame(c)->0;
    let grown = data + frame;
    let oid = c.spec_oid()@;
    let now = held.insert(oid, Held { kind: c.spec_kind(), data: c.payload()->0 });
    assert forall|k: Seq<u8>| #[trigger] after.map().contains_key(k) implies now.contains_key(k)
        && kept_at(grown, after.map()[k], k, now[k]) by {
        if k == oid {
            assert(grown.subrange(data.len() as int, data.len() as int + frame.len()) =~= frame);
            assert(framed_at(grown, after.map()[k].offset as int, c));
        } else {
            let info = before.map()[k];
            let was = choose|was: Chunk|
                {
                    &&& #[trigger] framed_at(data, info.offset as int, was)
                    &&& was.spec_oid()@ == k
                    &&& was.spec_kind() == info.kind
                    &&& was.spec_kind() == held[k].kind
                    &&& was.payload() == Some(held[k].data)
                };
            let f = chunk_frame(was)->0;
            assert(grown.subrange(info.offset as int, info.offset + f.len()) =~= data.subrange(
                info.offset as int,
                info.offset + f.len(),
            ));
            assert(framed_at(grown, info.offset as int, was));
        }
    }
}

/// What a file keeps does not depend on what else is held.
pub proof fn lemma_file_keeps_on(file: ChunkFile, data: Seq<u8>, held: Map<Seq<u8>, Held>, key: Seq<u8>, h: Held)
    requires
        file_keeps(file, data, held),
        !file.map().contains_key(key),
    ensures
        file_keeps(file, data, held.insert(key, h)),
{
    let now = held.insert(key, h);
    assert forall|k: Seq<u8>| #[trigger] file.map().contains_key(k) implies now.contains_key(k)
        && kept_at(data, file.map()[k], k, now[k]) by {
        assert(now[k] == held[k]);
    }
}

/// A pool that has taken a chunk names what it named before, and the
/// object-id of the chunk.
pub proof fn lemma_takes_name(before: AdumpPool, after: AdumpPool, oid: Seq<u8>, kind: Kind, len: u32)
    requires
        grown_by(before, after, oid, kind, len),
    ensures
        forall|k: Seq<u8>| #[trigger]
            after.map().contains_key(k) <==> k == oid || before.map().contains_key(k),
{
    let was = before.files();
    let files = after.files();
    if !before.rolls_over(len) {
        assert(was.len() > 0);
    }
    assert forall|k: Seq<u8>| #[trigger]
        after.map().contains_key(k) <==> k == oid || before.map().contains_key(k) by {
        assert(after.map() == files.last().map().union_prefer_right(files_map(files.drop_last())));
    }
}

/// The files of a pool that has taken a chunk, with the frame of the chunk
/// written where the pool planned it, keep the chunk and all that they kept
/// before.
pub proof fn lemma_takes_frame(
    before: AdumpPool,
    after: AdumpPool,
    disk: Seq<Seq<u8>>,
    held: Map<Seq<u8>, Held>,
    c: Chunk,
    len: u32,
    i: int,
)
    requires
        pool_keeps(before, disk, held),
        c.wf(),
        c.genuine(),
        c.spec_kind().wf(),
        chunk_frame(c) matches Some(frame) && frame.len() == len,
        !before.map().contains_key(c.spec_oid()@),
        grown_by(before, after, c.spec_oid()@, c.spec_kind(), len),
        0 <= i < after.files().len(),
    ensures
        file_keeps(
            after.files()[i],
            disk_with(disk, before.rolls_over(len), chunk_frame(c)->0)[i],
            held.insert(c.spec_oid()@, Held { kind: c.spec_kind(), data: c.payload()->0 }),
        ),
{
    let frame = chunk_frame(c)->0;
    let oid = c.spec_oid()@;
    let rolled = before.rolls_over(len);
    let h = Held { kind: c.spec_kind(), data: c.payload()->0 };
    let now = held.insert(oid, h);
    let grown = disk_with(disk, rolled, frame);
    let was = before.files();
    let files = after.files();
    let n = files.len() as int;
    lemma_files_map(was, oid);
    if i < n - 1 {
        assert(files[i] == files.drop_last()[i]);
        if rolled {
            assert(files[i] == was[i]);
        } else {
            assert(files[i] == was.drop_last()[i]);
            assert(files[i] == was[i]);
        }
        assert(file_keeps(was[i], disk[i], held));
        lemma_file_keeps_on(was[i], disk[i], held, oid, h);
    } else if rolled {
        assert(files[i] == files.last());
        assert(grown[i] == frame);
        assert forall|k: Seq<u8>| #[trigger] files[i].map().contains_key(k) implies now.contains_key(k)
            && kept_at(grown[i], files[i].map()[k], k, now[k]) by {
            assert(k == oid);
            assert(files[i].map()[k] == IndexInfo { offset: 0, kind: c.spec_kind() });
            assert(frame.subrange(0, frame.len() as int) =~= frame);
            let info = files[i].map()[k];
            assert(framed_at(grown[i], info.offset as int, c));
            assert(c.payload() == Some(h.data));
            assert(now.contains_key(k) && now[k] == h);
            assert(kept_at(grown[i], info, k, now[k]));
        }
    } else {
        assert(was.len() > 0);
        assert(files[i] == files.last());
        assert(was.last() == was[n - 1]);
        assert(file_keeps(was[n - 1], disk[n - 1], held));
        lemma_file_takes(was[n - 1], files[i], disk[n - 1], held, c);
    }
}

/// A pool that has taken a chunk, with the frame of the chunk written where
/// the pool planned it, keeps the chunk and all that it kept before.
pub proof fn lemma_pool_takes(
    before: AdumpPool,
    after: AdumpPool,
    disk: Seq<Seq<u8>>,
    held: Map<Seq<u8>, Held>,
    c: Chunk,
    len: u32,
)
    requires
        pool_keeps(before, disk, held),
        c.wf(),
        c.genuine(),
        c.spec_kind().wf(),
        chunk_frame(c) matches Some(frame) && frame.len() == len,
        !before.map().contains_key(c.spec_oid()@),
        grown_by(before, after, c.spec_oid()@, c.spec_kind(), len),
    ensures
        pool_keeps(
            after,
            disk_with(disk, before.rolls_over(len), chunk_frame(c)->0),
            held.insert(c.spec_oid()@, Held { kind: c.spec_kind(), data: c.payload()->0 }),
        ),
{
    let now = held.insert(c.spec_oid()@, Held { kind: c.spec_kind(), data: c.payload()->0 });
    let grown = disk_with(disk, before.rolls_over(len), chunk_frame(c)->0);
    if !before.rolls_over(len) {
        assert(before.files().len() > 0);
    }
    assert forall|i: int| 0 <= i < grown.len() implies file_keeps(
        #[trigger] after.files()[i],
        grown[i],
        now,
    ) by {
        lemma_takes_frame(before, after, disk, held, c, len, i);
    }
    lemma_takes_name(before, after, c.spec_oid()@, c.spec_kind(), len);
}

/// Files that hold the same, one by one, hold the same together.
pub proof fn lemma_same_maps(a: Seq<ChunkFile>, b: Seq<ChunkFile>)
    requires
        a.len() == b.len(),
        forall|i: int| 0 <= i < a.len() ==> (#[trigger] b[i]).map() == a[i].map(),
    ensures
        files_map(a) == files_map(b),
    decreases a.len(),
{
    if a.len() > 0 {
        assert forall|i: int| 0 <= i < a.drop_last().len() implies (#[trigger] b.drop_last()[i]).map()
            == a.drop_last()[i].map() by {
            assert(b.drop_last()[i] == b[i]);
            assert(a.drop_last()[i] == a[i]);
        }
        lemma_same_maps(a.drop_last(), b.drop_last());
        assert(b.last() == b[b.len() - 1]);
        assert(a.last() == a[a.len() - 1]);
    }
}

/// A pool keeps what it kept when its files are taken up again with the
/// same indexes and sizes, as they are after a flush and when the pool is
/// opened anew.
pub proof fn lemma_pool_keeps_on(
    before: AdumpPool,
    after: AdumpPool,
    disk: Seq<Seq<u8>>,
    held: Map<Seq<u8>, Held>,
)
    requires
        pool_keeps(before, disk, held),
        after.files().len() == before.files().len(),
        forall|i: int|
            0 <= i < before.files().len() ==> (#[trigger] after.files()[i]).map()
                == before.files()[i].map() && after.files()[i].spec_size()
                == before.files()[i].spec_size(),
    ensures
        pool_keeps(after, disk, held),
        after.map() == before.map(),
{
    lemma_same_maps(before.files(), after.files());
    assert forall|i: int| 0 <= i < disk.len() implies file_keeps(#[trigger] after.files()[i], disk[i], held) by {
        assert(file_keeps(before.files()[i], disk[i], held));
    }
}

/// What the pool finds under an object-id is the place of a frame that is
/// not refused, and that is read back as the chunk that is held under the
/// object-id: of that object-id, kind and payload.
pub proof fn lemma_found_is_kept(
    pool: AdumpPool,
    disk: Seq<Seq<u8>>,
    held: Map<Seq<u8>, Held>,
    key: Seq<u8>,
    file: int,
    back: Chunk,
)
    requires
        pool_keeps(pool, disk, held),
        0 <= file < pool.files().len(),
        pool.files()[file].map().contains_key(key),
    ensures
        held.contains_key(key),
        pool.files()[file].map()[key].offset <= disk[file].len(),
        frame_fault(disk[file].skip(pool.files()[file].map()[key].offset as int)) is None,
        back.wf() && frame_holds(disk[file].skip(pool.files()[file].map()[key].offset as int), back) ==> {
            &&& back.spec_oid()@ == key
            &&& back.spec_kind() == held[key].kind
            &&& back.payload() == Some(held[key].data)
        },
{
    let data = disk[file];
    let info = pool.files()[file].map()[key];
    assert(file_keeps(pool.files()[file], data, held));
    let c = choose|c: Chunk|
        {
            &&& #[trigger] framed_at(data, info.offset as int, c)
            &&& c.spec_oid()@ == key
            &&& c.spec_kind() == info.kind
            &&& c.spec_kind() == held[key].kind
            &&& c.payload() == Some(held[key].data)
        };
    let frame = chunk_frame(c)->0;
    let more = data.skip(info.offset + frame.len());
    assert(data.skip(info.offset as int) =~= frame + more);
    lemma_frame_is_taken(c, more);
    if back.wf() && frame_holds(data.skip(info.offset as int), back) {
        lemma_chunk_round_trip(c, more, back);
    }
}

} // verus!
