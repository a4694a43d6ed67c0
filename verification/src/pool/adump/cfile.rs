//! One file of the pool: what is known of it, and how it is held open.

use vstd::prelude::*;
use vstd::string::*;
use crate::chunk::Chunk;
use crate::error::{Error, IoFailure};
use crate::kind::Kind;
use crate::oid::Oid;
use crate::text::ascii_chars;
use super::chunkio::{chunk_frame, ChunkWrite};
use super::index::format::{
    distinct_oids, fault_is, image_for, image_map, image_of, index_bytes, item_infos, item_kinds,
    item_map, item_oids, kind_table, lemma_index_round_trip, lemma_kind_table, load_fault,
};
use super::index::{
    ascending, lemma_table_map_len, lemma_table_map_row, Index, IndexInfo, IndexUpdate, IterItem,
    PairIndex,
};
use super::names::{data_name, index_name, pool_file_name, pool_index_name};
use super::MAX_FILE_SIZE;

verus! {

/// How a pool file is held open, if it is.
#[derive(Debug, Clone, Copy, PartialEq, Eq)]
pub enum ReadWriter {
    /// It is not open.
    Closed,
    /// It is open behind a buffer for reading.
    Read,
    /// It is open behind a buffer for writing.
    Write,
}

/// What is to be done to a pool file before it can be read.
#[derive(Debug, Clone, Copy, PartialEq, Eq)]
pub enum ReadPlan {
    /// Open it for reading.
    Open,
    /// Nothing: it is open for reading.
    Ready,
    /// Write out what the buffer for writing holds, and put a buffer for
    /// reading round the same descriptor.
    Flip,
}

/// What is to be done to a pool file before it can be written.
#[derive(Debug, Clone, Copy, PartialEq, Eq)]
pub enum WritePlan {
    /// Nothing: it is open for writing.
    Ready,
    /// The descriptor can write: put a buffer for writing round it.
    Rewrap,
    /// Close the file if it is open, and open it again to read, write and
    /// append.
    Reopen,
}

/// Do the entries, which come in ascending order, stand for the map `m`?
pub open spec fn stands_for(sorted: Seq<IterItem<'static>>, m: Map<Seq<u8>, IndexInfo>) -> bool {
    item_map(sorted) == m && ascending(item_oids(sorted)) && sorted.len() <= u32::MAX
}

/// Are these the bytes of the index file that is written for the map `m`
/// and a pool file of `size` bytes: the file of entries in ascending order
/// that stand for `m`?
pub open spec fn written_for(m: Map<Seq<u8>, IndexInfo>, size: u32, bytes: Seq<u8>) -> bool {
    exists|sorted: Seq<IterItem<'static>>|
        #[trigger] stands_for(sorted, m) && bytes == index_bytes(size, image_for(sorted))
}

/// Can an index file tell the kinds of the entries apart?  It can where
/// each kind is well formed and the kinds are 256 at most.
pub open spec fn kinds_fit(sorted: Seq<IterItem<'static>>) -> bool {
    &&& forall|i: int| 0 <= i < sorted.len() ==> (#[trigger] sorted[i]).kind.wf()
    &&& kind_table(item_kinds(sorted)).len() <= 256
}

/// Can an index file hold the map `m`, kinds and all?
pub open spec fn fits_index(m: Map<Seq<u8>, IndexInfo>) -> bool {
    forall|sorted: Seq<IterItem<'static>>| #[trigger] stands_for(sorted, m) ==> kinds_fit(sorted)
}

/// The index file that is written for a map is read back as that map, by a
/// reader that expects a pool file of the size that was written into it, and
/// has one entry for each object-id of the map.  This holds where an index
/// file can hold the map.
pub proof fn lemma_written_is_read(m: Map<Seq<u8>, IndexInfo>, size: u32, bytes: Seq<u8>)
    requires
        written_for(m, size, bytes),
        fits_index(m),
    ensures
        load_fault(bytes, size) is None,
        image_map(image_of(bytes)) == m,
        m.dom().finite(),
        image_of(bytes).oids.len() == m.dom().len(),
{
    let sorted = choose|sorted: Seq<IterItem<'static>>|
        #[trigger] stands_for(sorted, m) && bytes == index_bytes(size, image_for(sorted));
    lemma_index_round_trip(size, sorted);
    lemma_table_map_len(item_oids(sorted), item_infos(sorted));
}

/// An index file can hold a map whose kinds are all among 256 well-formed
/// kinds, or fewer.
pub proof fn lemma_fits_index(m: Map<Seq<u8>, IndexInfo>, kinds: Seq<Kind>)
    requires
        kinds.len() <= 256,
        forall|j: int| 0 <= j < kinds.len() ==> (#[trigger] kinds[j]).wf(),
        forall|k: Seq<u8>| #[trigger] m.contains_key(k) ==> kinds.contains(m[k].kind),
    ensures
        fits_index(m),
{
    assert forall|sorted: Seq<IterItem<'static>>| #[trigger] stands_for(sorted, m) implies kinds_fit(
        sorted,
    ) by {
        let col = item_kinds(sorted);
        let oids = item_oids(sorted);
        let table = kind_table(col);
        assert forall|i: int| 0 <= i < sorted.len() implies kinds.contains(#[trigger] col[i]) by {
            lemma_table_map_row(oids, item_infos(sorted), i);
            assert(m.contains_key(oids[i]));
            assert(m[oids[i]].kind == sorted[i].kind);
        }
        assert forall|i: int| 0 <= i < sorted.len() implies (#[trigger] sorted[i]).kind.wf() by {
            assert(kinds.contains(col[i]));
        }
        lemma_kind_table(col);
        table.unique_seq_to_set();
        kinds.lemma_cardinality_of_set();
        vstd::seq_lib::seq_to_set_is_finite(kinds);
        assert(table.to_set().subset_of(kinds.to_set())) by {
            assert forall|k: Kind| table.to_set().contains(k) implies kinds.to_set().contains(k) by {
                assert(table.contains(k));
                let j = choose|j: int| 0 <= j < table.len() && table[j] == k;
                assert(col.contains(table[j]));
                let i = choose|i: int| 0 <= i < col.len() && col[i] == k;
                assert(kinds.contains(col[i]));
            }
        }
        vstd::set_lib::lemma_len_subset(table.to_set(), kinds.to_set());
    }
}

/// One file of the pool, with its index.
#[derive(Debug)]
pub struct ChunkFile {
    serial: u32,
    index: PairIndex,
    // How the descriptor is held (or nothing, if the file isn't opened at all).
    buf: ReadWriter,
    // True if the underlying file descriptor is opened for writing.
    writable: bool,
    // The known size of the file.  Should always be updated after writes.
    size: u32,
}

/// What adding a chunk to a pool file takes.
#[derive(Debug)]
pub struct Appended {
    /// Where the frame begins: at the end of the file as it is.
    pub offset: u32,
    /// The frame, to be written at the end of the file.
    pub frame: Vec<u8>,
}

/// What flushing a pool file takes.
#[derive(Debug)]
pub struct Flushed {
    /// Is a buffer for writing to be written out?
    pub flush_writer: bool,
    /// The bytes of the new index file, where the index has changed.  They
    /// are to be written under another name first, which then takes the place
    /// of the index file.
    pub index: Option<Vec<u8>>,
}

impl ChunkFile {
    /// The serial number of the file.
    pub closed spec fn spec_serial(self) -> u32 {
        self.serial
    }

    /// The index of the file.
    pub closed spec fn index(self) -> PairIndex {
        self.index
    }

    /// What the file holds: for each object-id where the chunk lies and of
    /// what kind it is.
    pub open spec fn map(self) -> Map<Seq<u8>, IndexInfo> {
        self.index().map()
    }

    /// How the file is held open.
    pub closed spec fn mode(self) -> ReadWriter {
        self.buf
    }

    /// Can the descriptor write?
    pub closed spec fn spec_writable(self) -> bool {
        self.writable
    }

    /// The size of the file.
    pub closed spec fn spec_size(self) -> u32 {
        self.size
    }

    /// No pool file is larger than a pool file may be.
    #[verifier::type_invariant]
    pub closed spec fn wf(self) -> bool {
        self.size <= MAX_FILE_SIZE && self.index.wf()
    }

    /// What holds of every pool file.
    pub proof fn lemma_wf(self)
        requires
            self.wf(),
        ensures
            self.spec_size() <= MAX_FILE_SIZE,
            self.index().wf(),
    {
    }

    /// A file that was written, and whose buffer could not be written out
    /// when it was to be read: it cannot be written again.
    pub open spec fn broken(self) -> bool {
        self.spec_writable() && self.mode() == ReadWriter::Closed
    }

    /// Take up a pool file that is there.  `is_file` and `len` are what the
    /// system says of it; `index` is what stands in the index file beside it,
    /// or why that could not be read.
    pub fn open(serial: u32, is_file: bool, len: u64, index: Result<Vec<u8>, Error>) -> (r: Result<
        ChunkFile,
        Error,
    >)
        ensures
            match r {
                Ok(cf) => {
                    &&& is_file
                    &&& len <= MAX_FILE_SIZE
                    &&& index matches Ok(bytes) && load_fault(bytes@, len as u32) is None && cf.map()
                        == image_map(image_of(bytes@))
                    &&& cf.spec_serial() == serial
                    &&& cf.spec_size() == len
                    &&& cf.mode() == ReadWriter::Closed
                    &&& !cf.spec_writable()
                    &&& !cf.index().dirty()
                    &&& cf.wf()
                },
                Err(Error::CorruptPool(_)) => !is_file || len > MAX_FILE_SIZE,
                Err(Error::InvalidIndex(_)) => {
                    &&& is_file
                    &&& len <= MAX_FILE_SIZE
                    &&& index matches Ok(bytes) ==> load_fault(bytes@, len as u32) is Some
                },
                Err(_) => false,
            },
    {
        if !is_file {
            return Err(Error::CorruptPool("pool file is not a regular file".to_owned()));
        }
        if len > MAX_FILE_SIZE as u64 {
            return Err(Error::CorruptPool("pool file is larger than 2^31".to_owned()));
        }
        let size = len as u32;
        let loaded = match index {
            Ok(bytes) => PairIndex::load(bytes.as_slice(), size),
            Err(e) => Err(e),
        };
        match loaded {
            Ok(index) => Ok(
                ChunkFile {
                    serial: serial,
                    index: index,
                    buf: ReadWriter::Closed,
                    writable: false,
                    size: size,
                },
            ),
            Err(Error::InvalidIndex(msg)) => Err(Error::InvalidIndex(msg)),
            Err(_) => Err(Error::InvalidIndex("Index error".to_owned())),
        }
    }

    /// Begin a pool file that is not there yet.  It is made open for writing.
    pub fn create(serial: u32) -> (cf: ChunkFile)
        ensures
            cf.spec_serial() == serial,
            cf.map() == Map::<Seq<u8>, IndexInfo>::empty(),
            cf.spec_size() == 0,
            cf.mode() == ReadWriter::Write,
            cf.spec_writable(),
            !cf.index().dirty(),
            cf.index().count() == 0,
            cf.wf(),
    {
        ChunkFile {
            serial: serial,
            index: PairIndex::empty(),
            buf: ReadWriter::Write,
            writable: true,
            size: 0,
        }
    }

    /// Is the file broken, so that it cannot be written again?
    pub fn is_broken(&self) -> (b: bool)
        ensures
            b == self.broken(),
    {
        match self.buf {
            ReadWriter::Closed => self.writable,
            _ => false,
        }
    }

    /// How the file is held open.
    pub fn descriptor(&self) -> (m: ReadWriter)
        ensures
            m == self.mode(),
    {
        self.buf
    }

    /// The serial number of the file.
    pub fn serial(&self) -> (n: u32)
        ensures
            n == self.spec_serial(),
    {
        self.serial
    }

    /// The name of the file.
    pub fn name(&self) -> (r: String)
        ensures
            r@ == ascii_chars(data_name(self.spec_serial())),
    {
        pool_file_name(self.serial)
    }

    /// The name of the index file beside the file.
    pub fn index_name(&self) -> (r: String)
        ensures
            r@ == ascii_chars(index_name(self.spec_serial())),
    {
        pool_index_name(self.serial)
    }

    /// The known size of the file.
    pub fn size(&self) -> (n: u32)
        ensures
            n == self.spec_size(),
    {
        self.size
    }

    pub fn contains_key(&self, key: &Oid) -> (b: bool)
        ensures
            b == self.map().contains_key(key@),
    {
        self.index.contains_key(key)
    }

    /// Where the chunk of this object-id lies in the file, if it lies there.
    /// The caller reads the frame at that place.
    pub fn find(&self, key: &Oid) -> (r: Option<IndexInfo>)
        ensures
            r == if self.map().contains_key(key@) {
                Some(self.map()[key@])
            } else {
                None
            },
    {
        self.index.get(key)
    }

    /// The entries of the index of the file.
    pub fn entries(&self) -> (r: Vec<IterItem<'_>>)
        ensures
            item_map(r@) == self.map(),
            distinct_oids(r@),
    {
        self.index.items()
    }

    /// Configure the state for reading: what is to be done before the file
    /// can be read.  Where that fails, `read_failed` is to be told.
    pub fn read(&mut self) -> (plan: ReadPlan)
        ensures
            plan == match old(self).mode() {
                ReadWriter::Closed => ReadPlan::Open,
                ReadWriter::Read => ReadPlan::Ready,
                ReadWriter::Write => ReadPlan::Flip,
            },
            final(self).wf(),
            final(self).mode() == ReadWriter::Read,
            final(self).index() == old(self).index(),
            final(self).spec_serial() == old(self).spec_serial(),
            final(self).spec_size() == old(self).spec_size(),
            final(self).spec_writable() == old(self).spec_writable(),
    {
        proof {
            use_type_invariant(&*self);
        }
        let plan = match self.buf {
            ReadWriter::Closed => ReadPlan::Open,
            ReadWriter::Read => ReadPlan::Ready,
            ReadWriter::Write => ReadPlan::Flip,
        };
        self.buf = ReadWriter::Read;
        plan
    }

    /// What was to be done before reading has failed: the file is left
    /// closed.  Where it was the writing out of the buffer that failed, data
    /// is likely lost, and the pool is corrupt; `detail` says what the system
    /// said.  Where the file could not be opened, the error of the system
    /// stands.
    pub fn read_failed(&mut self, plan: ReadPlan, detail: String) -> (e: Error)
        ensures
            final(self).wf(),
            final(self).mode() == ReadWriter::Closed,
            final(self).index() == old(self).index(),
            final(self).spec_serial() == old(self).spec_serial(),
            final(self).spec_size() == old(self).spec_size(),
            final(self).spec_writable() == old(self).spec_writable(),
            match plan {
                ReadPlan::Flip => e matches Error::CorruptPool(m) && m@ == "error flushing buffer: "@
                    + detail@,
                _ => e matches Error::Io(f) && !f.unexpected_eof && f.detail@ == detail@,
            },
    {
        proof {
            use_type_invariant(&*self);
        }
        self.buf = ReadWriter::Closed;
        match plan {
            ReadPlan::Flip => Error::CorruptPool("error flushing buffer: ".to_owned().concat(detail.as_str())),
            _ => Error::Io(IoFailure { unexpected_eof: false, detail: detail }),
        }
    }

    /// Configure the state for writing: what is to be done before the file
    /// can be written.  A broken file cannot be written.
    pub fn write(&mut self) -> (plan: WritePlan)
        requires
            !old(self).broken(),
        ensures
            plan == if old(self).mode() == ReadWriter::Write {
                WritePlan::Ready
            } else if old(self).spec_writable() {
                WritePlan::Rewrap
            } else {
                WritePlan::Reopen
            },
            final(self).wf(),
            final(self).mode() == ReadWriter::Write,
            final(self).index() == old(self).index(),
            final(self).spec_serial() == old(self).spec_serial(),
            final(self).spec_size() == old(self).spec_size(),
            final(self).spec_writable() == old(self).spec_writable(),
    {
        proof {
            use_type_invariant(&*self);
        }
        let plan = match self.buf {
            ReadWriter::Write => WritePlan::Ready,
            _ => {
                // If it is opened for writing, we can steal the handle.
                if self.writable {
                    WritePlan::Rewrap
                } else {
                    WritePlan::Reopen
                }
            },
        };
        self.buf = ReadWriter::Write;
        plan
    }

    /// What was to be done before the file could be written has failed: the
    /// file is left closed.
    pub fn write_failed(&mut self)
        ensures
            final(self).wf(),
            final(self).mode() == ReadWriter::Closed,
            final(self).index() == old(self).index(),
            final(self).spec_serial() == old(self).spec_serial(),
            final(self).spec_size() == old(self).spec_size(),
            final(self).spec_writable() == old(self).spec_writable(),
    {
        proof {
            use_type_invariant(&*self);
        }
        self.buf = ReadWriter::Closed;
    }

    /// Plan the adding of a chunk to this file: the frame that is to be
    /// written, and where.  A chunk without a payload is corrupt; a frame that
    /// would make the file larger than a pool file may be is refused.  The
    /// file knows nothing of the chunk until `appended` is told that the frame
    /// has been written.
    pub fn add(&self, chunk: &mut Chunk) -> (r: Result<Appended, Error>)
        ensures
            final(chunk).wf(),
            final(chunk).same_chunk(*old(chunk)),
            match r {
                Ok(done) => {
                    &&& chunk_frame(*old(chunk)) == Some(done.frame@)
                    &&& done.offset == self.spec_size()
                    &&& self.spec_size() + done.frame@.len() <= MAX_FILE_SIZE
                },
                Err(e) => match chunk_frame(*old(chunk)) {
                    None => e is CorruptChunk,
                    Some(frame) => e is CorruptPool && self.spec_size() + frame.len() > MAX_FILE_SIZE,
                },
            },
    {
        proof {
            use_type_invariant(self);
        }
        let mut frame: Vec<u8> = Vec::new();
        match frame.write_chunk(chunk) {
            Ok(()) => {},
            Err(e) => {
                return Err(e);
            },
        }
        assert(frame@ =~= chunk_frame(*old(chunk))->0);
        if frame.len() > (MAX_FILE_SIZE - self.size) as usize {
            return Err(Error::CorruptPool("pool file would grow beyond 2^31".to_owned()));
        }
        Ok(Appended { offset: self.size, frame: frame })
    }

    /// The frame of a chunk, `len` bytes long, has been written at the end of
    /// the file: the index knows the chunk from now on, at the place where the
    /// file ended, and the file is longer by the frame.  The index must not
    /// know the object-id yet, and the file must be able to take the frame.
    pub fn appended(&mut self, oid: Oid, kind: Kind, len: u32)
        requires
            !old(self).map().contains_key(oid@),
            old(self).spec_size() + len <= MAX_FILE_SIZE,
        ensures
            final(self).wf(),
            final(self).spec_serial() == old(self).spec_serial(),
            final(self).spec_writable() == old(self).spec_writable(),
            final(self).mode() == old(self).mode(),
            final(self).spec_size() == old(self).spec_size() + len,
            final(self).map() == old(self).map().insert(
                oid@,
                IndexInfo { offset: old(self).spec_size(), kind: kind },
            ),
            final(self).index().file() == old(self).index().file(),
            final(self).index().count() == old(self).index().count() + 1,
            final(self).index().dirty(),
    {
        // Take the file apart, change its index, and put it together again.
        let mut taken = ChunkFile::create(0);
        core::mem::swap(self, &mut taken);
        proof {
            use_type_invariant(&taken);
        }
        let ChunkFile { serial, mut index, buf, writable, size } = taken;
        index.insert(oid, size, kind);
        proof {
            use_type_invariant(&index);
        }
        *self = ChunkFile {
            serial: serial,
            index: index,
            buf: buf,
            writable: writable,
            size: size + len,
        };
    }

    /// Plan the flushing of the file: whether a buffer is to be written out,
    /// and the index file that is to be written if this file is dirty.  An
    /// index of more entries than a count of four bytes can tell cannot be
    /// written.  The index stays dirty until `flushed` is told that the index
    /// file has been installed.
    pub fn flush(&self) -> (r: Result<Flushed, Error>)
        ensures
            match r {
                Ok(done) => {
                    &&& done.flush_writer == (self.mode() == ReadWriter::Write)
                    &&& match done.index {
                        None => !self.index().dirty(),
                        Some(bytes) => {
                            &&& self.index().dirty()
                            &&& self.index().count() <= u32::MAX
                            &&& written_for(self.map(), self.spec_size(), bytes@)
                        },
                    }
                },
                Err(e) => e is InvalidIndex && self.index().dirty() && self.index().count() > u32::MAX,
            },
    {
        proof {
            use_type_invariant(self);
        }
        let flush_writer = match self.buf {
            ReadWriter::Write => true,
            _ => false,
        };
        if !self.index.is_dirty() {
            return Ok(Flushed { flush_writer: flush_writer, index: None });
        }
        let ghost m = self.index.map();
        let bytes = match self.index.save(self.size) {
            Ok(bytes) => bytes,
            Err(e) => {
                return Err(e);
            },
        };
        proof {
            let sorted = choose|sorted: Seq<IterItem<'static>>|
                {
                    &&& item_map(sorted) == m
                    &&& ascending(item_oids(sorted))
                    &&& sorted.len() <= u32::MAX
                    &&& bytes@ == #[trigger] index_bytes(self.size, image_for(sorted))
                };
            assert(stands_for(sorted, m));
        }
        Ok(Flushed { flush_writer: flush_writer, index: Some(bytes) })
    }

    /// The index file with these bytes has been installed: the index is read
    /// back out of them, so that what has been put in is found from now on as
    /// it will be found when the pool is opened again.  Where the bytes are
    /// refused, nothing has changed.  Bytes that `flush` has given for an
    /// index whose kinds an index file can tell apart are never refused, and
    /// are read back as the same map.
    pub fn flushed(&mut self, bytes: &[u8]) -> (r: Result<(), Error>)
        ensures
            final(self).wf(),
            final(self).spec_serial() == old(self).spec_serial(),
            final(self).spec_writable() == old(self).spec_writable(),
            final(self).mode() == old(self).mode(),
            final(self).spec_size() == old(self).spec_size(),
            match r {
                Ok(()) => {
                    &&& load_fault(bytes@, old(self).spec_size()) is None
                    &&& final(self).map() == image_map(image_of(bytes@))
                    &&& !final(self).index().dirty()
                },
                Err(e) => {
                    &&& load_fault(bytes@, old(self).spec_size()) matches Some(f) && fault_is(e, f)
                    &&& *final(self) == *old(self)
                },
            },
            written_for(old(self).map(), old(self).spec_size(), bytes@) && fits_index(old(self).map())
                ==> r is Ok && final(self).map() == old(self).map(),
    {
        proof {
            use_type_invariant(&*self);
            let m = self.index.map();
            if written_for(m, self.size, bytes@) && fits_index(m) {
                lemma_written_is_read(m, self.size, bytes@);
            }
        }
        match PairIndex::load(bytes, self.size) {
            Ok(index) => {
                self.index = index;
                Ok(())
            },
            Err(e) => Err(e),
        }
    }
}

} // verus!
