use cas::chunk::Chunk;
use cas::cursor::Cursor;
use cas::pool::adump::chunkio::ChunkRead;
use cas::pool::adump::names::{pool_file_name, pool_index_name};
use cas::pool::adump::{
    scan_backups, select, write_size, AdumpPool, ChunkFile, Layout, PoolProps, ReadPlan, ReadWriter,
    Site, WritePlan, DEFAULT_LIMIT, MAX_FILE_SIZE,
};
use cas::testutil::{self, SimpleRandom};
use cas::{Error, Kind, Oid};
use std::collections::BTreeMap;

/// A directory in memory: the names of its files, and what each holds.
struct Dir {
    files: BTreeMap<String, Vec<u8>>,
}

impl Dir {
    /// Make a pool in a new directory.
    fn create(limit: u32, newfile: bool) -> Dir {
        let plan = AdumpPool::new_builder("blort".to_string())
            .set_limit(limit)
            .set_newfile(newfile)
            .create(Site::Vacant)
            .unwrap();
        assert!(plan.make_dir);
        assert_eq!(plan.dir, "blort");
        let mut files = BTreeMap::new();
        files.insert("metadata/props.txt".to_string(), plan.props.into_bytes());
        files.insert("metadata/backups.txt".to_string(), Vec::new());
        Dir { files: files }
    }

    fn open(&self) -> Result<AdumpPool, Error> {
        let props = PoolProps::read(&self.files["metadata/props.txt"])?;
        let names: Vec<String> = self.files.keys().cloned().collect();
        let (serials, next_file) = scan_backups(&names);
        let mut cfiles = Vec::new();
        for serial in serials {
            let data = &self.files[&pool_file_name(serial)];
            let index = match self.files.get(&pool_index_name(serial)) {
                Some(bytes) => Ok(bytes.clone()),
                None => Err(Error::MissingChunk),
            };
            cfiles.push(ChunkFile::open(serial, true, data.len() as u64, index)?);
        }
        Ok(AdumpPool::open("blort".to_string(), props, cfiles, next_file))
    }

    fn add(&mut self, pool: &mut AdumpPool, chunk: &mut Chunk) {
        assert!(!pool.contains_key(chunk.oid()), "Duplicate chunk in test");
        let plan = pool.add(chunk).unwrap();
        let name = pool_file_name(plan.serial);
        if plan.created {
            assert!(!self.files.contains_key(&name));
            self.files.insert(name.clone(), Vec::new());
            assert_eq!(plan.file, pool.file_count());
        } else {
            assert!(!pool.file(plan.file).is_broken());
            pool.write(plan.file);
        }
        let file = self.files.get_mut(&name).unwrap();
        assert_eq!(file.len(), plan.appended.offset as usize);
        file.extend_from_slice(&plan.appended.frame);
        pool.added(*chunk.oid(), chunk.kind(), plan.appended.frame.len() as u32);
        assert_eq!(pool.file(plan.file).size() as usize, file.len());
        assert_eq!(pool.file(plan.file).serial(), plan.serial);
        assert!(pool.contains_key(chunk.oid()));
    }

    fn flush(&mut self, pool: &mut AdumpPool) {
        let plan = pool.flush();
        assert!(plan.failed.is_none());
        assert_eq!(plan.done.len(), pool.file_count());
        for (i, done) in plan.done.into_iter().enumerate() {
            if let Some(bytes) = done.index {
                self.files.insert(pool_index_name(pool.file(i).serial()), bytes.clone());
                pool.flushed(i, &bytes).unwrap();
            }
        }
    }

    fn find(&self, pool: &AdumpPool, key: &Oid) -> Result<Chunk, Error> {
        let (file, info) = pool.find(key)?;
        let data = &self.files[&pool_file_name(pool.file(file).serial())];
        let chunk = Cursor::at(data, info.offset as usize).read_chunk()?;
        assert_eq!(chunk.oid(), key);
        assert_eq!(chunk.kind(), info.kind);
        Ok(chunk)
    }

    fn data_files(&self) -> Vec<(String, usize)> {
        self.files
            .iter()
            .filter(|(name, _)| name.ends_with(".data"))
            .map(|(name, data)| (name.clone(), data.len()))
            .collect()
    }

    /// How many frames the pool files hold.
    fn frame_count(&self) -> usize {
        let mut count = 0;
        for (name, data) in &self.files {
            if name.ends_with(".data") {
                let mut rd = Cursor::new(data);
                while rd.pos() < data.len() {
                    rd.read_chunk().unwrap();
                    count += 1;
                }
            }
        }
        count
    }
}

/// A chunk whose payload does not compress.
fn uncompressible(size: u32, index: u32) -> Chunk {
    let mut gen = SimpleRandom::new(index.wrapping_mul(2654435761).wrapping_add(1));
    let mut buf: Vec<u8> = Vec::with_capacity(size as usize);
    for _ in 0..size {
        buf.push((gen.next(1 << 24) >> 8) as u8);
    }
    let mut chunk = Chunk::new_plain(Kind::new("unco").unwrap(), buf);
    assert!(chunk.zdata().is_none());
    chunk
}

struct Tracker {
    nodes: Vec<(u32, Kind)>,
    kinds: Vec<Kind>,
    rng: SimpleRandom,
}

impl Tracker {
    fn new() -> Tracker {
        let mut kinds = vec![];
        for text in &["blob", "idx0", "idx1", "data", "dir "] {
            kinds.push(Kind::new(text).unwrap());
        }

        Tracker { nodes: vec![], kinds: kinds, rng: SimpleRandom::new(20150101) }
    }

    fn add(&mut self, dir: &mut Dir, pool: &mut AdumpPool) {
        let num = self.nodes.len() as u32;
        let size = 16 + self.rng.next(1024 - 16);
        let kind = self.kinds[size as usize % self.kinds.len()];
        let mut chunk = testutil::make_kinded_random_chunk(kind, size, num);
        dir.add(pool, &mut chunk);

        self.nodes.push((size, kind));
    }

    fn check(&self, dir: &Dir, pool: &AdumpPool) {
        for (i, &(size, kind)) in self.nodes.iter().enumerate() {
            let mut expect = testutil::make_kinded_random_chunk(kind, size, i as u32);
            let mut got = dir.find(pool, expect.oid()).unwrap();
            assert_eq!(got.data().unwrap().as_slice(), expect.data().unwrap().as_slice());
        }
    }
}

#[test]
fn test_pool() {
    let mut tr = Tracker::new();
    let mut dir = Dir::create(DEFAULT_LIMIT, false);

    {
        let mut pool = dir.open().unwrap();
        assert_eq!(pool.backups().len(), 0);

        for _ in 1..1000 {
            tr.add(&mut dir, &mut pool);
        }
        dir.flush(&mut pool);

        tr.check(&dir, &pool);
    }

    {
        let mut pool = dir.open().unwrap();
        tr.check(&dir, &pool);
        for _ in 1..500 {
            tr.add(&mut dir, &mut pool);
        }
        tr.check(&dir, &pool);
        for _ in 1..500 {
            tr.add(&mut dir, &mut pool);
        }
        dir.flush(&mut pool);
        tr.check(&dir, &pool);
    }

    {
        let pool = dir.open().unwrap();
        tr.check(&dir, &pool);
    }
    assert_eq!(dir.frame_count(), tr.nodes.len());
    assert_eq!(dir.data_files().len(), 1);
}

#[test]
fn pool_creation_and_round_trip() {
    let mut dir = Dir::create(DEFAULT_LIMIT, false);
    let mut pool = dir.open().unwrap();
    assert!(pool.backups().is_empty());
    assert_eq!(pool.file_count(), 0);
    let mut tr = Tracker::new();
    for _ in 0..1000 {
        tr.add(&mut dir, &mut pool);
    }
    dir.flush(&mut pool);
    let uuid = pool.uuid();

    let mut pool = dir.open().unwrap();
    assert_eq!(pool.uuid(), uuid);
    tr.check(&dir, &pool);
    for _ in 0..999 {
        tr.add(&mut dir, &mut pool);
    }
    dir.flush(&mut pool);

    let pool = dir.open().unwrap();
    tr.check(&dir, &pool);
    assert_eq!(tr.nodes.len(), 1999);
    assert!(matches!(dir.find(&pool, &Oid::from_u32(1)), Err(Error::MissingChunk)));
}

#[test]
fn rollover() {
    let mut dir = Dir::create(4096, false);
    let mut pool = dir.open().unwrap();
    let mut largest = 0;
    let mut written = 0;
    for i in 0..200u32 {
        let mut chunk = uncompressible(512, i);
        let len = write_size(&mut chunk).unwrap() as usize;
        largest = largest.max(len);
        written += len;
        dir.add(&mut pool, &mut chunk);
    }
    dir.flush(&mut pool);
    let files = dir.data_files();
    assert!(files.len() >= 25, "only {} files", files.len());
    // The files hold what was written, and none more than the limit: so
    // many bytes take at least so many files.
    assert_eq!(files.iter().map(|(_, len)| *len).sum::<usize>(), written);
    assert!(written <= files.len() * 4096);
    assert_eq!(written, 200 * 560);
    assert_eq!(files.len(), 29);
    for (i, (name, len)) in files.iter().enumerate() {
        assert_eq!(*name, format!("pool-data-{:04}.data", i));
        assert!(*len <= 4096 + largest);
        assert!(*len <= 4096);
    }
    assert_eq!(pool.file_count(), files.len());
    let pool = dir.open().unwrap();
    for i in 0..200u32 {
        let mut expect = uncompressible(512, i);
        let mut got = dir.find(&pool, expect.oid()).unwrap();
        assert_eq!(got.data().unwrap().as_slice(), expect.data().unwrap().as_slice());
    }
}

#[test]
fn a_frame_beyond_the_limit_gets_a_file_of_its_own() {
    let mut dir = Dir::create(100, false);
    let mut pool = dir.open().unwrap();
    for i in 0..3u32 {
        let mut chunk = uncompressible(512, i);
        dir.add(&mut pool, &mut chunk);
    }
    let files = dir.data_files();
    assert_eq!(files.len(), 3);
    for (_, len) in files {
        assert_eq!(len, 48 + 512);
    }
}

#[test]
fn newfile_begins_one_file_for_each_session() {
    let mut dir = Dir::create(DEFAULT_LIMIT, true);
    for session in 0..3u32 {
        let mut pool = dir.open().unwrap();
        assert_eq!(pool.file_count(), session as usize);
        for i in 0..10u32 {
            let mut chunk = testutil::make_random_chunk(100, session * 10 + i);
            assert_eq!(pool.needs_new_file(write_size(&mut chunk).unwrap()), i == 0);
            dir.add(&mut pool, &mut chunk);
        }
        dir.flush(&mut pool);
        assert_eq!(pool.file_count(), session as usize + 1);
    }
    let names: Vec<String> = dir.data_files().into_iter().map(|(n, _)| n).collect();
    assert_eq!(names, vec!["pool-data-0000.data", "pool-data-0001.data", "pool-data-0002.data"]);
    let pool = dir.open().unwrap();
    for n in 0..30u32 {
        let expect = testutil::make_random_chunk(100, n);
        assert!(pool.contains_key(expect.oid()));
    }
}

#[test]
fn dedupe_writes_each_oid_once() {
    let mut dir = Dir::create(DEFAULT_LIMIT, false);
    let mut pool = dir.open().unwrap();
    let mut unique = 0;
    for round in 0..3 {
        for i in 0..50u32 {
            let mut chunk = testutil::make_random_chunk(64, i % 20 + round);
            if !pool.contains_key(chunk.oid()) {
                dir.add(&mut pool, &mut chunk);
                unique += 1;
            }
        }
    }
    dir.flush(&mut pool);
    assert_eq!(unique, 22);
    assert_eq!(dir.frame_count(), unique);
    // A second flush finds nothing to do.
    let again = pool.flush();
    assert!(again.failed.is_none());
    assert!(again.done.iter().all(|f| f.index.is_none()));
    // The index files hold as many entries as there are frames.
    let mut entries = 0;
    for i in 0..pool.file_count() {
        entries += pool.file(i).entries().len();
    }
    assert_eq!(entries, unique);
}

#[test]
fn backups_lists_the_chunks_of_kind_back() {
    let mut dir = Dir::create(2048, false);
    let mut pool = dir.open().unwrap();
    let back = Kind::new("back").unwrap();
    let mut expect: Vec<Oid> = Vec::new();
    for i in 0..64u32 {
        let kind = if i % 8 == 0 { back } else { Kind::new("blob").unwrap() };
        let mut chunk = testutil::make_kinded_random_chunk(kind, 200, i);
        if kind == back {
            expect.push(*chunk.oid());
        }
        dir.add(&mut pool, &mut chunk);
    }
    let mut got = pool.backups();
    got.sort();
    expect.sort();
    assert_eq!(got, expect);
    // They are found before the flush and after it, and when the pool is
    // opened again.
    dir.flush(&mut pool);
    let mut got = pool.backups();
    got.sort();
    assert_eq!(got, expect);
    let mut got = dir.open().unwrap().backups();
    got.sort();
    assert_eq!(got, expect);
    assert!(pool.file_count() > 1);
}

#[test]
fn backups_lists_each_entry_once() {
    let back = Kind::new("back").unwrap();
    let blob = Kind::new("blob").unwrap();
    let shared = Oid::from_u32(7);
    let mut first = ChunkFile::create(0);
    first.appended(Oid::from_u32(1), back, 64);
    first.appended(shared, back, 64);
    first.appended(Oid::from_u32(2), blob, 64);
    let mut second = ChunkFile::create(1);
    second.appended(shared, back, 64);
    second.appended(Oid::from_u32(3), back, 64);
    let props = PoolProps { uuid: 1, newfile: false, limit: DEFAULT_LIMIT };
    let pool = AdumpPool::open("p".to_string(), props, vec![first, second], 2);
    // File after file; what two files hold stands once for each.
    let got = pool.backups();
    assert_eq!(got.len(), 4);
    assert_eq!(got.iter().filter(|oid| **oid == shared).count(), 2);
    let mut first_file = got[..2].to_vec();
    first_file.sort();
    let mut want = vec![Oid::from_u32(1), shared];
    want.sort();
    assert_eq!(first_file, want);
    let mut second_file = got[2..].to_vec();
    second_file.sort();
    let mut want = vec![shared, Oid::from_u32(3)];
    want.sort();
    assert_eq!(second_file, want);
}

#[test]
fn stale_index_is_refused() {
    let mut dir = Dir::create(DEFAULT_LIMIT, false);
    let mut pool = dir.open().unwrap();
    let mut chunk = testutil::make_random_chunk(100, 1);
    dir.add(&mut pool, &mut chunk);
    dir.flush(&mut pool);
    assert!(dir.open().is_ok());
    // The pool file grows behind the back of the index.
    let mut chunk = testutil::make_random_chunk(100, 2);
    dir.add(&mut pool, &mut chunk);
    assert!(matches!(dir.open(), Err(Error::InvalidIndex(_))));
    dir.flush(&mut pool);
    assert!(dir.open().is_ok());
    // One byte more is enough.
    dir.files.get_mut("pool-data-0000.data").unwrap().push(0);
    assert!(matches!(dir.open(), Err(Error::InvalidIndex(_))));
}

#[test]
fn chunk_file_open_errors() {
    let empty = cas::pool::adump::index::FileIndex::save(0, vec![]).unwrap();
    assert!(ChunkFile::open(0, true, 0, Ok(empty.clone())).is_ok());
    assert!(matches!(ChunkFile::open(0, false, 0, Ok(empty.clone())), Err(Error::CorruptPool(_))));
    assert!(matches!(
        ChunkFile::open(0, true, MAX_FILE_SIZE as u64 + 1, Ok(empty.clone())),
        Err(Error::CorruptPool(_))
    ));
    let large = cas::pool::adump::index::FileIndex::save(MAX_FILE_SIZE, vec![]).unwrap();
    assert!(ChunkFile::open(0, true, MAX_FILE_SIZE as u64, Ok(large)).is_ok());
    // Whatever keeps the index from being read makes it an invalid index.
    assert!(matches!(
        ChunkFile::open(0, true, 0, Err(Error::unexpected_eof())),
        Err(Error::InvalidIndex(_))
    ));
    assert!(matches!(ChunkFile::open(0, true, 0, Ok(vec![])), Err(Error::InvalidIndex(_))));
    assert!(matches!(ChunkFile::open(0, true, 1, Ok(empty)), Err(Error::InvalidIndex(_))));
}

#[test]
fn chunk_file_descriptor_plans() {
    let empty = cas::pool::adump::index::FileIndex::save(0, vec![]).unwrap();
    let mut cf = ChunkFile::open(3, true, 0, Ok(empty)).unwrap();
    assert_eq!(cf.name(), "pool-data-0003.data");
    assert_eq!(cf.index_name(), "pool-data-0003.idx");
    assert_eq!(cf.read(), ReadPlan::Open);
    assert_eq!(cf.read(), ReadPlan::Ready);
    // It was opened to be read only: to write, it is opened again.
    assert_eq!(cf.write(), WritePlan::Reopen);
    assert_eq!(cf.write(), WritePlan::Ready);
    assert_eq!(cf.read(), ReadPlan::Flip);
    assert_eq!(cf.write(), WritePlan::Reopen);

    let mut cf = ChunkFile::create(4);
    assert_eq!(cf.size(), 0);
    assert_eq!(cf.write(), WritePlan::Ready);
    assert_eq!(cf.read(), ReadPlan::Flip);
    // This one can write: the descriptor is kept.
    assert_eq!(cf.write(), WritePlan::Rewrap);
    assert_eq!(cf.read(), ReadPlan::Flip);
    match cf.read_failed(ReadPlan::Flip, "disk full".to_string()) {
        Error::CorruptPool(msg) => assert_eq!(msg, "error flushing buffer: disk full"),
        e => panic!("unexpected {:?}", e),
    }
    assert_eq!(cf.read(), ReadPlan::Open);
    match cf.read_failed(ReadPlan::Open, "gone".to_string()) {
        Error::Io(f) => {
            assert!(!f.unexpected_eof);
            assert_eq!(f.detail, "gone");
        }
        e => panic!("unexpected {:?}", e),
    }
    let _ = ReadWriter::Closed;
}

#[test]
fn chunk_file_add_and_flush() {
    let mut cf = ChunkFile::create(0);
    let mut chunk = testutil::make_random_chunk(100, 1);
    let size = write_size(&mut chunk).unwrap();
    let plan = cf.add(&mut chunk).unwrap();
    assert_eq!(plan.offset, 0);
    assert_eq!(plan.frame.len() as u32, size);
    // Until the frame is written, the file knows nothing of the chunk.
    assert_eq!(cf.size(), 0);
    assert!(!cf.contains_key(chunk.oid()));
    assert!(cf.flush().unwrap().index.is_none());
    cf.appended(*chunk.oid(), chunk.kind(), size);
    assert_eq!(cf.size(), size);
    assert!(cf.contains_key(chunk.oid()));
    assert_eq!(cf.find(chunk.oid()).unwrap().offset, 0);

    let mut second = testutil::make_random_chunk(100, 2);
    let plan = cf.add(&mut second).unwrap();
    assert_eq!(plan.offset, size);
    cf.appended(*second.oid(), second.kind(), plan.frame.len() as u32);
    assert_eq!(cf.find(second.oid()).unwrap().offset, size);
    assert!(cf.find(&Oid::from_u32(0)).is_none());
    assert_eq!(cf.entries().len(), 2);

    // The file is dirty until it is told that its index file is there.
    let flushed = cf.flush().unwrap();
    assert!(flushed.flush_writer);
    let bytes = flushed.index.unwrap();
    assert_eq!(cf.flush().unwrap().index.unwrap(), bytes);
    cf.flushed(&bytes).unwrap();
    assert!(cf.flush().unwrap().index.is_none());
    assert!(cf.contains_key(chunk.oid()));
    assert!(cf.contains_key(second.oid()));
    let back = ChunkFile::open(0, true, cf.size() as u64, Ok(bytes.clone())).unwrap();
    assert!(back.contains_key(chunk.oid()));
    assert!(back.contains_key(second.oid()));
    assert!(back.flush().unwrap().index.is_none());

    // Bytes that are no index of this file are refused, and nothing changes.
    assert!(matches!(cf.flushed(&bytes[..100]), Err(e) if e.is_unexpected_eof()));
    let other = cas::pool::adump::index::FileIndex::save(cf.size() + 1, vec![]).unwrap();
    assert!(matches!(cf.flushed(&other), Err(Error::InvalidIndex(_))));
    assert!(cf.contains_key(chunk.oid()));

    // A chunk without a payload has no frame.
    let mut corrupt = Chunk::new_compressed(Kind::new("blob").unwrap(), Oid::from_u32(9), vec![0; 500], 100);
    assert!(matches!(cf.add(&mut corrupt), Err(Error::CorruptChunk(_))));
}

#[test]
fn chunk_file_write_plans() {
    let mut cf = ChunkFile::create(4);
    assert_eq!(cf.write(), WritePlan::Ready);
    cf.write_failed();
    // It could write, and is closed: it cannot be written again.
    assert!(cf.is_broken());
    let empty = cas::pool::adump::index::FileIndex::save(0, vec![]).unwrap();
    let mut cf = ChunkFile::open(3, true, 0, Ok(empty)).unwrap();
    assert_eq!(cf.write(), WritePlan::Reopen);
    cf.write_failed();
    assert!(!cf.is_broken());
    assert_eq!(cf.write(), WritePlan::Reopen);
    assert_eq!(cf.write(), WritePlan::Ready);
}

#[test]
fn write_size_is_the_frame_size() {
    for size in testutil::boundary_sizes() {
        let mut chunk = testutil::make_random_chunk(size, size);
        let stored = match chunk.zdata() {
            Some(z) => z.len(),
            None => size as usize,
        };
        assert_eq!(write_size(&mut chunk).unwrap() as usize, 48 + (stored + 15) / 16 * 16);
        assert_eq!(write_size(&mut chunk).unwrap() as usize, 48 + ((stored + 15) & !15));
    }
    let mut corrupt = Chunk::new_compressed(Kind::new("blob").unwrap(), Oid::from_u32(9), vec![0; 500], 100);
    assert!(matches!(write_size(&mut corrupt), Err(Error::CorruptChunk(_))));
}

#[test]
fn scan_backups_finds_the_pool_files() {
    let names: Vec<String> = [
        "metadata",
        "pool-data-0003.data",
        "pool-data-0003.idx",
        "pool-data-0000.data",
        "seen",
        "pool-data-0010.data",
        "pool-data-0010.data.bak",
        "pool-data-12.data",
        "other.data",
        "pool-data-0003.data",
    ]
    .iter()
    .map(|s| s.to_string())
    .collect();
    let (serials, next) = scan_backups(&names);
    assert_eq!(serials, vec![0, 3, 10]);
    assert_eq!(next, 11);
    assert_eq!(scan_backups(&vec![]), (vec![], 0));
    assert_eq!(scan_backups(&vec!["pool-data-9999.data".to_string()]), (vec![9999], 10000));
}

#[test]
fn builder_plans_the_pool() {
    let plan = AdumpPool::new_builder("p".to_string()).create_as(Site::EmptyDir, 0x1234).unwrap();
    assert!(!plan.make_dir);
    assert_eq!(plan.uuid, 0x1234);
    assert_eq!(
        plan.props,
        "uuid=00000000-0000-0000-0000-000000001234\nnewfile=false\nlimit=702545920\n"
    );
    let props = PoolProps::read(plan.props.as_bytes()).unwrap();
    assert_eq!(props, PoolProps { uuid: 0x1234, newfile: false, limit: 702545920 });
    assert_eq!(DEFAULT_LIMIT, 670 * 1024 * 1024);

    let plan = AdumpPool::new_builder("p".to_string())
        .set_newfile(true)
        .set_limit(4096)
        .create_as(Site::Vacant, 1)
        .unwrap();
    assert!(plan.make_dir);
    assert_eq!(plan.props, "uuid=00000000-0000-0000-0000-000000000001\nnewfile=true\nlimit=4096\n");

    assert!(matches!(
        AdumpPool::new_builder("p".to_string()).create(Site::FullDir),
        Err(Error::PathError(_))
    ));
    // Each pool gets an identity of its own.
    let a = AdumpPool::new_builder("p".to_string()).create(Site::Vacant).unwrap();
    let b = AdumpPool::new_builder("p".to_string()).create(Site::Vacant).unwrap();
    assert_ne!(a.uuid, b.uuid);
}

#[test]
fn written_props_are_read_back() {
    let ids: [u128; 4] = [0, 1, u128::MAX, 0xc39b7bde_b83a_47b2_b597_6546f08c9183];
    for &uuid in ids.iter() {
        for &limit in [0u32, 9, 10, 4096, u32::MAX].iter() {
            for &newfile in [false, true].iter() {
                let plan = AdumpPool::new_builder("p".to_string())
                    .set_newfile(newfile)
                    .set_limit(limit)
                    .create_as(Site::Vacant, uuid)
                    .unwrap();
                let props = PoolProps::read(plan.props.as_bytes()).unwrap();
                assert_eq!(props, PoolProps { uuid: uuid, newfile: newfile, limit: limit });
            }
        }
    }
    // A pool with an identity drawn at random opens as well.
    let plan = AdumpPool::new_builder("p".to_string()).create(Site::EmptyDir).unwrap();
    let props = PoolProps::read(plan.props.as_bytes()).unwrap();
    assert_eq!(props, PoolProps { uuid: plan.uuid, newfile: false, limit: DEFAULT_LIMIT });
}

#[test]
fn select_tells_the_pools_apart() {
    assert_eq!(select(true, false).unwrap(), Layout::Sql);
    assert_eq!(select(true, true).unwrap(), Layout::Sql);
    assert_eq!(select(false, true).unwrap(), Layout::Adump);
    assert!(matches!(select(false, false), Err(Error::NotAPool)));
}

#[test]
fn add_refuses_what_a_pool_file_cannot_take() {
    // The last file is as large as a pool file may be, and the limit lets it grow.
    let full = cas::pool::adump::index::FileIndex::save(MAX_FILE_SIZE, vec![]).unwrap();
    let files = vec![ChunkFile::open(0, true, MAX_FILE_SIZE as u64, Ok(full)).unwrap()];
    let props = PoolProps { uuid: 1, newfile: false, limit: u32::MAX };
    let pool = AdumpPool::open("dir".to_string(), props, files, 1);
    let mut chunk = testutil::make_random_chunk(100, 1);
    assert!(!pool.needs_new_file(write_size(&mut chunk).unwrap()));
    assert!(matches!(pool.add(&mut chunk), Err(Error::CorruptPool(_))));

    // The serial numbers have run out.
    let empty = cas::pool::adump::index::FileIndex::save(0, vec![]).unwrap();
    let last = vec![ChunkFile::open(u32::MAX - 1, true, 0, Ok(empty.clone())).unwrap()];
    let props = PoolProps { uuid: 1, newfile: true, limit: 4096 };
    let pool = AdumpPool::open("dir".to_string(), props, last, u32::MAX);
    assert!(pool.needs_new_file(write_size(&mut chunk).unwrap()));
    assert!(matches!(pool.add(&mut chunk), Err(Error::CorruptPool(_))));

    // One before the last, a file is begun.
    let last = vec![ChunkFile::open(u32::MAX - 2, true, 0, Ok(empty)).unwrap()];
    let mut pool = AdumpPool::open("dir".to_string(), props, last, u32::MAX - 1);
    let plan = pool.add(&mut chunk).unwrap();
    assert!(plan.created);
    assert_eq!(plan.serial, u32::MAX - 1);
    assert_eq!(plan.file, 1);
    assert_eq!(pool_file_name(plan.serial), "pool-data-4294967294.data");
    // The pool has the file once it is told that the frame is written.
    assert_eq!(pool.file_count(), 1);
    pool.added(*chunk.oid(), chunk.kind(), plan.appended.frame.len() as u32);
    assert_eq!(pool.file_count(), 2);
    assert_eq!(pool.file(1).serial(), u32::MAX - 1);
    assert!(pool.contains_key(chunk.oid()));

    // A chunk without a payload has no frame.
    let pool = AdumpPool::open("dir".to_string(), props, vec![], 0);
    let mut corrupt = Chunk::new_compressed(Kind::new("blob").unwrap(), Oid::from_u32(9), vec![0; 500], 100);
    assert!(matches!(pool.add(&mut corrupt), Err(Error::CorruptChunk(_))));
}

#[test]
fn needs_new_file_follows_the_limit() {
    let mut dir = Dir::create(1000, false);
    let mut pool = dir.open().unwrap();
    // Without a file, whatever is written begins one.
    assert!(pool.needs_new_file(0));
    let mut chunk = uncompressible(100, 1);
    assert_eq!(write_size(&mut chunk).unwrap(), 48 + 112);
    dir.add(&mut pool, &mut chunk);
    assert_eq!(pool.file(0).size(), 160);
    assert!(!pool.needs_new_file(840));
    assert!(pool.needs_new_file(841));
    assert!(pool.needs_new_file(u32::MAX));
}
