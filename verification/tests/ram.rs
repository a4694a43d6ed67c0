use cas::chunk::Chunk;
use cas::cursor::Cursor;
use cas::pool::adump::chunkio::{frame_span, ChunkWrite};
use cas::pool::adump::index::FileIndex;
use cas::pool::adump::{AdumpPool, ChunkFile, PoolProps, ReadPlan, WritePlan};
use cas::pool::ram::Stashed;
use cas::pool::{ChunkSource, RamPool};
use cas::rows::{place_of, put_number};
use cas::testutil;
use cas::zlib::deflate;
use cas::{Error, Kind, Oid};

#[test]
fn ram_pool_keeps_chunks() {
    let mut pool = RamPool::with_uuid(77);
    assert_eq!(pool.uuid(), 77);
    pool.begin_writing().unwrap();
    let mut kept = Vec::new();
    for i in 0..100u32 {
        let mut chunk = testutil::make_random_chunk(64 + i, i);
        assert!(!pool.contains_key(chunk.oid()).unwrap());
        pool.add(&mut chunk).unwrap();
        assert!(pool.contains_key(chunk.oid()).unwrap());
        kept.push(chunk);
    }
    pool.flush().unwrap();
    for chunk in kept.iter_mut() {
        let mut got = pool.find(chunk.oid()).unwrap();
        assert_eq!(got.kind(), chunk.kind());
        assert_eq!(got.oid(), chunk.oid());
        assert_eq!(got.data().unwrap().as_slice(), chunk.data().unwrap().as_slice());
    }
    assert!(matches!(pool.find(&Oid::from_u32(0)), Err(Error::MissingChunk)));
    assert!(!pool.contains_key(&Oid::from_u32(0)).unwrap());
}

#[test]
fn ram_pool_keeps_the_first_of_two() {
    let mut pool = RamPool::new();
    let blob = Kind::new("blob").unwrap();
    let oid = Oid::from_u32(5);
    let text = vec![b'a'; 1000];
    let mut first = Chunk::new_compressed(blob, oid, deflate(&text).unwrap(), 1000);
    pool.add(&mut first).unwrap();
    // The same object-id again, with another payload: the pool keeps what it has.
    let other = vec![b'b'; 1000];
    let mut second = Chunk::new_compressed(blob, oid, deflate(&other).unwrap(), 1000);
    pool.add(&mut second).unwrap();
    let mut got = pool.find(&oid).unwrap();
    assert_eq!(got.data().unwrap().as_slice(), &text[..]);
}

#[test]
fn ram_pool_refuses_a_corrupt_chunk() {
    let mut pool = RamPool::new();
    let mut corrupt = Chunk::new_compressed(Kind::new("blob").unwrap(), Oid::from_u32(1), vec![1, 2, 3], 10);
    assert!(matches!(pool.add(&mut corrupt), Err(Error::CorruptChunk(_))));
    assert!(!pool.contains_key(&Oid::from_u32(1)).unwrap());
}

#[test]
fn ram_pool_lists_backups() {
    let mut pool = RamPool::new();
    assert!(pool.backups().unwrap().is_empty());
    let back = Kind::new("back").unwrap();
    let mut expect = Vec::new();
    for i in 0..40u32 {
        let kind = if i % 5 == 0 { back } else { Kind::new("blob").unwrap() };
        let mut chunk = testutil::make_kinded_random_chunk(kind, 50, i);
        if kind == back {
            expect.push(*chunk.oid());
        }
        pool.add(&mut chunk).unwrap();
    }
    let mut got = pool.backups().unwrap();
    got.sort();
    expect.sort();
    assert_eq!(got, expect);
    assert_eq!(got.len(), 8);
}

#[test]
fn ram_pools_have_identities_of_their_own() {
    assert_ne!(RamPool::new().uuid(), RamPool::new().uuid());
}

#[test]
fn stashed_gives_the_chunk_again() {
    let kind = Kind::new("dir ").unwrap();
    let stash = Stashed::new(kind, b"payload".to_vec());
    let mut chunk = stash.to_chunk();
    assert_eq!(chunk.kind(), kind);
    assert_eq!(*chunk.oid(), Oid::from_data(kind, b"payload"));
    assert_eq!(chunk.data().unwrap().as_slice(), b"payload");
}

#[test]
fn frame_span_tells_how_much_to_read() {
    for size in [0u32, 1, 15, 16, 17, 1000] {
        let mut chunk = testutil::make_random_chunk(size, size);
        let mut frame: Vec<u8> = Vec::new();
        frame.write_chunk(&mut chunk).unwrap();
        assert_eq!(frame_span(&frame[..48]).unwrap() as usize, frame.len());
        assert_eq!(frame_span(&frame).unwrap() as usize, frame.len());
    }
    assert!(frame_span(&[0u8; 47]).unwrap_err().is_unexpected_eof());
    assert!(matches!(frame_span(&[0u8; 48]), Err(Error::CorruptChunk(_))));
    // The largest length that a frame can state.
    let mut header = b"adump-pool-v1.1\n".to_vec();
    header.extend_from_slice(&[0xff; 4]);
    header.extend_from_slice(&[0u8; 28]);
    assert_eq!(frame_span(&header).unwrap(), 48 + 0xffff_ffffu64 + 1);
}

#[test]
fn cursor_reads_in_order() {
    let bytes: Vec<u8> = (0..20u8).collect();
    let mut rd = Cursor::new(&bytes);
    assert_eq!(rd.pos(), 0);
    assert_eq!(rd.read_exact(3).unwrap(), &[0, 1, 2]);
    assert_eq!(rd.read_u32().unwrap(), 0x06050403);
    assert_eq!(rd.pos(), 7);
    assert_eq!(rd.read_exact(0).unwrap(), &[] as &[u8]);
    // Where too little is left, nothing is read.
    assert!(rd.read_exact(14).unwrap_err().is_unexpected_eof());
    assert_eq!(rd.pos(), 7);
    assert_eq!(rd.read_exact(13).unwrap().len(), 13);
    assert!(rd.read_u32().unwrap_err().is_unexpected_eof());
    assert_eq!(rd.whole(), &bytes[..]);
    assert_eq!(Cursor::at(&bytes, 5).pos(), 5);
    assert_eq!(Cursor::at(&bytes, 50).pos(), 20);
}

#[test]
fn rows_are_kept_in_order() {
    let mut row: Vec<u32> = Vec::new();
    for n in [5u32, 1, 9, 5, 0, 9, 3, u32::MAX] {
        put_number(&mut row, n);
    }
    assert_eq!(row, vec![0, 1, 3, 5, 9, u32::MAX]);
    assert_eq!(place_of(&row, 0), 0);
    assert_eq!(place_of(&row, 2), 2);
    assert_eq!(place_of(&row, 3), 2);
    assert_eq!(place_of(&row, 10), 5);
    assert_eq!(place_of(&vec![], 10), 0);
}

#[test]
fn pool_plans_the_reading_of_its_files() {
    let empty = FileIndex::save(0, vec![]).unwrap();
    let files = vec![
        ChunkFile::open(0, true, 0, Ok(empty.clone())).unwrap(),
        ChunkFile::open(1, true, 0, Ok(empty)).unwrap(),
    ];
    let props = PoolProps { uuid: 1, newfile: false, limit: 4096 };
    let mut pool = AdumpPool::open("dir".to_string(), props, files, 2);
    assert_eq!(pool.base(), "dir");
    assert_eq!(pool.file_count(), 2);
    assert_eq!(pool.read(1), ReadPlan::Open);
    assert_eq!(pool.read(1), ReadPlan::Ready);
    assert_eq!(pool.read(0), ReadPlan::Open);
    match pool.read_failed(0, ReadPlan::Open, "no such file".to_string()) {
        Error::Io(f) => assert_eq!(f.detail, "no such file"),
        e => panic!("unexpected {:?}", e),
    }
    assert_eq!(pool.read(0), ReadPlan::Open);
    assert_eq!(pool.read(1), ReadPlan::Ready);
    assert!(!pool.file(0).is_broken());

    // A chunk goes to the last file, which is opened again to be written.
    let mut chunk = testutil::make_random_chunk(100, 1);
    let plan = pool.add(&mut chunk).unwrap();
    assert!(!plan.created);
    assert_eq!(plan.file, 1);
    assert_eq!(plan.serial, 1);
    assert_eq!(pool.write(1), WritePlan::Reopen);
    pool.write_failed(1);
    assert_eq!(pool.write(1), WritePlan::Reopen);
    assert_eq!(pool.write(1), WritePlan::Ready);
    pool.added(*chunk.oid(), chunk.kind(), plan.appended.frame.len() as u32);
    assert_eq!(pool.read(1), ReadPlan::Flip);
    match pool.read_failed(1, ReadPlan::Flip, "disk full".to_string()) {
        Error::CorruptPool(msg) => assert_eq!(msg, "error flushing buffer: disk full"),
        e => panic!("unexpected {:?}", e),
    }
}
