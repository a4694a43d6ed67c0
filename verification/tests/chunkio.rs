use cas::chunk::Chunk;
use cas::cursor::Cursor;
use cas::pool::adump::chunkio::{padding, ChunkRead, ChunkWrite};
use cas::testutil;
use cas::zlib::deflate;
use cas::{Error, Kind, Oid};

#[test]
fn test_write() {
    let mut fd: Vec<u8> = Vec::new();

    for size in testutil::boundary_sizes() {
        let mut ch = testutil::make_random_chunk(size, size);
        fd.write_chunk(&mut ch).unwrap();
    }

    let mut rd = Cursor::new(&fd);
    for size in testutil::boundary_sizes() {
        let mut ch1 = testutil::make_random_chunk(size, size);
        let mut ch2 = rd.read_chunk().unwrap();
        assert_eq!(ch1.oid(), ch2.oid());
        assert_eq!(ch1.kind(), ch2.kind());
        assert_eq!(ch1.data_len(), ch2.data_len());
        assert_eq!(ch1.data().unwrap().as_slice(), ch2.data().unwrap().as_slice());
    }
    assert_eq!(rd.pos(), fd.len());
    assert!(rd.read_chunk().unwrap_err().is_unexpected_eof());
}

fn round_up(n: usize) -> usize {
    (n + 15) / 16 * 16
}

#[test]
fn frame_boundary_sizes() {
    for size in [0u32, 1, 2, 3, 15, 16, 17, 255, 256, 257, 65535, 65536, 65537] {
        let mut ch = testutil::make_random_chunk(size, size);
        let written = match ch.zdata() {
            Some(z) => z.len(),
            None => size as usize,
        };
        let mut out: Vec<u8> = Vec::new();
        out.write_chunk(&mut ch).unwrap();
        assert_eq!(out.len(), 48 + round_up(written));
        assert_eq!(out.len() % 16, 0);
        for &b in &out[48 + written..] {
            assert_eq!(b, 0);
        }
        let mut back = Cursor::new(&out).read_chunk().unwrap();
        assert_eq!(back.kind(), ch.kind());
        assert_eq!(back.oid(), ch.oid());
        assert_eq!(back.data_len(), size);
        assert_eq!(back.data().unwrap().as_slice(), ch.data().unwrap().as_slice());
    }
}

#[test]
fn frame_of_a_plain_chunk_byte_for_byte() {
    let mut ch = Chunk::new_plain(Kind::new("blob").unwrap(), b"A".to_vec());
    let mut out: Vec<u8> = Vec::new();
    out.write_chunk(&mut ch).unwrap();
    let mut expect: Vec<u8> = Vec::new();
    expect.extend_from_slice(b"adump-pool-v1.1\n");
    expect.extend_from_slice(&[1, 0, 0, 0]);
    expect.extend_from_slice(&[0xff, 0xff, 0xff, 0xff]);
    expect.extend_from_slice(b"blob");
    expect.extend_from_slice(&Oid::from_data(Kind::new("blob").unwrap(), b"A").0);
    expect.push(b'A');
    expect.extend_from_slice(&[0u8; 15]);
    assert_eq!(out, expect);
    assert_eq!(out.len(), 64);
}

#[test]
fn frame_of_a_compressed_chunk_byte_for_byte() {
    let text = vec![b'z'; 300];
    let z = deflate(&text).unwrap();
    let mut ch = Chunk::new_plain(Kind::new("data").unwrap(), text.clone());
    let mut out: Vec<u8> = Vec::new();
    out.write_chunk(&mut ch).unwrap();
    let mut expect: Vec<u8> = Vec::new();
    expect.extend_from_slice(b"adump-pool-v1.1\n");
    expect.extend_from_slice(&(z.len() as u32).to_le_bytes());
    expect.extend_from_slice(&300u32.to_le_bytes());
    expect.extend_from_slice(b"data");
    expect.extend_from_slice(&ch.oid().0);
    expect.extend_from_slice(&z);
    while expect.len() % 16 != 0 {
        expect.push(0);
    }
    assert_eq!(out, expect);

    // Read back, the chunk holds the compressed payload and the stated oid.
    let mut back = Cursor::new(&out).read_chunk().unwrap();
    assert_eq!(back.oid(), ch.oid());
    assert_eq!(back.data_len(), 300);
    assert_eq!(back.zdata().unwrap().as_slice(), &z[..]);
    assert_eq!(back.into_bytes().unwrap(), text);
}

#[test]
fn padding_fills_up_to_sixteen() {
    assert_eq!(padding(0), 0);
    assert_eq!(padding(1), 15);
    assert_eq!(padding(15), 1);
    assert_eq!(padding(16), 0);
    assert_eq!(padding(17), 15);
    assert_eq!(padding(0xffff_ffff), 1);
}

fn one_frame() -> Vec<u8> {
    let mut ch = Chunk::new_plain(Kind::new("blob").unwrap(), b"hello".to_vec());
    let mut out: Vec<u8> = Vec::new();
    out.write_chunk(&mut ch).unwrap();
    out
}

#[test]
fn read_refuses_a_bad_magic() {
    let mut frame = one_frame();
    frame[3] ^= 1;
    let mut rd = Cursor::new(&frame);
    match rd.read_chunk() {
        Err(Error::CorruptChunk(msg)) => assert_eq!(msg, "Invalid magic"),
        _ => panic!("the magic should be refused"),
    }
    // Nothing of it has been read.
    assert_eq!(rd.pos(), 0);
}

#[test]
fn read_refuses_a_short_frame() {
    let frame = one_frame();
    for cut in [0usize, 1, 47, 48, 52, 63] {
        let mut rd = Cursor::new(&frame[..cut]);
        assert!(rd.read_chunk().unwrap_err().is_unexpected_eof());
        assert_eq!(rd.pos(), 0);
    }
}

#[test]
fn read_refuses_a_kind_that_is_no_kind() {
    let mut frame = one_frame();
    frame[25] = 0xff;
    assert!(matches!(Cursor::new(&frame).read_chunk(), Err(Error::Utf8Error)));
    let mut frame = one_frame();
    frame[25] = 0xc3;
    frame[26] = 0xa9;
    assert!(matches!(Cursor::new(&frame).read_chunk(), Err(Error::NonAsciiKind)));
}

#[test]
fn read_works_out_the_oid_of_a_plain_chunk_afresh() {
    let mut frame = one_frame();
    // What the frame states for the object-id is not looked at.
    frame[30] ^= 0xff;
    let back = Cursor::new(&frame).read_chunk().unwrap();
    assert_eq!(*back.oid(), Oid::from_data(Kind::new("blob").unwrap(), b"hello"));
}

#[test]
fn write_refuses_a_chunk_without_payload() {
    let z = vec![9u8; 200];
    let mut ch = Chunk::new_compressed(Kind::new("blob").unwrap(), Oid::from_u32(3), z, 100);
    let mut out: Vec<u8> = vec![1, 2, 3];
    assert!(matches!(out.write_chunk(&mut ch), Err(Error::CorruptChunk(_))));
    assert_eq!(out, vec![1, 2, 3]);
}

#[test]
fn read_from_the_middle_of_a_file() {
    let mut file: Vec<u8> = Vec::new();
    let mut a = testutil::make_random_chunk(100, 1);
    let mut b = testutil::make_random_chunk(200, 2);
    file.write_chunk(&mut a).unwrap();
    let second = file.len();
    file.write_chunk(&mut b).unwrap();
    let mut rd = Cursor::at(&file, second);
    let mut back = rd.read_chunk().unwrap();
    assert_eq!(back.oid(), b.oid());
    assert_eq!(back.data().unwrap().as_slice(), b.data().unwrap().as_slice());
    assert_eq!(rd.pos(), file.len());
}
