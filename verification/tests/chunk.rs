use cas::chunk::{Chunk, Data};
use cas::testutil::{boundary_sizes, make_random_string};
use cas::zlib::{deflate, inflate};
use cas::{Error, Kind, Oid};

fn single_chunk(index: u32) {
    let text = make_random_string(index, index);
    let mut c1 = Chunk::new_plain(Kind::new("blob").unwrap(), text.clone().into_bytes());
    assert_eq!(c1.kind(), Kind::new("blob").unwrap());
    assert_eq!(c1.data().unwrap().as_slice(), text.as_bytes());

    let comp: Option<Vec<u8>> = c1.zdata().map(|z| z.as_slice().to_vec());
    match comp {
        None => (), // Fine if not compressible.
        Some(ref comp) => {
            match inflate(&comp[..], text.len()) {
                None => panic!("Unable to decompress data"),
                Some(raw) => assert_eq!(&raw[..], text.as_bytes()),
            }

            // Make a new chunk out of the compressed data.
            let mut c2 = Chunk::new_compressed(c1.kind(), c1.oid().clone(), comp[..].to_vec(), c1.data_len());
            assert_eq!(c1.kind(), c2.kind());
            assert_eq!(c1.oid(), c2.oid());

            assert_eq!(c1.data().unwrap().as_slice(), c2.data().unwrap().as_slice());

            // Ensure we can pull the uncompressed data out.
            let d2 = c2.into_bytes().unwrap();
            assert_eq!(c1.data().unwrap().as_slice(), &d2[..]);
        }
    };
}

#[test]
fn chunk_basic() {
    for size in boundary_sizes() {
        single_chunk(size);
    }
}

fn check(len: u32) {
    let text = make_random_string(len, len).into_bytes();

    match deflate(&text[..]) {
        None => (),
        Some(ztext) => match inflate(&ztext[..], text.len()) {
            None => {
                panic!("Unable to re-inflate compresed data");
            }
            Some(orig) => {
                assert_eq!(text, orig);
            }
        },
    }
}

#[test]
fn compressed() {
    for size in boundary_sizes() {
        check(size);
    }
}

#[test]
fn deflate_gives_only_what_is_shorter() {
    // Nothing can be made shorter than nothing, and a few bytes do not pay.
    assert!(deflate(&[]).is_none());
    assert!(deflate(b"abc").is_none());
    let text = vec![b'a'; 1000];
    let z = deflate(&text).unwrap();
    assert!(z.len() < text.len());
    // A zlib stream begins with its method and window.
    assert_eq!(z[0], 0x78);
    assert_eq!(inflate(&z, 1000).unwrap(), text);
}

#[test]
fn inflate_wants_the_stated_length() {
    let text = vec![b'a'; 1000];
    let z = deflate(&text).unwrap();
    assert!(inflate(&z, 999).is_none());
    assert!(inflate(&z, 1001).is_none());
    assert!(inflate(b"this is no zlib stream", 5).is_none());
    assert!(inflate(&z[..z.len() - 4], 1000).is_none());
}

#[test]
fn empty_chunk() {
    let mut c = Chunk::new_plain(Kind::new("blob").unwrap(), vec![]);
    assert_eq!(c.oid().to_hex(), "0fd0bcfb44f83e7d5ac7a8922578276b9af48746");
    assert_eq!(c.data_len(), 0);
    assert!(c.zdata().is_none());
    assert_eq!(c.data().unwrap().len(), 0);
    assert_eq!(c.into_bytes().unwrap(), Vec::<u8>::new());
}

#[test]
fn plain_chunk_has_the_oid_of_kind_and_payload() {
    let kind = Kind::new("dir ").unwrap();
    let c = Chunk::new_plain(kind, b"payload".to_vec());
    assert_eq!(*c.oid(), Oid::from_data(kind, b"payload"));
    assert_eq!(c.data_len(), 7);
}

#[test]
fn zdata_is_shorter_and_unpacks_to_data() {
    let text = make_random_string(5000, 17).into_bytes();
    let mut c = Chunk::new_plain(Kind::new("blob").unwrap(), text.clone());
    let z = c.zdata().expect("words compress").as_slice().to_vec();
    assert!(z.len() < c.data_len() as usize);
    assert_eq!(inflate(&z, c.data_len() as usize).unwrap(), text);
    // Asked again, the chunk gives the same.
    assert_eq!(c.zdata().unwrap().as_slice(), &z[..]);
    assert!(matches!(c.zdata(), Some(Data::Cell(_))));
    assert!(matches!(c.data(), Ok(Data::VecCell(_))));
}

#[test]
fn compressed_chunk_keeps_what_it_was_given() {
    let text = make_random_string(5000, 18).into_bytes();
    let z = deflate(&text).unwrap();
    let oid = Oid::from_u32(99);
    let mut c = Chunk::new_compressed(Kind::new("blob").unwrap(), oid, z.clone(), 5000);
    // The object-id is taken on trust.
    assert_eq!(*c.oid(), oid);
    assert_eq!(c.data_len(), 5000);
    assert_eq!(c.zdata().unwrap().as_slice(), &z[..]);
    assert_eq!(c.data().unwrap().as_slice(), &text[..]);
    assert_eq!(c.into_bytes().unwrap(), text);
}

#[test]
fn compressed_chunk_that_is_not_shorter_lends_no_zdata() {
    let z = deflate(&vec![b'a'; 1000]).unwrap();
    let long = z.len() as u32;
    // The stated length is that of the stream itself: nothing is won.
    let mut c = Chunk::new_compressed(Kind::new("blob").unwrap(), Oid::from_u32(1), z.clone(), long);
    assert!(c.zdata().is_none());
    // And it does not unpack to that length.
    assert!(matches!(c.data(), Err(Error::CorruptChunk(_))));
}

#[test]
fn corrupt_chunk_has_no_data() {
    let mut c = Chunk::new_compressed(Kind::new("blob").unwrap(), Oid::from_u32(1), vec![1, 2, 3], 100);
    assert!(matches!(c.data(), Err(Error::CorruptChunk(_))));
    assert_eq!(c.data_len(), 100);
    // What it was given is short enough to be lent out all the same.
    assert_eq!(c.zdata().unwrap().as_slice(), &[1, 2, 3]);
    assert!(matches!(c.into_bytes(), Err(Error::CorruptChunk(_))));

    // The right stream with the wrong length is corrupt too.
    let z = deflate(&vec![b'a'; 1000]).unwrap();
    let mut c = Chunk::new_compressed(Kind::new("blob").unwrap(), Oid::from_u32(1), z, 1001);
    assert!(matches!(c.data(), Err(Error::CorruptChunk(_))));
}
