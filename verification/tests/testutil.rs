use cas::testutil::{
    boundary_sizes, make_kinded_random_chunk, make_random_bytes, make_random_chunk,
    make_random_string, SimpleRandom,
};
use cas::{Kind, Oid};
use std::collections::HashSet;

#[test]
fn testutil_random_strings() {
    fn check(size: u32, index: u32) -> String {
        let text = make_random_string(size, index);
        assert!(text.len() == size as usize);
        text
    }
    let mut texts: HashSet<String> = HashSet::new();
    for &i in boundary_sizes().iter() {
        let text = check(i, i);
        assert!(texts.insert(text));
    }
}

#[test]
fn testutil_test_boundaries() {
    let sizes_vec = boundary_sizes();
    let sizes = &sizes_vec[..];

    // Make sure they are unique and incrementing.
    let mut prior = sizes[0];
    for &sz in sizes[1..].iter() {
        assert!(sz > prior);
        prior = sz;
    }
}

#[test]
fn boundary_sizes_are_the_powers_of_two_and_their_neighbours() {
    let sizes = boundary_sizes();
    let mut expect: Vec<u32> = Vec::new();
    for i in 0..19 {
        let bit = 1u32 << i;
        for n in [bit - 1, bit, bit + 1] {
            if !expect.contains(&n) {
                expect.push(n);
            }
        }
    }
    expect.sort();
    assert_eq!(sizes, expect);
    assert_eq!(sizes[0], 0);
    assert_eq!(*sizes.last().unwrap(), 262145);
    assert_eq!(sizes.len(), 54);
    for n in [0u32, 1, 2, 3, 15, 16, 17, 255, 256, 257, 65535, 65536, 65537] {
        assert!(sizes.contains(&n));
    }
}

#[test]
fn simple_random_is_the_known_sequence() {
    let mut gen = SimpleRandom::new(0);
    assert_eq!(gen.next(80), 12345 % 80);
    assert_eq!(gen.state, 12345);
    let expect = ((12345u64 * 1103515245 + 12345) % 0x8000_0000) as u32;
    assert_eq!(gen.next(1000), expect % 1000);
    assert_eq!(gen.state, expect);
    // The product goes beyond 32 bits and is cut off.
    let mut gen = SimpleRandom::new(0xffff_ffff);
    let expect = ((0xffff_ffffu64 * 1103515245 + 12345) % 0x8000_0000) as u32;
    assert_eq!(gen.next(7), expect % 7);
}

#[test]
fn random_string_begins_with_index_and_size() {
    assert_eq!(make_random_string(0, 5), "");
    assert_eq!(make_random_string(3, 12345), "123");
    assert_eq!(make_random_string(4, 7), "7-4 ");
    let text = make_random_string(64, 3);
    assert!(text.starts_with("3-64 "));
    assert_eq!(text.len(), 64);
    assert!(text.is_ascii());
    assert_eq!(make_random_bytes(64, 3), text.clone().into_bytes());
    // The same size and index give the same text.
    assert_eq!(make_random_string(64, 3), text);
    assert_ne!(make_random_string(64, 4), text);
    // The first word is the one that the generator names.
    let mut gen = SimpleRandom::new(3);
    let words = ["the", "be", "to", "of", "and", "a", "in", "that", "have", "I"];
    let first = gen.next(80) as usize;
    if first < words.len() {
        assert!(text[5..].starts_with(words[first]));
    }
}

#[test]
fn random_chunks_are_blobs_of_the_random_text() {
    let mut c = make_random_chunk(100, 9);
    assert_eq!(c.kind(), Kind::new("blob").unwrap());
    assert_eq!(c.data_len(), 100);
    let text = make_random_bytes(100, 9);
    assert_eq!(c.data().unwrap().as_slice(), &text[..]);
    assert_eq!(*c.oid(), Oid::from_data(Kind::new("blob").unwrap(), &text));
    let mut d = make_kinded_random_chunk(Kind::new("dir ").unwrap(), 100, 9);
    assert_eq!(d.kind(), Kind::new("dir ").unwrap());
    assert_eq!(d.data().unwrap().as_slice(), &text[..]);
    assert_ne!(d.oid(), c.oid());
}
