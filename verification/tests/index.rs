use cas::pool::adump::index::{FileIndex, Index, IndexInfo, IndexUpdate, IterItem, PairIndex, RamIndex};
use cas::{Error, Kind, Oid};
use std::collections::BTreeMap;

struct Tracker {
    nodes: BTreeMap<u32, Kind>,
    kinds: Vec<Kind>,
}

impl Tracker {
    fn new() -> Tracker {
        let mut kinds = vec![];
        kinds.push(Kind::new("blob").unwrap());
        kinds.push(Kind::new("idx0").unwrap());
        kinds.push(Kind::new("idx1").unwrap());
        kinds.push(Kind::new("data").unwrap());
        kinds.push(Kind::new("dir ").unwrap());

        Tracker { nodes: BTreeMap::new(), kinds: kinds }
    }

    fn add<U: IndexUpdate>(&mut self, index: &mut U, num: u32) {
        if self.nodes.contains_key(&num) {
            panic!("Test error, duplicate: {}", num);
        }
        let kind = self.kinds[num as usize % self.kinds.len()];
        index.insert(Oid::from_u32(num), num, kind);
        self.nodes.insert(num, kind);
    }

    fn check<I: Index>(&self, index: &I) {
        // Ensure we can find each node.
        for (&num, &kind) in &self.nodes {
            let oid = Oid::from_u32(num);

            assert!(index.contains_key(&oid));
            match index.get(&oid) {
                None => panic!("Couldn't find key"),
                Some(info) => {
                    assert_eq!(info.offset, num);
                    assert_eq!(info.kind, kind);
                }
            }

            let oid2 = oid.inc();
            assert!(!index.contains_key(&oid2));
            match index.get(&oid2) {
                None => (),
                Some(_) => panic!("Key should not be present"),
            }

            let oid3 = oid.dec();
            assert!(!index.contains_key(&oid3));
            match index.get(&oid3) {
                None => (),
                Some(_) => panic!("Key should not be present"),
            }
        }
    }
}

#[test]
fn test_index() {
    let mut track = Tracker::new();
    let mut r1 = PairIndex::empty();

    let count: u32 = 10000;

    for ofs in 0..count {
        track.add(&mut r1, ofs);
    }

    track.check(&r1);

    let name1 = FileIndex::save(count, r1.items()).unwrap();

    match PairIndex::load(&name1, count - 1) {
        Err(Error::InvalidIndex(_)) => (),
        Err(e) => panic!("Unexpected error: {:?}", e),
        Ok(_) => panic!("Shouldn't be able to load index with size incorrect"),
    }

    match PairIndex::load(&[], count) {
        Err(_) => (),
        Ok(_) => panic!("Shouldn't be able to load non-existant index"),
    }

    let mut r2 = PairIndex::load(&name1, count).unwrap();
    track.check(&r2);

    // Add some more.
    for ofs in count..2 * count {
        track.add(&mut r2, ofs);
    }
    track.check(&r2);

    let name2 = FileIndex::save(2 * count, r2.items()).unwrap();

    let r3 = PairIndex::load(&name2, 2 * count).unwrap();
    track.check(&r3);
}

#[test]
fn test_empty() {
    let fi = FileIndex::empty();
    assert!(!fi.contains_key(&Oid::from_u32(1)));
}

fn blob() -> Kind {
    Kind::new("blob").unwrap()
}

fn oid_of(first: u8, last: u8) -> Oid {
    let mut raw = [0u8; 20];
    raw[0] = first;
    raw[19] = last;
    Oid(raw)
}

#[test]
fn empty_index_file_byte_for_byte() {
    let bytes = FileIndex::save(7, vec![]).unwrap();
    let mut expect: Vec<u8> = Vec::new();
    expect.extend_from_slice(b"ldumpidx");
    expect.extend_from_slice(&4u32.to_le_bytes());
    expect.extend_from_slice(&7u32.to_le_bytes());
    expect.extend_from_slice(&[0u8; 1024]);
    expect.extend_from_slice(&0u32.to_le_bytes());
    assert_eq!(bytes, expect);
    let back = FileIndex::load(&bytes, 7).unwrap();
    assert_eq!(back.len(), 0);
}

#[test]
fn index_file_byte_for_byte() {
    let a = oid_of(0x01, 0x0a);
    let b = oid_of(0x01, 0x0b);
    let c = oid_of(0xfe, 0x0c);
    let dir = Kind::new("dir ").unwrap();
    // They come out of order, and the kind that the first in order has
    // stands first in the kind table.
    let nodes = vec![
        IterItem { oid: &c, kind: blob(), offset: 300 },
        IterItem { oid: &a, kind: dir, offset: 100 },
        IterItem { oid: &b, kind: blob(), offset: 200 },
    ];
    let bytes = FileIndex::save(0x01020304, nodes).unwrap();

    let mut expect: Vec<u8> = Vec::new();
    expect.extend_from_slice(b"ldumpidx");
    expect.extend_from_slice(&[4, 0, 0, 0]);
    expect.extend_from_slice(&[4, 3, 2, 1]);
    for first in 0..256u32 {
        let count: u32 = if first == 0 {
            0
        } else if first < 0xfe {
            2
        } else {
            3
        };
        expect.extend_from_slice(&count.to_le_bytes());
    }
    expect.extend_from_slice(&a.0);
    expect.extend_from_slice(&b.0);
    expect.extend_from_slice(&c.0);
    expect.extend_from_slice(&100u32.to_le_bytes());
    expect.extend_from_slice(&200u32.to_le_bytes());
    expect.extend_from_slice(&300u32.to_le_bytes());
    expect.extend_from_slice(&2u32.to_le_bytes());
    expect.extend_from_slice(b"dir ");
    expect.extend_from_slice(b"blob");
    expect.extend_from_slice(&[0, 1, 1]);
    assert_eq!(bytes, expect);

    let back = FileIndex::load(&bytes, 0x01020304).unwrap();
    assert_eq!(back.len(), 3);
    assert_eq!(back.get(&a), Some(IndexInfo { offset: 100, kind: dir }));
    assert_eq!(back.get(&b), Some(IndexInfo { offset: 200, kind: blob() }));
    assert_eq!(back.get(&c), Some(IndexInfo { offset: 300, kind: blob() }));
    assert_eq!(back.get(&oid_of(0x01, 0x0c)), None);
    assert_eq!(back.get(&oid_of(0x00, 0x0a)), None);
    assert_eq!(back.get(&oid_of(0xff, 0x0c)), None);

    // The walk goes in the order of the object-ids.
    let mut walk = back.iter();
    let first = walk.next().unwrap();
    assert_eq!(*first.oid, a);
    assert_eq!(first.offset, 100);
    assert_eq!(first.kind, dir);
    assert_eq!(*walk.next().unwrap().oid, b);
    assert_eq!(*walk.next().unwrap().oid, c);
    assert!(walk.next().is_none());
    assert!(walk.next().is_none());
}

fn small_index() -> Vec<u8> {
    let a = oid_of(0x01, 0x0a);
    let b = oid_of(0x02, 0x0b);
    FileIndex::save(
        64,
        vec![
            IterItem { oid: &a, kind: blob(), offset: 0 },
            IterItem { oid: &b, kind: blob(), offset: 64 },
        ],
    )
    .unwrap()
}

fn fails_with(bytes: &[u8], size: u32, message: &str) {
    match FileIndex::load(bytes, size) {
        Err(Error::InvalidIndex(msg)) => assert_eq!(msg, message),
        other => panic!("expected {:?}, got {:?}", message, other.map(|_| ())),
    }
}

#[test]
fn load_refuses_bad_magic_version_and_size() {
    let good = small_index();
    assert!(FileIndex::load(&good, 64).is_ok());

    let mut bad = good.clone();
    bad[0] = b'L';
    fails_with(&bad, 64, "bad magic");

    let mut bad = good.clone();
    bad[8] = 5;
    fails_with(&bad, 64, "Version mismatch");

    fails_with(&good, 65, "Index size mismatch");
    fails_with(&good, 63, "Index size mismatch");
}

#[test]
fn load_refuses_a_short_file() {
    let good = small_index();
    for cut in [0usize, 7, 8, 11, 12, 15, 16, 1039, 1040, 1079, 1080, 1087, 1088, 1091, 1092, 1095, 1097] {
        match FileIndex::load(&good[..cut], 64) {
            Err(e) => assert!(e.is_unexpected_eof(), "cut at {}: {:?}", cut, e),
            Ok(_) => panic!("a file cut at {} should be refused", cut),
        }
    }
    assert_eq!(good.len(), 1098);
    // What stands behind the index is not looked at.
    let mut long = good.clone();
    long.extend_from_slice(b"more");
    assert!(FileIndex::load(&long, 64).is_ok());
}

#[test]
fn load_refuses_columns_that_do_not_fit() {
    let good = small_index();
    // The second object-id before the first.
    let mut bad = good.clone();
    bad[1040] = 0x03;
    fails_with(&bad, 64, "Index out of order");
    // The same object-id twice.
    let mut bad = good.clone();
    let first: Vec<u8> = bad[1040..1060].to_vec();
    bad[1060..1080].copy_from_slice(&first);
    fails_with(&bad, 64, "Index out of order");
    // A count by first byte that is not the count.
    let mut bad = good.clone();
    bad[16 + 4] = 2;
    fails_with(&bad, 64, "Index out of order");
    // An entry of a kind that the kind table has not.
    let mut bad = good.clone();
    let last = bad.len() - 1;
    bad[last] = 1;
    fails_with(&bad, 64, "Index out of order");
}

#[test]
fn load_refuses_a_kind_that_is_no_kind() {
    let good = small_index();
    let at = 1040 + 2 * 24 + 4;
    assert_eq!(&good[at..at + 4], b"blob");
    let mut bad = good.clone();
    bad[at + 1] = 0xff;
    assert!(matches!(FileIndex::load(&bad, 64), Err(Error::Utf8Error)));
    let mut bad = good.clone();
    bad[at + 1] = 0xc3;
    bad[at + 2] = 0xa9;
    assert!(matches!(FileIndex::load(&bad, 64), Err(Error::NonAsciiKind)));
}

#[test]
fn save_refuses_an_object_id_twice() {
    let a = oid_of(1, 1);
    let b = oid_of(1, 1);
    let nodes = vec![
        IterItem { oid: &a, kind: blob(), offset: 0 },
        IterItem { oid: &b, kind: blob(), offset: 64 },
    ];
    assert!(matches!(FileIndex::save(128, nodes), Err(Error::InvalidIndex(_))));
}

#[test]
fn top_counts_by_first_byte_after_load() {
    let mut pair = PairIndex::empty();
    for n in 0..2000u32 {
        pair.insert(Oid::from_u32(n), n, blob());
    }
    let bytes = pair.save(5).unwrap();
    let mut oids: Vec<Oid> = (0..2000u32).map(Oid::from_u32).collect();
    oids.sort();
    for first in 0..256usize {
        let count = oids.iter().filter(|o| o.0[0] as usize <= first).count() as u32;
        let at = 16 + 4 * first;
        assert_eq!(&bytes[at..at + 4], &count.to_le_bytes());
    }
    // The object-ids stand in strictly ascending order.
    for (i, oid) in oids.iter().enumerate() {
        assert_eq!(&bytes[1040 + 20 * i..1060 + 20 * i], &oid.0);
        if i > 0 {
            assert!(oids[i - 1] < *oid);
        }
    }
    let back = FileIndex::load(&bytes, 5).unwrap();
    let mut walk = back.iter();
    for oid in &oids {
        assert_eq!(walk.next().unwrap().oid, oid);
    }
    assert!(walk.next().is_none());
}

#[test]
fn size_change_is_detected() {
    let mut pair = PairIndex::empty();
    pair.insert(Oid::from_u32(1), 0, blob());
    let bytes = pair.save(1024).unwrap();
    assert!(PairIndex::load(&bytes, 1024).is_ok());
    for other in [0u32, 1023, 1025, 2048, u32::MAX] {
        assert!(matches!(PairIndex::load(&bytes, other), Err(Error::InvalidIndex(_))));
    }
}

#[test]
fn ram_index_keeps_order() {
    let mut ram = RamIndex::new();
    assert!(ram.is_empty());
    for n in (0..100u32).rev() {
        RamIndex::insert(&mut ram, Oid::from_u32(n), n, blob());
    }
    assert_eq!(ram.len(), 100);
    assert!(!ram.is_empty());
    let mut walk = ram.iter();
    let mut prior: Option<Oid> = None;
    let mut seen = 0;
    while let Some(item) = walk.next() {
        if let Some(p) = prior {
            assert!(p < *item.oid);
        }
        assert_eq!(*item.oid, Oid::from_u32(item.offset));
        prior = Some(*item.oid);
        seen += 1;
    }
    assert_eq!(seen, 100);
    assert_eq!(ram.get(&Oid::from_u32(5)), Some(IndexInfo { offset: 5, kind: blob() }));
    assert_eq!(ram.get(&Oid::from_u32(100)), None);
    assert!(ram.contains_key(&Oid::from_u32(99)));
    // What is not there yet is put in, and nothing else changes.
    assert!(!ram.contains_key(&Oid::from_u32(100)));
    RamIndex::insert(&mut ram, Oid::from_u32(100), 5000, Kind::new("dir ").unwrap());
    assert_eq!(ram.len(), 101);
    assert_eq!(
        ram.get(&Oid::from_u32(100)),
        Some(IndexInfo { offset: 5000, kind: Kind::new("dir ").unwrap() })
    );
    assert_eq!(ram.get(&Oid::from_u32(5)), Some(IndexInfo { offset: 5, kind: blob() }));
}

#[test]
fn pair_index_lays_ram_over_file() {
    let mut first = PairIndex::empty();
    assert!(!first.is_dirty());
    first.insert(Oid::from_u32(1), 10, blob());
    first.insert(Oid::from_u32(2), 20, blob());
    assert!(first.is_dirty());
    let bytes = first.save(99).unwrap();

    let mut pair = PairIndex::load(&bytes, 99).unwrap();
    assert!(!pair.is_dirty());
    assert!(pair.contains_key(&Oid::from_u32(1)));
    pair.insert(Oid::from_u32(3), 30, blob());
    assert!(pair.is_dirty());
    assert_eq!(pair.get(&Oid::from_u32(3)), Some(IndexInfo { offset: 30, kind: blob() }));
    assert_eq!(pair.get(&Oid::from_u32(2)), Some(IndexInfo { offset: 20, kind: blob() }));
    assert_eq!(pair.get(&Oid::from_u32(4)), None);

    // The entries of the file come first, then those that were put in.
    let items = pair.items();
    assert_eq!(items.len(), 3);
    assert_eq!(*items[2].oid, Oid::from_u32(3));
    let mut file_part = vec![*items[0].oid, *items[1].oid];
    let sorted = {
        let mut s = file_part.clone();
        s.sort();
        s
    };
    assert_eq!(file_part, sorted);
    file_part.sort();
    assert_eq!(file_part, {
        let mut both = vec![Oid::from_u32(1), Oid::from_u32(2)];
        both.sort();
        both
    });
}

#[test]
fn many_kinds_round_trip() {
    // 256 kinds are as many as a byte can name.
    let mut pair = PairIndex::empty();
    let mut kinds: Vec<Kind> = Vec::new();
    for n in 0..256u32 {
        let text = format!("k{:03}", n);
        kinds.push(Kind::new(&text).unwrap());
    }
    for n in 0..1000u32 {
        pair.insert(Oid::from_u32(n), n, kinds[(n % 256) as usize]);
    }
    let bytes = pair.save(0).unwrap();
    let back = PairIndex::load(&bytes, 0).unwrap();
    for n in 0..1000u32 {
        assert_eq!(
            back.get(&Oid::from_u32(n)),
            Some(IndexInfo { offset: n, kind: kinds[(n % 256) as usize] })
        );
    }
}
