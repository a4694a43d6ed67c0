use cas::endian::{put_bytes, put_u32};
use cas::pool::adump::names::{four, pool_file_name, pool_index_name, pool_serial, tmpify};
use cas::pool::adump::{AdumpPool, PoolProps, Site};
use cas::Error;
use cas::text::{ascii_string, decimal, is_ascii_bytes, is_utf8, parse_bool, parse_u32};

#[test]
fn decimal_writes_numbers() {
    assert_eq!(decimal(0), b"0");
    assert_eq!(decimal(9), b"9");
    assert_eq!(decimal(10), b"10");
    assert_eq!(decimal(671088640), b"671088640");
    assert_eq!(decimal(u32::MAX), b"4294967295");
}

#[test]
fn parse_u32_reads_numbers() {
    assert_eq!(parse_u32(b"0"), Some(0));
    assert_eq!(parse_u32(b"007"), Some(7));
    assert_eq!(parse_u32(b"+42"), Some(42));
    assert_eq!(parse_u32(b"4294967295"), Some(u32::MAX));
    assert_eq!(parse_u32(b"4294967296"), None);
    assert_eq!(parse_u32(b"00000000004294967295"), Some(u32::MAX));
    assert_eq!(parse_u32(b""), None);
    assert_eq!(parse_u32(b"+"), None);
    assert_eq!(parse_u32(b"++1"), None);
    assert_eq!(parse_u32(b"-1"), None);
    assert_eq!(parse_u32(b"1 "), None);
    for n in [0u32, 1, 99, 100, 65535, 1 << 31, u32::MAX] {
        assert_eq!(parse_u32(&decimal(n)), Some(n));
        assert_eq!(parse_u32(n.to_string().as_bytes()), Some(n));
    }
}

#[test]
fn parse_bool_reads_true_and_false() {
    assert_eq!(parse_bool(b"true"), Some(true));
    assert_eq!(parse_bool(b"false"), Some(false));
    assert_eq!(parse_bool(b"TRUE"), None);
    assert_eq!(parse_bool(b"truee"), None);
    assert_eq!(parse_bool(b"fals"), None);
    assert_eq!(parse_bool(b""), None);
}

#[test]
fn utf8_and_ascii() {
    assert!(is_utf8(b"plain"));
    assert!(is_utf8("\u{2022}".as_bytes()));
    assert!(!is_utf8(&[0xe2, 0x80]));
    assert!(is_ascii_bytes(b"plain"));
    assert!(!is_ascii_bytes("\u{2022}".as_bytes()));
    assert!(is_ascii_bytes(b""));
    assert_eq!(ascii_string(b"pool".to_vec()), "pool");
}

#[test]
fn little_endian_bytes() {
    let mut out = vec![0xaa];
    put_u32(&mut out, 0x01020304);
    assert_eq!(out, vec![0xaa, 4, 3, 2, 1]);
    put_bytes(&mut out, &[7, 8]);
    assert_eq!(out, vec![0xaa, 4, 3, 2, 1, 7, 8]);
    let mut out = Vec::new();
    put_u32(&mut out, 0xffff_ffff);
    put_u32(&mut out, 0);
    put_u32(&mut out, 256);
    assert_eq!(out, vec![255, 255, 255, 255, 0, 0, 0, 0, 0, 1, 0, 0]);
}

#[test]
fn pool_file_names() {
    assert_eq!(pool_file_name(0), "pool-data-0000.data");
    assert_eq!(pool_file_name(7), "pool-data-0007.data");
    assert_eq!(pool_file_name(1234), "pool-data-1234.data");
    assert_eq!(pool_file_name(9999), "pool-data-9999.data");
    assert_eq!(pool_file_name(10000), "pool-data-10000.data");
    assert_eq!(pool_index_name(42), "pool-data-0042.idx");
    assert_eq!(four(5), b"0005");
    assert_eq!(four(123456), b"123456");
    assert_eq!(tmpify("pool-data-0042.idx").unwrap(), "pool-data-0042.idx.tmp");
    assert!(matches!(tmpify(""), Err(Error::PathError(_))));
}

#[test]
fn pool_serial_reads_names() {
    assert_eq!(pool_serial("pool-data-0000.data"), Some(0));
    assert_eq!(pool_serial("pool-data-0042.data"), Some(42));
    assert_eq!(pool_serial("pool-data-9999.data"), Some(9999));
    for n in [0u32, 1, 10, 999, 1000, 9999] {
        assert_eq!(pool_serial(&pool_file_name(n)), Some(n));
    }
    for bad in [
        "",
        "pool-data-0042.idx",
        "pool-data-042.data",
        "pool-data-00042.data",
        "pool-data-10000.data",
        "pool-data-0042xdata",
        "pool-data-0042.data ",
        "Pool-data-0042.data",
        "pool-data-004a.data",
        "pool-data-0042.dat",
        "pool-data-\u{661}\u{662}\u{663}\u{664}.data",
        "xpool-data-0042.data",
    ] {
        assert_eq!(pool_serial(bad), None, "{:?}", bad);
    }
}

#[test]
fn uuid_text_and_back() {
    let id = 0xc39b7bde_b83a_47b2_b597_6546f08c9183u128;
    let plan = AdumpPool::new_builder("p".to_string()).create_as(Site::Vacant, id).unwrap();
    assert!(plan.props.starts_with("uuid=c39b7bde-b83a-47b2-b597-6546f08c9183\n"));
    assert_eq!(PoolProps::read(plan.props.as_bytes()).unwrap().uuid, id);
    let read = |uuid: &str| PoolProps::read(format!("uuid={}\nnewfile=true\nlimit=1\n", uuid).as_bytes());
    assert_eq!(read("c39b7bde-b83a-47b2-b597-6546f08c9183").unwrap().uuid, id);
    assert!(matches!(read("c39b7bde-b83a-47b2-b597-6546f08c918"), Err(Error::Uuid)));
    assert!(matches!(read(""), Err(Error::Uuid)));
    let zero = AdumpPool::new_builder("p".to_string()).create_as(Site::Vacant, 0).unwrap();
    assert!(zero.props.starts_with("uuid=00000000-0000-0000-0000-000000000000\n"));
    // A pool that is made gets a random UUID, which says that it is one.
    let fresh = AdumpPool::new_builder("p".to_string()).create(Site::Vacant).unwrap();
    assert_eq!(PoolProps::read(fresh.props.as_bytes()).unwrap().uuid, fresh.uuid);
    assert_eq!((fresh.uuid >> 76) & 0xf, 4);
}
