use cas::oid::{Context, Side};
use cas::{Kind, Oid};

fn tweaker(input: &str, expect: &str, amount: i16) {
    let mut work = Oid::from_hex(input).unwrap();
    let mut tmp = amount;
    while tmp > 0 {
        work = work.inc();
        tmp -= 1;
    }
    while tmp < 0 {
        work = work.dec();
        tmp += 1;
    }
    if Oid::from_hex(expect).unwrap() != work {
        panic!("Expecting {}, but got {}, amount {}", expect, work.to_hex(), amount);
    }
}

#[test]
fn oid_test_tweak() {
    let a = Oid::from_data(Kind::new("blob").unwrap(), "1".as_bytes());
    let b = a.inc();
    assert!(a != b);
    let c = b.dec();
    assert_eq!(a, c);

    tweaker(
        "0000000000000000000000000000000000000000",
        "0000000000000000000000000000000000000001",
        1,
    );
    tweaker(
        "0000000000000000000000000000000000000000",
        "0000000000000000000000000000000000000100",
        256,
    );
    tweaker(
        "00000000000000000000000000000000ffffffff",
        "0000000000000000000000000000000100000000",
        1,
    );
    tweaker(
        "ffffffffffffffffffffffffffffffffffffffff",
        "0000000000000000000000000000000000000000",
        1,
    );

    tweaker(
        "ffffffffffffffffffffffffffffffffffffffff",
        "fffffffffffffffffffffffffffffffffffffffe",
        -1,
    );
    tweaker(
        "ffffffffffffffffffffffffffffffffffffffff",
        "fffffffffffffffffffffffffffffffffffffeff",
        -256,
    );
    tweaker(
        "ffffffffffffffffffffffffffffffff00000000",
        "fffffffffffffffffffffffffffffffeffffffff",
        -1,
    );
    tweaker(
        "0000000000000000000000000000000000000000",
        "ffffffffffffffffffffffffffffffffffffffff",
        -1,
    );
}

#[test]
fn oid_data_hashes() {
    assert!(
        Oid::from_data(Kind::new("blob").unwrap(), "Simple".as_bytes())
            == Oid::from_hex("9d91380b823559dd2a4ee5bce3fcc697c56ba3f8").unwrap()
    );
    assert!(
        Oid::from_data(Kind::new("zot ").unwrap(), "".as_bytes())
            == Oid::from_hex("bfc24abdb6cec5eae7d3dd84686117902ad2b562").unwrap()
    );
}

#[test]
fn oid_invalid_oid() {
    assert!(Oid::from_hex("9d91380b823559dd2a4ee5bce3fcc697c56ba3") == None);
}

#[test]
fn oid_of_empty_blob() {
    let oid = Oid::from_data(Kind::new("blob").unwrap(), &[]);
    assert_eq!(oid.to_hex(), "0fd0bcfb44f83e7d5ac7a8922578276b9af48746");
}

#[test]
fn oid_of_single_byte() {
    let oid = Oid::from_data(Kind::new("blob").unwrap(), &[0x41]);
    assert_eq!(oid.to_hex(), "da52d378aaa45fb84b9269adeb66ad50406a2e01");
    assert_eq!(oid, Oid::from_data(Kind(0x626f6c62), b"A"));
}

#[test]
fn oid_from_u32_is_the_blob_of_the_decimal_text() {
    assert_eq!(Oid::from_u32(0), Oid::from_data(Kind::new("blob").unwrap(), b"0"));
    assert_eq!(Oid::from_u32(12345), Oid::from_data(Kind::new("blob").unwrap(), b"12345"));
    assert_eq!(
        Oid::from_u32(4294967295),
        Oid::from_data(Kind::new("blob").unwrap(), b"4294967295")
    );
}

#[test]
fn oid_hex_round_trip_and_case() {
    let text = "00123456789abcdef0fedcba9876543210ffee01";
    let oid = Oid::from_hex(text).unwrap();
    assert_eq!(oid.to_hex(), text);
    assert_eq!(oid.0[0], 0x00);
    assert_eq!(oid.0[1], 0x12);
    assert_eq!(oid.0[19], 0x01);
    let upper = Oid::from_hex("00123456789ABCDEF0FEDCBA9876543210FFEE01").unwrap();
    assert_eq!(upper, oid);
}

#[test]
fn oid_from_hex_refuses_what_is_not_forty_digits() {
    assert!(Oid::from_hex("").is_none());
    assert!(Oid::from_hex("00123456789abcdef0fedcba9876543210ffee0g").is_none());
    assert!(Oid::from_hex("00123456789abcdef0fedcba9876543210ffee011").is_none());
    // White space among the digits is no digit.
    assert!(Oid::from_hex(" 0123456789abcdef0fedcba9876543210ffee01").is_none());
    assert!(Oid::from_hex("0012 3456789abcdef0fedcba9876543210ffee01").is_none());
    // Forty bytes, but fewer characters.
    assert!(Oid::from_hex("\u{e9}0123456789abcdef0fedcba9876543210ffee").is_none());
}

#[test]
fn oid_from_raw_and_size() {
    let raw: Vec<u8> = (1..=20).collect();
    let oid = Oid::from_raw(&raw);
    assert_eq!(&oid.0[..], &raw[..]);
    assert_eq!(Oid::size(), 20);
}

#[test]
fn oid_side_orders_by_the_first_difference() {
    let a = Oid::from_hex("0100000000000000000000000000000000000000").unwrap();
    let b = Oid::from_hex("00ffffffffffffffffffffffffffffffffffffff").unwrap();
    assert_eq!(a.side(&b), Side::After);
    assert_eq!(b.side(&a), Side::Before);
    assert_eq!(a.side(&a), Side::Same);
    assert!(a.same(&a));
    assert!(!a.same(&b));
    assert!(b < a);
}

#[test]
fn oid_as_mut_bytes_writes_through() {
    let mut oid = Oid::from_u32(7);
    let before = oid;
    oid.as_mut_bytes()[3] ^= 0x55;
    assert_ne!(oid, before);
    assert_eq!(oid.0[3], before.0[3] ^ 0x55);
}

#[test]
fn test_context() {
    let mut buf = Context::new();
    buf.update(&[65u8]);
    let id = buf.finish();
    assert_eq!(id.to_hex(), "6dcd4ce23d88e2ee9568ba546c007c63d9131c1b");
}

#[test]
fn context_takes_its_message_in_pieces() {
    let mut a = Context::new();
    a.update(b"blob");
    a.update(b"");
    a.update(b"Simple");
    let mut b = Context::new();
    b.update(b"blobSimple");
    assert_eq!(a.finish(), b.finish());
    assert_eq!(a.finish().to_hex(), "9d91380b823559dd2a4ee5bce3fcc697c56ba3f8");
    assert_eq!(Context::new().finish().to_hex(), "da39a3ee5e6b4b0d3255bfef95601890afd80709");
}
