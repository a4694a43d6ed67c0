use cas::{Error, Kind};

#[test]
fn test_new() {
    assert_eq!(Kind::new("blob").unwrap(), Kind(0x626f6c62));

    assert!(matches!(Kind::new("bloby"), Err(Error::BadKindLength)));
    assert!(matches!(Kind::new("blo"), Err(Error::BadKindLength)));
    assert!(matches!(Kind::new("b\u{2022}b"), Err(Error::NonAsciiKind)));
    assert!(matches!(Kind::new("bl\u{2022}b"), Err(Error::NonAsciiKind)));
    assert!(matches!(Kind::new("blo\u{2022}b"), Err(Error::NonAsciiKind)));
}

#[test]
fn test_bytes() {
    assert_eq!(Kind::new("blob").unwrap().bytes(), &[0x62, 0x6c, 0x6f, 0x62]);
}

#[test]
fn test_string() {
    assert_eq!(Kind::new("blob").unwrap().to_string(), "blob");
}

#[test]
fn test_debug() {
    let k = Kind::new("blob").unwrap();
    assert_eq!(k.debug(), "Kind(\"blob\")");
}

#[test]
fn kind_from_bytes() {
    assert_eq!(Kind::from_bytes(b"blob").unwrap(), Kind(0x626f6c62));
    assert!(matches!(Kind::from_bytes(&[0x62, 0xff, 0x6f, 0x62]), Err(Error::Utf8Error)));
    assert!(matches!(Kind::from_bytes(&[0x62, 0xc3, 0xa9, 0x62]), Err(Error::NonAsciiKind)));
    assert!(matches!(Kind::from_bytes(b"blo"), Err(Error::BadKindLength)));
}

#[test]
fn kinds() {
    assert!(Kind::new("blob").unwrap().bytes() == vec![98, 108, 111, 98]);
    assert!(Kind::new("abcd").unwrap().bytes() == vec![97, 98, 99, 100]);
}

#[test]
fn kind_empty_text_is_too_short() {
    assert!(matches!(Kind::new(""), Err(Error::BadKindLength)));
}

#[test]
fn kind_textual() {
    assert_eq!(Kind::new("dir ").unwrap().textual(), "dir ");
    assert_eq!(Kind(0xffff_ffff).textual(), "????");
    // A two-byte character between two ASCII ones is still text.
    assert_eq!(Kind(0x62a9_c362).textual(), "b\u{e9}b");
}

#[test]
fn kind_order_is_that_of_the_number() {
    let a = Kind::new("aaab").unwrap();
    let b = Kind::new("baaa").unwrap();
    // The last character is the most significant byte.
    assert!(b < a);
    assert_eq!(a.0, 0x6261_6161);
}
