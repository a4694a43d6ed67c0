use cas::pool::adump::pfile::parse;
use cas::pool::adump::PoolProps;
use cas::Error;

#[test]
fn simple_parse() {
    let buf = b"# This is a comment\n\
                uuid=c39b7bde-b83a-47b2-b597-6546f08c9183\n\
                newfile=false\n\
                limit=671088640\n";
    let map = parse(&buf[..]).unwrap();
    assert_eq!(map.get(b"limit").unwrap(), b"671088640");
    assert_eq!(map.get(b"uuid").unwrap(), b"c39b7bde-b83a-47b2-b597-6546f08c9183");
    assert_eq!(map.get(b"newfile").unwrap(), b"false");
    println!("map: {:?}", map);
}

#[test]
fn parse_lines_and_values() {
    let map = parse(b"a=1\n\nb=x=y\n#c=3\nd=\n=e\r\nlast=no newline").unwrap();
    assert_eq!(map.get(b"a").unwrap(), b"1");
    // Only the first `=` parts key and value.
    assert_eq!(map.get(b"b").unwrap(), b"x=y");
    assert!(map.get(b"c").is_none());
    assert!(map.get(b"#c").is_none());
    assert_eq!(map.get(b"d").unwrap(), b"");
    // A carriage return before the newline belongs to the end of the line.
    assert_eq!(map.get(b"").unwrap(), b"e");
    assert_eq!(map.get(b"last").unwrap(), b"no newline");
    assert!(map.get(b"missing").is_none());
}

#[test]
fn parse_last_one_wins() {
    let map = parse(b"k=1\nother=x\nk=2\n").unwrap();
    assert_eq!(map.get(b"k").unwrap(), b"2");
    assert_eq!(map.get(b"other").unwrap(), b"x");
}

#[test]
fn parse_keeps_a_carriage_return_without_newline() {
    let map = parse(b"k=v\r").unwrap();
    assert_eq!(map.get(b"k").unwrap(), b"v\r");
}

#[test]
fn parse_refuses_a_line_without_equals() {
    assert!(matches!(parse(b"a=1\nnothing here\nb=2\n"), Err(Error::PropertyError(_))));
    assert!(matches!(parse(b" "), Err(Error::PropertyError(_))));
    // Blanks before the `#` make the line no comment.
    assert!(matches!(parse(b" # comment\n"), Err(Error::PropertyError(_))));
    assert!(parse(b"").is_ok());
    assert!(parse(b"\n\n\n").is_ok());
}

#[test]
fn parse_refuses_what_is_not_utf8() {
    assert!(matches!(parse(b"a=\xff\n"), Err(Error::Utf8Error)));
    assert!(parse("a=\u{e9}\n".as_bytes()).is_ok());
}

#[test]
fn pool_props_read() {
    let props = PoolProps::read(
        b"uuid=c39b7bde-b83a-47b2-b597-6546f08c9183\nnewfile=false\nlimit=671088640\n",
    )
    .unwrap();
    assert_eq!(props.uuid, 0xc39b7bde_b83a_47b2_b597_6546f08c9183);
    assert_eq!(props.newfile, false);
    assert_eq!(props.limit, 671088640);

    let props = PoolProps::read(b"limit=+17\nnewfile=true\nuuid=C39B7BDEB83A47B2B5976546F08C9183\n").unwrap();
    assert_eq!(props.uuid, 0xc39b7bde_b83a_47b2_b597_6546f08c9183);
    assert!(props.newfile);
    assert_eq!(props.limit, 17);
}

#[test]
fn pool_props_errors() {
    let uuid = "uuid=c39b7bde-b83a-47b2-b597-6546f08c9183\n";
    let read = |text: String| PoolProps::read(text.as_bytes());
    assert!(matches!(read("newfile=false\nlimit=1\n".to_string()), Err(Error::PropertyError(_))));
    assert!(matches!(read(format!("{}limit=1\n", uuid)), Err(Error::PropertyError(_))));
    assert!(matches!(read(format!("{}newfile=true\n", uuid)), Err(Error::PropertyError(_))));
    assert!(matches!(
        read("uuid=not-a-uuid\nnewfile=false\nlimit=1\n".to_string()),
        Err(Error::Uuid)
    ));
    for bad in ["True", "yes", "1", "", " true", "false "] {
        assert!(matches!(
            read(format!("{}newfile={}\nlimit=1\n", uuid, bad)),
            Err(Error::ParseBoolError)
        ));
    }
    for bad in ["", "+", "-1", "4294967296", "12a", " 12", "0x10", "99999999999999999999"] {
        assert!(matches!(
            read(format!("{}newfile=true\nlimit={}\n", uuid, bad)),
            Err(Error::ParseIntError)
        ));
    }
    // The uuid is looked at before the rest.
    assert!(matches!(read("uuid=zz\nnewfile=maybe\n".to_string()), Err(Error::Uuid)));
    assert!(matches!(read("uuid\n".to_string()), Err(Error::PropertyError(_))));
    let top = read(format!("{}newfile=true\nlimit=4294967295\n", uuid)).unwrap();
    assert_eq!(top.limit, u32::MAX);
}
