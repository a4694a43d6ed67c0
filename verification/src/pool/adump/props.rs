//! The properties of a pool, and the making of a new pool.

use vstd::prelude::*;
use vstd::string::*;
use vstd::utf8::{
    encode_utf8, encode_utf8_valid_utf8, is_ascii_chars, is_ascii_chars_encode_utf8, valid_utf8,
};
use crate::error::Error;
use crate::oid::hex_digit;
use crate::pool::ident::{
    uuid_hyphenated, uuid_nibble, uuid_parse, uuid_parsed, uuid_random, uuid_text,
};
use crate::text::{
    ascii_chars, ascii_string, decimal, decimal_digits, is_digit, lemma_decimal_digits,
    lemma_decimal_is_parsed, parse_bool, parse_u32, parsed_bool, parsed_u32,
};
use super::pfile::{any_bad, lemma_first_line, lemma_key_value, lines, parse, props_of, Props};

verus! {

/// The limit of a pool file, where none is set: 670 MiB.
pub const DEFAULT_LIMIT: u32 = 702_545_920;

/// What `metadata/props.txt` says of a pool.
#[derive(Debug, Clone, Copy, PartialEq, Eq)]
pub struct PoolProps {
    pub uuid: u128,
    pub newfile: bool,
    pub limit: u32,
}

/// "uuid"
pub open spec fn key_uuid() -> Seq<u8> {
    seq![0x75, 0x75, 0x69, 0x64]
}

/// "newfile"
pub open spec fn key_newfile() -> Seq<u8> {
    seq![0x6e, 0x65, 0x77, 0x66, 0x69, 0x6c, 0x65]
}

/// "limit"
pub open spec fn key_limit() -> Seq<u8> {
    seq![0x6c, 0x69, 0x6d, 0x69, 0x74]
}

/// Why the properties of a pool are refused.
pub enum PropsFault {
    /// A property is missing.
    Missing,
    /// The uuid is no UUID.
    BadUuid,
    /// `newfile` is neither `true` nor `false`.
    BadBool,
    /// The limit is no number of 32 bits.
    BadNumber,
}

/// What the properties say of a pool, or the first fault for which they are
/// refused: the uuid is looked at first, then `newfile`, then the limit.
pub open spec fn pool_props_of(m: Map<Seq<u8>, Seq<u8>>) -> Result<PoolProps, PropsFault> {
    if !m.contains_key(key_uuid()) {
        Err(PropsFault::Missing)
    } else if uuid_parsed(m[key_uuid()]) is None {
        Err(PropsFault::BadUuid)
    } else if !m.contains_key(key_newfile()) {
        Err(PropsFault::Missing)
    } else if parsed_bool(m[key_newfile()]) is None {
        Err(PropsFault::BadBool)
    } else if !m.contains_key(key_limit()) {
        Err(PropsFault::Missing)
    } else if parsed_u32(m[key_limit()]) is None {
        Err(PropsFault::BadNumber)
    } else {
        Ok(
            PoolProps {
                uuid: uuid_parsed(m[key_uuid()])->0,
                newfile: parsed_bool(m[key_newfile()])->0,
                limit: parsed_u32(m[key_limit()])->0,
            },
        )
    }
}

/// Is `e` the error that stands for the fault `f`?
pub open spec fn props_fault_is(e: Error, f: PropsFault) -> bool {
    match f {
        PropsFault::Missing => e is PropertyError,
        PropsFault::BadUuid => e is Uuid,
        PropsFault::BadBool => e is ParseBoolError,
        PropsFault::BadNumber => e is ParseIntError,
    }
}

impl PoolProps {
    /// Take the properties of a pool out of what its property file says.
    pub fn from_props(props: &Props) -> (r: Result<PoolProps, Error>)
        ensures
            match r {
                Ok(p) => pool_props_of(props.map()) == Ok::<PoolProps, PropsFault>(p),
                Err(e) => pool_props_of(props.map()) matches Err(f) && props_fault_is(e, f),
            },
    {
        let key: [u8; 4] = [0x75, 0x75, 0x69, 0x64];
        assert(key@ =~= key_uuid());
        let uuid = match props.get(key.as_slice()) {
            None => {
                return Err(Error::PropertyError("No uuid property".to_owned()));
            },
            Some(text) => match uuid_parse(text.as_slice()) {
                None => {
                    return Err(Error::Uuid);
                },
                Some(id) => id,
            },
        };
        let key: [u8; 7] = [0x6e, 0x65, 0x77, 0x66, 0x69, 0x6c, 0x65];
        assert(key@ =~= key_newfile());
        let newfile = match props.get(key.as_slice()) {
            None => {
                return Err(Error::PropertyError("No newfile property".to_owned()));
            },
            Some(text) => match parse_bool(text.as_slice()) {
                None => {
                    return Err(Error::ParseBoolError);
                },
                Some(b) => b,
            },
        };
        let key: [u8; 5] = [0x6c, 0x69, 0x6d, 0x69, 0x74];
        assert(key@ =~= key_limit());
        let limit = match props.get(key.as_slice()) {
            None => {
                return Err(Error::PropertyError("No limit property".to_owned()));
            },
            Some(text) => match parse_u32(text.as_slice()) {
                None => {
                    return Err(Error::ParseIntError);
                },
                Some(n) => n,
            },
        };
        Ok(PoolProps { uuid: uuid, newfile: newfile, limit: limit })
    }

    /// Read the properties of a pool out of the bytes of its property file.
    pub fn read(text: &[u8]) -> (r: Result<PoolProps, Error>)
        ensures
            match r {
                Ok(p) => reads_as(text@, p),
                Err(Error::Utf8Error) => !valid_utf8(text@),
                Err(e) => {
                    &&& valid_utf8(text@)
                    &&& if any_bad(lines(text@)) {
                        e is PropertyError
                    } else {
                        pool_props_of(props_of(lines(text@))) matches Err(f) && props_fault_is(e, f)
                    }
                },
            },
    {
        match parse(text) {
            Ok(props) => PoolProps::from_props(&props),
            Err(e) => Err(e),
        }
    }
}

/// The text of a property file: the three properties of a pool, a line each.
pub open spec fn props_text(uuid: Seq<char>, newfile: bool, limit: u32) -> Seq<char> {
    "uuid="@ + uuid + "\n"@ + "newfile="@ + (if newfile {
        "true"@
    } else {
        "false"@
    }) + "\n"@ + "limit="@ + ascii_chars(decimal_digits(limit as nat)) + "\n"@
}

/// Is `text` a property file that is read as the properties `p`?
pub open spec fn reads_as(text: Seq<u8>, p: PoolProps) -> bool {
    &&& valid_utf8(text)
    &&& !any_bad(lines(text))
    &&& pool_props_of(props_of(lines(text))) == Ok::<PoolProps, PropsFault>(p)
}

/// The bytes of a text of ASCII characters.
pub open spec fn ascii_bytes(text: Seq<char>) -> Seq<u8> {
    Seq::new(text.len(), |i: int| text[i] as u8)
}

/// Is every character a lower-case hexadecimal digit or a hyphen?
pub open spec fn is_uuid_text(text: Seq<char>) -> bool {
    forall|i: int|
        0 <= i < text.len() ==> (#[trigger] text[i] == '-' || ('0' <= text[i] <= '9') || ('a'
            <= text[i] <= 'f'))
}

/// The usual form of a UUID is made of hexadecimal digits and hyphens.
pub proof fn lemma_uuid_text(id: u128)
    ensures
        is_uuid_text(uuid_hyphenated(id)),
        uuid_hyphenated(id).len() == 36,
{
    let text = uuid_hyphenated(id);
    assert forall|i: int| 0 <= i < text.len() implies (#[trigger] text[i] == '-' || ('0' <= text[i]
        <= '9') || ('a' <= text[i] <= 'f')) by {
        if !(i == 8 || i == 13 || i == 18 || i == 23) {
            let hyphens: int = if i > 23 {
                4
            } else if i > 18 {
                3
            } else if i > 13 {
                2
            } else if i > 8 {
                1
            } else {
                0
            };
            let n = uuid_nibble(id, i - hyphens);
            assert(0 <= n < 16);
            assert(text[i] == hex_digit(n));
        }
    }
}

/// The property file that is written for a pool is read back as the
/// properties of that pool, where the text of the UUID is read back as the
/// UUID.
pub proof fn lemma_props_read_back(uuid: u128, newfile: bool, limit: u32)
    requires
        uuid_parsed(encode_utf8(uuid_hyphenated(uuid))) == Some(uuid),
    ensures
        reads_as(
            encode_utf8(props_text(uuid_hyphenated(uuid), newfile, limit)),
            (PoolProps { uuid, newfile, limit }),
        ),
{
    reveal_strlit("uuid=");
    reveal_strlit("newfile=");
    reveal_strlit("limit=");
    reveal_strlit("true");
    reveal_strlit("false");
    reveal_strlit("\n");
    let id = uuid_hyphenated(uuid);
    let yes = if newfile { "true"@ } else { "false"@ };
    let digits = decimal_digits(limit as nat);
    let number = ascii_chars(digits);
    let text = props_text(id, newfile, limit);
    lemma_uuid_text(uuid);
    lemma_decimal_digits(limit as nat);
    lemma_decimal_is_parsed(limit as nat);

    // The text is ASCII, so its bytes are its characters.
    assert(is_ascii_chars(text)) by {
        assert forall|i: int| 0 <= i < text.len() implies '\0' <= #[trigger] text[i] <= '\u{7f}' by {
            if 5 <= i < 41 {
                assert(text[i] == id[i - 5]);
            } else if 57 + yes.len() <= i < 57 + yes.len() + number.len() {
                assert(text[i] == number[i - (57 + yes.len())]);
                assert(digits[i - (57 + yes.len())] < 0x80);
            }
        }
    }
    is_ascii_chars_encode_utf8(text);
    encode_utf8_valid_utf8(text);
    let bytes = encode_utf8(text);
    assert(bytes =~= ascii_bytes(text));
    assert(is_ascii_chars(id)) by {
        assert forall|i: int| 0 <= i < id.len() implies '\0' <= #[trigger] id[i] <= '\u{7f}' by {}
    }
    is_ascii_chars_encode_utf8(id);
    assert(encode_utf8(id) =~= ascii_bytes(id));

    // Its three lines, each a key, `=` and a value.
    let v1 = ascii_bytes(id);
    let v2 = ascii_bytes(yes);
    let v3 = digits;
    assert(ascii_bytes(number) =~= digits) by {
        assert forall|i: int| 0 <= i < digits.len() implies ascii_bytes(number)[i] == digits[i] by {
            assert(digits[i] < 0x80);
        }
    }
    let l1 = key_uuid() + seq![0x3du8] + v1;
    let l2 = key_newfile() + seq![0x3du8] + v2;
    let l3 = key_limit() + seq![0x3du8] + v3;
    let none = Seq::<u8>::empty();
    let r3 = l3 + seq![0x0au8] + none;
    let r2 = l2 + seq![0x0au8] + r3;
    assert(bytes =~= l1 + seq![0x0au8] + r2) by {
        assert(bytes.len() == (l1 + seq![0x0au8] + r2).len());
        assert forall|i: int| 0 <= i < bytes.len() implies bytes[i] == (l1 + seq![0x0au8] + r2)[i] by {
            assert(bytes[i] == text[i] as u8);
        }
    }
    assert forall|i: int| 0 <= i < l1.len() implies l1[i] != 0x0a by {
        if i >= 5 {
            assert(l1[i] == id[i - 5] as u8);
        }
    }
    assert(l1.last() == id[35] as u8);
    assert forall|i: int| 0 <= i < l3.len() implies l3[i] != 0x0a by {
        if i >= 6 {
            assert(l3[i] == digits[i - 6]);
        }
    }
    assert(l3.last() == digits.last());
    lemma_first_line(l1, r2);
    lemma_first_line(l2, r3);
    lemma_first_line(l3, none);
    let all = lines(bytes);
    assert(all =~= seq![l1, l2, l3]);
    lemma_key_value(key_uuid(), v1);
    lemma_key_value(key_newfile(), v2);
    lemma_key_value(key_limit(), v3);
    assert(!any_bad(all));

    // What the lines say.
    let t0 = all.drop_last().drop_last().drop_last();
    let t1 = all.drop_last().drop_last();
    let t2 = all.drop_last();
    assert(t0 =~= Seq::<Seq<u8>>::empty());
    assert(t1 =~= seq![l1]);
    assert(t2 =~= seq![l1, l2]);
    assert(t1.drop_last() =~= t0);
    assert(t2.drop_last() =~= t1);
    assert(props_of(t0) == Map::<Seq<u8>, Seq<u8>>::empty());
    assert(props_of(t1) == props_of(t0).insert(key_uuid(), v1));
    assert(props_of(t2) == props_of(t1).insert(key_newfile(), v2));
    let m = props_of(all);
    assert(m == props_of(t2).insert(key_limit(), v3));
    assert(key_uuid().len() == 4 && key_newfile().len() == 7 && key_limit().len() == 5);
    assert(m[key_uuid()] == v1);
    assert(m[key_newfile()] == v2);
    assert(m[key_limit()] == v3);
    assert(parsed_bool(v2) == Some(newfile)) by {
        if newfile {
            assert(v2 =~= seq![0x74u8, 0x72, 0x75, 0x65]);
        } else {
            assert(v2 =~= seq![0x66u8, 0x61, 0x6c, 0x73, 0x65]);
            assert(v2.len() != 4);
        }
    }
    assert(parsed_u32(v3) == Some(limit)) by {
        assert(is_digit(digits[0]));
    }
}

/// A builder to set parameters before creating a pool.
#[derive(Debug)]
pub struct PoolBuilder {
    dir: String,
    newfile: bool,
    limit: u32,
}

/// What stands where a pool is to be made.
#[derive(Debug, Clone, Copy, PartialEq, Eq)]
pub enum Site {
    /// Nothing: a directory can be made there.
    Vacant,
    /// A directory with nothing in it.
    EmptyDir,
    /// A directory that holds something.
    FullDir,
}

/// What is to be written to make a pool.
#[derive(Debug)]
pub struct Blueprint {
    /// The directory of the pool.
    pub dir: String,
    /// Is the directory of the pool to be made first?
    pub make_dir: bool,
    /// The identity of the new pool.
    pub uuid: u128,
    /// What `metadata/props.txt` is to hold.  `metadata/backups.txt` is to be
    /// empty, and so is the directory `seen`.
    pub props: String,
}

impl PoolBuilder {
    /// Where the pool is to be made.
    pub closed spec fn spec_dir(self) -> Seq<char> {
        self.dir@
    }

    /// Is each session to write a file of its own?
    pub closed spec fn spec_newfile(self) -> bool {
        self.newfile
    }

    /// How large a pool file may grow.
    pub closed spec fn spec_limit(self) -> u32 {
        self.limit
    }

    /// A builder for a pool in the directory `dir`, with the usual settings:
    /// files are appended to, and grow up to the default limit.
    pub fn new(dir: String) -> (r: PoolBuilder)
        ensures
            r.spec_dir() == dir@,
            r.spec_newfile() == false,
            r.spec_limit() == DEFAULT_LIMIT,
    {
        PoolBuilder { dir: dir, newfile: false, limit: DEFAULT_LIMIT }
    }

    /// Change the default value of the `newfile` flag on the pool.  If
    /// set to try, files will not be appended to, but each time the pool
    /// is opened for writing, a new file will be created.  This will
    /// create more smaller files, but can, in some situations, make
    /// synchronization easier.
    pub fn set_newfile(self, newfile: bool) -> (r: Self)
        ensures
            r.spec_dir() == self.spec_dir(),
            r.spec_newfile() == newfile,
            r.spec_limit() == self.spec_limit(),
    {
        let mut this = self;
        this.newfile = newfile;
        this
    }

    /// Change the default value of the `limit` flag on the pool.  No
    /// individual pool file will grow larger than this value.  Note that
    /// this is a u32, but it is best to not allow the value to exceed a
    /// positive i32 to avoid compatibility issues with legacy programs
    /// that may read this format.
    pub fn set_limit(self, limit: u32) -> (r: Self)
        ensures
            r.spec_dir() == self.spec_dir(),
            r.spec_newfile() == self.spec_newfile(),
            r.spec_limit() == limit,
    {
        let mut this = self;
        this.limit = limit;
        this
    }

    /// Plan the pool with the identity `uuid`.  The given path must name
    /// either an empty directory, or a path where one can be created.  The
    /// property file of the plan is read back as the properties that the
    /// builder was given.
    pub fn create_as(self, site: Site, uuid: u128) -> (r: Result<Blueprint, Error>)
        ensures
            match r {
                Ok(plan) => {
                    &&& site != Site::FullDir
                    &&& plan.dir@ == self.spec_dir()
                    &&& plan.make_dir == (site == Site::Vacant)
                    &&& plan.uuid == uuid
                    &&& plan.props@ == props_text(
                        uuid_hyphenated(uuid),
                        self.spec_newfile(),
                        self.spec_limit(),
                    )
                    &&& reads_as(
                        encode_utf8(plan.props@),
                        (PoolProps {
                            uuid,
                            newfile: self.spec_newfile(),
                            limit: self.spec_limit(),
                        }),
                    )
                },
                Err(e) => site == Site::FullDir && e is PathError,
            },
    {
        let make_dir = match site {
            Site::FullDir => {
                return Err(Error::PathError("Directory is not empty".to_owned()));
            },
            Site::Vacant => true,
            Site::EmptyDir => false,
        };
        let digits = decimal(self.limit);
        proof {
            lemma_decimal_digits(self.limit as nat);
        }
        let limit = ascii_string(digits);
        let id = uuid_text(uuid);
        proof {
            lemma_props_read_back(uuid, self.newfile, self.limit);
        }
        let text = "uuid=".to_owned();
        let text = text.concat(id.as_str());
        let text = text.concat("\n");
        let text = text.concat("newfile=");
        let text = text.concat(if self.newfile { "true" } else { "false" });
        let text = text.concat("\n");
        let text = text.concat("limit=");
        let text = text.concat(limit.as_str());
        let text = text.concat("\n");
        Ok(Blueprint { dir: self.dir, make_dir: make_dir, uuid: uuid, props: text })
    }

    /// Plan a pool with an identity of its own, drawn at random.
    pub fn create(self, site: Site) -> (r: Result<Blueprint, Error>)
        ensures
            match r {
                Ok(plan) => {
                    &&& site != Site::FullDir
                    &&& plan.dir@ == self.spec_dir()
                    &&& plan.make_dir == (site == Site::Vacant)
                    &&& plan.props@ == props_text(
                        uuid_hyphenated(plan.uuid),
                        self.spec_newfile(),
                        self.spec_limit(),
                    )
                    &&& reads_as(
                        encode_utf8(plan.props@),
                        (PoolProps {
                            uuid: plan.uuid,
                            newfile: self.spec_newfile(),
                            limit: self.spec_limit(),
                        }),
                    )
                },
                Err(e) => site == Site::FullDir && e is PathError,
            },
    {
        self.create_as(site, uuid_random())
    }
}

} // verus!
