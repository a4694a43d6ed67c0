//! A kind is a `u32` that spells four ASCII characters.

use vstd::prelude::*;
use vstd::string::*;
use crate::endian::{le_bytes, lemma_le_bytes_of_value, read_u32, write_u32};
use crate::error::Error;
use crate::text::{all_ascii, ascii_chars, ascii_string, is_ascii_bytes, is_utf8, string_from_utf8};
use vstd::utf8::{decode_utf8, valid_utf8};

verus! {

#[derive(Clone, Copy, Debug, PartialEq, Eq, PartialOrd, Ord, Hash)]
pub struct Kind(pub u32);

impl Kind {
    /// The four bytes of the kind, in the order in which its text spells them.
    pub open spec fn spec_bytes(self) -> Seq<u8> {
        le_bytes(self.0)
    }

    /// A kind is well formed when its four bytes are ASCII.
    pub open spec fn wf(self) -> bool {
        all_ascii(self.spec_bytes())
    }

    /// The text of a well-formed kind.
    pub open spec fn spec_text(self) -> Seq<char> {
        ascii_chars(self.spec_bytes())
    }

    /// The kind that a text of four ASCII characters spells.
    pub fn new(text: &str) -> (r: Result<Kind, Error>)
        ensures
            match r {
                Ok(k) => is_ascii(text) && text@.len() == 4 && k.wf() && k.spec_text() == text@,
                Err(Error::NonAsciiKind) => !is_ascii(text),
                Err(Error::BadKindLength) => is_ascii(text) && text@.len() != 4,
                Err(_) => false,
            },
    {
        if !text.is_ascii() {
            return Err(Error::NonAsciiKind);
        }
        let b = text.as_bytes();
        proof {
            is_ascii_spec_bytes(text);
        }
        if b.len() != 4 {
            return Err(Error::BadKindLength);
        }
        let k = Kind(read_u32(b));
        proof {
            lemma_le_bytes_of_value(b@);
            assert(k.spec_text() =~= text@);
        }
        Ok(k)
    }

    /// The kind that four bytes of a file spell.  The bytes must be text, and
    /// the text that of a kind.
    pub fn from_bytes(raw: &[u8]) -> (r: Result<Kind, Error>)
        ensures
            match r {
                Ok(k) => raw@.len() == 4 && all_ascii(raw@) && k.wf() && k.spec_bytes() == raw@,
                Err(Error::Utf8Error) => !valid_utf8(raw@),
                Err(Error::NonAsciiKind) => valid_utf8(raw@) && !all_ascii(raw@),
                Err(Error::BadKindLength) => all_ascii(raw@) && raw@.len() != 4,
                Err(_) => false,
            },
    {
        if !is_utf8(raw) {
            return Err(Error::Utf8Error);
        }
        if !is_ascii_bytes(raw) {
            return Err(Error::NonAsciiKind);
        }
        if raw.len() != 4 {
            return Err(Error::BadKindLength);
        }
        let k = Kind(read_u32(raw));
        proof {
            lemma_le_bytes_of_value(raw@);
        }
        Ok(k)
    }

    /// Get the kind back as bytes.
    pub fn bytes(self) -> (r: Vec<u8>)
        ensures
            r@ == self.spec_bytes(),
    {
        let buf = write_u32(self.0);
        let mut result: Vec<u8> = Vec::with_capacity(4);
        let mut i: usize = 0;
        while i < 4
            invariant
                i <= 4,
                buf@ == le_bytes(self.0),
                result@ == buf@.take(i as int),
            decreases 4 - i,
        {
            result.push(buf[i]);
            i += 1;
        }
        result
    }

    /// The text of the kind.  Only a well-formed kind has one.
    pub fn to_string(&self) -> (r: String)
        requires
            self.wf(),
        ensures
            r@ == self.spec_text(),
    {
        ascii_string(self.bytes())
    }

    /// The kind as it is shown when something goes wrong: its text between
    /// `Kind("` and `")`.
    pub fn debug(&self) -> (r: String)
        requires
            self.wf(),
        ensures
            r@ == "Kind(\""@ + self.spec_text() + "\")"@,
    {
        let text = self.to_string();
        "Kind(\"".to_owned().concat(text.as_str()).concat("\")")
    }

    /// The text of the kind, or four question marks where its bytes are no
    /// text at all.
    pub fn textual(&self) -> (r: String)
        ensures
            r@ == if valid_utf8(self.spec_bytes()) {
                decode_utf8(self.spec_bytes())
            } else {
                "????"@
            },
    {
        match string_from_utf8(self.bytes()) {
            Some(s) => s,
            None => "????".to_owned(),
        }
    }
}

} // verus!
