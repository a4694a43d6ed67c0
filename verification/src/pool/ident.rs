//! The identity of a pool: a UUID, kept as the number of 128 bits that it is.

use vstd::prelude::*;
use vstd::arithmetic::power::pow;
use vstd::utf8::encode_utf8;
use uuid::Uuid;
use crate::oid::hex_digit;

verus! {

/// The UUID that a text spells, where it spells one.
pub uninterp spec fn uuid_parsed(text: Seq<u8>) -> Option<u128>;

/// The hexadecimal digit at place `j` of a number of 128 bits, the most
/// significant first.  There are 32 of them.
pub open spec fn uuid_nibble(id: u128, j: int) -> int {
    (id as int / pow(16, (31 - j) as nat)) % 16
}

/// A UUID in its usual form: its 32 lower-case hexadecimal digits in groups
/// of 8, 4, 4, 4 and 12, with hyphens between the groups.
pub open spec fn uuid_hyphenated(id: u128) -> Seq<char> {
    Seq::new(
        36,
        |p: int|
            if p == 8 || p == 13 || p == 18 || p == 23 {
                '-'
            } else {
                let hyphens: int = if p > 23 {
                    4
                } else if p > 18 {
                    3
                } else if p > 13 {
                    2
                } else if p > 8 {
                    1
                } else {
                    0
                };
                hex_digit(uuid_nibble(id, p - hyphens))
            },
    )
}

/// `uuid::Uuid::try_parse_ascii`, and `as_u128` of what it gives: the UUID
/// that the text spells, or nothing where the crate refuses the text.
#[verifier::external_body]
pub(crate) fn uuid_parse(text: &[u8]) -> (r: Option<u128>)
    ensures
        r == uuid_parsed(text@),
{
    match Uuid::try_parse_ascii(text) {
        Ok(id) => Some(id.as_u128()),
        Err(_) => None,
    }
}

/// `uuid::Uuid::from_u128`, and `hyphenated` of it as a string: the number
/// in lower-case hexadecimal digits, the most significant first, with a
/// hyphen after the 8th, the 12th, the 16th and the 20th.  The parser of the
/// crate takes every form that the crate writes, and reads this one back as
/// the same number.
#[verifier::external_body]
pub(crate) fn uuid_text(id: u128) -> (r: String)
    ensures
        r@ == uuid_hyphenated(id),
        uuid_parsed(encode_utf8(r@)) == Some(id),
{
    Uuid::from_u128(id).hyphenated().to_string()
}

/// `uuid::Uuid::new_v4`: a UUID drawn at random.  Nothing is known of it.
#[verifier::external_body]
pub(crate) fn uuid_random() -> u128 {
    Uuid::new_v4().as_u128()
}

} // verus!
