//! Text as bytes: ASCII, UTF-8 and decimal numbers.

use vstd::prelude::*;
use vstd::slice::{slice_subrange, slice_to_vec};
use vstd::utf8::*;

verus! {

/// Do these bytes all lie in ASCII?
pub open spec fn all_ascii(s: Seq<u8>) -> bool {
    forall|i: int| 0 <= i < s.len() ==> s[i] < 0x80
}

/// ASCII bytes, read as characters.
pub open spec fn ascii_chars(s: Seq<u8>) -> Seq<char> {
    Seq::new(s.len(), |i: int| s[i] as char)
}

/// ASCII bytes are UTF-8, and decode to themselves.
pub proof fn lemma_ascii_is_utf8(s: Seq<u8>)
    requires
        all_ascii(s),
    ensures
        valid_utf8(s),
        decode_utf8(s) == ascii_chars(s),
{
    let chars = ascii_chars(s);
    assert(is_ascii_chars(chars)) by {
        assert forall|i: int| 0 <= i < chars.len() implies '\0' <= #[trigger] chars[i] <= '\u{7f}' by {
            assert(s[i] < 0x80);
        }
    }
    is_ascii_chars_encode_utf8(chars);
    assert(encode_utf8(chars) =~= s);
    encode_utf8_valid_utf8(chars);
    encode_utf8_decode_utf8(chars);
}

/// `String::from_utf8`: the text that the bytes encode, where they are valid
/// UTF-8, and nothing where they are not.
#[verifier::external_body]
pub(crate) fn string_from_utf8(bytes: Vec<u8>) -> (r: Option<String>)
    ensures
        r is Some <==> valid_utf8(bytes@),
        r matches Some(s) ==> s@ == decode_utf8(bytes@),
{
    String::from_utf8(bytes).ok()
}

/// Do the bytes make valid UTF-8?
pub fn is_utf8(bytes: &[u8]) -> (b: bool)
    ensures
        b == valid_utf8(bytes@),
{
    string_from_utf8(slice_to_vec(bytes)).is_some()
}

/// Do the bytes all lie in ASCII?
pub fn is_ascii_bytes(bytes: &[u8]) -> (b: bool)
    ensures
        b == all_ascii(bytes@),
{
    let mut i: usize = 0;
    while i < bytes.len()
        invariant
            i <= bytes@.len(),
            forall|j: int| 0 <= j < i ==> bytes@[j] < 0x80,
        decreases bytes@.len() - i,
    {
        if bytes[i] >= 0x80 {
            return false;
        }
        i += 1;
    }
    true
}

/// The string that ASCII bytes spell.
pub fn ascii_string(bytes: Vec<u8>) -> (r: String)
    requires
        all_ascii(bytes@),
    ensures
        r@ == ascii_chars(bytes@),
{
    proof {
        lemma_ascii_is_utf8(bytes@);
    }
    match string_from_utf8(bytes) {
        Some(s) => s,
        None => String::new(),
    }
}

/// The decimal digits of a number, as ASCII bytes, without leading zeros.
pub open spec fn decimal_digits(n: nat) -> Seq<u8>
    decreases n,
{
    if n < 10 {
        seq![(0x30 + n) as u8]
    } else {
        decimal_digits(n / 10).push((0x30 + n % 10) as u8)
    }
}

pub proof fn lemma_decimal_digits(n: nat)
    ensures
        1 <= decimal_digits(n).len(),
        n < 10 ==> decimal_digits(n).len() == 1,
        all_ascii(decimal_digits(n)),
        forall|i: int| 0 <= i < decimal_digits(n).len() ==> 0x30 <= #[trigger] decimal_digits(n)[i] <= 0x39,
    decreases n,
{
    if n >= 10 {
        lemma_decimal_digits(n / 10);
    }
}

/// Write a number in decimal.
pub fn decimal(n: u32) -> (r: Vec<u8>)
    ensures
        r@ == decimal_digits(n as nat),
{
    // Collect the digits from the last to the first, then turn them round.
    let mut rev: Vec<u8> = Vec::new();
    let mut rest: u32 = n;
    while rest >= 10
        invariant
            decimal_digits(n as nat) == decimal_digits(rest as nat) + rev@.reverse(),
        decreases rest,
    {
        let d: u8 = (rest % 10) as u8 + 0x30;
        proof {
            let before = rev@;
            assert(decimal_digits(rest as nat) == decimal_digits((rest / 10) as nat).push(d));
            assert(before.push(d).reverse() =~= seq![d] + before.reverse());
            assert(decimal_digits((rest / 10) as nat).push(d) + before.reverse()
                =~= decimal_digits((rest / 10) as nat) + (seq![d] + before.reverse()));
        }
        rev.push(d);
        rest = rest / 10;
    }
    let last: u8 = rest as u8 + 0x30;
    let mut r: Vec<u8> = Vec::new();
    r.push(last);
    let mut i: usize = rev.len();
    while i > 0
        invariant
            i <= rev.len(),
            r@ == seq![last] + rev@.reverse().take(rev.len() - i),
        decreases i,
    {
        i -= 1;
        proof {
            let k = rev.len() - i - 1;
            assert(rev@.reverse().take(k + 1) =~= rev@.reverse().take(k).push(rev@[i as int]));
            assert((seq![last] + rev@.reverse().take(k)).push(rev@[i as int])
                =~= seq![last] + rev@.reverse().take(k).push(rev@[i as int]));
        }
        r.push(rev[i]);
    }
    proof {
        assert(rev@.reverse().take(rev.len() as int) =~= rev@.reverse());
        assert(decimal_digits(rest as nat) =~= seq![last]);
    }
    r
}

/// Is the byte an ASCII digit?
pub open spec fn is_digit(b: u8) -> bool {
    0x30 <= b <= 0x39
}

/// The number that decimal digits spell.
pub open spec fn digits_value(s: Seq<u8>) -> nat
    decreases s.len(),
{
    if s.len() == 0 {
        0
    } else {
        (digits_value(s.drop_last()) * 10 + (s.last() - 0x30)) as nat
    }
}

/// Are the bytes digits, one at least?
pub open spec fn all_digits(s: Seq<u8>) -> bool {
    s.len() > 0 && forall|i: int| 0 <= i < s.len() ==> is_digit(#[trigger] s[i])
}

/// The number that a text spells: digits, with a `+` before them or
/// without, that make a number of 32 bits.
pub open spec fn parsed_u32(s: Seq<u8>) -> Option<u32> {
    let body = if s.len() > 0 && s[0] == 0x2b {
        s.drop_first()
    } else {
        s
    };
    if all_digits(body) && digits_value(body) <= u32::MAX {
        Some(digits_value(body) as u32)
    } else {
        None
    }
}

/// More digits never spell a smaller number.
pub proof fn lemma_digits_grow(s: Seq<u8>, i: int)
    requires
        0 <= i <= s.len(),
        forall|j: int| 0 <= j < s.len() ==> is_digit(#[trigger] s[j]),
    ensures
        digits_value(s.take(i)) <= digits_value(s),
    decreases s.len() - i,
{
    if i < s.len() {
        lemma_digits_grow(s, i + 1);
        assert(s.take(i + 1).drop_last() =~= s.take(i));
        assert(is_digit(s[i]));
    } else {
        assert(s.take(i) =~= s);
    }
}

/// What a number written in decimal spells is the number.
pub proof fn lemma_decimal_is_parsed(n: nat)
    ensures
        all_digits(decimal_digits(n)),
        digits_value(decimal_digits(n)) == n,
    decreases n,
{
    lemma_decimal_digits(n);
    let text = decimal_digits(n);
    if n >= 10 {
        lemma_decimal_is_parsed(n / 10);
        assert(text.drop_last() =~= decimal_digits(n / 10));
        assert(text.last() == (0x30 + n % 10) as u8);
        assert(digits_value(text) == digits_value(text.drop_last()) * 10 + (text.last() - 0x30));
    } else {
        assert(text.drop_last() =~= Seq::<u8>::empty());
        assert(text.last() == (0x30 + n) as u8);
        assert(digits_value(text.drop_last()) == 0);
        assert(digits_value(text) == digits_value(text.drop_last()) * 10 + (text.last() - 0x30));
    }
}

/// Read a number of 32 bits out of its decimal text.
#[verifier::loop_isolation(false)]
pub fn parse_u32(text: &[u8]) -> (r: Option<u32>)
    ensures
        r == parsed_u32(text@),
{
    let body = if text.len() > 0 && text[0] == 0x2b {
        slice_subrange(text, 1, text.len())
    } else {
        text
    };
    proof {
        if text@.len() > 0 && text@[0] == 0x2b {
            assert(body@ =~= text@.drop_first());
        }
    }
    if body.len() == 0 {
        return None;
    }
    let mut value: u64 = 0;
    let mut i: usize = 0;
    assert(body@.take(0) =~= Seq::<u8>::empty());
    while i < body.len()
        invariant
            i <= body@.len(),
            forall|j: int| 0 <= j < i ==> is_digit(#[trigger] body@[j]),
            value == digits_value(body@.take(i as int)),
            value <= u32::MAX,
        decreases body@.len() - i,
    {
        let b = body[i];
        if b < 0x30 || b > 0x39 {
            return None;
        }
        proof {
            assert(body@.take(i + 1).drop_last() =~= body@.take(i as int));
        }
        value = value * 10 + (b - 0x30) as u64;
        i += 1;
        if value > u32::MAX as u64 {
            proof {
                // Whatever follows, the number only grows.
                if all_digits(body@) {
                    lemma_digits_grow(body@, i as int);
                }
            }
            return None;
        }
    }
    assert(body@.take(i as int) =~= body@);
    Some(value as u32)
}

/// What a text says of a yes or no: `true` and `false` are understood, and
/// nothing else.
pub open spec fn parsed_bool(s: Seq<u8>) -> Option<bool> {
    if s == seq![0x74u8, 0x72, 0x75, 0x65] {
        Some(true)
    } else if s == seq![0x66u8, 0x61, 0x6c, 0x73, 0x65] {
        Some(false)
    } else {
        None
    }
}

/// Read a yes or no out of its text.
pub fn parse_bool(text: &[u8]) -> (r: Option<bool>)
    ensures
        r == parsed_bool(text@),
{
    if text.len() == 4 && text[0] == 0x74 && text[1] == 0x72 && text[2] == 0x75 && text[3] == 0x65 {
        assert(text@ =~= seq![0x74u8, 0x72, 0x75, 0x65]);
        Some(true)
    } else if text.len() == 5 && text[0] == 0x66 && text[1] == 0x61 && text[2] == 0x6c && text[3]
        == 0x73 && text[4] == 0x65 {
        assert(text@ =~= seq![0x66u8, 0x61, 0x6c, 0x73, 0x65]);
        Some(false)
    } else {
        None
    }
}

} // verus!
