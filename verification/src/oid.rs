//! Object IDs.
//!
//! Every object in the pool is identified by an object-id (OID) which is
//! the SHA-1 hash of the `Kind` followed by the payload itself.

use vstd::prelude::*;
use vstd::string::*;
use rustc_serialize::hex::{FromHex, ToHex};
use sha1::{Digest, Sha1};
use crate::kind::Kind;
use crate::text::{decimal, decimal_digits};
use vstd::utf8::{encode_utf8, is_ascii_chars, is_ascii_chars_encode_utf8};

verus! {

#[derive(Debug, PartialEq, PartialOrd, Eq, Ord, Clone, Copy, Hash)]
pub struct Oid(pub [u8; 20]);

impl View for Oid {
    type V = Seq<u8>;

    open spec fn view(&self) -> Seq<u8> {
        self.0@
    }
}

/// The bytes of each of a row of object-ids.
pub open spec fn views(oids: Seq<Oid>) -> Seq<Seq<u8>> {
    Seq::new(oids.len(), |i: int| oids[i]@)
}

/// How one object-id stands to another in the order of the index.
#[derive(Debug, Clone, Copy, PartialEq, Eq)]
pub enum Side {
    Before,
    Same,
    After,
}

/// The order of object-ids: byte by byte, the first difference decides.
pub open spec fn lex_lt(a: Seq<u8>, b: Seq<u8>) -> bool
    decreases a.len(),
{
    if a.len() == 0 || b.len() == 0 {
        false
    } else if a[0] != b[0] {
        a[0] < b[0]
    } else {
        lex_lt(a.drop_first(), b.drop_first())
    }
}

/// Nothing comes before itself.
pub proof fn lemma_lex_irreflexive(a: Seq<u8>)
    ensures
        !lex_lt(a, a),
    decreases a.len(),
{
    if a.len() > 0 {
        lemma_lex_irreflexive(a.drop_first());
    }
}

/// What comes before something that comes before a third comes before the third.
pub proof fn lemma_lex_transitive(a: Seq<u8>, b: Seq<u8>, c: Seq<u8>)
    requires
        lex_lt(a, b),
        lex_lt(b, c),
    ensures
        lex_lt(a, c),
    decreases a.len(),
{
    if a[0] == b[0] && b[0] == c[0] {
        lemma_lex_transitive(a.drop_first(), b.drop_first(), c.drop_first());
    }
}

/// Of two different sequences of one length, one comes before the other.
pub proof fn lemma_lex_total(a: Seq<u8>, b: Seq<u8>)
    requires
        a.len() == b.len(),
    ensures
        lex_lt(a, b) || lex_lt(b, a) || a == b,
        !(lex_lt(a, b) && lex_lt(b, a)),
    decreases a.len(),
{
    if a.len() == 0 {
        assert(a =~= b);
    } else if a[0] == b[0] {
        lemma_lex_total(a.drop_first(), b.drop_first());
        if a.drop_first() == b.drop_first() {
            assert(a =~= seq![a[0]] + a.drop_first());
            assert(b =~= seq![b[0]] + b.drop_first());
        }
    }
}

/// The first bytes of two sequences in order are in order too.
pub proof fn lemma_lex_first_byte(a: Seq<u8>, b: Seq<u8>)
    requires
        lex_lt(a, b),
    ensures
        a[0] <= b[0],
{
}

/// Past a common start, the rest decides.
pub proof fn lemma_lex_skip(a: Seq<u8>, b: Seq<u8>, k: int)
    requires
        0 <= k <= a.len(),
        a.len() == b.len(),
        a.take(k) == b.take(k),
    ensures
        lex_lt(a, b) == lex_lt(a.skip(k), b.skip(k)),
    decreases k,
{
    if k == 0 {
        assert(a.skip(0) =~= a);
        assert(b.skip(0) =~= b);
    } else {
        assert(a[0] == a.take(k)[0]);
        assert(b[0] == b.take(k)[0]);
        assert(a.drop_first().take(k - 1) =~= a.take(k).drop_first());
        assert(b.drop_first().take(k - 1) =~= b.take(k).drop_first());
        lemma_lex_skip(a.drop_first(), b.drop_first(), k - 1);
        assert(a.drop_first().skip(k - 1) =~= a.skip(k));
        assert(b.drop_first().skip(k - 1) =~= b.skip(k));
    }
}

/// The SHA-1 digest of a message: twenty bytes.
pub uninterp spec fn sha1(message: Seq<u8>) -> Seq<u8>;

/// `sha1::Sha1::digest`: the SHA-1 digest of `message`.
#[verifier::external_body]
pub(crate) fn sha1_digest(message: &[u8]) -> (digest: [u8; 20])
    ensures
        digest@ == sha1(message@),
{
    Sha1::digest(message).into()
}

/// A message that is hashed piece by piece.
pub struct Context {
    message: Vec<u8>,
}

impl Context {
    /// What has been put in so far.
    pub closed spec fn message(self) -> Seq<u8> {
        self.message@
    }

    pub fn new() -> (r: Context)
        ensures
            r.message() == Seq::<u8>::empty(),
    {
        Context { message: Vec::new() }
    }

    /// Put more bytes behind those that are in.
    pub fn update(&mut self, data: &[u8])
        ensures
            final(self).message() == old(self).message() + data@,
    {
        crate::endian::put_bytes(&mut self.message, data);
    }

    /// The SHA-1 of all that has been put in, as an object-id.
    pub fn finish(&self) -> (r: Oid)
        ensures
            r@ == sha1(self.message()),
    {
        Oid(sha1_digest(self.message.as_slice()))
    }
}

/// The lower-case hexadecimal digit of a number below sixteen.
pub open spec fn hex_digit(n: int) -> char {
    if n < 10 {
        ((0x30 + n) as u8) as char
    } else {
        ((0x61 + n - 10) as u8) as char
    }
}

/// Bytes in hexadecimal: two lower-case digits each, the high one first.
pub open spec fn hex_text(bytes: Seq<u8>) -> Seq<char> {
    Seq::new(
        2 * bytes.len(),
        |i: int|
            if i % 2 == 0 {
                hex_digit(bytes[i / 2] as int / 16)
            } else {
                hex_digit(bytes[i / 2] as int % 16)
            },
    )
}

/// Is this a hexadecimal digit, of either case?
pub open spec fn is_hex_digit(c: char) -> bool {
    ('0' <= c <= '9') || ('a' <= c <= 'f') || ('A' <= c <= 'F')
}

/// What a hexadecimal digit counts for.
pub open spec fn hex_value(c: char) -> int {
    if '0' <= c <= '9' {
        c as int - 0x30
    } else if 'a' <= c <= 'f' {
        c as int - 0x61 + 10
    } else {
        c as int - 0x41 + 10
    }
}

/// White space that may stand between hexadecimal digits.
pub open spec fn is_hex_space(c: char) -> bool {
    c == ' ' || c == '\r' || c == '\n' || c == '\t'
}

/// The bytes that an even number of hexadecimal digits spell.
pub open spec fn hex_bytes(digits: Seq<char>) -> Seq<u8> {
    Seq::new(
        digits.len() / 2,
        |i: int| (16 * hex_value(digits[2 * i]) + hex_value(digits[2 * i + 1])) as u8,
    )
}

/// `rustc_serialize::hex::ToHex::to_hex` on bytes: two lower-case digits for
/// each byte.
#[verifier::external_body]
pub(crate) fn hex_encode(bytes: &[u8]) -> (text: String)
    ensures
        text@ == hex_text(bytes@),
{
    bytes.to_hex()
}

/// The digits of a hexadecimal text: what is left when the white space is
/// taken out.
pub open spec fn hex_digits(text: Seq<char>) -> Seq<char> {
    text.filter(|c: char| !is_hex_space(c))
}

/// The bytes that a hexadecimal text spells, where it spells any: white space
/// apart, it must be an even number of hexadecimal digits.
pub open spec fn hex_decoded(text: Seq<char>) -> Option<Seq<u8>> {
    let digits = hex_digits(text);
    if digits.len() % 2 == 0 && (forall|i: int|
        0 <= i < digits.len() ==> is_hex_digit(#[trigger] digits[i])) {
        Some(hex_bytes(digits))
    } else {
        None
    }
}

/// `rustc_serialize::hex::FromHex::from_hex` on text: white space is passed
/// over; what is left must be an even number of hexadecimal digits, and two
/// of them make a byte.  Anything else is refused.
#[verifier::external_body]
pub(crate) fn hex_decode(text: &str) -> (r: Option<Vec<u8>>)
    ensures
        r is Some <==> hex_decoded(text@) is Some,
        r matches Some(v) ==> hex_decoded(text@) == Some(v@),
{
    text.from_hex().ok()
}

/// The number after this one, the bytes read as one number with the most
/// significant byte first.  After the largest comes zero.
pub open spec fn succ(s: Seq<u8>) -> Seq<u8>
    decreases s.len(),
{
    if s.len() == 0 {
        s
    } else if s.last() == 0xff {
        succ(s.drop_last()).push(0)
    } else {
        s.drop_last().push((s.last() + 1) as u8)
    }
}

/// The number before this one.  Before zero comes the largest.
pub open spec fn pred(s: Seq<u8>) -> Seq<u8>
    decreases s.len(),
{
    if s.len() == 0 {
        s
    } else if s.last() == 0 {
        pred(s.drop_last()).push(0xff)
    } else {
        s.drop_last().push((s.last() - 1) as u8)
    }
}

pub proof fn lemma_succ_len(s: Seq<u8>)
    ensures
        succ(s).len() == s.len(),
        pred(s).len() == s.len(),
    decreases s.len(),
{
    if s.len() > 0 {
        lemma_succ_len(s.drop_last());
    }
}

/// Going one up and one down again changes nothing, and the other way round.
pub proof fn lemma_pred_succ(s: Seq<u8>)
    ensures
        pred(succ(s)) == s,
        succ(pred(s)) == s,
    decreases s.len(),
{
    if s.len() > 0 {
        lemma_pred_succ(s.drop_last());
        lemma_succ_len(s.drop_last());
        let init = s.drop_last();
        if s.last() == 0xff {
            assert(succ(s).drop_last() =~= succ(init));
        } else {
            assert(succ(s).drop_last() =~= init);
        }
        if s.last() == 0 {
            assert(pred(s).drop_last() =~= pred(init));
        } else {
            assert(pred(s).drop_last() =~= init);
        }
        assert(pred(succ(s)) =~= s);
        assert(succ(pred(s)) =~= s);
    }
}

/// Where the bytes from `k` on are all `0xff`, going one up turns them to
/// zero and carries into what stands before them.
pub proof fn lemma_succ_carries(s: Seq<u8>, k: int)
    requires
        0 <= k <= s.len(),
        forall|j: int| k <= j < s.len() ==> s[j] == 0xff,
    ensures
        succ(s) == succ(s.take(k)) + Seq::new((s.len() - k) as nat, |j: int| 0u8),
    decreases s.len(),
{
    if k == s.len() {
        assert(s.take(k) =~= s);
        assert(succ(s) =~= succ(s) + Seq::new(0, |j: int| 0u8));
    } else {
        let init = s.drop_last();
        lemma_succ_carries(init, k);
        assert(init.take(k) =~= s.take(k));
        assert(succ(init).push(0) =~= succ(s.take(k)) + Seq::new(
            (s.len() - k) as nat,
            |j: int| 0u8,
        ));
    }
}

/// Where the bytes from `k` on are all zero, going one down turns them to
/// `0xff` and borrows from what stands before them.
pub proof fn lemma_pred_borrows(s: Seq<u8>, k: int)
    requires
        0 <= k <= s.len(),
        forall|j: int| k <= j < s.len() ==> s[j] == 0,
    ensures
        pred(s) == pred(s.take(k)) + Seq::new((s.len() - k) as nat, |j: int| 0xffu8),
    decreases s.len(),
{
    if k == s.len() {
        assert(s.take(k) =~= s);
        assert(pred(s) =~= pred(s) + Seq::new(0, |j: int| 0xffu8));
    } else {
        let init = s.drop_last();
        lemma_pred_borrows(init, k);
        assert(init.take(k) =~= s.take(k));
        assert(pred(init).push(0xff) =~= pred(s.take(k)) + Seq::new(
            (s.len() - k) as nat,
            |j: int| 0xffu8,
        ));
    }
}

/// Is this text forty hexadecimal digits?
pub open spec fn is_oid_text(text: Seq<char>) -> bool {
    text.len() == 40 && forall|i: int| 0 <= i < text.len() ==> is_hex_digit(#[trigger] text[i])
}

/// A text has at most as many characters as bytes.
pub proof fn lemma_chars_within_bytes(chars: Seq<char>)
    ensures
        chars.len() <= encode_utf8(chars).len(),
    decreases chars.len(),
{
    if chars.len() > 0 {
        lemma_chars_within_bytes(chars.drop_first());
    }
}

/// A filter that lets everything through changes nothing, and one that
/// keeps the length has let everything through.
pub proof fn lemma_filter_keeps_all(s: Seq<char>, keep: spec_fn(char) -> bool)
    ensures
        (forall|i: int| 0 <= i < s.len() ==> keep(#[trigger] s[i])) ==> s.filter(keep) == s,
        s.filter(keep).len() == s.len() ==> s.filter(keep) == s,
    decreases s.len(),
{
    reveal(Seq::filter);
    if s.len() > 0 {
        let init = s.drop_last();
        lemma_filter_keeps_all(init, keep);
        init.lemma_filter_len(keep);
        if forall|i: int| 0 <= i < s.len() ==> keep(#[trigger] s[i]) {
            assert(keep(s[s.len() - 1]));
            assert forall|i: int| 0 <= i < init.len() implies keep(#[trigger] init[i]) by {
                assert(init[i] == s[i]);
            }
        }
        if keep(s.last()) {
            assert(init.push(s.last()) =~= s);
        }
    }
}

/// Text of forty hexadecimal digits is what `from_hex` takes, and no other.
proof fn lemma_oid_text(text: &str)
    ensures
        is_oid_text(text@) ==> text.spec_bytes().len() == 40 && hex_decoded(text@) == Some(
            hex_bytes(text@),
        ) && hex_bytes(text@).len() == 20,
        text.spec_bytes().len() == 40 && hex_decoded(text@) is Some && hex_decoded(
            text@,
        )->0.len() == 20 ==> is_oid_text(text@) && hex_digits(text@) == text@,
{
    let keep = |c: char| !is_hex_space(c);
    lemma_filter_keeps_all(text@, keep);
    text@.lemma_filter_len(keep);
    lemma_chars_within_bytes(text@);
    if is_oid_text(text@) {
        assert(is_ascii_chars(text@));
        is_ascii_chars_encode_utf8(text@);
        assert forall|i: int| 0 <= i < text@.len() implies keep(#[trigger] text@[i]) by {
            assert(is_hex_digit(text@[i]));
        }
        assert(hex_digits(text@) == text@);
    }
}

/// An object-id written in hexadecimal is read back as the same object-id.
pub proof fn lemma_hex_round_trip(s: Seq<u8>)
    requires
        s.len() == 20,
    ensures
        is_oid_text(hex_text(s)),
        hex_bytes(hex_text(s)) == s,
{
    let text = hex_text(s);
    assert forall|n: int| 0 <= n < 16 implies is_hex_digit(#[trigger] hex_digit(n)) && hex_value(
        hex_digit(n),
    ) == n by {}
    assert forall|i: int| 0 <= i < text.len() implies is_hex_digit(#[trigger] text[i]) by {
        let b = s[i / 2] as int;
        assert(0 <= b / 16 < 16 && 0 <= b % 16 < 16);
    }
    assert(hex_bytes(text) =~= s) by {
        assert forall|i: int| 0 <= i < 20 implies hex_bytes(text)[i] == s[i] by {
            let b = s[i] as int;
            assert(0 <= b / 16 < 16 && 0 <= b % 16 < 16);
            assert(text[2 * i] == hex_digit(b / 16));
            assert(text[2 * i + 1] == hex_digit(b % 16));
        }
    }
}

impl Oid {
    pub fn to_hex(&self) -> (r: String)
        ensures
            r@ == hex_text(self@),
    {
        hex_encode(self.0.as_slice())
    }

    /// Read an object-id from its forty hexadecimal digits, of either case.
    /// Any other text gives nothing.
    pub fn from_hex(text: &str) -> (r: Option<Oid>)
        ensures
            r is Some <==> is_oid_text(text@),
            r matches Some(oid) ==> oid@ == hex_bytes(text@),
    {
        proof {
            lemma_oid_text(text);
        }
        if text.as_bytes().len() != 40 {
            return None;
        }
        match hex_decode(text) {
            None => None,
            Some(raw) => {
                if raw.len() == 20 {
                    Some(Oid::from_raw(raw.as_slice()))
                } else {
                    None
                }
            },
        }
    }

    /// Make an object-id out of twenty raw bytes.
    pub fn from_raw(bytes: &[u8]) -> (r: Oid)
        requires
            bytes@.len() == 20,
        ensures
            r@ == bytes@,
    {
        let mut raw = [0u8; 20];
        let mut i: usize = 0;
        while i < 20
            invariant
                i <= 20,
                bytes@.len() == 20,
                forall|j: int| 0 <= j < i ==> raw@[j] == bytes@[j],
            decreases 20 - i,
        {
            raw[i] = bytes[i];
            i += 1;
        }
        assert(raw@ =~= bytes@);
        Oid(raw)
    }

    pub fn from_data(kind: Kind, data: &[u8]) -> (r: Oid)
        ensures
            r@ == sha1(kind.spec_bytes() + data@),
    {
        let mut ctx = Context::new();
        ctx.update(kind.bytes().as_slice());
        ctx.update(data);
        assert(ctx.message() =~= kind.spec_bytes() + data@);
        ctx.finish()
    }

    /// The object-id of the blob that holds a number in decimal.
    pub fn from_u32(num: u32) -> (r: Oid)
        ensures
            r@ == sha1(Kind(0x626f_6c62).spec_bytes() + decimal_digits(num as nat)),
    {
        let text = decimal(num);
        Self::from_data(Kind(0x626f_6c62), text.as_slice())
    }

    /// Simple accessor to get the size.
    pub fn size() -> (n: usize)
        ensures
            n == 20,
    {
        20
    }

    /// Go one up or one down, with carry from the last byte towards the first.
    fn tweak(&self, up: bool) -> (r: Oid)
        ensures
            r@ == if up { succ(self@) } else { pred(self@) },
    {
        let wrap: u8 = if up { 0xff } else { 0 };
        let fill: u8 = if up { 0 } else { 0xff };
        let mut raw = self.0;
        let mut pos: usize = 20;
        while pos > 0 && raw[pos - 1] == wrap
            invariant
                pos <= 20,
                wrap == if up { 0xffu8 } else { 0u8 },
                fill == if up { 0u8 } else { 0xffu8 },
                forall|j: int| 0 <= j < pos ==> raw@[j] == self@[j],
                forall|j: int| pos <= j < 20 ==> self@[j] == wrap && raw@[j] == fill,
            decreases pos,
        {
            pos -= 1;
            raw[pos] = fill;
        }
        if pos > 0 {
            let byte = raw[pos - 1];
            raw[pos - 1] = if up { byte + 1 } else { byte - 1 };
        }
        proof {
            let fills = Seq::new((20 - pos) as nat, |j: int| fill);
            let head = self@.take(pos as int);
            if up {
                lemma_succ_carries(self@, pos as int);
                if pos > 0 {
                    assert(raw@ =~= succ(head) + fills);
                } else {
                    assert(head =~= Seq::<u8>::empty());
                    assert(raw@ =~= succ(head) + fills);
                }
            } else {
                lemma_pred_borrows(self@, pos as int);
                if pos > 0 {
                    assert(raw@ =~= pred(head) + fills);
                } else {
                    assert(head =~= Seq::<u8>::empty());
                    assert(raw@ =~= pred(head) + fills);
                }
            }
        }
        Oid(raw)
    }

    /// The object-id just after this one.  After the last comes the first.
    pub fn inc(&self) -> (r: Oid)
        ensures
            r@ == succ(self@),
    {
        self.tweak(true)
    }

    /// The object-id just before this one.  Before the first comes the last.
    pub fn dec(&self) -> (r: Oid)
        ensures
            r@ == pred(self@),
    {
        self.tweak(false)
    }

    /// The bytes of the object-id, to be changed in place.
    pub fn as_mut_bytes(&mut self) -> (r: &mut [u8])
        ensures
            r@ == old(self)@,
            final(self)@ == final(r)@,
    {
        &mut self.0
    }

    /// Where does this object-id stand to `other`?
    pub fn side(&self, other: &Oid) -> (r: Side)
        ensures
            r is Before <==> lex_lt(self@, other@),
            r is After <==> lex_lt(other@, self@),
            r is Same <==> self@ == other@,
    {
        let mut i: usize = 0;
        while i < 20
            invariant
                i <= 20,
                self@.take(i as int) == other@.take(i as int),
            decreases 20 - i,
        {
            let a = self.0[i];
            let b = other.0[i];
            if a != b {
                proof {
                    lemma_lex_skip(self@, other@, i as int);
                    lemma_lex_skip(other@, self@, i as int);
                    assert(self@.skip(i as int)[0] == a);
                    assert(other@.skip(i as int)[0] == b);
                    assert(self@[i as int] != other@[i as int]);
                }
                if a < b {
                    return Side::Before;
                } else {
                    return Side::After;
                }
            }
            i += 1;
            assert(self@.take(i as int) =~= self@.take(i - 1).push(a));
            assert(other@.take(i as int) =~= other@.take(i - 1).push(b));
        }
        proof {
            assert(self@ =~= self@.take(20));
            assert(other@ =~= other@.take(20));
            lemma_lex_irreflexive(self@);
        }
        Side::Same
    }

    /// Are the two the same object-id?
    pub fn same(&self, other: &Oid) -> (b: bool)
        ensures
            b == (self@ == other@),
    {
        match self.side(other) {
            Side::Same => true,
            _ => false,
        }
    }
}

} // verus!
