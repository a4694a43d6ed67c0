//! The names of the files of a pool.
//!
//! A pool file is `pool-data-NNNN.data`, with the serial number of the file
//! in four digits; its index is `pool-data-NNNN.idx` beside it.

use vstd::prelude::*;
use vstd::string::*;
use crate::error::Error;
use crate::text::{
    all_ascii, ascii_chars, ascii_string, decimal, decimal_digits, digits_value, is_digit,
    lemma_decimal_digits, lemma_decimal_is_parsed,
};

verus! {

/// "pool-data-"
pub open spec fn name_head() -> Seq<u8> {
    seq![0x70, 0x6f, 0x6f, 0x6c, 0x2d, 0x64, 0x61, 0x74, 0x61, 0x2d]
}

/// ".data"
pub open spec fn data_tail() -> Seq<u8> {
    seq![0x2e, 0x64, 0x61, 0x74, 0x61]
}

/// ".idx"
pub open spec fn index_tail() -> Seq<u8> {
    seq![0x2e, 0x69, 0x64, 0x78]
}

/// A number in decimal, with zeros before it where it has fewer than four
/// digits.
pub open spec fn four_digits(n: nat) -> Seq<u8> {
    let d = decimal_digits(n);
    if d.len() < 4 {
        Seq::new((4 - d.len()) as nat, |i: int| 0x30u8) + d
    } else {
        d
    }
}

/// The name of the pool file with the serial number `serial`.
pub open spec fn data_name(serial: u32) -> Seq<u8> {
    name_head() + four_digits(serial as nat) + data_tail()
}

/// The name of the index of the pool file with the serial number `serial`.
pub open spec fn index_name(serial: u32) -> Seq<u8> {
    name_head() + four_digits(serial as nat) + index_tail()
}

/// The serial number that the name of a pool file states: the name is
/// `pool-data-`, four digits and `.data`, and nothing else.
pub open spec fn serial_of(name: Seq<u8>) -> Option<u32> {
    if name.len() == 19 && name.take(10) == name_head() && name.skip(14) == data_tail() && (forall|
        i: int,
    | 10 <= i < 14 ==> is_digit(#[trigger] name[i])) {
        Some(digits_value(name.subrange(10, 14)) as u32)
    } else {
        None
    }
}

/// Four digits spell a number below ten thousand.
pub proof fn lemma_four_digits_value(s: Seq<u8>)
    requires
        s.len() == 4,
        forall|i: int| 0 <= i < 4 ==> is_digit(#[trigger] s[i]),
    ensures
        digits_value(s) == (s[0] - 0x30) * 1000 + (s[1] - 0x30) * 100 + (s[2] - 0x30) * 10 + (s[3]
            - 0x30),
        digits_value(s) < 10000,
{
    let s3 = s.drop_last();
    let s2 = s3.drop_last();
    let s1 = s2.drop_last();
    assert(s1.drop_last() =~= Seq::<u8>::empty());
    assert(digits_value(s1.drop_last()) == 0);
    assert(is_digit(s[0]) && is_digit(s[1]) && is_digit(s[2]) && is_digit(s[3]));
    assert(s1.last() == s[0] && s2.last() == s[1] && s3.last() == s[2] && s.last() == s[3]);
    assert(digits_value(s1) == s[0] - 0x30);
    assert(digits_value(s2) == digits_value(s1) * 10 + (s[1] - 0x30));
    assert(digits_value(s3) == digits_value(s2) * 10 + (s[2] - 0x30));
    assert(digits_value(s) == digits_value(s3) * 10 + (s[3] - 0x30));
}

/// Write a number in decimal, in four digits at least.
pub fn four(n: u32) -> (r: Vec<u8>)
    ensures
        r@ == four_digits(n as nat),
        all_ascii(r@),
        r@.len() >= 4,
{
    let digits = decimal(n);
    proof {
        lemma_decimal_digits(n as nat);
    }
    let mut r: Vec<u8> = Vec::new();
    let mut i: usize = digits.len();
    while i < 4
        invariant
            digits@.len() <= i,
            digits@.len() < 4 ==> i <= 4,
            digits@.len() >= 4 ==> i == digits@.len(),
            r@ == Seq::new((i - digits@.len()) as nat, |k: int| 0x30u8),
        decreases 4 - i,
    {
        r.push(0x30);
        i += 1;
        assert(r@ =~= Seq::new((i - digits@.len()) as nat, |k: int| 0x30u8));
    }
    let ghost zeros = r@;
    crate::endian::put_bytes(&mut r, digits.as_slice());
    proof {
        if digits@.len() >= 4 {
            assert(zeros =~= Seq::<u8>::empty());
            assert(r@ =~= digits@);
        }
    }
    r
}

/// Write "pool-data-" behind what is there.
fn put_head(out: &mut Vec<u8>)
    ensures
        final(out)@ == old(out)@ + name_head(),
{
    let head: [u8; 10] = [0x70, 0x6f, 0x6f, 0x6c, 0x2d, 0x64, 0x61, 0x74, 0x61, 0x2d];
    assert(head@ =~= name_head());
    crate::endian::put_bytes(out, head.as_slice());
}

/// The name of the pool file with the serial number `serial`.
pub fn pool_file_name(serial: u32) -> (r: String)
    ensures
        r@ == ascii_chars(data_name(serial)),
        all_ascii(data_name(serial)),
{
    let mut out: Vec<u8> = Vec::new();
    put_head(&mut out);
    let digits = four(serial);
    crate::endian::put_bytes(&mut out, digits.as_slice());
    let tail: [u8; 5] = [0x2e, 0x64, 0x61, 0x74, 0x61];
    assert(tail@ =~= data_tail());
    crate::endian::put_bytes(&mut out, tail.as_slice());
    assert(out@ =~= data_name(serial));
    ascii_string(out)
}

/// The name of the index of the pool file with the serial number `serial`.
pub fn pool_index_name(serial: u32) -> (r: String)
    ensures
        r@ == ascii_chars(index_name(serial)),
        all_ascii(index_name(serial)),
{
    let mut out: Vec<u8> = Vec::new();
    put_head(&mut out);
    let digits = four(serial);
    crate::endian::put_bytes(&mut out, digits.as_slice());
    let tail: [u8; 4] = [0x2e, 0x69, 0x64, 0x78];
    assert(tail@ =~= index_tail());
    crate::endian::put_bytes(&mut out, tail.as_slice());
    assert(out@ =~= index_name(serial));
    ascii_string(out)
}

/// The name under which a file is written before it takes the place of the
/// file of the name `name`: the same name with `.tmp` behind it.  There must
/// be a name.
pub fn tmpify(name: &str) -> (r: Result<String, Error>)
    ensures
        match r {
            Ok(tmp) => name@.len() > 0 && tmp@ == name@ + ".tmp"@,
            Err(e) => name@.len() == 0 && e is PathError,
        },
{
    if name.is_empty() {
        return Err(Error::PathError("path does not have a filename".to_owned()));
    }
    Ok(name.to_owned().concat(".tmp"))
}

/// The serial number of a pool file, read out of its name.  Any other name
/// gives nothing.
pub fn pool_serial(name: &str) -> (r: Option<u32>)
    ensures
        r == serial_of(name.spec_bytes()),
{
    let b = name.as_bytes();
    if b.len() != 19 {
        return None;
    }
    let head_ok = b[0] == 0x70 && b[1] == 0x6f && b[2] == 0x6f && b[3] == 0x6c && b[4] == 0x2d
        && b[5] == 0x64 && b[6] == 0x61 && b[7] == 0x74 && b[8] == 0x61 && b[9] == 0x2d;
    let tail_ok = b[14] == 0x2e && b[15] == 0x64 && b[16] == 0x61 && b[17] == 0x74 && b[18] == 0x61;
    let digits_ok = 0x30 <= b[10] && b[10] <= 0x39 && 0x30 <= b[11] && b[11] <= 0x39 && 0x30 <= b[12]
        && b[12] <= 0x39 && 0x30 <= b[13] && b[13] <= 0x39;
    proof {
        if head_ok {
            assert(b@.take(10) =~= name_head());
        } else {
            assert(b@.take(10)[0] == b@[0] && b@.take(10)[1] == b@[1] && b@.take(10)[2] == b@[2]
                && b@.take(10)[3] == b@[3] && b@.take(10)[4] == b@[4] && b@.take(10)[5] == b@[5]
                && b@.take(10)[6] == b@[6] && b@.take(10)[7] == b@[7] && b@.take(10)[8] == b@[8]
                && b@.take(10)[9] == b@[9]);
        }
        if tail_ok {
            assert(b@.skip(14) =~= data_tail());
        } else {
            assert(b@.skip(14)[0] == b@[14] && b@.skip(14)[1] == b@[15] && b@.skip(14)[2] == b@[16]
                && b@.skip(14)[3] == b@[17] && b@.skip(14)[4] == b@[18]);
        }
        if !digits_ok {
            assert(!is_digit(b@[10]) || !is_digit(b@[11]) || !is_digit(b@[12]) || !is_digit(b@[13]));
        }
    }
    if !(head_ok && tail_ok && digits_ok) {
        return None;
    }
    proof {
        let d = b@.subrange(10, 14);
        assert(d[0] == b@[10] && d[1] == b@[11] && d[2] == b@[12] && d[3] == b@[13]);
        lemma_four_digits_value(d);
    }
    let value: u32 = (b[10] - 0x30) as u32 * 1000 + (b[11] - 0x30) as u32 * 100 + (b[12] - 0x30) as u32
        * 10 + (b[13] - 0x30) as u32;
    Some(value)
}

/// A serial number that a name states is below ten thousand.
pub proof fn lemma_serial_is_small(name: Seq<u8>)
    ensures
        serial_of(name) matches Some(s) ==> s < 10000,
{
    if serial_of(name) is Some {
        let d = name.subrange(10, 14);
        assert forall|i: int| 0 <= i < 4 implies is_digit(#[trigger] d[i]) by {
            assert(d[i] == name[10 + i]);
        }
        lemma_four_digits_value(d);
    }
}

/// The name that is written for a serial number below ten thousand states
/// that number.
pub proof fn lemma_name_states_serial(serial: u32)
    requires
        serial < 10000,
    ensures
        serial_of(data_name(serial)) == Some(serial),
{
    let digits = four_digits(serial as nat);
    let d = decimal_digits(serial as nat);
    lemma_decimal_digits(serial as nat);
    lemma_decimal_is_parsed(serial as nat);
    lemma_decimal_len(serial as nat);
    assert(digits.len() == 4);
    let name = data_name(serial);
    assert(name.take(10) =~= name_head());
    assert(name.skip(14) =~= data_tail());
    assert(name.subrange(10, 14) =~= digits);
    assert forall|i: int| 10 <= i < 14 implies is_digit(#[trigger] name[i]) by {
        assert(name[i] == digits[i - 10]);
        if i - 10 >= 4 - d.len() {
            assert(digits[i - 10] == d[i - 10 - (4 - d.len())]);
        }
    }
    lemma_zeros_before(d, (4 - d.len()) as nat);
}

/// How many digits a number below ten thousand has.
pub proof fn lemma_decimal_len(n: nat)
    requires
        n < 10000,
    ensures
        decimal_digits(n).len() <= 4,
    decreases n,
{
    reveal_with_fuel(decimal_digits, 5);
}

/// Zeros before digits change nothing of the number.
pub proof fn lemma_zeros_before(d: Seq<u8>, zeros: nat)
    ensures
        digits_value(Seq::new(zeros, |i: int| 0x30u8) + d) == digits_value(d),
    decreases d.len(),
{
    let z = Seq::new(zeros, |i: int| 0x30u8);
    if d.len() == 0 {
        assert(z + d =~= z);
        lemma_zeros_value(zeros);
    } else {
        lemma_zeros_before(d.drop_last(), zeros);
        assert((z + d).drop_last() =~= z + d.drop_last());
    }
}

/// Zeros spell zero.
pub proof fn lemma_zeros_value(zeros: nat)
    ensures
        digits_value(Seq::new(zeros, |i: int| 0x30u8)) == 0,
    decreases zeros,
{
    if zeros > 0 {
        lemma_zeros_value((zeros - 1) as nat);
        assert(Seq::new(zeros, |i: int| 0x30u8).drop_last() =~= Seq::new(
            (zeros - 1) as nat,
            |i: int| 0x30u8,
        ));
    }
}

} // verus!
