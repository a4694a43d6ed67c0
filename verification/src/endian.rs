//! Little-endian 32-bit numbers, as every file of the store writes them.

use vstd::prelude::*;
use byteorder::{ByteOrder, LittleEndian};

verus! {

/// The number that four bytes spell, least significant byte first.
pub open spec fn le_value(s: Seq<u8>) -> int
    recommends
        s.len() >= 4,
{
    s[0] as int + s[1] as int * 0x100 + s[2] as int * 0x1_0000 + s[3] as int * 0x100_0000
}

/// The four bytes that spell a number, least significant byte first.
pub open spec fn le_bytes(n: u32) -> Seq<u8> {
    seq![
        (n as int % 0x100) as u8,
        (n as int / 0x100 % 0x100) as u8,
        (n as int / 0x1_0000 % 0x100) as u8,
        (n as int / 0x100_0000) as u8,
    ]
}

/// Reading back what was written gives the number again.
pub proof fn lemma_le_value_of_bytes(n: u32)
    ensures
        le_bytes(n).len() == 4,
        le_value(le_bytes(n)) == n,
{
}

/// Writing what was read gives the same four bytes again.
pub proof fn lemma_le_bytes_of_value(s: Seq<u8>)
    requires
        s.len() == 4,
    ensures
        0 <= le_value(s) <= u32::MAX,
        le_bytes(le_value(s) as u32) == s,
{
    let a = s[0] as int;
    let b = s[1] as int;
    let c = s[2] as int;
    let d = s[3] as int;
    let v = le_value(s);
    let v1 = b + c * 0x100 + d * 0x1_0000;
    let v2 = c + d * 0x100;
    assert(v == a + v1 * 0x100);
    assert(v1 == b + v2 * 0x100);
    assert(v2 == c + d * 0x100);
    assert(v % 0x100 == a && v / 0x100 == v1);
    assert(v1 % 0x100 == b && v1 / 0x100 == v2);
    assert(v2 % 0x100 == c && v2 / 0x100 == d);
    assert(v / 0x1_0000 == v2);
    assert(v / 0x100_0000 == d);
    assert(le_bytes(v as u32) =~= s);
}

/// `byteorder::LittleEndian::read_u32`: the first four bytes of `buf`, read as
/// a little-endian number.  It panics on a shorter buffer, which `requires`
/// leaves out.
#[verifier::external_body]
pub(crate) fn read_u32(buf: &[u8]) -> (n: u32)
    requires
        buf@.len() >= 4,
    ensures
        n == le_value(buf@),
{
    LittleEndian::read_u32(buf)
}

/// `byteorder::LittleEndian::write_u32` on a buffer of four bytes: the bytes
/// of `n`, least significant first.
#[verifier::external_body]
pub(crate) fn write_u32(n: u32) -> (buf: [u8; 4])
    ensures
        buf@ == le_bytes(n),
{
    let mut buf = [0u8; 4];
    LittleEndian::write_u32(&mut buf, n);
    buf
}

/// A row of numbers, each written as four bytes.
#[verifier::opaque]
pub open spec fn u32_table(xs: Seq<u32>) -> Seq<u8> {
    Seq::new(4 * xs.len(), |p: int| le_bytes(xs[p / 4])[p % 4])
}

/// A table of numbers is four times as long as the row.
pub proof fn lemma_u32_table_len(xs: Seq<u32>)
    ensures
        u32_table(xs).len() == 4 * xs.len(),
{
    reveal(u32_table);
}

/// A table that has grown by one number has grown by its four bytes.
pub proof fn lemma_u32_table_push(xs: Seq<u32>, x: u32)
    ensures
        u32_table(xs.push(x)) == u32_table(xs) + le_bytes(x),
{
    reveal(u32_table);
    assert(u32_table(xs.push(x)) =~= u32_table(xs) + le_bytes(x));
}

/// The table of no numbers is empty.
pub proof fn lemma_u32_table_empty()
    ensures
        u32_table(Seq::<u32>::empty()) == Seq::<u8>::empty(),
{
    reveal(u32_table);
    assert(u32_table(Seq::<u32>::empty()) =~= Seq::<u8>::empty());
}

/// The number at place `i` of a table can be read out of its bytes.
pub proof fn lemma_u32_table_row(xs: Seq<u32>, i: int)
    requires
        0 <= i < xs.len(),
    ensures
        u32_table(xs).len() == 4 * xs.len(),
        u32_table(xs).subrange(4 * i, 4 * i + 4) == le_bytes(xs[i]),
        le_value(u32_table(xs).subrange(4 * i, 4 * i + 4)) == xs[i],
{
    reveal(u32_table);
    assert(u32_table(xs).subrange(4 * i, 4 * i + 4) =~= le_bytes(xs[i]));
    lemma_le_value_of_bytes(xs[i]);
}

/// Put bytes behind those that are there.
pub fn put_bytes(out: &mut Vec<u8>, bytes: &[u8])
    ensures
        final(out)@ == old(out)@ + bytes@,
{
    out.extend_from_slice(bytes);
    assert(out@ =~= old(out)@ + bytes@);
}

/// Put the four bytes of a number behind those that are there.
pub fn put_u32(out: &mut Vec<u8>, n: u32)
    ensures
        final(out)@ == old(out)@ + le_bytes(n),
{
    let buf = write_u32(n);
    put_bytes(out, buf.as_slice());
}

} // verus!
