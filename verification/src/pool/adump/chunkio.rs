//! The chunkstream files.
//!
//! Each chunk is written as a frame:
//!
//! ```text
//!  offset  length  field
//!       0      16  chunk-magic
//!      16       4  compressed length, amount stored in file.
//!      20       4  uncompress length, or -1 for not compressed
//!      24       4  kind
//!      28      20  sha1 of type + uncompressed-data
//!      48    clen  data
//!            0-15  padding
//! ```
//!
//! The numbers are always represented in little endian, and the whole
//! chunk is padded to a multiple of 16 bytes.

use vstd::prelude::*;
use vstd::slice::{slice_subrange, slice_to_vec};
use vstd::utf8::valid_utf8;
use crate::chunk::{Chunk, MAX_PAYLOAD};
use crate::cursor::{u32_at, Cursor};
use crate::endian::{le_bytes, lemma_le_value_of_bytes, put_bytes, put_u32};
use crate::error::Error;
use crate::kind::Kind;
use crate::oid::{sha1, Oid};
use crate::text::{all_ascii, lemma_ascii_is_utf8};
use crate::zlib::inflated;

verus! {

/// In place of the uncompressed length of a payload that is stored as it is.
pub const NOT_COMPRESSED: u32 = 0xFFFF_FFFF;

/// The sixteen bytes that a frame begins with: "adump-pool-v1.1" and a newline.
pub open spec fn frame_magic() -> Seq<u8> {
    seq![
        0x61, 0x64, 0x75, 0x6d, 0x70, 0x2d, 0x70, 0x6f, 0x6f, 0x6c, 0x2d, 0x76, 0x31, 0x2e, 0x31, 0x0a,
    ]
}

/// How many bytes of padding follow a payload of `clen` bytes.
pub open spec fn pad_len(clen: int) -> int {
    (16 - clen % 16) % 16
}

/// How many bytes the frame of a payload of `clen` bytes takes.
pub open spec fn frame_len(clen: int) -> int {
    48 + clen + pad_len(clen)
}

/// The frame that holds a payload as it is stored, with what is stated of it.
pub open spec fn frame_bytes(kind: Kind, oid: Seq<u8>, ulen: u32, stored: Seq<u8>) -> Seq<u8> {
    frame_magic() + le_bytes(stored.len() as u32) + le_bytes(ulen) + kind.spec_bytes() + oid + stored
        + Seq::new(pad_len(stored.len() as int) as nat, |i: int| 0u8)
}

/// The frame of a chunk: with its compressed payload where that is worth
/// writing, else with the payload itself.  A chunk that has neither has no
/// frame.
pub open spec fn chunk_frame(c: Chunk) -> Option<Seq<u8>> {
    match c.packed() {
        Some(z) => Some(frame_bytes(c.spec_kind(), c.spec_oid()@, c.spec_data_len(), z)),
        None => match c.payload() {
            Some(d) => Some(frame_bytes(c.spec_kind(), c.spec_oid()@, NOT_COMPRESSED, d)),
            None => None,
        },
    }
}

/// Why a frame is refused.
pub enum FrameFault {
    /// The bytes end before the frame does.
    Truncated,
    /// The bytes do not begin as a frame does.
    BadMagic,
    /// The kind is no text.
    KindNotUtf8,
    /// The kind is text, but not ASCII.
    KindNotAscii,
    /// The frame states a plain payload that is longer than a chunk may hold.
    TooLong,
}

/// The stored length that a frame states.
pub open spec fn stated_clen(rest: Seq<u8>) -> int {
    u32_at(rest, 16) as int
}

/// The uncompressed length that a frame states.
pub open spec fn stated_ulen(rest: Seq<u8>) -> u32 {
    u32_at(rest, 20)
}

/// The fault for which the frame at the start of `rest` is refused, if there
/// is one: the first that a reader meets who goes through the bytes.
pub open spec fn frame_fault(rest: Seq<u8>) -> Option<FrameFault> {
    let clen = stated_clen(rest);
    if rest.len() < 48 {
        Some(FrameFault::Truncated)
    } else if rest.subrange(0, 16) != frame_magic() {
        Some(FrameFault::BadMagic)
    } else if !valid_utf8(rest.subrange(24, 28)) {
        Some(FrameFault::KindNotUtf8)
    } else if !all_ascii(rest.subrange(24, 28)) {
        Some(FrameFault::KindNotAscii)
    } else if rest.len() < frame_len(clen) {
        Some(FrameFault::Truncated)
    } else if stated_ulen(rest) == NOT_COMPRESSED && clen > MAX_PAYLOAD {
        Some(FrameFault::TooLong)
    } else {
        None
    }
}

/// Is `e` the error that stands for the fault `f`?
pub open spec fn frame_fault_is(e: Error, f: FrameFault) -> bool {
    match f {
        FrameFault::Truncated => e matches Error::Io(io) && io.unexpected_eof,
        FrameFault::BadMagic => e matches Error::CorruptChunk(m) && m@ == "Invalid magic"@,
        FrameFault::KindNotUtf8 => e is Utf8Error,
        FrameFault::KindNotAscii => e is NonAsciiKind,
        FrameFault::TooLong => e matches Error::CorruptChunk(m) && m@ == "Payload too long"@,
    }
}

/// Is `c` the chunk that the frame at the start of `rest` holds?  A payload
/// that is stored as it is makes a plain chunk, whose object-id is worked out
/// afresh; a compressed one makes a chunk of the object-id that the frame
/// states.
pub open spec fn frame_holds(rest: Seq<u8>, c: Chunk) -> bool {
    let clen = stated_clen(rest);
    let stored = rest.subrange(48, 48 + clen);
    &&& c.spec_kind().spec_bytes() == rest.subrange(24, 28)
    &&& if stated_ulen(rest) == NOT_COMPRESSED {
        &&& c.spec_data_len() == clen
        &&& c.payload() == Some(stored)
        &&& c.spec_oid()@ == sha1(rest.subrange(24, 28) + stored)
        &&& c.held_data() == Some(stored)
        &&& c.held_zdata() is None
    } else {
        &&& c.spec_data_len() == stated_ulen(rest)
        &&& c.payload() == inflated(stored, stated_ulen(rest) as nat)
        &&& c.spec_oid()@ == rest.subrange(28, 48)
        &&& c.held_data() is None
        &&& c.held_zdata() == Some(stored)
    }
}

/// Every frame is a multiple of sixteen bytes long, and its padding is less
/// than sixteen bytes.
pub proof fn lemma_frame_len(clen: int)
    requires
        0 <= clen,
    ensures
        0 <= pad_len(clen) < 16,
        frame_len(clen) % 16 == 0,
        frame_len(clen) == 48 + (clen + 15) / 16 * 16,
{
}

/// What is read out of a frame that was written: the fields stand where
/// the layout says.
pub proof fn lemma_frame_fields(kind: Kind, oid: Seq<u8>, ulen: u32, stored: Seq<u8>, more: Seq<u8>)
    requires
        oid.len() == 20,
        stored.len() <= u32::MAX,
    ensures
        ({
            let rest = frame_bytes(kind, oid, ulen, stored) + more;
            &&& frame_bytes(kind, oid, ulen, stored).len() == frame_len(stored.len() as int)
            &&& rest.subrange(0, 16) == frame_magic()
            &&& stated_clen(rest) == stored.len()
            &&& stated_ulen(rest) == ulen
            &&& rest.subrange(24, 28) == kind.spec_bytes()
            &&& rest.subrange(28, 48) == oid
            &&& rest.subrange(48, 48 + stored.len() as int) == stored
            &&& rest.skip(frame_len(stored.len() as int)) == more
            &&& forall|i: int|
                48 + stored.len() <= i < frame_len(stored.len() as int) ==> #[trigger] rest[i] == 0
        }),
{
    let frame = frame_bytes(kind, oid, ulen, stored);
    let rest = frame + more;
    let clen = stored.len() as u32;
    assert(frame.len() == frame_len(stored.len() as int));
    assert(rest.subrange(0, 16) =~= frame_magic());
    assert(rest.subrange(16, 20) =~= le_bytes(clen));
    assert(rest.subrange(20, 24) =~= le_bytes(ulen));
    lemma_le_value_of_bytes(clen);
    lemma_le_value_of_bytes(ulen);
    assert(rest.subrange(24, 28) =~= kind.spec_bytes());
    assert(rest.subrange(28, 48) =~= oid);
    assert(rest.subrange(48, 48 + stored.len() as int) =~= stored);
    assert(rest.skip(frame_len(stored.len() as int)) =~= more);
}

/// A chunk that was written is read back as the chunk that it was: of the
/// same kind, object-id, length and payload.  This holds of a genuine chunk
/// of a well-formed kind, whatever follows its frame.
pub proof fn lemma_chunk_round_trip(c: Chunk, more: Seq<u8>, back: Chunk)
    requires
        c.wf(),
        c.genuine(),
        c.spec_kind().wf(),
        back.wf(),
        chunk_frame(c) is Some,
        frame_holds(chunk_frame(c)->0 + more, back),
    ensures
        frame_fault(chunk_frame(c)->0 + more) is None,
        (chunk_frame(c)->0 + more).skip(frame_len(stated_clen(chunk_frame(c)->0 + more))) == more,
        back.spec_kind() == c.spec_kind(),
        back.spec_oid()@ == c.spec_oid()@,
        back.spec_data_len() == c.spec_data_len(),
        back.payload() == c.payload(),
{
    let kind = c.spec_kind();
    let oid = c.spec_oid()@;
    c.lemma_packed_is_shorter();
    c.lemma_packed_unpacks();
    c.lemma_payload_len();
    lemma_ascii_is_utf8(kind.spec_bytes());
    lemma_le_value_of_bytes(kind.0);
    lemma_le_value_of_bytes(back.spec_kind().0);
    match c.packed() {
        Some(z) => {
            lemma_frame_fields(kind, oid, c.spec_data_len(), z, more);
        },
        None => {
            lemma_frame_fields(kind, oid, NOT_COMPRESSED, c.payload()->0, more);
        },
    }
}

/// The frame of a genuine chunk of a well-formed kind is not refused,
/// whatever follows it.
pub proof fn lemma_frame_is_taken(c: Chunk, more: Seq<u8>)
    requires
        c.wf(),
        c.genuine(),
        c.spec_kind().wf(),
        chunk_frame(c) is Some,
    ensures
        frame_fault(chunk_frame(c)->0 + more) is None,
{
    let kind = c.spec_kind();
    let oid = c.spec_oid()@;
    c.lemma_packed_is_shorter();
    c.lemma_payload_len();
    lemma_ascii_is_utf8(kind.spec_bytes());
    match c.packed() {
        Some(z) => {
            lemma_frame_fields(kind, oid, c.spec_data_len(), z, more);
        },
        None => {
            lemma_frame_fields(kind, oid, NOT_COMPRESSED, c.payload()->0, more);
        },
    }
}

/// A frame takes 48 bytes and its stored payload, rounded up to a multiple
/// of sixteen; what stands behind the payload is zero.
pub proof fn lemma_frame_shape(kind: Kind, oid: Seq<u8>, ulen: u32, stored: Seq<u8>)
    requires
        oid.len() == 20,
    ensures
        frame_bytes(kind, oid, ulen, stored).len() == frame_len(stored.len() as int),
        frame_len(stored.len() as int) == 48 + (stored.len() + 15) / 16 * 16,
        forall|i: int|
            48 + stored.len() <= i < frame_len(stored.len() as int) ==> #[trigger] frame_bytes(
                kind,
                oid,
                ulen,
                stored,
            )[i] == 0,
{
    lemma_frame_len(stored.len() as int);
}

/// Are these the sixteen bytes that a frame begins with?
fn is_frame_magic(s: &[u8]) -> (b: bool)
    requires
        s@.len() == 16,
    ensures
        b == (s@ == frame_magic()),
{
    let b = s[0] == 0x61 && s[1] == 0x64 && s[2] == 0x75 && s[3] == 0x6d && s[4] == 0x70 && s[5]
        == 0x2d && s[6] == 0x70 && s[7] == 0x6f && s[8] == 0x6f && s[9] == 0x6c && s[10] == 0x2d
        && s[11] == 0x76 && s[12] == 0x31 && s[13] == 0x2e && s[14] == 0x31 && s[15] == 0x0a;
    proof {
        if b {
            assert(s@ =~= frame_magic());
        }
    }
    b
}

/// Write the sixteen bytes that a frame begins with.
fn emit_frame_magic(out: &mut Vec<u8>)
    ensures
        final(out)@ == old(out)@ + frame_magic(),
{
    let magic: [u8; 16] = [
        0x61, 0x64, 0x75, 0x6d, 0x70, 0x2d, 0x70, 0x6f, 0x6f, 0x6c, 0x2d, 0x76, 0x31, 0x2e, 0x31, 0x0a,
    ];
    assert(magic@ =~= frame_magic());
    put_bytes(out, magic.as_slice());
}

/// How many bytes of padding follow a payload of `clen` bytes.
pub fn padding(clen: u32) -> (n: u32)
    ensures
        n == pad_len(clen as int),
        n < 16,
{
    (16 - clen % 16) % 16
}

/// Write a frame.
fn emit_frame(out: &mut Vec<u8>, kind: Kind, oid: &Oid, ulen: u32, stored: &[u8])
    requires
        stored@.len() <= u32::MAX,
    ensures
        final(out)@ == old(out)@ + frame_bytes(kind, oid@, ulen, stored@),
{
    let clen = stored.len() as u32;
    emit_frame_magic(out);
    put_u32(out, clen);
    put_u32(out, ulen);
    let kind_bytes = kind.bytes();
    put_bytes(out, kind_bytes.as_slice());
    put_bytes(out, oid.0.as_slice());
    put_bytes(out, stored);
    let ghost before_pad = out@;
    let pad = padding(clen);
    let mut i: u32 = 0;
    while i < pad
        invariant
            i <= pad,
            out@ == before_pad + Seq::new(i as nat, |k: int| 0u8),
        decreases pad - i,
    {
        out.push(0);
        i += 1;
        assert(out@ =~= before_pad + Seq::new(i as nat, |k: int| 0u8));
    }
    assert(out@ =~= old(out)@ + frame_bytes(kind, oid@, ulen, stored@));
}

/// How many bytes the frame takes whose first 48 bytes are `header`.  A
/// caller that has read the header of a frame learns from this how much
/// there is to read.
pub fn frame_span(header: &[u8]) -> (r: Result<u64, Error>)
    ensures
        match r {
            Ok(n) => header@.len() >= 48 && header@.subrange(0, 16) == frame_magic() && n == frame_len(
                stated_clen(header@),
            ),
            Err(e) => if header@.len() < 48 {
                frame_fault_is(e, FrameFault::Truncated)
            } else {
                header@.subrange(0, 16) != frame_magic() && frame_fault_is(e, FrameFault::BadMagic)
            },
        },
{
    if header.len() < 48 {
        return Err(Error::unexpected_eof());
    }
    if !is_frame_magic(slice_subrange(header, 0, 16)) {
        return Err(Error::CorruptChunk("Invalid magic".to_owned()));
    }
    let clen = crate::endian::read_u32(slice_subrange(header, 16, 20));
    Ok(48 + clen as u64 + padding(clen) as u64)
}

pub trait ChunkWrite {
    /// The bytes that have been written.
    spec fn written(&self) -> Seq<u8>;

    /// Write the frame of a chunk behind what has been written.  A chunk
    /// that has no payload is corrupt, and nothing is written for it.
    fn write_chunk(&mut self, chunk: &mut Chunk) -> (r: Result<(), Error>)
        ensures
            final(chunk).wf(),
            final(chunk).same_chunk(*old(chunk)),
            match r {
                Ok(()) => {
                    &&& chunk_frame(*old(chunk)) matches Some(frame)
                    &&& final(self).written() == old(self).written() + frame
                },
                Err(Error::CorruptChunk(_)) => {
                    &&& chunk_frame(*old(chunk)) is None
                    &&& final(self).written() == old(self).written()
                },
                Err(_) => false,
            },
    ;
}

impl ChunkWrite for Vec<u8> {
    open spec fn written(&self) -> Seq<u8> {
        self@
    }

    fn write_chunk(&mut self, chunk: &mut Chunk) -> (r: Result<(), Error>) {
        let kind = chunk.kind();
        let oid = *chunk.oid();
        let ulen = chunk.data_len();
        if let Some(zdata) = chunk.zdata() {
            emit_frame(self, kind, &oid, ulen, zdata.as_slice());
            return Ok(());
        }
        match chunk.data() {
            Ok(data) => {
                emit_frame(self, kind, &oid, NOT_COMPRESSED, data.as_slice());
                Ok(())
            },
            Err(e) => Err(e),
        }
    }
}

pub trait ChunkRead {
    /// The bytes that have not been read yet.
    spec fn unread(&self) -> Seq<u8>;

    /// Read a chunk from the stream.  Where the frame is refused nothing is
    /// read.
    fn read_chunk(&mut self) -> (r: Result<Chunk, Error>)
        ensures
            match r {
                Ok(c) => {
                    &&& frame_fault(old(self).unread()) is None
                    &&& c.wf()
                    &&& frame_holds(old(self).unread(), c)
                    &&& final(self).unread() == old(self).unread().skip(
                        frame_len(stated_clen(old(self).unread())),
                    )
                },
                Err(e) => {
                    &&& frame_fault(old(self).unread()) matches Some(f) && frame_fault_is(e, f)
                    &&& final(self).unread() == old(self).unread()
                },
            },
    ;
}

impl<'a> ChunkRead for Cursor<'a> {
    open spec fn unread(&self) -> Seq<u8> {
        self.bytes().skip(self.position())
    }

    fn read_chunk(&mut self) -> (r: Result<Chunk, Error>) {
        let ghost rest = self.unread();
        let ghost at = self.position();
        let start = self.pos();
        let all = self.whole();
        let mut rd = Cursor::at(all, start);
        let header = rd.read_exact(48)?;
        assert(header@ =~= rest.subrange(0, 48));
        let magic = slice_subrange(header, 0, 16);
        assert(magic@ =~= rest.subrange(0, 16));
        if !is_frame_magic(magic) {
            return Err(Error::CorruptChunk("Invalid magic".to_owned()));
        }
        let clen = crate::endian::read_u32(slice_subrange(header, 16, 20));
        let ulen = crate::endian::read_u32(slice_subrange(header, 20, 24));
        assert(header@.subrange(16, 20) =~= rest.subrange(16, 20));
        assert(header@.subrange(20, 24) =~= rest.subrange(20, 24));
        let kind_raw = slice_subrange(header, 24, 28);
        assert(kind_raw@ =~= rest.subrange(24, 28));
        let kind = Kind::from_bytes(kind_raw)?;
        proof {
            lemma_ascii_is_utf8(kind_raw@);
            assert(clen == stated_clen(rest));
            assert(ulen == stated_ulen(rest));
            assert(rest.len() == self.bytes().len() - at);
        }
        let oid_raw = slice_subrange(header, 28, 48);
        assert(oid_raw@ =~= rest.subrange(28, 48));
        let oid = Oid::from_raw(oid_raw);

        let stored = rd.read_exact(clen as usize)?;
        assert(stored@ =~= rest.subrange(48, 48 + clen));
        let pad = padding(clen);
        let _ = rd.read_exact(pad as usize)?;

        let chunk = if ulen == NOT_COMPRESSED {
            if clen as usize > MAX_PAYLOAD {
                return Err(Error::CorruptChunk("Payload too long".to_owned()));
            }
            Chunk::new_plain(kind, slice_to_vec(stored))
        } else {
            Chunk::new_compressed(kind, oid, slice_to_vec(stored), ulen)
        };
        let end = rd.pos();
        *self = Cursor::at(all, end);
        assert(self.unread() =~= rest.skip(frame_len(clen as int)));
        Ok(chunk)
    }
}

} // verus!
