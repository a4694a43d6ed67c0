//! Backup chunks.
//!
//! A `Chunk` is a single unit of backup.  It has a kind, which is a 4-byte
//! identifier, and 0 or more bytes of data.  It is identified by the SHA-1
//! hash of the kind followed by the data.  A chunk may come into being from
//! its plain payload or from its compressed one; the other form is worked
//! out when it is first asked for, and kept.

use vstd::prelude::*;
use crate::error::Error;
use crate::kind::Kind;
use crate::oid::{sha1, Oid};
use crate::zlib::{deflate, deflated, inflate, inflated};

verus! {

/// The longest payload that a chunk may hold.
pub const MAX_PAYLOAD: usize = 0x7ff_ffff;

/// What is known of the compressed form of a chunk.
#[derive(Debug)]
pub enum Compressed {
    /// Compression has not been tried.
    Untried,
    /// It was tried, and did not make the payload shorter.
    Uncompressible,
    /// The compressed payload.
    Compressed(Vec<u8>),
}

impl Compressed {
    /// The compressed payload, where there is one.
    pub open spec fn stream(self) -> Option<Seq<u8>> {
        match self {
            Compressed::Compressed(z) => Some(z@),
            _ => None,
        }
    }
}

/// Bytes lent out of a chunk.
#[derive(Debug)]
pub enum Data<'a> {
    /// The compressed payload.
    Cell(&'a Vec<u8>),
    /// The payload itself.
    VecCell(&'a Vec<u8>),
}

impl<'a> View for Data<'a> {
    type V = Seq<u8>;

    open spec fn view(&self) -> Seq<u8> {
        match *self {
            Data::Cell(v) => v@,
            Data::VecCell(v) => v@,
        }
    }
}

impl<'a> Data<'a> {
    /// The bytes.
    pub fn as_slice(&self) -> (r: &[u8])
        ensures
            r@ == self@,
    {
        match self {
            Data::Cell(v) => v.as_slice(),
            Data::VecCell(v) => v.as_slice(),
        }
    }

    /// How many bytes there are.
    pub fn len(&self) -> (n: usize)
        ensures
            n == self@.len(),
    {
        match self {
            Data::Cell(v) => v.len(),
            Data::VecCell(v) => v.len(),
        }
    }
}

#[derive(Debug)]
pub struct Chunk {
    kind: Kind,
    oid: Oid,
    data_len: u32,
    // These are both optional, since one can be derived from the other.  It
    // is non-sensical to have neither present.
    data: Option<Vec<u8>>,
    zdata: Compressed,
}

impl Chunk {
    /// The kind of the chunk.
    pub closed spec fn spec_kind(self) -> Kind {
        self.kind
    }

    /// The object-id that the chunk goes by.
    pub closed spec fn spec_oid(self) -> Oid {
        self.oid
    }

    /// The length of the payload.
    pub closed spec fn spec_data_len(self) -> u32 {
        self.data_len
    }

    /// The payload, as far as the chunk holds it uncompressed by now.
    pub closed spec fn held_data(self) -> Option<Seq<u8>> {
        match self.data {
            Some(d) => Some(d@),
            None => None,
        }
    }

    /// The compressed payload, as far as the chunk holds one by now.
    pub closed spec fn held_zdata(self) -> Option<Seq<u8>> {
        self.zdata.stream()
    }

    /// Has compression been tried, and been found not to pay?
    pub closed spec fn known_uncompressible(self) -> bool {
        self.zdata is Uncompressible
    }

    /// What holds of every chunk: a payload is there in one form at least,
    /// the plain one has the length that the chunk states, and where both
    /// forms are there they hold the same payload.
    #[verifier::type_invariant]
    pub closed spec fn wf(self) -> bool {
        match (self.data, self.zdata) {
            (None, Compressed::Compressed(_)) => true,
            (None, _) => false,
            (Some(d), Compressed::Untried) => d@.len() == self.data_len,
            (Some(d), Compressed::Uncompressible) => d@.len() == self.data_len && deflated(d@) is None,
            (Some(d), Compressed::Compressed(z)) => d@.len() == self.data_len && inflated(
                z@,
                self.data_len as nat,
            ) == Some(d@),
        }
    }

    /// The payload of the chunk: the plain bytes that it holds or that its
    /// compressed form unpacks to.  A chunk made of a compressed payload that
    /// does not unpack to the stated length has none.
    pub closed spec fn payload(self) -> Option<Seq<u8>> {
        match self.data {
            Some(d) => Some(d@),
            None => match self.zdata {
                Compressed::Compressed(z) => inflated(z@, self.data_len as nat),
                _ => None,
            },
        }
    }

    /// The compressed payload that is worth writing in place of the plain
    /// one: a compressed form that is shorter than the payload.
    pub closed spec fn packed(self) -> Option<Seq<u8>> {
        match self.zdata {
            Compressed::Compressed(z) => if z@.len() < self.data_len {
                Some(z@)
            } else {
                None
            },
            Compressed::Uncompressible => None,
            Compressed::Untried => match self.data {
                Some(d) => deflated(d@),
                None => None,
            },
        }
    }

    /// Two states of one chunk: what it is has not changed, whatever it has
    /// worked out in between.
    pub open spec fn same_chunk(self, other: Chunk) -> bool {
        &&& self.spec_kind() == other.spec_kind()
        &&& self.spec_oid() == other.spec_oid()
        &&& self.spec_data_len() == other.spec_data_len()
        &&& self.payload() == other.payload()
        &&& self.packed() == other.packed()
    }

    /// A chunk is genuine when it has a payload, of a length that a chunk
    /// may have, and its object-id is the SHA-1 of its kind and that payload.
    pub open spec fn genuine(self) -> bool {
        match self.payload() {
            Some(d) => d.len() <= MAX_PAYLOAD && self.spec_oid()@ == sha1(
                self.spec_kind().spec_bytes() + d,
            ),
            None => false,
        }
    }

    /// What `zdata` lends is shorter than the payload.
    pub proof fn lemma_packed_is_shorter(self)
        requires
            self.wf(),
        ensures
            self.packed() matches Some(z) ==> z.len() < self.spec_data_len(),
    {
    }

    /// What `zdata` lends unpacks to the payload.
    pub proof fn lemma_packed_unpacks(self)
        requires
            self.wf(),
        ensures
            self.packed() matches Some(z) ==> inflated(z, self.spec_data_len() as nat)
                == self.payload(),
    {
    }

    /// Where the chunk has a payload, it has the length that the chunk states.
    pub proof fn lemma_payload_len(self)
        requires
            self.wf(),
        ensures
            self.payload() matches Some(d) ==> d.len() == self.spec_data_len(),
    {
    }

    /// Construct a new chunk out of some uncompressed data.
    pub fn new_plain(kind: Kind, data: Vec<u8>) -> (c: Chunk)
        requires
            data@.len() <= MAX_PAYLOAD,
        ensures
            c.wf(),
            c.genuine(),
            c.spec_kind() == kind,
            c.spec_data_len() == data@.len(),
            c.payload() == Some(data@),
            c.packed() == deflated(data@),
            c.held_data() == Some(data@),
            c.held_zdata() is None,
            !c.known_uncompressible(),
    {
        let oid = Oid::from_data(kind, data.as_slice());
        let dlen = data.len();
        Chunk { kind: kind, oid: oid, data: Some(data), data_len: dlen as u32, zdata: Compressed::Untried }
    }

    /// Construct a new chunk out of the compressed representation of a
    /// chunk.  The `data_len` must match the size of the 'zdata' when
    /// it is decompressed, and the `oid` must match the SHA1 hash, per
    /// the style of chunks described above.  Neither is looked into here: a
    /// chunk whose `zdata` does not unpack to `data_len` bytes has no payload.
    pub fn new_compressed(kind: Kind, oid: Oid, zdata: Vec<u8>, data_len: u32) -> (c: Chunk)
        ensures
            c.wf(),
            c.spec_kind() == kind,
            c.spec_oid() == oid,
            c.spec_data_len() == data_len,
            c.payload() == inflated(zdata@, data_len as nat),
            c.packed() == if zdata@.len() < data_len { Some(zdata@) } else { None },
            c.held_data() is None,
            c.held_zdata() == Some(zdata@),
            !c.known_uncompressible(),
    {
        Chunk { kind: kind, oid: oid, data: None, data_len: data_len, zdata: Compressed::Compressed(zdata) }
    }

    /// Return the kind asociated with this chunk.
    pub fn kind(&self) -> (k: Kind)
        ensures
            k == self.spec_kind(),
    {
        self.kind
    }

    /// Return the Oid identifying this chunk.
    pub fn oid(&self) -> (o: &Oid)
        ensures
            *o == self.spec_oid(),
    {
        &self.oid
    }

    /// Return the length of the data.
    pub fn data_len(&self) -> (n: u32)
        ensures
            n == self.spec_data_len(),
    {
        self.data_len
    }

    /// Return a view of the compressed data within this chunk, if that
    /// results in a smaller block of data.  Compression is tried once, when
    /// this is first asked of a chunk that was made of plain data.
    pub fn zdata(&mut self) -> (r: Option<Data<'_>>)
        ensures
            final(self).wf(),
            final(self).same_chunk(*old(self)),
            final(self).held_data() == old(self).held_data(),
            final(self).held_zdata() == if old(self).held_zdata() is Some {
                old(self).held_zdata()
            } else {
                old(self).packed()
            },
            final(self).known_uncompressible() == (old(self).held_zdata() is None && old(self).packed() is None),
            r is Some <==> old(self).packed() is Some,
            r matches Some(z) ==> old(self).packed() == Some(z@),
            r matches Some(z) ==> z@.len() < old(self).spec_data_len(),
            r matches Some(z) ==> inflated(z@, old(self).spec_data_len() as nat) == old(
                self,
            ).payload(),
    {
        proof {
            use_type_invariant(&*self);
        }
        if let Compressed::Untried = &self.zdata {
            // We haven't attempted compression.
            let tried = match &self.data {
                Some(payload) => deflate(payload.as_slice()),
                None => None,
            };
            self.zdata = match tried {
                None => Compressed::Uncompressible,
                Some(buf) => Compressed::Compressed(buf),
            };
        }
        let data_len = self.data_len;
        match &self.zdata {
            Compressed::Compressed(z) => {
                if z.len() < data_len as usize {
                    Some(Data::Cell(z))
                } else {
                    None
                }
            },
            _ => None,
        }
    }

    // Ensure that the data has been uncompressed.
    fn force_data(&mut self) -> (r: Result<(), Error>)
        ensures
            final(self).wf(),
            final(self).same_chunk(*old(self)),
            final(self).held_zdata() == old(self).held_zdata(),
            final(self).known_uncompressible() == old(self).known_uncompressible(),
            match r {
                Ok(()) => final(self).held_data() == old(self).payload() && old(self).payload() is Some,
                Err(Error::CorruptChunk(_)) => old(self).payload() is None && final(self).held_data() is None,
                Err(_) => false,
            },
    {
        proof {
            use_type_invariant(&*self);
        }
        if self.data.is_some() {
            return Ok(());
        }
        let unpacked = match &self.zdata {
            Compressed::Compressed(buf) => inflate(buf.as_slice(), self.data_len as usize),
            _ => None,
        };
        match unpacked {
            None => Err(Error::CorruptChunk("zlib unable to inflate".to_owned())),
            Some(buf) => {
                self.data = Some(buf);
                Ok(())
            },
        }
    }

    /// Return a reference to the data, decompressing it first if that has
    /// not been done.  A chunk whose compressed form does not unpack to the
    /// stated length is corrupt.
    pub fn data(&mut self) -> (r: Result<Data<'_>, Error>)
        ensures
            final(self).wf(),
            final(self).same_chunk(*old(self)),
            final(self).held_data() == old(self).payload(),
            final(self).held_zdata() == old(self).held_zdata(),
            final(self).known_uncompressible() == old(self).known_uncompressible(),
            match r {
                Ok(d) => old(self).payload() == Some(d@) && d@.len() == old(self).spec_data_len(),
                Err(Error::CorruptChunk(_)) => old(self).payload() is None,
                Err(_) => false,
            },
    {
        match self.force_data() {
            Err(e) => {
                return Err(e);
            },
            Ok(()) => {},
        }
        proof {
            use_type_invariant(&*self);
        }
        match &self.data {
            Some(d) => Ok(Data::VecCell(d)),
            None => Err(Error::CorruptChunk("zlib unable to inflate".to_owned())),
        }
    }

    /// Move the uncompressed data out of the chunk.
    pub fn into_bytes(self) -> (r: Result<Vec<u8>, Error>)
        ensures
            match r {
                Ok(d) => self.payload() == Some(d@) && d@.len() == self.spec_data_len(),
                Err(Error::CorruptChunk(_)) => self.payload() is None,
                Err(_) => false,
            },
    {
        let mut this = self;
        match this.force_data() {
            Err(e) => {
                return Err(e);
            },
            Ok(()) => {},
        }
        proof {
            use_type_invariant(&this);
        }
        match this.data {
            Some(d) => Ok(d),
            None => Err(Error::CorruptChunk("zlib unable to inflate".to_owned())),
        }
    }
}

} // verus!
