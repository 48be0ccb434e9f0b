//! Chunks, chunk identifiers and primary keys.
//!
//! A chunk is an immutable opaque byte payload bounded by the largest size
//! the wire format can carry.  Its identity is not chosen by the caller: it
//! is the content address, a 32-byte commitment computed over the chunk
//! bytes alone.  A primary key is a caller-chosen 32-byte table key, which
//! may or may not equal a content address.

use vstd::prelude::*;
use crate::order::clone_bytes;

verus! {

/// Number of bytes of a chunk identifier and of a primary key.
pub const ID_SIZE: usize = 32;

/// Largest number of bytes a single chunk may hold: the bound of the
/// three-byte length prefix under which chunk bodies travel and are
/// committed to.
pub const MAX_CHUNK_SIZE: usize = 0xFFFFFF;

/// The content address of a byte string.  The function itself is the
/// commitment function of the outside storage stack (SHA-256 over the
/// length-prefixed chunk body); the library relies on it being a function
/// of the bytes alone and states nothing else about its values.
pub uninterp spec fn chunk_id_of(bytes: Seq<u8>) -> Seq<u8>;

/// Why a byte payload was refused as a chunk.
#[derive(Clone, Copy, Debug, PartialEq, Eq, Structural)]
pub enum ChunkError {
    /// The payload does not fit [`MAX_CHUNK_SIZE`].
    TooLarge,
}

/// An immutable byte payload of at most [`MAX_CHUNK_SIZE`] bytes.
pub struct Chunk {
    bytes: Vec<u8>,
}

impl View for Chunk {
    type V = Seq<u8>;

    closed spec fn view(&self) -> Seq<u8> {
        self.bytes@
    }
}

impl Chunk {
    /// The size bound; constructors establish it and every method keeps it.
    pub open spec fn wf(&self) -> bool {
        self@.len() <= MAX_CHUNK_SIZE
    }

    /// Accepts any payload that fits the chunk size bound and refuses the
    /// rest.
    pub fn from_bytes(bytes: Vec<u8>) -> (r: Result<Chunk, ChunkError>)
        ensures
            match r {
                Ok(c) => bytes@.len() <= MAX_CHUNK_SIZE && c@ == bytes@ && c.wf(),
                Err(e) => bytes@.len() > MAX_CHUNK_SIZE && e == ChunkError::TooLarge,
            },
    {
        if bytes.len() <= MAX_CHUNK_SIZE {
            Ok(Chunk { bytes })
        } else {
            Err(ChunkError::TooLarge)
        }
    }

    /// Wraps a payload already known to fit the bound.
    pub fn from_checked(bytes: Vec<u8>) -> (r: Chunk)
        requires
            bytes@.len() <= MAX_CHUNK_SIZE,
        ensures
            r@ == bytes@,
            r.wf(),
    {
        Chunk { bytes }
    }

    pub fn as_bytes(&self) -> (r: &Vec<u8>)
        ensures
            r@ == self@,
    {
        &self.bytes
    }

    pub fn into_bytes(self) -> (r: Vec<u8>)
        ensures
            r@ == self@,
    {
        self.bytes
    }

    pub fn len(&self) -> (r: usize)
        ensures
            r == self@.len(),
    {
        self.bytes.len()
    }
}

/// The 32-byte content address of a chunk.
pub struct ChunkId {
    bytes: Vec<u8>,
}

impl View for ChunkId {
    type V = Seq<u8>;

    closed spec fn view(&self) -> Seq<u8> {
        self.bytes@
    }
}

impl ChunkId {
    pub open spec fn wf(&self) -> bool {
        self@.len() == ID_SIZE
    }

    /// Reads an identifier out of raw bytes; anything but exactly 32 bytes
    /// is refused.
    pub fn from_bytes(bytes: Vec<u8>) -> (r: Option<ChunkId>)
        ensures
            match r {
                Some(id) => bytes@.len() == ID_SIZE && id@ == bytes@ && id.wf(),
                None => bytes@.len() != ID_SIZE,
            },
    {
        if bytes.len() == ID_SIZE {
            Some(ChunkId { bytes })
        } else {
            None
        }
    }

    /// Wraps bytes already known to be exactly 32.
    pub fn from_checked(bytes: Vec<u8>) -> (r: ChunkId)
        requires
            bytes@.len() == ID_SIZE,
        ensures
            r@ == bytes@,
            r.wf(),
    {
        ChunkId { bytes }
    }

    pub fn as_bytes(&self) -> (r: &Vec<u8>)
        ensures
            r@ == self@,
    {
        &self.bytes
    }

    pub fn to_vec(&self) -> (r: Vec<u8>)
        ensures
            r@ == self@,
    {
        clone_bytes(&self.bytes)
    }
}

/// A caller-chosen 32-byte table key.
pub struct PrimaryKey {
    bytes: Vec<u8>,
}

impl View for PrimaryKey {
    type V = Seq<u8>;

    closed spec fn view(&self) -> Seq<u8> {
        self.bytes@
    }
}

impl PrimaryKey {
    pub open spec fn wf(&self) -> bool {
        self@.len() == ID_SIZE
    }

    /// The one normalization rule for keys: the canonical 32-byte form is
    /// taken as it stands; shorter or longer forms are refused rather than
    /// padded or truncated.
    pub fn from_bytes(bytes: Vec<u8>) -> (r: Option<PrimaryKey>)
        ensures
            match r {
                Some(k) => bytes@.len() == ID_SIZE && k@ == bytes@ && k.wf(),
                None => bytes@.len() != ID_SIZE,
            },
    {
        if bytes.len() == ID_SIZE {
            Some(PrimaryKey { bytes })
        } else {
            None
        }
    }

    /// Wraps bytes already known to be exactly 32.
    pub fn from_checked(bytes: Vec<u8>) -> (r: PrimaryKey)
        requires
            bytes@.len() == ID_SIZE,
        ensures
            r@ == bytes@,
            r.wf(),
    {
        PrimaryKey { bytes }
    }

    /// A content address used as the table key, for the content-addressed
    /// call paths.
    pub fn from_chunk_id(id: &ChunkId) -> (r: PrimaryKey)
        ensures
            r@ == id@,
    {
        PrimaryKey { bytes: id.to_vec() }
    }

    pub fn as_bytes(&self) -> (r: &Vec<u8>)
        ensures
            r@ == self@,
    {
        &self.bytes
    }

    pub fn to_vec(&self) -> (r: Vec<u8>)
        ensures
            r@ == self@,
    {
        clone_bytes(&self.bytes)
    }
}

/// Relies on the chunk commitment of the outside storage stack
/// (`storm::Chunk::chunk_id`, SHA-256 over the strict-encoded chunk): the
/// result is 32 bytes and depends on the chunk bytes alone, so it is named
/// by [`chunk_id_of`].
#[verifier::external_body]
fn commit_to_chunk(bytes: &Vec<u8>) -> (r: Vec<u8>)
    requires
        bytes@.len() <= MAX_CHUNK_SIZE,
    ensures
        r@ == chunk_id_of(bytes@),
        r@.len() == ID_SIZE,
{
    let chunk = storm::Chunk::try_from(bytes.as_slice())
        .expect("a chunk within the size bound is always accepted");
    let id = chunk.chunk_id();
    id[..].to_vec()
}

/// The content address of a chunk: pure and deterministic, never
/// backend-dependent.  Byte-identical chunks always receive the same
/// identifier.
pub fn content_address(chunk: &Chunk) -> (r: ChunkId)
    requires
        chunk.wf(),
    ensures
        r@ == chunk_id_of(chunk@),
        r.wf(),
{
    ChunkId { bytes: commit_to_chunk(&chunk.bytes) }
}

} // verus!
