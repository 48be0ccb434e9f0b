//! The closed set of request messages.
//!
//! Every request names a table first; the chunk-storage requests add a
//! 32-byte key and, for a store, the chunk body.  Each variant carries a
//! stable numeric wire tag, fixed in the codec and never reassigned.

use vstd::prelude::*;
use crate::chunk::{Chunk, ChunkId, PrimaryKey};
use crate::codec::{MAX_NAME_SIZE, MAX_SET_ITEMS};
use crate::idset::IdSet;

verus! {

/// Payload of a store request: write `chunk` under `key` in `table`.
pub struct StoreReq {
    pub table: Vec<u8>,
    pub key: PrimaryKey,
    pub chunk: Chunk,
}

/// Payload of a retrieve request: read the value stored under `key`.
pub struct RetrieveReq {
    pub table: Vec<u8>,
    pub key: PrimaryKey,
}

/// Payload of a set-insert request: merge `item` into the set stored under
/// `key`.
pub struct InsertReq {
    pub table: Vec<u8>,
    pub key: PrimaryKey,
    pub item: ChunkId,
}

/// Payload of a check-unknown request: which of `ids` are not keys of the
/// table.
pub struct CheckUnknownReq {
    pub table: Vec<u8>,
    pub ids: IdSet,
}

/// Mathematical model of a request.
pub enum ReqModel {
    Use { table: Seq<u8> },
    Tables,
    Count { table: Seq<u8> },
    Store { table: Seq<u8>, key: Seq<u8>, chunk: Seq<u8> },
    Retrieve { table: Seq<u8>, key: Seq<u8> },
    Insert { table: Seq<u8>, key: Seq<u8>, item: Seq<u8> },
    ListIds { table: Seq<u8> },
    CheckUnknown { table: Seq<u8>, ids: Set<Seq<u8>> },
}

/// The requests the daemon answers.
pub enum Request {
    /// Connects a table of the store; if the table is absent, creates it.
    Use(Vec<u8>),
    /// Lists the tables currently in use.
    Tables,
    /// Number of entries stored in a table.
    Count(Vec<u8>),
    /// Stores a chunk under a caller-chosen key.
    Store(StoreReq),
    /// Reads a chunk back.
    Retrieve(RetrieveReq),
    /// Merges a 32-byte item into the set stored under a key.
    Insert(InsertReq),
    /// Lists all keys of a table, read as chunk identifiers.
    ListIds(Vec<u8>),
    /// Filters a candidate id set down to the ids absent from a table.
    CheckUnknown(CheckUnknownReq),
}

impl View for Request {
    type V = ReqModel;

    open spec fn view(&self) -> ReqModel {
        match self {
            Request::Use(t) => ReqModel::Use { table: t@ },
            Request::Tables => ReqModel::Tables,
            Request::Count(t) => ReqModel::Count { table: t@ },
            Request::Store(r) => ReqModel::Store {
                table: r.table@,
                key: r.key@,
                chunk: r.chunk@,
            },
            Request::Retrieve(r) => ReqModel::Retrieve { table: r.table@, key: r.key@ },
            Request::Insert(r) => ReqModel::Insert {
                table: r.table@,
                key: r.key@,
                item: r.item@,
            },
            Request::ListIds(t) => ReqModel::ListIds { table: t@ },
            Request::CheckUnknown(r) => ReqModel::CheckUnknown {
                table: r.table@,
                ids: r.ids.to_set(),
            },
        }
    }
}

impl Request {
    /// In-memory well-formedness: every field fits its wire shape.
    pub open spec fn wf(&self) -> bool {
        match self {
            Request::Use(t) => t@.len() <= MAX_NAME_SIZE,
            Request::Tables => true,
            Request::Count(t) => t@.len() <= MAX_NAME_SIZE,
            Request::Store(r) => r.table@.len() <= MAX_NAME_SIZE && r.key.wf() && r.chunk.wf(),
            Request::Retrieve(r) => r.table@.len() <= MAX_NAME_SIZE && r.key.wf(),
            Request::Insert(r) => r.table@.len() <= MAX_NAME_SIZE && r.key.wf() && r.item.wf(),
            Request::ListIds(t) => t@.len() <= MAX_NAME_SIZE,
            Request::CheckUnknown(r) => r.table@.len() <= MAX_NAME_SIZE && r.ids.wf()
                && r.ids@.len() <= MAX_SET_ITEMS,
        }
    }
}

} // verus!
