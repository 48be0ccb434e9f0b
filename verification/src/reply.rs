//! The closed set of reply messages.
//!
//! The daemon answers every request with exactly one reply: a positive
//! variant, or a failure carrying a coarse code and a message for humans.
//! Each variant carries a stable numeric wire tag, fixed in the codec and
//! never reassigned.

use vstd::prelude::*;
use crate::chunk::{Chunk, ChunkId, PrimaryKey, ID_SIZE, MAX_CHUNK_SIZE};
use crate::codec::{MAX_INFO_SIZE, MAX_NAME_SIZE, MAX_SET_ITEMS};
use crate::error::{code_of_err, info_of_err, DaemonError, ErrModel, FailureCode};
use crate::idset::IdSet;
use crate::nameset::NameSet;
use crate::order::set_repr_ok;

verus! {

/// A failure reply: a coarse code and a description for humans.
pub struct Failure {
    pub code: FailureCode,
    pub info: Vec<u8>,
}

/// Mathematical model of a reply.
pub enum RepModel {
    Success,
    Failure { code: FailureCode, info: Seq<u8> },
    Tables { tables: Set<Seq<u8>> },
    Count { count: nat },
    ChunkId { id: Seq<u8> },
    Chunk { chunk: Seq<u8> },
    Ids { ids: Set<Seq<u8>> },
    KeyAbsent { key: Seq<u8> },
}

/// The failure reply an error kind maps to.
pub open spec fn failure_rep_of(e: ErrModel) -> RepModel {
    RepModel::Failure { code: code_of_err(e), info: info_of_err(e) }
}

/// A reply can be put on the wire exactly when its fields fit the wire
/// shapes.
pub open spec fn wf_rep(rm: RepModel) -> bool {
    match rm {
        RepModel::Success => true,
        RepModel::Failure { code, info } => info.len() <= MAX_INFO_SIZE,
        RepModel::Tables { tables } => tables.finite() && tables.len() <= MAX_SET_ITEMS
            && set_repr_ok(tables)
            && forall|n: Seq<u8>| tables.contains(n) ==> n.len() <= MAX_NAME_SIZE,
        RepModel::Count { count } => count < 0x1_0000_0000_0000_0000,
        RepModel::ChunkId { id } => id.len() == ID_SIZE,
        RepModel::Chunk { chunk } => chunk.len() <= MAX_CHUNK_SIZE,
        RepModel::Ids { ids } => ids.finite() && ids.len() <= MAX_SET_ITEMS
            && set_repr_ok(ids)
            && forall|i: Seq<u8>| ids.contains(i) ==> i.len() == ID_SIZE,
        RepModel::KeyAbsent { key } => key.len() == ID_SIZE,
    }
}

/// The replies the daemon sends.
pub enum Reply {
    /// The operation completed and returns nothing.
    Success,
    /// The operation failed.
    Failure(Failure),
    /// The set of currently open table names.
    Tables(NameSet),
    /// The entry count of a table.
    Count(u64),
    /// The content address of a stored chunk.
    ChunkId(ChunkId),
    /// A retrieved chunk.
    Chunk(Chunk),
    /// A set of chunk identifiers.
    Ids(IdSet),
    /// The queried key holds nothing.
    KeyAbsent(PrimaryKey),
}

impl View for Reply {
    type V = RepModel;

    open spec fn view(&self) -> RepModel {
        match self {
            Reply::Success => RepModel::Success,
            Reply::Failure(f) => RepModel::Failure { code: f.code, info: f.info@ },
            Reply::Tables(ns) => RepModel::Tables { tables: ns.to_set() },
            Reply::Count(c) => RepModel::Count { count: *c as nat },
            Reply::ChunkId(id) => RepModel::ChunkId { id: id@ },
            Reply::Chunk(c) => RepModel::Chunk { chunk: c@ },
            Reply::Ids(s) => RepModel::Ids { ids: s.to_set() },
            Reply::KeyAbsent(k) => RepModel::KeyAbsent { key: k@ },
        }
    }
}

impl Reply {
    /// The structural part of well-formedness, which every reply the
    /// library builds has by construction: ordered collections are ordered,
    /// identifiers are 32 bytes, chunks fit their bound.
    pub open spec fn ordered(&self) -> bool {
        match self {
            Reply::Success => true,
            Reply::Failure(_) => true,
            Reply::Tables(ns) => ns.wf(),
            Reply::Count(_) => true,
            Reply::ChunkId(id) => id.wf(),
            Reply::Chunk(c) => c.wf(),
            Reply::Ids(s) => s.wf(),
            Reply::KeyAbsent(k) => k.wf(),
        }
    }

    /// In-memory well-formedness: structurally sound and within the wire
    /// size bounds.  A reply over the bounds exists in memory but cannot be
    /// encoded.
    pub open spec fn wf(&self) -> bool {
        &&& self.ordered()
        &&& match self {
            Reply::Failure(f) => f.info@.len() <= MAX_INFO_SIZE,
            Reply::Tables(ns) => ns@.len() <= MAX_SET_ITEMS
                && forall|i: int| 0 <= i < ns@.len() ==> (#[trigger] ns@[i]).len()
                    <= MAX_NAME_SIZE,
            Reply::Ids(s) => s@.len() <= MAX_SET_ITEMS,
            _ => true,
        }
    }

    /// The failure reply for a handler-level error; the dispatcher sends it
    /// in place of a positive reply.
    pub fn from_error(e: DaemonError) -> (r: Reply)
        ensures
            r@ == failure_rep_of(e@),
            (match e {
                DaemonError::Database(info) => info@.len() <= MAX_INFO_SIZE,
                DaemonError::UnknownTable(table) => table@.len() <= MAX_INFO_SIZE,
                DaemonError::Encoding => true,
            }) ==> r.wf(),
    {
        match e {
            DaemonError::Database(info) => Reply::Failure(Failure {
                code: FailureCode::Database,
                info,
            }),
            DaemonError::UnknownTable(table) => Reply::Failure(Failure {
                code: FailureCode::Database,
                info: table,
            }),
            DaemonError::Encoding => Reply::Failure(Failure {
                code: FailureCode::Encoding,
                info: Vec::new(),
            }),
        }
    }

    /// Collapses a reply into plain success or failure, as a caller that
    /// expects no payload reads it.
    pub fn success_or_failure(self) -> (r: Result<(), ServerFault>)
        ensures
            match r {
                Ok(()) => self@ is Success,
                Err(ServerFault::Failure(f)) => self@ == (RepModel::Failure {
                    code: f.code,
                    info: f.info@,
                }),
                Err(ServerFault::UnexpectedServerResponse) => !(self@ is Success)
                    && !(self@ is Failure),
            },
    {
        match self {
            Reply::Success => Ok(()),
            Reply::Failure(f) => Err(ServerFault::Failure(f)),
            _ => Err(ServerFault::UnexpectedServerResponse),
        }
    }
}

/// What a reply meant to a caller that expected plain success.
pub enum ServerFault {
    /// The daemon reported a failure.
    Failure(Failure),
    /// The daemon sent a reply of an unexpected kind.
    UnexpectedServerResponse,
}

} // verus!
