//! Error taxonomy of the daemon.
//!
//! Handler-level failures are coarse by design: a request that names a
//! table never opened is reported under the same wire code as an engine
//! failure, and only the message text tells them apart.  Every handler
//! error becomes a failure reply; nothing here aborts the daemon.

use vstd::prelude::*;

verus! {

/// Wire-level failure codes.  The numeric value of each code on the wire is
/// fixed by the codec and never reassigned.
#[derive(Clone, Copy, Debug, PartialEq, Eq, Structural)]
pub enum FailureCode {
    /// Catch-all for codes this build does not know.
    Unknown,
    /// Internal database error, including requests against unknown tables.
    Database,
    /// Internal encoding error: stored bytes do not parse as the shape the
    /// operation expects.
    Encoding,
    /// The inbound message itself could not be decoded.
    Presentation,
}

/// Mathematical model of a [`DaemonError`].
pub enum ErrModel {
    Database { info: Seq<u8> },
    UnknownTable { table: Seq<u8> },
    Encoding,
}

/// A handler-level error; every one of them is caught at the dispatcher
/// and turned into a failure reply.
#[derive(Debug)]
pub enum DaemonError {
    /// Engine failure, with a human-readable description.  The verified
    /// handlers never raise it; the embedding process does when durable
    /// storage fails.
    Database(Vec<u8>),
    /// The request referenced a table that was never opened.
    UnknownTable(Vec<u8>),
    /// Stored bytes could not be parsed into the expected shape.
    Encoding,
}

impl View for DaemonError {
    type V = ErrModel;

    open spec fn view(&self) -> ErrModel {
        match self {
            DaemonError::Database(info) => ErrModel::Database { info: info@ },
            DaemonError::UnknownTable(table) => ErrModel::UnknownTable { table: table@ },
            DaemonError::Encoding => ErrModel::Encoding,
        }
    }
}

/// The wire code of an error kind.  Unknown-table errors are deliberately
/// classified under the database code.
pub open spec fn code_of_err(e: ErrModel) -> FailureCode {
    match e {
        ErrModel::Database { .. } => FailureCode::Database,
        ErrModel::UnknownTable { .. } => FailureCode::Database,
        ErrModel::Encoding => FailureCode::Encoding,
    }
}

/// The message text of an error kind: the engine's description, or the
/// name of the unknown table.
pub open spec fn info_of_err(e: ErrModel) -> Seq<u8> {
    match e {
        ErrModel::Database { info } => info,
        ErrModel::UnknownTable { table } => table,
        ErrModel::Encoding => Seq::empty(),
    }
}

} // verus!
