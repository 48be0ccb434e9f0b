//! Server-side runtime of a table-oriented, content-addressed key/value
//! storage daemon.
//!
//! The crate holds the storage daemon's core: the wire codec for the closed
//! request/reply message taxonomy, the in-memory model of the open tables
//! with the eight table operations, and the dispatcher that turns one
//! decoded request into exactly one reply.  Durability and transport are
//! left to the embedding process, which applies the [`service::Action`]
//! values that the dispatcher hands out.

pub mod chunk;
pub mod codec;
pub mod error;
pub mod idset;
pub mod laws;
pub mod nameset;
pub mod order;
pub mod reply;
pub mod service;
pub mod request;
pub mod table;
pub mod util;
