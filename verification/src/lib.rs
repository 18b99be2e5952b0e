//! A persistent, log-structured key/value store with a wire protocol.
//!
//! The store ([`kvstore::KvStore`]) keeps every write as a length-prefixed
//! JSON record appended to a numbered segment, an index from each live key
//! to its latest record, and a compactor that rewrites the live records and
//! drops everything dead.  Its contracts are stated over an abstract map
//! from keys to values: `set` inserts, `remove` deletes, `get` reads, and
//! reopening the segment bytes replays the log back to the same map.
//!
//! The caller owns the actual files and sockets: it feeds `open` the segment
//! bytes, mirrors the queued [`kvstore::DiskOp`]s back onto the directory,
//! and moves wire payloads ([`proto`]) between sockets and the dispatcher
//! ([`server::handle_request`]).
pub mod codec;
pub mod engine;
pub mod error;
pub mod io;
pub mod kvstore;
pub mod laws;
pub mod proto;
pub mod record;
pub mod server;
pub mod thread_pool;

pub use engine::KvsEngine;
pub use error::KvsError;
pub use kvstore::{DiskOp, KvStore};
pub use proto::{Request, Response};
pub use record::KV;
