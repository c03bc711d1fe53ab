//! A log-structured key-value store.
//!
//! The store appends every write as a framed record to the last of its
//! segments and keeps, in memory, an index from each live key to the position
//! of the record that holds its value. Opening a store replays the segments
//! in the order of their ids; compaction rewrites the live records into a new
//! segment once the stale records are as many as the live keys.
//!
//! The engine works on the bytes of its segments and does no input or output
//! of its own. What has to happen to the segment files it hands out as a list
//! of effects, and it is proved that these effects leave files from which the
//! same store is recovered.
//!
//! The same record encoding, behind a length prefix, is the wire protocol of
//! the server that exposes an engine.

pub mod buffer;
pub mod codec;
pub mod command;
pub mod engine;
pub mod error;
pub mod frame;
pub mod log;
pub mod response;
pub mod server;

pub use crate::command::Command;
pub use crate::engine::kvs::KvStore;
pub use crate::engine::KvsEngine;
pub use crate::error::KvsError;
pub use crate::response::Response;
pub use crate::server::KvsServer;
