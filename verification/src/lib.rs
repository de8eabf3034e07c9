//! An in-memory key/value store that speaks a tagged, line-and-length
//! prefixed wire protocol and snapshots its dataset to a checksummed binary
//! file.
//!
//! The crate is laid out along the data path: [`frame`] holds the wire
//! frames and their exact encoder; [`parser`] reads frames back
//! incrementally, and proves that parsing inverts encoding; [`store`] is the
//! keyspace, a map from binary keys to typed values with optional
//! deadlines; [`rdb`] writes and reads the snapshot format, and proves that
//! loading inverts saving; [`commands`] routes request frames to the
//! keyspace and builds the replies; [`config`] carries the snapshot
//! location. Everything that computes is specified and verified; the
//! sockets, clocks and files live with the caller.

pub mod commands;
pub mod config;
pub mod frame;
pub mod num;
pub mod parser;
pub mod rdb;
pub mod store;

pub use commands::dispatch;
pub use commands::DispatchOutcome;
pub use config::Config;
pub use frame::Frame;
pub use parser::FrameParser;
pub use rdb::RdbDatabase;
pub use rdb::RdbParser;
pub use rdb::RedisEntry;
pub use store::RedisValue;
pub use store::Store;
