//! A log-structured key-value store: the storage engine's index and
//! compaction rules, its record codec, and the text protocol spoken between
//! clients and the server.

pub mod backend;
pub mod client;
pub mod codec;
pub mod errors;
pub mod kv;
pub mod kvs_sled;
pub mod laws;
pub mod model;
pub mod recovery;
pub mod replay;
pub mod segment;
pub mod server;
pub mod store;
pub mod text;
pub mod thread_pool;
pub mod wire;
