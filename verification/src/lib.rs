//! A RESP (REdis Serialization Protocol) datastore engine: the wire codec,
//! the command layer, the sharded key-value store with expiring keys, and
//! the append-only-file persistence decisions.

pub mod buffers;
pub mod text;
pub mod frame;
pub mod codec_laws;
pub mod cmd;
pub mod store;
pub mod db;
pub mod aof;
pub mod log_laws;
pub mod store_laws;
pub mod cmd_laws;
pub mod stream_laws;
