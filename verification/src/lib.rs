//! Append-log replication: network coding, write-ahead log and receiver state.
pub mod bytes;
pub mod fountain;
pub mod frame;
pub mod gf256;
pub mod lcg;
pub mod linalg;
pub mod receiver;
pub mod rlnc;
pub mod store;
pub mod text;
pub mod unpack;
pub mod wal;
