//! A content-addressed chunk store.
//!
//! Data is kept as chunks: a four-byte kind and a payload, named by the SHA-1
//! of the two.  This crate holds the chunk itself, the framing of chunks in a
//! pool file, the index that finds them again, and the rules by which a pool
//! directory grows.  It works on bytes in memory; reading and writing files is
//! left to the caller.

pub mod chunk;
pub mod cursor;
pub mod endian;
pub mod error;
pub mod kind;
pub mod oid;
pub mod ordered;
pub mod pool;
pub mod rows;
pub mod testutil;
pub mod text;
pub mod zlib;

pub use chunk::{Chunk, Data};
pub use error::Error;
pub use kind::Kind;
pub use oid::Oid;
