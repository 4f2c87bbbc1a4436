//! A client-side library for a line-oriented, length-prefixed request/response
//! wire protocol over a byte stream, together with a bounded connection pool
//! model: encoding and decoding of the self-describing reply values, the
//! request builders and reply interpreters of the command layer, and the
//! admission state machine that bounds concurrent leases to the pool's size.

pub mod commands;
pub mod error;
pub mod pool;
pub mod resp;

pub use error::RedisError;
pub use pool::Lease;
pub use pool::Pool;
pub use resp::RespCodec;
pub use resp::Value;
pub use resp::ValueSpec;
