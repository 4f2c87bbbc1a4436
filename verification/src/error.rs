//! The error taxonomy of the library: transport, parse, protocol and
//! admission failures. The core never recovers from any of them internally;
//! every failure propagates to the immediate caller as a typed result.

use vstd::prelude::*;
use vstd::string::StringExecFns;

verus! {

/// A failure reported by the codec, a connection, or the pool.
#[derive(Debug)]
pub enum RedisError {
    /// A failure of the underlying byte stream, carried as a message.
    IoError(String),
    /// Malformed numeric text, or a stream that ended inside a reply.
    ParseError(String),
    /// A reply shape the wire grammar does not allow, with the offending
    /// byte or line captured for diagnostics.
    ProtocolError(String),
    /// A failure to establish the pool's connections at construction.
    ConnectionError(String),
}

impl RedisError {
    /// The taxonomy class of this error, as text.
    pub open spec fn kind_spec(&self) -> Seq<char> {
        match self {
            RedisError::IoError(_) => "IO error"@,
            RedisError::ParseError(_) => "Parse error"@,
            RedisError::ProtocolError(_) => "Protocol error"@,
            RedisError::ConnectionError(_) => "Connection error"@,
        }
    }

    /// The message the error was raised with.
    pub open spec fn message_spec(&self) -> Seq<char> {
        match self {
            RedisError::IoError(m) => m@,
            RedisError::ParseError(m) => m@,
            RedisError::ProtocolError(m) => m@,
            RedisError::ConnectionError(m) => m@,
        }
    }

    /// The taxonomy class of this error, for diagnostics.
    pub fn kind(&self) -> (r: &'static str)
        ensures
            r@ == self.kind_spec(),
    {
        match self {
            RedisError::IoError(_) => "IO error",
            RedisError::ParseError(_) => "Parse error",
            RedisError::ProtocolError(_) => "Protocol error",
            RedisError::ConnectionError(_) => "Connection error",
        }
    }

    /// A human-readable rendering: the taxonomy class, a separator, and the
    /// message the error was raised with.
    pub fn describe(&self) -> (r: String)
        ensures
            r@ == self.kind_spec() + ": "@ + self.message_spec(),
    {
        let mut r = String::from_str(self.kind());
        r.append(": ");
        let m = match self {
            RedisError::IoError(m) => m,
            RedisError::ParseError(m) => m,
            RedisError::ProtocolError(m) => m,
            RedisError::ConnectionError(m) => m,
        };
        r.append(m.as_str());
        r
    }
}

} // verus!
