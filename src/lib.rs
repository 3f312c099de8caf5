//! An HTTP/1.x wire-protocol engine: incremental head parsing, body framing,
//! head serialization and keep-alive decisions, with machine-checked contracts.

pub mod bytes;
pub mod headers;
pub mod error;
pub mod head;
pub mod parse;
pub mod decoder;
pub mod encoder;
pub mod transaction;
pub mod buffer;
pub mod io;
pub mod response;
pub mod write;
pub mod client;
pub mod round_trip;
