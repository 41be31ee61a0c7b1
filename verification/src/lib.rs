//! Wire-protocol codec and compressed-stream framing layer.
//!
//! The crate offers two capabilities: a type-directed encode/decode
//! substrate for the big-endian, length-prefixed wire format of a
//! message-broker protocol, and a stateful reader that transparently
//! decompresses a chunked snappy framing as emitted by producer-side
//! stream writers.

pub mod codecs;
pub mod error;
pub mod snappy;
pub mod wire;
