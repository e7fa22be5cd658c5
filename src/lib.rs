//! Length-delimited framing of protobuf messages on a byte stream: each frame is
//! an unsigned varint giving the body's length, followed by the body.

pub mod buffer;
pub mod codec;
pub mod varint;

pub use codec::{Decode, DecodeError, DecodeState, Encode};
