//! Length-prefixed framing of byte segments.
//!
//! A buffer holds a table of shifted lengths (each segment's length plus
//! one), a zero terminator field, and then the segments' bytes back to back.
//! The narrow layout uses one-byte fields; the wide layout uses eight-byte
//! big-endian fields.
pub mod format;
pub mod codec;
pub mod laws;

pub use codec::{decode, deserialize_be, deserialize_le, encode, serialize_be, serialize_le};
pub use format::{FrameError, Policy, Width};
