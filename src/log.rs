//! Codec and streaming reader of the log wire format.
//!
//! A frame is `[FF FF FF FF][timestamp: 26 ASCII bytes][len: u16 LE][escaped payload][00 00 00 00]`.

pub mod codec;
pub mod reader;
pub mod timestamp;




