//! A binary wire protocol for exchanging request/response packets with a
//! long-lived companion process over a byte stream.
//!
//! The core is the packet codec: a recursive tagged-value encoding, a
//! request/response identification scheme packed into a 32-bit cell, and
//! length-prefixed framing, all little-endian.

pub mod laws;
pub mod model;
pub mod stdio_protocol;
pub mod types;
pub mod wire;
