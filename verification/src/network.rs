//! The wire transport layer: framing, compression and encryption around
//! the packet codec.
pub mod codec;
