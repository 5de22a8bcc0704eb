//! Marker types for the generated per-protocol packet sets.
pub mod packet;
