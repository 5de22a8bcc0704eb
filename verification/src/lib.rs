//! Schema-driven binary network protocol: a model of a versioned packet
//! set, a validator for it, per-packet encode/decode over a primitive wire
//! codec, and a framing/compression/encryption transport codec.
pub mod types;
pub mod primitives;
pub mod custom_type;
pub mod protocol;
pub mod validation;
pub mod value;
pub mod codec;
pub mod network;
pub mod packet;
pub mod packets;
pub mod generation;

use vstd::prelude::*;

verus! {

/// Protocol version selector.
#[allow(non_snake_case)]
#[derive(Debug, Clone, Copy, PartialEq, Eq, Structural)]
pub enum ProtocolVersion {
    V1_13_2,
    V1_14_4,
    V1_15_0,
    V1_15_1,
    V1_15_2,
}

} // verus!
