//! Direction and stage markers for typed packet sets, and the errors of
//! packet decoding.
use crate::primitives::{PacketDirection, PacketStage};
use crate::types::Error;
use vstd::prelude::*;

verus! {

/// Who a packet travels towards, as a type-level marker.
pub trait Direction: Sized {

}

/// Marker for client-bound packets.
pub struct Client;

impl Direction for Client {

}

/// Marker for server-bound packets.
pub struct Server;

impl Direction for Server {

}

/// A connection stage, as a type-level marker.
pub trait Stage: Sized {

}

/// Marker for the handshaking stage.
pub struct Handshaking;

impl Stage for Handshaking {

}

/// Marker for the status stage.
pub struct Status;

impl Stage for Status {

}

/// Marker for the login stage.
pub struct Login;

impl Stage for Login {

}

/// Marker for the play stage.
pub struct Play;

impl Stage for Play {

}

/// What a group's packet values expose: their numeric id and name.
pub trait PacketEnum {
    /// The packet's numeric id within its (direction, stage) group.
    fn packet_id(&self) -> u64;

    /// The packet's declared name.
    fn packet_name(&self) -> String;
}

/// Why a packet could not be decoded from a frame.
#[derive(Debug, Clone, Copy, PartialEq, Eq, Structural)]
pub enum DecodeError {
    /// A primitive read failed while decoding the id or a field.
    TryRead(Error),
    /// The frame's leading id names no packet of the current group.
    NonExistentPacket { direction: PacketDirection, stage: PacketStage, id: u64 },
}

impl From<Error> for DecodeError {
    fn from(err: Error) -> (r: Self) {
        DecodeError::TryRead(err)
    }
}

impl vstd::std_specs::convert::FromSpecImpl<Error> for DecodeError {
    open spec fn obeys_from_spec() -> bool {
        true
    }

    open spec fn from_spec(err: Error) -> Self {
        DecodeError::TryRead(err)
    }
}

} // verus!
