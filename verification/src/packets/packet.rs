//! Direction and stage markers used by a compiled protocol's packet types.
use vstd::prelude::*;

verus! {

/// Who a packet travels towards, as a type-level marker.
pub trait Direction: Sized {

}

/// Marker for server-bound packets.
pub struct Server;

impl Direction for Server {

}

/// Marker for client-bound packets.
pub struct Client;

impl Direction for Client {

}

/// A connection stage, as a type-level marker.
pub trait Stage: Sized {

}

/// Marker for the handshake stage.
pub struct Handshake;

impl Stage for Handshake {

}

/// Marker for the status stage.
pub struct Status;

impl Stage for Status {

}

/// Marker for the login stage.
pub struct Login;

impl Stage for Login {

}

/// Marker for the play stage.
pub struct Play;

impl Stage for Play {

}

} // verus!
