//! Identifier types of the schema model: packet direction, connection
//! stage, and the newtype names and ids that key a protocol's packets.
use vstd::prelude::*;

verus! {

/// The phase of the connection lifecycle, totally ordered and traversed in
/// declaration order during a connection's life.
#[derive(Debug, Clone, Copy, PartialEq, Eq, Structural)]
pub enum PacketStage {
    Handshaking,
    Status,
    Login,
    Play,
}

/// Who a packet travels towards.
#[derive(Debug, Clone, Copy, PartialEq, Eq, Structural)]
pub enum PacketDirection {
    Client,
    Server,
}

/// The position of a stage in the connection's fixed traversal order.
pub open spec fn spec_stage_index(s: PacketStage) -> int {
    match s {
        PacketStage::Handshaking => 0,
        PacketStage::Status => 1,
        PacketStage::Login => 2,
        PacketStage::Play => 3,
    }
}

/// The position of a direction in the schema's ordering.
pub open spec fn spec_direction_index(d: PacketDirection) -> int {
    match d {
        PacketDirection::Client => 0,
        PacketDirection::Server => 1,
    }
}

/// Exec counterpart of [`spec_stage_index`].
pub fn stage_index(s: PacketStage) -> (r: u64)
    ensures
        r == spec_stage_index(s),
{
    match s {
        PacketStage::Handshaking => 0,
        PacketStage::Status => 1,
        PacketStage::Login => 2,
        PacketStage::Play => 3,
    }
}

/// Exec counterpart of [`spec_direction_index`].
pub fn direction_index(d: PacketDirection) -> (r: u64)
    ensures
        r == spec_direction_index(d),
{
    match d {
        PacketDirection::Client => 0,
        PacketDirection::Server => 1,
    }
}

/// A packet's numeric id within its (direction, stage) group.
#[derive(Debug, Clone, Copy, PartialEq, Eq, Structural)]
pub struct PacketId(pub u64);

/// A packet's name.
#[derive(Debug, Clone)]
pub struct PacketName(pub String);

/// A human-readable game version label.
#[derive(Debug, Clone)]
pub struct MinecraftVersion(pub String);

/// A protocol's numeric version.
#[derive(Debug, Clone, Copy, PartialEq, Eq, Structural)]
pub struct ProtocolVersion(pub u64);

/// The name of a type in the shared-type namespace.
#[derive(Debug, Clone)]
pub struct SharedTypeId(pub String);

/// The name of one variant of a tagged union.
#[derive(Debug, Clone)]
pub struct VariantName(pub String);

/// The name of one struct field.
#[derive(Debug, Clone)]
pub struct FieldName(pub String);

/// The name of a custom payload type.
#[derive(Debug, Clone)]
pub struct CustomTypeName(pub String);

/// The name of one flag bit.
#[derive(Debug, Clone)]
pub struct FlagName(pub String);

/// The full key of a packet: direction, stage and numeric id, ordered
/// lexicographically in that order.
#[derive(Debug, Clone, Copy, PartialEq, Eq, Structural)]
pub struct PacketIdentifier(pub PacketDirection, pub PacketStage, pub PacketId);

/// Strict lexicographic order on (direction, stage, id).
pub open spec fn spec_id_lt(a: PacketIdentifier, b: PacketIdentifier) -> bool {
    spec_direction_index(a.0) < spec_direction_index(b.0) || (spec_direction_index(a.0)
        == spec_direction_index(b.0) && (spec_stage_index(a.1) < spec_stage_index(b.1) || (
    spec_stage_index(a.1) == spec_stage_index(b.1) && a.2.0 < b.2.0)))
}

/// Two identifiers belong to the same (direction, stage) group.
pub open spec fn spec_same_group(a: PacketIdentifier, b: PacketIdentifier) -> bool {
    a.0 == b.0 && a.1 == b.1
}

impl PacketIdentifier {
    /// The direction component.
    pub fn direction(&self) -> (r: PacketDirection)
        ensures
            r == self.0,
    {
        self.0
    }

    /// The stage component.
    pub fn stage(&self) -> (r: PacketStage)
        ensures
            r == self.1,
    {
        self.1
    }

    /// The numeric id component.
    pub fn id(&self) -> (r: PacketId)
        ensures
            r == self.2,
    {
        self.2
    }

    /// Exec counterpart of [`spec_id_lt`].
    pub fn lt(&self, other: &PacketIdentifier) -> (r: bool)
        ensures
            r == spec_id_lt(*self, *other),
    {
        let da = direction_index(self.0);
        let db = direction_index(other.0);
        if da != db {
            return da < db;
        }
        let sa = stage_index(self.1);
        let sb = stage_index(other.1);
        if sa != sb {
            return sa < sb;
        }
        self.2.0 < other.2.0
    }

    /// Exec test of [`spec_same_group`].
    pub fn same_group(&self, other: &PacketIdentifier) -> (r: bool)
        ensures
            r == spec_same_group(*self, *other),
    {
        let da = direction_index(self.0);
        let db = direction_index(other.0);
        let sa = stage_index(self.1);
        let sb = stage_index(other.1);
        da == db && sa == sb
    }
}

} // verus!
