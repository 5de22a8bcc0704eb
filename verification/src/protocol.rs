//! The schema model's root: a protocol version, its packets ordered by
//! (direction, stage, id), and the shared-type namespace.
use crate::custom_type::CustomType;
use crate::primitives::{MinecraftVersion, PacketIdentifier, ProtocolVersion, spec_id_lt};
use vstd::prelude::*;

verus! {

/// Defines all packets and field types for one protocol version.
pub struct Protocol {
    pub version: ProtocolVersion,
    /// All packets of this protocol, keyed by (direction, stage, id) and
    /// kept strictly ordered by that key so that contiguous ranges sharing
    /// a direction and stage can be extracted by boundary lookup.
    pub packets: Vec<(PacketIdentifier, CustomType)>,
    /// Types shared across multiple packets, referenced by name.
    pub shared_types: Vec<CustomType>,
}

impl Protocol {
    /// The ordering invariant of the packet table: strictly increasing by
    /// (direction, stage, id). The compiler's grouping depends on it.
    pub open spec fn spec_sorted(&self) -> bool {
        forall|i: int, j: int|
            0 <= i < j < self.packets@.len() ==> spec_id_lt(
                (#[trigger] self.packets@[i]).0,
                (#[trigger] self.packets@[j]).0,
            )
    }
}

/// A game version: its display labels and the protocol they speak.
pub struct Minecraft {
    pub version: MinecraftVersion,
    pub major_version: MinecraftVersion,
    pub protocol: Protocol,
}

} // verus!
