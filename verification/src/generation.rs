//! The packet compiler: groups a validated schema's packets by (direction,
//! stage) using the ordered table's boundary structure, and derives the
//! per-group decode and encode routines that dispatch on a leading VarInt
//! packet id.
use crate::codec::{
    MAX_TYPE_DEPTH, decode_custom, encode_custom, spec_decode_custom, spec_encode_custom, view_ctx,
};
use crate::custom_type::{CustomType, Literal};
use crate::primitives::{
    PacketDirection, PacketId, PacketIdentifier, PacketStage, spec_id_lt,
};
use crate::packet::DecodeError;
use crate::protocol::Protocol;
use crate::types::{Error, read_var_int, spec_read_var_int, var_u32_bytes, write_var_int};
use crate::value::{Value, ValueV};
use vstd::prelude::*;

verus! {

/// The positions of one (direction, stage) group's packets within the
/// schema's packet table, in table order, each with its identifier.
pub open spec fn spec_group_entries(
    packets: Seq<(PacketIdentifier, CustomType)>,
    direction: PacketDirection,
    stage: PacketStage,
    from: int,
) -> Seq<(PacketIdentifier, int)>
    decreases packets.len() - from,
{
    if !(0 <= from < packets.len()) {
        Seq::empty()
    } else {
        let rest = spec_group_entries(packets, direction, stage, from + 1);
        if packets[from].0.0 == direction && packets[from].0.1 == stage {
            seq![(packets[from].0, from)] + rest
        } else {
            rest
        }
    }
}

/// The ghost value of a group's entry list.
pub open spec fn view_entries(entries: Seq<(PacketIdentifier, usize)>) -> Seq<
    (PacketIdentifier, int),
> {
    Seq::new(entries.len(), |i: int| (entries[i].0, entries[i].1 as int))
}

/// One (direction, stage) group of a compiled protocol: its packets in
/// table order, each as its identifier and its position in the schema's
/// packet table.
pub struct PacketGroup {
    pub direction: PacketDirection,
    pub stage: PacketStage,
    pub packets: Vec<(PacketIdentifier, usize)>,
}

impl PacketGroup {
    /// The group holds exactly the table's packets of its direction and
    /// stage, in order, under their table positions.
    pub open spec fn spec_matches(&self, packets: Seq<(PacketIdentifier, CustomType)>) -> bool {
        view_entries(self.packets@) == spec_group_entries(packets, self.direction, self.stage, 0)
    }
}

/// A compiled protocol: one packet group per (direction, stage) pair, in
/// the fixed direction-major order.
pub struct CompiledProtocol {
    pub groups: Vec<PacketGroup>,
}

/// Derives the closed per-group packet sets of a schema.
pub struct ProtocolGenerator;

/// Extracts one (direction, stage) group from the ordered packet table.
pub struct StageGenerator;

/// Derives the per-packet decode and encode routines: a leading VarInt id
/// dispatches into the group, an unknown id is a fatal error.
pub struct PacketGenerator;

/// Decodes and encodes one custom payload type against the schema.
pub struct CustomTypeGenerator;

/// Decodes and encodes one field type against the schema.
pub struct FieldGenerator;

impl StageGenerator {
    /// Collects one group's packets from the table.
    pub fn generate(
        direction: PacketDirection,
        stage: PacketStage,
        packets: &Vec<(PacketIdentifier, CustomType)>,
    ) -> (r: PacketGroup)
        ensures
            r.direction == direction,
            r.stage == stage,
            r.spec_matches(packets@),
    {
        let n = packets.len();
        let mut out: Vec<(PacketIdentifier, usize)> = Vec::new();
        let mut k: usize = 0;
        proof {
            assert(view_entries(out@) =~= Seq::<(PacketIdentifier, int)>::empty());
        }
        while k < n
            invariant
                k <= n,
                n == packets@.len(),
                view_entries(out@) + spec_group_entries(packets@, direction, stage, k as int)
                    == spec_group_entries(packets@, direction, stage, 0),
            decreases n - k,
        {
            let pair = &packets[k];
            if pair.0.same_group(&PacketIdentifier(direction, stage, PacketId(0))) {
                out.push((pair.0, k));
                proof {
                    assert(view_entries(out@) =~= view_entries(out@.drop_last()).push(
                        (packets@[k as int].0, k as int),
                    ));
                    assert(view_entries(out@) + spec_group_entries(
                        packets@,
                        direction,
                        stage,
                        k + 1 as int,
                    ) =~= spec_group_entries(packets@, direction, stage, 0));
                }
            } else {
                proof {
                    assert(view_entries(out@) + spec_group_entries(
                        packets@,
                        direction,
                        stage,
                        k + 1 as int,
                    ) =~= spec_group_entries(packets@, direction, stage, 0));
                }
            }
            k = k + 1;
        }
        proof {
            assert(view_entries(out@) + Seq::<(PacketIdentifier, int)>::empty() =~= view_entries(
                out@,
            ));
        }
        PacketGroup { direction, stage, packets: out }
    }
}

impl ProtocolGenerator {
    /// Compiles a schema into its eight packet groups, direction-major,
    /// stages in connection order.
    pub fn generate(protocol: &Protocol) -> (r: CompiledProtocol)
        ensures
            r.groups@.len() == 8,
            forall|g: int|
                0 <= g < 8 ==> (#[trigger] r.groups@[g]).spec_matches(protocol.packets@),
            forall|g: int|
                0 <= g < 8 ==> (#[trigger] r.groups@[g]).direction == (if g < 4 {
                    PacketDirection::Client
                } else {
                    PacketDirection::Server
                }),
            forall|g: int|
                0 <= g < 8 ==> crate::primitives::spec_stage_index(
                    (#[trigger] r.groups@[g]).stage,
                ) == g % 4,
    {
        let mut groups: Vec<PacketGroup> = Vec::new();
        groups.push(
            StageGenerator::generate(
                PacketDirection::Client,
                PacketStage::Handshaking,
                &protocol.packets,
            ),
        );
        groups.push(
            StageGenerator::generate(
                PacketDirection::Client,
                PacketStage::Status,
                &protocol.packets,
            ),
        );
        groups.push(
            StageGenerator::generate(
                PacketDirection::Client,
                PacketStage::Login,
                &protocol.packets,
            ),
        );
        groups.push(
            StageGenerator::generate(
                PacketDirection::Client,
                PacketStage::Play,
                &protocol.packets,
            ),
        );
        groups.push(
            StageGenerator::generate(
                PacketDirection::Server,
                PacketStage::Handshaking,
                &protocol.packets,
            ),
        );
        groups.push(
            StageGenerator::generate(
                PacketDirection::Server,
                PacketStage::Status,
                &protocol.packets,
            ),
        );
        groups.push(
            StageGenerator::generate(
                PacketDirection::Server,
                PacketStage::Login,
                &protocol.packets,
            ),
        );
        groups.push(
            StageGenerator::generate(
                PacketDirection::Server,
                PacketStage::Play,
                &protocol.packets,
            ),
        );
        CompiledProtocol { groups }
    }
}

impl Protocol {
    /// Boundary lookup on the ordered packet table: the first position
    /// whose key is not below (direction, stage, 0). On a sorted table
    /// this is where that group's contiguous range begins; the compiler's
    /// grouping rests on this ordering.
    #[verifier::loop_isolation(false)]
    pub fn split_index(&self, direction: PacketDirection, stage: PacketStage) -> (r: usize)
        ensures
            r <= self.packets@.len(),
            forall|i: int|
                0 <= i < r ==> spec_id_lt(
                    (#[trigger] self.packets@[i]).0,
                    PacketIdentifier(direction, stage, PacketId(0)),
                ),
            r < self.packets@.len() ==> !spec_id_lt(
                self.packets@[r as int].0,
                PacketIdentifier(direction, stage, PacketId(0)),
            ),
    {
        let boundary = PacketIdentifier(direction, stage, PacketId(0));
        let n = self.packets.len();
        let mut k: usize = 0;
        while k < n
            invariant
                k <= n,
                n == self.packets@.len(),
                forall|i: int|
                    0 <= i < k ==> spec_id_lt((#[trigger] self.packets@[i]).0, boundary),
            decreases n - k,
        {
            if !self.packets[k].0.lt(&boundary) {
                return k;
            }
            k = k + 1;
        }
        n
    }
}

/// The first table position carrying this (direction, stage, id) key.
pub open spec fn spec_find_packet(
    packets: Seq<(PacketIdentifier, CustomType)>,
    direction: PacketDirection,
    stage: PacketStage,
    id: u64,
    from: int,
) -> Option<int>
    decreases packets.len() - from,
{
    if !(0 <= from < packets.len()) {
        None
    } else if packets[from].0.0 == direction && packets[from].0.1 == stage && packets[from].0.2.0
        == id {
        Some(from)
    } else {
        spec_find_packet(packets, direction, stage, id, from + 1)
    }
}

/// What decoding one frame as a packet of the given (direction, stage)
/// group yields: the id read from the frame's leading VarInt, and the
/// payload decoded against that packet's declared type, which must consume
/// the frame exactly. An id outside the group is a fatal error, never a
/// silent drop.
pub open spec fn spec_decode_packet(
    packets: Seq<(PacketIdentifier, CustomType)>,
    shared: Seq<CustomType>,
    direction: PacketDirection,
    stage: PacketStage,
    frame: Seq<u8>,
    depth: nat,
) -> Result<(u64, ValueV), DecodeError> {
    match spec_read_var_int(frame, 0) {
        Err(e) => Err(DecodeError::TryRead(e)),
        Ok((id, p)) => {
            let idu = id as u64;
            match spec_find_packet(packets, direction, stage, idu, 0) {
                None => Err(DecodeError::NonExistentPacket { direction, stage, id: idu }),
                Some(i) => match spec_decode_custom(
                    packets[i].1,
                    shared,
                    frame,
                    p,
                    Seq::empty(),
                    depth,
                ) {
                    Err(e) => Err(DecodeError::TryRead(e)),
                    Ok((v, end)) => if end == frame.len() {
                        Ok((idu, v))
                    } else {
                        Err(DecodeError::TryRead(Error::Malformed))
                    },
                },
            }
        },
    }
}

/// The wire bytes of one packet: its id as a VarInt, then its payload
/// encoded against its declared type. An id the group does not declare
/// cannot be encoded.
pub open spec fn spec_encode_packet(
    packets: Seq<(PacketIdentifier, CustomType)>,
    shared: Seq<CustomType>,
    direction: PacketDirection,
    stage: PacketStage,
    id: u64,
    v: ValueV,
    depth: nat,
) -> Result<Seq<u8>, DecodeError> {
    match spec_find_packet(packets, direction, stage, id, 0) {
        None => Err(DecodeError::NonExistentPacket { direction, stage, id }),
        Some(i) => match spec_encode_custom(packets[i].1, shared, v, depth) {
            Err(e) => Err(DecodeError::TryRead(e)),
            Ok(w) => Ok(var_u32_bytes(id as u32) + w),
        },
    }
}

/// Looks a packet up by (direction, stage, id).
fn find_packet<'a>(
    protocol: &'a Protocol,
    direction: PacketDirection,
    stage: PacketStage,
    id: u64,
) -> (r: Option<&'a CustomType>)
    ensures
        match r {
            Some(t) => ({
                &&& spec_find_packet(protocol.packets@, direction, stage, id, 0) matches Some(i)
                &&& 0 <= i < protocol.packets@.len()
                &&& *t == protocol.packets@[spec_find_packet(
                    protocol.packets@,
                    direction,
                    stage,
                    id,
                    0,
                ).unwrap()].1
            }),
            None => spec_find_packet(protocol.packets@, direction, stage, id, 0) is None,
        },
{
    let n = protocol.packets.len();
    let mut k: usize = 0;
    while k < n
        invariant
            k <= n,
            n == protocol.packets@.len(),
            spec_find_packet(protocol.packets@, direction, stage, id, 0) == spec_find_packet(
                protocol.packets@,
                direction,
                stage,
                id,
                k as int,
            ),
        decreases n - k,
    {
        let pair = &protocol.packets[k];
        if pair.0.same_group(&PacketIdentifier(direction, stage, PacketId(0))) && pair.0.2.0
            == id {
            return Some(&pair.1);
        }
        k = k + 1;
    }
    None
}

impl PacketGenerator {
    /// Decodes one de-framed, decompressed frame as a packet of the given
    /// (direction, stage) group: reads the leading VarInt id, dispatches
    /// on it, and decodes the payload, which must consume the whole frame.
    pub fn decode(
        protocol: &Protocol,
        direction: PacketDirection,
        stage: PacketStage,
        frame: &Vec<u8>,
    ) -> (r: Result<(u64, Value), DecodeError>)
        ensures
            match r {
                Ok((id, v)) => spec_decode_packet(
                    protocol.packets@,
                    protocol.shared_types@,
                    direction,
                    stage,
                    frame@,
                    MAX_TYPE_DEPTH as nat,
                ) == Ok::<_, DecodeError>((id, v@)),
                Err(e) => spec_decode_packet(
                    protocol.packets@,
                    protocol.shared_types@,
                    direction,
                    stage,
                    frame@,
                    MAX_TYPE_DEPTH as nat,
                ) == Err::<(u64, ValueV), _>(e),
            },
    {
        let (id, p) = match read_var_int(frame.as_slice(), 0) {
            Ok(x) => x,
            Err(e) => {
                return Err(DecodeError::TryRead(e));
            },
        };
        let idu = id as u64;
        let t = match find_packet(protocol, direction, stage, idu) {
            Some(t) => t,
            None => {
                return Err(DecodeError::NonExistentPacket { direction, stage, id: idu });
            },
        };
        let ctx: Vec<(String, Literal)> = Vec::new();
        proof {
            assert(view_ctx(ctx@) =~= Seq::<(Seq<char>, crate::custom_type::LiteralV)>::empty());
        }
        match decode_custom(t, &protocol.shared_types, frame.as_slice(), p, &ctx, MAX_TYPE_DEPTH) {
            Err(e) => Err(DecodeError::TryRead(e)),
            Ok((v, end)) => {
                if end == frame.len() {
                    Ok((idu, v))
                } else {
                    Err(DecodeError::TryRead(Error::Malformed))
                }
            },
        }
    }

    /// Encodes one packet of the given (direction, stage) group: its
    /// VarInt id, then its payload in declared field order.
    pub fn encode(
        protocol: &Protocol,
        direction: PacketDirection,
        stage: PacketStage,
        id: u64,
        v: &Value,
    ) -> (r: Result<Vec<u8>, DecodeError>)
        ensures
            match r {
                Ok(w) => spec_encode_packet(
                    protocol.packets@,
                    protocol.shared_types@,
                    direction,
                    stage,
                    id,
                    v@,
                    MAX_TYPE_DEPTH as nat,
                ) == Ok::<_, DecodeError>(w@),
                Err(e) => spec_encode_packet(
                    protocol.packets@,
                    protocol.shared_types@,
                    direction,
                    stage,
                    id,
                    v@,
                    MAX_TYPE_DEPTH as nat,
                ) == Err::<Seq<u8>, _>(e),
            },
    {
        let t = match find_packet(protocol, direction, stage, id) {
            Some(t) => t,
            None => {
                return Err(DecodeError::NonExistentPacket { direction, stage, id });
            },
        };
        let mut out: Vec<u8> = Vec::new();
        write_var_int(&mut out, (id as u32) as i32);
        proof {
            assert(((id as u32) as i32) as u32 == id as u32) by (bit_vector);
        }
        let mut w = match encode_custom(t, &protocol.shared_types, v, MAX_TYPE_DEPTH) {
            Ok(x) => x,
            Err(e) => {
                return Err(DecodeError::TryRead(e));
            },
        };
        let ghost hdr = out@;
        let ghost wv = w@;
        out.append(&mut w);
        proof {
            assert(out@ =~= hdr + wv);
            assert(Seq::<u8>::empty() + hdr =~= hdr);
        }
        Ok(out)
    }
}

impl CustomTypeGenerator {
    /// Decodes one payload value of a custom type from the top of a frame,
    /// with no enclosing key context.
    pub fn decode(
        t: &CustomType,
        shared: &Vec<CustomType>,
        buf: &[u8],
        pos: usize,
    ) -> (r: Result<(Value, usize), Error>)
        requires
            pos <= buf@.len(),
        ensures
            match r {
                Ok((v, end)) => spec_decode_custom(
                    *t,
                    shared@,
                    buf@,
                    pos as int,
                    Seq::empty(),
                    MAX_TYPE_DEPTH as nat,
                ) == Ok::<_, Error>((v@, end as int)) && pos <= end <= buf@.len(),
                Err(e) => spec_decode_custom(
                    *t,
                    shared@,
                    buf@,
                    pos as int,
                    Seq::empty(),
                    MAX_TYPE_DEPTH as nat,
                ) == Err::<(ValueV, int), _>(e),
            },
    {
        let ctx: Vec<(String, Literal)> = Vec::new();
        proof {
            assert(view_ctx(ctx@) =~= Seq::<(Seq<char>, crate::custom_type::LiteralV)>::empty());
        }
        decode_custom(t, shared, buf, pos, &ctx, MAX_TYPE_DEPTH)
    }

    /// Encodes one payload value of a custom type into fresh wire bytes.
    pub fn encode(t: &CustomType, shared: &Vec<CustomType>, v: &Value) -> (r: Result<
        Vec<u8>,
        Error,
    >)
        ensures
            match r {
                Ok(w) => spec_encode_custom(*t, shared@, v@, MAX_TYPE_DEPTH as nat) == Ok::<
                    _,
                    Error,
                >(w@),
                Err(e) => spec_encode_custom(*t, shared@, v@, MAX_TYPE_DEPTH as nat) == Err::<
                    Seq<u8>,
                    _,
                >(e),
            },
    {
        encode_custom(t, shared, v, MAX_TYPE_DEPTH)
    }
}

impl FieldGenerator {
    /// Decodes one field value from a buffer, with no enclosing key
    /// context.
    pub fn decode(
        ft: &crate::custom_type::FieldType,
        shared: &Vec<CustomType>,
        buf: &[u8],
        pos: usize,
    ) -> (r: Result<(Value, usize), Error>)
        requires
            pos <= buf@.len(),
        ensures
            match r {
                Ok((v, end)) => crate::codec::spec_decode_field_ty(
                    *ft,
                    shared@,
                    buf@,
                    pos as int,
                    Seq::empty(),
                    MAX_TYPE_DEPTH as nat,
                ) == Ok::<_, Error>((v@, end as int)) && pos <= end <= buf@.len(),
                Err(e) => crate::codec::spec_decode_field_ty(
                    *ft,
                    shared@,
                    buf@,
                    pos as int,
                    Seq::empty(),
                    MAX_TYPE_DEPTH as nat,
                ) == Err::<(ValueV, int), _>(e),
            },
    {
        let ctx: Vec<(String, Literal)> = Vec::new();
        proof {
            assert(view_ctx(ctx@) =~= Seq::<(Seq<char>, crate::custom_type::LiteralV)>::empty());
        }
        crate::codec::decode_field_ty(ft, shared, buf, pos, &ctx, MAX_TYPE_DEPTH)
    }

    /// Encodes one field value into fresh wire bytes.
    pub fn encode(
        ft: &crate::custom_type::FieldType,
        shared: &Vec<CustomType>,
        v: &Value,
    ) -> (r: Result<Vec<u8>, Error>)
        ensures
            match r {
                Ok(w) => crate::codec::spec_encode_field_ty(*ft, shared@, v@, MAX_TYPE_DEPTH as nat)
                    == Ok::<_, Error>(w@),
                Err(e) => crate::codec::spec_encode_field_ty(
                    *ft,
                    shared@,
                    v@,
                    MAX_TYPE_DEPTH as nat,
                ) == Err::<Seq<u8>, _>(e),
            },
    {
        crate::codec::encode_field_ty(ft, shared, v, MAX_TYPE_DEPTH)
    }
}

} // verus!
