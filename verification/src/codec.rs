//! The schema-driven packet codec: recursive, purely structural decode and
//! encode of payload values against a custom type, over the primitive wire
//! codec. Key fields are consumed on decode to drive sibling decisions,
//! never stored, and recomputed on encode.
use crate::custom_type::{
    ArrayLength, BitField, CustomType, FieldType, IntegerType, Literal, LiteralV, PrimitiveType,
    Selector, SelectorType,
};
use crate::primitives::{FieldName, FlagName};
use crate::types::{
    Error, Nbt, Uuid, read_bool, read_string, read_u16, read_u32, read_u64, read_u8, read_uuid,
    read_var_int, read_var_long, spec_read_bool, spec_read_nbt, spec_read_string, spec_read_u16,
    spec_read_u32, spec_read_u64, spec_read_u8, spec_read_uuid, spec_read_var_int,
    spec_read_var_long,
};
use crate::value::{Value, ValueV, view_values, view_named_values};
use vstd::prelude::*;

verus! {

broadcast use vstd::std_specs::vec::axiom_vec_index_decreases, vstd::seq::axiom_seq_index_decreases, vstd::std_specs::vec::axiom_vec_decreases_to_view;

/// How deep nested and shared type references may go before decoding gives
/// up: the recursion budget spent only when a shared reference is
/// resolved. A schema whose shared references nest deeper — in particular
/// a cyclic one, which could never terminate — is rejected as malformed.
pub const MAX_TYPE_DEPTH: u64 = 32;

/// Result of reading one integer field of the given kind at `pos`.
pub open spec fn spec_decode_integer(it: IntegerType, bytes: Seq<u8>, pos: int) -> Result<
    (ValueV, int),
    Error,
> {
    match it {
        IntegerType::U8 => match spec_read_u8(bytes, pos) {
            Ok((v, p)) => Ok((ValueV::U8(v), p)),
            Err(e) => Err(e),
        },
        IntegerType::I8 => match spec_read_u8(bytes, pos) {
            Ok((v, p)) => Ok((ValueV::I8(v as i8), p)),
            Err(e) => Err(e),
        },
        IntegerType::U16 => match spec_read_u16(bytes, pos) {
            Ok((v, p)) => Ok((ValueV::U16(v), p)),
            Err(e) => Err(e),
        },
        IntegerType::I16 => match spec_read_u16(bytes, pos) {
            Ok((v, p)) => Ok((ValueV::I16(v as i16), p)),
            Err(e) => Err(e),
        },
        IntegerType::U32 => match spec_read_u32(bytes, pos) {
            Ok((v, p)) => Ok((ValueV::U32(v), p)),
            Err(e) => Err(e),
        },
        IntegerType::I32 => match spec_read_u32(bytes, pos) {
            Ok((v, p)) => Ok((ValueV::I32(v as i32), p)),
            Err(e) => Err(e),
        },
        IntegerType::U64 => match spec_read_u64(bytes, pos) {
            Ok((v, p)) => Ok((ValueV::U64(v), p)),
            Err(e) => Err(e),
        },
        IntegerType::I64 => match spec_read_u64(bytes, pos) {
            Ok((v, p)) => Ok((ValueV::I64(v as i64), p)),
            Err(e) => Err(e),
        },
        IntegerType::VarInt => match spec_read_var_int(bytes, pos) {
            Ok((v, p)) => Ok((ValueV::VarInt(v), p)),
            Err(e) => Err(e),
        },
        IntegerType::VarLong => match spec_read_var_long(bytes, pos) {
            Ok((v, p)) => Ok((ValueV::VarLong(v), p)),
            Err(e) => Err(e),
        },
    }
}

/// Reads one integer field of the given kind.
pub fn decode_integer(it: &IntegerType, buf: &[u8], pos: usize) -> (r: Result<
    (Value, usize),
    Error,
>)
    ensures
        match r {
            Ok((v, end)) => spec_decode_integer(*it, buf@, pos as int) == Ok::<_, Error>(
                (v@, end as int),
            ) && pos < end <= buf@.len(),
            Err(e) => spec_decode_integer(*it, buf@, pos as int) == Err::<(ValueV, int), _>(e),
        },
{
    match it {
        IntegerType::U8 => match read_u8(buf, pos) {
            Ok((v, p)) => Ok((Value::U8(v), p)),
            Err(e) => Err(e),
        },
        IntegerType::I8 => match read_u8(buf, pos) {
            Ok((v, p)) => Ok((Value::I8(v as i8), p)),
            Err(e) => Err(e),
        },
        IntegerType::U16 => match read_u16(buf, pos) {
            Ok((v, p)) => Ok((Value::U16(v), p)),
            Err(e) => Err(e),
        },
        IntegerType::I16 => match read_u16(buf, pos) {
            Ok((v, p)) => Ok((Value::I16(v as i16), p)),
            Err(e) => Err(e),
        },
        IntegerType::U32 => match read_u32(buf, pos) {
            Ok((v, p)) => Ok((Value::U32(v), p)),
            Err(e) => Err(e),
        },
        IntegerType::I32 => match read_u32(buf, pos) {
            Ok((v, p)) => Ok((Value::I32(v as i32), p)),
            Err(e) => Err(e),
        },
        IntegerType::U64 => match read_u64(buf, pos) {
            Ok((v, p)) => Ok((Value::U64(v), p)),
            Err(e) => Err(e),
        },
        IntegerType::I64 => match read_u64(buf, pos) {
            Ok((v, p)) => Ok((Value::I64(v as i64), p)),
            Err(e) => Err(e),
        },
        IntegerType::VarInt => match read_var_int(buf, pos) {
            Ok((v, p)) => Ok((Value::VarInt(v), p)),
            Err(e) => Err(e),
        },
        IntegerType::VarLong => match read_var_long(buf, pos) {
            Ok((v, p)) => Ok((Value::VarLong(v), p)),
            Err(e) => Err(e),
        },
    }
}

/// The integer payload of a just-decoded integer value, widened to 64-bit
/// signed; unsigned 64-bit values wrap.
pub open spec fn spec_int_as_i64(v: ValueV) -> i64 {
    match v {
        ValueV::U8(n) => n as i64,
        ValueV::I8(n) => n as i64,
        ValueV::U16(n) => n as i64,
        ValueV::I16(n) => n as i64,
        ValueV::U32(n) => n as i64,
        ValueV::I32(n) => n as i64,
        ValueV::U64(n) => n as i64,
        ValueV::I64(n) => n,
        ValueV::VarInt(n) => n as i64,
        ValueV::VarLong(n) => n,
        _ => 0,
    }
}

/// Result of reading one selector-typed value at `pos`, as the literal it
/// selects with.
pub open spec fn spec_decode_selector(st: SelectorType, bytes: Seq<u8>, pos: int) -> Result<
    (LiteralV, int),
    Error,
> {
    match st {
        SelectorType::Integer(it) => match spec_decode_integer(it, bytes, pos) {
            Ok((v, p)) => Ok((LiteralV::Int(spec_int_as_i64(v)), p)),
            Err(e) => Err(e),
        },
        SelectorType::Boolean => match spec_read_bool(bytes, pos) {
            Ok((b, p)) => Ok((LiteralV::Bool(b), p)),
            Err(e) => Err(e),
        },
        SelectorType::Str(max) => match spec_read_string(bytes, pos, max as int) {
            Ok((s, p)) => Ok((LiteralV::Str(s), p)),
            Err(e) => Err(e),
        },
    }
}

/// Reads one selector-typed value as a literal.
pub fn decode_selector(st: &SelectorType, buf: &[u8], pos: usize) -> (r: Result<
    (Literal, usize),
    Error,
>)
    ensures
        match r {
            Ok((v, end)) => spec_decode_selector(*st, buf@, pos as int) == Ok::<_, Error>(
                (v@, end as int),
            ) && pos < end <= buf@.len(),
            Err(e) => spec_decode_selector(*st, buf@, pos as int) == Err::<(LiteralV, int), _>(e),
        },
{
    match st {
        SelectorType::Integer(it) => match decode_integer(it, buf, pos) {
            Ok((v, p)) => {
                let n: i64 = match &v {
                    Value::U8(n) => *n as i64,
                    Value::I8(n) => *n as i64,
                    Value::U16(n) => *n as i64,
                    Value::I16(n) => *n as i64,
                    Value::U32(n) => *n as i64,
                    Value::I32(n) => *n as i64,
                    Value::U64(n) => *n as i64,
                    Value::I64(n) => *n,
                    Value::VarInt(n) => *n as i64,
                    Value::VarLong(n) => *n,
                    _ => 0,
                };
                Ok((Literal::Int(n), p))
            },
            Err(e) => Err(e),
        },
        SelectorType::Boolean => match read_bool(buf, pos) {
            Ok((b, p)) => Ok((Literal::Bool(b), p)),
            Err(e) => Err(e),
        },
        SelectorType::Str(max) => match read_string(buf, pos, *max) {
            Ok((s, p)) => Ok((Literal::Str(s), p)),
            Err(e) => Err(e),
        },
    }
}

/// The ghost value of a key context: the sibling key fields decoded so far
/// within one struct, in decode order.
pub open spec fn view_ctx(ctx: Seq<(String, Literal)>) -> Seq<(Seq<char>, LiteralV)> {
    Seq::new(ctx.len(), |i: int| (ctx[i].0@, ctx[i].1@))
}

/// The literal stored under `name`, taking the earliest entry.
pub open spec fn spec_ctx_lookup(
    ctx: Seq<(Seq<char>, LiteralV)>,
    name: Seq<char>,
    from: int,
) -> Option<LiteralV>
    decreases ctx.len() - from,
{
    if !(0 <= from < ctx.len()) {
        None
    } else if ctx[from].0 == name {
        Some(ctx[from].1)
    } else {
        spec_ctx_lookup(ctx, name, from + 1)
    }
}

/// Looks a key field up in the context.
pub fn ctx_lookup<'a>(ctx: &'a Vec<(String, Literal)>, name: &String) -> (r: Option<&'a Literal>)
    ensures
        match r {
            Some(lit) => spec_ctx_lookup(view_ctx(ctx@), name@, 0) == Some(lit@),
            None => spec_ctx_lookup(view_ctx(ctx@), name@, 0) is None,
        },
{
    let n = ctx.len();
    let mut i: usize = 0;
    while i < n
        invariant
            i <= n,
            n == ctx@.len(),
            spec_ctx_lookup(view_ctx(ctx@), name@, 0) == spec_ctx_lookup(
                view_ctx(ctx@),
                name@,
                i as int,
            ),
        decreases n - i,
    {
        if ctx[i].0 == *name {
            return Some(&ctx[i].1);
        }
        i = i + 1;
    }
    None
}

/// The index of the first shared type of this name.
pub open spec fn spec_find_shared(shared: Seq<CustomType>, name: Seq<char>, from: int) -> Option<
    int,
>
    decreases shared.len() - from,
{
    if !(0 <= from < shared.len()) {
        None
    } else if shared[from].spec_name() == name {
        Some(from)
    } else {
        spec_find_shared(shared, name, from + 1)
    }
}

/// Resolves a shared type name against the shared-type namespace.
pub fn find_shared<'a>(shared: &'a Vec<CustomType>, name: &String) -> (r: Option<&'a CustomType>)
    ensures
        match r {
            Some(t) => {
                &&& spec_find_shared(shared@, name@, 0) matches Some(i)
                &&& 0 <= i < shared@.len()
                &&& *t == shared@[spec_find_shared(shared@, name@, 0).unwrap()]
            },
            None => spec_find_shared(shared@, name@, 0) is None,
        },
{
    let n = shared.len();
    let mut i: usize = 0;
    while i < n
        invariant
            i <= n,
            n == shared@.len(),
            spec_find_shared(shared@, name@, 0) == spec_find_shared(shared@, name@, i as int),
        decreases n - i,
    {
        if *shared[i].name_ref() == *name {
            return Some(&shared[i]);
        }
        i = i + 1;
    }
    None
}


/// Result of reading an array count of the given integer kind, widened.
pub open spec fn spec_decode_count(it: IntegerType, bytes: Seq<u8>, pos: int) -> Result<
    (i64, int),
    Error,
> {
    match spec_decode_integer(it, bytes, pos) {
        Ok((v, p)) => Ok((spec_int_as_i64(v), p)),
        Err(e) => Err(e),
    }
}

/// The bit width of one bit-packed sub-field.
pub open spec fn spec_bf_width(bf: BitField) -> int {
    match bf {
        BitField::Boolean => 1,
        BitField::I8(n) => n as int,
        BitField::U8(n) => n as int,
        BitField::I16(n) => n as int,
        BitField::U16(n) => n as int,
        BitField::I32(n) => n as int,
        BitField::U32(n) => n as int,
        BitField::I64(n) => n as int,
        BitField::U64(n) => n as int,
    }
}

/// Whether a bit-packed sub-field is sign-extended.
pub open spec fn spec_bf_signed(bf: BitField) -> bool {
    match bf {
        BitField::I8(_) => true,
        BitField::I16(_) => true,
        BitField::I32(_) => true,
        BitField::I64(_) => true,
        _ => false,
    }
}

/// The summed bit width of a bit-packed slot's sub-fields.
pub open spec fn spec_bf_total(fields: Seq<(FieldName, BitField)>) -> int
    decreases fields,
{
    if fields.len() == 0 {
        0
    } else {
        spec_bf_width(fields[0].1) + spec_bf_total(fields.drop_first())
    }
}

/// Every declared sub-field width is between one and sixty-four bits.
pub open spec fn spec_bf_widths_ok(fields: Seq<(FieldName, BitField)>) -> bool {
    forall|i: int| 0 <= i < fields.len() ==> 1 <= spec_bf_width((#[trigger] fields[i]).1) <= 64
}

/// The carrier of a bit-packed slot: the smallest power-of-two-width
/// integer that holds all declared bits.
pub open spec fn spec_bf_carrier(total: int) -> int {
    if total <= 8 {
        8
    } else if total <= 16 {
        16
    } else if total <= 32 {
        32
    } else {
        64
    }
}

/// Result of reading a big-endian carrier of the given bit width.
pub open spec fn spec_read_carrier(bits: int, bytes: Seq<u8>, pos: int) -> Result<
    (u64, int),
    Error,
> {
    if bits == 8 {
        match spec_read_u8(bytes, pos) {
            Ok((v, p)) => Ok((v as u64, p)),
            Err(e) => Err(e),
        }
    } else if bits == 16 {
        match spec_read_u16(bytes, pos) {
            Ok((v, p)) => Ok((v as u64, p)),
            Err(e) => Err(e),
        }
    } else if bits == 32 {
        match spec_read_u32(bytes, pos) {
            Ok((v, p)) => Ok((v as u64, p)),
            Err(e) => Err(e),
        }
    } else {
        spec_read_u64(bytes, pos)
    }
}

/// One sub-field taken out of a decoded carrier: the first-declared field
/// occupies the most significant bits of the carrier; signed kinds are
/// sign-extended from their declared width.
pub open spec fn spec_bf_extract(raw: u64, carrier: int, off: int, bf: BitField) -> i64 {
    let w = spec_bf_width(bf);
    let sh = carrier - off - w;
    let val = if w >= 64 {
        raw
    } else {
        (((raw as int) / (vstd::arithmetic::power2::pow2(sh as nat) as int)) % (
        vstd::arithmetic::power2::pow2(w as nat) as int)) as u64
    };
    if spec_bf_signed(bf) && (val as int) >= vstd::arithmetic::power2::pow2((w - 1) as nat) {
        ((val as int) - (vstd::arithmetic::power2::pow2(w as nat) as int)) as i64
    } else {
        val as i64
    }
}

/// All sub-fields taken out of a decoded carrier, in declaration order.
pub open spec fn spec_bf_fields(
    fields: Seq<(FieldName, BitField)>,
    raw: u64,
    carrier: int,
    off: int,
) -> Seq<(Seq<char>, i64)>
    decreases fields,
{
    if fields.len() == 0 {
        Seq::empty()
    } else {
        seq![(fields[0].0.0@, spec_bf_extract(raw, carrier, off, fields[0].1))] + spec_bf_fields(
            fields.drop_first(),
            raw,
            carrier,
            off + spec_bf_width(fields[0].1),
        )
    }
}

/// The raw bit pattern of a just-decoded integer value, zero-extended.
pub open spec fn spec_raw_bits(v: ValueV) -> u64 {
    match v {
        ValueV::U8(n) => n as u64,
        ValueV::I8(n) => (n as u8) as u64,
        ValueV::U16(n) => n as u64,
        ValueV::I16(n) => (n as u16) as u64,
        ValueV::U32(n) => n as u64,
        ValueV::I32(n) => (n as u32) as u64,
        ValueV::U64(n) => n,
        ValueV::I64(n) => n as u64,
        ValueV::VarInt(n) => (n as u32) as u64,
        ValueV::VarLong(n) => n as u64,
        _ => 0,
    }
}

/// The names of the flags whose bits are all set in `raw`, in declaration
/// order.
pub open spec fn spec_active_flags(flags: Seq<(u64, FlagName)>, raw: u64) -> Seq<Seq<char>>
    decreases flags,
{
    if flags.len() == 0 {
        Seq::empty()
    } else {
        let rest = spec_active_flags(flags.drop_first(), raw);
        if flags[0].0 & raw == flags[0].0 {
            seq![flags[0].1.0@] + rest
        } else {
            rest
        }
    }
}

/// What decoding a payload of type `t` at `pos` yields: the decoded value
/// and the position after it. `ctx` holds the key fields of the enclosing
/// struct; `depth` bounds shared-reference resolution. This function is the
/// wire grammar of the protocol's payloads.
pub open spec fn spec_decode_custom(
    t: CustomType,
    shared: Seq<CustomType>,
    bytes: Seq<u8>,
    pos: int,
    ctx: Seq<(Seq<char>, LiteralV)>,
    depth: nat,
) -> Result<(ValueV, int), Error>
    decreases depth, t, 0int,
{
    match t {
        CustomType::Struct { fields, .. } => match spec_decode_fields(
            fields@,
            shared,
            bytes,
            pos,
            Seq::empty(),
            Seq::empty(),
            depth,
        ) {
            Ok((vals, p)) => Ok((ValueV::StructVal(vals), p)),
            Err(e) => Err(e),
        },
        CustomType::Enum { variant, variants, .. } => match variant {
            Selector::Prefixed(st) => match spec_decode_selector(st, bytes, pos) {
                Ok((key, p)) => spec_decode_variants(variants@, key, shared, bytes, p, ctx, depth),
                Err(e) => Err(e),
            },
            Selector::Sibling(name) => match spec_ctx_lookup(ctx, name.0@, 0) {
                Some(key) => spec_decode_variants(variants@, key, shared, bytes, pos, ctx, depth),
                None => Err(Error::Malformed),
            },
        },
        CustomType::BitField { fields, .. } => {
            let total = spec_bf_total(fields@);
            if fields@.len() == 0 || !spec_bf_widths_ok(fields@) || total > 64 {
                Err(Error::Malformed)
            } else {
                match spec_read_carrier(spec_bf_carrier(total), bytes, pos) {
                    Ok((raw, p)) => Ok((
                        ValueV::BitFieldVal(
                            spec_bf_fields(fields@, raw, spec_bf_carrier(total), 0),
                        ),
                        p,
                    )),
                    Err(e) => Err(e),
                }
            }
        },
        CustomType::BitFlags { field_type, flags, .. } => match spec_decode_integer(
            field_type,
            bytes,
            pos,
        ) {
            Ok((iv, p)) => Ok((ValueV::Flags(spec_active_flags(flags@, spec_raw_bits(iv))), p)),
            Err(e) => Err(e),
        },
        CustomType::Unit { .. } => Ok((ValueV::Unit, pos)),
    }
}

/// Scans the variant table for the selector key and decodes the matching
/// variant's payload; an unmatched selector is a decode error, never a
/// default.
pub open spec fn spec_decode_variants(
    variants: Seq<(Literal, CustomType)>,
    key: LiteralV,
    shared: Seq<CustomType>,
    bytes: Seq<u8>,
    pos: int,
    ctx: Seq<(Seq<char>, LiteralV)>,
    depth: nat,
) -> Result<(ValueV, int), Error>
    decreases depth, variants, 0int,
{
    if variants.len() == 0 {
        Err(Error::Malformed)
    } else if variants[0].0@ == key {
        match spec_decode_custom(variants[0].1, shared, bytes, pos, ctx, depth) {
            Ok((v, p)) => Ok((ValueV::EnumVal(key, Box::new(v)), p)),
            Err(e) => Err(e),
        }
    } else {
        spec_decode_variants(variants.drop_first(), key, shared, bytes, pos, ctx, depth)
    }
}

/// Decodes a struct's fields in declaration order. A key field is consumed
/// into `ctx` and not materialized; a constant field is neither read nor
/// stored; every other field's value is appended to `out`.
pub open spec fn spec_decode_fields(
    fields: Seq<(FieldName, FieldType)>,
    shared: Seq<CustomType>,
    bytes: Seq<u8>,
    pos: int,
    ctx: Seq<(Seq<char>, LiteralV)>,
    out: Seq<(Seq<char>, ValueV)>,
    depth: nat,
) -> Result<(Seq<(Seq<char>, ValueV)>, int), Error>
    decreases depth, fields, 0int,
{
    if fields.len() == 0 {
        Ok((out, pos))
    } else {
        let fname = fields[0].0;
        match fields[0].1 {
            FieldType::Key(st) => match spec_decode_selector(st, bytes, pos) {
                Ok((lit, p)) => spec_decode_fields(
                    fields.drop_first(),
                    shared,
                    bytes,
                    p,
                    ctx.push((fname.0@, lit)),
                    out,
                    depth,
                ),
                Err(e) => Err(e),
            },
            FieldType::Constant(_) => spec_decode_fields(
                fields.drop_first(),
                shared,
                bytes,
                pos,
                ctx,
                out,
                depth,
            ),
            _ => match spec_decode_field_ty(fields[0].1, shared, bytes, pos, ctx, depth) {
                Ok((v, p)) => spec_decode_fields(
                    fields.drop_first(),
                    shared,
                    bytes,
                    p,
                    ctx,
                    out.push((fname.0@, v)),
                    depth,
                ),
                Err(e) => Err(e),
            },
        }
    }
}

/// Decodes one field of the given type at `pos`. Key and constant types
/// are only legal as direct struct fields and are malformed anywhere else.
pub open spec fn spec_decode_field_ty(
    ft: FieldType,
    shared: Seq<CustomType>,
    bytes: Seq<u8>,
    pos: int,
    ctx: Seq<(Seq<char>, LiteralV)>,
    depth: nat,
) -> Result<(ValueV, int), Error>
    decreases depth, ft, 0int,
{
    match ft {
        FieldType::Integer(it) => spec_decode_integer(it, bytes, pos),
        FieldType::Float(w) => match w {
            crate::custom_type::FloatType::F32 => match spec_read_u32(bytes, pos) {
                Ok((v, p)) => Ok((ValueV::F32Bits(v), p)),
                Err(e) => Err(e),
            },
            crate::custom_type::FloatType::F64 => match spec_read_u64(bytes, pos) {
                Ok((v, p)) => Ok((ValueV::F64Bits(v), p)),
                Err(e) => Err(e),
            },
        },
        FieldType::CustomType(ct) => spec_decode_custom(ct, shared, bytes, pos, ctx, depth),
        FieldType::Key(_) => Err(Error::Malformed),
        FieldType::Constant(_) => Err(Error::Malformed),
        FieldType::Primitive(pt) => match pt {
            PrimitiveType::Boolean => match spec_read_bool(bytes, pos) {
                Ok((v, p)) => Ok((ValueV::Bool(v), p)),
                Err(e) => Err(e),
            },
            PrimitiveType::Uuid => match spec_read_uuid(bytes, pos) {
                Ok((v, p)) => Ok((ValueV::UuidVal(v), p)),
                Err(e) => Err(e),
            },
            PrimitiveType::Str(max) => match spec_read_string(bytes, pos, max as int) {
                Ok((v, p)) => Ok((ValueV::Str(v), p)),
                Err(e) => Err(e),
            },
            PrimitiveType::Nbt => match spec_read_nbt(bytes, pos) {
                Ok((v, p)) => Ok((ValueV::NbtBlob(v), p)),
                Err(e) => Err(e),
            },
            PrimitiveType::Optional(inner) => match spec_read_bool(bytes, pos) {
                Ok((present, p)) => if present {
                    match spec_decode_field_ty(*inner, shared, bytes, p, ctx, depth) {
                        Ok((v, p2)) => Ok((ValueV::OptVal(Some(Box::new(v))), p2)),
                        Err(e) => Err(e),
                    }
                } else {
                    Ok((ValueV::OptVal(None), p))
                },
                Err(e) => Err(e),
            },
            PrimitiveType::Shared(name) => if depth == 0 {
                Err(Error::Malformed)
            } else {
                match spec_find_shared(shared, name.0@, 0) {
                    Some(i) => spec_decode_custom(
                        shared[i],
                        shared,
                        bytes,
                        pos,
                        ctx,
                        (depth - 1) as nat,
                    ),
                    None => Err(Error::Malformed),
                }
            },
            PrimitiveType::Array { length, field_type } => match length {
                ArrayLength::RemainingLength => match spec_decode_elems_rem(
                    *field_type,
                    shared,
                    bytes,
                    pos,
                    ctx,
                    Seq::empty(),
                    depth,
                ) {
                    Ok((vals, p)) => Ok((ValueV::Arr(vals), p)),
                    Err(e) => Err(e),
                },
                ArrayLength::FixedLength(n) => if n > bytes.len() - pos {
                    Err(Error::ValueTooLarge)
                } else {
                    match spec_decode_elems(
                        *field_type,
                        shared,
                        bytes,
                        n as nat,
                        pos,
                        ctx,
                        Seq::empty(),
                        depth,
                    ) {
                        Ok((vals, p)) => Ok((ValueV::Arr(vals), p)),
                        Err(e) => Err(e),
                    }
                },
                ArrayLength::Prefixed(it) => match spec_decode_count(it, bytes, pos) {
                    Ok((n, p)) => if n < 0 {
                        Err(Error::Malformed)
                    } else if n > bytes.len() - p {
                        Err(Error::ValueTooLarge)
                    } else {
                        match spec_decode_elems(
                            *field_type,
                            shared,
                            bytes,
                            n as nat,
                            p,
                            ctx,
                            Seq::empty(),
                            depth,
                        ) {
                            Ok((vals, p2)) => Ok((ValueV::Arr(vals), p2)),
                            Err(e) => Err(e),
                        }
                    },
                    Err(e) => Err(e),
                },
                ArrayLength::Key(name) => match spec_ctx_lookup(ctx, name.0@, 0) {
                    Some(LiteralV::Int(n)) => if n < 0 {
                        Err(Error::Malformed)
                    } else if n > bytes.len() - pos {
                        Err(Error::ValueTooLarge)
                    } else {
                        match spec_decode_elems(
                            *field_type,
                            shared,
                            bytes,
                            n as nat,
                            pos,
                            ctx,
                            Seq::empty(),
                            depth,
                        ) {
                            Ok((vals, p2)) => Ok((ValueV::Arr(vals), p2)),
                            Err(e) => Err(e),
                        }
                    },
                    _ => Err(Error::Malformed),
                },
            },
        },
    }
}

/// Decodes exactly `count` array elements.
pub open spec fn spec_decode_elems(
    elem: FieldType,
    shared: Seq<CustomType>,
    bytes: Seq<u8>,
    count: nat,
    pos: int,
    ctx: Seq<(Seq<char>, LiteralV)>,
    acc: Seq<ValueV>,
    depth: nat,
) -> Result<(Seq<ValueV>, int), Error>
    decreases depth, elem, count as int,
{
    if count == 0 {
        Ok((acc, pos))
    } else {
        match spec_decode_field_ty(elem, shared, bytes, pos, ctx, depth) {
            Ok((v, p)) => spec_decode_elems(
                elem,
                shared,
                bytes,
                (count - 1) as nat,
                p,
                ctx,
                acc.push(v),
                depth,
            ),
            Err(e) => Err(e),
        }
    }
}

/// Decodes array elements until the frame is exhausted, consuming exactly
/// the bytes left; a zero-width element here would never progress and is
/// malformed.
pub open spec fn spec_decode_elems_rem(
    elem: FieldType,
    shared: Seq<CustomType>,
    bytes: Seq<u8>,
    pos: int,
    ctx: Seq<(Seq<char>, LiteralV)>,
    acc: Seq<ValueV>,
    depth: nat,
) -> Result<(Seq<ValueV>, int), Error>
    decreases depth, elem, bytes.len() - pos,
{
    if pos < 0 {
        Err(Error::Malformed)
    } else if pos >= bytes.len() {
        Ok((acc, pos))
    } else {
        match spec_decode_field_ty(elem, shared, bytes, pos, ctx, depth) {
            Ok((v, p)) => if !(pos < p <= bytes.len()) {
                Err(Error::Malformed)
            } else {
                spec_decode_elems_rem(elem, shared, bytes, p, ctx, acc.push(v), depth)
            },
            Err(e) => Err(e),
        }
    }
}


/// Exec counterpart of [`spec_bf_width`].
pub fn bf_width(bf: &BitField) -> (r: u64)
    ensures
        r == spec_bf_width(*bf),
{
    match bf {
        BitField::Boolean => 1,
        BitField::I8(n) => *n as u64,
        BitField::U8(n) => *n as u64,
        BitField::I16(n) => *n as u64,
        BitField::U16(n) => *n as u64,
        BitField::I32(n) => *n as u64,
        BitField::U32(n) => *n as u64,
        BitField::I64(n) => *n as u64,
        BitField::U64(n) => *n as u64,
    }
}

/// Exec counterpart of [`spec_bf_signed`].
pub fn bf_signed(bf: &BitField) -> (r: bool)
    ensures
        r == spec_bf_signed(*bf),
{
    match bf {
        BitField::I8(_) => true,
        BitField::I16(_) => true,
        BitField::I32(_) => true,
        BitField::I64(_) => true,
        _ => false,
    }
}

/// Two to the power `k`, for exponents that fit a 64-bit value.
pub fn pow2_u64(k: u64) -> (r: u64)
    requires
        k <= 63,
    ensures
        r == vstd::arithmetic::power2::pow2(k as nat),
{
    proof {
        vstd::arithmetic::power2::lemma2_to64();
        vstd::arithmetic::power2::lemma2_to64_rest();
    }
    let mut r: u64 = 1;
    let mut i: u64 = 0;
    while i < k
        invariant
            i <= k <= 63,
            r == vstd::arithmetic::power2::pow2(i as nat),
        decreases k - i,
    {
        proof {
            vstd::arithmetic::power2::lemma_pow2_strictly_increases(i as nat, 63);
            vstd::arithmetic::power2::lemma2_to64_rest();
            assert(vstd::arithmetic::power2::pow2((i + 1) as nat) == 2 * vstd::arithmetic::power2::pow2(i as nat)) by {
                vstd::arithmetic::power2::lemma_pow2_unfold((i + 1) as nat);
            }
        }
        r = r * 2;
        i = i + 1;
    }
    r
}

/// Reads a big-endian carrier of the given bit width.
pub fn read_carrier(bits: u64, buf: &[u8], pos: usize) -> (r: Result<(u64, usize), Error>)
    ensures
        match r {
            Ok((v, end)) => spec_read_carrier(bits as int, buf@, pos as int) == Ok::<_, Error>(
                (v, end as int),
            ) && pos < end <= buf@.len(),
            Err(e) => spec_read_carrier(bits as int, buf@, pos as int) == Err::<(u64, int), _>(e),
        },
{
    if bits == 8 {
        match read_u8(buf, pos) {
            Ok((v, p)) => Ok((v as u64, p)),
            Err(e) => Err(e),
        }
    } else if bits == 16 {
        match read_u16(buf, pos) {
            Ok((v, p)) => Ok((v as u64, p)),
            Err(e) => Err(e),
        }
    } else if bits == 32 {
        match read_u32(buf, pos) {
            Ok((v, p)) => Ok((v as u64, p)),
            Err(e) => Err(e),
        }
    } else {
        read_u64(buf, pos)
    }
}

/// The summed sub-field width of a bit-packed slot is never negative.
pub proof fn lemma_bf_total_nonneg(fields: Seq<(FieldName, BitField)>)
    ensures
        spec_bf_total(fields) >= 0,
    decreases fields,
{
    if fields.len() > 0 {
        lemma_bf_total_nonneg(fields.drop_first());
    }
}

/// The ghost value of a decoded bit-field list.
pub open spec fn view_bf(out: Seq<(String, i64)>) -> Seq<(Seq<char>, i64)> {
    Seq::new(out.len(), |i: int| (out[i].0@, out[i].1))
}

/// The ghost value of a decoded flag-name list.
pub open spec fn view_strs(out: Seq<String>) -> Seq<Seq<char>> {
    Seq::new(out.len(), |i: int| out[i]@)
}

/// Decodes a bit-packed slot: validates the declared widths, reads the
/// carrier, and takes each sub-field out, first-declared in the most
/// significant bits.
fn decode_bitfield(
    fields: &Vec<(FieldName, BitField)>,
    buf: &[u8],
    pos: usize,
) -> (r: Result<(Value, usize), Error>)
    requires
        pos <= buf@.len(),
    ensures
        match r {
            Ok((v, end)) => ({
                let total = spec_bf_total(fields@);
                &&& !(fields@.len() == 0 || !spec_bf_widths_ok(fields@) || total > 64)
                &&& spec_read_carrier(spec_bf_carrier(total), buf@, pos as int) matches Ok((raw, p))
                &&& v@ == ValueV::BitFieldVal(spec_bf_fields(fields@, raw, spec_bf_carrier(total), 0))
                &&& end == p
                &&& pos <= end <= buf@.len()
            }),
            Err(e) => ({
                let total = spec_bf_total(fields@);
                if fields@.len() == 0 || !spec_bf_widths_ok(fields@) || total > 64 {
                    e == Error::Malformed
                } else {
                    spec_read_carrier(spec_bf_carrier(total), buf@, pos as int) == Err::<
                        (u64, int),
                        _,
                    >(e)
                }
            }),
        },
{
    let n = fields.len();
    if n == 0 {
        return Err(Error::Malformed);
    }
    let mut total: u64 = 0;
    let mut k: usize = 0;
    proof {
        assert(fields@.subrange(0, n as int) =~= fields@);
    }
    while k < n
        invariant
            k <= n,
            n == fields@.len(),
            total <= 64,
            total + spec_bf_total(fields@.subrange(k as int, n as int)) == spec_bf_total(fields@),
            forall|i: int| 0 <= i < k ==> 1 <= spec_bf_width((#[trigger] fields@[i]).1) <= 64,
        decreases n - k,
    {
        proof {
            assert(fields@.subrange(k as int, n as int)[0] == fields@[k as int]);
            assert(fields@.subrange(k as int, n as int).drop_first() =~= fields@.subrange(
                k + 1 as int,
                n as int,
            ));
        }
        let w = bf_width(&fields[k].1);
        if w < 1 || w > 64 {
            return Err(Error::Malformed);
        }
        proof {
            lemma_bf_total_nonneg(fields@.subrange(k + 1 as int, n as int));
        }
        if total + w > 64 {
            return Err(Error::Malformed);
        }
        total = total + w;
        k = k + 1;
    }
    proof {
        assert(fields@.subrange(n as int, n as int) =~= Seq::<(FieldName, BitField)>::empty());
        assert(spec_bf_total(fields@) == total);
    }
    let carrier: u64 = if total <= 8 {
        8
    } else if total <= 16 {
        16
    } else if total <= 32 {
        32
    } else {
        64
    };
    let (raw, p) = match read_carrier(carrier, buf, pos) {
        Ok(x) => x,
        Err(e) => {
            return Err(e);
        },
    };
    let mut out: Vec<(String, i64)> = Vec::new();
    let mut off: u64 = 0;
    let mut k: usize = 0;
    proof {
        assert(fields@.subrange(0, n as int) =~= fields@);
        assert(view_bf(Seq::<(String, i64)>::empty()) + spec_bf_fields(fields@, raw, carrier as int, 0)
            =~= spec_bf_fields(fields@, raw, carrier as int, 0));
        assert(view_bf(out@) =~= view_bf(Seq::<(String, i64)>::empty()));
    }
    while k < n
        invariant
            k <= n,
            n == fields@.len(),
            off + spec_bf_total(fields@.subrange(k as int, n as int)) == total,
            total <= carrier <= 64,
            carrier == spec_bf_carrier(spec_bf_total(fields@)),
            total == spec_bf_total(fields@),
            forall|i: int| 0 <= i < n ==> 1 <= spec_bf_width((#[trigger] fields@[i]).1) <= 64,
            view_bf(out@) + spec_bf_fields(
                fields@.subrange(k as int, n as int),
                raw,
                carrier as int,
                off as int,
            ) == spec_bf_fields(fields@, raw, carrier as int, 0),
        decreases n - k,
    {
        proof {
            assert(fields@.subrange(k as int, n as int)[0] == fields@[k as int]);
            assert(fields@.subrange(k as int, n as int).drop_first() =~= fields@.subrange(
                k + 1 as int,
                n as int,
            ));
            lemma_bf_total_nonneg(fields@.subrange(k + 1 as int, n as int));
            vstd::arithmetic::power2::lemma2_to64();
            vstd::arithmetic::power2::lemma2_to64_rest();
        }
        let pair = &fields[k];
        let w = bf_width(&pair.1);
        let sh = carrier - off - w;
        let val: u64 = if w >= 64 {
            raw
        } else {
            (raw / pow2_u64(sh)) % pow2_u64(w)
        };
        let signed = bf_signed(&pair.1);
        let negative = signed && val >= pow2_u64(w - 1);
        let sval: i64 = if !negative {
            proof {
                if w < 64 {
                    vstd::arithmetic::power2::lemma_pow2_strictly_increases(
                        w as nat,
                        64,
                    );
                }
                if !signed && w == 64 {
                } else {
                    assert(val < vstd::arithmetic::power2::pow2(w as nat));
                }
            }
            if signed || w < 64 {
                val as i64
            } else {
                val as i64
            }
        } else {
            if w >= 64 {
                proof {
                    assert((val as i64) as int == val - 0x1_0000_0000_0000_0000) by (bit_vector)
                        requires
                            val >= 0x8000_0000_0000_0000u64,
                    ;
                }
                val as i64
            } else {
                proof {
                    vstd::arithmetic::power2::lemma_pow2_strictly_increases(w as nat, 64);
                    vstd::arithmetic::power2::lemma_pow2_unfold(w as nat);
                    vstd::arithmetic::power2::lemma_pow2_strictly_increases((w - 1) as nat, 63);
                }
                -((pow2_u64(w) - val) as i64)
            }
        };
        out.push((pair.0.0.clone(), sval));
        proof {
            assert(view_bf(out@) =~= view_bf(out@.drop_last()).push((pair.0.0@, sval)));
            assert(view_bf(out@) + spec_bf_fields(
                fields@.subrange(k + 1 as int, n as int),
                raw,
                carrier as int,
                off + w,
            ) =~= spec_bf_fields(fields@, raw, carrier as int, 0));
        }
        off = off + w;
        k = k + 1;
    }
    proof {
        assert(fields@.subrange(n as int, n as int) =~= Seq::<(FieldName, BitField)>::empty());
        assert(view_bf(out@) + Seq::<(Seq<char>, i64)>::empty() =~= view_bf(out@));
        assert(view_bf(out@) == spec_bf_fields(fields@, raw, carrier as int, 0));
    }
    Ok((Value::BitFieldVal(out), p))
}

/// The raw bit pattern of a decoded integer value.
pub fn raw_bits(v: &Value) -> (r: u64)
    ensures
        r == spec_raw_bits(v@),
{
    match v {
        Value::U8(n) => *n as u64,
        Value::I8(n) => (*n as u8) as u64,
        Value::U16(n) => *n as u64,
        Value::I16(n) => (*n as u16) as u64,
        Value::U32(n) => *n as u64,
        Value::I32(n) => (*n as u32) as u64,
        Value::U64(n) => *n,
        Value::I64(n) => *n as u64,
        Value::VarInt(n) => (*n as u32) as u64,
        Value::VarLong(n) => *n as u64,
        _ => 0,
    }
}

/// Decodes a flag slot: reads the carrier integer and collects the names
/// of the flags whose bits are set, in declaration order.
fn decode_bitflags(
    field_type: &IntegerType,
    flags: &Vec<(u64, FlagName)>,
    buf: &[u8],
    pos: usize,
) -> (r: Result<(Value, usize), Error>)
    ensures
        match r {
            Ok((v, end)) => ({
                &&& spec_decode_integer(*field_type, buf@, pos as int) matches Ok((iv, p))
                &&& v@ == ValueV::Flags(spec_active_flags(flags@, spec_raw_bits(iv)))
                &&& end == p
                &&& pos < end <= buf@.len()
            }),
            Err(e) => spec_decode_integer(*field_type, buf@, pos as int) == Err::<
                (ValueV, int),
                _,
            >(e),
        },
{
    let (iv, p) = match decode_integer(field_type, buf, pos) {
        Ok(x) => x,
        Err(e) => {
            return Err(e);
        },
    };
    let raw = raw_bits(&iv);
    let n = flags.len();
    let mut out: Vec<String> = Vec::new();
    let mut k: usize = 0;
    proof {
        assert(flags@.subrange(0, n as int) =~= flags@);
        assert(view_strs(Seq::<String>::empty()) + spec_active_flags(flags@, raw) =~= spec_active_flags(flags@, raw));
        assert(view_strs(out@) =~= view_strs(Seq::<String>::empty()));
    }
    while k < n
        invariant
            k <= n,
            n == flags@.len(),
            view_strs(out@) + spec_active_flags(flags@.subrange(k as int, n as int), raw)
                == spec_active_flags(flags@, raw),
        decreases n - k,
    {
        proof {
            assert(flags@.subrange(k as int, n as int)[0] == flags@[k as int]);
            assert(flags@.subrange(k as int, n as int).drop_first() =~= flags@.subrange(
                k + 1 as int,
                n as int,
            ));
        }
        let pair = &flags[k];
        if pair.0 & raw == pair.0 {
            out.push(pair.1.0.clone());
            proof {
                assert(view_strs(out@) =~= view_strs(out@.drop_last()).push(pair.1.0@));
                assert(view_strs(out@) + spec_active_flags(
                    flags@.subrange(k + 1 as int, n as int),
                    raw,
                ) =~= spec_active_flags(flags@, raw));
            }
        } else {
            proof {
                assert(view_strs(out@) + spec_active_flags(
                    flags@.subrange(k + 1 as int, n as int),
                    raw,
                ) =~= spec_active_flags(flags@, raw));
            }
        }
        k = k + 1;
    }
    proof {
        assert(flags@.subrange(n as int, n as int) =~= Seq::<(u64, FlagName)>::empty());
        assert(view_strs(out@) + Seq::<Seq<char>>::empty() =~= view_strs(out@));
    }
    Ok((Value::Flags(out), p))
}

/// Exec counterpart of [`spec_decode_count`].
pub fn decode_count(it: &IntegerType, buf: &[u8], pos: usize) -> (r: Result<
    (i64, usize),
    Error,
>)
    ensures
        match r {
            Ok((n, end)) => spec_decode_count(*it, buf@, pos as int) == Ok::<_, Error>(
                (n, end as int),
            ) && pos < end <= buf@.len(),
            Err(e) => spec_decode_count(*it, buf@, pos as int) == Err::<(i64, int), _>(e),
        },
{
    match decode_integer(it, buf, pos) {
        Ok((v, p)) => {
            let n: i64 = match &v {
                Value::U8(n) => *n as i64,
                Value::I8(n) => *n as i64,
                Value::U16(n) => *n as i64,
                Value::I16(n) => *n as i64,
                Value::U32(n) => *n as i64,
                Value::I32(n) => *n as i64,
                Value::U64(n) => *n as i64,
                Value::I64(n) => *n,
                Value::VarInt(n) => *n as i64,
                Value::VarLong(n) => *n,
                _ => 0,
            };
            Ok((n, p))
        },
        Err(e) => Err(e),
    }
}


/// Appending one key to the context appends its ghost value.
pub proof fn lemma_view_ctx_push(ctx: Seq<(String, Literal)>, name: String, lit: Literal)
    ensures
        view_ctx(ctx.push((name, lit))) == view_ctx(ctx).push((name@, lit@)),
{
    assert(view_ctx(ctx.push((name, lit))) =~= view_ctx(ctx).push((name@, lit@)));
}

/// Decodes one payload value of type `t` at `pos`. `ctx` carries the key
/// fields of the enclosing struct; `depth` bounds shared-type resolution.
#[verifier::loop_isolation(false)]
#[verifier::rlimit(60)]
pub fn decode_custom(
    t: &CustomType,
    shared: &Vec<CustomType>,
    buf: &[u8],
    pos: usize,
    ctx: &Vec<(String, Literal)>,
    depth: u64,
) -> (r: Result<(Value, usize), Error>)
    requires
        pos <= buf@.len(),
    ensures
        match r {
            Ok((v, end)) => spec_decode_custom(
                *t,
                shared@,
                buf@,
                pos as int,
                view_ctx(ctx@),
                depth as nat,
            ) == Ok::<_, Error>((v@, end as int)) && pos <= end <= buf@.len(),
            Err(e) => spec_decode_custom(
                *t,
                shared@,
                buf@,
                pos as int,
                view_ctx(ctx@),
                depth as nat,
            ) == Err::<(ValueV, int), _>(e),
        },
    decreases depth, *t, 1int,
{
    match t {
        CustomType::Unit { .. } => Ok((Value::Unit, pos)),
        CustomType::BitField { fields, .. } => decode_bitfield(fields, buf, pos),
        CustomType::BitFlags { field_type, flags, .. } => decode_bitflags(
            field_type,
            flags,
            buf,
            pos,
        ),
        CustomType::Struct { fields, .. } => {
            let n = fields.len();
            let mut my_ctx: Vec<(String, Literal)> = Vec::new();
            let mut out: Vec<(String, Value)> = Vec::new();
            let mut p: usize = pos;
            let mut fi: usize = 0;
            proof {
                assert(fields@.subrange(0, n as int) =~= fields@);
                assert(view_ctx(my_ctx@) =~= Seq::<(Seq<char>, LiteralV)>::empty());
                assert(view_named_values(out@) =~= Seq::<(Seq<char>, ValueV)>::empty());
            }
            while fi < n
                invariant
                    fi <= n,
                    n == fields@.len(),
                    pos <= p <= buf@.len(),
                    spec_decode_fields(
                        fields@,
                        shared@,
                        buf@,
                        pos as int,
                        Seq::empty(),
                        Seq::empty(),
                        depth as nat,
                    ) == spec_decode_fields(
                        fields@.subrange(fi as int, n as int),
                        shared@,
                        buf@,
                        p as int,
                        view_ctx(my_ctx@),
                        view_named_values(out@),
                        depth as nat,
                    ),
                decreases n - fi,
            {
                proof {
                    assert(fields@.subrange(fi as int, n as int)[0] == fields@[fi as int]);
                    assert(fields@.subrange(fi as int, n as int).drop_first() =~= fields@.subrange(
                        fi + 1 as int,
                        n as int,
                    ));
                }
                let pair = &fields[fi];
                match &pair.1 {
                    FieldType::Key(st) => {
                        let (lit, p2) = match decode_selector(st, buf, p) {
                            Ok(x) => x,
                            Err(e) => {
                                return Err(e);
                            },
                        };
                        proof {
                            lemma_view_ctx_push(my_ctx@, pair.0.0, lit);
                        }
                        my_ctx.push((pair.0.0.clone(), lit));
                        p = p2;
                    },
                    FieldType::Constant(_) => {},
                    _ => {
                        let (v, p2) = match decode_field_ty(&pair.1, shared, buf, p, &my_ctx, depth) {
                            Ok(x) => x,
                            Err(e) => {
                                return Err(e);
                            },
                        };
                        proof {
                            crate::value::lemma_view_named_values_push(out@, pair.0.0, v);
                        }
                        out.push((pair.0.0.clone(), v));
                        p = p2;
                    },
                }
                fi = fi + 1;
            }
            proof {
                assert(fields@.subrange(n as int, n as int) =~= Seq::<(FieldName, FieldType)>::empty());
            }
            Ok((Value::StructVal(out), p))
        },
        CustomType::Enum { variant, variants, .. } => {
            let (key, p) = match variant {
                Selector::Prefixed(st) => {
                    match decode_selector(st, buf, pos) {
                        Ok(x) => x,
                        Err(e) => {
                            return Err(e);
                        },
                    }
                },
                Selector::Sibling(name) => {
                    match ctx_lookup(ctx, &name.0) {
                        Some(lit) => (lit.dup(), pos),
                        None => {
                            return Err(Error::Malformed);
                        },
                    }
                },
            };
            let n = variants.len();
            let mut vi: usize = 0;
            proof {
                assert(variants@.subrange(0, n as int) =~= variants@);
            }
            while vi < n
                invariant
                    vi <= n,
                    n == variants@.len(),
                    pos <= p <= buf@.len(),
                    spec_decode_variants(
                        variants@,
                        key@,
                        shared@,
                        buf@,
                        p as int,
                        view_ctx(ctx@),
                        depth as nat,
                    ) == spec_decode_variants(
                        variants@.subrange(vi as int, n as int),
                        key@,
                        shared@,
                        buf@,
                        p as int,
                        view_ctx(ctx@),
                        depth as nat,
                    ),
                decreases n - vi,
            {
                proof {
                    assert(variants@.subrange(vi as int, n as int)[0] == variants@[vi as int]);
                    assert(variants@.subrange(vi as int, n as int).drop_first() =~= variants@.subrange(
                        vi + 1 as int,
                        n as int,
                    ));
                }
                let pair = &variants[vi];
                if pair.0.key_eq(&key) {
                    match decode_custom(&pair.1, shared, buf, p, ctx, depth) {
                        Ok((v, p2)) => {
                            return Ok((Value::EnumVal(key, Box::new(v)), p2));
                        },
                        Err(e) => {
                            return Err(e);
                        },
                    }
                }
                vi = vi + 1;
            }
            proof {
                assert(variants@.subrange(n as int, n as int) =~= Seq::<(Literal, CustomType)>::empty());
            }
            Err(Error::Malformed)
        },
    }
}

/// Decodes one field of the given type at `pos`; key and constant types
/// are malformed anywhere but as direct struct fields.
#[verifier::loop_isolation(false)]
#[verifier::rlimit(100)]
pub fn decode_field_ty(
    ft: &FieldType,
    shared: &Vec<CustomType>,
    buf: &[u8],
    pos: usize,
    ctx: &Vec<(String, Literal)>,
    depth: u64,
) -> (r: Result<(Value, usize), Error>)
    requires
        pos <= buf@.len(),
    ensures
        match r {
            Ok((v, end)) => spec_decode_field_ty(
                *ft,
                shared@,
                buf@,
                pos as int,
                view_ctx(ctx@),
                depth as nat,
            ) == Ok::<_, Error>((v@, end as int)) && pos <= end <= buf@.len(),
            Err(e) => spec_decode_field_ty(
                *ft,
                shared@,
                buf@,
                pos as int,
                view_ctx(ctx@),
                depth as nat,
            ) == Err::<(ValueV, int), _>(e),
        },
    decreases depth, *ft, 1int,
{
    match ft {
        FieldType::Integer(it) => match decode_integer(it, buf, pos) {
            Ok(x) => Ok(x),
            Err(e) => Err(e),
        },
        FieldType::Float(w) => match w {
            crate::custom_type::FloatType::F32 => match read_u32(buf, pos) {
                Ok((v, p)) => Ok((Value::F32Bits(v), p)),
                Err(e) => Err(e),
            },
            crate::custom_type::FloatType::F64 => match read_u64(buf, pos) {
                Ok((v, p)) => Ok((Value::F64Bits(v), p)),
                Err(e) => Err(e),
            },
        },
        FieldType::CustomType(ct) => decode_custom(ct, shared, buf, pos, ctx, depth),
        FieldType::Key(_) => Err(Error::Malformed),
        FieldType::Constant(_) => Err(Error::Malformed),
        FieldType::Primitive(pt) => match pt {
            PrimitiveType::Boolean => match read_bool(buf, pos) {
                Ok((v, p)) => Ok((Value::Bool(v), p)),
                Err(e) => Err(e),
            },
            PrimitiveType::Uuid => match read_uuid(buf, pos) {
                Ok((v, p)) => Ok((Value::UuidVal(v), p)),
                Err(e) => Err(e),
            },
            PrimitiveType::Str(max) => match read_string(buf, pos, *max) {
                Ok((v, p)) => Ok((Value::Str(v), p)),
                Err(e) => Err(e),
            },
            PrimitiveType::Nbt => match Nbt::try_read(buf, pos) {
                Ok((v, p)) => Ok((Value::NbtBlob(v.raw), p)),
                Err(e) => Err(e),
            },
            PrimitiveType::Optional(inner) => {
                let (present, p) = match read_bool(buf, pos) {
                    Ok(x) => x,
                    Err(e) => {
                        return Err(e);
                    },
                };
                if present {
                    match decode_field_ty(&**inner, shared, buf, p, ctx, depth) {
                        Ok((v, p2)) => Ok((Value::OptVal(Some(Box::new(v))), p2)),
                        Err(e) => Err(e),
                    }
                } else {
                    Ok((Value::OptVal(None), p))
                }
            },
            PrimitiveType::Shared(name) => {
                if depth == 0 {
                    return Err(Error::Malformed);
                }
                match find_shared(shared, &name.0) {
                    Some(def) => decode_custom(def, shared, buf, pos, ctx, depth - 1),
                    None => Err(Error::Malformed),
                }
            },
            PrimitiveType::Array { length, field_type } => decode_array(
                length,
                field_type,
                shared,
                buf,
                pos,
                ctx,
                depth,
            )
        },
    }
}

/// Decodes exactly `count` array elements of type `elem` starting at `pos`.
#[verifier::loop_isolation(false)]
fn decode_elems_loop(
    elem: &Box<FieldType>,
    shared: &Vec<CustomType>,
    buf: &[u8],
    count: u64,
    pos: usize,
    ctx: &Vec<(String, Literal)>,
    depth: u64,
) -> (r: Result<(Vec<Value>, usize), Error>)
    requires
        pos <= buf@.len(),
    ensures
        match r {
            Ok((items, end)) => spec_decode_elems(
                **elem,
                shared@,
                buf@,
                count as nat,
                pos as int,
                view_ctx(ctx@),
                Seq::empty(),
                depth as nat,
            ) == Ok::<_, Error>((view_values(items@), end as int)) && pos <= end <= buf@.len(),
            Err(e) => spec_decode_elems(
                **elem,
                shared@,
                buf@,
                count as nat,
                pos as int,
                view_ctx(ctx@),
                Seq::empty(),
                depth as nat,
            ) == Err::<(Seq<ValueV>, int), _>(e),
        },
    decreases depth, **elem, 2int,
{
    let mut items: Vec<Value> = Vec::new();
    let mut p: usize = pos;
    let mut remaining: u64 = count;
    proof {
        assert(view_values(items@) =~= Seq::<ValueV>::empty());
    }
    while remaining > 0
        invariant
            pos <= p <= buf@.len(),
            remaining <= count,
            spec_decode_elems(
                **elem,
                shared@,
                buf@,
                count as nat,
                pos as int,
                view_ctx(ctx@),
                Seq::empty(),
                depth as nat,
            ) == spec_decode_elems(
                **elem,
                shared@,
                buf@,
                remaining as nat,
                p as int,
                view_ctx(ctx@),
                view_values(items@),
                depth as nat,
            ),
        decreases remaining,
    {
        let (v, p2) = match decode_field_ty(&**elem, shared, buf, p, ctx, depth) {
            Ok(x) => x,
            Err(e) => {
                return Err(e);
            },
        };
        proof {
            crate::value::lemma_view_values_push(items@, v);
        }
        items.push(v);
        p = p2;
        remaining = remaining - 1;
    }
    Ok((items, p))
}


/// Decodes one array field: resolves the element count by the declared
/// strategy, then reads that many elements (or all remaining frame bytes).
#[verifier::loop_isolation(false)]
#[verifier::rlimit(100)]
fn decode_array(
    length: &ArrayLength,
    field_type: &Box<FieldType>,
    shared: &Vec<CustomType>,
    buf: &[u8],
    pos: usize,
    ctx: &Vec<(String, Literal)>,
    depth: u64,
) -> (r: Result<(Value, usize), Error>)
    requires
        pos <= buf@.len(),
    ensures
        ({
            let ft = FieldType::Primitive(
                PrimitiveType::Array { length: *length, field_type: *field_type },
            );
            match r {
                Ok((v, end)) => spec_decode_field_ty(
                    ft,
                    shared@,
                    buf@,
                    pos as int,
                    view_ctx(ctx@),
                    depth as nat,
                ) == Ok::<_, Error>((v@, end as int)) && pos <= end <= buf@.len(),
                Err(e) => spec_decode_field_ty(
                    ft,
                    shared@,
                    buf@,
                    pos as int,
                    view_ctx(ctx@),
                    depth as nat,
                ) == Err::<(ValueV, int), _>(e),
            }
        }),
    decreases depth, **field_type, 3int,
{
                match length {
            ArrayLength::RemainingLength => {
        let mut items: Vec<Value> = Vec::new();
        let mut p: usize = pos;
        proof {
            assert(view_values(items@) =~= Seq::<ValueV>::empty());
        }
        while p < buf.len()
            invariant
                pos <= p <= buf@.len(),
                spec_decode_elems_rem(
                    **field_type,
                    shared@,
                    buf@,
                    pos as int,
                    view_ctx(ctx@),
                    Seq::empty(),
                    depth as nat,
                ) == spec_decode_elems_rem(
                    **field_type,
                    shared@,
                    buf@,
                    p as int,
                    view_ctx(ctx@),
                    view_values(items@),
                    depth as nat,
                ),
            decreases buf@.len() - p,
        {
            let (v, p2) = match decode_field_ty(&**field_type, shared, buf, p, ctx, depth) {
                Ok(x) => x,
                Err(e) => {
                    return Err(e);
                },
            };
            if p2 <= p {
                return Err(Error::Malformed);
            }
            proof {
                crate::value::lemma_view_values_push(items@, v);
            }
            items.push(v);
            p = p2;
        }
        Ok((Value::Arr(items), p))
            },
            ArrayLength::FixedLength(cnt) => {
        if *cnt > (buf.len() - pos) as u64 {
            return Err(Error::ValueTooLarge);
        }
        match decode_elems_loop(field_type, shared, buf, *cnt, pos, ctx, depth) {
            Ok((items, p)) => Ok((Value::Arr(items), p)),
            Err(e) => Err(e),
        }
            },
            ArrayLength::Prefixed(it) => {
        let (cnt, p) = match decode_count(it, buf, pos) {
            Ok(x) => x,
            Err(e) => {
                return Err(e);
            },
        };
        if cnt < 0 {
            return Err(Error::Malformed);
        }
        if cnt as u64 > (buf.len() - p) as u64 {
            return Err(Error::ValueTooLarge);
        }
        match decode_elems_loop(field_type, shared, buf, cnt as u64, p, ctx, depth) {
            Ok((items, p2)) => Ok((Value::Arr(items), p2)),
            Err(e) => Err(e),
        }
            },
            ArrayLength::Key(name) => {
        let cnt: i64 = match ctx_lookup(ctx, &name.0) {
            Some(Literal::Int(n)) => *n,
            Some(_) => {
                return Err(Error::Malformed);
            },
            None => {
                return Err(Error::Malformed);
            },
        };
        if cnt < 0 {
            return Err(Error::Malformed);
        }
        if cnt as u64 > (buf.len() - pos) as u64 {
            return Err(Error::ValueTooLarge);
        }
        match decode_elems_loop(field_type, shared, buf, cnt as u64, pos, ctx, depth) {
            Ok((items, p2)) => Ok((Value::Arr(items), p2)),
            Err(e) => Err(e),
        }
            },
        }
}


/// The wire bytes of one integer field; the value must carry the declared
/// kind.
pub open spec fn spec_encode_integer(it: IntegerType, v: ValueV) -> Result<Seq<u8>, Error> {
    match (it, v) {
        (IntegerType::U8, ValueV::U8(n)) => Ok(seq![n]),
        (IntegerType::I8, ValueV::I8(n)) => Ok(seq![n as u8]),
        (IntegerType::U16, ValueV::U16(n)) => Ok(crate::types::u16_be_bytes(n)),
        (IntegerType::I16, ValueV::I16(n)) => Ok(crate::types::u16_be_bytes(n as u16)),
        (IntegerType::U32, ValueV::U32(n)) => Ok(crate::types::u32_be_bytes(n)),
        (IntegerType::I32, ValueV::I32(n)) => Ok(crate::types::u32_be_bytes(n as u32)),
        (IntegerType::U64, ValueV::U64(n)) => Ok(crate::types::u64_be_bytes(n)),
        (IntegerType::I64, ValueV::I64(n)) => Ok(crate::types::u64_be_bytes(n as u64)),
        (IntegerType::VarInt, ValueV::VarInt(n)) => Ok(crate::types::var_u32_bytes(n as u32)),
        (IntegerType::VarLong, ValueV::VarLong(n)) => Ok(crate::types::var_u64_bytes(n as u64)),
        _ => Err(Error::Malformed),
    }
}

/// The wire bytes of one selector-typed literal; the literal must carry
/// the declared kind and fit its range.
pub open spec fn spec_encode_literal(st: SelectorType, lit: LiteralV) -> Result<Seq<u8>, Error> {
    match (st, lit) {
        (SelectorType::Boolean, LiteralV::Bool(b)) => Ok(
            seq![if b {
                1u8
            } else {
                0u8
            }],
        ),
        (SelectorType::Str(max), LiteralV::Str(sv)) => crate::types::spec_write_string(
            sv,
            max as int,
        ),
        (SelectorType::Integer(it), LiteralV::Int(n)) => match it {
            IntegerType::U8 => if 0 <= n <= 0xFF {
                Ok(seq![n as u8])
            } else {
                Err(Error::ValueTooLarge)
            },
            IntegerType::I8 => if -0x80 <= n <= 0x7F {
                Ok(seq![n as u8])
            } else {
                Err(Error::ValueTooLarge)
            },
            IntegerType::U16 => if 0 <= n <= 0xFFFF {
                Ok(crate::types::u16_be_bytes(n as u16))
            } else {
                Err(Error::ValueTooLarge)
            },
            IntegerType::I16 => if -0x8000 <= n <= 0x7FFF {
                Ok(crate::types::u16_be_bytes(n as u16))
            } else {
                Err(Error::ValueTooLarge)
            },
            IntegerType::U32 => if 0 <= n <= 0xFFFF_FFFF {
                Ok(crate::types::u32_be_bytes(n as u32))
            } else {
                Err(Error::ValueTooLarge)
            },
            IntegerType::I32 => if -0x8000_0000 <= n <= 0x7FFF_FFFF {
                Ok(crate::types::u32_be_bytes(n as u32))
            } else {
                Err(Error::ValueTooLarge)
            },
            IntegerType::U64 => Ok(crate::types::u64_be_bytes(n as u64)),
            IntegerType::I64 => Ok(crate::types::u64_be_bytes(n as u64)),
            IntegerType::VarInt => if -0x8000_0000 <= n <= 0x7FFF_FFFF {
                Ok(crate::types::var_u32_bytes(n as u32))
            } else {
                Err(Error::ValueTooLarge)
            },
            IntegerType::VarLong => Ok(crate::types::var_u64_bytes(n as u64)),
        },
        _ => Err(Error::Malformed),
    }
}

/// The wire bytes of a raw bit pattern written through an integer kind.
pub open spec fn spec_encode_raw(it: IntegerType, raw: u64) -> Seq<u8> {
    match it {
        IntegerType::U8 => seq![raw as u8],
        IntegerType::I8 => seq![raw as u8],
        IntegerType::U16 => crate::types::u16_be_bytes(raw as u16),
        IntegerType::I16 => crate::types::u16_be_bytes(raw as u16),
        IntegerType::U32 => crate::types::u32_be_bytes(raw as u32),
        IntegerType::I32 => crate::types::u32_be_bytes(raw as u32),
        IntegerType::U64 => crate::types::u64_be_bytes(raw),
        IntegerType::I64 => crate::types::u64_be_bytes(raw),
        IntegerType::VarInt => crate::types::var_u32_bytes(raw as u32),
        IntegerType::VarLong => crate::types::var_u64_bytes(raw),
    }
}

/// The carrier bytes of a bit-packed slot, big-endian.
pub open spec fn spec_carrier_bytes(bits: int, raw: u64) -> Seq<u8> {
    if bits == 8 {
        seq![raw as u8]
    } else if bits == 16 {
        crate::types::u16_be_bytes(raw as u16)
    } else if bits == 32 {
        crate::types::u32_be_bytes(raw as u32)
    } else {
        crate::types::u64_be_bytes(raw)
    }
}

/// The key literal that a key field of this name must carry, derived from
/// the sibling that uses it: the element count of an array whose length is
/// keyed by the name, or the discriminant of an enum whose selector is.
pub open spec fn spec_derive_key(
    fields: Seq<(FieldName, FieldType)>,
    vals: Seq<(Seq<char>, ValueV)>,
    name: Seq<char>,
) -> Result<LiteralV, Error>
    decreases fields,
{
    if fields.len() == 0 {
        Err(Error::Malformed)
    } else {
        match fields[0].1 {
            FieldType::Key(_) => spec_derive_key(fields.drop_first(), vals, name),
            FieldType::Constant(_) => spec_derive_key(fields.drop_first(), vals, name),
            FieldType::Primitive(
                PrimitiveType::Array { length: ArrayLength::Key(n2), .. },
            ) => if n2.0@ == name {
                if vals.len() > 0 {
                    match vals[0].1 {
                        ValueV::Arr(items) => if items.len() <= 0x7FFF_FFFF_FFFF_FFFF {
                            Ok(LiteralV::Int(items.len() as i64))
                        } else {
                            Err(Error::ValueTooLarge)
                        },
                        _ => Err(Error::Malformed),
                    }
                } else {
                    Err(Error::Malformed)
                }
            } else if vals.len() > 0 {
                spec_derive_key(fields.drop_first(), vals.drop_first(), name)
            } else {
                Err(Error::Malformed)
            },
            FieldType::CustomType(
                CustomType::Enum { variant: Selector::Sibling(n2), .. },
            ) => if n2.0@ == name {
                if vals.len() > 0 {
                    match vals[0].1 {
                        ValueV::EnumVal(k, _) => Ok(k),
                        _ => Err(Error::Malformed),
                    }
                } else {
                    Err(Error::Malformed)
                }
            } else if vals.len() > 0 {
                spec_derive_key(fields.drop_first(), vals.drop_first(), name)
            } else {
                Err(Error::Malformed)
            },
            _ => if vals.len() > 0 {
                spec_derive_key(fields.drop_first(), vals.drop_first(), name)
            } else {
                Err(Error::Malformed)
            },
        }
    }
}

/// The carrier value of a bit-packed slot rebuilt from its sub-field
/// values, each checked against its declared width and signedness.
pub open spec fn spec_bf_build(
    fields: Seq<(FieldName, BitField)>,
    vals: Seq<(Seq<char>, i64)>,
    carrier: int,
    off: int,
) -> Result<int, Error>
    decreases fields,
{
    if fields.len() == 0 {
        if vals.len() == 0 {
            Ok(0)
        } else {
            Err(Error::Malformed)
        }
    } else if vals.len() == 0 {
        Err(Error::Malformed)
    } else if vals[0].0 != fields[0].0.0@ {
        Err(Error::Malformed)
    } else {
        let w = spec_bf_width(fields[0].1);
        let sval = vals[0].1 as int;
        let in_range = if spec_bf_signed(fields[0].1) {
            -(vstd::arithmetic::power2::pow2((w - 1) as nat) as int) <= sval
                < vstd::arithmetic::power2::pow2((w - 1) as nat)
        } else if w == 64 {
            true
        } else {
            0 <= sval < vstd::arithmetic::power2::pow2(w as nat)
        };
        if !in_range {
            Err(Error::ValueTooLarge)
        } else {
            let uval = if sval < 0 {
                sval + vstd::arithmetic::power2::pow2(w as nat)
            } else {
                sval
            };
            match spec_bf_build(fields.drop_first(), vals.drop_first(), carrier, off + w) {
                Ok(rest) => Ok(
                    uval * vstd::arithmetic::power2::pow2((carrier - off - w) as nat) + rest,
                ),
                Err(e) => Err(e),
            }
        }
    }
}

/// The bit value stored under this flag name, taking the earliest entry.
pub open spec fn spec_find_flag(flags: Seq<(u64, FlagName)>, name: Seq<char>) -> Option<u64>
    decreases flags,
{
    if flags.len() == 0 {
        None
    } else if flags[0].1.0@ == name {
        Some(flags[0].0)
    } else {
        spec_find_flag(flags.drop_first(), name)
    }
}

/// The carrier value of a flag slot: the bitwise or of the named flags'
/// bit values; a name the schema does not declare cannot be encoded.
pub open spec fn spec_flags_build(names: Seq<Seq<char>>, flags: Seq<(u64, FlagName)>) -> Result<
    u64,
    Error,
>
    decreases names,
{
    if names.len() == 0 {
        Ok(0)
    } else {
        match spec_find_flag(flags, names[0]) {
            Some(bit) => match spec_flags_build(names.drop_first(), flags) {
                Ok(rest) => Ok(bit | rest),
                Err(e) => Err(e),
            },
            None => Err(Error::Malformed),
        }
    }
}

/// The wire bytes of a payload value of type `t`: the exact inverse layout
/// of [`spec_decode_custom`], with every key field recomputed from the
/// sibling it drives.
pub open spec fn spec_encode_custom(
    t: CustomType,
    shared: Seq<CustomType>,
    v: ValueV,
    depth: nat,
) -> Result<Seq<u8>, Error>
    decreases depth, t, 0int,
{
    match t {
        CustomType::Unit { .. } => match v {
            ValueV::Unit => Ok(Seq::empty()),
            _ => Err(Error::Malformed),
        },
        CustomType::Struct { fields, .. } => match v {
            ValueV::StructVal(vals) => spec_encode_fields(fields@, shared, vals, depth),
            _ => Err(Error::Malformed),
        },
        CustomType::Enum { variant, variants, .. } => match v {
            ValueV::EnumVal(k, payload) => match variant {
                Selector::Prefixed(st) => match spec_encode_literal(st, k) {
                    Ok(w) => match spec_encode_variants(variants@, k, *payload, shared, depth) {
                        Ok(w2) => Ok(w + w2),
                        Err(e) => Err(e),
                    },
                    Err(e) => Err(e),
                },
                Selector::Sibling(_) => spec_encode_variants(variants@, k, *payload, shared, depth),
            },
            _ => Err(Error::Malformed),
        },
        CustomType::BitField { fields, .. } => match v {
            ValueV::BitFieldVal(vals) => {
                let total = spec_bf_total(fields@);
                if fields@.len() == 0 || !spec_bf_widths_ok(fields@) || total > 64 {
                    Err(Error::Malformed)
                } else {
                    let carrier = spec_bf_carrier(total);
                    match spec_bf_build(fields@, vals, carrier, 0) {
                        Ok(raw) => Ok(spec_carrier_bytes(carrier, raw as u64)),
                        Err(e) => Err(e),
                    }
                }
            },
            _ => Err(Error::Malformed),
        },
        CustomType::BitFlags { field_type, flags, .. } => match v {
            ValueV::Flags(names) => match spec_flags_build(names, flags@) {
                Ok(raw) => Ok(spec_encode_raw(field_type, raw)),
                Err(e) => Err(e),
            },
            _ => Err(Error::Malformed),
        },
    }
}

/// Encodes the matched variant's payload; the value's key must name a
/// declared variant.
pub open spec fn spec_encode_variants(
    variants: Seq<(Literal, CustomType)>,
    key: LiteralV,
    payload: ValueV,
    shared: Seq<CustomType>,
    depth: nat,
) -> Result<Seq<u8>, Error>
    decreases depth, variants, 0int,
{
    if variants.len() == 0 {
        Err(Error::Malformed)
    } else if variants[0].0@ == key {
        spec_encode_custom(variants[0].1, shared, payload, depth)
    } else {
        spec_encode_variants(variants.drop_first(), key, payload, shared, depth)
    }
}

/// Encodes a struct's fields in declaration order against its non-key
/// values: a key field's literal is derived from the sibling that uses it,
/// a constant field writes nothing, every other field consumes one value,
/// which must carry the declared name; leftover values are an error.
pub open spec fn spec_encode_fields(
    fields: Seq<(FieldName, FieldType)>,
    shared: Seq<CustomType>,
    vals: Seq<(Seq<char>, ValueV)>,
    depth: nat,
) -> Result<Seq<u8>, Error>
    decreases depth, fields, 0int,
{
    if fields.len() == 0 {
        if vals.len() == 0 {
            Ok(Seq::empty())
        } else {
            Err(Error::Malformed)
        }
    } else {
        match fields[0].1 {
            FieldType::Key(st) => match spec_derive_key(
                fields.drop_first(),
                vals,
                fields[0].0.0@,
            ) {
                Ok(lit) => match spec_encode_literal(st, lit) {
                    Ok(w) => match spec_encode_fields(fields.drop_first(), shared, vals, depth) {
                        Ok(w2) => Ok(w + w2),
                        Err(e) => Err(e),
                    },
                    Err(e) => Err(e),
                },
                Err(e) => Err(e),
            },
            FieldType::Constant(_) => spec_encode_fields(fields.drop_first(), shared, vals, depth),
            _ => if vals.len() == 0 {
                Err(Error::Malformed)
            } else if vals[0].0 != fields[0].0.0@ {
                Err(Error::Malformed)
            } else {
                match spec_encode_field_ty(fields[0].1, shared, vals[0].1, depth) {
                    Ok(w) => match spec_encode_fields(
                        fields.drop_first(),
                        shared,
                        vals.drop_first(),
                        depth,
                    ) {
                        Ok(w2) => Ok(w + w2),
                        Err(e) => Err(e),
                    },
                    Err(e) => Err(e),
                }
            },
        }
    }
}

/// The wire bytes of one field value of the given type.
pub open spec fn spec_encode_field_ty(
    ft: FieldType,
    shared: Seq<CustomType>,
    v: ValueV,
    depth: nat,
) -> Result<Seq<u8>, Error>
    decreases depth, ft, 0int,
{
    match ft {
        FieldType::Integer(it) => spec_encode_integer(it, v),
        FieldType::Float(w) => match (w, v) {
            (crate::custom_type::FloatType::F32, ValueV::F32Bits(b)) => Ok(
                crate::types::u32_be_bytes(b),
            ),
            (crate::custom_type::FloatType::F64, ValueV::F64Bits(b)) => Ok(
                crate::types::u64_be_bytes(b),
            ),
            _ => Err(Error::Malformed),
        },
        FieldType::CustomType(ct) => spec_encode_custom(ct, shared, v, depth),
        FieldType::Key(_) => Err(Error::Malformed),
        FieldType::Constant(_) => Err(Error::Malformed),
        FieldType::Primitive(pt) => match pt {
            PrimitiveType::Boolean => match v {
                ValueV::Bool(b) => Ok(
                    seq![if b {
                        1u8
                    } else {
                        0u8
                    }],
                ),
                _ => Err(Error::Malformed),
            },
            PrimitiveType::Uuid => match v {
                ValueV::UuidVal(u) => Ok(crate::types::uuid_bytes(u)),
                _ => Err(Error::Malformed),
            },
            PrimitiveType::Str(max) => match v {
                ValueV::Str(sv) => crate::types::spec_write_string(sv, max as int),
                _ => Err(Error::Malformed),
            },
            PrimitiveType::Nbt => match v {
                ValueV::NbtBlob(b) => Ok(b),
                _ => Err(Error::Malformed),
            },
            PrimitiveType::Optional(inner) => match v {
                ValueV::OptVal(o) => match o {
                    None => Ok(seq![0u8]),
                    Some(b) => match spec_encode_field_ty(*inner, shared, *b, depth) {
                        Ok(w) => Ok(seq![1u8] + w),
                        Err(e) => Err(e),
                    },
                },
                _ => Err(Error::Malformed),
            },
            PrimitiveType::Shared(name) => if depth == 0 {
                Err(Error::Malformed)
            } else {
                match spec_find_shared(shared, name.0@, 0) {
                    Some(i) => spec_encode_custom(shared[i], shared, v, (depth - 1) as nat),
                    None => Err(Error::Malformed),
                }
            },
            PrimitiveType::Array { length, field_type } => match v {
                ValueV::Arr(items) => {
                    let prefix = match length {
                        ArrayLength::RemainingLength => Ok(Seq::<u8>::empty()),
                        ArrayLength::Key(_) => Ok(Seq::<u8>::empty()),
                        ArrayLength::FixedLength(n) => if items.len() == n {
                            Ok(Seq::<u8>::empty())
                        } else {
                            Err(Error::Malformed)
                        },
                        ArrayLength::Prefixed(it) => if items.len() <= 0x7FFF_FFFF_FFFF_FFFF {
                            spec_encode_literal(
                                SelectorType::Integer(it),
                                LiteralV::Int(items.len() as i64),
                            )
                        } else {
                            Err(Error::ValueTooLarge)
                        },
                    };
                    match prefix {
                        Ok(w) => match spec_encode_elems(*field_type, shared, items, depth) {
                            Ok(w2) => Ok(w + w2),
                            Err(e) => Err(e),
                        },
                        Err(e) => Err(e),
                    }
                },
                _ => Err(Error::Malformed),
            },
        },
    }
}

/// The concatenated wire bytes of an array's elements.
pub open spec fn spec_encode_elems(
    elem: FieldType,
    shared: Seq<CustomType>,
    items: Seq<ValueV>,
    depth: nat,
) -> Result<Seq<u8>, Error>
    decreases depth, elem, items.len() as int,
{
    if items.len() == 0 {
        Ok(Seq::empty())
    } else {
        match spec_encode_field_ty(elem, shared, items[0], depth) {
            Ok(w) => match spec_encode_elems(elem, shared, items.drop_first(), depth) {
                Ok(w2) => Ok(w + w2),
                Err(e) => Err(e),
            },
            Err(e) => Err(e),
        }
    }
}


/// Encodes one integer field.
pub fn encode_integer(it: &IntegerType, v: &Value) -> (r: Result<Vec<u8>, Error>)
    ensures
        match r {
            Ok(w) => spec_encode_integer(*it, v@) == Ok::<_, Error>(w@),
            Err(e) => spec_encode_integer(*it, v@) == Err::<Seq<u8>, _>(e),
        },
{
    let mut out: Vec<u8> = Vec::new();
    match (it, v) {
        (IntegerType::U8, Value::U8(n)) => crate::types::write_u8(&mut out, *n),
        (IntegerType::I8, Value::I8(n)) => crate::types::write_u8(&mut out, *n as u8),
        (IntegerType::U16, Value::U16(n)) => crate::types::write_u16(&mut out, *n),
        (IntegerType::I16, Value::I16(n)) => crate::types::write_u16(&mut out, *n as u16),
        (IntegerType::U32, Value::U32(n)) => crate::types::write_u32(&mut out, *n),
        (IntegerType::I32, Value::I32(n)) => crate::types::write_u32(&mut out, *n as u32),
        (IntegerType::U64, Value::U64(n)) => crate::types::write_u64(&mut out, *n),
        (IntegerType::I64, Value::I64(n)) => crate::types::write_u64(&mut out, *n as u64),
        (IntegerType::VarInt, Value::VarInt(n)) => {
            crate::types::write_var_int(&mut out, *n);
        },
        (IntegerType::VarLong, Value::VarLong(n)) => {
            crate::types::write_var_long(&mut out, *n);
        },
        _ => {
            return Err(Error::Malformed);
        },
    }
    proof {
        assert(Seq::<u8>::empty() + out@ =~= out@);
    }
    Ok(out)
}

/// Encodes one selector-typed literal, checking it fits the declared kind.
pub fn encode_literal(st: &SelectorType, lit: &Literal) -> (r: Result<Vec<u8>, Error>)
    ensures
        match r {
            Ok(w) => spec_encode_literal(*st, lit@) == Ok::<_, Error>(w@),
            Err(e) => spec_encode_literal(*st, lit@) == Err::<Seq<u8>, _>(e),
        },
{
    let mut out: Vec<u8> = Vec::new();
    match (st, lit) {
        (SelectorType::Boolean, Literal::Bool(b)) => {
            crate::types::write_bool(&mut out, *b);
        },
        (SelectorType::Str(max), Literal::Str(sv)) => {
            match crate::types::write_string(&mut out, sv, *max) {
                Ok(_) => {},
                Err(e) => {
                    return Err(e);
                },
            }
        },
        (SelectorType::Integer(it), Literal::Int(n)) => {
            match it {
                IntegerType::U8 => {
                    if !(0 <= *n && *n <= 0xFF) {
                        return Err(Error::ValueTooLarge);
                    }
                    crate::types::write_u8(&mut out, *n as u8);
                },
                IntegerType::I8 => {
                    if !(-0x80 <= *n && *n <= 0x7F) {
                        return Err(Error::ValueTooLarge);
                    }
                    crate::types::write_u8(&mut out, *n as u8);
                },
                IntegerType::U16 => {
                    if !(0 <= *n && *n <= 0xFFFF) {
                        return Err(Error::ValueTooLarge);
                    }
                    crate::types::write_u16(&mut out, *n as u16);
                },
                IntegerType::I16 => {
                    if !(-0x8000 <= *n && *n <= 0x7FFF) {
                        return Err(Error::ValueTooLarge);
                    }
                    crate::types::write_u16(&mut out, *n as u16);
                },
                IntegerType::U32 => {
                    if !(0 <= *n && *n <= 0xFFFF_FFFF) {
                        return Err(Error::ValueTooLarge);
                    }
                    crate::types::write_u32(&mut out, *n as u32);
                },
                IntegerType::I32 => {
                    if !(-0x8000_0000 <= *n && *n <= 0x7FFF_FFFF) {
                        return Err(Error::ValueTooLarge);
                    }
                    crate::types::write_u32(&mut out, *n as u32);
                },
                IntegerType::U64 => {
                    crate::types::write_u64(&mut out, *n as u64);
                },
                IntegerType::I64 => {
                    crate::types::write_u64(&mut out, *n as u64);
                },
                IntegerType::VarInt => {
                    if !(-0x8000_0000 <= *n && *n <= 0x7FFF_FFFF) {
                        return Err(Error::ValueTooLarge);
                    }
                    proof {
                        assert((*n as i32) as u32 == *n as u32) by (bit_vector)
                            requires
                                -0x8000_0000 <= *n <= 0x7FFF_FFFF,
                        ;
                    }
                    crate::types::write_var_int(&mut out, *n as i32);
                },
                IntegerType::VarLong => {
                    crate::types::write_var_long(&mut out, *n);
                },
            }
        },
        _ => {
            return Err(Error::Malformed);
        },
    }
    proof {
        assert(Seq::<u8>::empty() + out@ =~= out@);
    }
    Ok(out)
}

/// Writes a raw bit pattern through an integer kind.
pub fn encode_raw(it: &IntegerType, raw: u64) -> (r: Vec<u8>)
    ensures
        r@ == spec_encode_raw(*it, raw),
{
    let mut out: Vec<u8> = Vec::new();
    match it {
        IntegerType::U8 => crate::types::write_u8(&mut out, raw as u8),
        IntegerType::I8 => crate::types::write_u8(&mut out, raw as u8),
        IntegerType::U16 => crate::types::write_u16(&mut out, raw as u16),
        IntegerType::I16 => crate::types::write_u16(&mut out, raw as u16),
        IntegerType::U32 => crate::types::write_u32(&mut out, raw as u32),
        IntegerType::I32 => crate::types::write_u32(&mut out, raw as u32),
        IntegerType::U64 => crate::types::write_u64(&mut out, raw),
        IntegerType::I64 => crate::types::write_u64(&mut out, raw),
        IntegerType::VarInt => {
            crate::types::write_var_int(&mut out, (raw as u32) as i32);
            proof {
                assert(((raw as u32) as i32) as u32 == raw as u32) by (bit_vector);
            }
        },
        IntegerType::VarLong => {
            crate::types::write_var_long(&mut out, raw as i64);
            proof {
                assert((raw as i64) as u64 == raw) by (bit_vector);
            }
        },
    }
    proof {
        assert(Seq::<u8>::empty() + out@ =~= out@);
    }
    out
}

/// Writes the carrier of a bit-packed slot, big-endian.
pub fn write_carrier(bits: u64, raw: u64) -> (r: Vec<u8>)
    ensures
        r@ == spec_carrier_bytes(bits as int, raw),
{
    let mut out: Vec<u8> = Vec::new();
    if bits == 8 {
        crate::types::write_u8(&mut out, raw as u8);
    } else if bits == 16 {
        crate::types::write_u16(&mut out, raw as u16);
    } else if bits == 32 {
        crate::types::write_u32(&mut out, raw as u32);
    } else {
        crate::types::write_u64(&mut out, raw);
    }
    proof {
        assert(Seq::<u8>::empty() + out@ =~= out@);
    }
    out
}

/// Derives the literal a key field must carry by scanning the fields after
/// it for the sibling that uses the key.
fn derive_key(
    fields: &Vec<(FieldName, FieldType)>,
    start: usize,
    vals: &Vec<(String, Value)>,
    vstart: usize,
    name: &String,
) -> (r: Result<Literal, Error>)
    requires
        start <= fields@.len(),
        vstart <= vals@.len(),
    ensures
        match r {
            Ok(lit) => spec_derive_key(
                fields@.skip(start as int),
                view_named_values(vals@).skip(vstart as int),
                name@,
            ) == Ok::<_, Error>(lit@),
            Err(e) => spec_derive_key(
                fields@.skip(start as int),
                view_named_values(vals@).skip(vstart as int),
                name@,
            ) == Err::<LiteralV, _>(e),
        },
{
    let n = fields.len();
    let nv = vals.len();
    let mut k: usize = start;
    let mut vj: usize = vstart;
    proof {
        crate::value::lemma_view_named_values(vals@);
    }
    while k < n
        invariant
            start <= k <= n,
            vstart <= vj <= nv,
            n == fields@.len(),
            nv == vals@.len(),
            view_named_values(vals@).len() == nv,
            forall|i: int|
                0 <= i < nv ==> view_named_values(vals@)[i] == ((#[trigger] vals@[i]).0@,
                vals@[i].1@),
            spec_derive_key(
                fields@.skip(start as int),
                view_named_values(vals@).skip(vstart as int),
                name@,
            ) == spec_derive_key(
                fields@.skip(k as int),
                view_named_values(vals@).skip(vj as int),
                name@,
            ),
        decreases n - k,
    {
        proof {
            assert(fields@.skip(k as int)[0] == fields@[k as int]);
            assert(fields@.skip(k as int).drop_first() =~= fields@.skip(k + 1 as int));
            if vj < nv {
                assert(view_named_values(vals@).skip(vj as int).drop_first() =~= view_named_values(
                    vals@,
                ).skip(vj + 1 as int));
                assert(view_named_values(vals@).skip(vj as int)[0] == view_named_values(vals@)[
                    vj as int]);
            }
        }
        let pair = &fields[k];
        match &pair.1 {
            FieldType::Key(_) => {
                k = k + 1;
            },
            FieldType::Constant(_) => {
                k = k + 1;
            },
            FieldType::Primitive(PrimitiveType::Array { length: ArrayLength::Key(n2), .. }) => {
                if n2.0 == *name {
                    if vj >= nv {
                        return Err(Error::Malformed);
                    }
                    match &vals[vj].1 {
                        Value::Arr(items) => {
                            proof {
                                crate::value::lemma_view_values(items@);
                            }
                            if items.len() as u64 > 0x7FFF_FFFF_FFFF_FFFFu64 {
                                return Err(Error::ValueTooLarge);
                            }
                            return Ok(Literal::Int(items.len() as i64));
                        },
                        _ => {
                            return Err(Error::Malformed);
                        },
                    }
                } else {
                    if vj >= nv {
                        return Err(Error::Malformed);
                    }
                    vj = vj + 1;
                    k = k + 1;
                }
            },
            FieldType::CustomType(CustomType::Enum { variant: Selector::Sibling(n2), .. }) => {
                if n2.0 == *name {
                    if vj >= nv {
                        return Err(Error::Malformed);
                    }
                    match &vals[vj].1 {
                        Value::EnumVal(key, _) => {
                            return Ok(key.dup());
                        },
                        _ => {
                            return Err(Error::Malformed);
                        },
                    }
                } else {
                    if vj >= nv {
                        return Err(Error::Malformed);
                    }
                    vj = vj + 1;
                    k = k + 1;
                }
            },
            _ => {
                if vj >= nv {
                    return Err(Error::Malformed);
                }
                vj = vj + 1;
                k = k + 1;
            },
        }
    }
    Err(Error::Malformed)
}


/// A rebuilt carrier value stays below the weight of its remaining bits:
/// the sub-fields occupy disjoint bit ranges.
pub proof fn lemma_bf_build_bound(
    fields: Seq<(FieldName, BitField)>,
    vals: Seq<(Seq<char>, i64)>,
    carrier: int,
    off: int,
)
    requires
        spec_bf_widths_ok(fields),
        0 <= off,
        off + spec_bf_total(fields) <= carrier <= 64,
    ensures
        spec_bf_build(fields, vals, carrier, off) matches Ok(raw) ==> 0 <= raw
            < vstd::arithmetic::power2::pow2((carrier - off) as nat),
    decreases fields,
{
    vstd::arithmetic::power2::lemma_pow2_pos((carrier - off) as nat);
    if fields.len() == 0 {
    } else {
        if spec_bf_build(fields, vals, carrier, off) is Ok {
            let w = spec_bf_width(fields[0].1);
            let sval = vals[0].1 as int;
            let uval = if sval < 0 {
                sval + vstd::arithmetic::power2::pow2(w as nat)
            } else {
                sval
            };
            lemma_bf_total_nonneg(fields.drop_first());
            assert(spec_bf_widths_ok(fields.drop_first())) by {
                assert(forall|i: int|
                    0 <= i < fields.drop_first().len() ==> fields.drop_first()[i] == fields[i
                        + 1]);
            }
            lemma_bf_build_bound(fields.drop_first(), vals.drop_first(), carrier, off + w);
            let rest = spec_bf_build(fields.drop_first(), vals.drop_first(), carrier, off + w);
            let p_w = vstd::arithmetic::power2::pow2(w as nat) as int;
            let p_sh = vstd::arithmetic::power2::pow2((carrier - off - w) as nat) as int;
            let p_all = vstd::arithmetic::power2::pow2((carrier - off) as nat) as int;
            vstd::arithmetic::power2::lemma_pow2_adds(w as nat, (carrier - off - w) as nat);
            vstd::arithmetic::power2::lemma_pow2_pos(w as nat);
            vstd::arithmetic::power2::lemma_pow2_pos((carrier - off - w) as nat);
            assert(0 <= uval < p_w) by {
                vstd::arithmetic::power2::lemma2_to64();
                vstd::arithmetic::power2::lemma2_to64_rest();
                vstd::arithmetic::power2::lemma_pow2_unfold(w as nat);
                vstd::arithmetic::power2::lemma_pow2_pos((w - 1) as nat);
                if !spec_bf_signed(fields[0].1) && w == 64 {
                    vstd::arithmetic::power2::lemma_pow2_strictly_increases(63, 64);
                }
            }
            assert(uval * p_sh + (rest->Ok_0) < p_all) by (nonlinear_arith)
                requires
                    0 <= uval < p_w,
                    0 <= (rest->Ok_0) < p_sh,
                    p_all == p_w * p_sh,
                    p_sh >= 1,
            ;
            assert(uval * p_sh >= 0) by (nonlinear_arith)
                requires
                    uval >= 0,
                    p_sh >= 1,
            ;
        }
    }
}

/// Ghost value of an exec bit-field value list.
pub open spec fn view_bf_vals(vals: Seq<(String, i64)>) -> Seq<(Seq<char>, i64)> {
    Seq::new(vals.len(), |i: int| (vals[i].0@, vals[i].1))
}

/// Rebuilds and writes a bit-packed slot from its sub-field values.
#[verifier::loop_isolation(false)]
#[verifier::rlimit(100)]
fn encode_bitfield(fields: &Vec<(FieldName, BitField)>, vals: &Vec<(String, i64)>) -> (r: Result<
    Vec<u8>,
    Error,
>)
    ensures
        ({
            let total = spec_bf_total(fields@);
            let carrier = spec_bf_carrier(total);
            let bad = fields@.len() == 0 || !spec_bf_widths_ok(fields@) || total > 64;
            match r {
                Ok(w) => ({
                    &&& !bad
                    &&& spec_bf_build(fields@, view_bf_vals(vals@), carrier, 0) matches Ok(raw)
                    &&& w@ == spec_carrier_bytes(carrier, raw as u64)
                }),
                Err(e) => if bad {
                    e == Error::Malformed
                } else {
                    spec_bf_build(fields@, view_bf_vals(vals@), carrier, 0) == Err::<int, _>(e)
                },
            }
        }),
{
    let n = fields.len();
    if n == 0 {
        return Err(Error::Malformed);
    }
    let mut total: u64 = 0;
    let mut k: usize = 0;
    proof {
        assert(fields@.subrange(0, n as int) =~= fields@);
    }
    while k < n
        invariant
            k <= n,
            total <= 64,
            total + spec_bf_total(fields@.subrange(k as int, n as int)) == spec_bf_total(fields@),
            forall|i: int| 0 <= i < k ==> 1 <= spec_bf_width((#[trigger] fields@[i]).1) <= 64,
        decreases n - k,
    {
        proof {
            assert(fields@.subrange(k as int, n as int)[0] == fields@[k as int]);
            assert(fields@.subrange(k as int, n as int).drop_first() =~= fields@.subrange(
                k + 1 as int,
                n as int,
            ));
        }
        let w = bf_width(&fields[k].1);
        if w < 1 || w > 64 {
            return Err(Error::Malformed);
        }
        proof {
            lemma_bf_total_nonneg(fields@.subrange(k + 1 as int, n as int));
        }
        if total + w > 64 {
            return Err(Error::Malformed);
        }
        total = total + w;
        k = k + 1;
    }
    proof {
        assert(fields@.subrange(n as int, n as int) =~= Seq::<(FieldName, BitField)>::empty());
        assert(spec_bf_total(fields@) == total);
    }
    let carrier: u64 = if total <= 8 {
        8
    } else if total <= 16 {
        16
    } else if total <= 32 {
        32
    } else {
        64
    };
    let nv = vals.len();
    let mut raw: u64 = 0;
    let mut off: u64 = 0;
    let mut k: usize = 0;
    proof {
        assert(fields@.skip(0) =~= fields@);
        assert(view_bf_vals(vals@).skip(0) =~= view_bf_vals(vals@));
        vstd::arithmetic::power2::lemma2_to64();
        vstd::arithmetic::power2::lemma2_to64_rest();
    }
    while k < n
        invariant
            k <= n,
            k <= nv,
            off + spec_bf_total(fields@.skip(k as int)) == total,
            raw + vstd::arithmetic::power2::pow2((carrier - off) as nat) <= vstd::arithmetic::power2::pow2(carrier as nat),
            match spec_bf_build(
                fields@.skip(k as int),
                view_bf_vals(vals@).skip(k as int),
                carrier as int,
                off as int,
            ) {
                Ok(rest) => spec_bf_build(fields@, view_bf_vals(vals@), carrier as int, 0)
                    == Ok::<int, Error>(raw + rest),
                Err(e) => spec_bf_build(fields@, view_bf_vals(vals@), carrier as int, 0)
                    == Err::<int, Error>(e),
            },
        decreases n - k,
    {
        proof {
            assert(fields@.skip(k as int)[0] == fields@[k as int]);
            assert(fields@.skip(k as int).drop_first() =~= fields@.skip(k + 1 as int));
            lemma_bf_total_nonneg(fields@.skip(k + 1 as int));
            if k < nv {
                assert(view_bf_vals(vals@).skip(k as int)[0] == view_bf_vals(vals@)[k as int]);
                assert(view_bf_vals(vals@).skip(k as int).drop_first() =~= view_bf_vals(
                    vals@,
                ).skip(k + 1 as int));
            }
        }
        if k >= nv {
            return Err(Error::Malformed);
        }
        let vpair = &vals[k];
        let fpair = &fields[k];
        if !(vpair.0 == fpair.0.0) {
            return Err(Error::Malformed);
        }
        let w = bf_width(&fpair.1);
        let sh = carrier - off - w;
        let signed = bf_signed(&fpair.1);
        let sval: i64 = vpair.1;
        proof {
            if w < 64 {
                vstd::arithmetic::power2::lemma_pow2_strictly_increases((w - 1) as nat, 63);
                vstd::arithmetic::power2::lemma_pow2_strictly_increases(w as nat, 64);
            }
            vstd::arithmetic::power2::lemma_pow2_unfold(w as nat);
            vstd::arithmetic::power2::lemma_pow2_pos((w - 1) as nat);
        }
        let in_range: bool = if signed {
            let half = pow2_u64(w - 1) as i128;
            -half <= sval as i128 && (sval as i128) < half
        } else if w >= 64 {
            true
        } else {
            0 <= sval && (sval as i128) < pow2_u64(w) as i128
        };
        if !in_range {
            return Err(Error::ValueTooLarge);
        }
        let uval: u64 = if sval >= 0 {
            sval as u64
        } else if w >= 64 {
            proof {
                assert((sval as u64) as int == sval + 0x1_0000_0000_0000_0000) by (bit_vector)
                    requires
                        sval < 0,
                ;
            }
            sval as u64
        } else {
            ((sval as i128) + (pow2_u64(w) as i128)) as u64
        };
        proof {
            assert(0 <= uval < vstd::arithmetic::power2::pow2(w as nat));
            vstd::arithmetic::power2::lemma_pow2_adds(w as nat, sh as nat);
            vstd::arithmetic::power2::lemma_pow2_pos(sh as nat);
            vstd::arithmetic::power2::lemma_pow2_pos(w as nat);
            assert(uval * vstd::arithmetic::power2::pow2(sh as nat) + vstd::arithmetic::power2::pow2(
                sh as nat,
            ) <= vstd::arithmetic::power2::pow2((carrier - off) as nat)) by (nonlinear_arith)
                requires
                    0 <= uval < vstd::arithmetic::power2::pow2(w as nat),
                    vstd::arithmetic::power2::pow2((carrier - off) as nat)
                        == vstd::arithmetic::power2::pow2(w as nat) * vstd::arithmetic::power2::pow2(
                        sh as nat,
                    ),
                    vstd::arithmetic::power2::pow2(sh as nat) >= 1,
            ;
        }
        let piece: u64 = uval * pow2_u64(sh);
        raw = raw + piece;
        off = off + w;
        k = k + 1;
    }
    if nv > n {
        proof {
            assert(fields@.skip(n as int) =~= Seq::<(FieldName, BitField)>::empty());
            assert(view_bf_vals(vals@).skip(n as int).len() > 0);
        }
        return Err(Error::Malformed);
    }
    proof {
        assert(fields@.skip(n as int) =~= Seq::<(FieldName, BitField)>::empty());
        assert(view_bf_vals(vals@).skip(n as int) =~= Seq::<(Seq<char>, i64)>::empty());
    }
    Ok(write_carrier(carrier, raw))
}

/// Rebuilds and writes a flag slot from its active flag names.
#[verifier::loop_isolation(false)]
fn encode_bitflags(
    field_type: &IntegerType,
    flags: &Vec<(u64, FlagName)>,
    names: &Vec<String>,
) -> (r: Result<Vec<u8>, Error>)
    ensures
        match r {
            Ok(w) => spec_flags_build(view_strs(names@), flags@) matches Ok(raw) && w@
                == spec_encode_raw(*field_type, raw),
            Err(e) => spec_flags_build(view_strs(names@), flags@) == Err::<u64, _>(e),
        },
{
    let n = names.len();
    let mut acc: u64 = 0;
    let mut k: usize = 0;
    proof {
        assert(view_strs(names@).skip(0) =~= view_strs(names@));
        assert(forall|a: u64, b: u64, c: u64| #[trigger] (a | (b | c)) == (a | b) | c)
            by (bit_vector);
        assert(forall|a: u64| #[trigger] (a | 0u64) == a) by (bit_vector);
        assert(forall|a: u64| #[trigger] (0u64 | a) == a) by (bit_vector);
    }
    while k < n
        invariant
            k <= n,
            n == names@.len(),
            match spec_flags_build(view_strs(names@).skip(k as int), flags@) {
                Ok(rest) => spec_flags_build(view_strs(names@), flags@) == Ok::<u64, Error>(
                    acc | rest,
                ),
                Err(e) => spec_flags_build(view_strs(names@), flags@) == Err::<u64, Error>(e),
            },
        decreases n - k,
    {
        proof {
            assert(view_strs(names@).skip(k as int)[0] == view_strs(names@)[k as int]);
            assert(view_strs(names@).skip(k as int).drop_first() =~= view_strs(names@).skip(
                k + 1 as int,
            ));
        }
        let fm = flags.len();
        let mut j: usize = 0;
        let mut found: bool = false;
        let mut bit: u64 = 0;
        proof {
            assert(flags@.subrange(0, fm as int) =~= flags@);
        }
        while j < fm
            invariant
                j <= fm,
                fm == flags@.len(),
                !found ==> spec_find_flag(flags@, names@[k as int]@) == spec_find_flag(
                    flags@.subrange(j as int, fm as int),
                    names@[k as int]@,
                ),
                found ==> spec_find_flag(flags@, names@[k as int]@) == Some(bit),
                found ==> j == fm,
            decreases fm - j,
        {
            proof {
                assert(flags@.subrange(j as int, fm as int)[0] == flags@[j as int]);
                assert(flags@.subrange(j as int, fm as int).drop_first() =~= flags@.subrange(
                    j + 1 as int,
                    fm as int,
                ));
            }
            if flags[j].1.0 == names[k] {
                found = true;
                bit = flags[j].0;
                j = fm;
            } else {
                j = j + 1;
            }
        }
        if !found {
            proof {
                assert(flags@.subrange(fm as int, fm as int) =~= Seq::<(u64, FlagName)>::empty());
            }
            return Err(Error::Malformed);
        }
        acc = acc | bit;
        k = k + 1;
    }
    proof {
        assert(view_strs(names@).skip(n as int) =~= Seq::<Seq<char>>::empty());
    }
    Ok(encode_raw(field_type, acc))
}


/// Encodes one payload value of type `t` into its wire bytes, recomputing
/// every key field from the sibling it drives.
#[verifier::loop_isolation(false)]
#[verifier::rlimit(100)]
pub fn encode_custom(t: &CustomType, shared: &Vec<CustomType>, v: &Value, depth: u64) -> (r:
    Result<Vec<u8>, Error>)
    ensures
        match r {
            Ok(w) => spec_encode_custom(*t, shared@, v@, depth as nat) == Ok::<_, Error>(w@),
            Err(e) => spec_encode_custom(*t, shared@, v@, depth as nat) == Err::<Seq<u8>, _>(e),
        },
    decreases depth, *t, 1int,
{
    match t {
        CustomType::Unit { .. } => match v {
            Value::Unit => {
                let out: Vec<u8> = Vec::new();
                proof {
                    assert(out@ =~= Seq::<u8>::empty());
                }
                Ok(out)
            },
            _ => Err(Error::Malformed),
        },
        CustomType::BitField { fields, .. } => match v {
            Value::BitFieldVal(vals) => {
                proof {
                    assert(view_bf_vals(vals@) =~= Seq::new(
                        vals@.len(),
                        |i: int| (vals@[i].0@, vals@[i].1),
                    ));
                }
                encode_bitfield(fields, vals)
            },
            _ => Err(Error::Malformed),
        },
        CustomType::BitFlags { field_type, flags, .. } => match v {
            Value::Flags(names) => {
                proof {
                    assert(view_strs(names@) =~= Seq::new(names@.len(), |i: int| names@[i]@));
                }
                encode_bitflags(field_type, flags, names)
            },
            _ => Err(Error::Malformed),
        },
        CustomType::Struct { fields, .. } => match v {
            Value::StructVal(vals) => {
                let n = fields.len();
                let nv = vals.len();
                let mut out: Vec<u8> = Vec::new();
                let mut fi: usize = 0;
                let mut vi: usize = 0;
                proof {
                    crate::value::lemma_view_named_values(vals@);
                    assert(fields@.skip(0) =~= fields@);
                    assert(view_named_values(vals@).skip(0) =~= view_named_values(vals@));
                    assert(out@ =~= Seq::<u8>::empty());
                }
                while fi < n
                    invariant
                        fi <= n,
                        vi <= nv,
                        match spec_encode_fields(
                            fields@.skip(fi as int),
                            shared@,
                            view_named_values(vals@).skip(vi as int),
                            depth as nat,
                        ) {
                            Ok(w) => spec_encode_fields(
                                fields@,
                                shared@,
                                view_named_values(vals@),
                                depth as nat,
                            ) == Ok::<Seq<u8>, Error>(out@ + w),
                            Err(e) => spec_encode_fields(
                                fields@,
                                shared@,
                                view_named_values(vals@),
                                depth as nat,
                            ) == Err::<Seq<u8>, Error>(e),
                        },
                    decreases n - fi,
                {
                    proof {
                        assert(fields@.skip(fi as int)[0] == fields@[fi as int]);
                        assert(fields@.skip(fi as int).drop_first() =~= fields@.skip(fi + 1 as int));
                        if vi < nv {
                            assert(view_named_values(vals@).skip(vi as int)[0]
                                == view_named_values(vals@)[vi as int]);
                            assert(view_named_values(vals@).skip(vi as int).drop_first()
                                =~= view_named_values(vals@).skip(vi + 1 as int));
                        }
                    }
                    let pair = &fields[fi];
                    match &pair.1 {
                        FieldType::Key(st) => {
                            let lit = match derive_key(fields, fi + 1, vals, vi, &pair.0.0) {
                                Ok(x) => x,
                                Err(e) => {
                                    return Err(e);
                                },
                            };
                            let mut w = match encode_literal(st, &lit) {
                                Ok(x) => x,
                                Err(e) => {
                                    return Err(e);
                                },
                            };
                            let ghost old_out = out@;
                            let ghost wv = w@;
                            out.append(&mut w);
                            proof {
                                assert(out@ =~= old_out + wv);
                                assert forall|rest: Seq<u8>|
                                    old_out + (wv + rest) =~= (old_out + wv) + rest by {}
                            }
                        },
                        FieldType::Constant(_) => {},
                        _ => {
                            if vi >= nv {
                                return Err(Error::Malformed);
                            }
                            let vpair = &vals[vi];
                            if !(vpair.0 == pair.0.0) {
                                return Err(Error::Malformed);
                            }
                            let mut w = match encode_field_ty(&pair.1, shared, &vpair.1, depth) {
                                Ok(x) => x,
                                Err(e) => {
                                    return Err(e);
                                },
                            };
                            let ghost old_out = out@;
                            let ghost wv = w@;
                            out.append(&mut w);
                            proof {
                                assert(out@ =~= old_out + wv);
                                assert forall|rest: Seq<u8>|
                                    old_out + (wv + rest) =~= (old_out + wv) + rest by {}
                            }
                            vi = vi + 1;
                        },
                    }
                    fi = fi + 1;
                }
                proof {
                    assert(fields@.skip(n as int) =~= Seq::<(FieldName, FieldType)>::empty());
                }
                if vi < nv {
                    return Err(Error::Malformed);
                }
                proof {
                    assert(view_named_values(vals@).skip(vi as int).len() == 0);
                    assert(out@ + Seq::<u8>::empty() =~= out@);
                }
                Ok(out)
            },
            _ => Err(Error::Malformed),
        },
        CustomType::Enum { variant, variants, .. } => match v {
            Value::EnumVal(key, payload) => {
                let mut out: Vec<u8> = Vec::new();
                match variant {
                    Selector::Prefixed(st) => {
                        let mut w = match encode_literal(st, key) {
                            Ok(x) => x,
                            Err(e) => {
                                return Err(e);
                            },
                        };
                        let ghost litv = w@;
                        out.append(&mut w);
                        proof {
                            assert(out@ =~= litv);
                        }
                    },
                    Selector::Sibling(_) => {},
                }
                let n = variants.len();
                let mut vi: usize = 0;
                proof {
                    assert(variants@.skip(0) =~= variants@);
                }
                while vi < n
                    invariant
                        vi <= n,
                        match *variant {
                            Selector::Prefixed(st) => spec_encode_literal(st, key@) == Ok::<
                                Seq<u8>,
                                Error,
                            >(out@),
                            Selector::Sibling(_) => out@ == Seq::<u8>::empty(),
                        },
                        spec_encode_variants(
                            variants@,
                            key@,
                            (**payload)@,
                            shared@,
                            depth as nat,
                        ) == spec_encode_variants(
                            variants@.skip(vi as int),
                            key@,
                            (**payload)@,
                            shared@,
                            depth as nat,
                        ),
                    decreases n - vi,
                {
                    proof {
                        assert(variants@.skip(vi as int)[0] == variants@[vi as int]);
                        assert(variants@.skip(vi as int).drop_first() =~= variants@.skip(
                            vi + 1 as int,
                        ));
                    }
                    let pair = &variants[vi];
                    if pair.0.key_eq(key) {
                        let mut w2 = match encode_custom(&pair.1, shared, &**payload, depth) {
                            Ok(x) => x,
                            Err(e) => {
                                return Err(e);
                            },
                        };
                        let ghost old_out = out@;
                        let ghost wv = w2@;
                        out.append(&mut w2);
                        proof {
                            assert(out@ =~= old_out + wv);
                            assert(Seq::<u8>::empty() + wv =~= wv);
                        }
                        return Ok(out);
                    }
                    vi = vi + 1;
                }
                proof {
                    assert(variants@.skip(n as int) =~= Seq::<(Literal, CustomType)>::empty());
                }
                Err(Error::Malformed)
            },
            _ => Err(Error::Malformed),
        },
    }
}

/// Encodes one field value of the given type into its wire bytes.
#[verifier::loop_isolation(false)]
#[verifier::rlimit(100)]
pub fn encode_field_ty(ft: &FieldType, shared: &Vec<CustomType>, v: &Value, depth: u64) -> (r:
    Result<Vec<u8>, Error>)
    ensures
        match r {
            Ok(w) => spec_encode_field_ty(*ft, shared@, v@, depth as nat) == Ok::<_, Error>(w@),
            Err(e) => spec_encode_field_ty(*ft, shared@, v@, depth as nat) == Err::<Seq<u8>, _>(e),
        },
    decreases depth, *ft, 1int,
{
    match ft {
        FieldType::Integer(it) => encode_integer(it, v),
        FieldType::Float(w) => {
            let mut out: Vec<u8> = Vec::new();
            match (w, v) {
                (crate::custom_type::FloatType::F32, Value::F32Bits(b)) => {
                    crate::types::write_u32(&mut out, *b);
                },
                (crate::custom_type::FloatType::F64, Value::F64Bits(b)) => {
                    crate::types::write_u64(&mut out, *b);
                },
                _ => {
                    return Err(Error::Malformed);
                },
            }
            proof {
                assert(Seq::<u8>::empty() + out@ =~= out@);
            }
            Ok(out)
        },
        FieldType::CustomType(ct) => encode_custom(ct, shared, v, depth),
        FieldType::Key(_) => Err(Error::Malformed),
        FieldType::Constant(_) => Err(Error::Malformed),
        FieldType::Primitive(pt) => match pt {
            PrimitiveType::Boolean => match v {
                Value::Bool(b) => {
                    let mut out: Vec<u8> = Vec::new();
                    crate::types::write_bool(&mut out, *b);
                    proof {
                        assert(Seq::<u8>::empty() + out@ =~= out@);
                    }
                    Ok(out)
                },
                _ => Err(Error::Malformed),
            },
            PrimitiveType::Uuid => match v {
                Value::UuidVal(u) => {
                    let mut out: Vec<u8> = Vec::new();
                    crate::types::write_uuid(&mut out, *u);
                    proof {
                        assert(Seq::<u8>::empty() + out@ =~= out@);
                    }
                    Ok(out)
                },
                _ => Err(Error::Malformed),
            },
            PrimitiveType::Str(max) => match v {
                Value::Str(sv) => {
                    let mut out: Vec<u8> = Vec::new();
                    match crate::types::write_string(&mut out, sv, *max) {
                        Ok(_) => {
                            proof {
                                assert(Seq::<u8>::empty() + out@ =~= out@);
                            }
                            Ok(out)
                        },
                        Err(e) => Err(e),
                    }
                },
                _ => Err(Error::Malformed),
            },
            PrimitiveType::Nbt => match v {
                Value::NbtBlob(b) => Ok(b.clone()),
                _ => Err(Error::Malformed),
            },
            PrimitiveType::Optional(inner) => match v {
                Value::OptVal(o) => match o {
                    None => {
                        let mut out: Vec<u8> = Vec::new();
                        crate::types::write_u8(&mut out, 0);
                        proof {
                            assert(out@ =~= seq![0u8]);
                        }
                        Ok(out)
                    },
                    Some(b) => {
                        let mut out: Vec<u8> = Vec::new();
                        crate::types::write_u8(&mut out, 1);
                        let mut w = match encode_field_ty(&**inner, shared, &**b, depth) {
                            Ok(x) => x,
                            Err(e) => {
                                return Err(e);
                            },
                        };
                        let ghost wv = w@;
                        out.append(&mut w);
                        proof {
                            assert(out@ =~= seq![1u8] + wv);
                        }
                        Ok(out)
                    },
                },
                _ => Err(Error::Malformed),
            },
            PrimitiveType::Shared(name) => {
                if depth == 0 {
                    return Err(Error::Malformed);
                }
                match find_shared(shared, &name.0) {
                    Some(def) => encode_custom(def, shared, v, depth - 1),
                    None => Err(Error::Malformed),
                }
            },
            PrimitiveType::Array { length, field_type } => match v {
                Value::Arr(items) => encode_array(length, field_type, shared, items, depth),
                _ => Err(Error::Malformed),
            },
        },
    }
}

/// Encodes one array value: the count prefix its length strategy calls
/// for, then the elements in order.
#[verifier::loop_isolation(false)]
#[verifier::rlimit(100)]
fn encode_array(
    length: &ArrayLength,
    field_type: &Box<FieldType>,
    shared: &Vec<CustomType>,
    items: &Vec<Value>,
    depth: u64,
) -> (r: Result<Vec<u8>, Error>)
    ensures
        ({
            let ft = FieldType::Primitive(
                PrimitiveType::Array { length: *length, field_type: *field_type },
            );
            let vv = ValueV::Arr(view_values(items@));
            match r {
                Ok(w) => spec_encode_field_ty(ft, shared@, vv, depth as nat) == Ok::<_, Error>(w@),
                Err(e) => spec_encode_field_ty(ft, shared@, vv, depth as nat) == Err::<Seq<u8>, _>(
                    e,
                ),
            }
        }),
    decreases depth, **field_type, 3int,
{
    proof {
        crate::value::lemma_view_values(items@);
    }
    let mut out: Vec<u8> = Vec::new();
    match length {
        ArrayLength::RemainingLength => {},
        ArrayLength::Key(_) => {},
        ArrayLength::FixedLength(n) => {
            if !(items.len() as u64 == *n) {
                return Err(Error::Malformed);
            }
        },
        ArrayLength::Prefixed(it) => {
            if items.len() as u64 > 0x7FFF_FFFF_FFFF_FFFFu64 {
                return Err(Error::ValueTooLarge);
            }
            let lit = Literal::Int(items.len() as i64);
            let mut w = match encode_literal(&SelectorType::Integer(*it), &lit) {
                Ok(x) => x,
                Err(e) => {
                    return Err(e);
                },
            };
            out.append(&mut w);
        },
    }
    let ghost prefix = out@;
    let mut w2 = match encode_elems_loop(field_type, shared, items, depth) {
        Ok(x) => x,
        Err(e) => {
            return Err(e);
        },
    };
    let ghost wv = w2@;
    out.append(&mut w2);
    proof {
        assert(out@ =~= prefix + wv);
        assert(Seq::<u8>::empty() + wv =~= wv);
    }
    Ok(out)
}

/// Encodes an array's elements one after another.
#[verifier::loop_isolation(false)]
fn encode_elems_loop(
    elem: &Box<FieldType>,
    shared: &Vec<CustomType>,
    items: &Vec<Value>,
    depth: u64,
) -> (r: Result<Vec<u8>, Error>)
    ensures
        match r {
            Ok(w) => spec_encode_elems(**elem, shared@, view_values(items@), depth as nat) == Ok::<
                _,
                Error,
            >(w@),
            Err(e) => spec_encode_elems(**elem, shared@, view_values(items@), depth as nat)
                == Err::<Seq<u8>, _>(e),
        },
    decreases depth, **elem, 2int,
{
    let n = items.len();
    let mut out: Vec<u8> = Vec::new();
    let mut k: usize = 0;
    proof {
        crate::value::lemma_view_values(items@);
        assert(view_values(items@).skip(0) =~= view_values(items@));
        assert(out@ =~= Seq::<u8>::empty());
    }
    while k < n
        invariant
            k <= n,
            match spec_encode_elems(
                **elem,
                shared@,
                view_values(items@).skip(k as int),
                depth as nat,
            ) {
                Ok(w) => spec_encode_elems(**elem, shared@, view_values(items@), depth as nat)
                    == Ok::<Seq<u8>, Error>(out@ + w),
                Err(e) => spec_encode_elems(**elem, shared@, view_values(items@), depth as nat)
                    == Err::<Seq<u8>, Error>(e),
            },
        decreases n - k,
    {
        proof {
            assert(view_values(items@).skip(k as int)[0] == view_values(items@)[k as int]);
            assert(view_values(items@).skip(k as int).drop_first() =~= view_values(items@).skip(
                k + 1 as int,
            ));
        }
        let mut w = match encode_field_ty(&**elem, shared, &items[k], depth) {
            Ok(x) => x,
            Err(e) => {
                return Err(e);
            },
        };
        let ghost old_out = out@;
        let ghost wv = w@;
        out.append(&mut w);
        proof {
            assert(out@ =~= old_out + wv);
            assert forall|rest: Seq<u8>| old_out + (wv + rest) =~= (old_out + wv) + rest by {}
        }
        k = k + 1;
    }
    proof {
        assert(view_values(items@).skip(n as int) =~= Seq::<ValueV>::empty());
        assert(out@ + Seq::<u8>::empty() =~= out@);
    }
    Ok(out)
}


/// The names of a struct's stored fields: the non-key, non-constant
/// declarations, in order — exactly what a decoded struct materializes.
pub open spec fn spec_stored_field_names(fields: Seq<(FieldName, FieldType)>) -> Seq<Seq<char>>
    decreases fields,
{
    if fields.len() == 0 {
        Seq::empty()
    } else {
        let rest = spec_stored_field_names(fields.drop_first());
        match fields[0].1 {
            FieldType::Key(_) => rest,
            FieldType::Constant(_) => rest,
            _ => seq![fields[0].0.0@] + rest,
        }
    }
}

/// The names carried by a decoded struct's field list.
pub open spec fn spec_names_of(vals: Seq<(Seq<char>, ValueV)>) -> Seq<Seq<char>> {
    Seq::new(vals.len(), |i: int| vals[i].0)
}

/// Key-field asymmetry, decode side (law): whatever bytes a struct's
/// fields decode from, the materialized fields are exactly the non-key,
/// non-constant declarations, in declaration order — a key field is
/// consumed from the wire but never appears in the decoded value.
pub proof fn lemma_key_fields_not_materialized(
    fields: Seq<(FieldName, FieldType)>,
    shared: Seq<CustomType>,
    bytes: Seq<u8>,
    pos: int,
    ctx: Seq<(Seq<char>, LiteralV)>,
    out: Seq<(Seq<char>, ValueV)>,
    depth: nat,
)
    requires
        spec_decode_fields(fields, shared, bytes, pos, ctx, out, depth) is Ok,
    ensures
        spec_names_of(spec_decode_fields(fields, shared, bytes, pos, ctx, out, depth)->Ok_0.0)
            == spec_names_of(out) + spec_stored_field_names(fields),
    decreases fields,
{
    if fields.len() == 0 {
        assert(spec_names_of(out) + Seq::<Seq<char>>::empty() =~= spec_names_of(out));
    } else {
        let fname = fields[0].0;
        match fields[0].1 {
            FieldType::Key(st) => {
                let step = spec_decode_selector(st, bytes, pos);
                lemma_key_fields_not_materialized(
                    fields.drop_first(),
                    shared,
                    bytes,
                    step->Ok_0.1,
                    ctx.push((fname.0@, step->Ok_0.0)),
                    out,
                    depth,
                );
            },
            FieldType::Constant(_) => {
                lemma_key_fields_not_materialized(
                    fields.drop_first(),
                    shared,
                    bytes,
                    pos,
                    ctx,
                    out,
                    depth,
                );
            },
            _ => {
                let step = spec_decode_field_ty(fields[0].1, shared, bytes, pos, ctx, depth);
                let out2 = out.push((fname.0@, step->Ok_0.0));
                lemma_key_fields_not_materialized(
                    fields.drop_first(),
                    shared,
                    bytes,
                    step->Ok_0.1,
                    ctx,
                    out2,
                    depth,
                );
                assert(spec_names_of(out2) =~= spec_names_of(out).push(fname.0@));
                assert(spec_names_of(out) + (seq![fname.0@] + spec_stored_field_names(
                    fields.drop_first(),
                )) =~= spec_names_of(out).push(fname.0@) + spec_stored_field_names(
                    fields.drop_first(),
                ));
            },
        }
    }
}

/// Key-field asymmetry at the payload level (law): a struct payload
/// decodes to a struct value whose fields are exactly the non-key,
/// non-constant declarations, in order.
pub proof fn lemma_struct_decode_names(
    t: CustomType,
    shared: Seq<CustomType>,
    bytes: Seq<u8>,
    pos: int,
    ctx: Seq<(Seq<char>, LiteralV)>,
    depth: nat,
)
    requires
        t is Struct,
        spec_decode_custom(t, shared, bytes, pos, ctx, depth) is Ok,
    ensures
        spec_decode_custom(t, shared, bytes, pos, ctx, depth)->Ok_0.0 matches ValueV::StructVal(
            vals,
        ) && spec_names_of(vals) == spec_stored_field_names(t->Struct_fields@),
{
    let fields = t->Struct_fields;
    lemma_key_fields_not_materialized(
        fields@,
        shared,
        bytes,
        pos,
        Seq::empty(),
        Seq::empty(),
        depth,
    );
    assert(spec_names_of(Seq::<(Seq<char>, ValueV)>::empty()) =~= Seq::<Seq<char>>::empty());
    assert(Seq::<Seq<char>>::empty() + spec_stored_field_names(fields@) =~= spec_stored_field_names(
        fields@,
    ));
}

/// Enum selector dispatch, failure side (law): a selector value that
/// matches no declared variant key is a decode error, never a default
/// variant.
pub proof fn lemma_unmatched_selector_fails(
    variants: Seq<(Literal, CustomType)>,
    key: LiteralV,
    shared: Seq<CustomType>,
    bytes: Seq<u8>,
    pos: int,
    ctx: Seq<(Seq<char>, LiteralV)>,
    depth: nat,
)
    requires
        forall|i: int| 0 <= i < variants.len() ==> (#[trigger] variants[i]).0@ != key,
    ensures
        spec_decode_variants(variants, key, shared, bytes, pos, ctx, depth) == Err::<
            (ValueV, int),
            Error,
        >(Error::Malformed),
    decreases variants,
{
    if variants.len() > 0 {
        assert(forall|i: int|
            0 <= i < variants.drop_first().len() ==> variants.drop_first()[i] == variants[i + 1]);
        lemma_unmatched_selector_fails(
            variants.drop_first(),
            key,
            shared,
            bytes,
            pos,
            ctx,
            depth,
        );
    }
}

} // verus!
