//! The dynamic payload value produced by the schema-driven decoder and
//! consumed by the encoder, with its ghost counterpart.
use crate::custom_type::{Literal, LiteralV};
use crate::types::Uuid;
use vstd::prelude::*;

verus! {

broadcast use vstd::std_specs::vec::axiom_vec_index_decreases, vstd::seq::axiom_seq_index_decreases, vstd::std_specs::vec::axiom_vec_decreases_to_view;

/// One decoded payload value. Floating-point fields are carried as their
/// raw bit patterns; structured-data blobs as their raw bytes.
#[derive(Debug)]
pub enum Value {
    U8(u8),
    I8(i8),
    U16(u16),
    I16(i16),
    U32(u32),
    I32(i32),
    U64(u64),
    I64(i64),
    VarInt(i32),
    VarLong(i64),
    F32Bits(u32),
    F64Bits(u64),
    Bool(bool),
    UuidVal(Uuid),
    Str(String),
    NbtBlob(Vec<u8>),
    Arr(Vec<Value>),
    OptVal(Option<Box<Value>>),
    /// The non-key fields of a struct, in declaration order.
    StructVal(Vec<(String, Value)>),
    /// The matched variant's literal key and its payload.
    EnumVal(Literal, Box<Value>),
    /// The names of the set flags, in schema declaration order.
    Flags(Vec<String>),
    /// The sub-fields of a bit-packed slot, widened to 64-bit signed.
    BitFieldVal(Vec<(String, i64)>),
    Unit,
}

/// The ghost value of a [`Value`].
pub enum ValueV {
    U8(u8),
    I8(i8),
    U16(u16),
    I16(i16),
    U32(u32),
    I32(i32),
    U64(u64),
    I64(i64),
    VarInt(i32),
    VarLong(i64),
    F32Bits(u32),
    F64Bits(u64),
    Bool(bool),
    UuidVal(Uuid),
    Str(Seq<char>),
    NbtBlob(Seq<u8>),
    Arr(Seq<ValueV>),
    OptVal(Option<Box<ValueV>>),
    StructVal(Seq<(Seq<char>, ValueV)>),
    EnumVal(LiteralV, Box<ValueV>),
    Flags(Seq<Seq<char>>),
    BitFieldVal(Seq<(Seq<char>, i64)>),
    Unit,
}

/// The ghost values of a sequence of payload values.
pub open spec fn view_values(items: Seq<Value>) -> Seq<ValueV>
    decreases items,
{
    if items.len() == 0 {
        Seq::empty()
    } else {
        seq![items[0]@] + view_values(items.drop_first())
    }
}

/// The ghost values of a sequence of named payload values.
pub open spec fn view_named_values(fields: Seq<(String, Value)>) -> Seq<(Seq<char>, ValueV)>
    decreases fields,
{
    if fields.len() == 0 {
        Seq::empty()
    } else {
        seq![(fields[0].0@, fields[0].1@)] + view_named_values(fields.drop_first())
    }
}

impl View for Value {
    type V = ValueV;

    open spec fn view(&self) -> ValueV
        decreases self,
    {
        match self {
            Value::U8(v) => ValueV::U8(*v),
            Value::I8(v) => ValueV::I8(*v),
            Value::U16(v) => ValueV::U16(*v),
            Value::I16(v) => ValueV::I16(*v),
            Value::U32(v) => ValueV::U32(*v),
            Value::I32(v) => ValueV::I32(*v),
            Value::U64(v) => ValueV::U64(*v),
            Value::I64(v) => ValueV::I64(*v),
            Value::VarInt(v) => ValueV::VarInt(*v),
            Value::VarLong(v) => ValueV::VarLong(*v),
            Value::F32Bits(v) => ValueV::F32Bits(*v),
            Value::F64Bits(v) => ValueV::F64Bits(*v),
            Value::Bool(v) => ValueV::Bool(*v),
            Value::UuidVal(v) => ValueV::UuidVal(*v),
            Value::Str(s) => ValueV::Str(s@),
            Value::NbtBlob(b) => ValueV::NbtBlob(b@),
            Value::Arr(items) => ValueV::Arr(view_values(items@)),
            Value::OptVal(o) => ValueV::OptVal(
                match o {
                    Some(inner) => Some(Box::new((**inner)@)),
                    None => None,
                },
            ),
            Value::StructVal(fields) => ValueV::StructVal(view_named_values(fields@)),
            Value::EnumVal(key, payload) => ValueV::EnumVal(key@, Box::new((**payload)@)),
            Value::Flags(names) => ValueV::Flags(
                Seq::new(names@.len(), |i: int| names@[i]@),
            ),
            Value::BitFieldVal(fields) => ValueV::BitFieldVal(
                Seq::new(fields@.len(), |i: int| (fields@[i].0@, fields@[i].1)),
            ),
            Value::Unit => ValueV::Unit,
        }
    }
}

/// `view_values` maps the view pointwise.
pub proof fn lemma_view_values(items: Seq<Value>)
    ensures
        view_values(items).len() == items.len(),
        forall|i: int| 0 <= i < items.len() ==> view_values(items)[i] == (#[trigger] items[i])@,
    decreases items,
{
    if items.len() == 0 {
        assert(view_values(items) == Seq::<ValueV>::empty());
    } else {
        lemma_view_values(items.drop_first());
        assert(view_values(items) == seq![items[0]@] + view_values(items.drop_first()));
        assert forall|i: int| 0 <= i < items.len() implies view_values(items)[i] == (
        #[trigger] items[i])@ by {
            if i > 0 {
                assert(items.drop_first()[i - 1] == items[i]);
            }
        }
    }
}

/// Appending one value appends its view.
pub proof fn lemma_view_values_push(items: Seq<Value>, v: Value)
    ensures
        view_values(items.push(v)) == view_values(items).push(v@),
{
    lemma_view_values(items);
    lemma_view_values(items.push(v));
    assert forall|i: int|
        0 <= i < items.len() + 1 implies view_values(items.push(v))[i] == view_values(items).push(
        v@,
    )[i] by {
        assert(items.push(v)[i] == if i < items.len() {
            items[i]
        } else {
            v
        });
    }
    assert(view_values(items.push(v)) =~= view_values(items).push(v@));
}

/// `view_named_values` maps the view pointwise.
pub proof fn lemma_view_named_values(fields: Seq<(String, Value)>)
    ensures
        view_named_values(fields).len() == fields.len(),
        forall|i: int|
            0 <= i < fields.len() ==> view_named_values(fields)[i] == ((#[trigger] fields[i]).0@,
            fields[i].1@),
    decreases fields,
{
    if fields.len() == 0 {
        assert(view_named_values(fields) == Seq::<(Seq<char>, ValueV)>::empty());
    } else {
        lemma_view_named_values(fields.drop_first());
        assert(view_named_values(fields) == seq![(fields[0].0@, fields[0].1@)]
            + view_named_values(fields.drop_first()));
        assert forall|i: int|
            0 <= i < fields.len() implies view_named_values(fields)[i] == ((
        #[trigger] fields[i]).0@, fields[i].1@) by {
            if i > 0 {
                assert(fields.drop_first()[i - 1] == fields[i]);
            }
        }
    }
}

/// Appending one named value appends its view.
pub proof fn lemma_view_named_values_push(fields: Seq<(String, Value)>, name: String, v: Value)
    ensures
        view_named_values(fields.push((name, v))) == view_named_values(fields).push((name@, v@)),
{
    lemma_view_named_values(fields);
    lemma_view_named_values(fields.push((name, v)));
    assert forall|i: int|
        0 <= i < fields.len() + 1 implies view_named_values(fields.push((name, v)))[i]
        == view_named_values(fields).push((name@, v@))[i] by {
        assert(fields.push((name, v))[i] == if i < fields.len() {
            fields[i]
        } else {
            (name, v)
        });
    }
    assert(view_named_values(fields.push((name, v))) =~= view_named_values(fields).push(
        (name@, v@),
    ));
}

} // verus!
