//! The payload type system of the schema model: a closed tagged union of
//! custom type shapes and the field types they are built from.
use crate::primitives::{CustomTypeName, FieldName, FlagName};
use vstd::prelude::*;

verus! {

/// A literal key of a tagged union variant: a string, boolean or integer.
#[derive(Debug, Clone)]
pub enum Literal {
    Str(String),
    Bool(bool),
    Int(i64),
}

/// The ghost value of a literal.
pub enum LiteralV {
    Str(Seq<char>),
    Bool(bool),
    Int(i64),
}

impl View for Literal {
    type V = LiteralV;

    open spec fn view(&self) -> LiteralV {
        match self {
            Literal::Str(s) => LiteralV::Str(s@),
            Literal::Bool(b) => LiteralV::Bool(*b),
            Literal::Int(n) => LiteralV::Int(*n),
        }
    }
}

impl Literal {
    /// A copy that denotes the same key.
    pub fn dup(&self) -> (r: Literal)
        ensures
            r@ == self@,
    {
        match self {
            Literal::Str(s) => Literal::Str(s.clone()),
            Literal::Bool(b) => Literal::Bool(*b),
            Literal::Int(n) => Literal::Int(*n),
        }
    }

    /// Whether two literals denote the same key.
    pub fn key_eq(&self, other: &Literal) -> (r: bool)
        ensures
            r == (self@ == other@),
    {
        match (self, other) {
            (Literal::Str(a), Literal::Str(b)) => *a == *b,
            (Literal::Bool(a), Literal::Bool(b)) => *a == *b,
            (Literal::Int(a), Literal::Int(b)) => *a == *b,
            _ => false,
        }
    }
}

/// The fixed- and variable-width integer kinds a field may carry.
#[derive(Debug, Clone, Copy, PartialEq, Eq, Structural)]
pub enum IntegerType {
    U8,
    I8,
    U16,
    I16,
    U32,
    I32,
    U64,
    I64,
    VarInt,
    VarLong,
}

/// The floating-point widths a field may carry; values are held as raw bits.
#[derive(Debug, Clone, Copy, PartialEq, Eq, Structural)]
pub enum FloatType {
    F32,
    F64,
}

/// One sub-field of a bit-packed integer slot: its signedness, carrier
/// width, and the number of bits it occupies.
#[derive(Debug, Clone, Copy, PartialEq, Eq, Structural)]
pub enum BitField {
    Boolean,
    I8(u8),
    U8(u8),
    I16(u8),
    U16(u8),
    I32(u8),
    U32(u8),
    I64(u8),
    U64(u8),
}

/// How an array's element count is determined.
#[derive(Debug, Clone)]
pub enum ArrayLength {
    /// Consume elements until the enclosing frame is exhausted.
    RemainingLength,
    /// A literal count fixed by the schema.
    FixedLength(u64),
    /// An inline count immediately preceding the elements.
    Prefixed(IntegerType),
    /// A count already consumed as a sibling key field of this name.
    Key(FieldName),
}

/// The type of a value that can select an enum variant or drive a sibling
/// decode decision: an integer, a boolean, or a capped string.
#[derive(Debug, Clone)]
pub enum SelectorType {
    Integer(IntegerType),
    Boolean,
    Str(u16),
}

/// How an enum's selector value is obtained.
#[derive(Debug, Clone)]
pub enum Selector {
    /// A leading prefixed value read right before the variant payload.
    Prefixed(SelectorType),
    /// An already-decoded sibling key field of this name.
    Sibling(FieldName),
}

/// The non-integer primitive field kinds.
#[derive(Debug)]
pub enum PrimitiveType {
    Boolean,
    Uuid,
    /// A length-prefixed UTF-8 string with a maximum byte count, enforced
    /// on both decode and encode.
    Str(u16),
    /// An opaque structured-data blob.
    Nbt,
    Array { length: ArrayLength, field_type: Box<FieldType> },
    /// A leading presence boolean, then the inner value exactly when true.
    Optional(Box<FieldType>),
    /// A reference into the shared-type namespace, defined once and reused
    /// by name.
    Shared(CustomTypeName),
}

/// The type of one struct field or array element.
#[derive(Debug)]
pub enum FieldType {
    Primitive(PrimitiveType),
    Float(FloatType),
    Integer(IntegerType),
    CustomType(CustomType),
    /// Consumed from the wire on decode to drive a sibling decision, not
    /// materialized in the decoded value, recomputed on encode.
    Key(SelectorType),
    /// Not read or written; implied by the schema.
    Constant(Literal),
}

/// The payload type of a packet or of a nested field: a closed tagged
/// union of the shapes a payload can take.
#[derive(Debug)]
pub enum CustomType {
    /// A tagged union: a selector and a mapping from literal key to the
    /// matching variant's payload type.
    Enum { name: CustomTypeName, variant: Selector, variants: Vec<(Literal, CustomType)> },
    /// An ordered mapping of field name to field type; order is encoding
    /// order.
    Struct { name: CustomTypeName, fields: Vec<(FieldName, FieldType)> },
    /// A single integer slot subdivided into named fixed-width sub-fields.
    BitField { name: CustomTypeName, fields: Vec<(FieldName, BitField)> },
    /// A single integer slot whose bits name independent boolean flags.
    BitFlags { name: CustomTypeName, field_type: IntegerType, flags: Vec<(u64, FlagName)> },
    /// A zero-width marker payload.
    Unit { name: CustomTypeName },
}

impl CustomType {
    /// The declared name of this type.
    pub open spec fn spec_name(&self) -> Seq<char> {
        match self {
            CustomType::Enum { name, .. } => name.0@,
            CustomType::Struct { name, .. } => name.0@,
            CustomType::BitField { name, .. } => name.0@,
            CustomType::BitFlags { name, .. } => name.0@,
            CustomType::Unit { name } => name.0@,
        }
    }

    /// The declared name of this type, as the newtype that carries it.
    pub fn name_ref(&self) -> (r: &String)
        ensures
            r@ == self.spec_name(),
    {
        match self {
            CustomType::Enum { name, .. } => &name.0,
            CustomType::Struct { name, .. } => &name.0,
            CustomType::BitField { name, .. } => &name.0,
            CustomType::BitFlags { name, .. } => &name.0,
            CustomType::Unit { name } => &name.0,
        }
    }

    /// The declared name of this type.
    pub fn name(&self) -> (r: &str)
        ensures
            r@ == self.spec_name(),
    {
        match self {
            CustomType::Enum { name, .. } => name.0.as_str(),
            CustomType::Struct { name, .. } => name.0.as_str(),
            CustomType::BitField { name, .. } => name.0.as_str(),
            CustomType::BitFlags { name, .. } => name.0.as_str(),
            CustomType::Unit { name } => name.0.as_str(),
        }
    }
}

impl From<IntegerType> for FieldType {
    fn from(integer_type: IntegerType) -> (r: FieldType) {
        FieldType::Integer(integer_type)
    }
}

impl vstd::std_specs::convert::FromSpecImpl<IntegerType> for FieldType {
    open spec fn obeys_from_spec() -> bool {
        true
    }

    open spec fn from_spec(integer_type: IntegerType) -> FieldType {
        FieldType::Integer(integer_type)
    }
}

impl From<FloatType> for FieldType {
    fn from(float_type: FloatType) -> (r: FieldType) {
        FieldType::Float(float_type)
    }
}

impl vstd::std_specs::convert::FromSpecImpl<FloatType> for FieldType {
    open spec fn obeys_from_spec() -> bool {
        true
    }

    open spec fn from_spec(float_type: FloatType) -> FieldType {
        FieldType::Float(float_type)
    }
}

impl From<PrimitiveType> for FieldType {
    fn from(primitive_type: PrimitiveType) -> (r: FieldType) {
        FieldType::Primitive(primitive_type)
    }
}

impl vstd::std_specs::convert::FromSpecImpl<PrimitiveType> for FieldType {
    open spec fn obeys_from_spec() -> bool {
        true
    }

    open spec fn from_spec(primitive_type: PrimitiveType) -> FieldType {
        FieldType::Primitive(primitive_type)
    }
}

} // verus!
