//! Decoded field tree: the executable types and their mathematical model.

use vstd::prelude::*;

verus! {

/// A decoded wire value: one of the four supported wire encodings, where a
/// length-delimited payload is either an opaque string or a nested message.
#[derive(Debug)]
pub enum ProtoValue {
    Fixed32(u32),
    Fixed64(u64),
    String(String),
    VarInt(u64),
    Parts(Vec<ProtoPart>),
}

/// One decoded field: its field number, the offset of its value bytes within
/// the buffer it was decoded from, and the value itself. For a nested message
/// the children's offsets are relative to that nested payload.
#[derive(Debug)]
pub struct ProtoPart {
    pub index: u64,
    pub offset: usize,
    pub value: ProtoValue,
}

/// Why a single field failed to decode: the buffer ran out, or the tag named
/// a wire type outside {0, 1, 2, 5}.
#[derive(Clone, Copy, Debug, PartialEq, Eq, Structural)]
pub enum DecodeErr {
    IOErr,
    UnknownType,
}

/// Mathematical model of a decoded value. A string is modelled by its
/// characters, a nested message by the sequence of its children's models.
pub ghost enum SpecValue {
    Fixed32(u32),
    Fixed64(u64),
    String(Seq<char>),
    VarInt(u64),
    Parts(Seq<SpecPart>),
}

/// Mathematical model of one decoded field.
pub ghost struct SpecPart {
    pub index: u64,
    pub offset: int,
    pub value: SpecValue,
}

/// The executable value carries exactly the model: same variant, same number,
/// and for nested messages the same children in the same order.
pub open spec fn value_reflects(v: ProtoValue, g: SpecValue) -> bool
    decreases g,
{
    match (v, g) {
        (ProtoValue::Fixed32(a), SpecValue::Fixed32(b)) => a == b,
        (ProtoValue::Fixed64(a), SpecValue::Fixed64(b)) => a == b,
        (ProtoValue::String(a), SpecValue::String(b)) => a@ == b,
        (ProtoValue::VarInt(a), SpecValue::VarInt(b)) => a == b,
        (ProtoValue::Parts(ps), SpecValue::Parts(gs)) => parts_reflect_at(ps@, gs),
        _ => false,
    }
}

/// Elementwise correspondence of a decoded field list with its model.
pub open spec fn parts_reflect_at(ps: Seq<ProtoPart>, gs: Seq<SpecPart>) -> bool
    decreases gs,
{
    &&& ps.len() == gs.len()
    &&& forall|i: int| 0 <= i < gs.len() ==> part_reflects(ps[i], #[trigger] gs[i])
}

/// The executable field carries exactly the model field.
pub open spec fn part_reflects(p: ProtoPart, g: SpecPart) -> bool
    decreases g,
{
    &&& p.index == g.index
    &&& p.offset as int == g.offset
    &&& value_reflects(p.value, g.value)
}

impl ProtoPart {
    /// Pack a field number, a value offset and a value into one field.
    pub fn new(index: u64, offset: usize, value: ProtoValue) -> (r: Self)
        ensures
            r == (ProtoPart { index, offset, value }),
    {
        Self { index, offset, value }
    }
}

} // verus!
