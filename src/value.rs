//! Field values and records.

use vstd::prelude::*;
use crate::le::{pow256, lemma_pow256_values};
use crate::schema::FieldType;

verus! {

/// The value of one field.
#[derive(Clone, Debug, PartialEq, Eq)]
pub enum Value {
    U8(u8),
    I8(i8),
    U16(u16),
    I16(i16),
    U32(u32),
    I32(i32),
    U64(u64),
    I64(i64),
    Str(String),
}

/// What a field value means: an integer of a fixed-width type, or a sequence
/// of characters.
pub ghost enum FieldValue {
    Int(FieldType, int),
    Text(Seq<char>),
}

impl FieldValue {
    pub open spec fn ty(self) -> FieldType {
        match self {
            FieldValue::Int(t, _) => t,
            FieldValue::Text(_) => FieldType::Str,
        }
    }

    /// Whether this is a value of type `t`.
    pub open spec fn fits(self, t: FieldType) -> bool {
        match self {
            FieldValue::Int(u, x) => u == t && t.is_fixed() && t.in_range(x),
            FieldValue::Text(_) => t is Str,
        }
    }
}

impl View for Value {
    type V = FieldValue;

    open spec fn view(&self) -> FieldValue {
        match self {
            Value::U8(x) => FieldValue::Int(FieldType::U8, *x as int),
            Value::I8(x) => FieldValue::Int(FieldType::I8, *x as int),
            Value::U16(x) => FieldValue::Int(FieldType::U16, *x as int),
            Value::I16(x) => FieldValue::Int(FieldType::I16, *x as int),
            Value::U32(x) => FieldValue::Int(FieldType::U32, *x as int),
            Value::I32(x) => FieldValue::Int(FieldType::I32, *x as int),
            Value::U64(x) => FieldValue::Int(FieldType::U64, *x as int),
            Value::I64(x) => FieldValue::Int(FieldType::I64, *x as int),
            Value::Str(s) => FieldValue::Text(s@),
        }
    }
}

/// The unsigned integer whose low `t.width()` bytes hold `x`: `x` itself when it
/// is not negative, its two's complement otherwise.
pub open spec fn to_bits(t: FieldType, x: int) -> nat {
    if x >= 0 {
        x as nat
    } else {
        (x + pow256(t.width())) as nat
    }
}

/// The integer of type `t` whose bits are `u`.
pub open spec fn from_bits(t: FieldType, u: nat) -> int {
    if t.is_signed() && u * 2 >= pow256(t.width()) {
        u - pow256(t.width())
    } else {
        u as int
    }
}

pub proof fn lemma_bits_round_trip(t: FieldType, x: int)
    requires
        t.is_fixed(),
        t.in_range(x),
    ensures
        to_bits(t, x) < pow256(t.width()),
        from_bits(t, to_bits(t, x)) == x,
{
    lemma_pow256_values();
}

impl Value {
    pub fn field_type(&self) -> (r: FieldType)
        ensures
            r == self@.ty(),
    {
        match self {
            Value::U8(_) => FieldType::U8,
            Value::I8(_) => FieldType::I8,
            Value::U16(_) => FieldType::U16,
            Value::I16(_) => FieldType::I16,
            Value::U32(_) => FieldType::U32,
            Value::I32(_) => FieldType::I32,
            Value::U64(_) => FieldType::U64,
            Value::I64(_) => FieldType::I64,
            Value::Str(_) => FieldType::Str,
        }
    }

    /// The bits of an integer value, as the low bytes of a `u64`.
    pub fn int_bits(&self) -> (r: u64)
        requires
            !(self is Str),
        ensures
            self@ matches FieldValue::Int(t, x) && r as nat == to_bits(t, x),
    {
        proof {
            lemma_pow256_values();
        }
        match self {
            Value::U8(x) => *x as u64,
            Value::I8(x) => if *x >= 0 { *x as u64 } else { (*x as i128 + 0x100) as u64 },
            Value::U16(x) => *x as u64,
            Value::I16(x) => if *x >= 0 { *x as u64 } else { (*x as i128 + 0x1_0000) as u64 },
            Value::U32(x) => *x as u64,
            Value::I32(x) => if *x >= 0 { *x as u64 } else { (*x as i128 + 0x1_0000_0000) as u64 },
            Value::U64(x) => *x,
            Value::I64(x) => if *x >= 0 {
                *x as u64
            } else {
                (*x as i128 + 0x1_0000_0000_0000_0000) as u64
            },
            Value::Str(_) => 0,
        }
    }

    /// The integer value of type `t` whose bits are `u`.
    pub fn from_int_bits(t: FieldType, u: u64) -> (r: Value)
        requires
            t.is_fixed(),
            (u as nat) < pow256(t.width()),
        ensures
            r@ == FieldValue::Int(t, from_bits(t, u as nat)),
    {
        proof {
            lemma_pow256_values();
        }
        match t {
            FieldType::U8 => Value::U8(u as u8),
            FieldType::I8 => Value::I8(if u >= 0x80 { (u as i128 - 0x100) as i8 } else { u as i8 }),
            FieldType::U16 => Value::U16(u as u16),
            FieldType::I16 => Value::I16(
                if u >= 0x8000 { (u as i128 - 0x1_0000) as i16 } else { u as i16 },
            ),
            FieldType::U32 => Value::U32(u as u32),
            FieldType::I32 => Value::I32(
                if u >= 0x8000_0000 { (u as i128 - 0x1_0000_0000) as i32 } else { u as i32 },
            ),
            FieldType::U64 => Value::U64(u),
            FieldType::I64 => Value::I64(
                if u >= 0x8000_0000_0000_0000 {
                    (u as i128 - 0x1_0000_0000_0000_0000) as i64
                } else {
                    u as i64
                },
            ),
            FieldType::Str => Value::U8(0),
        }
    }
}

/// A record: the values of its fields, in schema order.
#[derive(Clone, Debug, PartialEq, Eq)]
pub struct Record {
    pub values: Vec<Value>,
}

impl View for Record {
    type V = Seq<FieldValue>;

    open spec fn view(&self) -> Seq<FieldValue> {
        self.values@.map_values(|v: Value| v@)
    }
}

} // verus!
