//! Field types and the schema of a record type.

use vstd::prelude::*;

verus! {

/// The type of one field: a fixed-width integer or a UTF-8 string.
#[derive(Clone, Copy, Debug, PartialEq, Eq, Structural)]
pub enum FieldType {
    U8,
    I8,
    U16,
    I16,
    U32,
    I32,
    U64,
    I64,
    Str,
}

impl FieldType {
    /// Whether values of this type take the same number of bytes every time.
    pub open spec fn is_fixed(self) -> bool {
        !(self is Str)
    }

    pub open spec fn is_signed(self) -> bool {
        self is I8 || self is I16 || self is I32 || self is I64
    }

    /// Bytes taken by a value of a fixed-width type (none for a string).
    pub open spec fn width(self) -> nat {
        match self {
            FieldType::U8 | FieldType::I8 => 1,
            FieldType::U16 | FieldType::I16 => 2,
            FieldType::U32 | FieldType::I32 => 4,
            FieldType::U64 | FieldType::I64 => 8,
            FieldType::Str => 0,
        }
    }

    /// Whether the integer `x` is a value of this fixed-width type.
    pub open spec fn in_range(self, x: int) -> bool {
        match self {
            FieldType::U8 => 0 <= x <= u8::MAX,
            FieldType::I8 => i8::MIN <= x <= i8::MAX,
            FieldType::U16 => 0 <= x <= u16::MAX,
            FieldType::I16 => i16::MIN <= x <= i16::MAX,
            FieldType::U32 => 0 <= x <= u32::MAX,
            FieldType::I32 => i32::MIN <= x <= i32::MAX,
            FieldType::U64 => 0 <= x <= u64::MAX,
            FieldType::I64 => i64::MIN <= x <= i64::MAX,
            FieldType::Str => false,
        }
    }

    pub fn byte_width(&self) -> (r: usize)
        ensures
            r == self.width(),
    {
        match self {
            FieldType::U8 | FieldType::I8 => 1,
            FieldType::U16 | FieldType::I16 => 2,
            FieldType::U32 | FieldType::I32 => 4,
            FieldType::U64 | FieldType::I64 => 8,
            FieldType::Str => 0,
        }
    }
}

/// The field type that a type name denotes, if it is one of the supported ones.
pub open spec fn type_named(s: Seq<char>) -> Option<FieldType> {
    if s == "u8"@ {
        Some(FieldType::U8)
    } else if s == "i8"@ {
        Some(FieldType::I8)
    } else if s == "u16"@ {
        Some(FieldType::U16)
    } else if s == "i16"@ {
        Some(FieldType::I16)
    } else if s == "u32"@ {
        Some(FieldType::U32)
    } else if s == "i32"@ {
        Some(FieldType::I32)
    } else if s == "u64"@ {
        Some(FieldType::U64)
    } else if s == "i64"@ {
        Some(FieldType::I64)
    } else if s == "String"@ {
        Some(FieldType::Str)
    } else {
        None
    }
}

pub(crate) fn same_chars(a: &str, b: &str) -> (r: bool)
    ensures
        r == (a@ == b@),
{
    let n = a.unicode_len();
    if n != b.unicode_len() {
        return false;
    }
    let mut i: usize = 0;
    while i < n
        invariant
            n == a@.len() == b@.len(),
            i <= n,
            forall|j: int| 0 <= j < i ==> a@[j] == b@[j],
        decreases n - i,
    {
        if a.get_char(i) != b.get_char(i) {
            return false;
        }
        i = i + 1;
    }
    assert(a@ =~= b@);
    true
}

/// Parses a type name (`u8` ... `i64`, `String`) into a field type.
pub fn type_from_name(name: &str) -> (r: Option<FieldType>)
    ensures
        r == type_named(name@),
{
    if same_chars(name, "u8") {
        Some(FieldType::U8)
    } else if same_chars(name, "i8") {
        Some(FieldType::I8)
    } else if same_chars(name, "u16") {
        Some(FieldType::U16)
    } else if same_chars(name, "i16") {
        Some(FieldType::I16)
    } else if same_chars(name, "u32") {
        Some(FieldType::U32)
    } else if same_chars(name, "i32") {
        Some(FieldType::I32)
    } else if same_chars(name, "u64") {
        Some(FieldType::U64)
    } else if same_chars(name, "i64") {
        Some(FieldType::I64)
    } else if same_chars(name, "String") {
        Some(FieldType::Str)
    } else {
        None
    }
}

/// One field of a schema: its name and the name of its type, as the record
/// type declares them.
#[derive(Clone, Debug)]
pub struct FieldDescriptor {
    pub name: String,
    pub ty_name: String,
}

/// The ordered fields of a record type.
#[derive(Clone, Debug)]
pub struct Schema {
    pub fields: Vec<FieldDescriptor>,
}

} // verus!
