//! The layout plan: for each field, whether its byte offset is known from the
//! schema alone or only while reading.

use vstd::prelude::*;
use crate::schema::{FieldType, Schema, type_named, type_from_name};

verus! {

/// Where a field starts.
#[derive(Clone, Copy, Debug, PartialEq, Eq, Structural)]
pub enum Offset {
    /// At this byte offset in every encoding.
    Static(usize),
    /// After a string field, so wherever the reading cursor stands.
    Dynamic,
}

/// One planned field.
#[derive(Clone, Debug)]
pub struct FieldLayout {
    pub name: String,
    pub ty: FieldType,
    pub offset: Offset,
}

/// A planned schema: one entry per field, in schema order.
#[derive(Clone, Debug)]
pub struct LayoutPlan {
    pub fields: Vec<FieldLayout>,
}

/// The first field of a schema whose type name no supported type has.
#[derive(Clone, Debug)]
pub struct SchemaError {
    pub index: usize,
    pub ty_name: String,
}

/// Whether any of `types` is a string.
pub open spec fn has_text(types: Seq<FieldType>) -> bool {
    exists|j: int| 0 <= j < types.len() && types[j] is Str
}

/// The summed widths of `types`.
pub open spec fn total_width(types: Seq<FieldType>) -> nat
    decreases types.len(),
{
    if types.len() == 0 {
        0
    } else {
        total_width(types.drop_last()) + types.last().width()
    }
}

/// The offset that field `i` of a schema with field types `types` has: static
/// at the summed widths of the fields before it while neither it nor any of
/// those is a string, dynamic from the first string on.
pub open spec fn planned_offset(types: Seq<FieldType>, i: int) -> Option<nat> {
    if has_text(types.take(i + 1)) {
        None
    } else {
        Some(total_width(types.take(i)))
    }
}

pub open spec fn offset_matches(o: Offset, planned: Option<nat>) -> bool {
    match o {
        Offset::Static(off) => planned == Some(off as nat),
        Offset::Dynamic => planned is None,
    }
}

impl LayoutPlan {
    /// The field types, in order.
    pub open spec fn types(&self) -> Seq<FieldType> {
        self.fields@.map_values(|f: FieldLayout| f.ty)
    }

    /// Each field's offset is the one that the types before it decide.
    pub open spec fn wf(&self) -> bool {
        forall|i: int|
            0 <= i < self.fields@.len() ==> offset_matches(
                #[trigger] self.fields@[i].offset,
                planned_offset(self.types(), i),
            )
    }

    /// Plans a schema. Fails on the first field whose type name is not one of
    /// `u8`, `i8`, `u16`, `i16`, `u32`, `i32`, `u64`, `i64`, `String`.
    pub fn from_schema(schema: &Schema) -> (r: Result<LayoutPlan, SchemaError>)
        requires
            schema.fields@.len() <= usize::MAX / 8,
        ensures
            r is Ok <==> forall|i: int|
                0 <= i < schema.fields@.len() ==> (#[trigger] type_named(
                    schema.fields@[i].ty_name@,
                )) is Some,
            r matches Ok(p) ==> {
                &&& p.wf()
                &&& p.fields@.len() == schema.fields@.len()
                &&& forall|i: int|
                    0 <= i < p.fields@.len() ==> {
                        &&& (#[trigger] p.fields@[i]).name@ == schema.fields@[i].name@
                        &&& type_named(schema.fields@[i].ty_name@) == Some(p.fields@[i].ty)
                    }
            },
            r matches Err(e) ==> {
                &&& e.index < schema.fields@.len()
                &&& e.ty_name@ == schema.fields@[e.index as int].ty_name@
                &&& type_named(e.ty_name@) is None
                &&& forall|i: int|
                    0 <= i < e.index ==> (#[trigger] type_named(
                        schema.fields@[i].ty_name@,
                    )) is Some
            },
    {
        let n = schema.fields.len();
        let mut fields: Vec<FieldLayout> = Vec::new();
        let mut counter: usize = 0;
        let mut dynamic = false;
        let mut i: usize = 0;
        while i < n
            invariant
                n == schema.fields@.len() <= usize::MAX / 8,
                i <= n,
                fields@.len() == i,
                forall|j: int|
                    0 <= j < i ==> {
                        &&& (#[trigger] fields@[j]).name@ == schema.fields@[j].name@
                        &&& type_named(schema.fields@[j].ty_name@) == Some(fields@[j].ty)
                    },
                (LayoutPlan { fields }).wf(),
                dynamic == has_text((LayoutPlan { fields }).types()),
                !dynamic ==> counter == total_width((LayoutPlan { fields }).types()),
                counter <= 8 * i,
            decreases n - i,
        {
            let d = &schema.fields[i];
            let ty = match type_from_name(d.ty_name.as_str()) {
                Some(t) => t,
                None => {
                    assert forall|j: int| 0 <= j < i implies (#[trigger] type_named(
                        schema.fields@[j].ty_name@,
                    )) is Some by {
                        assert(fields@[j].name@ == schema.fields@[j].name@);
                    }
                    return Err(SchemaError { index: i, ty_name: d.ty_name.clone() });
                },
            };
            let ghost old_types = (LayoutPlan { fields }).types();
            let offset = if dynamic || ty == FieldType::Str {
                Offset::Dynamic
            } else {
                Offset::Static(counter)
            };
            fields.push(FieldLayout { name: d.name.clone(), ty, offset });
            let ghost new_types = (LayoutPlan { fields }).types();
            proof {
                assert(new_types =~= old_types.push(ty));
                assert(new_types.drop_last() =~= old_types);
                assert forall|j: int| 0 <= j < i implies #[trigger] planned_offset(new_types, j)
                    == planned_offset(old_types, j) by {
                    assert(new_types.take(j + 1) =~= old_types.take(j + 1));
                    assert(new_types.take(j) =~= old_types.take(j));
                }
                assert(new_types.take(i + 1) =~= new_types);
                assert(new_types.take(i as int) =~= old_types);
                if has_text(new_types) && !dynamic {
                    let j = choose|j: int| 0 <= j < new_types.len() && new_types[j] is Str;
                    if j < i {
                        assert(old_types[j] is Str);
                    }
                }
                if dynamic {
                    let j = choose|j: int| 0 <= j < old_types.len() && old_types[j] is Str;
                    assert(new_types[j] is Str);
                }
                if ty == FieldType::Str {
                    assert(new_types[i as int] is Str);
                }
                assert(forall|j: int|
                    0 <= j < fields@.len() ==> offset_matches(
                        #[trigger] fields@[j].offset,
                        planned_offset(new_types, j),
                    ));
            }
            if !dynamic && ty != FieldType::Str {
                counter = counter + ty.byte_width();
            }
            if ty == FieldType::Str {
                dynamic = true;
            }
            i = i + 1;
        }
        assert forall|j: int| 0 <= j < n implies (#[trigger] type_named(
            schema.fields@[j].ty_name@,
        )) is Some by {
            assert(fields@[j].name@ == schema.fields@[j].name@);
        }
        Ok(LayoutPlan { fields })
    }
}

} // verus!
