use serialize_macro::codec::{deserialise_number_struct, serialise_number_struct, DecodeError};
use serialize_macro::layout::{LayoutPlan, Offset};
use serialize_macro::schema::{type_from_name, FieldDescriptor, FieldType, Schema};
use serialize_macro::value::{Record, Value};

fn schema_of(fields: &[(&str, &str)]) -> Schema {
    Schema {
        fields: fields
            .iter()
            .map(|(n, t)| FieldDescriptor { name: n.to_string(), ty_name: t.to_string() })
            .collect(),
    }
}

fn swap_plan() -> LayoutPlan {
    let schema = schema_of(&[("qty_1", "u64"), ("qty_2", "String"), ("qty_3", "i32")]);
    LayoutPlan::from_schema(&schema).unwrap()
}

fn swap_record() -> Record {
    Record {
        values: vec![Value::U64(1), Value::Str("Hello dsfg".to_string()), Value::I32(1000)],
    }
}

fn swap_bytes() -> Vec<u8> {
    let mut b = vec![1, 0, 0, 0, 0, 0, 0, 0, 10, 0, 0, 0];
    b.extend_from_slice(b"Hello dsfg");
    b.extend_from_slice(&[0xe8, 0x03, 0, 0]);
    b
}

#[test]
fn swap_encodes_to_expected_bytes() {
    let bytes = serialise_number_struct(&swap_plan(), &swap_record()).unwrap();
    assert_eq!(bytes.len(), 26);
    assert_eq!(bytes, swap_bytes());
}

#[test]
fn swap_decodes_back() {
    let plan = swap_plan();
    let bytes = serialise_number_struct(&plan, &swap_record()).unwrap();
    assert_eq!(deserialise_number_struct(&plan, &bytes), Ok(swap_record()));
}

#[test]
fn swap_truncated_inside_string() {
    let bytes = swap_bytes();
    assert_eq!(
        deserialise_number_struct(&swap_plan(), &bytes[..10]),
        Err(DecodeError::TruncatedInput)
    );
}

#[test]
fn swap_invalid_utf8_payload() {
    let mut bytes = swap_bytes();
    for b in &mut bytes[12..22] {
        *b = 0xff;
    }
    assert_eq!(deserialise_number_struct(&swap_plan(), &bytes), Err(DecodeError::InvalidUtf8));
}

#[test]
fn swap_every_prefix_is_truncated() {
    let bytes = swap_bytes();
    for k in 0..bytes.len() {
        assert_eq!(
            deserialise_number_struct(&swap_plan(), &bytes[..k]),
            Err(DecodeError::TruncatedInput),
            "prefix of {} bytes",
            k
        );
    }
}

#[test]
fn trailing_bytes_are_ignored() {
    let mut bytes = swap_bytes();
    bytes.extend_from_slice(&[9, 9, 9, 0xff]);
    assert_eq!(deserialise_number_struct(&swap_plan(), &bytes), Ok(swap_record()));
}

#[test]
fn encoding_is_deterministic() {
    let plan = swap_plan();
    let a = serialise_number_struct(&plan, &swap_record()).unwrap();
    let b = serialise_number_struct(&plan, &swap_record()).unwrap();
    assert_eq!(a, b);
}

fn all_ints_plan() -> LayoutPlan {
    let schema = schema_of(&[
        ("a", "u8"),
        ("b", "i8"),
        ("c", "u16"),
        ("d", "i16"),
        ("e", "u32"),
        ("f", "i32"),
        ("g", "u64"),
        ("h", "i64"),
    ]);
    LayoutPlan::from_schema(&schema).unwrap()
}

#[test]
fn signed_values_are_twos_complement_little_endian() {
    let rec = Record {
        values: vec![
            Value::U8(0xab),
            Value::I8(-1),
            Value::U16(0x1234),
            Value::I16(-2),
            Value::U32(0xdead_beef),
            Value::I32(i32::MIN),
            Value::U64(u64::MAX),
            Value::I64(-3),
        ],
    };
    let bytes = serialise_number_struct(&all_ints_plan(), &rec).unwrap();
    let expected: Vec<u8> = vec![
        0xab, 0xff, 0x34, 0x12, 0xfe, 0xff, 0xef, 0xbe, 0xad, 0xde, 0, 0, 0, 0x80, 0xff, 0xff,
        0xff, 0xff, 0xff, 0xff, 0xff, 0xff, 0xfd, 0xff, 0xff, 0xff, 0xff, 0xff, 0xff, 0xff,
    ];
    assert_eq!(bytes, expected);
    assert_eq!(deserialise_number_struct(&all_ints_plan(), &bytes), Ok(rec));
}

#[test]
fn extreme_values_round_trip() {
    let rec = Record {
        values: vec![
            Value::U8(255),
            Value::I8(i8::MIN),
            Value::U16(u16::MAX),
            Value::I16(i16::MAX),
            Value::U32(0),
            Value::I32(i32::MAX),
            Value::U64(0),
            Value::I64(i64::MIN),
        ],
    };
    let bytes = serialise_number_struct(&all_ints_plan(), &rec).unwrap();
    assert_eq!(deserialise_number_struct(&all_ints_plan(), &bytes), Ok(rec));
}

#[test]
fn fixed_size_schema_takes_summed_widths() {
    let plan = all_ints_plan();
    let bytes = vec![0x5a; 30];
    assert!(deserialise_number_struct(&plan, &bytes).is_ok());
    assert_eq!(
        deserialise_number_struct(&plan, &bytes[..29]),
        Err(DecodeError::TruncatedInput)
    );
    let rec = Record {
        values: vec![
            Value::U8(1),
            Value::I8(2),
            Value::U16(3),
            Value::I16(4),
            Value::U32(5),
            Value::I32(6),
            Value::U64(7),
            Value::I64(8),
        ],
    };
    assert_eq!(serialise_number_struct(&plan, &rec).unwrap().len(), 30);
}

#[test]
fn plan_marks_fields_from_first_string_dynamic() {
    let schema = schema_of(&[("a", "u8"), ("b", "u32"), ("c", "i16"), ("s", "String"), ("d", "u16")]);
    let plan = LayoutPlan::from_schema(&schema).unwrap();
    let offsets: Vec<Offset> = plan.fields.iter().map(|f| f.offset).collect();
    assert_eq!(
        offsets,
        vec![Offset::Static(0), Offset::Static(1), Offset::Static(5), Offset::Dynamic, Offset::Dynamic]
    );
    assert_eq!(plan.fields[3].ty, FieldType::Str);
    assert_eq!(plan.fields[4].name, "d");
}

#[test]
fn unsupported_type_is_a_schema_error() {
    let schema = schema_of(&[("a", "u8"), ("b", "f32"), ("c", "bool")]);
    let err = LayoutPlan::from_schema(&schema).unwrap_err();
    assert_eq!(err.index, 1);
    assert_eq!(err.ty_name, "f32");
}

#[test]
fn type_names_parse() {
    assert_eq!(type_from_name("u8"), Some(FieldType::U8));
    assert_eq!(type_from_name("i64"), Some(FieldType::I64));
    assert_eq!(type_from_name("String"), Some(FieldType::Str));
    assert_eq!(type_from_name("string"), None);
    assert_eq!(type_from_name("u128"), None);
    assert_eq!(type_from_name(""), None);
}

#[test]
fn empty_and_multibyte_strings_round_trip() {
    let schema = schema_of(&[("a", "String"), ("b", "String"), ("c", "u8")]);
    let plan = LayoutPlan::from_schema(&schema).unwrap();
    let rec = Record {
        values: vec![Value::Str(String::new()), Value::Str("héllo €".to_string()), Value::U8(7)],
    };
    let bytes = serialise_number_struct(&plan, &rec).unwrap();
    assert_eq!(&bytes[..4], &[0, 0, 0, 0]);
    assert_eq!(&bytes[4..8], &[10, 0, 0, 0]);
    assert_eq!(bytes.len(), 4 + 4 + 10 + 1);
    assert_eq!(deserialise_number_struct(&plan, &bytes), Ok(rec));
}

#[test]
fn empty_schema_encodes_to_nothing() {
    let plan = LayoutPlan::from_schema(&Schema { fields: vec![] }).unwrap();
    let rec = Record { values: vec![] };
    assert_eq!(serialise_number_struct(&plan, &rec).unwrap(), Vec::<u8>::new());
    assert_eq!(deserialise_number_struct(&plan, &[1, 2, 3]), Ok(Record { values: vec![] }));
}

#[test]
fn conformance_check() {
    let plan = swap_plan();
    assert!(swap_record().conforms_to(&plan));
    let wrong = Record { values: vec![Value::U32(1), Value::Str("x".to_string()), Value::I32(1)] };
    assert!(!wrong.conforms_to(&plan));
    let short = Record { values: vec![Value::U64(1)] };
    assert!(!short.conforms_to(&plan));
}

#[test]
fn decoded_fields_by_name() {
    let plan = swap_plan();
    let rec = deserialise_number_struct(&plan, &swap_bytes()).unwrap();
    assert_eq!(rec.field(&plan, "qty_1"), Some(&Value::U64(1)));
    assert_eq!(rec.field(&plan, "qty_2"), Some(&Value::Str("Hello dsfg".to_string())));
    assert_eq!(rec.field(&plan, "qty_3"), Some(&Value::I32(1000)));
    assert_eq!(rec.field(&plan, "qty_4"), None);
}
