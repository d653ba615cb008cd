use dragnit::paths::{is_binary_schema, is_schema};
use dragnit::schema::{Def, DefKind, Field, Schema, SchemaError, TypeId};
use dragnit::value::FieldValue;

fn field(name: &str, type_id: TypeId, is_array: bool, value: u32) -> Field {
    Field::new(name.to_owned(), type_id, is_array, value).unwrap()
}

fn point() -> Schema {
    Schema::new(vec![Def::new(
        "Point".to_owned(),
        DefKind::Struct,
        vec![field("x", TypeId::Float, false, 0), field("y", TypeId::Float, false, 0)],
    )
    .unwrap()])
}

fn mixed() -> Schema {
    Schema::new(vec![
        Def::new(
            "Point".to_owned(),
            DefKind::Struct,
            vec![field("x", TypeId::Float, false, 0), field("y", TypeId::Float, false, 0)],
        )
        .unwrap(),
        Def::new(
            "Sample".to_owned(),
            DefKind::Struct,
            vec![
                field("id", TypeId::Int, false, 7),
                field("flags", TypeId::Byte, true, 255),
                field("origin", TypeId::DefRef, false, 0),
                field("naïve", TypeId::Float, true, 0x3f80_0000),
            ],
        )
        .unwrap(),
        Def::new("Empty".to_owned(), DefKind::Struct, vec![]).unwrap(),
    ])
}

#[test]
fn point_round_trip_and_zero_payload() {
    let s = point();
    let bytes = s.encode();
    let back = Schema::decode(&bytes).unwrap();
    assert_eq!(back, s);
    let v = back.decode_value(0, &[0, 0, 0, 0, 0, 0, 0, 0]).unwrap();
    assert_eq!(v.fields.len(), 2);
    match (&v.fields[0], &v.fields[1]) {
        (FieldValue::Scalar(x), FieldValue::Scalar(y)) => {
            assert_eq!(f32::from_bits(*x), 0.0);
            assert_eq!(f32::from_bits(*y), 0.0);
        }
        _ => panic!("expected two scalars"),
    }
}

#[test]
fn point_encoding_is_exact() {
    let bytes = point().encode();
    let expected: Vec<u8> = vec![
        1, 0, 0, 0, // one definition
        5, 0, 0, 0, b'P', b'o', b'i', b'n', b't', // name
        0, // Struct
        2, 0, 0, 0, // two fields
        1, 0, 0, 0, b'x', 1, 0, 0, 0, 0, 0, // x: Float, scalar, default 0
        1, 0, 0, 0, b'y', 1, 0, 0, 0, 0, 0, // y
    ];
    assert_eq!(bytes, expected);
}

#[test]
fn byte_default_takes_one_byte() {
    let s = Schema::new(vec![Def::new(
        "B".to_owned(),
        DefKind::Struct,
        vec![field("b", TypeId::Byte, true, 200)],
    )
    .unwrap()]);
    let bytes = s.encode();
    assert_eq!(bytes, vec![1, 0, 0, 0, 1, 0, 0, 0, b'B', 0, 1, 0, 0, 0, 1, 0, 0, 0, b'b', 2, 1, 200]);
}

#[test]
fn mixed_schema_round_trips() {
    let s = mixed();
    assert!(s.fits_format());
    let back = Schema::decode(&s.encode()).unwrap();
    assert_eq!(back, s);
    assert_eq!(back.defs[1].fields[3].name, "naïve");
    assert_eq!(back.defs[1].fields[1].value, 255);
}

#[test]
fn encode_is_idempotent() {
    let s = mixed();
    let once = s.encode();
    let twice = Schema::decode(&once).unwrap().encode();
    assert_eq!(once, twice);
}

#[test]
fn every_strict_prefix_is_truncated() {
    let bytes = mixed().encode();
    for n in 0..bytes.len() {
        assert_eq!(Schema::decode(&bytes[..n]), Err(SchemaError::TruncatedInput), "prefix {}", n);
    }
}

#[test]
fn out_of_range_type_tag_is_unknown() {
    let mut bytes = point().encode();
    // the type tag of field x
    let tag_at = 4 + 4 + 5 + 1 + 4 + 4 + 1;
    assert_eq!(bytes[tag_at], 1);
    for t in [4u8, 9, 255] {
        bytes[tag_at] = t;
        assert_eq!(Schema::decode(&bytes), Err(SchemaError::UnknownTag));
    }
}

#[test]
fn bad_array_flag_and_kind_are_unknown_tags() {
    let mut bytes = point().encode();
    let flag_at = 4 + 4 + 5 + 1 + 4 + 4 + 1 + 1;
    bytes[flag_at] = 2;
    assert_eq!(Schema::decode(&bytes), Err(SchemaError::UnknownTag));
    let mut bytes = point().encode();
    bytes[4 + 4 + 5] = 1;
    assert_eq!(Schema::decode(&bytes), Err(SchemaError::UnknownTag));
}

#[test]
fn name_that_is_not_utf8_is_invalid() {
    let mut bytes = point().encode();
    bytes[8] = 0xff;
    assert_eq!(Schema::decode(&bytes), Err(SchemaError::InvalidName));
}

#[test]
fn empty_input_is_truncated() {
    assert_eq!(Schema::decode(&[]), Err(SchemaError::TruncatedInput));
    assert_eq!(Schema::decode(&[0, 0, 0, 0]), Ok(Schema::new(vec![])));
}

#[test]
fn float_array_of_two() {
    let s = Schema::new(vec![Def::new(
        "Line".to_owned(),
        DefKind::Struct,
        vec![field("pts", TypeId::Float, true, 0)],
    )
    .unwrap()]);
    let mut payload = vec![2, 0, 0, 0];
    payload.extend_from_slice(&1.5f32.to_bits().to_le_bytes());
    payload.extend_from_slice(&(-2.0f32).to_bits().to_le_bytes());
    let v = s.decode_value(0, &payload).unwrap();
    assert_eq!(v.fields.len(), 1);
    match &v.fields[0] {
        FieldValue::Array(xs) => {
            assert_eq!(xs.len(), 2);
            assert_eq!(f32::from_bits(xs[0]), 1.5);
            assert_eq!(f32::from_bits(xs[1]), -2.0);
        }
        _ => panic!("expected an array"),
    }
    assert_eq!(s.decode_value(0, &payload[..11]), Err(SchemaError::TruncatedInput));
}

#[test]
fn def_index_at_length_is_unknown() {
    let s = point();
    assert_eq!(s.decode_value(1, &[0; 8]), Err(SchemaError::UnknownDefinition));
    assert_eq!(Schema::new(vec![]).decode_value(0, &[]), Err(SchemaError::UnknownDefinition));
}

#[test]
fn value_decode_is_deterministic() {
    let s = mixed();
    let payload = [9, 0, 0, 0, 1, 0, 0, 0, 42];
    let a = s.decode_value(1, &payload);
    let b = s.decode_value(1, &payload);
    assert_eq!(a, b);
    let p = [1, 2, 3, 4, 5, 6, 7, 8];
    assert_eq!(s.decode_value(0, &p), s.decode_value(0, &p));
}

#[test]
fn mixed_payload_reads_each_width() {
    let s = mixed();
    let v = s.decode_value(1, &[9, 0, 0, 0, 2, 0, 0, 0, 42, 7]);
    // the third field, a definition reference, has no payload width
    assert_eq!(v, Err(SchemaError::UnsupportedType));
    let only = Schema::new(vec![Def::new(
        "S".to_owned(),
        DefKind::Struct,
        vec![field("id", TypeId::Int, false, 0), field("flags", TypeId::Byte, true, 0)],
    )
    .unwrap()]);
    let v = only.decode_value(0, &[9, 1, 0, 0, 2, 0, 0, 0, 42, 7, 99]).unwrap();
    assert_eq!(v.fields, vec![FieldValue::Scalar(265), FieldValue::Array(vec![42, 7])]);
}

#[test]
fn empty_definition_decodes_to_empty_value() {
    let s = mixed();
    assert_eq!(s.decode_value(2, &[]).unwrap().fields, vec![]);
}

#[test]
fn field_constructor_errors() {
    assert_eq!(Field::new(String::new(), TypeId::Int, false, 0), Err(SchemaError::InvalidName));
    assert_eq!(Field::new("b".to_owned(), TypeId::Byte, false, 256), Err(SchemaError::InvalidType));
    assert!(Field::new("b".to_owned(), TypeId::Byte, false, 255).is_ok());
    assert!(Field::new("i".to_owned(), TypeId::Int, true, u32::MAX).is_ok());
}

#[test]
fn def_constructor_errors() {
    let f = field("x", TypeId::Float, false, 0);
    assert_eq!(
        Def::new(String::new(), DefKind::Struct, vec![f.clone()]),
        Err(SchemaError::InvalidName)
    );
    assert_eq!(
        Def::new("D".to_owned(), DefKind::Struct, vec![f.clone(), f.clone()]),
        Err(SchemaError::InvalidName)
    );
    let bad = Field { name: "b".to_owned(), type_id: TypeId::Byte, is_array: false, value: 300 };
    assert_eq!(
        Def::new("D".to_owned(), DefKind::Struct, vec![f.clone(), bad.clone()]),
        Err(SchemaError::InvalidType)
    );
    let unnamed = Field { name: String::new(), type_id: TypeId::Byte, is_array: false, value: 300 };
    assert_eq!(
        Def::new("D".to_owned(), DefKind::Struct, vec![bad, unnamed]),
        Err(SchemaError::InvalidName)
    );
    let d = Def::new("D".to_owned(), DefKind::Struct, vec![f.clone()]).unwrap();
    assert_eq!(d.fields, vec![f]);
}

#[test]
fn type_tags_round_trip() {
    for t in [TypeId::Int, TypeId::Float, TypeId::Byte, TypeId::DefRef] {
        assert_eq!(TypeId::from_tag(t.tag()), Some(t));
    }
    assert_eq!(TypeId::from_tag(4), None);
    assert_eq!(TypeId::Byte.width(), 1);
    assert_eq!(TypeId::Float.value_width(), Some(4));
    assert_eq!(TypeId::DefRef.value_width(), None);
}

#[test]
fn schema_extensions() {
    assert!(is_schema("points.drgn"));
    assert!(is_schema(".drgn"));
    assert!(!is_schema("points.bdrgn"));
    assert!(!is_schema("drgn"));
    assert!(!is_schema(""));
    assert!(is_binary_schema("output.bdrgn"));
    assert!(!is_binary_schema("output.drgn"));
    assert!(!is_binary_schema("bdrgn"));
}
