use save_codec::codec::{map_codec, Codec, Field, Value, VariantCase};
use save_codec::cursor::ByteCursor;
use save_codec::engine::{decode_value, encode_value};
use save_codec::error::CodecError;
use save_codec::text::TextValue;
use save_codec::version::{decode_version, Version, CURRENT_VERSION};
use save_codec::{decode, encode, SaveFile};

fn le(x: u32) -> Vec<u8> {
    x.to_le_bytes().to_vec()
}

fn lei(x: i32) -> Vec<u8> {
    x.to_le_bytes().to_vec()
}

fn cat(parts: Vec<Vec<u8>>) -> Vec<u8> {
    let mut out = Vec::new();
    for p in parts {
        out.extend(p);
    }
    out
}

fn two_field_schema() -> Codec {
    Codec::Record(vec![
        Field { name: "field_a", codec: Codec::I32 },
        Field { name: "field_b", codec: Codec::I32 },
    ])
}

#[test]
fn version_gate_rejects_58_and_consumes_nothing_further() {
    let mut bytes = lei(58);
    bytes.extend(lei(10));
    let mut cur = ByteCursor::new(bytes);
    let r = decode_version(&mut cur, 59);
    assert_eq!(r, Err(CodecError::UnsupportedVersion { found: 58, expected: 59 }));
    assert_eq!(cur.position_exec(), 4);
}

#[test]
fn version_type_accepts_current_version_only() {
    let mut cur = ByteCursor::new(lei(CURRENT_VERSION));
    assert_eq!(Version::deserialize(&mut cur), Ok(Version(59)));
    let mut cur = ByteCursor::new(lei(60));
    assert_eq!(
        Version::deserialize(&mut cur),
        Err(CodecError::UnsupportedVersion { found: 60, expected: 59 })
    );
}

#[test]
fn end_to_end_synthetic_buffer_two_int_fields() {
    let input = cat(vec![lei(59), lei(10), lei(20)]);
    let schema = two_field_schema();

    let mut cur = ByteCursor::new(input.clone());
    let version = decode_version(&mut cur, 59).unwrap();
    assert_eq!(version, 59);
    let body = decode_value(&schema, &mut cur).unwrap();
    match &body {
        Value::Record(fields) => {
            assert_eq!(fields[0], Value::I32(10));
            assert_eq!(fields[1], Value::I32(20));
        },
        other => panic!("expected a record, got {:?}", other),
    }
    assert_eq!(cur.position_exec(), 12);

    let mut out = Vec::new();
    save_codec::version::encode_version(&mut out, version);
    encode_value(&schema, &body, &mut out).unwrap();
    assert_eq!(out, input);
}

#[test]
fn whole_file_round_trip_with_footer() {
    let schema = two_field_schema();
    let file = SaveFile {
        version: 59,
        body: Value::Record(vec![Value::I32(-7), Value::I32(1234567)]),
        stored_checksum: 0,
    };
    let bytes = encode(&file, &schema).unwrap();
    assert_eq!(bytes.len(), 16);

    let decoded = decode(bytes.clone(), 59, &schema).unwrap();
    assert_eq!(decoded.version, 59);
    assert_eq!(decoded.body, file.body);

    let again = encode(&decoded, &schema).unwrap();
    assert_eq!(again, bytes);
    assert!(save_codec::harness::matches_except_footer(&again, &bytes));
}

#[test]
fn record_field_order_is_encode_order() {
    let schema = Codec::Record(vec![
        Field { name: "first", codec: Codec::U32 },
        Field { name: "second", codec: Codec::Byte },
    ]);
    let v = Value::Record(vec![Value::U32(0xAABBCCDD), Value::Byte(0x11)]);
    let mut out = Vec::new();
    encode_value(&schema, &v, &mut out).unwrap();
    assert_eq!(out, vec![0xDD, 0xCC, 0xBB, 0xAA, 0x11]);

    let mut cur = ByteCursor::new(out);
    let back = decode_value(&schema, &mut cur).unwrap();
    assert_eq!(back, v);
}

#[test]
fn list_round_trip_preserves_length_and_elements() {
    let schema = Codec::List(Box::new(Codec::I32));
    let v = Value::List(vec![Value::I32(1), Value::I32(-2), Value::I32(300)]);
    let mut out = Vec::new();
    encode_value(&schema, &v, &mut out).unwrap();
    assert_eq!(out.len(), 4 + 3 * 4);
    assert_eq!(&out[0..4], &[3, 0, 0, 0]);

    let mut cur = ByteCursor::new(out.clone());
    let back = decode_value(&schema, &mut cur).unwrap();
    match (&back, &v) {
        (Value::List(a), Value::List(b)) => {
            assert_eq!(a.len(), b.len());
            assert_eq!(a, b);
        },
        _ => panic!("expected lists"),
    }

    // each element also round-trips on its own, independent of the list
    let elem_bytes = lei(-2);
    let mut cur = ByteCursor::new(elem_bytes);
    assert_eq!(decode_value(&Codec::I32, &mut cur), Ok(Value::I32(-2)));
}

#[test]
fn empty_list_round_trip() {
    let schema = Codec::List(Box::new(Codec::Bool));
    let v = Value::List(vec![]);
    let mut out = Vec::new();
    encode_value(&schema, &v, &mut out).unwrap();
    assert_eq!(out, vec![0, 0, 0, 0]);
    let mut cur = ByteCursor::new(out);
    assert_eq!(decode_value(&schema, &mut cur), Ok(Value::List(vec![])));
}

#[test]
fn map_codec_preserves_entry_order() {
    let schema = map_codec(Codec::U32, Codec::I32);
    let entry = |k: u32, v: i32| Value::Record(vec![Value::U32(k), Value::I32(v)]);
    let v = Value::List(vec![entry(9, -1), entry(3, 5), entry(7, 0)]);
    let mut out = Vec::new();
    encode_value(&schema, &v, &mut out).unwrap();
    let mut cur = ByteCursor::new(out);
    let back = decode_value(&schema, &mut cur).unwrap();
    assert_eq!(back, v);
}

#[test]
fn variant_round_trip_preserves_discriminant_and_payload() {
    let schema = Codec::Variant(vec![
        VariantCase { tag: 7, payload: vec![] },
        VariantCase { tag: 9, payload: vec![Field { name: "count", codec: Codec::I32 }] },
    ]);
    let v = Value::Variant(1, vec![Value::I32(5)]);
    let mut out = Vec::new();
    encode_value(&schema, &v, &mut out).unwrap();
    assert_eq!(&out[0..4], &[9, 0, 0, 0]);

    let mut cur = ByteCursor::new(out);
    let back = decode_value(&schema, &mut cur).unwrap();
    assert_eq!(back, v);

    let v0 = Value::Variant(0, vec![]);
    let mut out = Vec::new();
    encode_value(&schema, &v0, &mut out).unwrap();
    assert_eq!(out, vec![7, 0, 0, 0]);
}

#[test]
fn unmapped_discriminant_fails_with_unknown_discriminant() {
    let schema = Codec::Variant(vec![
        VariantCase { tag: 0, payload: vec![] },
        VariantCase { tag: 1, payload: vec![] },
    ]);
    let bytes = le(0xFFFFFFFF);
    let mut cur = ByteCursor::new(bytes);
    assert_eq!(
        decode_value(&schema, &mut cur),
        Err(CodecError::UnknownDiscriminant(0xFFFFFFFF))
    );
}

#[test]
fn bool_is_lenient_on_decode_strict_on_encode() {
    let mut cur = ByteCursor::new(vec![5]);
    assert_eq!(decode_value(&Codec::Bool, &mut cur), Ok(Value::Bool(true)));
    let mut out = Vec::new();
    encode_value(&Codec::Bool, &Value::Bool(true), &mut out).unwrap();
    assert_eq!(out, vec![1]);
    let mut out = Vec::new();
    encode_value(&Codec::Bool, &Value::Bool(false), &mut out).unwrap();
    assert_eq!(out, vec![0]);
}

#[test]
fn padding_is_preserved_verbatim() {
    let schema = Codec::Padding(4);
    let mut cur = ByteCursor::new(vec![0xDE, 0xAD, 0xBE, 0xEF, 0x99]);
    let v = decode_value(&schema, &mut cur).unwrap();
    assert_eq!(v, Value::Padding(vec![0xDE, 0xAD, 0xBE, 0xEF]));
    assert_eq!(cur.position_exec(), 4);
    let mut out = Vec::new();
    encode_value(&schema, &v, &mut out).unwrap();
    assert_eq!(out, vec![0xDE, 0xAD, 0xBE, 0xEF]);
}

#[test]
fn short_input_fails_with_unexpected_eof() {
    let mut cur = ByteCursor::new(vec![1, 2, 3]);
    assert_eq!(decode_value(&Codec::I32, &mut cur), Err(CodecError::UnexpectedEof));
}

#[test]
fn oversized_count_fails_with_truncated_sequence() {
    let schema = Codec::List(Box::new(Codec::I32));
    let bytes = le(1000); // 1000 elements announced, no bytes follow
    let mut cur = ByteCursor::new(bytes);
    assert_eq!(decode_value(&schema, &mut cur), Err(CodecError::TruncatedSequence));
}

#[test]
fn narrow_text_round_trip_lengths_0_1_n() {
    for content in [vec![], vec![b'a'], b"hello world".to_vec()] {
        let v = Value::Text(TextValue::Narrow(content.clone()));
        let mut out = Vec::new();
        encode_value(&Codec::Text, &v, &mut out).unwrap();
        if content.is_empty() {
            assert_eq!(out, vec![0, 0, 0, 0]);
        } else {
            let n = (content.len() + 1) as u32;
            let mut expect = le(n);
            expect.extend(&content);
            expect.push(0);
            assert_eq!(out, expect);
        }
        let mut cur = ByteCursor::new(out);
        assert_eq!(decode_value(&Codec::Text, &mut cur), Ok(v));
    }
}

#[test]
fn wide_text_round_trip_including_surrogate_pair() {
    // a character outside the basic plane takes two wide units
    let cases: Vec<Vec<u16>> = vec![vec![], vec![0x00E9], vec![0xD83D, 0xDE00, 0x0041]];
    for units in cases {
        let v = Value::Text(TextValue::Wide(units.clone()));
        let mut out = Vec::new();
        encode_value(&Codec::Text, &v, &mut out).unwrap();
        let n = (units.len() + 1) as i32;
        assert_eq!(&out[0..4], &(-n).to_le_bytes());
        assert_eq!(out.len(), 4 + 2 * units.len() + 2);
        let mut cur = ByteCursor::new(out);
        assert_eq!(decode_value(&Codec::Text, &mut cur), Ok(v));
    }
}

#[test]
fn narrow_text_missing_terminator_fails() {
    // length prefix 2: one content byte plus a terminator that is not zero
    let bytes = cat(vec![le(2), vec![b'a', b'x']]);
    let mut cur = ByteCursor::new(bytes);
    assert_eq!(decode_value(&Codec::Text, &mut cur), Err(CodecError::TextEncodingError));
}

#[test]
fn nested_aggregate_round_trip() {
    let schema = Codec::Record(vec![
        Field { name: "title", codec: Codec::Text },
        Field {
            name: "entries",
            codec: Codec::List(Box::new(Codec::Record(vec![
                Field { name: "id", codec: Codec::I32 },
                Field { name: "alive", codec: Codec::Bool },
            ]))),
        },
        Field { name: "pad", codec: Codec::Padding(2) },
    ]);
    let v = Value::Record(vec![
        Value::Text(TextValue::Narrow(b"save".to_vec())),
        Value::List(vec![
            Value::Record(vec![Value::I32(1), Value::Bool(true)]),
            Value::Record(vec![Value::I32(-9), Value::Bool(false)]),
        ]),
        Value::Padding(vec![0xFF, 0x00]),
    ]);
    let mut out = Vec::new();
    encode_value(&schema, &v, &mut out).unwrap();
    let mut cur = ByteCursor::new(out.clone());
    let back = decode_value(&schema, &mut cur).unwrap();
    assert_eq!(back, v);
    assert_eq!(cur.position_exec(), out.len());
}
