use save_codec::codec::{Codec, Field, Value};
use save_codec::cursor::ByteCursor;
use save_codec::error::CodecError;
use save_codec::harness::{first_mismatch, matches_except_footer};
use save_codec::tagged::{
    decode_properties, decode_property, encode_properties, encode_property,
    record_to_properties, PropertyRecord,
};
use save_codec::text::TextValue;
use save_codec::{decode_save, encode_save, Backend, SaveBody, SaveDocument};

fn prop(name: &str, tag: u32, payload: Vec<u8>) -> PropertyRecord {
    PropertyRecord { name: TextValue::Narrow(name.as_bytes().to_vec()), type_tag: tag, payload }
}

#[test]
fn property_record_round_trip() {
    let p = prop("Health", 2, vec![0, 0, 0xC8, 0x42]);
    let mut out = Vec::new();
    encode_property(&p, &mut out).unwrap();
    // name framing: 4 length + 6 chars + NUL, then tag, size, payload
    assert_eq!(out.len(), 4 + 7 + 4 + 4 + 4);
    let mut cur = ByteCursor::new(out);
    assert_eq!(decode_property(&mut cur), Ok(p));
}

#[test]
fn unrecognized_property_payload_is_kept_opaque() {
    // an unknown name still round-trips; the payload is raw bytes either way
    let p = prop("TotallyUnknownProperty", 99, vec![1, 2, 3, 4, 5, 6, 7]);
    let mut out = Vec::new();
    encode_property(&p, &mut out).unwrap();
    let mut cur = ByteCursor::new(out);
    let back = decode_property(&mut cur).unwrap();
    assert_eq!(back.payload, vec![1, 2, 3, 4, 5, 6, 7]);
    assert_eq!(back, p);
}

#[test]
fn property_stream_round_trip_in_order() {
    let ps = vec![
        prop("Level", 1, vec![30, 0, 0, 0]),
        prop("Name", 4, vec![b'S', b'h', b'e', b'p']),
        prop("Flags", 7, vec![]),
    ];
    let mut out = Vec::new();
    encode_properties(&ps, &mut out).unwrap();
    let mut cur = ByteCursor::new(out);
    let back = decode_properties(&mut cur).unwrap();
    assert_eq!(back, ps);
}

#[test]
fn truncated_property_payload_fails_eof() {
    let p = prop("Area", 3, vec![9, 9, 9, 9]);
    let mut out = Vec::new();
    encode_property(&p, &mut out).unwrap();
    out.truncate(out.len() - 2);
    let mut cur = ByteCursor::new(out);
    assert_eq!(decode_property(&mut cur), Err(CodecError::UnexpectedEof));
}

#[test]
fn diff_reports_first_mismatching_chunk_offset() {
    let a: Vec<u8> = (0u8..32).collect();
    let mut b = a.clone();
    assert_eq!(first_mismatch(&a, &b), None);
    b[13] = 0xFF;
    assert_eq!(first_mismatch(&a, &b), Some(12));
    b[13] = 13;
    b[2] = 0xFF;
    assert_eq!(first_mismatch(&a, &b), Some(0));
}

#[test]
fn stream_error_is_first_failing_record() {
    let good = prop("Ok", 1, vec![1, 2]);
    let mut out = Vec::new();
    encode_property(&good, &mut out).unwrap();
    // a second record whose announced payload size runs past the buffer
    let mut bad = Vec::new();
    encode_property(&prop("Bad", 2, vec![7, 7, 7, 7]), &mut bad).unwrap();
    bad.truncate(bad.len() - 3);
    out.extend(bad);
    let mut cur = ByteCursor::new(out);
    assert_eq!(decode_properties(&mut cur), Err(CodecError::UnexpectedEof));
}

#[test]
fn record_traversal_emits_one_property_per_field() {
    let fs = vec![
        Field { name: "level", codec: Codec::I32 },
        Field { name: "alive", codec: Codec::Bool },
        Field { name: "name", codec: Codec::Text },
    ];
    let vs = vec![
        Value::I32(30),
        Value::Bool(true),
        Value::Text(TextValue::Narrow(b"Shep".to_vec())),
    ];
    let ps = record_to_properties(&fs, &vs).unwrap();
    assert_eq!(ps.len(), 3);
    assert_eq!(ps[0].name, TextValue::Narrow(b"level".to_vec()));
    assert_eq!(ps[0].payload, 30i32.to_le_bytes().to_vec());
    assert_eq!(ps[1].name, TextValue::Narrow(b"alive".to_vec()));
    assert_eq!(ps[1].payload, vec![1]);
    assert_eq!(ps[2].name, TextValue::Narrow(b"name".to_vec()));
    // the payload is the field's positional encoding: prefix, text, terminator
    let mut expect = 5u32.to_le_bytes().to_vec();
    expect.extend(b"Shep");
    expect.push(0);
    assert_eq!(ps[2].payload, expect);
    assert_ne!(ps[0].type_tag, ps[2].type_tag);
}

#[test]
fn tagged_file_round_trip_via_backend_dispatch() {
    let ps = vec![prop("Level", 1, vec![30, 0, 0, 0]), prop("Flags", 7, vec![])];
    let doc = SaveDocument { version: 59, body: SaveBody::Tagged(ps), stored_checksum: 0 };
    let bytes = encode_save(&doc, &Backend::Tagged).unwrap();

    let back = decode_save(bytes.clone(), 59, &Backend::Tagged).unwrap();
    assert_eq!(back.version, 59);
    match &back.body {
        SaveBody::Tagged(qs) => {
            assert_eq!(qs.len(), 2);
            assert_eq!(qs[0].payload, vec![30, 0, 0, 0]);
        },
        _ => panic!("expected the tagged backend"),
    }
    let again = encode_save(&back, &Backend::Tagged).unwrap();
    assert_eq!(again, bytes);
    assert!(matches_except_footer(&again, &bytes));
}

#[test]
fn positional_file_round_trip_via_backend_dispatch() {
    let backend = Backend::Positional(Codec::Record(vec![
        Field { name: "field_a", codec: Codec::I32 },
        Field { name: "field_b", codec: Codec::I32 },
    ]));
    let doc = SaveDocument {
        version: 59,
        body: SaveBody::Positional(Value::Record(vec![Value::I32(10), Value::I32(20)])),
        stored_checksum: 0,
    };
    let bytes = encode_save(&doc, &backend).unwrap();
    assert_eq!(&bytes[0..12], &[59, 0, 0, 0, 10, 0, 0, 0, 20, 0, 0, 0]);
    let back = decode_save(bytes.clone(), 59, &backend).unwrap();
    assert_eq!(encode_save(&back, &backend).unwrap(), bytes);
}

#[test]
fn wrong_version_fails_under_either_backend() {
    let bytes = vec![58, 0, 0, 0, 1, 2, 3, 4];
    assert_eq!(
        decode_save(bytes.clone(), 59, &Backend::Tagged),
        Err(CodecError::UnsupportedVersion { found: 58, expected: 59 })
    );
    let e = decode_save(bytes, 59, &Backend::Positional(Codec::I32)).unwrap_err();
    assert_eq!(
        e.message(),
        "wrong save version, please use a save from the last version of the game"
    );
}
