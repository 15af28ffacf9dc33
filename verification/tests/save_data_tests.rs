use save_codec::cursor::ByteCursor;
use save_codec::error::CodecError;
use save_codec::save::{
    AutoReplyModeOptions, Difficulty, EndGameState, Level, Rotator, SaveTimeStamp,
    StreamingRecord, Vector, Vector2d,
};
use save_codec::engine::{decode_value, encode_value};
use save_codec::save::{galaxy_map_codec, planet_codec, system_codec};
use save_codec::codec::Value;
use save_codec::text::TextValue;

#[test]
fn end_game_state_round_trip_and_unknown() {
    for (v, tag) in [
        (EndGameState::NotFinished, 0u32),
        (EndGameState::OutInABlazeOfGlory, 1),
        (EndGameState::LivedToFightAgain, 2),
    ] {
        let mut out = Vec::new();
        v.serialize(&mut out);
        assert_eq!(out, tag.to_le_bytes().to_vec());
        let mut cur = ByteCursor::new(out);
        assert_eq!(EndGameState::deserialize(&mut cur), Ok(v));
    }
    let mut cur = ByteCursor::new(3u32.to_le_bytes().to_vec());
    assert_eq!(EndGameState::deserialize(&mut cur), Err(CodecError::UnknownDiscriminant(3)));
}

#[test]
fn difficulty_round_trip_and_unknown() {
    for (v, tag) in [
        (Difficulty::Narrative, 0u32),
        (Difficulty::Casual, 1),
        (Difficulty::Normal, 2),
        (Difficulty::Hardcore, 3),
        (Difficulty::Insanity, 4),
    ] {
        let mut out = Vec::new();
        v.serialize(&mut out);
        assert_eq!(out, tag.to_le_bytes().to_vec());
        let mut cur = ByteCursor::new(out);
        assert_eq!(Difficulty::deserialize(&mut cur), Ok(v));
    }
    let mut cur = ByteCursor::new(9u32.to_le_bytes().to_vec());
    assert_eq!(Difficulty::deserialize(&mut cur), Err(CodecError::UnknownDiscriminant(9)));
}

#[test]
fn auto_reply_mode_round_trip() {
    for v in [
        AutoReplyModeOptions::AllDecisions,
        AutoReplyModeOptions::MajorDecisions,
        AutoReplyModeOptions::NoDecisions,
    ] {
        let mut out = Vec::new();
        v.serialize(&mut out);
        let mut cur = ByteCursor::new(out);
        assert_eq!(AutoReplyModeOptions::deserialize(&mut cur), Ok(v));
    }
}

#[test]
fn save_time_stamp_round_trip() {
    let v = SaveTimeStamp { seconds_since_midnight: 45296, day: 14, month: 3, year: 2012 };
    let mut out = Vec::new();
    v.serialize(&mut out);
    assert_eq!(out.len(), 16);
    assert_eq!(&out[0..4], &45296i32.to_le_bytes());
    let mut cur = ByteCursor::new(out);
    assert_eq!(SaveTimeStamp::deserialize(&mut cur), Ok(v));
}

#[test]
fn rotator_round_trip() {
    let v = Rotator { pitch: -100, yaw: 32768, roll: 0 };
    let mut out = Vec::new();
    v.serialize(&mut out);
    assert_eq!(out.len(), 12);
    let mut cur = ByteCursor::new(out);
    assert_eq!(Rotator::deserialize(&mut cur), Ok(v));
}

#[test]
fn vector_bits_round_trip() {
    // 1.0f32 is 0x3F800000; the codec carries the bits, never the arithmetic
    let v = Vector { x_bits: 0x3F800000, y_bits: 0, z_bits: 0xC0490FDB };
    let mut out = Vec::new();
    v.serialize(&mut out);
    assert_eq!(&out[0..4], &[0x00, 0x00, 0x80, 0x3F]);
    let mut cur = ByteCursor::new(out);
    assert_eq!(Vector::deserialize(&mut cur), Ok(v));

    let v2 = Vector2d { x_bits: 0x3F000000, y_bits: 0xBF800000 };
    let mut out = Vec::new();
    v2.serialize(&mut out);
    let mut cur = ByteCursor::new(out);
    assert_eq!(Vector2d::deserialize(&mut cur), Ok(v2));
}

#[test]
fn level_round_trip() {
    let v = Level {
        name: TextValue::Narrow(b"BioA_Nor".to_vec()),
        should_be_loaded: true,
        should_be_visible: false,
    };
    let mut out = Vec::new();
    v.serialize(&mut out).unwrap();
    // 4-byte length (8 chars + terminator), name, NUL, two flag bytes
    assert_eq!(out.len(), 4 + 9 + 2);
    assert_eq!(&out[0..4], &9u32.to_le_bytes());
    assert_eq!(out[out.len() - 2], 1);
    assert_eq!(out[out.len() - 1], 0);
    let mut cur = ByteCursor::new(out);
    assert_eq!(Level::deserialize(&mut cur), Ok(v));
}

#[test]
fn streaming_record_round_trip() {
    let v = StreamingRecord { name: TextValue::Narrow(b"ss_global".to_vec()), is_active: true };
    let mut out = Vec::new();
    v.serialize(&mut out).unwrap();
    let mut cur = ByteCursor::new(out);
    assert_eq!(StreamingRecord::deserialize(&mut cur), Ok(v));
}

#[test]
fn galaxy_map_round_trips_through_its_schema() {
    let planet = |id: i32, visited: bool, probes: Vec<(u32, u32)>, scanned: bool| {
        Value::Record(vec![
            Value::I32(id),
            Value::Bool(visited),
            Value::List(
                probes
                    .into_iter()
                    .map(|(x, y)| Value::Record(vec![Value::Float(x), Value::Float(y)]))
                    .collect(),
            ),
            Value::Bool(scanned),
        ])
    };
    let system =
        |id: i32, alert: u32, detected: bool| {
            Value::Record(vec![Value::I32(id), Value::Float(alert), Value::Bool(detected)])
        };
    let map = Value::Record(vec![
        Value::List(vec![
            planet(1, true, vec![(0x3F800000, 0x40000000)], false),
            planet(2, false, vec![], true),
        ]),
        Value::List(vec![system(7, 0x3F000000, true)]),
    ]);
    let schema = galaxy_map_codec();
    let mut out = Vec::new();
    encode_value(&schema, &map, &mut out).unwrap();
    let mut cur = ByteCursor::new(out);
    assert_eq!(decode_value(&schema, &mut cur), Ok(map));

    // a single planet and a single system also stand on their own schemas
    let p = planet(9, true, vec![(0, 0)], true);
    let mut out = Vec::new();
    encode_value(&planet_codec(), &p, &mut out).unwrap();
    let mut cur = ByteCursor::new(out);
    assert_eq!(decode_value(&planet_codec(), &mut cur), Ok(p));

    let s = system(-1, 0xFFC00000, false);
    let mut out = Vec::new();
    encode_value(&system_codec(), &s, &mut out).unwrap();
    let mut cur = ByteCursor::new(out);
    assert_eq!(decode_value(&system_codec(), &mut cur), Ok(s));
}

#[test]
fn truncated_time_stamp_fails_eof() {
    let mut cur = ByteCursor::new(vec![1, 2, 3, 4, 5]);
    assert_eq!(SaveTimeStamp::deserialize(&mut cur), Err(CodecError::UnexpectedEof));
}
