//! The common data model of the save format: the small fixed-layout
//! aggregates and enumerations that every generation shares. Each type reads
//! and writes its exact on-disk bytes; enumeration discriminants resolve
//! through their tables or decoding fails with `UnknownDiscriminant`.

use vstd::prelude::*;
use vstd::bytes::spec_u32_from_le_bytes;
use crate::codec::{codec_wf, Codec, Field};
use crate::cursor::{le32, le32i, lemma_le_bytes_auto, write_u32_le, write_u8, ByteCursor};
use crate::error::CodecError;
use crate::text::{decode_text, encode_text, text_enc, text_sdec, text_small, TextValue, TextView};

verus! {

/// How the playthrough ended.
#[derive(Clone, Copy, Debug, PartialEq, Eq, Structural)]
pub enum EndGameState {
    NotFinished,
    OutInABlazeOfGlory,
    LivedToFightAgain,
}

impl EndGameState {
    /// The 4-byte discriminant this case is stored as.
    pub open spec fn tag(self) -> u32 {
        match self {
            EndGameState::NotFinished => 0,
            EndGameState::OutInABlazeOfGlory => 1,
            EndGameState::LivedToFightAgain => 2,
        }
    }

    /// The exact on-disk bytes of this value.
    pub open spec fn spec_bytes(self) -> Seq<u8> {
        le32(self.tag())
    }

    pub fn deserialize(cur: &mut ByteCursor) -> (r: Result<EndGameState, CodecError>)
        requires
            old(cur).wf(),
        ensures
            final(cur).wf(),
            final(cur).bytes() == old(cur).bytes(),
            match r {
                Ok(v) => old(cur).bytes().subrange(old(cur).position(), old(cur).position() + 4)
                    == v.spec_bytes() && final(cur).position() == old(cur).position() + 4,
                Err(e) => (e == CodecError::UnexpectedEof && old(cur).remaining_spec() < 4 && final(cur).position() == old(cur).position()) || (old(cur).remaining_spec() >= 4 && e
                    == CodecError::UnknownDiscriminant(
                    spec_u32_from_le_bytes(
                        old(cur).bytes().subrange(old(cur).position(), old(cur).position() + 4),
                    ),
                ) && spec_u32_from_le_bytes(
                    old(cur).bytes().subrange(old(cur).position(), old(cur).position() + 4),
                ) > 2),
            },
    {
        proof {
            lemma_le_bytes_auto();
        }
        let d = cur.read_u32_le()?;
        match d {
            0 => Ok(EndGameState::NotFinished),
            1 => Ok(EndGameState::OutInABlazeOfGlory),
            2 => Ok(EndGameState::LivedToFightAgain),
            _ => Err(CodecError::UnknownDiscriminant(d)),
        }
    }

    pub fn serialize(&self, out: &mut Vec<u8>)
        ensures
            final(out)@ == old(out)@ + self.spec_bytes(),
    {
        let t: u32 = match self {
            EndGameState::NotFinished => 0,
            EndGameState::OutInABlazeOfGlory => 1,
            EndGameState::LivedToFightAgain => 2,
        };
        write_u32_le(out, t);
    }
}

/// The chosen game difficulty.
#[derive(Clone, Copy, Debug, PartialEq, Eq, Structural)]
pub enum Difficulty {
    Narrative,
    Casual,
    Normal,
    Hardcore,
    Insanity,
}

impl Difficulty {
    /// The 4-byte discriminant this case is stored as.
    pub open spec fn tag(self) -> u32 {
        match self {
            Difficulty::Narrative => 0,
            Difficulty::Casual => 1,
            Difficulty::Normal => 2,
            Difficulty::Hardcore => 3,
            Difficulty::Insanity => 4,
        }
    }

    /// The exact on-disk bytes of this value.
    pub open spec fn spec_bytes(self) -> Seq<u8> {
        le32(self.tag())
    }

    pub fn deserialize(cur: &mut ByteCursor) -> (r: Result<Difficulty, CodecError>)
        requires
            old(cur).wf(),
        ensures
            final(cur).wf(),
            final(cur).bytes() == old(cur).bytes(),
            match r {
                Ok(v) => old(cur).bytes().subrange(old(cur).position(), old(cur).position() + 4)
                    == v.spec_bytes() && final(cur).position() == old(cur).position() + 4,
                Err(e) => (e == CodecError::UnexpectedEof && old(cur).remaining_spec() < 4 && final(cur).position() == old(cur).position()) || (old(cur).remaining_spec() >= 4 && e
                    == CodecError::UnknownDiscriminant(
                    spec_u32_from_le_bytes(
                        old(cur).bytes().subrange(old(cur).position(), old(cur).position() + 4),
                    ),
                ) && spec_u32_from_le_bytes(
                    old(cur).bytes().subrange(old(cur).position(), old(cur).position() + 4),
                ) > 4),
            },
    {
        proof {
            lemma_le_bytes_auto();
        }
        let d = cur.read_u32_le()?;
        match d {
            0 => Ok(Difficulty::Narrative),
            1 => Ok(Difficulty::Casual),
            2 => Ok(Difficulty::Normal),
            3 => Ok(Difficulty::Hardcore),
            4 => Ok(Difficulty::Insanity),
            _ => Err(CodecError::UnknownDiscriminant(d)),
        }
    }

    pub fn serialize(&self, out: &mut Vec<u8>)
        ensures
            final(out)@ == old(out)@ + self.spec_bytes(),
    {
        let t: u32 = match self {
            Difficulty::Narrative => 0,
            Difficulty::Casual => 1,
            Difficulty::Normal => 2,
            Difficulty::Hardcore => 3,
            Difficulty::Insanity => 4,
        };
        write_u32_le(out, t);
    }
}

/// How conversations reply when unattended.
#[derive(Clone, Copy, Debug, PartialEq, Eq, Structural)]
pub enum AutoReplyModeOptions {
    AllDecisions,
    MajorDecisions,
    NoDecisions,
}

impl AutoReplyModeOptions {
    /// The 4-byte discriminant this case is stored as.
    pub open spec fn tag(self) -> u32 {
        match self {
            AutoReplyModeOptions::AllDecisions => 0,
            AutoReplyModeOptions::MajorDecisions => 1,
            AutoReplyModeOptions::NoDecisions => 2,
        }
    }

    /// The exact on-disk bytes of this value.
    pub open spec fn spec_bytes(self) -> Seq<u8> {
        le32(self.tag())
    }

    pub fn deserialize(cur: &mut ByteCursor) -> (r: Result<AutoReplyModeOptions, CodecError>)
        requires
            old(cur).wf(),
        ensures
            final(cur).wf(),
            final(cur).bytes() == old(cur).bytes(),
            match r {
                Ok(v) => old(cur).bytes().subrange(old(cur).position(), old(cur).position() + 4)
                    == v.spec_bytes() && final(cur).position() == old(cur).position() + 4,
                Err(e) => (e == CodecError::UnexpectedEof && old(cur).remaining_spec() < 4 && final(cur).position() == old(cur).position()) || (old(cur).remaining_spec() >= 4 && e
                    == CodecError::UnknownDiscriminant(
                    spec_u32_from_le_bytes(
                        old(cur).bytes().subrange(old(cur).position(), old(cur).position() + 4),
                    ),
                ) && spec_u32_from_le_bytes(
                    old(cur).bytes().subrange(old(cur).position(), old(cur).position() + 4),
                ) > 2),
            },
    {
        proof {
            lemma_le_bytes_auto();
        }
        let d = cur.read_u32_le()?;
        match d {
            0 => Ok(AutoReplyModeOptions::AllDecisions),
            1 => Ok(AutoReplyModeOptions::MajorDecisions),
            2 => Ok(AutoReplyModeOptions::NoDecisions),
            _ => Err(CodecError::UnknownDiscriminant(d)),
        }
    }

    pub fn serialize(&self, out: &mut Vec<u8>)
        ensures
            final(out)@ == old(out)@ + self.spec_bytes(),
    {
        let t: u32 = match self {
            AutoReplyModeOptions::AllDecisions => 0,
            AutoReplyModeOptions::MajorDecisions => 1,
            AutoReplyModeOptions::NoDecisions => 2,
        };
        write_u32_le(out, t);
    }
}

/// When the save was made.
#[derive(Clone, Copy, Debug, PartialEq, Eq, Structural)]
pub struct SaveTimeStamp {
    pub seconds_since_midnight: i32,
    pub day: i32,
    pub month: i32,
    pub year: i32,
}

impl SaveTimeStamp {
    /// The exact on-disk bytes: the four fields, little-endian, in order.
    pub open spec fn spec_bytes(self) -> Seq<u8> {
        le32i(self.seconds_since_midnight) + le32i(self.day) + le32i(self.month) + le32i(self.year)
    }

    pub fn deserialize(cur: &mut ByteCursor) -> (r: Result<SaveTimeStamp, CodecError>)
        requires
            old(cur).wf(),
        ensures
            final(cur).wf(),
            final(cur).bytes() == old(cur).bytes(),
            r is Ok <==> old(cur).remaining_spec() >= 16,
            match r {
                Ok(v) => old(cur).bytes().subrange(old(cur).position(), old(cur).position() + 16)
                    == v.spec_bytes() && final(cur).position() == old(cur).position() + 16,
                Err(e) => e == CodecError::UnexpectedEof,
            },
    {
        proof {
            lemma_le_bytes_auto();
        }
        let ghost s = old(cur).bytes();
        let ghost p = old(cur).position();
        let seconds_since_midnight = cur.read_i32_le()?;
        let day = cur.read_i32_le()?;
        let month = cur.read_i32_le()?;
        let year = cur.read_i32_le()?;
        let v = SaveTimeStamp { seconds_since_midnight, day, month, year };
        proof {
            assert(s.subrange(p, p + 16) =~= v.spec_bytes());
        }
        Ok(v)
    }

    pub fn serialize(&self, out: &mut Vec<u8>)
        ensures
            final(out)@ == old(out)@ + self.spec_bytes(),
    {
        crate::cursor::write_i32_le(out, self.seconds_since_midnight);
        crate::cursor::write_i32_le(out, self.day);
        crate::cursor::write_i32_le(out, self.month);
        crate::cursor::write_i32_le(out, self.year);
        assert(out@ =~= old(out)@ + self.spec_bytes());
    }
}

/// An orientation, stored as three signed integers.
#[derive(Clone, Copy, Debug, PartialEq, Eq, Structural)]
pub struct Rotator {
    pub pitch: i32,
    pub yaw: i32,
    pub roll: i32,
}

impl Rotator {
    /// The exact on-disk bytes: the three fields, little-endian, in order.
    pub open spec fn spec_bytes(self) -> Seq<u8> {
        le32i(self.pitch) + le32i(self.yaw) + le32i(self.roll)
    }

    pub fn deserialize(cur: &mut ByteCursor) -> (r: Result<Rotator, CodecError>)
        requires
            old(cur).wf(),
        ensures
            final(cur).wf(),
            final(cur).bytes() == old(cur).bytes(),
            r is Ok <==> old(cur).remaining_spec() >= 12,
            match r {
                Ok(v) => old(cur).bytes().subrange(old(cur).position(), old(cur).position() + 12)
                    == v.spec_bytes() && final(cur).position() == old(cur).position() + 12,
                Err(e) => e == CodecError::UnexpectedEof,
            },
    {
        proof {
            lemma_le_bytes_auto();
        }
        let ghost s = old(cur).bytes();
        let ghost p = old(cur).position();
        let pitch = cur.read_i32_le()?;
        let yaw = cur.read_i32_le()?;
        let roll = cur.read_i32_le()?;
        let v = Rotator { pitch, yaw, roll };
        proof {
            assert(s.subrange(p, p + 12) =~= v.spec_bytes());
        }
        Ok(v)
    }

    pub fn serialize(&self, out: &mut Vec<u8>)
        ensures
            final(out)@ == old(out)@ + self.spec_bytes(),
    {
        crate::cursor::write_i32_le(out, self.pitch);
        crate::cursor::write_i32_le(out, self.yaw);
        crate::cursor::write_i32_le(out, self.roll);
        assert(out@ =~= old(out)@ + self.spec_bytes());
    }
}

/// A position in space: three IEEE-754 single-precision coordinates carried
/// as their raw bit patterns, never interpreted arithmetically, so that the
/// on-disk bytes are preserved exactly.
#[derive(Clone, Copy, Debug, PartialEq, Eq, Structural)]
pub struct Vector {
    pub x_bits: u32,
    pub y_bits: u32,
    pub z_bits: u32,
}

impl Vector {
    /// The exact on-disk bytes: the three coordinates, little-endian, in order.
    pub open spec fn spec_bytes(self) -> Seq<u8> {
        le32(self.x_bits) + le32(self.y_bits) + le32(self.z_bits)
    }

    pub fn deserialize(cur: &mut ByteCursor) -> (r: Result<Vector, CodecError>)
        requires
            old(cur).wf(),
        ensures
            final(cur).wf(),
            final(cur).bytes() == old(cur).bytes(),
            r is Ok <==> old(cur).remaining_spec() >= 12,
            match r {
                Ok(v) => old(cur).bytes().subrange(old(cur).position(), old(cur).position() + 12)
                    == v.spec_bytes() && final(cur).position() == old(cur).position() + 12,
                Err(e) => e == CodecError::UnexpectedEof,
            },
    {
        proof {
            lemma_le_bytes_auto();
        }
        let ghost s = old(cur).bytes();
        let ghost p = old(cur).position();
        let x_bits = cur.read_u32_le()?;
        let y_bits = cur.read_u32_le()?;
        let z_bits = cur.read_u32_le()?;
        let v = Vector { x_bits, y_bits, z_bits };
        proof {
            assert(s.subrange(p, p + 12) =~= v.spec_bytes());
        }
        Ok(v)
    }

    pub fn serialize(&self, out: &mut Vec<u8>)
        ensures
            final(out)@ == old(out)@ + self.spec_bytes(),
    {
        write_u32_le(out, self.x_bits);
        write_u32_le(out, self.y_bits);
        write_u32_le(out, self.z_bits);
        assert(out@ =~= old(out)@ + self.spec_bytes());
    }
}

/// A point on a plane: two IEEE-754 single-precision coordinates carried as
/// their raw bit patterns.
#[derive(Clone, Copy, Debug, PartialEq, Eq, Structural)]
pub struct Vector2d {
    pub x_bits: u32,
    pub y_bits: u32,
}

impl Vector2d {
    /// The exact on-disk bytes: the two coordinates, little-endian, in order.
    pub open spec fn spec_bytes(self) -> Seq<u8> {
        le32(self.x_bits) + le32(self.y_bits)
    }

    pub fn deserialize(cur: &mut ByteCursor) -> (r: Result<Vector2d, CodecError>)
        requires
            old(cur).wf(),
        ensures
            final(cur).wf(),
            final(cur).bytes() == old(cur).bytes(),
            r is Ok <==> old(cur).remaining_spec() >= 8,
            match r {
                Ok(v) => old(cur).bytes().subrange(old(cur).position(), old(cur).position() + 8)
                    == v.spec_bytes() && final(cur).position() == old(cur).position() + 8,
                Err(e) => e == CodecError::UnexpectedEof,
            },
    {
        proof {
            lemma_le_bytes_auto();
        }
        let ghost s = old(cur).bytes();
        let ghost p = old(cur).position();
        let x_bits = cur.read_u32_le()?;
        let y_bits = cur.read_u32_le()?;
        let v = Vector2d { x_bits, y_bits };
        proof {
            assert(s.subrange(p, p + 8) =~= v.spec_bytes());
        }
        Ok(v)
    }

    pub fn serialize(&self, out: &mut Vec<u8>)
        ensures
            final(out)@ == old(out)@ + self.spec_bytes(),
    {
        write_u32_le(out, self.x_bits);
        write_u32_le(out, self.y_bits);
        assert(out@ =~= old(out)@ + self.spec_bytes());
    }
}

/// One streamed level: its name and its loading flags, in on-disk order.
#[derive(Debug, PartialEq, Eq)]
pub struct Level {
    pub name: TextValue,
    pub should_be_loaded: bool,
    pub should_be_visible: bool,
}

impl Level {
    /// The exact on-disk bytes: the name text, then one byte per flag.
    pub open spec fn spec_bytes(self) -> Seq<u8> {
        text_enc(self.name@) + seq![
            if self.should_be_loaded { 1u8 } else { 0u8 },
            if self.should_be_visible { 1u8 } else { 0u8 },
        ]
    }

    pub fn deserialize(cur: &mut ByteCursor) -> (r: Result<Level, CodecError>)
        requires
            old(cur).wf(),
        ensures
            final(cur).wf(),
            final(cur).bytes() == old(cur).bytes(),
            match r {
                Ok(v) => {
                    &&& text_sdec(old(cur).bytes(), old(cur).position()) matches Ok(t)
                    &&& v.name@ == text_sdec(old(cur).bytes(), old(cur).position())->Ok_0.0
                    &&& {
                        let p1 = text_sdec(old(cur).bytes(), old(cur).position())->Ok_0.1;
                        &&& p1 + 2 <= old(cur).bytes().len()
                        &&& v.should_be_loaded == (old(cur).bytes()[p1] != 0)
                        &&& v.should_be_visible == (old(cur).bytes()[p1 + 1] != 0)
                        &&& final(cur).position() == p1 + 2
                    }
                },
                Err(e) => match text_sdec(old(cur).bytes(), old(cur).position()) {
                    Err(te) => e == te,
                    Ok((_, p1)) => e == CodecError::UnexpectedEof && p1 + 2 > old(
                        cur,
                    ).bytes().len(),
                },
            },
    {
        let name = decode_text(cur)?;
        let b1 = cur.read_u8()?;
        let b2 = cur.read_u8()?;
        Ok(Level { name, should_be_loaded: b1 != 0, should_be_visible: b2 != 0 })
    }

    /// Fails, writing nothing before the failure, only when the name is too
    /// long for its length prefix.
    pub fn serialize(&self, out: &mut Vec<u8>) -> (r: Result<(), CodecError>)
        ensures
            r is Ok <==> text_small(self.name@),
            r is Ok ==> final(out)@ == old(out)@ + self.spec_bytes(),
            r is Err ==> r == Err::<(), CodecError>(CodecError::SequenceTooLarge),
    {
        encode_text(&self.name, out)?;
        write_u8(out, if self.should_be_loaded { 1 } else { 0 });
        write_u8(out, if self.should_be_visible { 1 } else { 0 });
        assert(out@ =~= old(out)@ + self.spec_bytes());
        Ok(())
    }
}

/// One streaming state record: a named flag, in on-disk order.
#[derive(Debug, PartialEq, Eq)]
pub struct StreamingRecord {
    pub name: TextValue,
    pub is_active: bool,
}

impl StreamingRecord {
    /// The exact on-disk bytes: the name text, then one flag byte.
    pub open spec fn spec_bytes(self) -> Seq<u8> {
        text_enc(self.name@) + seq![if self.is_active { 1u8 } else { 0u8 }]
    }

    pub fn deserialize(cur: &mut ByteCursor) -> (r: Result<StreamingRecord, CodecError>)
        requires
            old(cur).wf(),
        ensures
            final(cur).wf(),
            final(cur).bytes() == old(cur).bytes(),
            match r {
                Ok(v) => {
                    &&& text_sdec(old(cur).bytes(), old(cur).position()) matches Ok(t)
                    &&& v.name@ == text_sdec(old(cur).bytes(), old(cur).position())->Ok_0.0
                    &&& {
                        let p1 = text_sdec(old(cur).bytes(), old(cur).position())->Ok_0.1;
                        &&& p1 + 1 <= old(cur).bytes().len()
                        &&& v.is_active == (old(cur).bytes()[p1] != 0)
                        &&& final(cur).position() == p1 + 1
                    }
                },
                Err(e) => match text_sdec(old(cur).bytes(), old(cur).position()) {
                    Err(te) => e == te,
                    Ok((_, p1)) => e == CodecError::UnexpectedEof && p1 + 1 > old(
                        cur,
                    ).bytes().len(),
                },
            },
    {
        let name = decode_text(cur)?;
        let b1 = cur.read_u8()?;
        Ok(StreamingRecord { name, is_active: b1 != 0 })
    }

    /// Fails, writing nothing before the failure, only when the name is too
    /// long for its length prefix.
    pub fn serialize(&self, out: &mut Vec<u8>) -> (r: Result<(), CodecError>)
        ensures
            r is Ok <==> text_small(self.name@),
            r is Ok ==> final(out)@ == old(out)@ + self.spec_bytes(),
            r is Err ==> r == Err::<(), CodecError>(CodecError::SequenceTooLarge),
    {
        encode_text(&self.name, out)?;
        write_u8(out, if self.is_active { 1 } else { 0 });
        assert(out@ =~= old(out)@ + self.spec_bytes());
        Ok(())
    }
}

/// The schema of one galaxy-map planet: its identifier, whether it was
/// visited, the probe positions launched at it, and its scanned flag, in
/// on-disk order. Probe coordinates are IEEE-754 bit patterns.
pub fn planet_codec() -> (c: Codec)
    ensures
        c matches Codec::Record(fs) && fs@.len() == 4 && fs@[0].codec == Codec::I32
            && fs@[1].codec == Codec::Bool && (fs@[2].codec matches Codec::List(e) && (*e) matches
            Codec::Record(ps) && ps@.len() == 2 && ps@[0].codec == Codec::Float && ps@[1].codec
            == Codec::Float) && fs@[3].codec == Codec::Bool,
        codec_wf(c),
{
    let probe = Codec::Record(vec![
        Field { name: "x", codec: Codec::Float },
        Field { name: "y", codec: Codec::Float },
    ]);
    let c = Codec::Record(vec![
        Field { name: "id", codec: Codec::I32 },
        Field { name: "visited", codec: Codec::Bool },
        Field { name: "probes", codec: Codec::List(Box::new(probe)) },
        Field { name: "show_as_scanned", codec: Codec::Bool },
    ]);
    proof {
        let fs = (c)->Record_0@;
        let pr = *((fs[2].codec)->List_0);
        let ps = (pr)->Record_0@;
        assert forall|j: int| 0 <= j < ps.len() implies codec_wf(#[trigger] ps[j].codec) by {
            assert(ps[j].codec == Codec::Float);
        }
        assert(codec_wf(pr));
        assert forall|i: int| 0 <= i < fs.len() implies codec_wf(#[trigger] fs[i].codec) by {
            if i != 2 {
                assert(codec_wf(fs[i].codec));
            } else {
                assert(codec_wf(fs[2].codec));
            }
        }
        assert(codec_wf(c));
    }
    c
}

/// The schema of one galaxy-map system: its identifier, the alert level as
/// an IEEE-754 bit pattern, and the detection flag, in on-disk order.
pub fn system_codec() -> (c: Codec)
    ensures
        c matches Codec::Record(fs) && fs@.len() == 3 && fs@[0].codec == Codec::I32
            && fs@[1].codec == Codec::Float && fs@[2].codec == Codec::Bool,
        codec_wf(c),
{
    let c = Codec::Record(vec![
        Field { name: "id", codec: Codec::I32 },
        Field { name: "reaper_alert_level", codec: Codec::Float },
        Field { name: "reaper_detected", codec: Codec::Bool },
    ]);
    proof {
        let fs = (c)->Record_0@;
        assert forall|i: int| 0 <= i < fs.len() implies codec_wf(#[trigger] fs[i].codec) by {
            assert(fs.len() == 3);
        }
        assert(codec_wf(c));
    }
    c
}

/// The schema of the galaxy map: the planet list, then the system list.
pub fn galaxy_map_codec() -> (c: Codec)
    ensures
        c matches Codec::Record(fs) && fs@.len() == 2 && (fs@[0].codec matches Codec::List(p)
            && codec_wf(*p)) && (fs@[1].codec matches Codec::List(q) && codec_wf(*q)),
        codec_wf(c),
{
    let planets = planet_codec();
    let systems = system_codec();
    let c = Codec::Record(vec![
        Field { name: "planets", codec: Codec::List(Box::new(planets)) },
        Field { name: "systems", codec: Codec::List(Box::new(systems)) },
    ]);
    proof {
        let fs = (c)->Record_0@;
        assert forall|i: int| 0 <= i < fs.len() implies codec_wf(#[trigger] fs[i].codec) by {
            assert(fs.len() == 2);
        }
        assert(codec_wf(c));
    }
    c
}

} // verus!
