//! Codec for a versioned, positionally-encoded binary save-file format.
//!
//! A save file is `[version marker: 4 bytes LE] [aggregate body] [CRC32
//! footer: 4 bytes LE]`. The body is decoded and encoded against a
//! declarative schema ([`codec::Codec`]) that fixes field order, sequence
//! framing and text framing byte for byte; per-title schemas are data
//! supplied by the caller, not behavior of this library.

pub mod checksum;
pub mod codec;
pub mod cursor;
pub mod engine;
pub mod harness;
pub mod error;
pub mod laws;
pub mod save;
pub mod tagged;
pub mod text;
pub mod version;

use vstd::prelude::*;
use vstd::bytes::spec_u32_from_le_bytes;
use crate::checksum::{append_checksum, crc32_bzip2};
use crate::codec::{codec_wf, enc, fits, sdec, small, Codec, Value, ValueView};
use crate::cursor::{le32, le32i, lemma_le_bytes_auto, write_i32_le, ByteCursor};
use crate::engine::{decode_value, encode_value};
use crate::error::CodecError;
use crate::tagged::{
    decode_properties_to, encode_properties, lemma_props_sdec_of_enc, prop_small, prop_views_of,
    props_enc, props_sdec, PropertyRecord, PropertyView,
};
use crate::version::{decode_version, version_sdec};

verus! {

/// A decoded save: the validated version marker, the aggregate body, and the
/// stored footer value, which is retained but not verified on decode.
pub struct SaveFile {
    pub version: i32,
    pub body: Value,
    pub stored_checksum: u32,
}

/// What decoding a whole save yields: version gate, then the body against the
/// schema, then the 4-byte footer; or the first failure. Bytes after the
/// footer are not read.
pub open spec fn file_sdec(schema: Codec, expected: i32, s: Seq<u8>) -> Result<
    (i32, ValueView, u32, int),
    CodecError,
> {
    match version_sdec(s, 0, expected) {
        Err(e) => Err(e),
        Ok((ver, p)) => match sdec(schema, s, p) {
            Err(e) => Err(e),
            Ok((body, q)) => if q + 4 > s.len() {
                Err(CodecError::UnexpectedEof)
            } else {
                Ok((ver, body, spec_u32_from_le_bytes(s.subrange(q, q + 4)), q + 4))
            },
        },
    }
}

/// The exact bytes that encoding a save produces: the version marker, the
/// body, and a freshly computed checksum over everything before it.
pub open spec fn file_enc(schema: Codec, version: i32, body: ValueView) -> Seq<u8> {
    let pre = le32i(version) + enc(schema, body);
    pre + le32(crc32_bzip2(pre))
}

/// Decodes a whole save against a schema, exactly as [`file_sdec`] says:
/// version gate first, then the body, then the stored footer.
pub fn decode(bytes: Vec<u8>, expected_version: i32, schema: &Codec) -> (r: Result<
    SaveFile,
    CodecError,
>)
    ensures
        match r {
            Ok(f) => {
                &&& file_sdec(*schema, expected_version, bytes@) matches Ok(t)
                &&& f.version == expected_version
                &&& file_sdec(*schema, expected_version, bytes@)->Ok_0.1 == f.body@
                &&& file_sdec(*schema, expected_version, bytes@)->Ok_0.2 == f.stored_checksum
            },
            Err(e) => file_sdec(*schema, expected_version, bytes@) == Err::<
                (i32, ValueView, u32, int),
                CodecError,
            >(e),
        },
{
    proof {
        lemma_le_bytes_auto();
    }
    let ghost s = bytes@;
    let mut cur = ByteCursor::new(bytes);
    let version = decode_version(&mut cur, expected_version)?;
    let body = decode_value(schema, &mut cur)?;
    let stored = cur.read_u32_le()?;
    Ok(SaveFile { version, body, stored_checksum: stored })
}

/// Encodes a whole save: the version marker passed through unchanged, the
/// body against the schema, and a freshly computed CRC32 footer. Fails with
/// `SequenceTooLarge` precisely when some count in the body does not fit its
/// 4-byte length prefix.
pub fn encode(file: &SaveFile, schema: &Codec) -> (r: Result<Vec<u8>, CodecError>)
    requires
        fits(*schema, file.body@),
    ensures
        r is Ok <==> small(*schema, file.body@),
        r is Ok ==> r->Ok_0@ == file_enc(*schema, file.version, file.body@),
        r is Err ==> r == Err::<Vec<u8>, CodecError>(CodecError::SequenceTooLarge),
{
    let mut out: Vec<u8> = Vec::new();
    write_i32_le(&mut out, file.version);
    proof {
        assert(out@ =~= le32i(file.version));
    }
    let rr = encode_value(schema, &file.body, &mut out);
    match rr {
        Ok(_) => {
            proof {
                assert(out@ == le32i(file.version) + enc(*schema, file.body@));
            }
            append_checksum(&mut out);
            proof {
                assert(out@ =~= file_enc(*schema, file.version, file.body@));
            }
            Ok(out)
        },
        Err(_) => Err(CodecError::SequenceTooLarge),
    }
}

/// The whole-file round trip: a valid file of a supported format — the
/// version marker its generation expects, a body that is the encoding of
/// some value under the schema, and any 4-byte footer — decodes to exactly
/// that value, and re-encoding reproduces the original bytes exactly, modulo
/// the intentionally unverified checksum footer, which encode recomputes.
/// When the stored footer already equals the checksum of the preceding
/// bytes, the reproduction is exact byte for byte.
pub proof fn lemma_file_round_trip(
    schema: Codec,
    expected: i32,
    body: ValueView,
    footer: u32,
    s: Seq<u8>,
)
    requires
        codec_wf(schema),
        fits(schema, body),
        small(schema, body),
        s == le32i(expected) + enc(schema, body) + le32(footer),
    ensures
        file_sdec(schema, expected, s) == Ok::<(i32, ValueView, u32, int), CodecError>((
            expected,
            body,
            footer,
            s.len() as int,
        )),
        file_enc(schema, expected, body).len() == s.len(),
        file_enc(schema, expected, body).subrange(0, s.len() - 4) == s.subrange(0, s.len() - 4),
        footer == crc32_bzip2(s.subrange(0, s.len() - 4)) ==> file_enc(schema, expected, body)
            == s,
{
    lemma_le_bytes_auto();
    let eb = enc(schema, body);
    let pre = le32i(expected) + eb;
    assert(s.subrange(0, 4) =~= le32i(expected));
    assert((((expected as u32) as i32)) == expected) by (bit_vector);
    assert(version_sdec(s, 0, expected) == Ok::<(i32, int), CodecError>((expected, 4)));
    assert(s.subrange(4, 4 + eb.len() as int) =~= eb);
    laws::lemma_sdec_of_enc(schema, body, s, 4);
    assert(sdec(schema, s, 4) == Ok::<(ValueView, int), CodecError>((body, 4 + eb.len() as int)));
    let q = 4 + eb.len() as int;
    assert(q + 4 == s.len());
    assert(s.subrange(q, q + 4) =~= le32(footer));
    assert(file_sdec(schema, expected, s) == Ok::<(i32, ValueView, u32, int), CodecError>((
        expected,
        body,
        footer,
        s.len() as int,
    )));
    assert(pre =~= s.subrange(0, s.len() - 4));
    assert(file_enc(schema, expected, body).subrange(0, s.len() - 4) =~= pre);
    if footer == crc32_bzip2(s.subrange(0, s.len() - 4)) {
        assert(file_enc(schema, expected, body) =~= s);
    }
}

/// Which codec backend a format generation uses: the positional layout
/// driven by a schema, or the self-describing tagged property stream.
/// The caller selects it from the detected or declared generation.
pub enum Backend {
    Positional(Codec),
    Tagged,
}

/// The decoded body of a save, shaped by its generation's backend.
#[derive(Debug, PartialEq)]
pub enum SaveBody {
    Positional(Value),
    Tagged(Vec<PropertyRecord>),
}

/// The mathematical model of a save body.
pub enum SaveBodyView {
    Positional(ValueView),
    Tagged(Seq<PropertyView>),
}

impl View for SaveBody {
    type V = SaveBodyView;

    open spec fn view(&self) -> SaveBodyView {
        match self {
            SaveBody::Positional(v) => SaveBodyView::Positional(v@),
            SaveBody::Tagged(ps) => SaveBodyView::Tagged(prop_views_of(ps@)),
        }
    }
}

/// A decoded save of either generation: the validated version marker, the
/// body, and the stored footer value, retained but not verified on decode.
#[derive(Debug, PartialEq)]
pub struct SaveDocument {
    pub version: i32,
    pub body: SaveBody,
    pub stored_checksum: u32,
}

/// Whether a body has the shape its backend asks for.
pub open spec fn body_fits(b: Backend, body: SaveBodyView) -> bool {
    match b {
        Backend::Positional(c) => body matches SaveBodyView::Positional(v) && fits(c, v),
        Backend::Tagged => body is Tagged,
    }
}

/// Whether every count in a body fits its 4-byte length prefix.
pub open spec fn body_small(b: Backend, body: SaveBodyView) -> bool {
    match body {
        SaveBodyView::Positional(v) => b matches Backend::Positional(c) ==> small(c, v),
        SaveBodyView::Tagged(ps) => forall|i: int|
            0 <= i < ps.len() ==> prop_small(#[trigger] ps[i]),
    }
}

/// The exact bytes of a body under its backend.
pub open spec fn body_enc(b: Backend, body: SaveBodyView) -> Seq<u8> {
    match body {
        SaveBodyView::Positional(v) => match b {
            Backend::Positional(c) => enc(c, v),
            Backend::Tagged => Seq::empty(),
        },
        SaveBodyView::Tagged(ps) => props_enc(ps),
    }
}

/// The exact bytes that encoding a save of either generation produces.
pub open spec fn save_enc(b: Backend, version: i32, body: SaveBodyView) -> Seq<u8> {
    let pre = le32i(version) + body_enc(b, body);
    pre + le32(crc32_bzip2(pre))
}

/// What decoding a whole save under a backend yields: version gate, then the
/// body (positional against the schema, or the tagged property stream up to
/// the footer), then the 4-byte footer; or the first failure.
pub open spec fn save_sdec(b: Backend, expected: i32, s: Seq<u8>) -> Result<
    (i32, SaveBodyView, u32, int),
    CodecError,
> {
    match version_sdec(s, 0, expected) {
        Err(e) => Err(e),
        Ok((ver, p)) => {
            let body_r: Result<(SaveBodyView, int), CodecError> = match b {
                Backend::Positional(c) => match sdec(c, s, p) {
                    Err(e) => Err(e),
                    Ok((v, q)) => Ok((SaveBodyView::Positional(v), q)),
                },
                Backend::Tagged => match props_sdec(s, p, s.len() - 4) {
                    Err(e) => Err(e),
                    Ok((ps, q)) => Ok((SaveBodyView::Tagged(ps), q)),
                },
            };
            match body_r {
                Err(e) => Err(e),
                Ok((bv, q)) => if q + 4 > s.len() {
                    Err(CodecError::UnexpectedEof)
                } else {
                    Ok((ver, bv, spec_u32_from_le_bytes(s.subrange(q, q + 4)), q + 4))
                },
            }
        },
    }
}

/// Decodes a whole save, dispatching to the backend of its format
/// generation, exactly as [`save_sdec`] says.
pub fn decode_save(bytes: Vec<u8>, expected_version: i32, backend: &Backend) -> (r: Result<
    SaveDocument,
    CodecError,
>)
    ensures
        match r {
            Ok(d) => {
                &&& save_sdec(*backend, expected_version, bytes@) matches Ok(t)
                &&& d.version == expected_version
                &&& save_sdec(*backend, expected_version, bytes@)->Ok_0.1 == d.body@
                &&& save_sdec(*backend, expected_version, bytes@)->Ok_0.2 == d.stored_checksum
            },
            Err(e) => save_sdec(*backend, expected_version, bytes@) == Err::<
                (i32, SaveBodyView, u32, int),
                CodecError,
            >(e),
        },
{
    proof {
        lemma_le_bytes_auto();
    }
    let ghost s = bytes@;
    let n = bytes.len();
    let mut cur = ByteCursor::new(bytes);
    let version = decode_version(&mut cur, expected_version)?;
    let body = match backend {
        Backend::Positional(c) => SaveBody::Positional(decode_value(c, &mut cur)?),
        Backend::Tagged => {
            let end = n - 4;
            SaveBody::Tagged(decode_properties_to(&mut cur, end)?)
        },
    };
    let stored = cur.read_u32_le()?;
    Ok(SaveDocument { version, body, stored_checksum: stored })
}

/// Encodes a whole save, dispatching to the backend of its format
/// generation: the version marker passed through, the body, and a freshly
/// computed CRC32 footer. Fails with `SequenceTooLarge` precisely when some
/// count in the body does not fit its 4-byte length prefix.
pub fn encode_save(doc: &SaveDocument, backend: &Backend) -> (r: Result<Vec<u8>, CodecError>)
    requires
        body_fits(*backend, doc.body@),
    ensures
        r is Ok <==> body_small(*backend, doc.body@),
        r is Ok ==> r->Ok_0@ == save_enc(*backend, doc.version, doc.body@),
        r is Err ==> r == Err::<Vec<u8>, CodecError>(CodecError::SequenceTooLarge),
{
    let mut out: Vec<u8> = Vec::new();
    write_i32_le(&mut out, doc.version);
    proof {
        assert(out@ =~= le32i(doc.version));
    }
    let rr: Result<(), CodecError> = match backend {
        Backend::Positional(c) => match &doc.body {
            SaveBody::Positional(v) => encode_value(c, v, &mut out),
            SaveBody::Tagged(_) => {
                proof {
                    assert(false);
                }
                Err(CodecError::SequenceTooLarge)
            },
        },
        Backend::Tagged => match &doc.body {
            SaveBody::Tagged(ps) => encode_properties(ps, &mut out),
            SaveBody::Positional(_) => {
                proof {
                    assert(false);
                }
                Err(CodecError::SequenceTooLarge)
            },
        },
    };
    match rr {
        Ok(_) => {
            proof {
                assert(out@ == le32i(doc.version) + body_enc(*backend, doc.body@));
            }
            append_checksum(&mut out);
            proof {
                assert(out@ =~= save_enc(*backend, doc.version, doc.body@));
            }
            Ok(out)
        },
        Err(_) => Err(CodecError::SequenceTooLarge),
    }
}

/// The whole-file round trip of the tagged generation: a valid tagged file —
/// the expected version marker, a body that is the encoding of a property
/// stream, and any 4-byte footer — decodes to exactly those records, and
/// re-encoding reproduces the original bytes exactly, modulo the
/// intentionally unverified checksum footer, which encode recomputes.
pub proof fn lemma_tagged_file_round_trip(
    expected: i32,
    ps: Seq<PropertyView>,
    footer: u32,
    s: Seq<u8>,
)
    requires
        forall|i: int| 0 <= i < ps.len() ==> prop_small(#[trigger] ps[i]),
        s == le32i(expected) + props_enc(ps) + le32(footer),
    ensures
        save_sdec(Backend::Tagged, expected, s) == Ok::<(i32, SaveBodyView, u32, int), CodecError>(
            (expected, SaveBodyView::Tagged(ps), footer, s.len() as int),
        ),
        save_enc(Backend::Tagged, expected, SaveBodyView::Tagged(ps)).len() == s.len(),
        save_enc(Backend::Tagged, expected, SaveBodyView::Tagged(ps)).subrange(0, s.len() - 4)
            == s.subrange(0, s.len() - 4),
        footer == crc32_bzip2(s.subrange(0, s.len() - 4)) ==> save_enc(
            Backend::Tagged,
            expected,
            SaveBodyView::Tagged(ps),
        ) == s,
{
    lemma_le_bytes_auto();
    let eb = props_enc(ps);
    let pre = le32i(expected) + eb;
    assert(s.subrange(0, 4) =~= le32i(expected));
    assert((((expected as u32) as i32)) == expected) by (bit_vector);
    assert(version_sdec(s, 0, expected) == Ok::<(i32, int), CodecError>((expected, 4)));
    assert(s.subrange(4, 4 + eb.len() as int) =~= eb);
    lemma_props_sdec_of_enc(ps, s, 4);
    assert(s.len() - 4 == 4 + eb.len());
    assert(props_sdec(s, 4, s.len() - 4) == Ok::<(Seq<PropertyView>, int), CodecError>((
        ps,
        4 + eb.len() as int,
    )));
    let q = 4 + eb.len() as int;
    assert(s.subrange(q, q + 4) =~= le32(footer));
    assert(save_sdec(Backend::Tagged, expected, s) == Ok::<
        (i32, SaveBodyView, u32, int),
        CodecError,
    >((expected, SaveBodyView::Tagged(ps), footer, s.len() as int)));
    assert(pre =~= s.subrange(0, s.len() - 4));
    assert(save_enc(Backend::Tagged, expected, SaveBodyView::Tagged(ps)).subrange(
        0,
        s.len() - 4,
    ) =~= pre);
    if footer == crc32_bzip2(s.subrange(0, s.len() - 4)) {
        assert(save_enc(Backend::Tagged, expected, SaveBodyView::Tagged(ps)) =~= s);
    }
}

} // verus!
