//! The declarative schema and value model of the positional codec.
//!
//! A [`Codec`] is data describing a byte layout: which leaf codec applies to
//! which field, in which order. A [`Value`] is a decoded aggregate. The spec
//! functions here pin down, byte for byte, what encoding produces
//! ([`enc`]) and what decoding yields on any buffer ([`sdec`]).

use vstd::prelude::*;
use vstd::bytes::spec_u32_from_le_bytes;
use crate::cursor::{le32, le32i};
use crate::error::CodecError;
use crate::text::{text_enc, text_sdec, text_small, TextValue, TextView};

verus! {

/// A named field of a record, with the codec that reads and writes it.
/// Field order is fixed by the schema and equals on-disk order exactly.
pub struct Field {
    pub name: &'static str,
    pub codec: Codec,
}

/// One case of a variant: its 4-byte discriminant and its payload fields
/// (usually none; the format's variants are mostly pure enumerations).
pub struct VariantCase {
    pub tag: u32,
    pub payload: Vec<Field>,
}

/// A schema: the declarative description of a byte layout.
pub enum Codec {
    /// 4-byte little-endian signed integer.
    I32,
    /// 4-byte little-endian unsigned integer.
    U32,
    /// One raw byte.
    Byte,
    /// One byte: 0 or 1 on encode, any nonzero accepted as true on decode.
    Bool,
    /// IEEE-754 single-precision value carried as its raw 4-byte bit pattern,
    /// never interpreted arithmetically.
    Float,
    /// Length-prefixed narrow or wide text.
    Text,
    /// Exactly this many raw, uninterpreted bytes, preserved verbatim.
    Padding(usize),
    /// 4-byte element count, then that many elements of the inner codec.
    List(Box<Codec>),
    /// The named fields, one after the other, in schema order.
    Record(Vec<Field>),
    /// A 4-byte discriminant resolved through the case table, then the
    /// payload fields of the resolved case.
    Variant(Vec<VariantCase>),
}

/// An ordered key/value map uses the same framing as a list of two-field
/// records: a 4-byte entry count, then each key and value in encoded order.
pub fn map_codec(key: Codec, value: Codec) -> (c: Codec)
    ensures
        c matches Codec::List(e) && (*e) matches Codec::Record(fs) && fs@.len() == 2 && fs@[0].codec
            == key && fs@[1].codec == value,
{
    let fields = vec![Field { name: "key", codec: key }, Field { name: "value", codec: value }];
    Codec::List(Box::new(Codec::Record(fields)))
}

/// A decoded aggregate.
#[derive(Debug, PartialEq)]
pub enum Value {
    I32(i32),
    U32(u32),
    Byte(u8),
    Bool(bool),
    /// The raw bit pattern of an IEEE-754 single-precision value.
    Float(u32),
    Text(TextValue),
    /// Opaque bytes kept verbatim for fields whose semantics are unmodeled.
    Padding(Vec<u8>),
    List(Vec<Value>),
    Record(Vec<Value>),
    /// The resolved case index and the case's payload field values.
    Variant(usize, Vec<Value>),
}

/// The mathematical model of a value.
pub enum ValueView {
    I32(i32),
    U32(u32),
    Byte(u8),
    Bool(bool),
    Float(u32),
    Text(TextView),
    Padding(Seq<u8>),
    List(Seq<ValueView>),
    Record(Seq<ValueView>),
    Variant(int, Seq<ValueView>),
}

/// The model of a value.
pub open spec fn val_view(v: Value) -> ValueView
    decreases v,
{
    match v {
        Value::I32(x) => ValueView::I32(x),
        Value::U32(x) => ValueView::U32(x),
        Value::Byte(x) => ValueView::Byte(x),
        Value::Bool(x) => ValueView::Bool(x),
        Value::Float(x) => ValueView::Float(x),
        Value::Text(t) => ValueView::Text(t@),
        Value::Padding(b) => ValueView::Padding(b@),
        Value::List(vs) => ValueView::List(views_of(vs@)),
        Value::Record(vs) => ValueView::Record(views_of(vs@)),
        Value::Variant(i, vs) => ValueView::Variant(i as int, views_of(vs@)),
    }
}

/// The models of a run of values, in order.
pub open spec fn views_of(vs: Seq<Value>) -> Seq<ValueView>
    decreases vs,
{
    if vs.len() == 0 {
        Seq::empty()
    } else {
        seq![val_view(vs[0])] + views_of(vs.subrange(1, vs.len() as int))
    }
}

impl View for Value {
    type V = ValueView;

    open spec fn view(&self) -> ValueView {
        val_view(*self)
    }
}

pub proof fn lemma_views_of(vs: Seq<Value>)
    ensures
        views_of(vs).len() == vs.len(),
        forall|i: int| 0 <= i < vs.len() ==> views_of(vs)[i] == val_view(vs[i]),
    decreases vs,
{
    if vs.len() > 0 {
        lemma_views_of(vs.subrange(1, vs.len() as int));
    }
}

pub proof fn lemma_views_of_push(vs: Seq<Value>, v: Value)
    ensures
        views_of(vs.push(v)) == views_of(vs).push(val_view(v)),
    decreases vs,
{
    if vs.len() == 0 {
        assert(vs.push(v)[0] == v);
        assert(vs.push(v).subrange(1, 1) =~= Seq::<Value>::empty());
        assert(views_of(vs.push(v).subrange(1, 1)) == Seq::<ValueView>::empty());
        assert(views_of(vs.push(v)) =~= views_of(vs).push(val_view(v)));
    } else {
        assert(vs.push(v).subrange(1, vs.len() + 1 as int) =~= vs.subrange(1, vs.len() as int).push(v));
        lemma_views_of_push(vs.subrange(1, vs.len() as int), v);
        assert(views_of(vs.push(v)) =~= views_of(vs).push(val_view(v)));
    }
}

/// Whether a value has the shape the schema asks for: matching leaves,
/// matching field counts, a case index inside the table, padding of the
/// declared width.
pub open spec fn fits(c: Codec, v: ValueView) -> bool
    decreases v,
{
    match (c, v) {
        (Codec::I32, ValueView::I32(_)) => true,
        (Codec::U32, ValueView::U32(_)) => true,
        (Codec::Byte, ValueView::Byte(_)) => true,
        (Codec::Bool, ValueView::Bool(_)) => true,
        (Codec::Float, ValueView::Float(_)) => true,
        (Codec::Text, ValueView::Text(_)) => true,
        (Codec::Padding(n), ValueView::Padding(b)) => b.len() == n,
        (Codec::List(e), ValueView::List(vs)) => forall|i: int|
            0 <= i < vs.len() ==> fits(*e, #[trigger] vs[i]),
        (Codec::Record(fs), ValueView::Record(vs)) => vs.len() == fs@.len() && forall|i: int|
            0 <= i < vs.len() ==> fits(fs@[i].codec, #[trigger] vs[i]),
        (Codec::Variant(cs), ValueView::Variant(i, vs)) => 0 <= i < cs@.len() && vs.len()
            == cs@[i].payload@.len() && forall|j: int|
            0 <= j < vs.len() ==> fits(cs@[i].payload@[j].codec, #[trigger] vs[j]),
        _ => false,
    }
}

/// Whether every count in the value fits its 4-byte length prefix.
pub open spec fn small(c: Codec, v: ValueView) -> bool
    decreases v,
{
    match (c, v) {
        (Codec::Text, ValueView::Text(t)) => text_small(t),
        (Codec::List(e), ValueView::List(vs)) => vs.len() <= 0xffffffff && forall|i: int|
            0 <= i < vs.len() ==> small(*e, #[trigger] vs[i]),
        (Codec::Record(fs), ValueView::Record(vs)) => forall|i: int|
            0 <= i < vs.len() ==> small(fs@[i].codec, #[trigger] vs[i]),
        (Codec::Variant(cs), ValueView::Variant(i, vs)) => forall|j: int|
            0 <= j < vs.len() ==> small(cs@[i].payload@[j].codec, #[trigger] vs[j]),
        _ => true,
    }
}

/// Whether a schema is well formed: every variant table maps each
/// discriminant to at most one case, so the table is bidirectional.
pub open spec fn codec_wf(c: Codec) -> bool
    decreases c,
{
    match c {
        Codec::List(e) => codec_wf(*e),
        Codec::Record(fs) => forall|i: int|
            0 <= i < fs@.len() ==> codec_wf(#[trigger] fs@[i].codec),
        Codec::Variant(cs) => (forall|i: int, j: int|
            0 <= i < j < cs@.len() ==> cs@[i].tag != cs@[j].tag) && forall|i: int, j: int|
            0 <= i < cs@.len() && 0 <= j < cs@[i].payload@.len() ==> codec_wf(
                #[trigger] cs@[i].payload@[j].codec,
            ),
        _ => true,
    }
}

/// A lower bound, capped at 2^32, on how many bytes any value of this schema
/// occupies; used to reject sequence counts that cannot possibly be met.
pub open spec fn min_size(c: Codec) -> int
    decreases c,
{
    match c {
        Codec::I32 => 4,
        Codec::U32 => 4,
        Codec::Byte => 1,
        Codec::Bool => 1,
        Codec::Float => 4,
        Codec::Text => 4,
        Codec::Padding(n) => if n <= 0x1_0000_0000 {
            n as int
        } else {
            0x1_0000_0000
        },
        Codec::List(_) => 4,
        Codec::Record(fs) => min_size_fields(fs@),
        Codec::Variant(cs) => if cs@.len() == 0 {
            4
        } else {
            if 4 + min_size_cases(cs@) <= 0x1_0000_0000 {
                4 + min_size_cases(cs@)
            } else {
                0x1_0000_0000
            }
        },
    }
}

pub open spec fn min_size_fields(fs: Seq<Field>) -> int
    decreases fs,
{
    if fs.len() == 0 {
        0
    } else {
        let rest = min_size(fs[0].codec) + min_size_fields(fs.subrange(1, fs.len() as int));
        if rest <= 0x1_0000_0000 {
            rest
        } else {
            0x1_0000_0000
        }
    }
}

/// The least payload size over a variant's cases.
pub open spec fn min_size_cases(cs: Seq<VariantCase>) -> int
    decreases cs,
{
    if cs.len() == 0 {
        0
    } else if cs.len() == 1 {
        min_size_fields(cs[0].payload@)
    } else {
        let h = min_size_fields(cs[0].payload@);
        let t = min_size_cases(cs.subrange(1, cs.len() as int));
        if h <= t {
            h
        } else {
            t
        }
    }
}

pub proof fn lemma_min_size_bounds(c: Codec)
    ensures
        0 <= min_size(c) <= 0x1_0000_0000,
    decreases c,
{
    match c {
        Codec::Record(fs) => {
            lemma_min_size_fields_bounds(fs@);
        },
        Codec::Variant(cs) => {
            lemma_min_size_cases_bounds(cs@);
        },
        _ => {},
    }
}

pub proof fn lemma_min_size_fields_bounds(fs: Seq<Field>)
    ensures
        0 <= min_size_fields(fs) <= 0x1_0000_0000,
    decreases fs,
{
    if fs.len() > 0 {
        lemma_min_size_bounds(fs[0].codec);
        lemma_min_size_fields_bounds(fs.subrange(1, fs.len() as int));
    }
}

pub proof fn lemma_min_size_cases_bounds(cs: Seq<VariantCase>)
    ensures
        0 <= min_size_cases(cs) <= 0x1_0000_0000,
    decreases cs,
{
    if cs.len() == 1 {
        lemma_min_size_fields_bounds(cs[0].payload@);
    } else if cs.len() > 1 {
        lemma_min_size_fields_bounds(cs[0].payload@);
        lemma_min_size_cases_bounds(cs.subrange(1, cs.len() as int));
    }
}

/// The index of the first case carrying this discriminant, or -1.
pub open spec fn find_tag(cs: Seq<VariantCase>, tag: u32) -> int
    decreases cs,
{
    if cs.len() == 0 {
        -1
    } else if cs[0].tag == tag {
        0
    } else {
        let r = find_tag(cs.subrange(1, cs.len() as int), tag);
        if r < 0 {
            -1
        } else {
            r + 1
        }
    }
}

pub proof fn lemma_find_tag(cs: Seq<VariantCase>, tag: u32)
    ensures
        find_tag(cs, tag) == -1 || 0 <= find_tag(cs, tag) < cs.len(),
        find_tag(cs, tag) == -1 ==> forall|i: int| 0 <= i < cs.len() ==> cs[i].tag != tag,
        find_tag(cs, tag) >= 0 ==> cs[find_tag(cs, tag)].tag == tag && forall|i: int|
            0 <= i < find_tag(cs, tag) ==> cs[i].tag != tag,
    decreases cs,
{
    if cs.len() > 0 && cs[0].tag != tag {
        let sub = cs.subrange(1, cs.len() as int);
        lemma_find_tag(sub, tag);
        let r = find_tag(sub, tag);
        if r == -1 {
            assert forall|i: int| 0 <= i < cs.len() implies cs[i].tag != tag by {
                if i > 0 {
                    assert(cs[i] == sub[i - 1]);
                }
            }
        } else {
            assert(cs[r + 1] == sub[r]);
            assert forall|i: int| 0 <= i < r + 1 implies cs[i].tag != tag by {
                if i > 0 {
                    assert(cs[i] == sub[i - 1]);
                }
            }
        }
    }
}

/// The exact bytes that encoding a value under a schema produces.
/// Meaningful whenever `fits` and `small` hold of the pair.
pub open spec fn enc(c: Codec, v: ValueView) -> Seq<u8>
    decreases v,
{
    match (c, v) {
        (Codec::I32, ValueView::I32(x)) => le32i(x),
        (Codec::U32, ValueView::U32(x)) => le32(x),
        (Codec::Byte, ValueView::Byte(b)) => seq![b],
        (Codec::Bool, ValueView::Bool(b)) => seq![if b { 1u8 } else { 0u8 }],
        (Codec::Float, ValueView::Float(bits)) => le32(bits),
        (Codec::Text, ValueView::Text(t)) => text_enc(t),
        (Codec::Padding(_), ValueView::Padding(b)) => b,
        (Codec::List(e), ValueView::List(vs)) => le32(vs.len() as u32) + enc_list(*e, vs),
        (Codec::Record(fs), ValueView::Record(vs)) => enc_record(fs@, vs),
        (Codec::Variant(cs), ValueView::Variant(i, vs)) => le32(cs@[i].tag) + enc_record(
            cs@[i].payload@,
            vs,
        ),
        _ => Seq::empty(),
    }
}

/// The bytes of a run of list elements, in order.
pub open spec fn enc_list(e: Codec, vs: Seq<ValueView>) -> Seq<u8>
    decreases vs,
{
    if vs.len() == 0 {
        Seq::empty()
    } else {
        enc(e, vs[0]) + enc_list(e, vs.subrange(1, vs.len() as int))
    }
}

/// The bytes of a run of record fields: each field in schema order.
pub open spec fn enc_record(fs: Seq<Field>, vs: Seq<ValueView>) -> Seq<u8>
    decreases vs,
{
    if vs.len() == 0 || fs.len() == 0 {
        Seq::empty()
    } else {
        enc(fs[0].codec, vs[0]) + enc_record(fs.subrange(1, fs.len() as int), vs.subrange(1, vs.len() as int))
    }
}

/// What decoding a value of schema `c` at `pos` of `s` yields: the value and
/// the position after it, or the first failure. Decoding is strictly
/// sequential and never looks past the bytes it consumes.
pub open spec fn sdec(c: Codec, s: Seq<u8>, pos: int) -> Result<(ValueView, int), CodecError>
    decreases c, 0nat,
{
    match c {
        Codec::I32 => if pos + 4 <= s.len() {
            Ok((ValueView::I32(spec_u32_from_le_bytes(s.subrange(pos, pos + 4)) as i32), pos + 4))
        } else {
            Err(CodecError::UnexpectedEof)
        },
        Codec::U32 => if pos + 4 <= s.len() {
            Ok((ValueView::U32(spec_u32_from_le_bytes(s.subrange(pos, pos + 4))), pos + 4))
        } else {
            Err(CodecError::UnexpectedEof)
        },
        Codec::Byte => if pos + 1 <= s.len() {
            Ok((ValueView::Byte(s[pos]), pos + 1))
        } else {
            Err(CodecError::UnexpectedEof)
        },
        Codec::Bool => if pos + 1 <= s.len() {
            Ok((ValueView::Bool(s[pos] != 0), pos + 1))
        } else {
            Err(CodecError::UnexpectedEof)
        },
        Codec::Float => if pos + 4 <= s.len() {
            Ok((ValueView::Float(spec_u32_from_le_bytes(s.subrange(pos, pos + 4))), pos + 4))
        } else {
            Err(CodecError::UnexpectedEof)
        },
        Codec::Text => match text_sdec(s, pos) {
            Ok((t, p)) => Ok((ValueView::Text(t), p)),
            Err(e) => Err(e),
        },
        Codec::Padding(n) => if pos + n <= s.len() {
            Ok((ValueView::Padding(s.subrange(pos, pos + n)), pos + n))
        } else {
            Err(CodecError::UnexpectedEof)
        },
        Codec::List(e) => if pos + 4 <= s.len() {
            {
                let n = spec_u32_from_le_bytes(s.subrange(pos, pos + 4)) as int;
                if n * min_size(*e) > s.len() - (pos + 4) {
                    Err(CodecError::TruncatedSequence)
                } else {
                    match sdec_list(*e, n as nat, s, pos + 4) {
                        Ok((vs, p)) => Ok((ValueView::List(vs), p)),
                        Err(err) => Err(err),
                    }
                }
            }
        } else {
            Err(CodecError::UnexpectedEof)
        },
        Codec::Record(fs) => match sdec_record(fs@, s, pos) {
            Ok((vs, p)) => Ok((ValueView::Record(vs), p)),
            Err(e) => Err(e),
        },
        Codec::Variant(cs) => if pos + 4 <= s.len() {
            {
                let tag = spec_u32_from_le_bytes(s.subrange(pos, pos + 4));
                let i = find_tag(cs@, tag);
                if i < 0 || i >= cs@.len() {
                    Err(CodecError::UnknownDiscriminant(tag))
                } else {
                    match sdec_record(cs@[i].payload@, s, pos + 4) {
                        Ok((vs, p)) => Ok((ValueView::Variant(i, vs), p)),
                        Err(e) => Err(e),
                    }
                }
            }
        } else {
            Err(CodecError::UnexpectedEof)
        },
    }
}

/// Decoding exactly `n` list elements in a row.
pub open spec fn sdec_list(e: Codec, n: nat, s: Seq<u8>, pos: int) -> Result<
    (Seq<ValueView>, int),
    CodecError,
>
    decreases e, n,
{
    if n == 0 {
        Ok((Seq::empty(), pos))
    } else {
        match sdec(e, s, pos) {
            Ok((v, p)) => match sdec_list(e, (n - 1) as nat, s, p) {
                Ok((vs, q)) => Ok((seq![v] + vs, q)),
                Err(err) => Err(err),
            },
            Err(err) => Err(err),
        }
    }
}

/// Decoding a run of record fields, one after the other, in schema order.
pub open spec fn sdec_record(fs: Seq<Field>, s: Seq<u8>, pos: int) -> Result<
    (Seq<ValueView>, int),
    CodecError,
>
    decreases fs, 0nat,
{
    if fs.len() == 0 {
        Ok((Seq::empty(), pos))
    } else {
        match sdec(fs[0].codec, s, pos) {
            Ok((v, p)) => match sdec_record(fs.subrange(1, fs.len() as int), s, p) {
                Ok((vs, q)) => Ok((seq![v] + vs, q)),
                Err(err) => Err(err),
            },
            Err(err) => Err(err),
        }
    }
}

} // verus!
