//! The tagged-property codec of the newer, self-describing format
//! generations: a stream of records, each carrying its name, a type tag, its
//! payload size, and the raw payload. Unrecognized property names are
//! retained as opaque byte blocks, never dropped, so round trips stay exact.

use vstd::prelude::*;
use vstd::bytes::spec_u32_from_le_bytes;
use crate::codec::{enc, fits, small, val_view, Codec, Field, Value};
use crate::cursor::{le32, lemma_le_bytes_auto, write_bytes, write_u32_le, ByteCursor};
use crate::engine::encode_value;
use crate::error::CodecError;
use crate::text::{
    decode_text, encode_text, lemma_text_sdec_of_enc, text_enc, text_sdec, text_small, TextValue,
    TextView,
};

verus! {

/// One self-describing property: name, type tag, raw payload. The payload
/// size is not stored here; it is the payload's length, written back as the
/// 4-byte size field.
#[derive(Debug, PartialEq, Eq)]
pub struct PropertyRecord {
    pub name: TextValue,
    pub type_tag: u32,
    pub payload: Vec<u8>,
}

/// The mathematical model of a property record.
pub struct PropertyView {
    pub name: TextView,
    pub type_tag: u32,
    pub payload: Seq<u8>,
}

impl View for PropertyRecord {
    type V = PropertyView;

    open spec fn view(&self) -> PropertyView {
        PropertyView { name: self.name@, type_tag: self.type_tag, payload: self.payload@ }
    }
}

/// Whether the name and the payload size fit their 4-byte prefixes.
pub open spec fn prop_small(p: PropertyView) -> bool {
    text_small(p.name) && p.payload.len() <= 0xffffffff
}

/// The exact bytes of one property: name text, type tag, payload size, raw
/// payload.
pub open spec fn prop_enc(p: PropertyView) -> Seq<u8> {
    text_enc(p.name) + le32(p.type_tag) + le32(p.payload.len() as u32) + p.payload
}

/// What decoding one property at `pos` of `s` yields.
pub open spec fn prop_sdec(s: Seq<u8>, pos: int) -> Result<(PropertyView, int), CodecError> {
    match text_sdec(s, pos) {
        Err(e) => Err(e),
        Ok((t, p)) => if p + 8 > s.len() {
            Err(CodecError::UnexpectedEof)
        } else {
            let tag = spec_u32_from_le_bytes(s.subrange(p, p + 4));
            let sz = spec_u32_from_le_bytes(s.subrange(p + 4, p + 8)) as int;
            if p + 8 + sz > s.len() {
                Err(CodecError::UnexpectedEof)
            } else {
                Ok((
                    PropertyView {
                        name: t,
                        type_tag: tag,
                        payload: s.subrange(p + 8, p + 8 + sz),
                    },
                    p + 8 + sz,
                ))
            }
        },
    }
}

/// Decodes one property record, exactly as [`prop_sdec`] says.
pub fn decode_property(cur: &mut ByteCursor) -> (r: Result<PropertyRecord, CodecError>)
    requires
        old(cur).wf(),
    ensures
        final(cur).wf(),
        final(cur).bytes() == old(cur).bytes(),
        match r {
            Ok(p) => prop_sdec(old(cur).bytes(), old(cur).position()) == Ok::<
                (PropertyView, int),
                CodecError,
            >((p@, final(cur).position() as int)),
            Err(e) => prop_sdec(old(cur).bytes(), old(cur).position()) == Err::<
                (PropertyView, int),
                CodecError,
            >(e),
        },
{
    proof {
        lemma_le_bytes_auto();
    }
    let name = decode_text(cur)?;
    let type_tag = cur.read_u32_le()?;
    let sz = cur.read_u32_le()?;
    let payload = cur.read_fixed(sz as usize)?;
    Ok(PropertyRecord { name, type_tag, payload })
}

/// Encodes one property record: name, type tag, payload size, payload.
/// Fails with `SequenceTooLarge` precisely when the name or the payload does
/// not fit its 4-byte prefix.
pub fn encode_property(p: &PropertyRecord, out: &mut Vec<u8>) -> (r: Result<(), CodecError>)
    ensures
        r is Ok <==> prop_small(p@),
        r is Ok ==> final(out)@ == old(out)@ + prop_enc(p@),
        r is Err ==> r == Err::<(), CodecError>(CodecError::SequenceTooLarge),
{
    if p.payload.len() > 0xffffffffusize {
        return Err(CodecError::SequenceTooLarge);
    }
    encode_text(&p.name, out)?;
    write_u32_le(out, p.type_tag);
    write_u32_le(out, p.payload.len() as u32);
    write_bytes(out, &p.payload);
    assert(out@ =~= old(out)@ + prop_enc(p@));
    Ok(())
}

/// A property's encoding decodes back to the same property, wherever it sits.
pub proof fn lemma_property_round_trip(p: PropertyView, s: Seq<u8>, pos: int)
    requires
        prop_small(p),
        0 <= pos,
        pos + prop_enc(p).len() <= s.len(),
        s.subrange(pos, pos + prop_enc(p).len() as int) == prop_enc(p),
    ensures
        prop_sdec(s, pos) == Ok::<(PropertyView, int), CodecError>((
            p,
            pos + prop_enc(p).len(),
        )),
{
    lemma_le_bytes_auto();
    let e = prop_enc(p);
    let nt = text_enc(p.name);
    assert forall|k: int| pos <= k < pos + e.len() implies s[k] == e[k - pos] by {
        assert(s.subrange(pos, pos + e.len() as int)[k - pos] == e[k - pos]);
    }
    assert(s.subrange(pos, pos + nt.len() as int) =~= nt);
    lemma_text_sdec_of_enc(p.name, s, pos);
    let q = pos + nt.len() as int;
    assert(s.subrange(q, q + 4) =~= le32(p.type_tag));
    assert(s.subrange(q + 4, q + 8) =~= le32(p.payload.len() as u32));
    assert(s.subrange(q + 8, q + 8 + p.payload.len() as int) =~= p.payload);
}

/// The models of a run of property records, in order.
pub open spec fn prop_views_of(ps: Seq<PropertyRecord>) -> Seq<PropertyView>
    decreases ps,
{
    if ps.len() == 0 {
        Seq::empty()
    } else {
        seq![ps[0]@] + prop_views_of(ps.subrange(1, ps.len() as int))
    }
}

pub proof fn lemma_prop_views_of(ps: Seq<PropertyRecord>)
    ensures
        prop_views_of(ps).len() == ps.len(),
        forall|i: int| 0 <= i < ps.len() ==> prop_views_of(ps)[i] == ps[i]@,
    decreases ps,
{
    if ps.len() > 0 {
        lemma_prop_views_of(ps.subrange(1, ps.len() as int));
    }
}

pub proof fn lemma_prop_views_of_push(ps: Seq<PropertyRecord>, p: PropertyRecord)
    ensures
        prop_views_of(ps.push(p)) == prop_views_of(ps).push(p@),
    decreases ps,
{
    if ps.len() == 0 {
        assert(ps.push(p)[0] == p);
        assert(ps.push(p).subrange(1, 1) =~= Seq::<PropertyRecord>::empty());
        assert(prop_views_of(ps.push(p).subrange(1, 1)) == Seq::<PropertyView>::empty());
        assert(prop_views_of(ps.push(p)) =~= prop_views_of(ps).push(p@));
    } else {
        assert(ps.push(p).subrange(1, ps.len() + 1 as int) =~= ps.subrange(
            1,
            ps.len() as int,
        ).push(p));
        lemma_prop_views_of_push(ps.subrange(1, ps.len() as int), p);
        assert(prop_views_of(ps.push(p)) =~= prop_views_of(ps).push(p@));
    }
}

/// The concatenated bytes of a run of properties, in order.
pub open spec fn props_enc(ps: Seq<PropertyView>) -> Seq<u8>
    decreases ps,
{
    if ps.len() == 0 {
        Seq::empty()
    } else {
        prop_enc(ps[0]) + props_enc(ps.subrange(1, ps.len() as int))
    }
}

/// Appending one more property to an encoded prefix of a stream.
pub proof fn lemma_props_enc_snoc(ps: Seq<PropertyView>, i: int)
    requires
        0 <= i < ps.len(),
    ensures
        props_enc(ps.subrange(0, i + 1)) == props_enc(ps.subrange(0, i)) + prop_enc(ps[i]),
    decreases i,
{
    if i == 0 {
        assert(ps.subrange(0, 1)[0] == ps[0]);
        assert(ps.subrange(0, 1).subrange(1, 1) =~= Seq::<PropertyView>::empty());
        assert(props_enc(ps.subrange(0, 1).subrange(1, 1)) == Seq::<u8>::empty());
        assert(ps.subrange(0, 0) =~= Seq::<PropertyView>::empty());
        assert(props_enc(ps.subrange(0, 0)) == Seq::<u8>::empty());
        assert(props_enc(ps.subrange(0, 1)) =~= props_enc(ps.subrange(0, 0)) + prop_enc(ps[0]));
    } else {
        let tl = ps.subrange(1, ps.len() as int);
        lemma_props_enc_snoc(tl, i - 1);
        assert(ps.subrange(0, i + 1)[0] == ps[0]);
        assert(ps.subrange(0, i)[0] == ps[0]);
        assert(ps.subrange(0, i + 1).subrange(1, i + 1) =~= tl.subrange(0, i));
        assert(ps.subrange(0, i).subrange(1, i) =~= tl.subrange(0, i - 1));
        assert(tl[i - 1] == ps[i]);
        assert(props_enc(ps.subrange(0, i + 1)) =~= props_enc(ps.subrange(0, i)) + prop_enc(
            ps[i],
        ));
    }
}

/// A successfully decoded property always moves the position forward and
/// never past the end of the buffer.
pub proof fn lemma_prop_sdec_progress(s: Seq<u8>, pos: int)
    requires
        0 <= pos <= s.len(),
    ensures
        prop_sdec(s, pos) matches Ok(r) ==> pos < r.1 <= s.len(),
{
    crate::text::lemma_text_sdec_sound(s, pos);
}

/// What decoding a property stream from `pos` up to `end` yields: the
/// records in encounter order and the position after the last one, or the
/// error of the first failing record. A record that begins before `end` is
/// read whole, even when it runs past `end`.
pub open spec fn props_sdec(s: Seq<u8>, pos: int, end: int) -> Result<
    (Seq<PropertyView>, int),
    CodecError,
>
    decreases (if end - pos > 0 { end - pos } else { 0 }),
{
    if pos >= end {
        Ok((Seq::empty(), pos))
    } else {
        match prop_sdec(s, pos) {
            Err(e) => Err(e),
            Ok((p, q)) => if q <= pos {
                // a property always occupies at least its framing bytes;
                // this branch only satisfies the termination checker
                Err(CodecError::UnexpectedEof)
            } else {
                match props_sdec(s, q, end) {
                    Err(e) => Err(e),
                    Ok((ps, r)) => Ok((seq![p] + ps, r)),
                }
            },
        }
    }
}

/// A partial run of decoded properties, prefixed to whatever the rest yields.
pub open spec fn props_prepend(
    pre: Seq<PropertyView>,
    r: Result<(Seq<PropertyView>, int), CodecError>,
) -> Result<(Seq<PropertyView>, int), CodecError> {
    match r {
        Ok((ps, p)) => Ok((pre + ps, p)),
        Err(e) => Err(e),
    }
}

proof fn lemma_props_prepend_empty(r: Result<(Seq<PropertyView>, int), CodecError>)
    ensures
        props_prepend(Seq::empty(), r) == r,
{
    match r {
        Ok((ps, p)) => {
            assert(Seq::empty() + ps =~= ps);
        },
        Err(_) => {},
    }
}

proof fn lemma_props_prepend_assoc(
    a: Seq<PropertyView>,
    b: Seq<PropertyView>,
    r: Result<(Seq<PropertyView>, int), CodecError>,
)
    ensures
        props_prepend(a, props_prepend(b, r)) == props_prepend(a + b, r),
{
    match r {
        Ok((ps, p)) => {
            assert(a + (b + ps) =~= (a + b) + ps);
        },
        Err(_) => {},
    }
}

/// Decodes properties one after the other until the position reaches `end`,
/// exactly as [`props_sdec`] says: the same records in encounter order on
/// success, the first failing record's error otherwise.
pub fn decode_properties_to(cur: &mut ByteCursor, end: usize) -> (r: Result<
    Vec<PropertyRecord>,
    CodecError,
>)
    requires
        old(cur).wf(),
        end <= old(cur).bytes().len(),
    ensures
        final(cur).wf(),
        final(cur).bytes() == old(cur).bytes(),
        match r {
            Ok(ps) => props_sdec(old(cur).bytes(), old(cur).position(), end as int) == Ok::<
                (Seq<PropertyView>, int),
                CodecError,
            >((prop_views_of(ps@), final(cur).position() as int)),
            Err(e) => props_sdec(old(cur).bytes(), old(cur).position(), end as int) == Err::<
                (Seq<PropertyView>, int),
                CodecError,
            >(e),
        },
{
    let ghost s = old(cur).bytes();
    let ghost pos0 = old(cur).position();
    let mut out: Vec<PropertyRecord> = Vec::new();
    proof {
        assert(prop_views_of(out@) =~= Seq::<PropertyView>::empty());
        lemma_props_prepend_empty(props_sdec(s, pos0, end as int));
    }
    while cur.position_exec() < end
        invariant
            s == old(cur).bytes(),
            pos0 == old(cur).position(),
            end <= s.len(),
            cur.wf(),
            cur.bytes() == s,
            props_sdec(s, pos0, end as int) == props_prepend(
                prop_views_of(out@),
                props_sdec(s, cur.position(), end as int),
            ),
        decreases (if end - cur.position() > 0 {
            end - cur.position()
        } else {
            0
        }),
    {
        let ghost pre = prop_views_of(out@);
        let ghost pi = cur.position();
        let rr = decode_property(cur);
        match rr {
            Ok(p) => {
                proof {
                    lemma_prop_sdec_progress(s, pi);
                    lemma_props_prepend_assoc(
                        pre,
                        seq![p@],
                        props_sdec(s, cur.position(), end as int),
                    );
                    lemma_prop_views_of_push(out@, p);
                    assert(pre + seq![p@] =~= pre.push(p@));
                }
                out.push(p);
            },
            Err(e) => {
                return Err(e);
            },
        }
    }
    proof {
        assert(prop_views_of(out@) + Seq::<PropertyView>::empty() =~= prop_views_of(out@));
    }
    Ok(out)
}

/// Decodes properties one after the other until the buffer is exhausted, the
/// single pass the self-describing generations use, exactly as [`props_sdec`]
/// over the whole remainder says: the records in encounter order, each read
/// as [`prop_sdec`] says, or the first failing record's error.
pub fn decode_properties(cur: &mut ByteCursor) -> (r: Result<Vec<PropertyRecord>, CodecError>)
    requires
        old(cur).wf(),
    ensures
        final(cur).wf(),
        final(cur).bytes() == old(cur).bytes(),
        match r {
            Ok(ps) => props_sdec(
                old(cur).bytes(),
                old(cur).position(),
                old(cur).bytes().len() as int,
            ) == Ok::<(Seq<PropertyView>, int), CodecError>((
                prop_views_of(ps@),
                final(cur).position() as int,
            )),
            Err(e) => props_sdec(
                old(cur).bytes(),
                old(cur).position(),
                old(cur).bytes().len() as int,
            ) == Err::<(Seq<PropertyView>, int), CodecError>(e),
        },
{
    let end = cur.position_exec() + cur.remaining();
    decode_properties_to(cur, end)
}

/// Encodes properties one after the other, in order. Fails with
/// `SequenceTooLarge` precisely when some record does not fit its prefixes;
/// otherwise appends exactly the concatenation of each record's bytes.
pub fn encode_properties(ps: &Vec<PropertyRecord>, out: &mut Vec<u8>) -> (r: Result<
    (),
    CodecError,
>)
    ensures
        r is Ok <==> (forall|i: int|
            0 <= i < prop_views_of(ps@).len() ==> prop_small(#[trigger] prop_views_of(ps@)[i])),
        r is Ok ==> final(out)@ == old(out)@ + props_enc(prop_views_of(ps@)),
        r is Err ==> r == Err::<(), CodecError>(CodecError::SequenceTooLarge),
{
    let ghost w = prop_views_of(ps@);
    proof {
        lemma_prop_views_of(ps@);
    }
    let ghost base = out@;
    let mut i: usize = 0;
    proof {
        assert(w.subrange(0, 0) =~= Seq::<PropertyView>::empty());
        assert(props_enc(w.subrange(0, 0)) == Seq::<u8>::empty());
        assert(out@ =~= base + props_enc(w.subrange(0, 0)));
    }
    while i < ps.len()
        invariant
            w == prop_views_of(ps@),
            w.len() == ps@.len(),
            forall|k: int| 0 <= k < ps@.len() ==> w[k] == ps@[k]@,
            base == old(out)@,
            0 <= i <= ps@.len(),
            forall|k: int| 0 <= k < i ==> prop_small(#[trigger] w[k]),
            out@ == base + props_enc(w.subrange(0, i as int)),
        decreases ps@.len() - i,
    {
        let rr = encode_property(&ps[i], out);
        if rr.is_err() {
            proof {
                assert(!prop_small(w[i as int]));
            }
            return Err(CodecError::SequenceTooLarge);
        }
        proof {
            lemma_props_enc_snoc(w, i as int);
            assert(out@ =~= base + props_enc(w.subrange(0, i + 1)));
        }
        i = i + 1;
    }
    proof {
        assert(w.subrange(0, w.len() as int) =~= w);
    }
    Ok(())
}

/// A well-framed property stream decodes back to the same records: the
/// completeness half of the tagged backend's round trip.
pub proof fn lemma_props_sdec_of_enc(ps: Seq<PropertyView>, s: Seq<u8>, pos: int)
    requires
        forall|i: int| 0 <= i < ps.len() ==> prop_small(#[trigger] ps[i]),
        0 <= pos,
        pos + props_enc(ps).len() <= s.len(),
        s.subrange(pos, pos + props_enc(ps).len() as int) == props_enc(ps),
    ensures
        props_sdec(s, pos, pos + props_enc(ps).len()) == Ok::<
            (Seq<PropertyView>, int),
            CodecError,
        >((ps, pos + props_enc(ps).len())),
    decreases ps,
{
    crate::cursor::lemma_le_bytes_auto();
    if ps.len() == 0 {
        assert(ps =~= Seq::<PropertyView>::empty());
    } else {
        let whole = props_enc(ps);
        let h = prop_enc(ps[0]);
        let tl = ps.subrange(1, ps.len() as int);
        let rest = props_enc(tl);
        assert(whole == h + rest);
        assert forall|k: int| pos <= k < pos + whole.len() implies s[k] == whole[k - pos] by {
            assert(s.subrange(pos, pos + whole.len() as int)[k - pos] == whole[k - pos]);
        }
        assert(s.subrange(pos, pos + h.len() as int) =~= h);
        lemma_property_round_trip(ps[0], s, pos);
        assert(h.len() > 0);
        assert forall|i: int| 0 <= i < tl.len() implies prop_small(#[trigger] tl[i]) by {
            assert(tl[i] == ps[i + 1]);
        }
        assert(s.subrange(pos + h.len() as int, pos + whole.len() as int) =~= rest);
        lemma_props_sdec_of_enc(tl, s, pos + h.len());
        assert(seq![ps[0]] + tl =~= ps);
    }
}

/// The type tag a property carries for each codec kind: the self-describing
/// stream distinguishes primitives, text, opaque blocks, sequences and
/// aggregates by this value.
pub open spec fn codec_tag(c: Codec) -> u32 {
    match c {
        Codec::I32 => 0,
        Codec::U32 => 1,
        Codec::Byte => 2,
        Codec::Bool => 3,
        Codec::Float => 4,
        Codec::Text => 5,
        Codec::Padding(_) => 6,
        Codec::List(_) => 7,
        Codec::Record(_) => 8,
        Codec::Variant(_) => 9,
    }
}

fn codec_tag_exec(c: &Codec) -> (r: u32)
    ensures
        r == codec_tag(*c),
{
    match c {
        Codec::I32 => 0,
        Codec::U32 => 1,
        Codec::Byte => 2,
        Codec::Bool => 3,
        Codec::Float => 4,
        Codec::Text => 5,
        Codec::Padding(_) => 6,
        Codec::List(_) => 7,
        Codec::Record(_) => 8,
        Codec::Variant(_) => 9,
    }
}

/// The UTF-8 bytes of a string: a function of its characters alone.
pub uninterp spec fn str_bytes_of(s: Seq<char>) -> Seq<u8>;

/// Relies on str::as_bytes: the UTF-8 bytes of a string depend on its
/// characters alone.
#[verifier::external_body]
fn str_bytes(s: &str) -> (r: Vec<u8>)
    ensures
        r@ == str_bytes_of(s@),
{
    s.as_bytes().to_vec()
}

/// Walks a record's fields once, in schema order, emitting one
/// self-describing property per field: the field's name, the type tag of its
/// codec, and the field's positional encoding as the raw payload. This is
/// the single traversal pass the tagged generations encode with. Fails with
/// `SequenceTooLarge` precisely when some field value does not fit its
/// length prefixes.
pub fn record_to_properties(fs: &Vec<Field>, vs: &Vec<Value>) -> (r: Result<
    Vec<PropertyRecord>,
    CodecError,
>)
    requires
        vs@.len() == fs@.len(),
        forall|i: int| 0 <= i < vs@.len() ==> fits(fs@[i].codec, #[trigger] val_view(vs@[i])),
    ensures
        r is Ok <==> (forall|i: int|
            0 <= i < vs@.len() ==> small(fs@[i].codec, #[trigger] val_view(vs@[i]))),
        r is Ok ==> prop_views_of(r->Ok_0@).len() == fs@.len(),
        r is Ok ==> forall|i: int|
            0 <= i < fs@.len() ==> (#[trigger] prop_views_of(r->Ok_0@)[i]).name
                == TextView::Narrow(str_bytes_of(fs@[i].name@)) && prop_views_of(r->Ok_0@)[i].type_tag
                == codec_tag(fs@[i].codec) && prop_views_of(r->Ok_0@)[i].payload == enc(
                fs@[i].codec,
                val_view(vs@[i]),
            ),
        r is Err ==> r == Err::<Vec<PropertyRecord>, CodecError>(CodecError::SequenceTooLarge),
{
    let mut out: Vec<PropertyRecord> = Vec::new();
    let mut i: usize = 0;
    while i < fs.len()
        invariant
            vs@.len() == fs@.len(),
            forall|k: int| 0 <= k < vs@.len() ==> fits(fs@[k].codec, #[trigger] val_view(vs@[k])),
            0 <= i <= fs@.len(),
            out@.len() == i,
            forall|k: int| 0 <= k < i ==> small(fs@[k].codec, #[trigger] val_view(vs@[k])),
            forall|k: int|
                0 <= k < i ==> (#[trigger] out@[k])@.name == TextView::Narrow(
                    str_bytes_of(fs@[k].name@),
                ) && out@[k]@.type_tag == codec_tag(fs@[k].codec) && out@[k]@.payload == enc(
                    fs@[k].codec,
                    val_view(vs@[k]),
                ),
        decreases fs@.len() - i,
    {
        let mut payload: Vec<u8> = Vec::new();
        let rr = encode_value(&fs[i].codec, &vs[i], &mut payload);
        if rr.is_err() {
            return Err(CodecError::SequenceTooLarge);
        }
        proof {
            assert(payload@ =~= enc(fs@[i as int].codec, val_view(vs@[i as int])));
        }
        let name = TextValue::Narrow(str_bytes(fs[i].name));
        let type_tag = codec_tag_exec(&fs[i].codec);
        out.push(PropertyRecord { name, type_tag, payload });
        i = i + 1;
    }
    proof {
        lemma_prop_views_of(out@);
    }
    Ok(out)
}

} // verus!