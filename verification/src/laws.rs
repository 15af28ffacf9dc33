//! The codec's round-trip laws: a value encoded under a well-formed schema
//! decodes back to exactly that value, wherever the encoding sits in a
//! buffer; and an unmapped variant discriminant always fails decoding.

use vstd::prelude::*;
use crate::codec::{
    codec_wf, enc, enc_list, enc_record, find_tag, fits, lemma_find_tag, lemma_min_size_bounds,
    min_size, sdec, sdec_list, sdec_record, small, Codec, Field, ValueView, VariantCase,
};
use crate::cursor::{le32, le32i, lemma_le_bytes_auto};
use crate::error::CodecError;
use crate::text::lemma_text_sdec_of_enc;

verus! {

/// The bytes of an embedded encoding, read off pointwise.
proof fn lemma_bytes_at(s: Seq<u8>, pos: int, e: Seq<u8>)
    requires
        0 <= pos,
        pos + e.len() <= s.len(),
        s.subrange(pos, pos + e.len() as int) == e,
    ensures
        forall|k: int| pos <= k < pos + e.len() ==> s[k] == e[k - pos],
{
    assert forall|k: int| pos <= k < pos + e.len() implies s[k] == e[k - pos] by {
        assert(s.subrange(pos, pos + e.len() as int)[k - pos] == e[k - pos]);
    }
}

/// A slice of an embedded encoding equals the same slice of the encoding.
proof fn lemma_sub_split(s: Seq<u8>, pos: int, e: Seq<u8>, a: int, b: int)
    requires
        0 <= pos,
        pos + e.len() <= s.len(),
        s.subrange(pos, pos + e.len() as int) == e,
        0 <= a <= b <= e.len(),
    ensures
        s.subrange(pos + a, pos + b) == e.subrange(a, b),
    {
    lemma_bytes_at(s, pos, e);
    assert(s.subrange(pos + a, pos + b) =~= e.subrange(a, b));
}

/// Every encoding is at least as long as the schema's capped lower bound.
pub proof fn lemma_enc_min(c: Codec, v: ValueView)
    requires
        fits(c, v),
        small(c, v),
    ensures
        enc(c, v).len() >= min_size(c),
    decreases v,
{
    lemma_le_bytes_auto();
    lemma_min_size_bounds(c);
    match v {
        ValueView::Text(t) => {
            match t {
                crate::text::TextView::Narrow(u) => {},
                crate::text::TextView::Wide(u) => {
                    crate::text::lemma_wide_bytes_len(u);
                },
            }
        },
        ValueView::Record(vs) => {
            if c is Record {
                let fs = (c)->Record_0@;
                lemma_enc_record_min(fs, vs);
            }
        },
        ValueView::Variant(i, vs) => {
            if c is Variant {
                let cs = (c)->Variant_0@;
                lemma_enc_record_min(cs[i].payload@, vs);
                lemma_min_size_cases_le(cs, i);
            }
        },
        _ => {},
    }
}

/// The least case bound is below each case's own bound.
proof fn lemma_min_size_cases_le(cs: Seq<VariantCase>, i: int)
    requires
        0 <= i < cs.len(),
    ensures
        crate::codec::min_size_cases(cs) <= crate::codec::min_size_fields(cs[i].payload@),
    decreases cs,
{
    if cs.len() > 1 {
        if i > 0 {
            let sub = cs.subrange(1, cs.len() as int);
            lemma_min_size_cases_le(sub, i - 1);
            assert(sub[i - 1] == cs[i]);
        }
    }
}

/// A record's encoding is at least the sum of its fields' bounds.
proof fn lemma_enc_record_min(fs: Seq<Field>, vs: Seq<ValueView>)
    requires
        vs.len() == fs.len(),
        forall|i: int| 0 <= i < vs.len() ==> fits(fs[i].codec, #[trigger] vs[i]),
        forall|i: int| 0 <= i < vs.len() ==> small(fs[i].codec, #[trigger] vs[i]),
    ensures
        enc_record(fs, vs).len() >= crate::codec::min_size_fields(fs),
    decreases vs,
{
    if vs.len() > 0 {
        let ft = fs.subrange(1, fs.len() as int);
        let vt = vs.subrange(1, vs.len() as int);
        assert forall|i: int| 0 <= i < vt.len() implies fits(ft[i].codec, #[trigger] vt[i])
            && small(ft[i].codec, vt[i]) by {
            assert(vt[i] == vs[i + 1]);
            assert(ft[i] == fs[i + 1]);
        }
        lemma_enc_record_min(ft, vt);
        lemma_enc_min(fs[0].codec, vs[0]);
        crate::codec::lemma_min_size_bounds(fs[0].codec);
        crate::codec::lemma_min_size_fields_bounds(ft);
    }
}

/// A list's encoding is at least `count` times the element bound.
proof fn lemma_enc_list_min(e: Codec, vs: Seq<ValueView>)
    requires
        forall|i: int| 0 <= i < vs.len() ==> fits(e, #[trigger] vs[i]),
        forall|i: int| 0 <= i < vs.len() ==> small(e, #[trigger] vs[i]),
    ensures
        enc_list(e, vs).len() >= vs.len() * min_size(e),
    decreases vs,
{
    if vs.len() == 0 {
        assert(vs.len() * min_size(e) == 0) by (nonlinear_arith)
            requires vs.len() == 0;
    } else {
        let vt = vs.subrange(1, vs.len() as int);
        assert forall|i: int| 0 <= i < vt.len() implies fits(e, #[trigger] vt[i]) && small(
            e,
            vt[i],
        ) by {
            assert(vt[i] == vs[i + 1]);
        }
        lemma_enc_list_min(e, vt);
        lemma_enc_min(e, vs[0]);
        assert(vs.len() * min_size(e) == min_size(e) + vt.len() * min_size(e)) by (nonlinear_arith)
            requires vs.len() == vt.len() + 1;
    }
}

/// Completeness of the decoder: wherever a buffer holds the encoding of a
/// value that fits a well-formed schema, decoding at that spot yields exactly
/// that value and stops exactly after its bytes. With [`sdec`] mirrored by
/// the executable decoder, this is the round-trip law `decode(encode(v)) == v`
/// for records, lists, variants, text and every leaf.
pub proof fn lemma_sdec_of_enc(c: Codec, v: ValueView, s: Seq<u8>, pos: int)
    requires
        codec_wf(c),
        fits(c, v),
        small(c, v),
        0 <= pos,
        pos + enc(c, v).len() <= s.len(),
        s.subrange(pos, pos + enc(c, v).len() as int) == enc(c, v),
    ensures
        sdec(c, s, pos) == Ok::<(ValueView, int), CodecError>((v, pos + enc(c, v).len())),
    decreases v,
{
    lemma_le_bytes_auto();
    let e = enc(c, v);
    lemma_bytes_at(s, pos, e);
    match v {
        ValueView::I32(x) => {
            assert(s.subrange(pos, pos + 4) =~= le32i(x));
            assert((((x as u32) as i32)) == x) by (bit_vector);
        },
        ValueView::U32(x) => {
            assert(s.subrange(pos, pos + 4) =~= le32(x));
        },
        ValueView::Byte(b) => {
            assert(s[pos] == e[0]);
        },
        ValueView::Bool(b) => {
            assert(s[pos] == e[0]);
        },
        ValueView::Float(x) => {
            assert(s.subrange(pos, pos + 4) =~= le32(x));
        },
        ValueView::Text(t) => {
            lemma_text_sdec_of_enc(t, s, pos);
        },
        ValueView::Padding(b) => {
            let n = (c)->Padding_0;
            assert(s.subrange(pos, pos + n) =~= b);
        },
        ValueView::List(vs) => {
            let ec = *((c)->List_0);
            assert forall|i: int| 0 <= i < vs.len() implies fits(ec, #[trigger] vs[i]) && small(
                ec,
                vs[i],
            ) by {
                assert(fits(ec, (v->List_0)[i]));
                assert(small(ec, (v->List_0)[i]));
            }
            let n = vs.len() as int;
            let body = enc_list(ec, vs);
            assert(s.subrange(pos, pos + 4) =~= le32(n as u32));
            assert(n as u32 as int == n);
            lemma_sub_split(s, pos, e, 4, e.len() as int);
            assert(s.subrange(pos + 4, pos + 4 + body.len() as int) =~= body);
            lemma_enc_list_min(ec, vs);
            assert(n * min_size(ec) <= s.len() - (pos + 4));
            lemma_sdec_list_of_enc(ec, vs, s, pos + 4);
            assert(sdec(c, s, pos) == Ok::<(ValueView, int), CodecError>((v, pos + e.len())));
        },
        ValueView::Record(vs) => {
            let fs = (c)->Record_0@;
            assert forall|i: int|
                0 <= i < vs.len() implies fits(fs[i].codec, #[trigger] vs[i]) && small(
                fs[i].codec,
                vs[i],
            ) && codec_wf(fs[i].codec) by {
                assert(fits(fs[i].codec, (v->Record_0)[i]));
                assert(small(fs[i].codec, (v->Record_0)[i]));
            }
            lemma_sdec_record_of_enc(fs, vs, s, pos);
        },
        ValueView::Variant(i, vs) => {
            let cs = (c)->Variant_0@;
            let tag = cs[i].tag;
            assert forall|j: int|
                0 <= j < vs.len() implies fits(cs[i].payload@[j].codec, #[trigger] vs[j]) && small(
                cs[i].payload@[j].codec,
                vs[j],
            ) && codec_wf(cs[i].payload@[j].codec) by {
                assert(fits(cs[i].payload@[j].codec, (v->Variant_1)[j]));
                assert(small(cs[i].payload@[j].codec, (v->Variant_1)[j]));
            }
            assert(s.subrange(pos, pos + 4) =~= le32(tag));
            lemma_find_tag(cs, tag);
            let f = find_tag(cs, tag);
            assert(f == i) by {
                if f == -1 {
                    assert(cs[i].tag != tag);
                } else if f < i {
                    assert(cs[f].tag != cs[i].tag);
                } else if f > i {
                    assert(cs[i].tag != tag);
                }
            }
            let body = enc_record(cs[i].payload@, vs);
            lemma_sub_split(s, pos, e, 4, e.len() as int);
            assert(s.subrange(pos + 4, pos + 4 + body.len() as int) =~= body);
            lemma_sdec_record_of_enc(cs[i].payload@, vs, s, pos + 4);
            assert(sdec(c, s, pos) == Ok::<(ValueView, int), CodecError>((v, pos + e.len())));
        },
    }
}

/// Completeness for a run of list elements.
proof fn lemma_sdec_list_of_enc(e: Codec, vs: Seq<ValueView>, s: Seq<u8>, pos: int)
    requires
        codec_wf(e),
        forall|i: int| 0 <= i < vs.len() ==> fits(e, #[trigger] vs[i]),
        forall|i: int| 0 <= i < vs.len() ==> small(e, #[trigger] vs[i]),
        0 <= pos,
        pos + enc_list(e, vs).len() <= s.len(),
        s.subrange(pos, pos + enc_list(e, vs).len() as int) == enc_list(e, vs),
    ensures
        sdec_list(e, vs.len(), s, pos) == Ok::<(Seq<ValueView>, int), CodecError>((
            vs,
            pos + enc_list(e, vs).len(),
        )),
    decreases vs,
{
    if vs.len() == 0 {
        assert(sdec_list(e, 0, s, pos) == Ok::<(Seq<ValueView>, int), CodecError>((
            Seq::empty(),
            pos,
        )));
        assert(vs =~= Seq::<ValueView>::empty());
    } else {
        let whole = enc_list(e, vs);
        let h = enc(e, vs[0]);
        let vt = vs.subrange(1, vs.len() as int);
        let rest = enc_list(e, vt);
        assert(whole == h + rest);
        lemma_sub_split(s, pos, whole, 0, h.len() as int);
        assert(whole.subrange(0, h.len() as int) =~= h);
        lemma_sdec_of_enc(e, vs[0], s, pos);
        assert forall|i: int| 0 <= i < vt.len() implies fits(e, #[trigger] vt[i]) && small(
            e,
            vt[i],
        ) by {
            assert(vt[i] == vs[i + 1]);
        }
        lemma_sub_split(s, pos, whole, h.len() as int, whole.len() as int);
        assert(whole.subrange(h.len() as int, whole.len() as int) =~= rest);
        lemma_sdec_list_of_enc(e, vt, s, pos + h.len());
        assert(seq![vs[0]] + vt =~= vs);
    }
}

/// Completeness for a run of record fields.
proof fn lemma_sdec_record_of_enc(fs: Seq<Field>, vs: Seq<ValueView>, s: Seq<u8>, pos: int)
    requires
        vs.len() == fs.len(),
        forall|i: int| 0 <= i < vs.len() ==> codec_wf(#[trigger] fs[i].codec),
        forall|i: int| 0 <= i < vs.len() ==> fits(fs[i].codec, #[trigger] vs[i]),
        forall|i: int| 0 <= i < vs.len() ==> small(fs[i].codec, #[trigger] vs[i]),
        0 <= pos,
        pos + enc_record(fs, vs).len() <= s.len(),
        s.subrange(pos, pos + enc_record(fs, vs).len() as int) == enc_record(fs, vs),
    ensures
        sdec_record(fs, s, pos) == Ok::<(Seq<ValueView>, int), CodecError>((
            vs,
            pos + enc_record(fs, vs).len(),
        )),
    decreases vs,
{
    if vs.len() == 0 {
        assert(sdec_record(fs, s, pos) == Ok::<(Seq<ValueView>, int), CodecError>((
            Seq::empty(),
            pos,
        )));
        assert(vs =~= Seq::<ValueView>::empty());
    } else {
        let whole = enc_record(fs, vs);
        let h = enc(fs[0].codec, vs[0]);
        let ft = fs.subrange(1, fs.len() as int);
        let vt = vs.subrange(1, vs.len() as int);
        let rest = enc_record(ft, vt);
        assert(whole == h + rest);
        lemma_sub_split(s, pos, whole, 0, h.len() as int);
        assert(whole.subrange(0, h.len() as int) =~= h);
        lemma_sdec_of_enc(fs[0].codec, vs[0], s, pos);
        assert forall|i: int| 0 <= i < vt.len() implies codec_wf(#[trigger] ft[i].codec) && fits(
            ft[i].codec,
            #[trigger] vt[i],
        ) && small(ft[i].codec, vt[i]) by {
            assert(vt[i] == vs[i + 1]);
            assert(ft[i] == fs[i + 1]);
        }
        lemma_sub_split(s, pos, whole, h.len() as int, whole.len() as int);
        assert(whole.subrange(h.len() as int, whole.len() as int) =~= rest);
        lemma_sdec_record_of_enc(ft, vt, s, pos + h.len());
        assert(seq![vs[0]] + vt =~= vs);
    }
}

/// A record decodes back to itself: field decode order equals encode order
/// (both walk the schema's fields front to back), and the round trip is the
/// identity on the field values.
pub proof fn lemma_record_round_trip(c: Codec, v: ValueView)
    requires
        c is Record,
        codec_wf(c),
        fits(c, v),
        small(c, v),
    ensures
        sdec(c, enc(c, v), 0) == Ok::<(ValueView, int), CodecError>((v, enc(c, v).len() as int)),
{
    assert(enc(c, v).subrange(0, enc(c, v).len() as int) =~= enc(c, v));
    lemma_sdec_of_enc(c, v, enc(c, v), 0);
}

/// A sequence decodes back to itself, in particular with the same length,
/// and each element also round-trips on its own, independent of the list.
pub proof fn lemma_list_round_trip(c: Codec, v: ValueView)
    requires
        c is List,
        codec_wf(c),
        fits(c, v),
        small(c, v),
    ensures
        sdec(c, enc(c, v), 0) == Ok::<(ValueView, int), CodecError>((v, enc(c, v).len() as int)),
        sdec(c, enc(c, v), 0)->Ok_0.0->List_0.len() == v->List_0.len(),
        forall|i: int|
            0 <= i < v->List_0.len() ==> sdec(
                *c->List_0,
                enc(*c->List_0, #[trigger] v->List_0[i]),
                0,
            ) == Ok::<(ValueView, int), CodecError>((
                v->List_0[i],
                enc(*c->List_0, v->List_0[i]).len() as int,
            )),
{
    assert(enc(c, v).subrange(0, enc(c, v).len() as int) =~= enc(c, v));
    lemma_sdec_of_enc(c, v, enc(c, v), 0);
    let e = *c->List_0;
    assert forall|i: int|
        0 <= i < v->List_0.len() implies sdec(e, enc(e, #[trigger] v->List_0[i]), 0) == Ok::<
        (ValueView, int),
        CodecError,
    >((v->List_0[i], enc(e, v->List_0[i]).len() as int)) by {
        let w = v->List_0[i];
        assert(fits(e, w) && small(e, w));
        assert(enc(e, w).subrange(0, enc(e, w).len() as int) =~= enc(e, w));
        lemma_sdec_of_enc(e, w, enc(e, w), 0);
    }
}

/// A variant decodes back to itself: the discriminant resolves to the same
/// case and the payload is preserved.
pub proof fn lemma_variant_round_trip(c: Codec, v: ValueView)
    requires
        c is Variant,
        codec_wf(c),
        fits(c, v),
        small(c, v),
    ensures
        sdec(c, enc(c, v), 0) == Ok::<(ValueView, int), CodecError>((v, enc(c, v).len() as int)),
{
    assert(enc(c, v).subrange(0, enc(c, v).len() as int) =~= enc(c, v));
    lemma_sdec_of_enc(c, v, enc(c, v), 0);
}

/// A discriminant that the table does not map fails decoding with exactly
/// `UnknownDiscriminant`, carrying the offending value.
pub proof fn lemma_unknown_discriminant(c: Codec, s: Seq<u8>, pos: int, tag: u32)
    requires
        c is Variant,
        0 <= pos,
        pos + 4 <= s.len(),
        s.subrange(pos, pos + 4) == le32(tag),
        find_tag((c)->Variant_0@, tag) == -1,
    ensures
        sdec(c, s, pos) == Err::<(ValueView, int), CodecError>(CodecError::UnknownDiscriminant(
            tag,
        )),
{
    lemma_le_bytes_auto();
}

/// Soundness of the decoder: whatever a buffer decodes to fits the schema
/// and every count in it fits its prefix again, so a decoded value can
/// always be re-encoded; and the position only moves forward, never past
/// the end.
pub proof fn lemma_sdec_sound(c: Codec, s: Seq<u8>, pos: int)
    requires
        0 <= pos <= s.len(),
    ensures
        sdec(c, s, pos) matches Ok(r) ==> fits(c, r.0) && small(c, r.0) && pos <= r.1 <= s.len(),
    decreases c, 0nat,
{
    match c {
        Codec::Text => {
            crate::text::lemma_text_sdec_sound(s, pos);
        },
        Codec::List(e) => {
            if pos + 4 <= s.len() {
                let n = vstd::bytes::spec_u32_from_le_bytes(s.subrange(pos, pos + 4)) as int;
                if !(n * min_size(*e) > s.len() - (pos + 4)) {
                    lemma_sdec_list_sound(*e, n as nat, s, pos + 4);
                    match sdec_list(*e, n as nat, s, pos + 4) {
                        Ok(r) => {
                            assert(fits(c, ValueView::List(r.0)));
                            assert(small(c, ValueView::List(r.0)));
                        },
                        Err(_) => {},
                    }
                }
            }
        },
        Codec::Record(fs) => {
            lemma_sdec_record_sound(fs@, s, pos);
            match sdec_record(fs@, s, pos) {
                Ok(r) => {
                    assert(fits(c, ValueView::Record(r.0)));
                    assert(small(c, ValueView::Record(r.0)));
                },
                Err(_) => {},
            }
        },
        Codec::Variant(cs) => {
            if pos + 4 <= s.len() {
                let tag = vstd::bytes::spec_u32_from_le_bytes(s.subrange(pos, pos + 4));
                let i = find_tag(cs@, tag);
                if 0 <= i < cs@.len() {
                    lemma_sdec_record_sound(cs@[i].payload@, s, pos + 4);
                    match sdec_record(cs@[i].payload@, s, pos + 4) {
                        Ok(r) => {
                            assert(fits(c, ValueView::Variant(i, r.0)));
                            assert(small(c, ValueView::Variant(i, r.0)));
                        },
                        Err(_) => {},
                    }
                }
            }
        },
        _ => {},
    }
}

/// Soundness for a run of list elements.
proof fn lemma_sdec_list_sound(e: Codec, n: nat, s: Seq<u8>, pos: int)
    requires
        0 <= pos <= s.len(),
    ensures
        sdec_list(e, n, s, pos) matches Ok(r) ==> r.0.len() == n && (forall|i: int|
            0 <= i < r.0.len() ==> fits(e, #[trigger] r.0[i]) && small(e, r.0[i])) && pos <= r.1
            <= s.len(),
    decreases e, n,
{
    if n > 0 {
        lemma_sdec_sound(e, s, pos);
        match sdec(e, s, pos) {
            Ok(h) => {
                lemma_sdec_list_sound(e, (n - 1) as nat, s, h.1);
                match sdec_list(e, (n - 1) as nat, s, h.1) {
                    Ok(rest) => {
                        let whole = seq![h.0] + rest.0;
                        assert forall|i: int|
                            0 <= i < whole.len() implies fits(e, #[trigger] whole[i]) && small(
                            e,
                            whole[i],
                        ) by {
                            if i > 0 {
                                assert(whole[i] == rest.0[i - 1]);
                            }
                        }
                    },
                    Err(_) => {},
                }
            },
            Err(_) => {},
        }
    }
}

/// Soundness for a run of record fields.
proof fn lemma_sdec_record_sound(fs: Seq<Field>, s: Seq<u8>, pos: int)
    requires
        0 <= pos <= s.len(),
    ensures
        sdec_record(fs, s, pos) matches Ok(r) ==> r.0.len() == fs.len() && (forall|i: int|
            0 <= i < r.0.len() ==> fits(fs[i].codec, #[trigger] r.0[i]) && small(
            fs[i].codec,
            r.0[i],
        )) && pos <= r.1 <= s.len(),
    decreases fs, 0nat,
{
    if fs.len() > 0 {
        lemma_sdec_sound(fs[0].codec, s, pos);
        match sdec(fs[0].codec, s, pos) {
            Ok(h) => {
                let ft = fs.subrange(1, fs.len() as int);
                lemma_sdec_record_sound(ft, s, h.1);
                match sdec_record(ft, s, h.1) {
                    Ok(rest) => {
                        let whole = seq![h.0] + rest.0;
                        assert forall|i: int|
                            0 <= i < whole.len() implies fits(fs[i].codec, #[trigger] whole[i])
                            && small(fs[i].codec, whole[i]) by {
                            if i > 0 {
                                assert(whole[i] == rest.0[i - 1]);
                                assert(ft[i - 1] == fs[i]);
                            }
                        }
                    },
                    Err(_) => {},
                }
            },
            Err(_) => {},
        }
    }
}

} // verus!
