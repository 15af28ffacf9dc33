//! The executable codec engine: one generic encoder and one generic decoder,
//! each proved to behave exactly as the spec functions [`enc`] and [`sdec`]
//! say, for every schema and every buffer.

use vstd::prelude::*;
use crate::codec::{
    enc, enc_list, enc_record, find_tag, fits, lemma_find_tag, lemma_min_size_bounds,
    lemma_min_size_cases_bounds, lemma_min_size_fields_bounds, lemma_views_of,
    lemma_views_of_push, min_size, min_size_cases, min_size_fields, sdec, sdec_list, sdec_record,
    small, val_view, views_of, Codec, Field, Value, ValueView, VariantCase,
};
use crate::cursor::{le32, lemma_le_bytes_auto, ByteCursor, write_bytes, write_i32_le, write_u32_le, write_u8};
use crate::error::CodecError;
use crate::text::{decode_text, encode_text};

verus! {

/// A partial run of decoded values, prefixed to whatever the rest yields.
pub open spec fn prepend_list(
    pre: Seq<ValueView>,
    r: Result<(Seq<ValueView>, int), CodecError>,
) -> Result<(Seq<ValueView>, int), CodecError> {
    match r {
        Ok((vs, p)) => Ok((pre + vs, p)),
        Err(e) => Err(e),
    }
}

proof fn lemma_prepend_empty(r: Result<(Seq<ValueView>, int), CodecError>)
    ensures
        prepend_list(Seq::empty(), r) == r,
{
    match r {
        Ok((vs, p)) => {
            assert(Seq::empty() + vs =~= vs);
        },
        Err(_) => {},
    }
}

proof fn lemma_prepend_assoc(
    a: Seq<ValueView>,
    b: Seq<ValueView>,
    r: Result<(Seq<ValueView>, int), CodecError>,
)
    ensures
        prepend_list(a, prepend_list(b, r)) == prepend_list(a + b, r),
{
    match r {
        Ok((vs, p)) => {
            assert(a + (b + vs) =~= (a + b) + vs);
        },
        Err(_) => {},
    }
}

/// Appending one more element to an encoded prefix of a list.
pub proof fn lemma_enc_list_snoc(e: Codec, vs: Seq<ValueView>, i: int)
    requires
        0 <= i < vs.len(),
    ensures
        enc_list(e, vs.subrange(0, i + 1)) == enc_list(e, vs.subrange(0, i)) + enc(e, vs[i]),
    decreases i,
{
    if i == 0 {
        assert(vs.subrange(0, 1)[0] == vs[0]);
        assert(vs.subrange(0, 1).subrange(1, 1) =~= Seq::<ValueView>::empty());
        assert(enc_list(e, vs.subrange(0, 1).subrange(1, 1)) == Seq::<u8>::empty());
        assert(vs.subrange(0, 0) =~= Seq::<ValueView>::empty());
        assert(enc_list(e, vs.subrange(0, 0)) == Seq::<u8>::empty());
        assert(enc_list(e, vs.subrange(0, 1)) =~= enc_list(e, vs.subrange(0, 0)) + enc(e, vs[0]));
    } else {
        let t = vs.subrange(1, vs.len() as int);
        lemma_enc_list_snoc(e, t, i - 1);
        assert(vs.subrange(0, i + 1)[0] == vs[0]);
        assert(vs.subrange(0, i)[0] == vs[0]);
        assert(vs.subrange(0, i + 1).subrange(1, i + 1) =~= t.subrange(0, i));
        assert(vs.subrange(0, i).subrange(1, i) =~= t.subrange(0, i - 1));
        assert(t[i - 1] == vs[i]);
        assert(enc_list(e, vs.subrange(0, i + 1)) =~= enc_list(e, vs.subrange(0, i)) + enc(
            e,
            vs[i],
        ));
    }
}

/// Appending one more field to an encoded prefix of a record.
pub proof fn lemma_enc_record_snoc(fs: Seq<Field>, vs: Seq<ValueView>, i: int)
    requires
        0 <= i < vs.len(),
        vs.len() <= fs.len(),
    ensures
        enc_record(fs.subrange(0, i + 1), vs.subrange(0, i + 1)) == enc_record(
            fs.subrange(0, i),
            vs.subrange(0, i),
        ) + enc(fs[i].codec, vs[i]),
    decreases i,
{
    if i == 0 {
        assert(vs.subrange(0, 1)[0] == vs[0]);
        assert(fs.subrange(0, 1)[0] == fs[0]);
        assert(vs.subrange(0, 1).subrange(1, 1) =~= Seq::<ValueView>::empty());
        assert(enc_record(fs.subrange(0, 1).subrange(1, 1), vs.subrange(0, 1).subrange(1, 1))
            == Seq::<u8>::empty());
        assert(vs.subrange(0, 0) =~= Seq::<ValueView>::empty());
        assert(enc_record(fs.subrange(0, 0), vs.subrange(0, 0)) == Seq::<u8>::empty());
        assert(enc_record(fs.subrange(0, 1), vs.subrange(0, 1)) =~= enc_record(
            fs.subrange(0, 0),
            vs.subrange(0, 0),
        ) + enc(fs[0].codec, vs[0]));
    } else {
        let ft = fs.subrange(1, fs.len() as int);
        let vt = vs.subrange(1, vs.len() as int);
        lemma_enc_record_snoc(ft, vt, i - 1);
        assert(vs.subrange(0, i + 1)[0] == vs[0]);
        assert(fs.subrange(0, i + 1)[0] == fs[0]);
        assert(vs.subrange(0, i + 1).subrange(1, i + 1) =~= vt.subrange(0, i));
        assert(fs.subrange(0, i + 1).subrange(1, i + 1) =~= ft.subrange(0, i));
        assert(vs.subrange(0, i).subrange(1, i) =~= vt.subrange(0, i - 1));
        assert(fs.subrange(0, i).subrange(1, i) =~= ft.subrange(0, i - 1));
        assert(ft[i - 1] == fs[i]);
        assert(vt[i - 1] == vs[i]);
        assert(enc_record(fs.subrange(0, i + 1), vs.subrange(0, i + 1)) =~= enc_record(
            fs.subrange(0, i),
            vs.subrange(0, i),
        ) + enc(fs[i].codec, vs[i]));
    }
}

/// The index of the first case with this discriminant, exactly [`find_tag`].
fn find_case(cs: &Vec<VariantCase>, tag: u32) -> (r: Option<usize>)
    ensures
        match r {
            Some(i) => find_tag(cs@, tag) == i && i < cs@.len(),
            None => find_tag(cs@, tag) == -1,
        },
{
    proof {
        lemma_find_tag(cs@, tag);
    }
    let mut idx: usize = 0;
    while idx < cs.len()
        invariant
            0 <= idx <= cs@.len(),
            forall|j: int| 0 <= j < idx ==> cs@[j].tag != tag,
        decreases cs@.len() - idx,
    {
        if cs[idx].tag == tag {
            proof {
                lemma_find_tag(cs@, tag);
                let f = find_tag(cs@, tag);
                if f != idx {
                    if f == -1 {
                        assert(cs@[idx as int].tag != tag);
                    } else if f < idx {
                        assert(cs@[f].tag != tag);
                    } else {
                        assert(cs@[idx as int].tag != tag);
                    }
                }
            }
            return Some(idx);
        }
        idx = idx + 1;
    }
    proof {
        lemma_find_tag(cs@, tag);
        let f = find_tag(cs@, tag);
        if f >= 0 {
            assert(cs@[f].tag != tag);
        }
    }
    None
}

/// The capped byte lower bound of one schema, exactly [`min_size`].
pub fn min_size_exec(c: &Codec) -> (r: u64)
    ensures
        r as int == min_size(*c),
        0 <= r <= 0x1_0000_0000,
    decreases c, 0nat,
{
    proof {
        lemma_min_size_bounds(*c);
    }
    match c {
        Codec::I32 => 4,
        Codec::U32 => 4,
        Codec::Byte => 1,
        Codec::Bool => 1,
        Codec::Float => 4,
        Codec::Text => 4,
        Codec::Padding(n) => if (*n as u64) >= 0x1_0000_0000u64 {
            0x1_0000_0000u64
        } else {
            *n as u64
        },
        Codec::List(_) => 4,
        Codec::Record(fs) => min_fields_exec(fs),
        Codec::Variant(cs) => {
            if cs.len() == 0 {
                4
            } else {
                let acc = min_cases_exec(cs);
                if acc >= 0x1_0000_0000u64 - 4 {
                    0x1_0000_0000u64
                } else {
                    4 + acc
                }
            }
        },
    }
}

/// The least capped payload bound over a variant's cases, exactly
/// [`min_size_cases`].
fn min_cases_exec(cs: &Vec<VariantCase>) -> (r: u64)
    requires
        cs@.len() > 0,
    ensures
        r as int == min_size_cases(cs@),
        0 <= r <= 0x1_0000_0000,
    decreases cs, 2nat,
{
    proof {
        lemma_min_size_cases_bounds(cs@);
    }
    let ghost cv = cs@;
    let mut i: usize = cs.len() - 1;
    proof {
        assert(cv.subrange(i as int, cv.len() as int).len() == 1);
        assert(cv.subrange(i as int, cv.len() as int)[0] == cv[i as int]);
    }
    let mut acc: u64 = min_fields_exec(&cs[i].payload);
    proof {
        lemma_min_size_cases_bounds(cv.subrange(i as int, cv.len() as int));
    }
    while i > 0
        invariant
            cv == cs@,
            0 <= i < cv.len(),
            acc as int == min_size_cases(cv.subrange(i as int, cv.len() as int)),
            0 <= acc <= 0x1_0000_0000,
        decreases i,
    {
        i = i - 1;
        let h = min_fields_exec(&cs[i].payload);
        proof {
            let sub = cv.subrange(i as int, cv.len() as int);
            assert(sub.len() >= 2);
            assert(sub[0] == cv[i as int]);
            assert(sub.subrange(1, sub.len() as int) =~= cv.subrange(i + 1, cv.len() as int));
        }
        if h <= acc {
            acc = h;
        }
    }
    proof {
        assert(cv.subrange(0, cv.len() as int) =~= cv);
    }
    acc
}

/// The capped byte lower bound of a run of fields, exactly [`min_size_fields`].
fn min_fields_exec(fs: &Vec<Field>) -> (r: u64)
    ensures
        r as int == min_size_fields(fs@),
        0 <= r <= 0x1_0000_0000,
    decreases fs, 1nat,
{
    proof {
        lemma_min_size_fields_bounds(fs@);
    }
    let ghost fv = fs@;
    let mut acc: u64 = 0;
    let mut i: usize = fs.len();
    proof {
        assert(fv.subrange(i as int, fv.len() as int) =~= Seq::<Field>::empty());
        assert(min_size_fields(fv.subrange(i as int, fv.len() as int)) == 0);
    }
    while i > 0
        invariant
            fv == fs@,
            0 <= i <= fv.len(),
            acc as int == min_size_fields(fv.subrange(i as int, fv.len() as int)),
            0 <= acc <= 0x1_0000_0000,
        decreases i,
    {
        i = i - 1;
        let h = min_size_exec(&fs[i].codec);
        proof {
            let sub = fv.subrange(i as int, fv.len() as int);
            assert(sub.len() >= 1);
            assert(sub[0] == fv[i as int]);
            assert(sub.subrange(1, sub.len() as int) =~= fv.subrange(i + 1, fv.len() as int));
        }
        if h + acc >= 0x1_0000_0000u64 {
            acc = 0x1_0000_0000u64;
        } else {
            acc = h + acc;
        }
    }
    proof {
        assert(fv.subrange(0, fv.len() as int) =~= fv);
    }
    acc
}

/// Encodes a value against its schema, appending exactly [`enc`]`(c, v@)`,
/// or fails with `SequenceTooLarge` precisely when some count in the value
/// does not fit its 4-byte length prefix.
pub fn encode_value(c: &Codec, v: &Value, out: &mut Vec<u8>) -> (r: Result<(), CodecError>)
    requires
        fits(*c, v@),
    ensures
        r is Ok <==> small(*c, v@),
        r is Ok ==> final(out)@ == old(out)@ + enc(*c, v@),
        r is Err ==> r == Err::<(), CodecError>(CodecError::SequenceTooLarge),
    decreases c, 0nat,
{
    match c {
        Codec::I32 => match v {
            Value::I32(x) => {
                write_i32_le(out, *x);
                Ok(())
            },
            _ => {
                proof {
                    assert(false);
                }
                Err(CodecError::SequenceTooLarge)
            },
        },
        Codec::U32 => match v {
            Value::U32(x) => {
                write_u32_le(out, *x);
                Ok(())
            },
            _ => {
                proof {
                    assert(false);
                }
                Err(CodecError::SequenceTooLarge)
            },
        },
        Codec::Byte => match v {
            Value::Byte(b) => {
                write_u8(out, *b);
                assert(out@ =~= old(out)@ + enc(*c, v@));
                Ok(())
            },
            _ => {
                proof {
                    assert(false);
                }
                Err(CodecError::SequenceTooLarge)
            },
        },
        Codec::Bool => match v {
            Value::Bool(b) => {
                write_u8(out, if *b { 1 } else { 0 });
                assert(out@ =~= old(out)@ + enc(*c, v@));
                Ok(())
            },
            _ => {
                proof {
                    assert(false);
                }
                Err(CodecError::SequenceTooLarge)
            },
        },
        Codec::Float => match v {
            Value::Float(bits) => {
                write_u32_le(out, *bits);
                Ok(())
            },
            _ => {
                proof {
                    assert(false);
                }
                Err(CodecError::SequenceTooLarge)
            },
        },
        Codec::Text => match v {
            Value::Text(t) => {
                encode_text(t, out)?;
                Ok(())
            },
            _ => {
                proof {
                    assert(false);
                }
                Err(CodecError::SequenceTooLarge)
            },
        },
        Codec::Padding(_) => match v {
            Value::Padding(b) => {
                write_bytes(out, b);
                Ok(())
            },
            _ => {
                proof {
                    assert(false);
                }
                Err(CodecError::SequenceTooLarge)
            },
        },
        Codec::List(e) => match v {
            Value::List(vs) => {
                proof {
                    lemma_views_of(vs@);
                    assert(v@ == ValueView::List(views_of(vs@)));
                    assert forall|k: int| 0 <= k < vs@.len() implies fits(
                        **e,
                        #[trigger] val_view(vs@[k]),
                    ) by {
                        assert(views_of(vs@)[k] == val_view(vs@[k]));
                        assert(fits(**e, (v@->List_0)[k]));
                    }
                }
                if vs.len() > 0xffffffffusize {
                    proof {
                        assert(!small(*c, v@));
                    }
                    return Err(CodecError::SequenceTooLarge);
                }
                write_u32_le(out, vs.len() as u32);
                let rr = encode_run(e, vs, out);
                match rr {
                    Ok(_) => {
                        proof {
                            assert forall|k: int| 0 <= k < views_of(vs@).len() implies small(
                                **e,
                                #[trigger] views_of(vs@)[k],
                            ) by {
                                assert(views_of(vs@)[k] == val_view(vs@[k]));
                            }
                            assert(small(*c, v@));
                            assert(out@ =~= old(out)@ + enc(*c, v@));
                        }
                        Ok(())
                    },
                    Err(err) => {
                        proof {
                            if small(*c, v@) {
                                assert forall|k: int| 0 <= k < vs@.len() implies small(
                                    **e,
                                    #[trigger] val_view(vs@[k]),
                                ) by {
                                    assert(views_of(vs@)[k] == val_view(vs@[k]));
                                }
                                assert(false);
                            }
                        }
                        Err(err)
                    },
                }
            },
            _ => {
                proof {
                    assert(false);
                }
                Err(CodecError::SequenceTooLarge)
            },
        },
        Codec::Record(fs) => match v {
            Value::Record(vs) => {
                proof {
                    lemma_views_of(vs@);
                    assert(v@ == ValueView::Record(views_of(vs@)));
                    assert forall|k: int| 0 <= k < vs@.len() implies fits(
                        fs@[k].codec,
                        #[trigger] val_view(vs@[k]),
                    ) by {
                        assert(views_of(vs@)[k] == val_view(vs@[k]));
                    }
                }
                let rr = encode_fields(fs, vs, out);
                match rr {
                    Ok(_) => {
                        proof {
                            assert forall|k: int| 0 <= k < views_of(vs@).len() implies small(
                                fs@[k].codec,
                                #[trigger] views_of(vs@)[k],
                            ) by {
                                assert(views_of(vs@)[k] == val_view(vs@[k]));
                            }
                            assert(small(*c, v@));
                        }
                        Ok(())
                    },
                    Err(err) => {
                        proof {
                            if small(*c, v@) {
                                assert forall|k: int| 0 <= k < vs@.len() implies small(
                                    fs@[k].codec,
                                    #[trigger] val_view(vs@[k]),
                                ) by {
                                    assert(views_of(vs@)[k] == val_view(vs@[k]));
                                }
                                assert(false);
                            }
                        }
                        Err(err)
                    },
                }
            },
            _ => {
                proof {
                    assert(false);
                }
                Err(CodecError::SequenceTooLarge)
            },
        },
        Codec::Variant(cs) => match v {
            Value::Variant(i, vs) => {
                let ghost pay = cs@[*i as int].payload@;
                proof {
                    lemma_views_of(vs@);
                    assert(v@ == ValueView::Variant(*i as int, views_of(vs@)));
                    assert forall|k: int| 0 <= k < vs@.len() implies fits(
                        pay[k].codec,
                        #[trigger] val_view(vs@[k]),
                    ) by {
                        assert(views_of(vs@)[k] == val_view(vs@[k]));
                    }
                }
                write_u32_le(out, cs[*i].tag);
                let rr = encode_fields(&cs[*i].payload, vs, out);
                match rr {
                    Ok(_) => {
                        proof {
                            assert forall|k: int| 0 <= k < views_of(vs@).len() implies small(
                                pay[k].codec,
                                #[trigger] views_of(vs@)[k],
                            ) by {
                                assert(views_of(vs@)[k] == val_view(vs@[k]));
                            }
                            assert(small(*c, v@));
                            assert(out@ =~= old(out)@ + enc(*c, v@));
                        }
                        Ok(())
                    },
                    Err(err) => {
                        proof {
                            if small(*c, v@) {
                                assert forall|k: int| 0 <= k < vs@.len() implies small(
                                    pay[k].codec,
                                    #[trigger] val_view(vs@[k]),
                                ) by {
                                    assert(views_of(vs@)[k] == val_view(vs@[k]));
                                }
                                assert(false);
                            }
                        }
                        Err(err)
                    },
                }
            },
            _ => {
                proof {
                    assert(false);
                }
                Err(CodecError::SequenceTooLarge)
            },
        },
    }
}

/// Encodes the elements of a list, in order, against one element schema.
fn encode_run(e: &Codec, vs: &Vec<Value>, out: &mut Vec<u8>) -> (r: Result<(), CodecError>)
    requires
        forall|i: int| 0 <= i < vs@.len() ==> fits(*e, #[trigger] val_view(vs@[i])),
    ensures
        r is Ok <==> (forall|i: int| 0 <= i < vs@.len() ==> small(*e, #[trigger] val_view(vs@[i]))),
        r is Ok ==> final(out)@ == old(out)@ + enc_list(*e, views_of(vs@)),
        r is Err ==> r == Err::<(), CodecError>(CodecError::SequenceTooLarge),
    decreases e, 1nat,
{
    let ghost w = views_of(vs@);
    proof {
        lemma_views_of(vs@);
    }
    let ghost base = out@;
    let mut i: usize = 0;
    proof {
        assert(w.subrange(0, 0) =~= Seq::<ValueView>::empty());
        assert(enc_list(*e, w.subrange(0, 0)) == Seq::<u8>::empty());
        assert(out@ =~= base + enc_list(*e, w.subrange(0, 0)));
    }
    while i < vs.len()
        invariant
            w == views_of(vs@),
            w.len() == vs@.len(),
            forall|k: int| 0 <= k < vs@.len() ==> w[k] == val_view(vs@[k]),
            forall|k: int| 0 <= k < vs@.len() ==> fits(*e, #[trigger] val_view(vs@[k])),
            0 <= i <= vs@.len(),
            forall|k: int| 0 <= k < i ==> small(*e, #[trigger] val_view(vs@[k])),
            base == old(out)@,
            out@ == base + enc_list(*e, w.subrange(0, i as int)),
        decreases vs@.len() - i,
    {
        let rr = encode_value(e, &vs[i], out);
        if rr.is_err() {
            return Err(CodecError::SequenceTooLarge);
        }
        proof {
            lemma_enc_list_snoc(*e, w, i as int);
            assert(out@ =~= base + enc_list(*e, w.subrange(0, i + 1)));
        }
        i = i + 1;
    }
    proof {
        assert(w.subrange(0, w.len() as int) =~= w);
    }
    Ok(())
}

/// Encodes the fields of a record or a variant payload, in schema order.
fn encode_fields(fs: &Vec<Field>, vs: &Vec<Value>, out: &mut Vec<u8>) -> (r: Result<
    (),
    CodecError,
>)
    requires
        vs@.len() == fs@.len(),
        forall|i: int| 0 <= i < vs@.len() ==> fits(fs@[i].codec, #[trigger] val_view(vs@[i])),
    ensures
        r is Ok <==> (forall|i: int|
            0 <= i < vs@.len() ==> small(fs@[i].codec, #[trigger] val_view(vs@[i]))),
        r is Ok ==> final(out)@ == old(out)@ + enc_record(fs@, views_of(vs@)),
        r is Err ==> r == Err::<(), CodecError>(CodecError::SequenceTooLarge),
    decreases fs, 1nat,
{
    let ghost w = views_of(vs@);
    proof {
        lemma_views_of(vs@);
    }
    let ghost base = out@;
    let mut i: usize = 0;
    proof {
        assert(w.subrange(0, 0) =~= Seq::<ValueView>::empty());
        assert(fs@.subrange(0, 0) =~= Seq::<Field>::empty());
        assert(enc_record(fs@.subrange(0, 0), w.subrange(0, 0)) == Seq::<u8>::empty());
        assert(out@ =~= base + enc_record(fs@.subrange(0, 0), w.subrange(0, 0)));
    }
    while i < vs.len()
        invariant
            w == views_of(vs@),
            w.len() == vs@.len(),
            vs@.len() == fs@.len(),
            forall|k: int| 0 <= k < vs@.len() ==> w[k] == val_view(vs@[k]),
            forall|k: int| 0 <= k < vs@.len() ==> fits(fs@[k].codec, #[trigger] val_view(vs@[k])),
            0 <= i <= vs@.len(),
            forall|k: int| 0 <= k < i ==> small(fs@[k].codec, #[trigger] val_view(vs@[k])),
            base == old(out)@,
            out@ == base + enc_record(fs@.subrange(0, i as int), w.subrange(0, i as int)),
        decreases vs@.len() - i,
    {
        let rr = encode_value(&fs[i].codec, &vs[i], out);
        if rr.is_err() {
            return Err(CodecError::SequenceTooLarge);
        }
        proof {
            lemma_enc_record_snoc(fs@, w, i as int);
            assert(out@ =~= base + enc_record(fs@.subrange(0, i + 1), w.subrange(0, i + 1)));
        }
        i = i + 1;
    }
    proof {
        assert(w.subrange(0, w.len() as int) =~= w);
        assert(fs@.subrange(0, fs@.len() as int) =~= fs@);
    }
    Ok(())
}

/// Decodes one value of schema `c` at the cursor, exactly as [`sdec`] says:
/// the same value on success, the same error on failure.
pub fn decode_value(c: &Codec, cur: &mut ByteCursor) -> (r: Result<Value, CodecError>)
    requires
        old(cur).wf(),
    ensures
        final(cur).wf(),
        final(cur).bytes() == old(cur).bytes(),
        match r {
            Ok(v) => sdec(*c, old(cur).bytes(), old(cur).position()) == Ok::<
                (ValueView, int),
                CodecError,
            >((v@, final(cur).position() as int)),
            Err(e) => sdec(*c, old(cur).bytes(), old(cur).position()) == Err::<
                (ValueView, int),
                CodecError,
            >(e),
        },
    decreases c, 0nat,
{
    let ghost s = old(cur).bytes();
    let ghost pos0 = old(cur).position();
    proof {
        lemma_le_bytes_auto();
    }
    match c {
        Codec::I32 => {
            let x = cur.read_u32_le()?;
            Ok(Value::I32(x as i32))
        },
        Codec::U32 => {
            let x = cur.read_u32_le()?;
            Ok(Value::U32(x))
        },
        Codec::Byte => {
            let b = cur.read_u8()?;
            Ok(Value::Byte(b))
        },
        Codec::Bool => {
            let b = cur.read_u8()?;
            Ok(Value::Bool(b != 0))
        },
        Codec::Float => {
            let x = cur.read_u32_le()?;
            Ok(Value::Float(x))
        },
        Codec::Text => {
            let t = decode_text(cur)?;
            Ok(Value::Text(t))
        },
        Codec::Padding(n) => {
            let b = cur.read_fixed(*n)?;
            Ok(Value::Padding(b))
        },
        Codec::List(e) => {
            let nraw = cur.read_u32_le()?;
            let ms = min_size_exec(e);
            let rem = cur.remaining();
            proof {
                assert((nraw as int) * (ms as int) <= 0xffffffff * 0x1_0000_0000) by (nonlinear_arith)
                    requires
                        0 <= nraw <= 0xffffffff,
                        0 <= ms <= 0x1_0000_0000,
                ;
            }
            if (nraw as u64) * ms > rem as u64 {
                return Err(CodecError::TruncatedSequence);
            }
            let vals = decode_run(e, nraw as usize, cur)?;
            Ok(Value::List(vals))
        },
        Codec::Record(fs) => {
            let vals = decode_fields(fs, cur)?;
            Ok(Value::Record(vals))
        },
        Codec::Variant(cs) => {
            let tag = cur.read_u32_le()?;
            match find_case(cs, tag) {
                None => Err(CodecError::UnknownDiscriminant(tag)),
                Some(i) => {
                    let vals = decode_fields(&cs[i].payload, cur)?;
                    Ok(Value::Variant(i, vals))
                },
            }
        },
    }
}

/// Decodes exactly `n` list elements in a row, exactly as [`sdec_list`] says.
fn decode_run(e: &Codec, n: usize, cur: &mut ByteCursor) -> (r: Result<Vec<Value>, CodecError>)
    requires
        old(cur).wf(),
    ensures
        final(cur).wf(),
        final(cur).bytes() == old(cur).bytes(),
        match r {
            Ok(vals) => sdec_list(*e, n as nat, old(cur).bytes(), old(cur).position()) == Ok::<
                (Seq<ValueView>, int),
                CodecError,
            >((views_of(vals@), final(cur).position() as int)),
            Err(err) => sdec_list(*e, n as nat, old(cur).bytes(), old(cur).position()) == Err::<
                (Seq<ValueView>, int),
                CodecError,
            >(err),
        },
    decreases e, 1nat,
{
    let ghost s = old(cur).bytes();
    let ghost pos0 = old(cur).position();
    let mut vals: Vec<Value> = Vec::new();
    let mut i: usize = 0;
    proof {
        assert(views_of(vals@) =~= Seq::<ValueView>::empty());
        lemma_prepend_empty(sdec_list(*e, n as nat, s, pos0));
    }
    while i < n
        invariant
            s == old(cur).bytes(),
            pos0 == old(cur).position(),
            0 <= i <= n,
            cur.wf(),
            cur.bytes() == s,
            sdec_list(*e, n as nat, s, pos0) == prepend_list(
                views_of(vals@),
                sdec_list(*e, (n - i) as nat, s, cur.position()),
            ),
        decreases n - i,
    {
        let ghost pre = views_of(vals@);
        let ghost pi = cur.position();
        let rr = decode_value(e, cur);
        match rr {
            Ok(v) => {
                proof {
                    lemma_prepend_assoc(pre, seq![v@], sdec_list(*e, (n - i - 1) as nat, s, cur.position()));
                    lemma_views_of_push(vals@, v);
                    assert(pre + seq![v@] =~= pre.push(val_view(v)));
                }
                vals.push(v);
                i = i + 1;
            },
            Err(err) => {
                return Err(err);
            },
        }
    }
    proof {
        assert(views_of(vals@) + Seq::<ValueView>::empty() =~= views_of(vals@));
    }
    Ok(vals)
}

/// Decodes a run of record fields in schema order, exactly as
/// [`sdec_record`] says.
fn decode_fields(fs: &Vec<Field>, cur: &mut ByteCursor) -> (r: Result<Vec<Value>, CodecError>)
    requires
        old(cur).wf(),
    ensures
        final(cur).wf(),
        final(cur).bytes() == old(cur).bytes(),
        match r {
            Ok(vals) => sdec_record(fs@, old(cur).bytes(), old(cur).position()) == Ok::<
                (Seq<ValueView>, int),
                CodecError,
            >((views_of(vals@), final(cur).position() as int)),
            Err(err) => sdec_record(fs@, old(cur).bytes(), old(cur).position()) == Err::<
                (Seq<ValueView>, int),
                CodecError,
            >(err),
        },
    decreases fs, 1nat,
{
    let ghost s = old(cur).bytes();
    let ghost pos0 = old(cur).position();
    let ghost fv = fs@;
    let mut vals: Vec<Value> = Vec::new();
    let mut i: usize = 0;
    proof {
        assert(views_of(vals@) =~= Seq::<ValueView>::empty());
        assert(fv.subrange(0, fv.len() as int) =~= fv);
        lemma_prepend_empty(sdec_record(fv, s, pos0));
    }
    while i < fs.len()
        invariant
            s == old(cur).bytes(),
            pos0 == old(cur).position(),
            fv == fs@,
            0 <= i <= fv.len(),
            cur.wf(),
            cur.bytes() == s,
            sdec_record(fv, s, pos0) == prepend_list(
                views_of(vals@),
                sdec_record(fv.subrange(i as int, fv.len() as int), s, cur.position()),
            ),
        decreases fv.len() - i,
    {
        let ghost pre = views_of(vals@);
        let ghost sub = fv.subrange(i as int, fv.len() as int);
        proof {
            assert(sub[0] == fv[i as int]);
            assert(sub.subrange(1, sub.len() as int) =~= fv.subrange(i + 1, fv.len() as int));
        }
        let rr = decode_value(&fs[i].codec, cur);
        match rr {
            Ok(v) => {
                proof {
                    lemma_prepend_assoc(
                        pre,
                        seq![v@],
                        sdec_record(fv.subrange(i + 1, fv.len() as int), s, cur.position()),
                    );
                    lemma_views_of_push(vals@, v);
                    assert(pre + seq![v@] =~= pre.push(val_view(v)));
                }
                vals.push(v);
                i = i + 1;
            },
            Err(err) => {
                return Err(err);
            },
        }
    }
    proof {
        assert(fv.subrange(fv.len() as int, fv.len() as int) =~= Seq::<Field>::empty());
        assert(views_of(vals@) + Seq::<ValueView>::empty() =~= views_of(vals@));
    }
    Ok(vals)
}

} // verus!
