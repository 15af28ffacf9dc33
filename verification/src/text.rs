//! Length-prefixed text in a narrow (1 byte per unit) or wide (2 bytes per
//! unit, little-endian) encoding. The 4-byte prefix is a signed count of
//! units including a trailing terminator unit: positive for narrow, negative
//! for wide, and zero for the empty narrow text, which carries no terminator.

use vstd::prelude::*;
use vstd::bytes::{spec_u16_from_le_bytes, spec_u32_from_le_bytes};
use crate::cursor::{le16, le32, ByteCursor, write_bytes, write_u16_le, write_u32_le, write_u8};
use crate::error::CodecError;

verus! {

/// A decoded text value; which of the two encodings it came from (and will be
/// written back in) is part of the value, so that round-trips are exact.
#[derive(Debug, PartialEq, Eq)]
pub enum TextValue {
    /// One byte per unit.
    Narrow(Vec<u8>),
    /// Two bytes per unit, little-endian.
    Wide(Vec<u16>),
}

/// The mathematical model of a text value: its units, without the terminator.
pub enum TextView {
    Narrow(Seq<u8>),
    Wide(Seq<u16>),
}

impl View for TextValue {
    type V = TextView;

    open spec fn view(&self) -> TextView {
        match self {
            TextValue::Narrow(u) => TextView::Narrow(u@),
            TextValue::Wide(u) => TextView::Wide(u@),
        }
    }
}

/// Whether the unit count, terminator included, fits the signed 4-byte prefix.
pub open spec fn text_small(t: TextView) -> bool {
    match t {
        TextView::Narrow(u) => u.len() + 1 <= 0x7fffffff,
        TextView::Wide(u) => u.len() + 1 <= 0x7fffffff,
    }
}

/// The little-endian bytes of a run of wide units.
pub open spec fn wide_bytes(us: Seq<u16>) -> Seq<u8>
    decreases us.len(),
{
    if us.len() == 0 {
        Seq::empty()
    } else {
        le16(us[0]) + wide_bytes(us.subrange(1, us.len() as int))
    }
}

/// The two's-complement bits of the negated unit count, for the wide prefix.
pub open spec fn neg32(n: int) -> u32 {
    (0x1_0000_0000 - n) as u32
}

/// The exact bytes of a text value: prefix, units, terminator.
pub open spec fn text_enc(t: TextView) -> Seq<u8> {
    match t {
        TextView::Narrow(u) => if u.len() == 0 {
            le32(0)
        } else {
            le32((u.len() + 1) as u32) + u + seq![0u8]
        },
        TextView::Wide(u) => le32(neg32(u.len() + 1 as int)) + wide_bytes(u) + le16(0),
    }
}

/// What decoding a text at `pos` of `s` yields: the value and the position
/// after it, or the error. A missing or nonzero terminator unit, or a unit
/// count that could not itself be written back into the signed prefix, fails
/// with `TextEncodingError`; a body running past the buffer fails
/// `UnexpectedEof`.
pub open spec fn text_sdec(s: Seq<u8>, pos: int) -> Result<(TextView, int), CodecError> {
    if pos + 4 > s.len() {
        Err(CodecError::UnexpectedEof)
    } else {
        let x = spec_u32_from_le_bytes(s.subrange(pos, pos + 4));
        if x == 0 {
            Ok((TextView::Narrow(Seq::empty()), pos + 4))
        } else if x <= 0x7fffffff {
            let n = x as int;
            if pos + 4 + n > s.len() {
                Err(CodecError::UnexpectedEof)
            } else if s[pos + 4 + n - 1] != 0 {
                Err(CodecError::TextEncodingError)
            } else {
                Ok((TextView::Narrow(s.subrange(pos + 4, pos + 4 + n - 1)), pos + 4 + n))
            }
        } else {
            let m = 0x1_0000_0000 - x as int;
            if m > 0x7fffffff {
                Err(CodecError::TextEncodingError)
            } else if pos + 4 + 2 * m > s.len() {
                Err(CodecError::UnexpectedEof)
            } else if spec_u16_from_le_bytes(
                s.subrange(pos + 4 + 2 * (m - 1), pos + 4 + 2 * m),
            ) != 0 {
                Err(CodecError::TextEncodingError)
            } else {
                Ok((TextView::Wide(wide_units(s, pos + 4, m - 1)), pos + 4 + 2 * m))
            }
        }
    }
}

/// The first `k` wide units read from `s` starting at `start`.
pub open spec fn wide_units(s: Seq<u8>, start: int, k: int) -> Seq<u16> {
    Seq::new(k as nat, |i: int| spec_u16_from_le_bytes(s.subrange(start + 2 * i, start + 2 * i + 2)))
}

pub proof fn lemma_wide_bytes_len(us: Seq<u16>)
    ensures
        wide_bytes(us).len() == 2 * us.len(),
    decreases us.len(),
{
    crate::cursor::lemma_le_bytes_auto();
    if us.len() > 0 {
        lemma_wide_bytes_len(us.subrange(1, us.len() as int));
    }
}

pub proof fn lemma_wide_bytes_push(us: Seq<u16>, u: u16)
    ensures
        wide_bytes(us.push(u)) == wide_bytes(us) + le16(u),
    decreases us.len(),
{
    crate::cursor::lemma_le_bytes_auto();
    if us.len() == 0 {
        assert(us.push(u)[0] == u);
        assert(us.push(u).subrange(1, 1) =~= Seq::<u16>::empty());
        assert(wide_bytes(us.push(u).subrange(1, 1)) == Seq::<u8>::empty());
        assert(wide_bytes(us.push(u)) =~= le16(u));
        assert(wide_bytes(us) + le16(u) =~= le16(u));
    } else {
        assert(us.push(u).subrange(1, us.len() + 1 as int) =~= us.subrange(1, us.len() as int).push(u));
        lemma_wide_bytes_push(us.subrange(1, us.len() as int), u);
        assert(wide_bytes(us.push(u)) =~= wide_bytes(us) + le16(u));
    }
}

/// Each unit sits at its own 2-byte offset inside the encoded run.
pub proof fn lemma_wide_bytes_unit(us: Seq<u16>, i: int)
    requires
        0 <= i < us.len(),
    ensures
        wide_bytes(us).subrange(2 * i, 2 * i + 2) == le16(us[i]),
    decreases i,
{
    crate::cursor::lemma_le_bytes_auto();
    lemma_wide_bytes_len(us.subrange(1, us.len() as int));
    if i == 0 {
        assert(wide_bytes(us).subrange(0, 2) =~= le16(us[0]));
    } else {
        lemma_wide_bytes_unit(us.subrange(1, us.len() as int), i - 1);
        assert(wide_bytes(us).subrange(2 * i, 2 * i + 2) =~= wide_bytes(
            us.subrange(1, us.len() as int),
        ).subrange(2 * (i - 1), 2 * (i - 1) + 2));
    }
}

/// Decodes one text field at the cursor, exactly as [`text_sdec`] says.
pub fn decode_text(cur: &mut ByteCursor) -> (r: Result<TextValue, CodecError>)
    requires
        old(cur).wf(),
    ensures
        final(cur).wf(),
        final(cur).bytes() == old(cur).bytes(),
        match r {
            Ok(t) => text_sdec(old(cur).bytes(), old(cur).position()) == Ok::<
                (TextView, int),
                CodecError,
            >((t@, final(cur).position() as int)),
            Err(e) => text_sdec(old(cur).bytes(), old(cur).position()) == Err::<
                (TextView, int),
                CodecError,
            >(e),
        },
{
    let ghost s = old(cur).bytes();
    let ghost pos0 = old(cur).position();
    proof {
        crate::cursor::lemma_le_bytes_auto();
    }
    let x = cur.read_u32_le()?;
    if x == 0 {
        let empty: Vec<u8> = Vec::new();
        assert(empty@ =~= Seq::<u8>::empty());
        return Ok(TextValue::Narrow(empty));
    }
    if x <= 0x7fffffff {
        let n = x as usize;
        let mut b = cur.read_fixed(n)?;
        if b[n - 1] != 0 {
            return Err(CodecError::TextEncodingError);
        }
        b.truncate(n - 1);
        assert(b@ =~= s.subrange(pos0 + 4, pos0 + 4 + n - 1));
        Ok(TextValue::Narrow(b))
    } else {
        let m64: u64 = 0x1_0000_0000u64 - x as u64;
        if m64 > 0x7fffffff {
            return Err(CodecError::TextEncodingError);
        }
        let m = m64 as usize;
        let mut us: Vec<u16> = Vec::new();
        let mut i: usize = 0;
        while i < m - 1
            invariant
                s == old(cur).bytes(),
                pos0 == old(cur).position(),
                0 <= pos0,
                pos0 + 4 <= s.len(),
                spec_u32_from_le_bytes(s.subrange(pos0, pos0 + 4)) == x,
                x > 0x7fffffff,
                m as int == 0x1_0000_0000 - x as int,
                1 <= m <= 0x7fffffff,
                0 <= i <= m - 1,
                cur.wf(),
                cur.bytes() == s,
                cur.position() == pos0 + 4 + 2 * i,
                us@.len() == i,
                forall|k: int|
                    0 <= k < i ==> us@[k] == spec_u16_from_le_bytes(
                        s.subrange(pos0 + 4 + 2 * k, pos0 + 4 + 2 * k + 2),
                    ),
            decreases m - i,
        {
            let u = cur.read_u16_le()?;
            proof {
                crate::cursor::lemma_le_bytes_auto();
            }
            us.push(u);
            i = i + 1;
        }
        let term = cur.read_u16_le()?;
        if term != 0 {
            return Err(CodecError::TextEncodingError);
        }
        assert(us@ =~= wide_units(s, pos0 + 4, m - 1));
        Ok(TextValue::Wide(us))
    }
}

/// Encodes one text field: prefix, units, terminator. Fails, writing nothing,
/// only when the unit count does not fit the signed 4-byte prefix.
pub fn encode_text(t: &TextValue, out: &mut Vec<u8>) -> (r: Result<(), CodecError>)
    ensures
        r is Ok <==> text_small(t@),
        r is Ok ==> final(out)@ == old(out)@ + text_enc(t@),
        r is Err ==> r == Err::<(), CodecError>(CodecError::SequenceTooLarge) && final(out)@ == old(
            out,
        )@,
{
    match t {
        TextValue::Narrow(u) => {
            if u.len() == 0 {
                write_u32_le(out, 0);
                assert(out@ =~= old(out)@ + text_enc(t@));
                Ok(())
            } else if u.len() >= 0x7fffffff {
                Err(CodecError::SequenceTooLarge)
            } else {
                write_u32_le(out, (u.len() + 1) as u32);
                write_bytes(out, u);
                write_u8(out, 0);
                assert(out@ =~= old(out)@ + text_enc(t@));
                Ok(())
            }
        },
        TextValue::Wide(u) => {
            if u.len() >= 0x7fffffff {
                Err(CodecError::SequenceTooLarge)
            } else {
                let ghost base = out@;
                let n64: u64 = u.len() as u64 + 1;
                write_u32_le(out, (0x1_0000_0000u64 - n64) as u32);
                let mut i: usize = 0;
                while i < u.len()
                    invariant
                        0 <= i <= u@.len(),
                        u@.len() < 0x7fffffff,
                        out@ == base + le32(neg32(u@.len() + 1 as int)) + wide_bytes(u@.subrange(0, i as int)),
                    decreases u@.len() - i,
                {
                    write_u16_le(out, u[i]);
                    proof {
                        lemma_wide_bytes_push(u@.subrange(0, i as int), u@[i as int]);
                        assert(u@.subrange(0, i + 1) =~= u@.subrange(0, i as int).push(u@[i as int]));
                        assert(out@ =~= base + le32(neg32(u@.len() + 1 as int)) + wide_bytes(
                            u@.subrange(0, i + 1),
                        ));
                    }
                    i = i + 1;
                }
                write_u16_le(out, 0);
                proof {
                    assert(u@.subrange(0, u@.len() as int) =~= u@);
                    assert(out@ =~= old(out)@ + text_enc(t@));
                }
                Ok(())
            }
        },
    }
}

/// A well-framed encoding decodes back to the same value: the completeness
/// half of the text round trip.
pub proof fn lemma_text_sdec_of_enc(t: TextView, s: Seq<u8>, pos: int)
    requires
        text_small(t),
        0 <= pos,
        pos + text_enc(t).len() <= s.len(),
        s.subrange(pos, pos + text_enc(t).len()) == text_enc(t),
    ensures
        text_sdec(s, pos) == Ok::<(TextView, int), CodecError>((t, pos + text_enc(t).len())),
{
    crate::cursor::lemma_le_bytes_auto();
    let e = text_enc(t);
    assert forall|k: int| pos <= k < pos + e.len() implies s[k] == e[k - pos] by {
        assert(s.subrange(pos, pos + e.len() as int)[k - pos] == e[k - pos]);
    }
    assert(s.subrange(pos, pos + 4) =~= e.subrange(0, 4));
    match t {
        TextView::Narrow(u) => {
            if u.len() == 0 {
                assert(e.subrange(0, 4) =~= le32(0));
                assert(u =~= Seq::<u8>::empty());
            } else {
                let n = u.len() + 1;
                assert(e.subrange(0, 4) =~= le32(n as u32));
                let x = spec_u32_from_le_bytes(s.subrange(pos, pos + 4));
                assert(x == n as u32);
                assert(s[pos + 4 + n - 1] == e[4 + u.len() as int]);
                assert(e[4 + u.len() as int] == 0);
                assert(s.subrange(pos + 4, pos + 4 + n - 1) =~= u);
            }
        },
        TextView::Wide(u) => {
            let n = u.len() + 1;
            lemma_wide_bytes_len(u);
            assert(e.subrange(0, 4) =~= le32(neg32(n as int)));
            let x = spec_u32_from_le_bytes(s.subrange(pos, pos + 4));
            assert(x == neg32(n as int));
            assert(x > 0x7fffffff);
            let m = 0x1_0000_0000 - x as int;
            assert(m == n);
            assert(s.subrange(pos + 4 + 2 * (m - 1), pos + 4 + 2 * m) =~= e.subrange(
                4 + 2 * u.len() as int,
                4 + 2 * u.len() + 2 as int,
            ));
            assert(e.subrange(4 + 2 * u.len() as int, 4 + 2 * u.len() + 2 as int) =~= le16(0));
            assert(spec_u16_from_le_bytes(le16(0)) == 0);
            assert forall|i: int| 0 <= i < m - 1 implies wide_units(s, pos + 4, m - 1)[i] == u[i] by {
                lemma_wide_bytes_unit(u, i);
                assert(s.subrange(pos + 4 + 2 * i, pos + 4 + 2 * i + 2) =~= wide_bytes(u).subrange(
                    2 * i,
                    2 * i + 2,
                ));
            }
            assert(wide_units(s, pos + 4, m - 1) =~= u);
        },
    }
}

/// Whatever text decodes from a buffer fits the prefix again: decoded values
/// can always be re-encoded.
pub proof fn lemma_text_sdec_sound(s: Seq<u8>, pos: int)
    requires
        0 <= pos <= s.len(),
    ensures
        text_sdec(s, pos) matches Ok(t) ==> text_small(t.0) && pos < t.1 <= s.len(),
{
}

} // verus!
