//! Forward-only bounded reader over an immutable byte buffer, and the
//! append-only write helpers used on the encode path.

use vstd::prelude::*;
use crate::error::CodecError;

verus! {

/// Little-endian bytes of a 32-bit unsigned value, the format's framing unit.
pub open spec fn le32(x: u32) -> Seq<u8> {
    vstd::bytes::spec_u32_to_le_bytes(x)
}

/// Little-endian bytes of a 16-bit code unit (wide text).
pub open spec fn le16(x: u16) -> Seq<u8> {
    vstd::bytes::spec_u16_to_le_bytes(x)
}

/// Little-endian bytes of a 32-bit signed value (its two's-complement bits).
pub open spec fn le32i(x: i32) -> Seq<u8> {
    le32(x as u32)
}

/// The lengths of the little-endian framings and both round-trip directions,
/// stated with triggers that fire on the framing terms themselves.
pub proof fn lemma_le_bytes_auto()
    ensures
        forall|x: u32| (#[trigger] le32(x)).len() == 4,
        forall|x: u32| vstd::bytes::spec_u32_from_le_bytes(#[trigger] le32(x)) == x,
        forall|s: Seq<u8>|
            s.len() == 4 ==> #[trigger] le32(vstd::bytes::spec_u32_from_le_bytes(s)) == s,
        forall|x: u16| (#[trigger] le16(x)).len() == 2,
        forall|x: u16| vstd::bytes::spec_u16_from_le_bytes(#[trigger] le16(x)) == x,
        forall|s: Seq<u8>|
            s.len() == 2 ==> #[trigger] le16(vstd::bytes::spec_u16_from_le_bytes(s)) == s,
{
    vstd::bytes::lemma_auto_spec_u32_to_from_le_bytes();
    vstd::bytes::lemma_auto_spec_u16_to_from_le_bytes();
    assert forall|x: u32|
        (#[trigger] le32(x)).len() == 4 && vstd::bytes::spec_u32_from_le_bytes(le32(x)) == x by {
        assert(vstd::bytes::spec_u32_to_le_bytes(x).len() == 4);
    }
    assert forall|x: u16|
        (#[trigger] le16(x)).len() == 2 && vstd::bytes::spec_u16_from_le_bytes(le16(x)) == x by {
        assert(vstd::bytes::spec_u16_to_le_bytes(x).len() == 2);
    }
}

/// Forward-only cursor: an immutable input buffer plus a read position that
/// only advances. Decoding is strictly sequential; there is no backtracking.
pub struct ByteCursor {
    data: Vec<u8>,
    pos: usize,
}

impl ByteCursor {
    /// The whole input buffer, which never changes while reading.
    pub closed spec fn bytes(self) -> Seq<u8> {
        self.data@
    }

    /// The current read position.
    pub closed spec fn position(self) -> int {
        self.pos as int
    }

    /// The position never runs past the end of the buffer, whose length is a
    /// machine-representable size.
    pub open spec fn wf(self) -> bool {
        0 <= self.position() <= self.bytes().len() <= usize::MAX
    }

    /// Bytes not yet consumed.
    pub open spec fn remaining_spec(self) -> int {
        self.bytes().len() - self.position()
    }

    pub fn new(data: Vec<u8>) -> (c: ByteCursor)
        ensures
            c.bytes() == data@,
            c.position() == 0,
            c.wf(),
    {
        // the exec length being a usize bounds the view's length for wf
        let ghost n = data.len();
        ByteCursor { data, pos: 0 }
    }

    pub fn position_exec(&self) -> (p: usize)
        ensures
            p == self.position(),
    {
        self.pos
    }

    pub fn remaining(&self) -> (n: usize)
        requires
            self.wf(),
        ensures
            n == self.remaining_spec(),
    {
        self.data.len() - self.pos
    }

    /// Reads exactly `width` bytes, or fails with `UnexpectedEof` leaving the
    /// position where it was. The position only moves forward.
    pub fn read_fixed(&mut self, width: usize) -> (r: Result<Vec<u8>, CodecError>)
        requires
            old(self).wf(),
        ensures
            final(self).wf(),
            final(self).bytes() == old(self).bytes(),
            r is Ok <==> old(self).remaining_spec() >= width,
            match r {
                Ok(b) => {
                    &&& b@ == old(self).bytes().subrange(
                        old(self).position(),
                        old(self).position() + width,
                    )
                    &&& b@.len() == width
                    &&& final(self).position() == old(self).position() + width
                },
                Err(e) => {
                    &&& e == CodecError::UnexpectedEof
                    &&& final(self).position() == old(self).position()
                },
            },
    {
        if width > self.data.len() - self.pos {
            return Err(CodecError::UnexpectedEof);
        }
        let mut out: Vec<u8> = Vec::new();
        let mut i: usize = 0;
        while i < width
            invariant
                0 <= i <= width,
                self.pos + width <= self.data.len(),
                out@ == self.data@.subrange(self.pos as int, self.pos + i),
            decreases width - i,
        {
            out.push(self.data[self.pos + i]);
            assert(out@ == self.data@.subrange(self.pos as int, self.pos + i + 1));
            i = i + 1;
        }
        self.pos = self.pos + width;
        Ok(out)
    }

    /// Reads one byte.
    pub fn read_u8(&mut self) -> (r: Result<u8, CodecError>)
        requires
            old(self).wf(),
        ensures
            final(self).wf(),
            final(self).bytes() == old(self).bytes(),
            r is Ok <==> old(self).remaining_spec() >= 1,
            match r {
                Ok(b) => {
                    &&& b == old(self).bytes()[old(self).position()]
                    &&& final(self).position() == old(self).position() + 1
                },
                Err(e) => {
                    &&& e == CodecError::UnexpectedEof
                    &&& final(self).position() == old(self).position()
                },
            },
    {
        if self.pos < self.data.len() {
            let b = self.data[self.pos];
            self.pos = self.pos + 1;
            Ok(b)
        } else {
            Err(CodecError::UnexpectedEof)
        }
    }

    /// Reads a little-endian 32-bit unsigned value.
    pub fn read_u32_le(&mut self) -> (r: Result<u32, CodecError>)
        requires
            old(self).wf(),
        ensures
            final(self).wf(),
            final(self).bytes() == old(self).bytes(),
            r is Ok <==> old(self).remaining_spec() >= 4,
            match r {
                Ok(x) => {
                    &&& old(self).bytes().subrange(
                        old(self).position(),
                        old(self).position() + 4,
                    ) == le32(x)
                    &&& final(self).position() == old(self).position() + 4
                },
                Err(e) => {
                    &&& e == CodecError::UnexpectedEof
                    &&& final(self).position() == old(self).position()
                },
            },
    {
        let b = self.read_fixed(4)?;
        let x = vstd::bytes::u32_from_le_bytes(b.as_slice());
        proof {
            vstd::bytes::lemma_auto_spec_u32_to_from_le_bytes();
        }
        Ok(x)
    }

    /// Reads a little-endian 32-bit signed value (its two's-complement bits).
    pub fn read_i32_le(&mut self) -> (r: Result<i32, CodecError>)
        requires
            old(self).wf(),
        ensures
            final(self).wf(),
            final(self).bytes() == old(self).bytes(),
            r is Ok <==> old(self).remaining_spec() >= 4,
            match r {
                Ok(x) => {
                    &&& old(self).bytes().subrange(
                        old(self).position(),
                        old(self).position() + 4,
                    ) == le32i(x)
                    &&& final(self).position() == old(self).position() + 4
                },
                Err(e) => {
                    &&& e == CodecError::UnexpectedEof
                    &&& final(self).position() == old(self).position()
                },
            },
    {
        let x = self.read_u32_le()?;
        let v = x as i32;
        proof {
            assert((x as i32) as u32 == x) by (bit_vector);
        }
        Ok(v)
    }

    /// Reads a little-endian 16-bit code unit.
    pub fn read_u16_le(&mut self) -> (r: Result<u16, CodecError>)
        requires
            old(self).wf(),
        ensures
            final(self).wf(),
            final(self).bytes() == old(self).bytes(),
            r is Ok <==> old(self).remaining_spec() >= 2,
            match r {
                Ok(x) => {
                    &&& old(self).bytes().subrange(
                        old(self).position(),
                        old(self).position() + 2,
                    ) == le16(x)
                    &&& final(self).position() == old(self).position() + 2
                },
                Err(e) => {
                    &&& e == CodecError::UnexpectedEof
                    &&& final(self).position() == old(self).position()
                },
            },
    {
        let b = self.read_fixed(2)?;
        let x = vstd::bytes::u16_from_le_bytes(b.as_slice());
        proof {
            vstd::bytes::lemma_auto_spec_u16_to_from_le_bytes();
        }
        Ok(x)
    }
}

/// Appends one byte to the output buffer.
pub fn write_u8(out: &mut Vec<u8>, b: u8)
    ensures
        final(out)@ == old(out)@.push(b),
{
    out.push(b);
}

/// Appends a little-endian 32-bit unsigned value.
pub fn write_u32_le(out: &mut Vec<u8>, x: u32)
    ensures
        final(out)@ == old(out)@ + le32(x),
{
    let mut b = vstd::bytes::u32_to_le_bytes(x);
    out.append(&mut b);
}

/// Appends a little-endian 16-bit code unit.
pub fn write_u16_le(out: &mut Vec<u8>, x: u16)
    ensures
        final(out)@ == old(out)@ + le16(x),
{
    let mut b = vstd::bytes::u16_to_le_bytes(x);
    out.append(&mut b);
}

/// Appends a little-endian 32-bit signed value (its two's-complement bits).
pub fn write_i32_le(out: &mut Vec<u8>, x: i32)
    ensures
        final(out)@ == old(out)@ + le32i(x),
{
    write_u32_le(out, x as u32);
}

/// Appends a copy of the given bytes.
pub fn write_bytes(out: &mut Vec<u8>, b: &Vec<u8>)
    ensures
        final(out)@ == old(out)@ + b@,
{
    let mut i: usize = 0;
    while i < b.len()
        invariant
            0 <= i <= b@.len(),
            out@ == old(out)@ + b@.subrange(0, i as int),
        decreases b@.len() - i,
    {
        out.push(b[i]);
        assert(old(out)@ + b@.subrange(0, i + 1) == (old(out)@ + b@.subrange(0, i as int)).push(
            b@[i as int],
        ));
        i = i + 1;
    }
    assert(b@.subrange(0, b@.len() as int) == b@);
}

} // verus!
