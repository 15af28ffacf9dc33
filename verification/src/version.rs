//! The format-version gate: the first 4 bytes of every save are a signed
//! little-endian version marker compared against the expected constant for
//! the target format generation. A mismatch is a hard failure, not negotiated.

use vstd::prelude::*;
use vstd::bytes::spec_u32_from_le_bytes;
use crate::cursor::{le32i, lemma_le_bytes_auto, write_i32_le, ByteCursor};
use crate::error::CodecError;

verus! {

/// What reading the version marker at `pos` yields: the validated version and
/// the position after it, or the error. After a mismatch no further bytes are
/// consumed; the whole decode aborts.
pub open spec fn version_sdec(s: Seq<u8>, pos: int, expected: i32) -> Result<
    (i32, int),
    CodecError,
> {
    if pos + 4 > s.len() {
        Err(CodecError::UnexpectedEof)
    } else {
        let found = spec_u32_from_le_bytes(s.subrange(pos, pos + 4)) as i32;
        if found == expected {
            Ok((found, pos + 4))
        } else {
            Err(CodecError::UnsupportedVersion { found, expected })
        }
    }
}

/// Reads and validates the version marker, exactly as [`version_sdec`] says.
/// Whether it matches or not, exactly 4 bytes are consumed when 4 remain.
pub fn decode_version(cur: &mut ByteCursor, expected: i32) -> (r: Result<i32, CodecError>)
    requires
        old(cur).wf(),
    ensures
        final(cur).wf(),
        final(cur).bytes() == old(cur).bytes(),
        old(cur).remaining_spec() >= 4 ==> final(cur).position() == old(cur).position() + 4,
        match r {
            Ok(ver) => version_sdec(old(cur).bytes(), old(cur).position(), expected) == Ok::<
                (i32, int),
                CodecError,
            >((ver, final(cur).position() as int)),
            Err(e) => version_sdec(old(cur).bytes(), old(cur).position(), expected) == Err::<
                (i32, int),
                CodecError,
            >(e),
        },
{
    proof {
        lemma_le_bytes_auto();
    }
    let x = cur.read_u32_le()?;
    let found = x as i32;
    proof {
        assert(((found as u32) as i32) == found) by (bit_vector);
        assert((x as i32) as u32 == x) by (bit_vector);
    }
    if found == expected {
        Ok(found)
    } else {
        Err(CodecError::UnsupportedVersion { found, expected })
    }
}

/// Writes the version marker back, unchanged, as 4 little-endian bytes.
pub fn encode_version(out: &mut Vec<u8>, version: i32)
    ensures
        final(out)@ == old(out)@ + le32i(version),
{
    write_i32_le(out, version);
}

/// The validated version marker of the newest supported format generation.
#[derive(Clone, Copy, Debug, PartialEq, Eq, Structural)]
pub struct Version(pub i32);

/// The version constant the newest format generation carries.
pub const CURRENT_VERSION: i32 = 59;

impl Version {
    /// Reads the marker and fails with `UnsupportedVersion` unless it is
    /// exactly [`CURRENT_VERSION`].
    pub fn deserialize(cur: &mut ByteCursor) -> (r: Result<Version, CodecError>)
        requires
            old(cur).wf(),
        ensures
            final(cur).wf(),
            final(cur).bytes() == old(cur).bytes(),
            old(cur).remaining_spec() >= 4 ==> final(cur).position() == old(cur).position() + 4,
            match r {
                Ok(v) => version_sdec(old(cur).bytes(), old(cur).position(), CURRENT_VERSION)
                    == Ok::<(i32, int), CodecError>((v.0, final(cur).position() as int)),
                Err(e) => version_sdec(old(cur).bytes(), old(cur).position(), CURRENT_VERSION)
                    == Err::<(i32, int), CodecError>(e),
            },
    {
        let v = decode_version(cur, CURRENT_VERSION)?;
        Ok(Version(v))
    }

    /// Writes the validated marker back unchanged.
    pub fn serialize(&self, out: &mut Vec<u8>)
        ensures
            final(out)@ == old(out)@ + le32i(self.0),
    {
        encode_version(out, self.0);
    }
}

} // verus!
