//! The integrity footer: a CRC32 in the BZIP2 variant over every byte that
//! precedes it, appended as 4 little-endian bytes. The footer is freshly
//! computed on encode; on decode it is read and retained, not verified.

use vstd::prelude::*;
use crate::cursor::{le32, write_u32_le, ByteCursor};
use crate::error::CodecError;

verus! {

/// The CRC32 (BZIP2 variant) of a byte stream. Its value is fixed by the
/// published algorithm; this library does not restate the polynomial
/// arithmetic, it names the result.
pub uninterp spec fn crc32_bzip2(data: Seq<u8>) -> u32;

/// Relies on crc's `Crc::<u32>::checksum` with the `CRC_32_BZIP2` algorithm
/// of its catalog: a pure function of the input bytes alone.
#[verifier::external_body]
fn crc32_checksum(data: &[u8]) -> (r: u32)
    ensures
        r == crc32_bzip2(data@),
{
    crc::Crc::<u32>::new(&crc::CRC_32_BZIP2).checksum(data)
}

/// The CRC32 (BZIP2 variant) of the given bytes.
pub fn checksum_of(data: &Vec<u8>) -> (r: u32)
    ensures
        r == crc32_bzip2(data@),
{
    crc32_checksum(data.as_slice())
}

/// Appends the integrity footer: the checksum of every byte already produced,
/// as 4 little-endian bytes.
pub fn append_checksum(out: &mut Vec<u8>)
    ensures
        final(out)@ == old(out)@ + le32(crc32_bzip2(old(out)@)),
{
    let x = crc32_checksum(out.as_slice());
    write_u32_le(out, x);
}

/// Encoding the same byte stream twice yields the same checksum: the footer
/// is deterministic in the bytes it covers.
pub proof fn lemma_checksum_deterministic(a: Seq<u8>, b: Seq<u8>)
    requires
        a == b,
    ensures
        crc32_bzip2(a) == crc32_bzip2(b),
{
}

/// The stored footer value of a decoded save.
#[derive(Clone, Copy, Debug, PartialEq, Eq, Structural)]
pub struct Checksum(pub u32);

impl Checksum {
    /// Reads the stored 4-byte footer value. It is retained, not compared
    /// against a freshly computed checksum.
    pub fn deserialize(cur: &mut ByteCursor) -> (r: Result<Checksum, CodecError>)
        requires
            old(cur).wf(),
        ensures
            final(cur).wf(),
            final(cur).bytes() == old(cur).bytes(),
            r is Ok <==> old(cur).remaining_spec() >= 4,
            match r {
                Ok(ck) => {
                    &&& old(cur).bytes().subrange(
                        old(cur).position(),
                        old(cur).position() + 4,
                    ) == le32(ck.0)
                    &&& final(cur).position() == old(cur).position() + 4
                },
                Err(e) => {
                    &&& e == CodecError::UnexpectedEof
                    &&& final(cur).position() == old(cur).position()
                },
            },
    {
        let x = cur.read_u32_le()?;
        Ok(Checksum(x))
    }

    /// Appends a freshly computed checksum over every byte already produced;
    /// the stored value is not consulted.
    pub fn serialize(&self, out: &mut Vec<u8>)
        ensures
            final(out)@ == old(out)@ + le32(crc32_bzip2(old(out)@)),
    {
        append_checksum(out);
    }
}

} // verus!
