//! The round-trip verification discipline: byte-for-byte comparison of a
//! re-encoded save against the original input, with an offset-aware diff that
//! names the first mismatching 4-byte chunk.

use vstd::prelude::*;

verus! {

/// The byte offset, aligned down to a 4-byte chunk, of the first position
/// where the two buffers differ, compared over their common length; `None`
/// when they agree everywhere both have bytes.
pub fn first_mismatch(a: &Vec<u8>, b: &Vec<u8>) -> (r: Option<usize>)
    ensures
        ({
            let m = if a@.len() < b@.len() {
                a@.len() as int
            } else {
                b@.len() as int
            };
            match r {
                None => forall|i: int| 0 <= i < m ==> a@[i] == b@[i],
                Some(off) => {
                    &&& off % 4 == 0
                    &&& off < m
                    &&& (exists|j: int| off <= j < m && j < off + 4 && a@[j] != b@[j])
                    &&& forall|i: int| 0 <= i < off ==> a@[i] == b@[i]
                },
            }
        }),
{
    let m = if a.len() < b.len() {
        a.len()
    } else {
        b.len()
    };
    let mut off: usize = 0;
    while off < m
        invariant
            m == (if a@.len() < b@.len() {
                a@.len() as int
            } else {
                b@.len() as int
            }),
            0 <= off <= m,
            off % 4 == 0 || off == m,
            forall|i: int| 0 <= i < off ==> a@[i] == b@[i],
        decreases m - off,
    {
        let end = if m - off > 4 {
            off + 4
        } else {
            m
        };
        let mut j = off;
        while j < end
            invariant
                0 <= off <= j <= end <= m,
                m <= a@.len(),
                m <= b@.len(),
                m == (if a@.len() < b@.len() {
                    a@.len() as int
                } else {
                    b@.len() as int
                }),
                end <= off + 4,
                off % 4 == 0 || off == m,
                forall|i: int| 0 <= i < j ==> a@[i] == b@[i],
            decreases end - j,
        {
            if a[j] != b[j] {
                return Some(off);
            }
            j = j + 1;
        }
        off = end;
    }
    None
}

/// Whether two buffers have the same length and agree on every byte except
/// possibly the trailing 4-byte footer: the comparison a round trip owes when
/// the input's stored checksum predates the freshly appended one.
pub fn matches_except_footer(a: &Vec<u8>, b: &Vec<u8>) -> (r: bool)
    ensures
        r <==> (a@.len() == b@.len() && a@.len() >= 4 && a@.subrange(0, a@.len() - 4)
            == b@.subrange(0, b@.len() - 4)),
{
    if a.len() != b.len() || a.len() < 4 {
        return false;
    }
    let n = a.len() - 4;
    let mut i: usize = 0;
    while i < n
        invariant
            n == a@.len() - 4,
            a@.len() == b@.len(),
            a@.len() >= 4,
            0 <= i <= n,
            forall|k: int| 0 <= k < i ==> a@[k] == b@[k],
        decreases n - i,
    {
        if a[i] != b[i] {
            proof {
                if a@.subrange(0, a@.len() - 4) == b@.subrange(0, b@.len() - 4) {
                    assert(a@.subrange(0, a@.len() - 4)[i as int] == b@.subrange(
                        0,
                        b@.len() - 4,
                    )[i as int]);
                    assert(false);
                }
            }
            return false;
        }
        i = i + 1;
    }
    proof {
        assert(a@.subrange(0, a@.len() - 4) =~= b@.subrange(0, b@.len() - 4));
    }
    true
}

} // verus!
