use vstd::prelude::*;

use crate::dhash::DHash;

verus! {

/// The value of eight bytes read as a big-endian unsigned integer.
pub open spec fn be_u64(b: Seq<u8>) -> int {
    b[0] * 0x100000000000000 + b[1] * 0x1000000000000 + b[2] * 0x10000000000 + b[3]
        * 0x100000000 + b[4] * 0x1000000 + b[5] * 0x10000 + b[6] * 0x100 + b[7]
}

/// The fingerprints of a dump: one per whole group of eight bytes, a shorter tail ignored.
pub open spec fn decoded(bytes: Seq<u8>) -> Seq<DHash> {
    Seq::new(bytes.len() / 8, |i: int| DHash { raw: be_u64(bytes.subrange(8 * i, 8 * i + 8)) as u64 })
}

fn read_be_u64(bytes: &[u8], start: usize) -> (v: u64)
    requires
        start + 8 <= bytes@.len(),
    ensures
        v == be_u64(bytes@.subrange(start as int, start + 8)),
{
    (bytes[start] as u64) * 0x100000000000000 + (bytes[start + 1] as u64) * 0x1000000000000
        + (bytes[start + 2] as u64) * 0x10000000000 + (bytes[start + 3] as u64) * 0x100000000
        + (bytes[start + 4] as u64) * 0x1000000 + (bytes[start + 5] as u64) * 0x10000 + (bytes[start
        + 6] as u64) * 0x100 + (bytes[start + 7] as u64)
}

/// Decodes a fingerprint dump: consecutive 64-bit big-endian values.
pub fn decode_hashes(bytes: &[u8]) -> (r: Vec<DHash>)
    ensures
        r@ == decoded(bytes@),
{
    let len = bytes.len();
    let n = len / 8;
    let mut r: Vec<DHash> = Vec::new();
    for i in 0..n
        invariant
            len == bytes@.len(),
            n == len / 8,
            r@ == decoded(bytes@).take(i as int),
    {
        assert(8 * i + 8 <= bytes@.len()) by (nonlinear_arith)
            requires
                i < n,
                n == len / 8,
                len == bytes@.len(),
        ;
        let raw = read_be_u64(bytes, 8 * i);
        r.push(DHash { raw });
        assert(r@ =~= decoded(bytes@).take(i + 1));
    }
    assert(r@ =~= decoded(bytes@));
    r
}

} // verus!
