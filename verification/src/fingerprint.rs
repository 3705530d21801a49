//! The content fingerprinter: a deterministic 64-bit FNV-1a digest used as
//! a cheap pre-filter for change detection, never as identity, and the
//! structural fingerprint over collection lengths that gates the autosave.

use vstd::prelude::*;
use crate::model::AppData;
use crate::model::AppDataModel;

verus! {

pub const FNV_OFFSET: u64 = 0xcbf2_9ce4_8422_2325;

pub const FNV_PRIME: u64 = 0x0000_0100_0000_01b3;

/// One FNV-1a round: xor the byte in, multiply by the prime (wrapping).
pub open spec fn spec_fnv1a_step(h: u64, b: u8) -> u64 {
    vstd::wrapping::u64_specs::wrapping_mul(h ^ (b as u64), FNV_PRIME)
}

/// FNV-1a digest of a byte sequence.
pub open spec fn spec_fingerprint(s: Seq<u8>) -> u64
    decreases s.len(),
{
    if s.len() == 0 {
        FNV_OFFSET
    } else {
        spec_fnv1a_step(spec_fingerprint(s.drop_last()), s.last())
    }
}

/// Deterministic digest of a sample. Collisions are tolerated: a match is
/// always confirmed by exact comparison before any state changes.
pub fn fingerprint(v: &Vec<u8>) -> (r: u64)
    ensures
        r == spec_fingerprint(v@),
{
    let mut h: u64 = FNV_OFFSET;
    let mut i: usize = 0;
    while i < v.len()
        invariant
            0 <= i <= v.len(),
            h == spec_fingerprint(v@.subrange(0, i as int)),
        decreases v.len() - i,
    {
        let b = v[i];
        h = (h ^ (b as u64)).wrapping_mul(FNV_PRIME);
        proof {
            assert(v@.subrange(0, i + 1 as int).drop_last() =~= v@.subrange(0, i as int));
        }
        i = i + 1;
    }
    proof {
        assert(v@.subrange(0, v@.len() as int) =~= v@);
    }
    h
}

/// The eight little-endian bytes of a 64-bit value.
pub open spec fn spec_le_bytes(n: u64) -> Seq<u8> {
    Seq::new(8, |k: int| ((n >> (8 * k as u64)) & 0xff) as u8)
}

fn push_le_bytes(out: &mut Vec<u8>, n: u64)
    ensures
        final(out)@ == old(out)@ + spec_le_bytes(n),
{
    let mut k: usize = 0;
    while k < 8
        invariant
            0 <= k <= 8,
            out@ == old(out)@ + spec_le_bytes(n).subrange(0, k as int),
        decreases 8 - k,
    {
        let b: u8 = ((n >> ((8 * k) as u64)) & 0xff) as u8;
        out.push(b);
        proof {
            assert(out@ =~= old(out)@ + spec_le_bytes(n).subrange(0, k + 1 as int));
        }
        k = k + 1;
    }
    proof {
        assert(spec_le_bytes(n).subrange(0, 8) =~= spec_le_bytes(n));
    }
}

/// The cheap structural summary of the aggregate: the digest of the three
/// collection lengths. Content changes that keep all lengths equal are
/// deliberately not reflected; a miss only delays one save.
pub open spec fn spec_structural_fingerprint(d: AppDataModel) -> u64 {
    spec_fingerprint(
        spec_le_bytes(d.history.len() as u64) + spec_le_bytes(d.bookmarks.len() as u64)
            + spec_le_bytes(d.recent_ips.len() as u64),
    )
}

/// Digest of the collection lengths of the aggregate.
pub fn structural_fingerprint(d: &AppData) -> (r: u64)
    ensures
        r == spec_structural_fingerprint(d.deep_view()),
{
    let mut bytes: Vec<u8> = Vec::new();
    push_le_bytes(&mut bytes, d.history.len() as u64);
    push_le_bytes(&mut bytes, d.bookmarks.len() as u64);
    push_le_bytes(&mut bytes, d.recent_ips.len() as u64);
    fingerprint(&bytes)
}

/// The autosave gate: save exactly when the structural fingerprint differs
/// from the last one saved (or none was saved yet).
pub fn should_autosave(d: &AppData, last_saved: Option<u64>) -> (r: bool)
    ensures
        r == (last_saved != Some(spec_structural_fingerprint(d.deep_view()))),
{
    let fp = structural_fingerprint(d);
    match last_saved {
        None => true,
        Some(prev) => prev != fp,
    }
}

} // verus!
