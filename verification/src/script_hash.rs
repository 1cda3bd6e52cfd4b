//! The index key of a script: a deterministic 64-bit FNV-1a digest of the
//! script bytes. Collisions only merge two scripts into one history bucket;
//! correctness is unaffected because entries carry the full txid.

use vstd::prelude::*;

verus! {

/// One FNV-1a round: xor the byte in, multiply by the 64-bit FNV prime.
pub open spec fn fnv1a_step(h: u64, b: u8) -> u64 {
    vstd::wrapping::u64_specs::wrapping_mul(h ^ (b as u64), 0x100000001b3u64)
}

/// The 64-bit FNV-1a digest of a byte sequence.
pub open spec fn fnv1a(s: Seq<u8>) -> u64
    decreases s.len(),
{
    if s.len() == 0 {
        0xcbf29ce484222325u64
    } else {
        fnv1a_step(fnv1a(s.drop_last()), s.last())
    }
}

/// Compute a script's index key.
pub fn script_hash(script: &Vec<u8>) -> (r: u64)
    ensures
        r == fnv1a(script@),
{
    let mut h: u64 = 0xcbf29ce484222325;
    let mut i: usize = 0;
    while i < script.len()
        invariant
            i <= script@.len(),
            h == fnv1a(script@.take(i as int)),
        decreases script@.len() - i,
    {
        h = (h ^ (script[i] as u64)).wrapping_mul(0x100000001b3);
        proof {
            assert(script@.take(i + 1 as int).drop_last() =~= script@.take(i as int));
            assert(script@.take(i + 1 as int).last() == script@[i as int]);
        }
        i += 1;
    }
    proof {
        assert(script@.take(script@.len() as int) =~= script@);
    }
    h
}

} // verus!
