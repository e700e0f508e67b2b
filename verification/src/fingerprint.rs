//! 64-bit FNV-1a fingerprints of canonical texts.

use vstd::prelude::*;
use vstd::utf8::encode_utf8;

verus! {

pub const FNV_OFFSET: u64 = 0xcbf29ce484222325;
pub const FNV_PRIME: u64 = 0x100000001b3;

/// One FNV-1a round: xor the byte in, then multiply modulo 2^64.
pub open spec fn fnv_step(h: u64, b: u8) -> u64 {
    (h ^ (b as u64)).wrapping_mul(FNV_PRIME)
}

/// FNV-1a of a byte sequence.
pub open spec fn fnv(bytes: Seq<u8>) -> u64
    decreases bytes.len(),
{
    if bytes.len() == 0 {
        FNV_OFFSET
    } else {
        fnv_step(fnv(bytes.drop_last()), bytes.last())
    }
}

/// FNV-1a of the UTF-8 bytes of a text.
pub open spec fn text_fingerprint(s: Seq<char>) -> u64 {
    fnv(encode_utf8(s))
}

/// FNV-1a over bytes.
pub fn fingerprint_bytes(bytes: &[u8]) -> (h: u64)
    ensures
        h == fnv(bytes@),
{
    let mut h: u64 = FNV_OFFSET;
    let mut i: usize = 0;
    while i < bytes.len()
        invariant
            i <= bytes.len(),
            h == fnv(bytes@.subrange(0, i as int)),
        decreases bytes.len() - i,
    {
        assert(bytes@.subrange(0, i + 1).drop_last() =~= bytes@.subrange(0, i as int));
        h = (h ^ (bytes[i] as u64)).wrapping_mul(FNV_PRIME);
        i = i + 1;
    }
    assert(bytes@.subrange(0, bytes.len() as int) =~= bytes@);
    h
}

/// FNV-1a over the UTF-8 bytes of a text.
pub fn fingerprint_text(s: &str) -> (h: u64)
    ensures
        h == text_fingerprint(s@),
{
    fingerprint_bytes(s.as_bytes())
}

/// A 64-bit value determined by a seed, an item index and a stream number:
/// the three are combined and run through the splitmix64 finaliser.
pub open spec fn mix64(seed: u64, index: u64, stream: u64) -> u64 {
    let z0 = seed ^ index.wrapping_mul(0x9e3779b97f4a7c15u64) ^ stream.wrapping_mul(0xd1b54a32d192ed03u64);
    let z1 = (z0 ^ (z0 >> 30u64)).wrapping_mul(0xbf58476d1ce4e5b9u64);
    let z2 = (z1 ^ (z1 >> 27u64)).wrapping_mul(0x94d049bb133111ebu64);
    z2 ^ (z2 >> 31u64)
}

/// The deterministic pseudo-random value of (`seed`, `index`, `stream`).
pub fn deterministic_u64(seed: u64, index: u64, stream: u64) -> (r: u64)
    ensures
        r == mix64(seed, index, stream),
{
    let z0 = seed ^ index.wrapping_mul(0x9e3779b97f4a7c15u64) ^ stream.wrapping_mul(0xd1b54a32d192ed03u64);
    let z1 = (z0 ^ (z0 >> 30u64)).wrapping_mul(0xbf58476d1ce4e5b9u64);
    let z2 = (z1 ^ (z1 >> 27u64)).wrapping_mul(0x94d049bb133111ebu64);
    z2 ^ (z2 >> 31u64)
}

} // verus!
