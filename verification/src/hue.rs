//! Deterministic hues for file extensions: the FNV-1a hash of the lowercased
//! extension picks the hue, so the same extension always gets the same
//! color.

use vstd::prelude::*;
use vstd::utf8::encode_utf8;

use crate::insights::{extension_of, extension_spec};
use crate::text::{lower, to_ascii_lowercase};

verus! {

/// The FNV-1a offset basis.
pub const FNV_OFFSET: u64 = 0xcbf2_9ce4_8422_2325;

/// The FNV-1a prime.
pub const FNV_PRIME: u64 = 0x100_0000_01b3;

/// FNV-1a of `bytes`: start from the offset basis; for each byte, xor it in
/// and multiply by the prime, wrapping.
pub open spec fn fnv1a_of(bytes: Seq<u8>) -> u64
    decreases bytes.len(),
{
    if bytes.len() == 0 {
        FNV_OFFSET
    } else {
        (fnv1a_of(bytes.drop_last()) ^ (bytes.last() as u64)).wrapping_mul(FNV_PRIME)
    }
}

/// The 64-bit FNV-1a hash of `bytes`.
pub fn fnv1a(bytes: &[u8]) -> (hash: u64)
    ensures
        hash == fnv1a_of(bytes@),
{
    let n = bytes.len();
    let mut hash: u64 = FNV_OFFSET;
    let mut i: usize = 0;
    proof {
        assert(bytes@.take(0) =~= Seq::<u8>::empty());
    }
    while i < n
        invariant
            i <= n,
            n == bytes@.len(),
            hash == fnv1a_of(bytes@.take(i as int)),
        decreases n - i,
    {
        hash = hash ^ (bytes[i] as u64);
        hash = hash.wrapping_mul(FNV_PRIME);
        proof {
            assert(bytes@.take(i + 1).drop_last() =~= bytes@.take(i as int));
        }
        i += 1;
    }
    proof {
        assert(bytes@.take(n as int) =~= bytes@);
    }
    hash
}

/// The hue, in degrees, of an extension: FNV-1a of its lowercased UTF-8
/// bytes, modulo 360.
pub open spec fn hue_of(ext: Seq<char>) -> u64 {
    fnv1a_of(encode_utf8(lower(ext))) % 360
}

/// The hue, in whole degrees below 360, for an extension.
pub fn extension_hue(ext: &str) -> (degrees: u64)
    ensures
        degrees == hue_of(ext@),
        degrees < 360,
{
    let lowered = to_ascii_lowercase(ext);
    fnv1a(lowered.as_str().as_bytes()) % 360
}

/// The hue, in whole degrees below 360, of a file's block: that of its
/// extension (extensionless files and dotfiles share the hue of `""`).
pub fn file_hue(name: &str) -> (degrees: u64)
    ensures
        degrees == hue_of(extension_spec(name@)),
        degrees < 360,
{
    let ext = extension_of(name);
    extension_hue(ext.as_str())
}

/// Extensions that differ only in ASCII case get the same hue.
pub proof fn law_hue_ignores_case(a: Seq<char>, b: Seq<char>)
    requires
        lower(a) == lower(b),
    ensures
        hue_of(a) == hue_of(b),
{
}

} // verus!
