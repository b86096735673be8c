//! Seeds of the two noise channels that displace plate boundaries.

use vstd::prelude::*;

verus! {

/// XOR constant that derives the y-channel seed from the x-channel seed.
pub const DY_CHANNEL_XOR_MAGIC: u64 = 0xDE13_4DDA_5EED_u64;

/// Fold a 64-bit seed into 32 bits: the XOR of its high and low halves.
pub fn u64_to_u32_seed(seed: u64) -> (r: u32)
    ensures
        r as u64 == (seed >> 32u64) ^ (seed & 0xFFFF_FFFFu64),
{
    let hi = (seed >> 32u64) as u32;
    let lo = (seed & 0xFFFF_FFFFu64) as u32;
    let r = hi ^ lo;
    assert(r as u64 == (seed >> 32u64) ^ (seed & 0xFFFF_FFFFu64)) by (bit_vector)
        requires
            hi == (seed >> 32u64) as u32,
            lo == (seed & 0xFFFF_FFFFu64) as u32,
            r == hi ^ lo,
    ;
    r
}

/// Seeds of the x and y displacement channels: the folded seed, and the
/// folded seed XOR-ed with [`DY_CHANNEL_XOR_MAGIC`].
pub fn channel_seeds(seed: u64) -> (seeds: (u32, u32))
    ensures
        seeds.0 as u64 == (seed >> 32u64) ^ (seed & 0xFFFF_FFFFu64),
        seeds.1 as u64 == ((seed ^ DY_CHANNEL_XOR_MAGIC) >> 32u64) ^ ((seed ^ DY_CHANNEL_XOR_MAGIC) & 0xFFFF_FFFFu64),
{
    (u64_to_u32_seed(seed), u64_to_u32_seed(seed ^ DY_CHANNEL_XOR_MAGIC))
}

} // verus!
