//! The keyed round function: four SipHash rounds over a state built from the
//! round index, the right half and the seed.

use vstd::prelude::*;

verus! {

/// A fixed word placed in the fourth lane of the state, so that a zero seed
/// and a zero half do not start the mixing from all zeroes.
pub const MIX_CONSTANT: u64 = 0xf3016d19bc9ad940;

/// Addition modulo 2^64.
pub open spec fn add_wrap(x: u64, y: u64) -> u64 {
    if x + y > u64::MAX {
        (x + y - 0x1_0000_0000_0000_0000) as u64
    } else {
        (x + y) as u64
    }
}

/// Rotation of a 64-bit word left by `n` places, `0 < n < 64`.
pub open spec fn rotl(x: u64, n: u64) -> u64 {
    (x << n) | (x >> (64 - n) as u64)
}

/// One SipHash round on the four lanes.
pub open spec fn sip_round(v: (u64, u64, u64, u64)) -> (u64, u64, u64, u64) {
    let (v0, v1, v2, v3) = v;
    let v0 = add_wrap(v0, v1);
    let v2 = add_wrap(v2, v3);
    let v1 = rotl(v1, 13) ^ v0;
    let v3 = rotl(v3, 16) ^ v2;
    let v0 = rotl(v0, 32);
    let v2 = add_wrap(v2, v1);
    let v0 = add_wrap(v0, v3);
    let v1 = rotl(v1, 17) ^ v2;
    let v3 = rotl(v3, 21) ^ v0;
    let v2 = rotl(v2, 32);
    (v0, v1, v2, v3)
}

/// The round function's value for round `j` on the half `right` under `seed`:
/// the first lane after four SipHash rounds from `(j, right, seed, MIX_CONSTANT)`.
pub open spec fn round_value(seed: u64, j: u64, right: u64) -> u64 {
    sip_round(sip_round(sip_round(sip_round((j, right, seed, MIX_CONSTANT))))).0
}

/// Rotates `x` left by `n` places.
pub fn rotl_exec(x: u64, n: u64) -> (r: u64)
    requires
        0 < n < 64,
    ensures
        r == rotl(x, n),
{
    (x << n) | (x >> (64 - n))
}

} // verus!
