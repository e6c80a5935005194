//! The generator: parameters fixed at construction, and `shuffle`, which maps
//! each index of `[0, range)` to its place in a keyed permutation.

use vstd::prelude::*;

verus! {

use vstd::arithmetic::power2::{pow2, lemma_pow2_pos, lemma_pow2_adds, lemma2_to64_rest};
use vstd::arithmetic::div_mod::lemma_mod_multiples_vanish;
use vstd::bits::{
    low_bits_mask,
    lemma_u64_low_bits_mask_is_mod,
    lemma_u64_shl_is_mul,
    lemma_u64_shr_is_div,
    lemma_u64_pow2_no_overflow,
};
use crate::bits::{count_bits, lemma_high_bit_bit_len};
use crate::mixing::{MIX_CONSTANT, add_wrap, round_value, sip_round, rotl_exec};
use crate::model::{PerfectRngView, params_for, lemma_params_for};

/// The round count used when none is given.
pub const DEFAULT_ROUNDS: usize = 3;

/// Why a generator could not be built.
#[derive(Debug, Clone, Copy, PartialEq, Eq, Structural)]
pub enum PerfectRngError {
    /// The requested domain `[0, range)` is empty.
    EmptyRange,
}

/// A keyed permutation of `[0, range)`.
#[derive(Debug)]
pub struct PerfectRng {
    range: u64,
    seed: u64,
    rounds: usize,
    a_bits: u32,
    b_bits: u32,
    a_mask: u64,
    b_mask: u64,
}

impl View for PerfectRng {
    type V = PerfectRngView;

    closed spec fn view(&self) -> PerfectRngView {
        PerfectRngView {
            range: self.range as nat,
            seed: self.seed,
            rounds: self.rounds as nat,
            a_bits: self.a_bits as nat,
            b_bits: self.b_bits as nat,
        }
    }
}

/// `sum & mask`, for the wrapped sum of `left` and `f` and the mask of the
/// low `w` bits, is the true sum modulo `2^w`.
proof fn lemma_masked_sum(left: u64, f: u64, sum: u64, w: nat, mask: u64)
    requires
        w <= 32,
        mask as nat == low_bits_mask(w),
        sum == add_wrap(left, f),
    ensures
        (sum & mask) as nat == ((left + f) % (pow2(w) as int)) as nat,
{
    lemma_u64_low_bits_mask_is_mod(sum, w);
    lemma_u64_pow2_no_overflow(w);
    lemma_pow2_pos(w);
    if left + f > u64::MAX {
        lemma_pow2_adds(w, (64 - w) as nat);
        lemma2_to64_rest();
        lemma_mod_multiples_vanish(pow2((64 - w) as nat) as int, sum as int, pow2(w) as int);
    }
}

/// Relies on `rand::random::<u64>`: a word drawn from the thread-local
/// generator, seeded by the operating system. Nothing is promised of its value.
/// It panics only where the operating system's entropy source fails: when
/// the generator is first seeded, when it reseeds, or when it registers its
/// fork handler.
#[verifier::external_body]
fn random_seed() -> (seed: u64) {
    rand::random::<u64>()
}

impl PerfectRng {
    #[verifier::type_invariant]
    spec fn inv(self) -> bool {
        &&& self@.wf()
        &&& self.a_mask as nat == low_bits_mask(self.a_bits as nat)
        &&& self.b_mask as nat == low_bits_mask(self.b_bits as nat)
    }

    /// Builds the generator for `[0, range)` under `seed`, with `rounds`
    /// Feistel rounds. The domain is split as `params_for` states. An empty
    /// domain is refused.
    pub fn new(range: u64, seed: u64, rounds: usize) -> (r: Result<PerfectRng, PerfectRngError>)
        requires
            rounds >= 1,
        ensures
            r is Ok <==> range > 0,
            r matches Err(e) ==> e == PerfectRngError::EmptyRange,
            r matches Ok(g) ==> g@ == params_for(range as nat, seed, rounds as nat) && g@.wf(),
    {
        if range == 0 {
            return Err(PerfectRngError::EmptyRange);
        }
        let bits: u32 = if range == 1 {
            0
        } else {
            count_bits(range - 1) + 1
        };
        proof {
            if range > 1 {
                lemma_high_bit_bit_len((range - 1) as nat);
            }
        }
        let b_bits = bits / 2;
        let a_bits = bits - b_bits;
        proof {
            lemma_params_for(range as nat, seed, rounds as nat);
            lemma_u64_pow2_no_overflow(a_bits as nat);
            lemma_u64_pow2_no_overflow(b_bits as nat);
            lemma_u64_shl_is_mul(1, a_bits as u64);
            lemma_u64_shl_is_mul(1, b_bits as u64);
        }
        let a_mask = (1u64 << (a_bits as u64)) - 1;
        let b_mask = (1u64 << (b_bits as u64)) - 1;
        Ok(PerfectRng { range, seed, rounds, a_bits, b_bits, a_mask, b_mask })
    }

    /// Builds the generator for `[0, range)` with a random seed and
    /// `DEFAULT_ROUNDS` rounds. An empty domain is refused.
    pub fn from_range(range: u64) -> (r: Result<PerfectRng, PerfectRngError>)
        ensures
            r is Ok <==> range > 0,
            r matches Err(e) ==> e == PerfectRngError::EmptyRange,
            r matches Ok(g) ==> g@ == params_for(range as nat, g@.seed, DEFAULT_ROUNDS as nat)
                && g@.wf(),
    {
        Self::new(range, random_seed(), DEFAULT_ROUNDS)
    }

    /// One SipHash round on the four lanes.
    fn sipround(&self, v0: u64, v1: u64, v2: u64, v3: u64) -> (r: (u64, u64, u64, u64))
        ensures
            r == sip_round((v0, v1, v2, v3)),
    {
        let mut v0 = v0;
        let mut v1 = v1;
        let mut v2 = v2;
        let mut v3 = v3;
        v0 = v0.wrapping_add(v1);
        v2 = v2.wrapping_add(v3);
        v1 = rotl_exec(v1, 13) ^ v0;
        v3 = rotl_exec(v3, 16) ^ v2;
        v0 = rotl_exec(v0, 32);

        v2 = v2.wrapping_add(v1);
        v0 = v0.wrapping_add(v3);
        v1 = rotl_exec(v1, 17) ^ v2;
        v3 = rotl_exec(v3, 21) ^ v0;
        v2 = rotl_exec(v2, 32);

        (v0, v1, v2, v3)
    }

    /// The round function for round `j` on the half `right`.
    fn round(&self, j: usize, right: u64) -> (r: u64)
        ensures
            r == round_value(self@.seed, j as u64, right),
    {
        let s = self.sipround(j as u64, right, self.seed, MIX_CONSTANT);
        let s = self.sipround(s.0, s.1, s.2, s.3);
        let s = self.sipround(s.0, s.1, s.2, s.3);
        let s = self.sipround(s.0, s.1, s.2, s.3);
        s.0
    }
    /// The Feistel network on `[0, 2^(a_bits + b_bits))`.
    fn encrypt(&self, m: u64) -> (c: u64)
        requires
            (m as nat) < self@.domain_size(),
        ensures
            c as nat == self@.encrypt(m as nat),
    {
        proof {
            use_type_invariant(self);
            lemma_u64_low_bits_mask_is_mod(m, self.a_bits as nat);
            lemma_u64_shr_is_div(m, self.a_bits as u64);
            lemma_u64_pow2_no_overflow(self.a_bits as nat);
        }
        let mut left = m & self.a_mask;
        let mut right = m >> (self.a_bits as u64);
        let mut j: usize = 0;
        while j < self.rounds
            invariant
                self@.wf(),
                self.a_mask as nat == low_bits_mask(self.a_bits as nat),
                self.b_mask as nat == low_bits_mask(self.b_bits as nat),
                (m as nat) < self@.domain_size(),
                j <= self.rounds,
                (left as nat, right as nat) == self@.feistel(m as nat, j as nat),
            decreases self.rounds - j,
        {
            let idx = j + 1;
            let f = self.round(idx, right);
            let sum = left.wrapping_add(f);
            let tmp = if idx % 2 == 1 {
                proof {
                    lemma_masked_sum(left, f, sum, self.a_bits as nat, self.a_mask);
                }
                sum & self.a_mask
            } else {
                proof {
                    lemma_masked_sum(left, f, sum, self.b_bits as nat, self.b_mask);
                }
                sum & self.b_mask
            };
            left = right;
            right = tmp;
            j = idx;
        }
        proof {
            self@.lemma_feistel_widths(m as nat, self.rounds as nat);
            self@.lemma_encrypt_in_domain(m as nat);
            self@.lemma_domain_fits_u64();
            lemma_pow2_adds(self.a_bits as nat, self.b_bits as nat);
            lemma_pow2_pos(self.a_bits as nat);
            let a = pow2(self.a_bits as nat);
            let b = pow2(self.b_bits as nat);
            assert forall|x: nat| x < b implies #[trigger] (x * a) <= a * b - a by {
                assert(x * a <= a * b - a) by (nonlinear_arith)
                    requires x < b, a > 0,
                ;
            }
        }
        if self.rounds % 2 == 1 {
            proof {
                lemma_u64_shl_is_mul(left, self.a_bits as u64);
            }
            (left << (self.a_bits as u64)) + right
        } else {
            proof {
                lemma_u64_shl_is_mul(right, self.a_bits as u64);
            }
            (right << (self.a_bits as u64)) + left
        }
    }

    /// The position of `m` in the permutation: the first value below `range`
    /// on the walk `encrypt(m), encrypt(encrypt(m)), ...`.
    pub fn shuffle(&self, m: u64) -> (r: u64)
        requires
            (m as nat) < self@.range,
        ensures
            (r as nat) < self@.range,
            self@.walk_ends_at(m as nat, r as nat),
    {
        proof {
            use_type_invariant(self);
        }
        let ghost mut period: nat = 0;
        proof {
            period = self@.lemma_orbit_period(m as nat);
        }
        let mut c = self.encrypt(m);
        let ghost mut k: nat = 1;
        assert(self@.orbit(m as nat, 0) == m as nat);
        while c >= self.range
            invariant
                self@.wf(),
                (m as nat) < self@.range,
                1 <= k <= period,
                self@.orbit(m as nat, period) == m as nat,
                c as nat == self@.orbit(m as nat, k),
                forall|t: nat| 1 <= t < k ==> self@.orbit(m as nat, t) >= self@.range,
            decreases period - k,
        {
            proof {
                self@.lemma_orbit_in_domain(m as nat, k);
            }
            c = self.encrypt(c);
            proof {
                k = k + 1;
            }
        }
        c
    }
}

} // verus!
