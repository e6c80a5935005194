//! The mathematical model of a generator: its parameters, the Feistel network
//! over `[0, 2^(a_bits + b_bits))`, and the cycle walk that folds it onto
//! `[0, range)`.

use vstd::prelude::*;

verus! {

use vstd::arithmetic::power2::{
    pow2,
    lemma_pow2_pos,
    lemma_pow2_adds,
    lemma_pow2_strictly_increases,
    lemma_pow2_unfold,
    lemma2_to64_rest,
};
use vstd::arithmetic::div_mod::{
    lemma_fundamental_div_mod,
    lemma_fundamental_div_mod_converse,
    lemma_mod_equivalence,
};
use crate::bits::{bit_len, lemma_bit_len_bounds, lemma_bit_len_u64};
use crate::mixing::round_value;

/// The parameters of a generator, as mathematical values.
pub ghost struct PerfectRngView {
    /// Size of the domain `[0, range)`.
    pub range: nat,
    /// Key of the round function.
    pub seed: u64,
    /// Number of Feistel rounds.
    pub rounds: nat,
    /// Width of the half that odd rounds write.
    pub a_bits: nat,
    /// Width of the half that even rounds write.
    pub b_bits: nat,
}

/// The parameters that construction derives from `range`, `seed` and
/// `rounds`: the enclosing domain has `bit_len(range - 1)` bits, of which `a`
/// takes the larger half.
pub open spec fn params_for(range: nat, seed: u64, rounds: nat) -> PerfectRngView {
    let bits = bit_len((range - 1) as nat);
    PerfectRngView {
        range,
        seed,
        rounds,
        a_bits: (bits - bits / 2) as nat,
        b_bits: bits / 2,
    }
}

/// The derived parameters are usable, and their domain is the smallest power
/// of two that holds `[0, range)`: it covers `range` values, and half of it
/// would not.
pub proof fn lemma_params_for(range: nat, seed: u64, rounds: nat)
    requires
        1 <= range <= 0x1_0000_0000_0000_0000,
        rounds >= 1,
    ensures
        params_for(range, seed, rounds).wf(),
        range <= params_for(range, seed, rounds).domain_size(),
        range == 1 || params_for(range, seed, rounds).domain_size() < 2 * range,
{
    let p = params_for(range, seed, rounds);
    let bits = bit_len((range - 1) as nat);
    lemma_bit_len_bounds((range - 1) as nat);
    lemma_bit_len_u64((range - 1) as u64);
    assert(p.a_bits + p.b_bits == bits);
    if bits > 0 {
        lemma_pow2_unfold(bits);
    }
}

/// Adding the same value modulo `w` is injective on `[0, w)`.
proof fn lemma_add_mod_cancel(x: int, y: int, f: int, w: int)
    requires
        0 <= x < w,
        0 <= y < w,
        (x + f) % w == (y + f) % w,
    ensures
        x == y,
{
    lemma_mod_equivalence(x + f, y + f, w);
    lemma_fundamental_div_mod(x - y, w);
    let q = (x - y) / w;
    assert(q == 0) by (nonlinear_arith)
        requires
            x - y == w * q,
            -w < x - y < w,
    ;
}

impl PerfectRngView {
    /// The parameters describe a usable generator.
    pub open spec fn wf(self) -> bool {
        &&& self.range >= 1
        &&& self.rounds >= 1
        &&& self.b_bits <= self.a_bits <= self.b_bits + 1
        &&& self.a_bits <= 32
        &&& self.range <= self.domain_size()
    }

    /// Size of the `a` half's value space.
    pub open spec fn a_size(self) -> nat {
        pow2(self.a_bits)
    }

    /// Size of the `b` half's value space.
    pub open spec fn b_size(self) -> nat {
        pow2(self.b_bits)
    }

    /// Size of the power-of-two domain on which the Feistel network acts.
    pub open spec fn domain_size(self) -> nat {
        pow2(self.a_bits + self.b_bits)
    }

    /// Width of the half written by round `j`: odd rounds write the `a` half,
    /// even rounds the `b` half.
    pub open spec fn half_bits(self, j: nat) -> nat {
        if j % 2 == 1 {
            self.a_bits
        } else {
            self.b_bits
        }
    }

    /// The pair `(left, right)` after `j` rounds on input `m`: the input is
    /// split into its low `a_bits` and the rest, then each round adds the round
    /// function of `right` to `left`, reduces it to the round's width, and
    /// swaps the halves.
    pub open spec fn feistel(self, m: nat, j: nat) -> (nat, nat)
        decreases j,
    {
        if j == 0 {
            (m % self.a_size(), m / self.a_size())
        } else {
            let (left, right) = self.feistel(m, (j - 1) as nat);
            let mixed = left + round_value(self.seed, j as u64, right as u64);
            (right, (mixed % (pow2(self.half_bits(j)) as int)) as nat)
        }
    }

    /// The Feistel network on the power-of-two domain. The half that holds
    /// `a_bits` after the last round becomes the low part of the result.
    pub open spec fn encrypt(self, m: nat) -> nat {
        let (left, right) = self.feistel(m, self.rounds);
        if self.rounds % 2 == 1 {
            left * self.a_size() + right
        } else {
            right * self.a_size() + left
        }
    }

    /// `m` after `k` applications of the Feistel network.
    pub open spec fn orbit(self, m: nat, k: nat) -> nat
        decreases k,
    {
        if k == 0 {
            m
        } else {
            self.encrypt(self.orbit(m, (k - 1) as nat))
        }
    }

    /// The walk from `m` first lands in `[0, range)` at step `k`.
    pub open spec fn first_hit(self, m: nat, k: nat) -> bool {
        &&& k >= 1
        &&& self.orbit(m, k) < self.range
        &&& forall|t: nat| 1 <= t < k ==> self.orbit(m, t) >= self.range
    }

    /// The cycle walk from `m` ends at `r`: `r` is the first value of
    /// `encrypt(m), encrypt(encrypt(m)), ...` that lies below `range`.
    pub open spec fn walk_ends_at(self, m: nat, r: nat) -> bool {
        exists|k: nat| self.first_hit(m, k) && self.orbit(m, k) == r
    }

    /// The domain fits in 64 bits.
    pub proof fn lemma_domain_fits_u64(self)
        requires
            self.wf(),
        ensures
            self.domain_size() <= 0x1_0000_0000_0000_0000,
    {
        lemma2_to64_rest();
        if self.a_bits + self.b_bits < 64 {
            lemma_pow2_strictly_increases(self.a_bits + self.b_bits, 64);
        }
    }

    /// The halves after `j` rounds stay within their widths.
    pub proof fn lemma_feistel_widths(self, m: nat, j: nat)
        requires
            self.wf(),
            m < self.domain_size(),
        ensures
            self.feistel(m, j).0 < pow2(self.half_bits(j + 1)),
            self.feistel(m, j).1 < pow2(self.half_bits(j)),
        decreases j,
    {
        lemma_pow2_pos(self.a_bits);
        lemma_pow2_pos(self.b_bits);
        if j == 0 {
            lemma_pow2_adds(self.a_bits, self.b_bits);
            lemma_fundamental_div_mod(m as int, self.a_size() as int);
            assert(m / self.a_size() < self.b_size()) by (nonlinear_arith)
                requires
                    m < self.b_size() * self.a_size(),
                    self.a_size() > 0,
                    m == self.a_size() * (m / self.a_size()) + m % self.a_size(),
                    m % self.a_size() >= 0,
            ;
        } else {
            self.lemma_feistel_widths(m, (j - 1) as nat);
            lemma_pow2_pos(self.half_bits(j));
        }
    }

    /// Distinct inputs of the domain have distinct halves after any number of
    /// rounds: each round can be undone from its output.
    pub proof fn lemma_feistel_injective(self, m1: nat, m2: nat, j: nat)
        requires
            self.wf(),
            m1 < self.domain_size(),
            m2 < self.domain_size(),
            self.feistel(m1, j) == self.feistel(m2, j),
        ensures
            m1 == m2,
        decreases j,
    {
        lemma_pow2_pos(self.a_bits);
        if j == 0 {
            lemma_fundamental_div_mod(m1 as int, self.a_size() as int);
            lemma_fundamental_div_mod(m2 as int, self.a_size() as int);
        } else {
            let (l1, r1) = self.feistel(m1, (j - 1) as nat);
            let (l2, r2) = self.feistel(m2, (j - 1) as nat);
            self.lemma_feistel_widths(m1, (j - 1) as nat);
            self.lemma_feistel_widths(m2, (j - 1) as nat);
            lemma_add_mod_cancel(
                l1 as int,
                l2 as int,
                round_value(self.seed, j as u64, r1 as u64) as int,
                pow2(self.half_bits(j)) as int,
            );
            self.lemma_feistel_injective(m1, m2, (j - 1) as nat);
        }
    }

    /// The Feistel network maps the domain into itself.
    pub proof fn lemma_encrypt_in_domain(self, m: nat)
        requires
            self.wf(),
            m < self.domain_size(),
        ensures
            self.encrypt(m) < self.domain_size(),
    {
        self.lemma_feistel_widths(m, self.rounds);
        lemma_pow2_adds(self.a_bits, self.b_bits);
        lemma_pow2_pos(self.a_bits);
        let (l, r) = self.feistel(m, self.rounds);
        let a = self.a_size();
        let b = self.b_size();
        if self.rounds % 2 == 1 {
            assert(l * a + r < a * b) by (nonlinear_arith)
                requires l < b, r < a,
            ;
        } else {
            assert(r * a + l < a * b) by (nonlinear_arith)
                requires r < b, l < a,
            ;
        }
    }

    /// The Feistel network is injective on the domain.
    pub proof fn lemma_encrypt_injective(self, m1: nat, m2: nat)
        requires
            self.wf(),
            m1 < self.domain_size(),
            m2 < self.domain_size(),
            self.encrypt(m1) == self.encrypt(m2),
        ensures
            m1 == m2,
    {
        self.lemma_feistel_widths(m1, self.rounds);
        self.lemma_feistel_widths(m2, self.rounds);
        lemma_pow2_pos(self.a_bits);
        let (l1, r1) = self.feistel(m1, self.rounds);
        let (l2, r2) = self.feistel(m2, self.rounds);
        let a = self.a_size() as int;
        if self.rounds % 2 == 1 {
            lemma_fundamental_div_mod_converse(self.encrypt(m1) as int, a, l1 as int, r1 as int);
            lemma_fundamental_div_mod_converse(self.encrypt(m2) as int, a, l2 as int, r2 as int);
        } else {
            lemma_fundamental_div_mod_converse(self.encrypt(m1) as int, a, r1 as int, l1 as int);
            lemma_fundamental_div_mod_converse(self.encrypt(m2) as int, a, r2 as int, l2 as int);
        }
        self.lemma_feistel_injective(m1, m2, self.rounds);
    }
}

} // verus!
