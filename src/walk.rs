//! Cycle walking: why repeated encryption from a point of `[0, range)` comes
//! back into `[0, range)`, and why the value it comes back to defines a
//! permutation of `[0, range)`.

use vstd::prelude::*;

verus! {

use vstd::relations::injective_on;
use vstd::set_lib::{set_int_range, lemma_int_range, lemma_map_size, lemma_len_subset};
use crate::model::PerfectRngView;

impl PerfectRngView {
    /// Walking stays inside the power-of-two domain.
    pub proof fn lemma_orbit_in_domain(self, m: nat, k: nat)
        requires
            self.wf(),
            m < self.domain_size(),
        ensures
            self.orbit(m, k) < self.domain_size(),
        decreases k,
    {
        if k > 0 {
            self.lemma_orbit_in_domain(m, (k - 1) as nat);
            self.lemma_encrypt_in_domain(self.orbit(m, (k - 1) as nat));
        }
    }

    /// Walking `a + b` steps is walking `a` steps, then `b` more.
    pub proof fn lemma_orbit_add(self, m: nat, a: nat, b: nat)
        ensures
            self.orbit(m, a + b) == self.orbit(self.orbit(m, a), b),
        decreases b,
    {
        if b > 0 {
            self.lemma_orbit_add(m, a, (b - 1) as nat);
            assert((a + b - 1) as nat == a + (b - 1) as nat);
        }
    }

    /// Two points of the domain that meet after the same number of steps are
    /// the same point.
    pub proof fn lemma_orbit_cancel(self, x: nat, y: nat, k: nat)
        requires
            self.wf(),
            x < self.domain_size(),
            y < self.domain_size(),
            self.orbit(x, k) == self.orbit(y, k),
        ensures
            x == y,
        decreases k,
    {
        if k > 0 {
            self.lemma_orbit_in_domain(x, (k - 1) as nat);
            self.lemma_orbit_in_domain(y, (k - 1) as nat);
            self.lemma_encrypt_injective(self.orbit(x, (k - 1) as nat), self.orbit(y, (k - 1) as nat));
            self.lemma_orbit_cancel(x, y, (k - 1) as nat);
        }
    }

    /// Every point of the domain lies on a cycle of at most `domain_size`
    /// steps.
    pub proof fn lemma_orbit_period(self, m: nat) -> (p: nat)
        requires
            self.wf(),
            m < self.domain_size(),
        ensures
            1 <= p <= self.domain_size(),
            self.orbit(m, p) == m,
    {
        let n = self.domain_size() as int;
        let steps = set_int_range(0, n + 1);
        let values = set_int_range(0, n);
        let walk = |t: int| self.orbit(m, t as nat) as int;
        lemma_int_range(0, n + 1);
        lemma_int_range(0, n);
        if injective_on(walk, steps) {
            lemma_map_size(steps, steps.map(walk), walk);
            assert forall|v: int| steps.map(walk).contains(v) implies values.contains(v) by {
                let t = choose|t: int| steps.contains(t) && walk(t) == v;
                self.lemma_orbit_in_domain(m, t as nat);
            }
            lemma_len_subset(steps.map(walk), values);
            assert(false);
        }
        let (t1, t2) = choose|t1: int, t2: int|
            steps.contains(t1) && steps.contains(t2) && walk(t1) == walk(t2) && t1 != t2;
        let (lo, hi) = if t1 < t2 { (t1 as nat, t2 as nat) } else { (t2 as nat, t1 as nat) };
        let p = (hi - lo) as nat;
        self.lemma_orbit_add(m, p, lo);
        assert(p + lo == hi);
        self.lemma_orbit_in_domain(m, p);
        self.lemma_orbit_cancel(self.orbit(m, p), m, lo);
        p
    }

    /// Searching forward from step `k` for the first step that lands in
    /// `[0, range)` succeeds before step `p` is passed, when step `p` lands
    /// there.
    proof fn lemma_first_hit_from(self, m: nat, k: nat, p: nat) -> (h: nat)
        requires
            1 <= k <= p,
            self.orbit(m, p) < self.range,
            forall|t: nat| 1 <= t < k ==> self.orbit(m, t) >= self.range,
        ensures
            k <= h <= p,
            self.first_hit(m, h),
        decreases p - k,
    {
        if self.orbit(m, k) < self.range {
            k
        } else {
            self.lemma_first_hit_from(m, k + 1, p)
        }
    }

    /// The walk from a point of `[0, range)` ends, within `domain_size` steps.
    pub proof fn lemma_walk_ends(self, m: nat) -> (k: nat)
        requires
            self.wf(),
            m < self.range,
        ensures
            k <= self.domain_size(),
            self.first_hit(m, k),
    {
        let p = self.lemma_orbit_period(m);
        self.lemma_first_hit_from(m, 1, p)
    }

    /// The walk from a point of `[0, range)` passes only through distinct
    /// points of `[range, domain_size)` before it lands, so it takes at most
    /// `domain_size - range + 1` steps.
    pub proof fn lemma_walk_cost(self, m: nat, k: nat)
        requires
            self.wf(),
            m < self.range,
            self.first_hit(m, k),
        ensures
            k <= self.domain_size() - self.range + 1,
    {
        let n = self.domain_size() as int;
        let steps = set_int_range(1, k as int);
        let outside = set_int_range(self.range as int, n);
        let walk = |t: int| self.orbit(m, t as nat) as int;
        lemma_int_range(1, k as int);
        lemma_int_range(self.range as int, n);
        assert forall|t1: int, t2: int|
            steps.contains(t1) && steps.contains(t2) && #[trigger] walk(t1) == #[trigger] walk(t2)
            implies t1 == t2 by {
            if t1 != t2 {
                let (lo, hi) = if t1 < t2 { (t1 as nat, t2 as nat) } else { (t2 as nat, t1 as nat) };
                let d = (hi - lo) as nat;
                self.lemma_orbit_add(m, d, lo);
                assert(d + lo == hi);
                self.lemma_orbit_in_domain(m, d);
                self.lemma_orbit_cancel(self.orbit(m, d), m, lo);
                assert(self.orbit(m, d) >= self.range);
            }
        }
        assert(injective_on(walk, steps));
        lemma_map_size(steps, steps.map(walk), walk);
        assert forall|v: int| steps.map(walk).contains(v) implies outside.contains(v) by {
            let t = choose|t: int| steps.contains(t) && walk(t) == v;
            self.lemma_orbit_in_domain(m, t as nat);
        }
        lemma_len_subset(steps.map(walk), outside);
    }

    /// The last step before `p` that lands in `[0, range)`, searching back
    /// from step `t`.
    proof fn lemma_last_hit_before(self, y: nat, t: nat, p: nat) -> (s: nat)
        requires
            t < p,
            y < self.range,
            forall|u: nat| t < u < p ==> self.orbit(y, u) >= self.range,
        ensures
            s <= t,
            self.orbit(y, s) < self.range,
            forall|u: nat| s < u < p ==> self.orbit(y, u) >= self.range,
        decreases t,
    {
        if self.orbit(y, t) < self.range {
            t
        } else {
            self.lemma_last_hit_before(y, (t - 1) as nat, p)
        }
    }

    /// A walk ends at one value only.
    pub proof fn lemma_walk_unique(self, m: nat, r1: nat, r2: nat)
        requires
            self.walk_ends_at(m, r1),
            self.walk_ends_at(m, r2),
        ensures
            r1 == r2,
    {
        let k1 = choose|k: nat| self.first_hit(m, k) && self.orbit(m, k) == r1;
        let k2 = choose|k: nat| self.first_hit(m, k) && self.orbit(m, k) == r2;
        assert(!(k1 < k2));
        assert(!(k2 < k1));
    }

    /// Walks from distinct points of `[0, range)` end at distinct values.
    pub proof fn lemma_walk_injective(self, i: nat, j: nat, ri: nat, rj: nat)
        requires
            self.wf(),
            i < self.range,
            j < self.range,
            i != j,
            self.walk_ends_at(i, ri),
            self.walk_ends_at(j, rj),
        ensures
            ri != rj,
    {
        if ri == rj {
            let ki = choose|k: nat| self.first_hit(i, k) && self.orbit(i, k) == ri;
            let kj = choose|k: nat| self.first_hit(j, k) && self.orbit(j, k) == rj;
            if ki <= kj {
                let d = (kj - ki) as nat;
                self.lemma_orbit_add(j, d, ki);
                assert(d + ki == kj);
                self.lemma_orbit_in_domain(j, d);
                self.lemma_orbit_cancel(self.orbit(j, d), i, ki);
                assert(d != 0);
                assert(self.orbit(j, d) >= self.range);
            } else {
                let d = (ki - kj) as nat;
                self.lemma_orbit_add(i, d, kj);
                assert(d + kj == ki);
                self.lemma_orbit_in_domain(i, d);
                self.lemma_orbit_cancel(self.orbit(i, d), j, kj);
                assert(self.orbit(i, d) >= self.range);
            }
        }
    }

    /// Every value of `[0, range)` ends the walk from some point of
    /// `[0, range)`.
    pub proof fn lemma_walk_surjective(self, y: nat) -> (m: nat)
        requires
            self.wf(),
            y < self.range,
        ensures
            m < self.range,
            self.walk_ends_at(m, y),
    {
        let p = self.lemma_orbit_period(y);
        let s = self.lemma_last_hit_before(y, (p - 1) as nat, p);
        let m = self.orbit(y, s);
        let k = (p - s) as nat;
        self.lemma_orbit_add(y, s, k);
        assert(s + k == p);
        assert forall|t: nat| 1 <= t < k implies self.orbit(m, t) >= self.range by {
            self.lemma_orbit_add(y, s, t);
        }
        assert(self.first_hit(m, k));
        m
    }
}

} // verus!
