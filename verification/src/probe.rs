//! The probe sequence of the slot table.
//!
//! A lookup starts at an index derived from the key identity and advances by
//! triangular increments: at step `t` the probe stands on
//! `(start + tri(t)) % capacity`.  For a power-of-two capacity the first
//! `capacity` steps visit `capacity` pairwise distinct slots, so they visit
//! every slot; this is what makes a probe certain to reach an empty slot
//! while the directory is not full.

use vstd::arithmetic::div_mod::{
    lemma_add_mod_noop, lemma_fundamental_div_mod, lemma_fundamental_div_mod_converse_mod,
    lemma_mod_add_multiples_vanish, lemma_mod_division_less_than_divisor, lemma_mod_equivalence,
    lemma_mod_multiples_basic, lemma_small_mod, lemma_sub_mod_noop,
};
use vstd::arithmetic::power2::{lemma2_to64, lemma_pow2_adds, lemma_pow2_pos, pow2};
use vstd::prelude::*;
use vstd::set_lib::{lemma_int_range, lemma_len_subset, set_int_range};

verus! {

/// Multiplier of the start-index mixer, an odd 64-bit constant.
pub const HASH_MULTIPLIER: u64 = 0x9E37_79B9_7F4A_7C15;

/// What `get_hash_index` returns for a key identity.
pub open spec fn hash_spec(key: u64) -> u64 {
    key.wrapping_mul(HASH_MULTIPLIER)
}

/// Derives the start index of a probe sequence from a key identity by a
/// multiplicative mixer.  Any function of the key alone would preserve the
/// table's correctness; this one also spreads consecutive identities.
pub fn get_hash_index(key: u64) -> (r: u64)
    ensures
        r == hash_spec(key),
{
    key.wrapping_mul(HASH_MULTIPLIER)
}

/// The `t`-th triangular number: the distance walked after `t` increments.
pub open spec fn tri(t: nat) -> nat
    decreases t,
{
    if t == 0 {
        0
    } else {
        tri((t - 1) as nat) + t
    }
}

/// The slot visited at step `t` of the probe sequence that starts at `start`
/// in a directory of `cap` slots.
pub open spec fn probe_pos(start: nat, t: nat, cap: nat) -> nat
    recommends
        cap > 0,
{
    (start + tri(t)) % cap
}

/// Twice a triangular number has the closed form `t * (t + 1)`.
proof fn lemma_tri_doubled(t: nat)
    ensures
        2 * tri(t) == t * (t + 1),
    decreases t,
{
    if t == 0 {
        assert(tri(0) == 0);
        assert(t * (t + 1) == 0) by (nonlinear_arith)
            requires
                t == 0,
        ;
    } else {
        let u = (t - 1) as nat;
        lemma_tri_doubled(u);
        assert(2 * tri(t) == t * (t + 1)) by (nonlinear_arith)
            requires
                t >= 1,
                u == t - 1,
                tri(t) == tri(u) + t,
                2 * tri(u) == u * (u + 1),
        ;
    }
}

/// Triangular numbers grow strictly.
proof fn lemma_tri_increases(j: nat, i: nat)
    requires
        j < i,
    ensures
        tri(j) < tri(i),
    decreases i,
{
    if j < i - 1 {
        lemma_tri_increases(j, (i - 1) as nat);
    }
}

/// The product of two odd integers is odd.
proof fn lemma_odd_mul_odd(a: int, b: int)
    requires
        a % 2 == 1,
        b % 2 == 1,
    ensures
        (a * b) % 2 == 1,
{
    lemma_fundamental_div_mod(a, 2);
    lemma_fundamental_div_mod(b, 2);
    let p = a / 2;
    let q = b / 2;
    assert((2 * p + 1) * (2 * q + 1) == 2 * (2 * p * q + p + q) + 1) by (nonlinear_arith);
    lemma_fundamental_div_mod_converse_mod(a * b, 2, 2 * p * q + p + q, 1);
}

/// An odd factor can be cancelled from a multiple of a power of two: if
/// `2^k` divides `a * s` and `s` is odd, then `2^k` divides `a`.
proof fn lemma_pow2_odd_cancel(k: nat, a: int, s: int)
    requires
        a >= 0,
        s % 2 == 1,
        (a * s) % (pow2(k) as int) == 0,
    ensures
        a % (pow2(k) as int) == 0,
    decreases k,
{
    if k == 0 {
        assert(pow2(0) == 1) by {
            lemma2_to64();
        }
        lemma_small_mod(0, 1);
        lemma_fundamental_div_mod_converse_mod(a, 1, a, 0);
    } else {
        let m = pow2((k - 1) as nat) as int;
        lemma_pow2_pos((k - 1) as nat);
        lemma_pow2_adds(1, (k - 1) as nat);
        assert(pow2(1) == 2) by {
            lemma2_to64();
        }
        // a * s is a multiple of 2^k, hence even.
        let q = (a * s) / (2 * m);
        lemma_fundamental_div_mod(a * s, 2 * m);
        assert(a * s == (2 * m) * q);
        assert((2 * m) * q == 2 * (m * q)) by (nonlinear_arith);
        lemma_mod_multiples_basic(m * q, 2);
        assert((a * s) % 2 == 0);
        // So a itself is even, because s is odd.
        if a % 2 == 1 {
            lemma_odd_mul_odd(a, s);
        }
        assert(a % 2 == 0);
        lemma_fundamental_div_mod(a, 2);
        let h = a / 2;
        assert(a == 2 * h);
        // Cancel the factor 2 and recurse.
        assert((2 * h) * s == 2 * (h * s)) by (nonlinear_arith);
        assert(2 * (h * s) == 2 * (m * q));
        assert(h * s == m * q);
        lemma_fundamental_div_mod_converse_mod(h * s, m, q, 0);
        lemma_pow2_odd_cancel((k - 1) as nat, h, s);
        let r = h / m;
        lemma_fundamental_div_mod(h, m);
        assert(h == m * r);
        assert(2 * (m * r) == (2 * m) * r) by (nonlinear_arith);
        lemma_fundamental_div_mod_converse_mod(a, 2 * m, r, 0);
    }
}

/// Within the first `cap` steps, a probe sequence over a power-of-two
/// directory never visits a slot twice.
pub proof fn lemma_probe_distinct(k: nat, start: nat, i: nat, j: nat)
    requires
        j < i < pow2(k),
    ensures
        probe_pos(start, i, pow2(k)) != probe_pos(start, j, pow2(k)),
{
    let cap = pow2(k) as int;
    lemma_pow2_pos(k);
    if probe_pos(start, i, pow2(k)) == probe_pos(start, j, pow2(k)) {
        // Equal positions mean the triangular distances agree modulo cap.
        lemma_sub_mod_noop((start + tri(i)) as int, (start + tri(j)) as int, cap);
        lemma_mod_equivalence((start + tri(i)) as int, (start + tri(j)) as int, cap);
        assert((start + tri(i) - (start + tri(j))) % cap == 0);
        let diff: int = tri(i) - tri(j);
        assert(diff % cap == 0) by {
            assert(start + tri(i) - (start + tri(j)) == diff);
        }
        lemma_tri_increases(j, i);
        // Twice the difference factors as (i - j) * (i + j + 1).
        let d: int = i - j;
        let s: int = (i + j + 1) as int;
        lemma_tri_doubled(i);
        lemma_tri_doubled(j);
        assert(i * (i + 1) - j * (j + 1) == d * s) by (nonlinear_arith)
            requires
                d == i - j,
                s == i + j + 1,
        ;
        assert(2 * diff == d * s);
        // 2^(k+1) divides 2 * diff.
        let q = diff / cap;
        lemma_fundamental_div_mod(diff, cap);
        assert(diff == cap * q);
        assert(2 * (cap * q) == (2 * cap) * q) by (nonlinear_arith);
        lemma_fundamental_div_mod_converse_mod(2 * diff, 2 * cap, q, 0);
        lemma_pow2_adds(1, k);
        assert(pow2(1) == 2) by {
            lemma2_to64();
        }
        assert((d * s) % (pow2((k + 1) as nat) as int) == 0);
        // d + s is odd, so exactly one of d and s is odd.
        lemma_mod_division_less_than_divisor(d, 2);
        lemma_mod_division_less_than_divisor(s, 2);
        lemma_fundamental_div_mod(d, 2);
        lemma_fundamental_div_mod(s, 2);
        let odd: int = (2 * i + 1) as int;
        if d % 2 == 1 {
            // Then s is even; cancel the odd d from d * s.
            assert(d + s == odd);
            if s % 2 == 1 {
                assert(d + s == 2 * (d / 2) + 1 + 2 * (s / 2) + 1);
                lemma_fundamental_div_mod_converse_mod(odd, 2, d / 2 + s / 2 + 1, 0);
                lemma_fundamental_div_mod_converse_mod(odd, 2, i as int, 1);
                assert(false);
            }
            assert(d * s == s * d) by (nonlinear_arith);
            lemma_pow2_odd_cancel((k + 1) as nat, s, d);
            lemma_small_mod(s as nat, pow2((k + 1) as nat));
            assert(s < 2 * cap);
            assert(false);
        } else {
            // Then s is odd; cancel it from d * s.
            assert(d + s == odd);
            if s % 2 == 0 {
                lemma_fundamental_div_mod_converse_mod(odd, 2, d / 2 + s / 2, 0);
                lemma_fundamental_div_mod_converse_mod(odd, 2, i as int, 1);
                assert(false);
            }
            lemma_pow2_odd_cancel((k + 1) as nat, d, s);
            lemma_small_mod(d as nat, pow2((k + 1) as nat));
            assert(d < cap);
            assert(false);
        }
    }
}

/// The set of slots visited by the first `t` probe steps.
spec fn probe_image(start: nat, t: nat, cap: nat) -> Set<int>
    decreases t,
{
    if t == 0 {
        Set::empty()
    } else {
        probe_image(start, (t - 1) as nat, cap).insert(probe_pos(start, (t - 1) as nat, cap) as int)
    }
}

/// Every member of the probe image is a position visited at some step below `t`.
proof fn lemma_probe_image_member(start: nat, t: nat, cap: nat, p: int)
    requires
        probe_image(start, t, cap).contains(p),
    ensures
        exists|u: nat| u < t && probe_pos(start, u, cap) == p,
    decreases t,
{
    if t > 0 {
        let prev = (t - 1) as nat;
        if p == probe_pos(start, prev, cap) as int {
            assert(prev < t && probe_pos(start, prev, cap) == p);
        } else {
            lemma_probe_image_member(start, prev, cap, p);
        }
    }
}

/// The first `t <= cap` probe steps visit exactly `t` distinct slots.
proof fn lemma_probe_image_len(k: nat, start: nat, t: nat)
    requires
        t <= pow2(k),
    ensures
        probe_image(start, t, pow2(k)).finite(),
        probe_image(start, t, pow2(k)).len() == t,
        probe_image(start, t, pow2(k)).subset_of(set_int_range(0, pow2(k) as int)),
    decreases t,
{
    let cap = pow2(k);
    lemma_pow2_pos(k);
    if t > 0 {
        let prev = (t - 1) as nat;
        lemma_probe_image_len(k, start, prev);
        let p = probe_pos(start, prev, cap) as int;
        if probe_image(start, prev, cap).contains(p) {
            lemma_probe_image_member(start, prev, cap, p);
            let u = choose|u: nat| u < prev && probe_pos(start, u, cap) == p;
            lemma_probe_distinct(k, start, prev, u);
            assert(false);
        }
        lemma_mod_division_less_than_divisor((start + tri(prev)) as int, cap as int);
    }
}

/// Every slot of a power-of-two directory is visited within the first
/// `cap` probe steps, wherever the sequence starts.
pub proof fn lemma_probe_onto(k: nat, start: nat, p: nat)
    requires
        p < pow2(k),
    ensures
        exists|t: nat| t < pow2(k) && probe_pos(start, t, pow2(k)) == p,
{
    let cap = pow2(k);
    let image = probe_image(start, cap, cap);
    lemma_probe_image_len(k, start, cap);
    if !image.contains(p as int) {
        let smaller = set_int_range(0, cap as int).remove(p as int);
        lemma_int_range(0, cap as int);
        assert(image.subset_of(smaller));
        lemma_len_subset(image, smaller);
        assert(false);
    }
    lemma_probe_image_member(start, cap, cap, p as int);
}

/// One probe step forward: the position at step `t + 1` follows from the
/// position at step `t` by adding the step number and reducing.
pub proof fn lemma_probe_step(start: nat, t: nat, cap: nat)
    requires
        cap > 0,
        t + 1 <= cap,
    ensures
        probe_pos(start, t + 1, cap) == (probe_pos(start, t, cap) + t + 1) % cap,
{
    let x = (start + tri(t)) as int;
    let y = (t + 1) as int;
    let m = cap as int;
    lemma_add_mod_noop(x, y, m);
    if y < m {
        lemma_small_mod((t + 1) as nat, cap);
    } else {
        // The step number equals the capacity; adding it changes nothing.
        assert(y == m);
        lemma_mod_division_less_than_divisor(x, m);
        lemma_mod_add_multiples_vanish(x % m, m);
        lemma_small_mod((x % m) as nat, cap);
        assert(y % m == 0) by {
            lemma_mod_multiples_basic(1, m);
            assert(m * 1 == m) by (nonlinear_arith);
        }
    }
    assert(tri(t + 1) == tri(t) + t + 1);
}

/// The directory index a probe for `key` starts at.
pub open spec fn start_of(key: u64, cap: nat) -> nat
    recommends
        cap > 0,
{
    (hash_spec(key) as nat) % cap
}

/// A probe that starts inside the directory stays inside it.
pub proof fn lemma_probe_pos_bound(start: nat, t: nat, cap: nat)
    requires
        cap > 0,
    ensures
        probe_pos(start, t, cap) < cap,
{
    lemma_mod_division_less_than_divisor((start + tri(t)) as int, cap as int);
}

/// The probe state: how far a lookup has walked, and where it stands.
pub struct QuadraticProbe {
    /// Number of increments taken so far.
    pub iteration: usize,
    /// Current directory index, always below `modulus`.
    pub index: usize,
    /// Directory capacity.
    pub modulus: usize,
}

impl QuadraticProbe {
    /// The probe is mid-walk: its counters fit the directory it walks.
    pub open spec fn wf(&self) -> bool {
        &&& 0 < self.modulus
        &&& self.modulus <= usize::MAX / 2
        &&& self.index < self.modulus
        &&& self.iteration <= self.modulus
    }

    /// A fresh probe standing on the start slot.
    pub fn new(start: usize, modulus: usize) -> (r: QuadraticProbe)
        requires
            0 < modulus <= usize::MAX / 2,
        ensures
            r.wf(),
            r.iteration == 0,
            r.index == start as nat % modulus as nat,
            r.modulus == modulus,
    {
        proof {
            lemma_mod_division_less_than_divisor(start as int, modulus as int);
        }
        QuadraticProbe { iteration: 0, index: start % modulus, modulus }
    }

    /// The slot the probe currently stands on.
    pub fn get_index(&self) -> (r: usize)
        ensures
            r == self.index,
    {
        self.index
    }

    /// Advance one step: the increment grows by one each time, which walks
    /// the triangular probe sequence.
    pub fn increment(&mut self)
        requires
            old(self).wf(),
            old(self).iteration < old(self).modulus,
        ensures
            final(self).wf(),
            final(self).modulus == old(self).modulus,
            final(self).iteration == old(self).iteration + 1,
            final(self).index == (old(self).index + old(self).iteration
                + 1) as nat % old(self).modulus as nat,
    {
        self.iteration += 1;
        self.index = (self.index + self.iteration) % self.modulus;
        proof {
            lemma_mod_division_less_than_divisor(
                (old(self).index + old(self).iteration + 1) as int,
                self.modulus as int,
            );
        }
    }
}

} // verus!
