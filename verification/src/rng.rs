//! Seeded pseudo-random numbers, shared by tests, the recall harness and
//! random filters.
//!
//! The stream is a function of the seed alone: the same seed means the same
//! numbers on every platform and in every release.

use vstd::prelude::*;
use vstd::arithmetic::div_mod::*;
use crate::ieee;

verus! {

/// The increment of the state, an odd constant.
pub const GAMMA: u64 = 0x9E37_79B9_7F4A_7C15;

/// The state after one step.
pub open spec fn next_state(state: u64) -> u64 {
    state.wrapping_add(GAMMA)
}

/// What a state is scrambled to: the number that it stands for.
pub open spec fn scrambled(state: u64) -> u64 {
    let a = (state ^ (state >> 30)).wrapping_mul(0xBF58_476D_1CE4_E5B9);
    let b = (a ^ (a >> 27)).wrapping_mul(0x94D0_49BB_1331_11EB);
    b ^ (b >> 31)
}

/// The state after `n` steps.
pub open spec fn state_after(state: u64, n: nat) -> u64
    decreases n,
{
    if n == 0 {
        state
    } else {
        next_state(state_after(state, (n - 1) as nat))
    }
}

/// The `n`-th number (from 0) that the generator gives from a state.
pub open spec fn drawn(state: u64, n: nat) -> u64 {
    scrambled(state_after(state, n + 1))
}

/// The 53 high bits of a number.
pub open spec fn high_bits(n: u64) -> nat {
    (n / 2048) as nat
}

/// The greatest single-precision value below 1.
pub const BELOW_ONE_32: u32 = 0x3F7F_FFFF;

/// `r` is `n / 2^53` in single precision: the nearest value, or the greatest
/// one below 1 where the nearest is 1.
pub open spec fn uniform_32(n: nat, r: u32) -> bool {
    exists|x: u32| #[trigger]
        ieee::nearest_scaled(x, n, -53) && r == (if x < ieee::ONE_32 {
            x
        } else {
            BELOW_ONE_32
        })
}

/// Seed of the stream with the given index.
pub open spec fn derived_seed(seed: u64, index: u64) -> u64 {
    drawn(seed ^ index.wrapping_mul(GAMMA), 0)
}

/// SplitMix64: 64-bit state, full period.
#[derive(Clone, Debug)]
pub struct SplitMix64 {
    state: u64,
    /// Second half of the last pair of gaussians, served before drawing anew.
    cached_gaussian: Option<u64>,
}

impl SplitMix64 {
    /// The state that the next number comes from.
    pub closed spec fn state(&self) -> u64 {
        self.state
    }

    /// The gaussian kept for the next call that asks for one.
    pub closed spec fn cached(&self) -> Option<u64> {
        self.cached_gaussian
    }

    /// A generator that starts at `seed`.
    pub fn new(seed: u64) -> (r: Self)
        ensures
            r.state() == seed,
            r.cached() is None,
    {
        SplitMix64 { state: seed, cached_gaussian: None }
    }

    /// Derives an independent stream for an index (e.g. one per row), so that
    /// generation does not depend on the order in which rows are made.
    pub fn substream(seed: u64, index: u64) -> (r: Self)
        ensures
            r.state() == derived_seed(seed, index),
            r.cached() is None,
    {
        proof {
            reveal_with_fuel(state_after, 2);
        }
        let mut root: SplitMix64 = SplitMix64::new(seed ^ index.wrapping_mul(GAMMA));
        let derived: u64 = root.next_u64();
        SplitMix64::new(derived)
    }

    /// The next number.
    pub fn next_u64(&mut self) -> (r: u64)
        ensures
            final(self).state() == next_state(old(self).state()),
            final(self).cached() == old(self).cached(),
            r == scrambled(final(self).state()),
    {
        self.state = self.state.wrapping_add(GAMMA);
        let z: u64 = self.state;
        let a: u64 = (z ^ (z >> 30)).wrapping_mul(0xBF58_476D_1CE4_E5B9);
        let b: u64 = (a ^ (a >> 27)).wrapping_mul(0x94D0_49BB_1331_11EB);
        b ^ (b >> 31)
    }

    /// The 53 high bits of the next number.
    fn next_high_bits(&mut self) -> (r: u64)
        ensures
            final(self).state() == next_state(old(self).state()),
            final(self).cached() == old(self).cached(),
            r == high_bits(scrambled(final(self).state())),
            r < 0x20_0000_0000_0000,
    {
        self.next_u64() / 2048
    }

    /// Uniform in [0, 1) with 53-bit precision: the pattern of the next
    /// number's 53 high bits over `2^53`.
    pub fn next_f64(&mut self) -> (r: u64)
        ensures
            final(self).state() == next_state(old(self).state()),
            final(self).cached() == old(self).cached(),
            ieee::is_53bit_fraction(r, high_bits(scrambled(final(self).state()))),
            ieee::less_64(r, ieee::ONE_64),
    {
        let v: u64 = self.next_high_bits();
        let r: u64 = ieee::fraction_53(v);
        proof {
            ieee::lemma_fraction_below_one(r, v as nat);
        }
        r
    }

    /// Uniform in [0, 1) in single precision.
    pub fn next_f32(&mut self) -> (r: u32)
        ensures
            final(self).state() == next_state(old(self).state()),
            final(self).cached() == old(self).cached(),
            uniform_32(high_bits(scrambled(final(self).state())), r),
            r < ieee::ONE_32,
    {
        let v: u64 = self.next_high_bits();
        let x: u32 = ieee::encode_scaled(v, -53);
        assert(ieee::nearest_scaled(x, high_bits(scrambled(self.state())), -53));
        if x < ieee::ONE_32 {
            x
        } else {
            BELOW_ONE_32
        }
    }

    /// Uniform in [0, n) without modulo bias (multiply and shift); 0 for
    /// `n == 0`.
    pub fn next_range(&mut self, n: u64) -> (r: u64)
        ensures
            final(self).state() == next_state(old(self).state()),
            final(self).cached() == old(self).cached(),
            r == (scrambled(final(self).state()) * n) / 0x1_0000_0000_0000_0000,
            n > 0 ==> r < n,
    {
        let x: u64 = self.next_u64();
        let wide: u128 = x as u128;
        let bound: u128 = n as u128;
        assert(wide * bound <= 0xFFFF_FFFF_FFFF_FFFF * bound) by (nonlinear_arith)
            requires
                wide <= 0xFFFF_FFFF_FFFF_FFFF,
                bound >= 0,
        ;
        let p: u128 = wide * bound;
        (p / 0x1_0000_0000_0000_0000) as u64
    }

    /// Standard normal by pairs: `box_muller` turns a uniform pair, the first
    /// in (0, 1] and the second in [0, 1), into two gaussians. The first is
    /// returned and the second kept, so consecutive calls consume one uniform
    /// pair per two gaussians.
    pub fn next_gaussian<F: Fn(u64, u64) -> (u64, u64)>(&mut self, box_muller: &F) -> (r: u64)
        requires
            forall|u1: u64, u2: u64| call_requires(*box_muller, (u1, u2)),
        ensures
            old(self).cached() matches Some(g) ==> {
                &&& r == g
                &&& final(self).cached() is None
                &&& final(self).state() == old(self).state()
            },
            old(self).cached() is None ==> {
                &&& final(self).state() == state_after(old(self).state(), 2)
                &&& final(self).cached() is Some
                &&& gaussian_pair(*box_muller, old(self).state(), r, final(self).cached()->0)
            },
    {
        match self.cached_gaussian {
            Some(g) => {
                self.cached_gaussian = None;
                g
            },
            None => {
                let ghost start = self.state();
                proof {
                    reveal_with_fuel(state_after, 3);
                }
                let v1: u64 = self.next_high_bits();
                let v2: u64 = self.next_high_bits();
                let u1: u64 = ieee::fraction_53(0x20_0000_0000_0000 - v1);
                let u2: u64 = ieee::fraction_53(v2);
                let pair: (u64, u64) = box_muller(u1, u2);
                self.cached_gaussian = Some(pair.1);
                assert(gaussian_pair(*box_muller, start, pair.0, pair.1));
                pair.0
            },
        }
    }
}

/// `first` and `second` are what `box_muller` gives for the two uniform
/// numbers drawn from `state`, the first of them turned round to lie in (0, 1].
pub open spec fn gaussian_pair<F: Fn(u64, u64) -> (u64, u64)>(
    box_muller: F,
    state: u64,
    first: u64,
    second: u64,
) -> bool {
    exists|u1: u64, u2: u64|
        {
            &&& ieee::is_53bit_fraction(u1, (0x20_0000_0000_0000 - high_bits(drawn(state, 0))) as nat)
            &&& ieee::is_53bit_fraction(u2, high_bits(drawn(state, 1)))
            &&& #[trigger] call_ensures(box_muller, (u1, u2), (first, second))
        }
}

/// The uniform pattern that comes from a state is determined by the state.
pub proof fn law_uniform_is_determined(state: u64, a: u64, b: u64)
    requires
        ieee::is_53bit_fraction(a, high_bits(scrambled(next_state(state)))),
        ieee::is_53bit_fraction(b, high_bits(scrambled(next_state(state)))),
    ensures
        a == b,
{
    ieee::lemma_fraction_unique(a, b, high_bits(scrambled(next_state(state))));
}

/// So is the single-precision one.
pub proof fn law_uniform_32_is_determined(n: nat, a: u32, b: u32)
    requires
        uniform_32(n, a),
        uniform_32(n, b),
    ensures
        a == b,
        a < ieee::ONE_32,
{
    let x = choose|x: u32| #[trigger]
        ieee::nearest_scaled(x, n, -53) && a == (if x < ieee::ONE_32 {
            x
        } else {
            BELOW_ONE_32
        });
    let y = choose|y: u32| #[trigger]
        ieee::nearest_scaled(y, n, -53) && b == (if y < ieee::ONE_32 {
            y
        } else {
            BELOW_ONE_32
        });
    ieee::lemma_steps_injective(x, y);
}

/// Multiplying by a number that has an inverse keeps numbers apart.
proof fn lemma_factor_keeps_apart(a: u64, b: u64, factor: u64, inverse: u64, turns: nat)
    requires
        factor * inverse == 1 + turns * 0x1_0000_0000_0000_0000,
        a.wrapping_mul(factor) == b.wrapping_mul(factor),
    ensures
        a == b,
{
    let m: int = 0x1_0000_0000_0000_0000;
    let (x, y) = (a * factor, b * factor);
    assert(x % m == y % m);
    lemma_mul_mod_noop_left(x, inverse as int, m);
    lemma_mul_mod_noop_left(y, inverse as int, m);
    lemma_inverse(a as int, factor as int, inverse as int, turns as int, m);
    lemma_inverse(b as int, factor as int, inverse as int, turns as int, m);
    lemma_small_mod(a as nat, m as nat);
    lemma_small_mod(b as nat, m as nat);
}

proof fn lemma_inverse(a: int, factor: int, inverse: int, turns: int, m: int)
    requires
        m > 0,
        factor * inverse == 1 + turns * m,
    ensures
        (a * factor * inverse) % m == a % m,
{
    assert(a * factor * inverse == m * (a * turns) + a) by (nonlinear_arith)
        requires
            factor * inverse == 1 + turns * m,
    ;
    lemma_mod_multiples_vanish(a * turns, a, m);
}

/// Different states stand for different numbers.
pub proof fn law_scrambling_keeps_apart(a: u64, b: u64)
    requires
        a != b,
    ensures
        scrambled(a) != scrambled(b),
        scrambled(next_state(a)) != scrambled(next_state(b)),
{
    let (x, y) = (next_state(a), next_state(b));
    assert(x != y);
    if scrambled(a) == scrambled(b) {
        lemma_scrambled_injective(a, b);
    }
    if scrambled(x) == scrambled(y) {
        lemma_scrambled_injective(x, y);
    }
}

proof fn lemma_scrambled_injective(s: u64, t: u64)
    requires
        scrambled(s) == scrambled(t),
    ensures
        s == t,
{
    let (p, q) = (s ^ (s >> 30), t ^ (t >> 30));
    let (a, c) = (p.wrapping_mul(0xBF58_476D_1CE4_E5B9), q.wrapping_mul(0xBF58_476D_1CE4_E5B9));
    let (u, v) = (a ^ (a >> 27), c ^ (c >> 27));
    let (b, d) = (u.wrapping_mul(0x94D0_49BB_1331_11EB), v.wrapping_mul(0x94D0_49BB_1331_11EB));
    assert(b == d) by (bit_vector)
        requires
            b ^ (b >> 31) == d ^ (d >> 31),
    ;
    assert(0x94D0_49BB_1331_11EB * 0x3196_42B2_D24D_8EC3 == 1 + 0x1CD3_36ED_A85F_1453
        * 0x1_0000_0000_0000_0000);
    lemma_factor_keeps_apart(
        u,
        v,
        0x94D0_49BB_1331_11EB,
        0x3196_42B2_D24D_8EC3,
        0x1CD3_36ED_A85F_1453,
    );
    assert(a == c) by (bit_vector)
        requires
            a ^ (a >> 27) == c ^ (c >> 27),
    ;
    assert(0xBF58_476D_1CE4_E5B9 * 0x96DE_1B17_3F11_9089 == 1 + 0x70C3_BCA7_8F27_F46C
        * 0x1_0000_0000_0000_0000);
    lemma_factor_keeps_apart(
        p,
        q,
        0xBF58_476D_1CE4_E5B9,
        0x96DE_1B17_3F11_9089,
        0x70C3_BCA7_8F27_F46C,
    );
    assert(s == t) by (bit_vector)
        requires
            s ^ (s >> 30) == t ^ (t >> 30),
    ;
}

/// The stream of an index depends on the seed: different seeds start it at
/// different states.
pub proof fn law_seeds_give_different_streams(a: u64, b: u64, index: u64)
    requires
        a != b,
    ensures
        derived_seed(a, index) != derived_seed(b, index),
{
    reveal_with_fuel(state_after, 2);
    let x = index.wrapping_mul(GAMMA);
    assert(a ^ x != b ^ x) by (bit_vector)
        requires
            a != b,
    ;
    law_scrambling_keeps_apart(a ^ x, b ^ x);
}

/// Under one seed, different indices have different streams.
pub proof fn law_indices_give_different_streams(seed: u64, i: u64, j: u64)
    requires
        i != j,
    ensures
        derived_seed(seed, i) != derived_seed(seed, j),
{
    reveal_with_fuel(state_after, 2);
    let (x, y) = (i.wrapping_mul(GAMMA), j.wrapping_mul(GAMMA));
    assert(0x9E37_79B9_7F4A_7C15 * 0xF1DE_83E1_9937_733D == 1 + 0x957B_BF35_006E_D677
        * 0x1_0000_0000_0000_0000);
    if x == y {
        lemma_factor_keeps_apart(
            i,
            j,
            GAMMA,
            0xF1DE_83E1_9937_733D,
            0x957B_BF35_006E_D677,
        );
    }
    assert(seed ^ x != seed ^ y) by (bit_vector)
        requires
            x != y,
    ;
    law_scrambling_keeps_apart(seed ^ x, seed ^ y);
}

/// The streams that are derived are those: under different seeds, and under
/// different indices, they start apart and their first numbers differ; the
/// same seed and index give the same stream.
pub proof fn law_derived_streams(
    a: u64,
    i: u64,
    b: u64,
    j: u64,
    r: SplitMix64,
    s: SplitMix64,
)
    requires
        call_ensures(SplitMix64::substream, (a, i), r),
        call_ensures(SplitMix64::substream, (b, j), s),
    ensures
        r.cached() is None,
        a == b && i == j ==> r.state() == s.state(),
        a != b && i == j ==> r.state() != s.state() && drawn(r.state(), 0) != drawn(s.state(), 0),
        a == b && i != j ==> r.state() != s.state() && drawn(r.state(), 0) != drawn(s.state(), 0),
{
    if a != b && i == j {
        law_seeds_give_different_streams(a, b, i);
    }
    if a == b && i != j {
        law_indices_give_different_streams(a, i, j);
    }
    if r.state() != s.state() {
        reveal_with_fuel(state_after, 2);
        law_scrambling_keeps_apart(r.state(), s.state());
    }
}

/// A generator starts at its seed, with no gaussian kept.
pub proof fn law_seed_is_the_state(seed: u64, r: SplitMix64)
    requires
        call_ensures(SplitMix64::new, (seed,), r),
    ensures
        r.state() == seed,
        r.cached() is None,
{
}

/// The state goes round by the increment.
proof fn lemma_state_after(state: u64, n: nat)
    ensures
        state_after(state, n) == (state + n * GAMMA) % 0x1_0000_0000_0000_0000,
    decreases n,
{
    let m: int = 0x1_0000_0000_0000_0000;
    if n == 0 {
        lemma_small_mod(state as nat, m as nat);
    } else {
        lemma_state_after(state, (n - 1) as nat);
        let x = state + (n - 1) * GAMMA;
        let s = state_after(state, (n - 1) as nat);
        assert(x + GAMMA == state + n * GAMMA) by (nonlinear_arith)
            requires
                x == state + (n - 1) * GAMMA,
        ;
        lemma_add_mod_noop(x, GAMMA as int, m);
        lemma_small_mod(GAMMA as nat, m as nat);
        assert((s + GAMMA) % m == (x + GAMMA) % m);
        if s + GAMMA >= m {
            lemma_mod_multiples_vanish(-1, s + GAMMA, m);
            lemma_small_mod((s + GAMMA - m) as nat, m as nat);
        } else {
            lemma_small_mod((s + GAMMA) as nat, m as nat);
        }
    }
}

/// A stream does not repeat a number within `2^64` draws.
pub proof fn law_numbers_do_not_repeat(seed: u64, i: u64, j: u64)
    requires
        i != j,
    ensures
        drawn(seed, i as nat) != drawn(seed, j as nat),
{
    let m: int = 0x1_0000_0000_0000_0000;
    lemma_state_after(seed, (i + 1) as nat);
    lemma_state_after(seed, (j + 1) as nat);
    if drawn(seed, i as nat) == drawn(seed, j as nat) {
        lemma_scrambled_injective(
            state_after(seed, (i + 1) as nat),
            state_after(seed, (j + 1) as nat),
        );
        let (x, y) = (i * GAMMA, j * GAMMA);
        assert(seed + (i + 1) * GAMMA == x + (seed + GAMMA) && seed + (j + 1) * GAMMA == y + (seed
            + GAMMA)) by (nonlinear_arith)
            requires
                x == i * GAMMA,
                y == j * GAMMA,
        ;
        let c = seed + GAMMA;
        lemma_mod_equivalence(x + c, y + c, m);
        lemma_mod_equivalence(x, y, m);
        assert(0x9E37_79B9_7F4A_7C15 * 0xF1DE_83E1_9937_733D == 1 + 0x957B_BF35_006E_D677
            * 0x1_0000_0000_0000_0000);
        lemma_factor_keeps_apart(
            i,
            j,
            GAMMA,
            0xF1DE_83E1_9937_733D,
            0x957B_BF35_006E_D677,
        );
    }
}

} // verus!
