//! Single-precision arithmetic as IEEE-754 defines it, on bit patterns: the
//! exact result, rounded to the nearest value, ties to even.
//!
//! The library takes its arithmetic from the caller. The predicates here say
//! that a caller's function is the sum, the product, the fused product and sum
//! or the quotient, and the laws on rounding errors ask for them.

use vstd::prelude::*;
use vstd::arithmetic::div_mod::*;
use vstd::arithmetic::mul::*;
use vstd::arithmetic::power2::*;
use crate::ieee;

verus! {

/// Whether the sign bit is set.
pub open spec fn negative(b: u32) -> bool {
    b >= ieee::SIGN_32
}

/// Whether the pattern is an infinity.
pub open spec fn is_infinite(b: u32) -> bool {
    ieee::magnitude(b) == ieee::INF_32
}

/// Whether the pattern is a zero.
pub open spec fn is_zero(b: u32) -> bool {
    ieee::magnitude(b) == 0
}

/// A finite value, counted in steps of `2^-149`.
pub open spec fn units(b: u32) -> int {
    if negative(b) {
        -(ieee::steps(b) as int)
    } else {
        ieee::steps(b) as int
    }
}

/// The absolute value.
pub open spec fn size(v: int) -> nat {
    if v < 0 {
        (-v) as nat
    } else {
        v as nat
    }
}

/// Steps from one value to the next around `p / q` steps.
pub open spec fn gap(p: nat, q: nat) -> nat {
    ieee::spacing(p / q)
}

/// `p / q` steps rounded to the nearest value, ties to even.
pub open spec fn rounded(p: nat, q: nat) -> nat {
    ieee::round_half_even(p, q * gap(p, q)) * gap(p, q)
}

/// `m` is the magnitude of `p / q` steps after rounding: infinite where the
/// rounded value is beyond the greatest finite one.
pub open spec fn rounds(m: u32, p: nat, q: nat) -> bool {
    if rounded(p, q) < pow2(277) {
        m < ieee::INF_32 && ieee::steps(m) == rounded(p, q)
    } else {
        m == ieee::INF_32
    }
}

/// `r` is `v / q` steps after rounding, with the sign of `v`.
pub open spec fn rounds_signed(r: u32, v: int, q: nat) -> bool {
    &&& rounds(ieee::magnitude(r), size(v), q)
    &&& v > 0 ==> !negative(r)
    &&& v < 0 ==> negative(r)
}

/// One in steps: the denominator that a product of two values in steps has.
pub open spec fn one() -> nat {
    pow2(149)
}

/// `r` is the sum of `x` and `y`. (The sign of a zero sum is left open.)
pub open spec fn sum_of(x: u32, y: u32, r: u32) -> bool {
    if ieee::is_nan(x) || ieee::is_nan(y) || (is_infinite(x) && is_infinite(y) && negative(x)
        != negative(y)) {
        ieee::is_nan(r)
    } else if is_infinite(x) {
        r == x
    } else if is_infinite(y) {
        r == y
    } else {
        rounds_signed(r, units(x) + units(y), 1)
    }
}

/// `r` is the product of `x` and `y`.
pub open spec fn product_of(x: u32, y: u32, r: u32) -> bool {
    if ieee::is_nan(x) || ieee::is_nan(y) || (is_infinite(x) && is_zero(y)) || (is_zero(x)
        && is_infinite(y)) {
        ieee::is_nan(r)
    } else {
        &&& negative(r) == (negative(x) != negative(y))
        &&& if is_infinite(x) || is_infinite(y) {
            is_infinite(r)
        } else {
            rounds(ieee::magnitude(r), ieee::steps(x) * ieee::steps(y), one())
        }
    }
}

/// `r` is the product of `x` and `y` plus `z`, rounded once. (Of operands that
/// are not finite it is only said that the result is not finite either.)
pub open spec fn fused_of(x: u32, y: u32, z: u32, r: u32) -> bool {
    if ieee::is_finite(x) && ieee::is_finite(y) && ieee::is_finite(z) {
        rounds_signed(r, units(x) * units(y) + units(z) * one(), one())
    } else {
        !ieee::is_finite(r)
    }
}

/// `r` is the quotient of `x` and `y`.
pub open spec fn quotient_of(x: u32, y: u32, r: u32) -> bool {
    if ieee::is_nan(x) || ieee::is_nan(y) || (is_infinite(x) && is_infinite(y)) || (is_zero(x)
        && is_zero(y)) {
        ieee::is_nan(r)
    } else {
        &&& negative(r) == (negative(x) != negative(y))
        &&& if is_infinite(x) || is_zero(y) {
            is_infinite(r)
        } else if is_infinite(y) {
            is_zero(r)
        } else {
            rounds(ieee::magnitude(r), ieee::steps(x) * one(), ieee::steps(y))
        }
    }
}

/// The function adds.
pub open spec fn is_sum<P: Fn(u32, u32) -> u32>(plus: P) -> bool {
    forall|x: u32, y: u32, r: u32| #[trigger] call_ensures(plus, (x, y), r) ==> sum_of(x, y, r)
}

/// The function multiplies.
pub open spec fn is_product<T: Fn(u32, u32) -> u32>(times: T) -> bool {
    forall|x: u32, y: u32, r: u32| #[trigger]
        call_ensures(times, (x, y), r) ==> product_of(x, y, r)
}

/// The function multiplies and adds with one rounding.
pub open spec fn is_fused<M: Fn(u32, u32, u32) -> u32>(fma: M) -> bool {
    forall|x: u32, y: u32, z: u32, r: u32| #[trigger]
        call_ensures(fma, (x, y, z), r) ==> fused_of(x, y, z, r)
}

/// The function divides.
pub open spec fn is_quotient<V: Fn(u32, u32) -> u32>(over: V) -> bool {
    forall|x: u32, y: u32, r: u32| #[trigger]
        call_ensures(over, (x, y), r) ==> quotient_of(x, y, r)
}

/// Rounding to an integer multiple errs by half of it at most.
proof fn lemma_half(p: nat, d: nat)
    requires
        d > 0,
    ensures
        2 * size(ieee::round_half_even(p, d) * d - p) <= d,
{
    lemma_fundamental_div_mod(p as int, d as int);
    let (k, r) = (p / d, p % d);
    assert(k * d == d * k && (k + 1) * d == d * k + d) by (nonlinear_arith);
}

/// The gap is positive, and at most `2^-23` of a value that has its full
/// precision.
proof fn lemma_gap(p: nat, q: nat)
    requires
        q > 0,
    ensures
        gap(p, q) > 0,
        p < 0x100_0000 * q ==> gap(p, q) == 1,
        p >= 0x80_0000 * q ==> 0x80_0000 * (q * gap(p, q)) <= p,
{
    let n = p / q;
    lemma_fundamental_div_mod(p as int, q as int);
    assert(q * n <= p < q * n + q);
    if n >= 0x100_0000 {
        assert(p >= 0x100_0000 * q) by (nonlinear_arith)
            requires
                q * n <= p,
                n >= 0x100_0000,
                q > 0,
        ;
        ieee::lemma_log_bounds(n);
        let e = ieee::floor_log2(n);
        lemma2_to64();
        if e < 24 {
            ieee::lemma_pow2_increases(e + 1, 24);
        }
        lemma_pow2_adds(23, (e - 23) as nat);
        lemma_pow2_pos((e - 23) as nat);
        let g = pow2((e - 23) as nat);
        assert(0x80_0000 * (q * g) <= p) by (nonlinear_arith)
            requires
                0x80_0000 * g <= n,
                q * n <= p,
                q > 0,
        ;
    } else {
        assert(p < 0x100_0000 * q) by (nonlinear_arith)
            requires
                p < q * n + q,
                n < 0x100_0000,
                q > 0,
        ;
        assert(q * 1 == q);
    }
}

/// How far rounding moves a value: by `2^-24` of it at most where it has its
/// full precision, by half a step where it has not.
pub proof fn lemma_rounding_error(p: nat, q: nat)
    requires
        q > 0,
    ensures
        p >= 0x80_0000 * q ==> 0x100_0000 * size(rounded(p, q) * q - p) <= p,
        p < 0x100_0000 * q ==> 2 * size(rounded(p, q) * q - p) <= q,
{
    lemma_gap(p, q);
    let g = gap(p, q);
    let d = q * g;
    assert(d > 0) by (nonlinear_arith)
        requires
            q > 0,
            g > 0,
            d == q * g,
    ;
    lemma_half(p, d);
    let k = ieee::round_half_even(p, d);
    assert(k * g * q == k * d) by (nonlinear_arith)
        requires
            d == q * g,
    ;
    assert(rounded(p, q) * q == k * d);
    assert(q * 1 == q);
}

/// A value at or above a power of two is a multiple of the gap there.
proof fn lemma_on_grid(b: u32, e: nat) -> (k: nat)
    requires
        ieee::is_finite(b),
        e >= 24,
        ieee::steps(b) >= pow2(e),
    ensures
        ieee::steps(b) == k * pow2((e - 23) as nat),
{
    lemma2_to64();
    ieee::lemma_pow2_increases(24, e);
    let m = ieee::magnitude(b);
    let field = m / 0x80_0000;
    let significand = (m % 0x80_0000 + 0x80_0000) as nat;
    assert(field > 0);
    let low = (field - 1) as nat;
    let p = pow2(low);
    lemma_pow2_pos(low);
    if low < e - 23 {
        ieee::lemma_pow2_increases(low, (e - 24) as nat);
        lemma_pow2_adds(24, (e - 24) as nat);
        assert(significand * p < pow2(e)) by (nonlinear_arith)
            requires
                significand < 0x100_0000,
                0 < p <= pow2((e - 24) as nat),
                pow2(e) == 0x100_0000 * pow2((e - 24) as nat),
        ;
    }
    let up = (low - (e - 23)) as nat;
    lemma_pow2_adds(up, (e - 23) as nat);
    let k = significand * pow2(up);
    assert(significand * p == k * pow2((e - 23) as nat)) by (nonlinear_arith)
        requires
            p == pow2(up) * pow2((e - 23) as nat),
            k == significand * pow2(up),
    ;
    k
}

/// A multiple of `d` is no nearer to `p` than the one that rounding takes.
proof fn lemma_nearest_multiple(p: nat, d: nat, k: nat)
    requires
        d > 0,
    ensures
        size(ieee::round_half_even(p, d) * d - p) <= size(k * d - p),
{
    lemma_half(p, d);
    let s = ieee::round_half_even(p, d);
    if k > s {
        assert(k * d >= s * d + d) by (nonlinear_arith)
            requires
                k >= s + 1,
                d > 0,
        ;
    } else if k < s {
        assert(s * d >= k * d + d) by (nonlinear_arith)
            requires
                s >= k + 1,
                d > 0,
        ;
    }
}

/// No finite value is nearer than the rounded one.
pub proof fn lemma_nearest(p: nat, q: nat, b: u32)
    requires
        q > 0,
        ieee::is_finite(b),
    ensures
        size(rounded(p, q) * q - p) <= size(ieee::steps(b) * q - p),
{
    let (n, y, g) = (p / q, ieee::steps(b), gap(p, q));
    lemma_gap(p, q);
    let d = q * g;
    assert(d > 0) by (nonlinear_arith)
        requires
            q > 0,
            g > 0,
            d == q * g,
    ;
    let s = ieee::round_half_even(p, d);
    assert(s * g * q == s * d) by (nonlinear_arith)
        requires
            d == q * g,
    ;
    lemma_fundamental_div_mod(p as int, q as int);
    if n < 0x100_0000 {
        assert(d == q) by (nonlinear_arith)
            requires
                d == q * g,
                g == 1,
        ;
        lemma_nearest_multiple(p, d, y);
    } else {
        lemma2_to64();
        ieee::lemma_log_bounds(n);
        let e = ieee::floor_log2(n);
        if e < 24 {
            ieee::lemma_pow2_increases(e + 1, 24);
        }
        lemma_pow2_adds(23, (e - 23) as nat);
        if y >= pow2(e) {
            let k = lemma_on_grid(b, e);
            lemma_nearest_multiple(p, d, k);
            assert(y * q == k * d) by (nonlinear_arith)
                requires
                    y == k * g,
                    d == q * g,
            ;
        } else {
            let floor: nat = 0x80_0000;
            lemma_nearest_multiple(p, d, floor);
            let f = pow2(e);
            assert(floor * d == f * q) by (nonlinear_arith)
                requires
                    f == floor * g,
                    d == q * g,
            ;
            assert(y * q <= f * q <= p) by (nonlinear_arith)
                requires
                    y <= f <= n,
                    q * n <= p,
                    q > 0,
            ;
        }
    }
}

/// A value that needs no rounding stays.
pub proof fn lemma_exact(b: u32, q: nat)
    requires
        q > 0,
        ieee::is_finite(b),
    ensures
        rounded(ieee::steps(b) * q, q) == ieee::steps(b),
{
    let y = ieee::steps(b);
    lemma_nearest(y * q, q, b);
    let s = rounded(y * q, q);
    assert(s == y) by (nonlinear_arith)
        requires
            s * q == y * q,
            q > 0,
    ;
}

/// Finite values are below `2^277` steps.
pub proof fn lemma_finite_bound(b: u32)
    requires
        ieee::is_finite(b),
    ensures
        ieee::steps(b) < pow2(277),
{
    lemma2_to64();
    let m = ieee::magnitude(b);
    let field = m / 0x80_0000;
    if field == 0 {
        ieee::lemma_pow2_increases(24, 277);
    } else {
        let p = pow2((field - 1) as nat);
        let significand = (m % 0x80_0000 + 0x80_0000) as nat;
        lemma_pow2_pos((field - 1) as nat);
        ieee::lemma_pow2_increases((field - 1) as nat, 253);
        lemma_pow2_adds(24, 253);
        assert(significand * p < pow2(277)) by (nonlinear_arith)
            requires
                significand < 0x100_0000,
                0 < p <= pow2(253),
                pow2(277) == 0x100_0000 * pow2(253),
        ;
    }
}

/// A value has one rounded magnitude.
pub proof fn lemma_rounds_unique(a: u32, b: u32, p: nat, q: nat)
    requires
        rounds(a, p, q),
        rounds(b, p, q),
    ensures
        a == b,
{
    if rounded(p, q) < pow2(277) {
        ieee::lemma_steps_injective(a, b);
    }
}

/// `1.0` is `2^149` steps.
pub proof fn lemma_one()
    ensures
        ieee::steps(ieee::ONE_32) == one(),
        ieee::steps(ieee::MINUS_ONE_32) == one(),
        one() == 0x80_0000 * pow2(126),
{
    lemma2_to64();
    lemma_pow2_adds(23, 126);
}

/// Every exact value has a rounded magnitude.
pub proof fn law_every_value_rounds(p: nat, q: nat) -> (m: u32)
    requires
        q > 0,
    ensures
        rounds(m, p, q),
{
    if rounded(p, q) >= pow2(277) {
        ieee::INF_32
    } else {
        let n = p / q;
        let g = gap(p, q);
        lemma_gap(p, q);
        let d = q * g;
        let k = ieee::round_half_even(p, d);
        lemma_fundamental_div_mod(p as int, q as int);
        if n < 0x100_0000 {
            assert(g == 1);
            assert(d == q) by (nonlinear_arith)
                requires
                    d == q * g,
                    g == 1,
            ;
            assert(k <= 0x100_0000);
            assert(rounded(p, q) == k) by (nonlinear_arith)
                requires
                    rounded(p, q) == k * g,
                    g == 1,
            ;
            let m = k as u32;
            if k >= 0x80_0000 {
                lemma2_to64();
                ieee::lemma_steps_of_parts(m, 1, k);
            }
            m
        } else {
            lemma2_to64();
            ieee::lemma_log_bounds(n);
            let e = ieee::floor_log2(n);
            if e < 24 {
                ieee::lemma_pow2_increases(e + 1, 24);
            }
            lemma_pow2_pos((e - 23) as nat);
            lemma_pow2_adds(23, (e - 23) as nat);
            lemma_pow2_adds(24, (e - 23) as nat);
            lemma_significand(p, q, n, g);
            let field = (e - 22) as nat;
            if field > 254 {
                lemma_pow2_adds(23, 254);
                ieee::lemma_pow2_increases(254, (e - 23) as nat);
                assert(k * g >= pow2(277)) by (nonlinear_arith)
                    requires
                        k >= 0x80_0000,
                        g >= pow2(254),
                        pow2(277) == 0x80_0000 * pow2(254),
                ;
            }
            if field == 254 && k == 0x100_0000 {
                lemma_pow2_adds(24, 253);
            }
            let m = ((field - 1) * 0x80_0000 + k) as u32;
            ieee::lemma_steps_of_parts(m, field, k);
            m
        }
    }
}

/// A value of full precision has a significand of 24 bits after rounding, or
/// the next power of two.
proof fn lemma_significand(p: nat, q: nat, n: nat, g: nat)
    requires
        q > 0,
        g > 0,
        q * n <= p < q * n + q,
        0x80_0000 * g <= n < 0x100_0000 * g,
    ensures
        0x80_0000 <= ieee::round_half_even(p, q * g) <= 0x100_0000,
{
    let d = q * g;
    assert(d > 0 && 0x80_0000 * d <= p < 0x100_0000 * d) by (nonlinear_arith)
        requires
            q > 0,
            g > 0,
            d == q * g,
            q * n <= p < q * n + q,
            0x80_0000 * g <= n,
            n + 1 <= 0x100_0000 * g,
    ;
    lemma_fundamental_div_mod(p as int, d as int);
    let k = p / d;
    assert(0x80_0000 <= k < 0x100_0000) by (nonlinear_arith)
        requires
            d > 0,
            0x80_0000 * d <= p < 0x100_0000 * d,
            d * k <= p < d * k + d,
    ;
}

} // verus!
