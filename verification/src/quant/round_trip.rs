//! How far a value moves when it is quantized and read back: by half a step
//! of the scale, up to rounding, for IEEE arithmetic.

use vstd::prelude::*;
use vstd::arithmetic::div_mod::*;
use vstd::arithmetic::power2::*;
use crate::ieee;
use crate::kernels;
use crate::quant::int8;
use crate::rounding::{self, size};

verus! {

/// Rounding `a * b` over `c * b` errs by `a / 2^24`, or by half of `c`.
proof fn lemma_scaled_error(a: nat, c: nat, b: nat, s: nat)
    requires
        b > 0,
        c > 0,
        s == rounding::rounded(a * b, c * b),
    ensures
        0x100_0000 * size(s * c - a) <= a || 2 * size(s * c - a) <= c,
{
    let (p, q) = (a * b, c * b);
    assert(q > 0) by (nonlinear_arith)
        requires
            b > 0,
            c > 0,
            q == c * b,
    ;
    rounding::lemma_rounding_error(p, q);
    let e = s * c - a;
    assert(s * q - p == e * b) by (nonlinear_arith)
        requires
            p == a * b,
            q == c * b,
            e == s * c - a,
    ;
    assert(size(e * b) == size(e) * b) by (nonlinear_arith)
        requires
            b > 0,
    ;
    let d = size(e);
    if p >= 0x80_0000 * q {
        assert(0x100_0000 * d <= a) by (nonlinear_arith)
            requires
                0x100_0000 * (d * b) <= a * b,
                b > 0,
        ;
    } else {
        assert(2 * d <= c) by (nonlinear_arith)
            requires
                2 * (d * b) <= c * b,
                b > 0,
        ;
    }
}

/// The code of a quotient: the rounded one, at most 127.
spec fn code_of(quotient: nat, b: nat) -> nat {
    let whole = (2 * quotient + b) / (2 * b);
    if whole > 127 {
        127
    } else {
        whole
    }
}

/// A value and its code times the scale lie half a scale apart, up to rounding.
proof fn lemma_code_near(x: nat, m: nat, s: nat, c: nat, l: nat, b: nat)
    requires
        l >= 128,
        b == 0x80_0000 * l,
        x <= m <= 2 * b,
        s == rounding::rounded(m * b, 127 * b),
        s > 0,
        c == code_of(rounding::rounded(x * b, s), b),
    ensures
        size(127 * s - m) <= l + 64,
        2 * size(c * s - x) <= s + 2 * l + 128,
{
    lemma_scaled_error(m, 127, b, s);
    assert(s * 127 == 127 * s);
    let r = rounding::rounded(x * b, s);
    rounding::lemma_rounding_error(x * b, s);
    let e = r * s - x * b;
    assert(0x100_0000 * size(e) <= x * b || 2 * size(e) <= s);
    let whole = (2 * r + b) / (2 * b);
    lemma_fundamental_div_mod((2 * r + b) as int, (2 * b) as int);
    let rest = (2 * r + b) % (2 * b);
    assert(0 <= rest < 2 * b);
    assert(2 * b * whole == 2 * (b * whole)) by (nonlinear_arith);
    assert(s <= b);
    if whole <= 127 {
        let t = b * whole - r;
        assert(2 * size(t) <= b);
        assert(b * (c * s - x) == t * s + e) by (nonlinear_arith)
            requires
                t == b * c - r,
                e == r * s - x * b,
        ;
        assert(2 * size(t * s) <= b * s) by (nonlinear_arith)
            requires
                2 * size(t) <= b,
                s >= 0,
        ;
        let d = c * s - x;
        // 2 b |d| <= b s + 2 |e|
        assert(size(b * d) == b * size(d)) by (nonlinear_arith)
            requires
                b >= 0,
        ;
        assert(size(t * s + e) <= size(t * s) + size(e));
        let near = size(d);
        assert(2 * (b * near) <= b * s + 2 * size(e));
        if 2 * size(e) <= s {
            assert(2 * near <= s + 1) by (nonlinear_arith)
                requires
                    2 * (b * near) <= b * s + s,
                    s <= b,
                    b > 0,
            ;
        } else {
            // 2 |e| <= x b / 2^23 <= 2 l b
            let f = size(e);
            assert(2 * f <= 2 * (l * b)) by (nonlinear_arith)
                requires
                    0x100_0000 * f <= x * b,
                    x <= 0x100_0000 * l,
                    b > 0,
            ;
            assert(2 * near <= s + 2 * l) by (nonlinear_arith)
                requires
                    2 * (b * near) <= b * s + 2 * (l * b),
                    b > 0,
            ;
        }
    } else {
        assert(c == 127);
        assert(b * whole >= b * 128) by (nonlinear_arith)
            requires
                whole >= 128,
        ;
        assert(2 * r >= 255 * b);
        assert(2 * (r * s) >= 255 * (b * s)) by (nonlinear_arith)
            requires
                2 * r >= 255 * b,
        ;
        assert(2 * (x * b) >= 255 * (b * s) - 2 * size(e));
        if 2 * size(e) <= s {
            assert(s <= b * s) by (nonlinear_arith)
                requires
                    b >= 1,
            ;
            assert(2 * x >= 254 * s) by (nonlinear_arith)
                requires
                    2 * (x * b) >= 255 * (b * s) - s,
                    s <= b * s,
                    b > 0,
            ;
        } else {
            let f = size(e);
            assert(2 * f <= 2 * (l * b)) by (nonlinear_arith)
                requires
                    0x100_0000 * f <= x * b,
                    x <= 0x100_0000 * l,
                    b > 0,
            ;
            assert(2 * x >= 255 * s - 2 * l) by (nonlinear_arith)
                requires
                    2 * (x * b) >= 255 * (b * s) - 2 * (l * b),
                    b > 0,
            ;
        }
    }
}

/// The code that a quotient's pattern rounds to, without its sign.
proof fn lemma_code_size(p: u32, quotient: nat)
    requires
        !ieee::is_nan(p),
        if quotient < pow2(277) {
            ieee::is_finite(p) && ieee::steps(p) == quotient
        } else {
            rounding::is_infinite(p)
        },
    ensures
        size(ieee::rounded_code(p)) == code_of(quotient, rounding::one()),
        ieee::rounded_code(p) < 0 ==> rounding::negative(p),
        ieee::rounded_code(p) > 0 ==> !rounding::negative(p),
{
    let b = rounding::one();
    lemma_pow2_pos(149);
    lemma_pow2_unfold(150);
    let whole = (2 * quotient + b) / (2 * b);
    lemma_div_pos_is_pos((2 * quotient + b) as int, (2 * b) as int);
    if quotient >= pow2(277) {
        lemma2_to64();
        lemma_pow2_adds(7, 150);
        ieee::lemma_pow2_increases(157, 277);
        lemma_div_is_ordered((128 * (2 * b)) as int, (2 * quotient + b) as int, (2 * b) as int);
        lemma_div_multiples_vanish(128, (2 * b) as int);
    }
}

/// The greatest magnitude bounds every element's.
proof fn lemma_greatest(src: Seq<u32>, m: u32, i: int)
    requires
        forall|j: int|
            0 <= j < src.len() ==> ieee::is_finite(#[trigger] src[j]) && ieee::steps(src[j]) <= 2
                * rounding::one(),
        int8::greatest_magnitude(src, m),
        0 <= i < src.len(),
    ensures
        m < ieee::INF_32,
        ieee::steps(src[i]) <= ieee::steps(m) <= 2 * rounding::one(),
{
    let x = ieee::magnitude(src[i]);
    assert(ieee::is_finite(src[i]));
    if m != 0 {
        let w = choose|w: int|
            0 <= w < src.len() && !ieee::is_nan(#[trigger] src[w]) && ieee::magnitude(src[w]) == m;
        assert(ieee::is_finite(src[w]));
        assert(ieee::steps(m) == ieee::steps(src[w]));
    }
    if x < m {
        ieee::lemma_steps_monotone(x, m);
    }
}

/// Values of this size are finite.
proof fn lemma_small(s: nat, l: nat)
    requires
        l == pow2(126),
        s <= 0x400_0000 * l,
    ensures
        s < pow2(277),
{
    lemma2_to64();
    lemma_pow2_adds(26, 126);
    lemma_pow2_strictly_increases(152, 277);
}

/// A code as a number is that many ones.
proof fn lemma_code_pattern(pattern: u32, code: i8, c: nat)
    requires
        ieee::nearest_int(pattern, code as int),
        c == size(code as int),
    ensures
        ieee::is_finite(pattern),
        ieee::steps(pattern) == c * rounding::one(),
        rounding::negative(pattern) == (code < 0),
{
    ieee::lemma_round_24_monotone(c, c);
}

/// What is read back of a value is half a scale away from it, and a millionth,
/// at most: for finite values up to 2 in magnitude, quantized with the scale of
/// their vector.
pub proof fn law_round_trip_within_half_step<V: Fn(u32, u32) -> u32, T: Fn(u32, u32) -> u32>(
    over: V,
    times: T,
    src: Seq<u32>,
    scale: u32,
    codes: Seq<i8>,
    i: int,
    out: u32,
)
    requires
        rounding::is_quotient(over),
        rounding::is_product(times),
        forall|j: int|
            0 <= j < src.len() ==> ieee::is_finite(#[trigger] src[j]) && ieee::steps(src[j]) <= 2
                * rounding::one(),
        int8::is_scale(over, src, scale),
        int8::quantized(over, src, scale, codes),
        0 <= i < src.len(),
        kernels::scaled_int(times, codes[i] as int, scale, out),
    ensures
        ieee::is_finite(scale),
        ieee::is_finite(out),
        1_000_000 * (2 * size(rounding::units(src[i]) - rounding::units(out))
            - rounding::units(scale)) <= 2 * rounding::one(),
{
    let m = choose|m: u32| #[trigger]
        int8::greatest_magnitude(src, m) && call_ensures(over, (m, ieee::MAX_CODE_32), scale);
    let (b, l) = (rounding::one(), pow2(126));
    lemma2_to64();
    rounding::lemma_one();
    ieee::lemma_pow2_increases(7, 126);
    lemma_pow2_pos(149);
    lemma_greatest(src, m, i);
    assert(ieee::steps(ieee::MAX_CODE_32) == 127 * b) by {
        lemma_pow2_adds(17, 132);
        assert(0xFE_0000 * pow2(132) == 127 * (0x2_0000 * pow2(132))) by (nonlinear_arith);
    }
    assert(rounding::quotient_of(m, ieee::MAX_CODE_32, scale));
    let (x, most) = (ieee::steps(src[i]), ieee::steps(m));
    let s = rounding::rounded(most * b, 127 * b);
    lemma_scaled_error(most, 127, b, s);
    lemma_small(s, l);
    assert(ieee::is_finite(scale) && ieee::steps(scale) == s && !rounding::negative(scale));
    let pattern = choose|y: u32| #[trigger]
        ieee::nearest_int(y, codes[i] as int) && call_ensures(times, (y, scale), out);
    let c = size(codes[i] as int);
    lemma_code_pattern(pattern, codes[i], c);
    assert(rounding::product_of(pattern, scale, out));
    if s > 0 {
        assert(ieee::steps(0) == 0);
        assert(int8::is_code(over, src[i], scale, codes[i]));
        let p = choose|p: u32| #[trigger]
            call_ensures(over, (src[i], scale), p) && codes[i] == ieee::rounded_code(p);
        assert(rounding::quotient_of(src[i], scale, p));
        assert(!rounding::is_zero(scale));
        lemma_code_size(p, rounding::rounded(x * b, s));
        lemma_code_near(x, most, s, c, l, b);
    } else {
        assert(!ieee::positive(scale)) by {
            if ieee::positive(scale) {
                ieee::lemma_steps_monotone(0, scale);
            }
        }
        assert(c == 0);
        assert(c * s == 0) by (nonlinear_arith)
            requires
                c == 0,
        ;
    }
    let o = rounding::rounded(c * b * s, b);
    assert(c * b * s == (c * s) * b) by (nonlinear_arith);
    assert(1 * b == b);
    lemma_scaled_error(c * s, 1, b, o);
    lemma_small(o, l);
    assert(ieee::is_finite(out) && ieee::steps(out) == o);
    if o > 0 {
        assert(c > 0) by {
            if c == 0 {
                assert(c * s == 0) by (nonlinear_arith)
                    requires
                        c == 0,
                ;
            }
        }
    }
}

} // verus!
