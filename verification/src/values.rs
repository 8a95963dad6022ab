//! What the operations on bit patterns do to the values that the patterns
//! stand for: order, sign, conversion and rounding.

use vstd::prelude::*;
use vstd::arithmetic::div_mod::*;
use vstd::arithmetic::power2::*;
use crate::ieee;
use crate::rounding;
use crate::scan::hit::Hit;

verus! {

/// The key of the total order goes by the value, tells all patterns apart,
/// puts the negative zero before the positive one, and NaNs outside all
/// numbers on the side of their sign.
pub proof fn law_order_follows_value(a: u32, b: u32, first: u32, second: u32)
    requires
        call_ensures(ieee::total_key, (a,), first),
        call_ensures(ieee::total_key, (b,), second),
    ensures
        first == second <==> a == b,
        ieee::is_finite(a) && ieee::is_finite(b) && rounding::units(a) < rounding::units(b)
            ==> first < second,
        rounding::is_zero(a) && rounding::is_zero(b) && rounding::negative(a)
            && !rounding::negative(b) ==> first < second,
        ieee::is_finite(a) && rounding::is_infinite(b) ==> (first < second
            <==> !rounding::negative(b)),
        ieee::is_nan(a) && !ieee::is_nan(b) ==> (first > second <==> !rounding::negative(a)),
{
    if ieee::is_finite(a) && ieee::is_finite(b) && rounding::units(a) < rounding::units(b) {
        let (x, y) = (ieee::magnitude(a), ieee::magnitude(b));
        if !rounding::negative(a) && !rounding::negative(b) && b < a {
            ieee::lemma_steps_monotone(b, a);
        }
        if rounding::negative(a) && rounding::negative(b) && x < y {
            ieee::lemma_steps_monotone(x, y);
        }
    }
}

/// A hit is better than another where its score is the greater value, and at
/// the same score where its id is lower.
pub proof fn law_better_hit(a: &Hit, b: &Hit, r: bool)
    requires
        call_ensures(Hit::is_better, (a, b), r),
    ensures
        a.score == b.score ==> (r <==> a.id < b.id),
        ieee::is_finite(a.score) && ieee::is_finite(b.score) ==> {
            &&& rounding::units(a.score) > rounding::units(b.score) ==> r
            &&& rounding::units(a.score) < rounding::units(b.score) ==> !r
        },
{
    if ieee::is_finite(a.score) && ieee::is_finite(b.score) {
        let (x, y) = (ieee::magnitude(a.score), ieee::magnitude(b.score));
        if x < y {
            ieee::lemma_steps_monotone(x, y);
        }
        if y < x {
            ieee::lemma_steps_monotone(y, x);
        }
    }
}

/// Negating turns the value round and nothing else; doing it twice undoes it.
pub proof fn law_negated_value(b: u32, r: u32)
    requires
        call_ensures(ieee::negate, (b,), r),
    ensures
        rounding::units(r) == -rounding::units(b),
        rounding::negative(r) != rounding::negative(b),
        ieee::is_nan(r) == ieee::is_nan(b),
        ieee::is_finite(r) == ieee::is_finite(b),
        forall|again: u32| #[trigger] call_ensures(ieee::negate, (r,), again) ==> again == b,
{
    assert(ieee::magnitude(r) == ieee::magnitude(b));
}

/// The absolute value has no sign and is the value or its negation.
pub proof fn law_absolute_value(b: u32, r: u32)
    requires
        call_ensures(ieee::abs, (b,), r),
    ensures
        !rounding::negative(r),
        rounding::units(r) >= 0,
        rounding::units(r) == rounding::units(b) || rounding::units(r) == -rounding::units(b),
        !rounding::negative(b) ==> r == b,
        ieee::is_nan(r) == ieee::is_nan(b),
        ieee::is_finite(r) == ieee::is_finite(b),
{
    assert(ieee::magnitude(r) == ieee::magnitude(b));
}

/// Positive are the values above zero and the positive infinity.
pub proof fn law_positive_value(b: u32, r: bool)
    requires
        call_ensures(ieee::is_positive, (b,), r),
    ensures
        ieee::is_finite(b) ==> (r <==> rounding::units(b) > 0),
        ieee::is_nan(b) ==> !r,
        rounding::is_infinite(b) ==> (r <==> !rounding::negative(b)),
{
    if ieee::is_finite(b) {
        if !rounding::negative(b) && b > 0 {
            ieee::lemma_steps_monotone(0, b);
        }
    }
}

/// `a < b` in double precision is the order of the values; a NaN is neither
/// below nor above anything.
pub proof fn law_less_goes_by_value(a: u64, b: u64, r: bool)
    requires
        call_ensures(ieee::is_less_64, (a, b), r),
    ensures
        ieee::is_nan_64(a) || ieee::is_nan_64(b) ==> !r,
        a % ieee::SIGN_64 < ieee::INF_64 && b % ieee::SIGN_64 < ieee::INF_64 ==> (r <==> units_64(a)
            < units_64(b)),
{
    let (x, y) = ((a % ieee::SIGN_64) as u64, (b % ieee::SIGN_64) as u64);
    if x < ieee::INF_64 && y < ieee::INF_64 {
        assert(ieee::steps_64(a) == ieee::steps_64(x)) by {
            lemma_fraction_of(a);
        }
        assert(ieee::steps_64(b) == ieee::steps_64(y)) by {
            lemma_fraction_of(b);
        }
        if x < y {
            ieee::lemma_steps_64_monotone(x, y);
        }
        if y < x {
            ieee::lemma_steps_64_monotone(y, x);
        }
        if x > 0 {
            ieee::lemma_steps_64_monotone(0, x);
        }
        if y > 0 {
            ieee::lemma_steps_64_monotone(0, y);
        }
        assert(ieee::steps_64(0) == 0);
    }
}

/// A finite double-precision value, counted in steps of `2^-1074`.
pub open spec fn units_64(b: u64) -> int {
    if b >= ieee::SIGN_64 {
        -(ieee::steps_64(b) as int)
    } else {
        ieee::steps_64(b) as int
    }
}

proof fn lemma_fraction_of(a: u64)
    ensures
        a % 0x10_0000_0000_0000 == a % ieee::SIGN_64 % 0x10_0000_0000_0000,
        a % ieee::SIGN_64 % ieee::SIGN_64 == a % ieee::SIGN_64,
{
}

proof fn lemma_conversion_error(m: nat)
    ensures
        0x100_0000 * rounding::size(ieee::round_24(m) * pow2(149) - m * pow2(149)) <= m * pow2(149),
{
    ieee::lemma_round_24_monotone(m, m);
    rounding::lemma_rounding_error(m, 1);
    assert(m / 1 == m);
    assert(rounding::rounded(m, 1) == ieee::round_24(m));
    lemma_pow2_pos(149);
    let (x, y, one) = (ieee::round_24(m) as int, m as int, pow2(149) as int);
    let d = rounding::size(x - y) as int;
    assert(0x100_0000 * d <= y);
    assert(x * one - y * one == (x - y) * one) by (nonlinear_arith);
    assert((x - y) * one == if x < y { -(d * one) } else { d * one }) by (nonlinear_arith)
        requires
            d == (if x < y {
                y - x
            } else {
                x - y
            }),
    ;
    assert(0 <= d * one && 0x100_0000 * (d * one) <= y * one) by (nonlinear_arith)
        requires
            0 <= d,
            0x100_0000 * d <= y,
            one > 0,
    ;
}

/// The nearest value to an integer: exact up to 24 bits, within a part in
/// `2^24` beyond, and of the integer's sign.
pub proof fn law_integer_as_value(n: i32, r: u32)
    requires
        call_ensures(ieee::from_i32, (n,), r),
    ensures
        ieee::is_finite(r),
        rounding::negative(r) <==> n < 0,
        -0x100_0000 <= n <= 0x100_0000 ==> rounding::units(r) == n * pow2(149),
        0x100_0000 * rounding::size(rounding::units(r) - n * pow2(149)) <= rounding::size(n as int)
            * pow2(149),
{
    let m = rounding::size(n as int);
    lemma_conversion_error(m);
    let (v, e, one) = (n as int, ieee::round_24(m) as int, pow2(149) as int);
    assert((-v) * one == -(v * one)) by (nonlinear_arith);
    if m <= 0x100_0000 {
        ieee::lemma_round_24_monotone(m, m);
        let (x, p) = (m as int, pow2(149) as int);
        assert((-x) * p == -(x * p)) by (nonlinear_arith);
    }
}

/// The nearest value to an unsigned integer: exact up to 24 bits, within a part
/// in `2^24` beyond.
pub proof fn law_unsigned_as_value(n: u32, r: u32)
    requires
        call_ensures(ieee::from_u32, (n,), r),
    ensures
        ieee::is_finite(r),
        !rounding::negative(r),
        n <= 0x100_0000 ==> rounding::units(r) == n * pow2(149),
        0x100_0000 * rounding::size(rounding::units(r) - n * pow2(149)) <= n * pow2(149),
{
    lemma_conversion_error(n as nat);
    if n <= 0x100_0000 {
        ieee::lemma_round_24_monotone(n as nat, n as nat);
    }
}

/// Greater integers never have lower values.
pub proof fn law_integers_keep_their_order(m: u32, n: u32, r: u32, s: u32)
    requires
        m <= n,
        call_ensures(ieee::from_u32, (m,), r),
        call_ensures(ieee::from_u32, (n,), s),
    ensures
        r <= s,
        rounding::units(r) <= rounding::units(s),
{
    ieee::lemma_nearest_monotone(r, m as nat, s, n as nat);
    if r < s {
        ieee::lemma_steps_monotone(r, s);
    }
}

/// `c` is the code of a value: within a half of it where the value is in the
/// codes' range, halves away from zero, the nearest end beyond it, zero for a
/// NaN.
pub open spec fn nearest_code(b: u32, c: int) -> bool {
    &&& -127 <= c <= 127
    &&& ieee::is_nan(b) ==> c == 0
    &&& rounding::is_infinite(b) ==> c == (if rounding::negative(b) {
        -127int
    } else {
        127int
    })
    &&& ieee::is_finite(b) ==> {
        let (value, one) = (rounding::units(b), pow2(149) as int);
        &&& value >= 127 * one ==> c == 127
        &&& value <= -127 * one ==> c == -127
        &&& -127 * one <= value <= 127 * one ==> -one <= 2 * (value - c * one) <= one
        &&& 0 < value <= 127 * one ==> 2 * (value - c * one) != one
        &&& -127 * one <= value < 0 ==> 2 * (value - c * one) != -one
    }
}

/// Rounding to a code gives the nearest one.
pub proof fn law_rounded_to_code(b: u32, r: i8)
    requires
        call_ensures(ieee::round_to_code, (b,), r),
    ensures
        nearest_code(b, r as int),
{
    lemma_nearest_code(b);
}

pub proof fn lemma_nearest_code(b: u32)
    ensures
        nearest_code(b, ieee::rounded_code(b)),
{
    let r = ieee::rounded_code(b);
    ieee::lemma_code_range(b);
    if ieee::is_finite(b) {
        let one = pow2(149) as int;
        let s = ieee::steps(b) as int;
        lemma_pow2_pos(149);
        lemma_pow2_unfold(150);
        assert(pow2(150) == 2 * one);
        let q = (2 * s + one) / (2 * one);
        let m = (2 * s + one) % (2 * one);
        lemma_fundamental_div_mod(2 * s + one, 2 * one);
        assert(2 * s + one == 2 * one * q + m && 0 <= m < 2 * one);
        assert(2 * one * q == 2 * (q * one)) by (nonlinear_arith);
        assert(0 <= q) by {
            lemma_div_pos_is_pos(2 * s + one, 2 * one);
        }
        assert((-q) * one == -(q * one)) by (nonlinear_arith);
        assert((-127) * one == -(127 * one)) by (nonlinear_arith);
        if q >= 128 {
            assert(q * one >= 128 * one) by (nonlinear_arith)
                requires
                    q >= 128,
                    one > 0,
            ;
        }
        if q <= 126 {
            assert(q * one <= 126 * one) by (nonlinear_arith)
                requires
                    q <= 126,
                    one > 0,
            ;
        }
        if !rounding::negative(b) {
            assert(r == if q > 127 { 127int } else { q });
        } else {
            assert(r == -(if q > 127 { 127int } else { q }));
        }
    }
}

/// `n / 2^53` in double precision is exact, and one is one.
pub proof fn law_fraction_is_exact(n: u64, r: u64)
    requires
        call_ensures(ieee::fraction_53, (n,), r),
    ensures
        r < ieee::INF_64,
        units_64(ieee::ONE_64) == pow2(1074),
        0x20_0000_0000_0000 * units_64(r) == n * units_64(ieee::ONE_64),
{
    lemma2_to64();
    lemma2_to64_rest();
    assert(ieee::ONE_64 / 0x10_0000_0000_0000 == 1023 && ieee::ONE_64 % 0x10_0000_0000_0000 == 0);
    lemma_pow2_adds(52, 1022);
    lemma_pow2_adds(53, 1021);
    let p = pow2(1021) as int;
    let v = n as int;
    assert(0x20_0000_0000_0000 * (v * p) == v * (0x20_0000_0000_0000 * p)) by (nonlinear_arith);
}

/// `v * 2^exp` in single precision: exact up to 24 bits, within a part in
/// `2^24` beyond.
pub proof fn law_scaled_value(v: u64, exp: i32, r: u32)
    requires
        -126 <= exp <= 0,
        call_ensures(ieee::encode_scaled, (v, exp), r),
    ensures
        r < ieee::INF_32,
        v <= 0x100_0000 ==> rounding::units(r) * pow2((-exp) as nat) == v * pow2(149),
        0x100_0000 * rounding::size(rounding::units(r) * pow2((-exp) as nat) - v * pow2(149)) <= v
            * pow2(149),
{
    lemma_pow2_adds((149 + exp) as nat, (-exp) as nat);
    let (x, a, b) = (
        ieee::round_24(v as nat) as int,
        pow2((149 + exp) as nat) as int,
        pow2((-exp) as nat) as int,
    );
    assert((x * a) * b == x * (a * b)) by (nonlinear_arith);
    lemma_conversion_error(v as nat);
    if v <= 0x100_0000 {
        ieee::lemma_round_24_monotone(v as nat, v as nat);
    }
}

} // verus!
