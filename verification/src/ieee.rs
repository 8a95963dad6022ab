//! IEEE-754 values as bit patterns.
//!
//! Every single-precision value in this crate travels as its 32-bit pattern
//! (what `f32::to_bits` returns) and every double-precision value as its
//! 64-bit pattern. Storing, ordering, sign-testing and rounding such values
//! are integer questions, and they are answered here; adding, multiplying and
//! dividing them is left to the functions that callers pass in.

use vstd::prelude::*;
use vstd::arithmetic::power2::*;
use vstd::arithmetic::div_mod::*;
use vstd::arithmetic::mul::*;

verus! {

/// A single-precision value as its bit pattern.
pub type Bits32 = u32;

/// A double-precision value as its bit pattern.
pub type Bits64 = u64;

/// `+0.0` in single precision.
pub const ZERO_32: u32 = 0;

/// `1.0` in single precision.
pub const ONE_32: u32 = 0x3F80_0000;

/// `-1.0` in single precision.
pub const MINUS_ONE_32: u32 = 0xBF80_0000;

/// `127.0` in single precision.
pub const MAX_CODE_32: u32 = 0x42FE_0000;

/// `+inf` in single precision.
pub const INF_32: u32 = 0x7F80_0000;

/// The sign bit in single precision.
pub const SIGN_32: u32 = 0x8000_0000;

/// `1.0` in double precision.
pub const ONE_64: u64 = 0x3FF0_0000_0000_0000;

/// `+inf` in double precision.
pub const INF_64: u64 = 0x7FF0_0000_0000_0000;

/// The sign bit in double precision.
pub const SIGN_64: u64 = 0x8000_0000_0000_0000;

/// The pattern with its sign bit cleared: `|x|`.
pub open spec fn magnitude(b: u32) -> u32 {
    if b < SIGN_32 {
        b
    } else {
        (b - SIGN_32) as u32
    }
}

/// The pattern with its sign bit flipped: `-x`.
pub open spec fn negated(b: u32) -> u32 {
    if b < SIGN_32 {
        (b + SIGN_32) as u32
    } else {
        (b - SIGN_32) as u32
    }
}

/// Whether the pattern is not a number.
pub open spec fn is_nan(b: u32) -> bool {
    magnitude(b) > INF_32
}

/// Whether the pattern is a finite number.
pub open spec fn is_finite(b: u32) -> bool {
    magnitude(b) < INF_32
}

/// Whether `x > 0.0`: false for both zeros, for negative values and for NaN.
pub open spec fn positive(b: u32) -> bool {
    0 < b <= INF_32
}

/// Position of a pattern in the IEEE total order (`f32::total_cmp`): negative
/// patterns count downwards from -1, the others upwards from 0.
pub open spec fn total_rank(b: u32) -> int {
    if b < SIGN_32 {
        b as int
    } else {
        SIGN_32 - b - 1
    }
}

/// Magnitude of a finite value, counted in steps of `2^-149` (the smallest
/// positive single-precision value, of which every finite value is a multiple).
pub open spec fn steps(b: u32) -> nat {
    let field = magnitude(b) / 0x80_0000;
    let fraction = (magnitude(b) % 0x80_0000) as nat;
    if field == 0 {
        fraction
    } else {
        (fraction + 0x80_0000) * pow2((field - 1) as nat)
    }
}

/// Magnitude of a finite double-precision value in steps of `2^-1074`.
pub open spec fn steps_64(b: u64) -> nat {
    let field = (b % SIGN_64) / 0x10_0000_0000_0000;
    let fraction = (b % 0x10_0000_0000_0000) as nat;
    if field == 0 {
        fraction
    } else {
        (fraction + 0x10_0000_0000_0000) * pow2((field - 1) as nat)
    }
}

/// Whether a double-precision pattern is not a number.
pub open spec fn is_nan_64(b: u64) -> bool {
    b % SIGN_64 > INF_64
}

/// Signed position of a double-precision pattern on the number line; both
/// zeros are at 0.
pub open spec fn line_rank_64(b: u64) -> int {
    if b < SIGN_64 {
        b as int
    } else {
        SIGN_64 - b
    }
}

/// `a < b` in double precision: false as soon as one side is NaN.
pub open spec fn less_64(a: u64, b: u64) -> bool {
    !is_nan_64(a) && !is_nan_64(b) && line_rank_64(a) < line_rank_64(b)
}

/// Largest `e` with `2^e <= n`, for `n > 0`.
pub open spec fn floor_log2(n: nat) -> nat
    decreases n,
{
    if n < 2 {
        0
    } else {
        floor_log2(n / 2) + 1
    }
}

/// Spacing of single-precision values around the integer `n`: 1 while `n`
/// fits 24 bits.
pub open spec fn spacing(n: nat) -> nat {
    if n < 0x100_0000 {
        1
    } else {
        pow2((floor_log2(n) - 23) as nat)
    }
}

/// `n / q` rounded to the nearest integer, ties to the even one.
pub open spec fn round_half_even(n: nat, q: nat) -> nat {
    let d = n / q;
    let r = n % q;
    if 2 * r < q || (2 * r == q && d % 2 == 0) {
        d
    } else {
        d + 1
    }
}

/// The integer `n` rounded to 24 significant bits, ties to even.
pub open spec fn round_24(n: nat) -> nat {
    round_half_even(n, spacing(n)) * spacing(n)
}

/// `b` is the single-precision value nearest to the non-negative `n * 2^exp`,
/// ties to even.
pub open spec fn nearest_scaled(b: u32, n: nat, exp: int) -> bool {
    b < INF_32 && steps(b) == round_24(n) * pow2((149 + exp) as nat)
}

/// `b` is the single-precision value nearest to the integer `n`, ties to even;
/// zero comes out as `+0.0`.
pub open spec fn nearest_int(b: u32, n: int) -> bool {
    if n >= 0 {
        nearest_scaled(b, n as nat, 0)
    } else {
        b >= SIGN_32 && nearest_scaled(negated(b), (-n) as nat, 0)
    }
}

/// `b` is exactly `n / 2^53` in double precision.
pub open spec fn is_53bit_fraction(b: u64, n: nat) -> bool {
    b < INF_64 && steps_64(b) == n * pow2(1021)
}

/// The value rounded to the nearest integer, halves away from zero, clamped
/// to `[-127, 127]`; NaN gives 0.
pub open spec fn rounded_code(b: u32) -> int {
    if is_nan(b) {
        0
    } else {
        let whole = if magnitude(b) == INF_32 {
            127
        } else {
            (2 * steps(b) + pow2(149)) / pow2(150)
        };
        let clamped: int = if whole > 127 {
            127
        } else {
            whole as int
        };
        if b < SIGN_32 {
            clamped
        } else {
            -clamped
        }
    }
}

/// The pattern of `-x`.
pub fn negate(b: u32) -> (r: u32)
    ensures
        r == negated(b),
{
    if b < SIGN_32 {
        b + SIGN_32
    } else {
        b - SIGN_32
    }
}

/// The pattern of `|x|`.
pub fn abs(b: u32) -> (r: u32)
    ensures
        r == magnitude(b),
{
    if b < SIGN_32 {
        b
    } else {
        b - SIGN_32
    }
}

/// `x > 0.0`.
pub fn is_positive(b: u32) -> (r: bool)
    ensures
        r == positive(b),
{
    0 < b && b <= INF_32
}

/// An unsigned key that orders patterns as the total order does.
pub fn total_key(b: u32) -> (r: u32)
    ensures
        r == total_rank(b) + SIGN_32,
{
    if b < SIGN_32 {
        b + SIGN_32
    } else {
        0xFFFF_FFFF - b
    }
}

/// `a < b` in double precision.
pub fn is_less_64(a: u64, b: u64) -> (r: bool)
    ensures
        r == less_64(a, b),
{
    if a % SIGN_64 > INF_64 || b % SIGN_64 > INF_64 {
        return false;
    }
    if a < SIGN_64 {
        b < SIGN_64 && a < b
    } else if b < SIGN_64 {
        a != SIGN_64 || b != 0
    } else {
        b < a
    }
}

proof fn lemma_floor_log2(n: nat, e: nat)
    requires
        pow2(e) <= n < pow2(e + 1),
    ensures
        floor_log2(n) == e,
    decreases e,
{
    lemma2_to64();
    lemma_pow2_unfold(e + 1);
    if e > 0 {
        lemma_pow2_unfold(e);
        lemma_floor_log2(n / 2, (e - 1) as nat);
    }
}

/// The power of two below a number and the one above it.
pub proof fn lemma_log_bounds(n: nat)
    requires
        n > 0,
    ensures
        pow2(floor_log2(n)) <= n < pow2(floor_log2(n) + 1),
    decreases n,
{
    lemma2_to64();
    if n >= 2 {
        lemma_log_bounds(n / 2);
        lemma_pow2_unfold(floor_log2(n));
        lemma_pow2_unfold(floor_log2(n) + 1);
    }
}

/// Rounding to a multiple of one spacing keeps the order.
proof fn lemma_half_even_monotone(m: nat, n: nat, q: nat)
    requires
        m <= n,
        q > 0,
    ensures
        round_half_even(m, q) <= round_half_even(n, q),
{
    lemma_fundamental_div_mod(m as int, q as int);
    lemma_fundamental_div_mod(n as int, q as int);
    lemma_div_is_ordered(m as int, n as int, q as int);
}

/// Rounding stays between the powers of two around a number.
proof fn lemma_round_bounds(n: nat)
    requires
        n >= 0x100_0000,
    ensures
        pow2(floor_log2(n)) <= round_24(n) <= pow2(floor_log2(n) + 1),
{
    lemma2_to64();
    lemma_log_bounds(n);
    let e = floor_log2(n);
    if e < 24 {
        lemma_pow2_increases(e + 1, 24);
    }
    let q = pow2((e - 23) as nat);
    lemma_pow2_pos((e - 23) as nat);
    lemma_pow2_adds(23, (e - 23) as nat);
    lemma_pow2_adds(24, (e - 23) as nat);
    let d = n / q;
    assert(0x80_0000 <= d < 0x100_0000) by {
        lemma_fundamental_div_mod(n as int, q as int);
        assert(0x80_0000 <= d < 0x100_0000) by (nonlinear_arith)
            requires
                n == q * d + n % q,
                0 <= n % q < q,
                0x80_0000 * q <= n < 0x100_0000 * q,
        ;
    }
    let rounded = round_half_even(n, q);
    assert(0x80_0000 * q <= rounded * q <= 0x100_0000 * q) by (nonlinear_arith)
        requires
            0x80_0000 <= rounded <= 0x100_0000,
    ;
}

/// A lower exponent gives no higher power of two.
pub proof fn lemma_pow2_increases(a: nat, b: nat)
    requires
        a <= b,
    ensures
        pow2(a) <= pow2(b),
{
    if a < b {
        lemma_pow2_strictly_increases(a, b);
    }
}

/// Rounding to 24 significant bits keeps the order.
pub proof fn lemma_round_24_monotone(m: nat, n: nat)
    requires
        m <= n,
    ensures
        round_24(m) <= round_24(n),
        n <= 0x100_0000 ==> round_24(m) == m && round_24(n) == n,
{
    lemma2_to64();
    assert(round_24(0x100_0000) == 0x100_0000) by {
        lemma_pow2_unfold(25);
        lemma_floor_log2(0x100_0000, 24);
        assert(spacing(0x100_0000) == 2);
        assert(round_half_even(0x100_0000, 2) == 0x80_0000);
    }
    if m < 0x100_0000 {
        assert(round_half_even(m, 1) == m);
        if n < 0x100_0000 {
            assert(round_half_even(n, 1) == n);
        }
        if n > 0x100_0000 {
            lemma_round_bounds(n);
            lemma_log_bounds(n);
            if floor_log2(n) < 24 {
                lemma_pow2_increases(floor_log2(n) + 1, 24);
            }
            lemma_pow2_increases(24, floor_log2(n));
        }
    } else {
        let (e, f) = (floor_log2(m), floor_log2(n));
        lemma_log_bounds(m);
        lemma_log_bounds(n);
        lemma_round_bounds(m);
        lemma_round_bounds(n);
        if e == f {
            let q = spacing(m);
            lemma_pow2_pos((e - 23) as nat);
            lemma_half_even_monotone(m, n, q);
            let (x, y) = (round_half_even(m, q), round_half_even(n, q));
            assert(x * q <= y * q) by (nonlinear_arith)
                requires
                    x <= y,
            ;
        } else if e < f {
            lemma_pow2_increases(e + 1, f);
        } else {
            lemma_pow2_increases(f + 1, e);
        }
    }
}

/// Conversion of non-negative integers keeps the order; below `2^24` it keeps
/// integers apart.
pub proof fn lemma_nearest_monotone(a: u32, m: nat, b: u32, n: nat)
    requires
        nearest_int(a, m as int),
        nearest_int(b, n as int),
        m <= n,
    ensures
        a <= b,
        m < n <= 0x100_0000 ==> a < b,
{
    lemma_round_24_monotone(m, n);
    lemma_pow2_pos(149);
    let (x, y, p) = (round_24(m), round_24(n), pow2(149));
    assert(x * p <= y * p && (x < y ==> x * p < y * p)) by (nonlinear_arith)
        requires
            x <= y,
            p > 0,
    ;
    if b < a {
        lemma_steps_monotone(b, a);
    }
}

/// Largest `e` with `2^e <= v`.
fn log2(v: u64) -> (e: u32)
    requires
        v > 0,
    ensures
        e < 64,
        e == floor_log2(v as nat),
        pow2(e as nat) <= v < pow2((e + 1) as nat),
{
    let lz: u32 = v.leading_zeros();
    proof {
        broadcast use vstd::std_specs::bits::axiom_u64_leading_zeros;
        let k: u64 = (63 - lz) as u64;
        assert(v >> k & 1u64 != 0);
        vstd::bits::lemma_u64_shr_is_div(v, k);
        let q = v as nat / pow2(k as nat);
        lemma_pow2_pos(k as nat);
        assert(v >> k >= 1) by (bit_vector)
            requires
                v >> k & 1u64 != 0,
        ;
        lemma_fundamental_div_mod(v as int, pow2(k as nat) as int);
        assert(v >= pow2(k as nat)) by (nonlinear_arith)
            requires
                v == pow2(k as nat) * q + v as int % pow2(k as nat) as int,
                q >= 1,
                pow2(k as nat) > 0,
                v as int % pow2(k as nat) as int >= 0,
        ;
        lemma2_to64();
        lemma2_to64_rest();
        if lz > 0 {
            let k1: u64 = (64 - lz) as u64;
            vstd::bits::lemma_u64_shr_is_div(v, k1);
            lemma_pow2_pos(k1 as nat);
            lemma_fundamental_div_mod(v as int, pow2(k1 as nat) as int);
        }
        lemma_floor_log2(v as nat, k as nat);
    }
    63 - lz
}

/// A pattern put together from its exponent field and its 24-bit significand;
/// a significand that rounding carried to `2^24` moves into the next field.
pub proof fn lemma_steps_of_parts(b: u32, field: nat, significand: nat)
    requires
        1 <= field <= 254,
        field == 254 ==> significand < 0x100_0000,
        0x80_0000 <= significand <= 0x100_0000,
        b == (field - 1) * 0x80_0000 + significand,
    ensures
        b < INF_32,
        steps(b) == significand * pow2((field - 1) as nat),
{
    if significand == 0x100_0000 {
        assert(b / 0x80_0000 == field + 1);
        assert(b % 0x80_0000 == 0);
        lemma_pow2_unfold(field);
        assert(0x80_0000 * (2 * pow2((field - 1) as nat)) == 0x100_0000 * pow2((field - 1) as nat))
            by (nonlinear_arith);
    } else {
        assert(b / 0x80_0000 == field);
        assert(b % 0x80_0000 == significand - 0x80_0000);
    }
}

/// The single-precision value nearest to `v * 2^exp`, ties to even.
pub fn encode_scaled(v: u64, exp: i32) -> (r: u32)
    requires
        -126 <= exp <= 0,
    ensures
        nearest_scaled(r, v as nat, exp as int),
{
    if v == 0 {
        assert(round_24(0) == 0);
        assert(0 * pow2((149 + exp) as nat) == 0) by (nonlinear_arith);
        return 0;
    }
    let e: u32 = log2(v);
    let field: u32 = (e as i32 + exp + 127) as u32;
    let ghost low = pow2((149 + exp) as nat);
    if e <= 23 {
        let up: u32 = 23 - e;
        proof {
            lemma2_to64();
            lemma_pow2_adds((e + 1) as nat, up as nat);
            lemma_pow2_adds(e as nat, up as nat);
            assert(pow2(e as nat) * pow2(up as nat) <= v * pow2(up as nat) < pow2((e + 1) as nat)
                * pow2(up as nat)) by (nonlinear_arith)
                requires
                    pow2(e as nat) <= v < pow2((e + 1) as nat),
                    pow2(up as nat) > 0,
            ;
            vstd::bits::lemma_u64_shl_is_mul(v, up as u64);
            assert(v < 0x100_0000) by {
                if e < 23 {
                    lemma_pow2_strictly_increases((e + 1) as nat, 24);
                }
            }
        }
        let d: u64 = v << up;
        let r: u32 = (field - 1) * 0x80_0000 + d as u32;
        proof {
            lemma_steps_of_parts(r, field as nat, d as nat);
            assert(round_24(v as nat) == v);
            lemma_pow2_adds(up as nat, (field - 1) as nat);
            assert(d * pow2((field - 1) as nat) == v * low) by (nonlinear_arith)
                requires
                    d == v * pow2(up as nat),
                    low == pow2(up as nat) * pow2((field - 1) as nat),
            ;
        }
        r
    } else {
        let down: u32 = e - 23;
        let ghost q = pow2(down as nat);
        proof {
            lemma2_to64();
            lemma2_to64_rest();
            lemma_pow2_pos(down as nat);
            vstd::bits::lemma_u64_shr_is_div(v, down as u64);
            lemma_pow2_adds(24, down as nat);
            lemma_pow2_adds(23, down as nat);
            lemma_fundamental_div_mod(v as int, q as int);
            lemma_pow2_strictly_increases(down as nat, 41);
        }
        let d: u64 = v >> down;
        proof {
            assert(0x80_0000 <= d < 0x100_0000) by (nonlinear_arith)
                requires
                    0x80_0000 * q <= v < 0x100_0000 * q,
                    v == q * d + v as int % (q as int),
                    0 <= v as int % (q as int) < q,
            ;
            vstd::bits::lemma_u64_shl_is_mul(d, down as u64);
            vstd::bits::lemma_u64_shl_is_mul(1, down as u64);
            assert(d * q == q * d) by (nonlinear_arith);
        }
        let rest: u64 = v - (d << down);
        let unit: u64 = 1u64 << down;
        let rounded: u64 = if 2 * rest < unit || (2 * rest == unit && d % 2 == 0) {
            d
        } else {
            d + 1
        };
        let r: u32 = (field - 1) * 0x80_0000 + rounded as u32;
        proof {
            lemma_steps_of_parts(r, field as nat, rounded as nat);
            assert(v >= 0x100_0000) by {
                if e > 24 {
                    lemma_pow2_strictly_increases(24, e as nat);
                }
            }
            assert(rounded == round_half_even(v as nat, q));
            lemma_pow2_adds(down as nat, (149 + exp) as nat);
            assert(rounded * pow2((field - 1) as nat) == round_24(v as nat) * low)
                by (nonlinear_arith)
                requires
                    round_24(v as nat) == rounded * q,
                    pow2((field - 1) as nat) == q * low,
            ;
        }
        r
    }
}

/// `n as f32`, for an unsigned integer.
pub fn from_u32(n: u32) -> (r: u32)
    ensures
        nearest_int(r, n as int),
{
    encode_scaled(n as u64, 0)
}

/// `n as f32`, for a signed integer.
pub fn from_i32(n: i32) -> (r: u32)
    ensures
        nearest_int(r, n as int),
{
    if n >= 0 {
        encode_scaled(n as u64, 0)
    } else {
        encode_scaled((-(n as i64)) as u64, 0) + SIGN_32
    }
}

/// `n / 2^53` in double precision, which is exact.
pub fn fraction_53(n: u64) -> (r: u64)
    requires
        n <= 0x20_0000_0000_0000,
    ensures
        is_53bit_fraction(r, n as nat),
{
    if n == 0 {
        assert(0 * pow2(1021) == 0) by (nonlinear_arith);
        return 0;
    }
    if n == 0x20_0000_0000_0000 {
        proof {
            lemma2_to64_rest();
            lemma_pow2_adds(1, 1021);
            lemma2_to64();
            assert(0x10_0000_0000_0000 * (2 * pow2(1021)) == 0x20_0000_0000_0000 * pow2(1021))
                by (nonlinear_arith);
        }
        return ONE_64;
    }
    let e: u32 = log2(n);
    proof {
        lemma2_to64();
        lemma2_to64_rest();
        if e >= 53 {
            if e > 53 {
                lemma_pow2_strictly_increases(53, e as nat);
            }
        }
    }
    let up: u32 = 52 - e;
    proof {
        lemma_pow2_adds((e + 1) as nat, up as nat);
        lemma_pow2_adds(e as nat, up as nat);
        lemma_pow2_pos(up as nat);
        assert(pow2(e as nat) * pow2(up as nat) <= n * pow2(up as nat) < pow2((e + 1) as nat)
            * pow2(up as nat)) by (nonlinear_arith)
            requires
                pow2(e as nat) <= n < pow2((e + 1) as nat),
                pow2(up as nat) > 0,
        ;
        vstd::bits::lemma_u64_shl_is_mul(n, up as u64);
    }
    let d: u64 = n << up;
    let field: u64 = e as u64 + 970;
    let r: u64 = (field - 1) * 0x10_0000_0000_0000 + d;
    proof {
        assert(r / 0x10_0000_0000_0000 == field);
        assert(r % 0x10_0000_0000_0000 == d - 0x10_0000_0000_0000);
        lemma_pow2_adds(up as nat, (field - 1) as nat);
        assert(d * pow2((field - 1) as nat) == n * pow2(1021)) by (nonlinear_arith)
            requires
                d == n * pow2(up as nat),
                pow2(1021) == pow2(up as nat) * pow2((field - 1) as nat),
        ;
    }
    r
}

/// Two non-zero finite patterns of the same sign with as many steps are the
/// same pattern.
pub proof fn lemma_steps_injective(a: u32, b: u32)
    requires
        a < INF_32,
        b < INF_32,
        steps(a) == steps(b),
    ensures
        a == b,
{
    if a < b {
        lemma_steps_monotone(a, b);
    } else if b < a {
        lemma_steps_monotone(b, a);
    }
}

/// Among non-negative finite values the pattern grows with the value.
pub proof fn lemma_steps_monotone(a: u32, b: u32)
    requires
        a < b < INF_32,
    ensures
        steps(a) < steps(b),
{
    let (fa, fb) = (a / 0x80_0000, b / 0x80_0000);
    let (ma, mb) = ((a % 0x80_0000) as nat, (b % 0x80_0000) as nat);
    if fa == fb {
        if fa > 0 {
            let p = pow2((fa - 1) as nat);
            lemma_pow2_pos((fa - 1) as nat);
            assert((ma + 0x80_0000) * p < (mb + 0x80_0000) * p) by (nonlinear_arith)
                requires
                    ma < mb,
                    p > 0,
            ;
        }
    } else {
        let pb = pow2((fb - 1) as nat);
        lemma_pow2_pos((fb - 1) as nat);
        assert((mb + 0x80_0000) * pb >= 0x80_0000 * pb) by (nonlinear_arith)
            requires
                pb > 0,
        ;
        if fa == 0 {
            assert(0x80_0000 * pb >= 0x80_0000) by (nonlinear_arith)
                requires
                    pb >= 1,
            ;
        } else {
            let pa = pow2((fa - 1) as nat);
            lemma_pow2_pos((fa - 1) as nat);
            lemma_pow2_unfold(fa as nat);
            if fa < fb - 1 {
                lemma_pow2_strictly_increases(fa as nat, (fb - 1) as nat);
            }
            assert((ma + 0x80_0000) * pa < 0x100_0000 * pa) by (nonlinear_arith)
                requires
                    ma < 0x80_0000,
                    pa > 0,
            ;
            assert(0x80_0000 * pb >= 0x100_0000 * pa) by (nonlinear_arith)
                requires
                    pb >= 2 * pa,
            ;
        }
    }
}

/// An integer has one nearest single-precision pattern.
pub proof fn lemma_nearest_unique(a: u32, b: u32, n: int)
    requires
        nearest_int(a, n),
        nearest_int(b, n),
    ensures
        a == b,
{
    if n >= 0 {
        lemma_steps_injective(a, b);
    } else {
        lemma_steps_injective(negated(a), negated(b));
    }
}

/// Among non-negative finite double-precision values the pattern grows with
/// the value.
pub proof fn lemma_steps_64_monotone(a: u64, b: u64)
    requires
        a < b < INF_64,
    ensures
        steps_64(a) < steps_64(b),
{
    let one: nat = 0x10_0000_0000_0000;
    let (fa, fb) = (a / 0x10_0000_0000_0000, b / 0x10_0000_0000_0000);
    let (ma, mb) = ((a % 0x10_0000_0000_0000) as nat, (b % 0x10_0000_0000_0000) as nat);
    if fa == fb {
        if fa > 0 {
            let p = pow2((fa - 1) as nat);
            lemma_pow2_pos((fa - 1) as nat);
            assert((ma + one) * p < (mb + one) * p) by (nonlinear_arith)
                requires
                    ma < mb,
                    p > 0,
            ;
        }
    } else {
        let pb = pow2((fb - 1) as nat);
        lemma_pow2_pos((fb - 1) as nat);
        assert((mb + one) * pb >= one * pb) by (nonlinear_arith)
            requires
                pb > 0,
        ;
        if fa == 0 {
            assert(one * pb >= one) by (nonlinear_arith)
                requires
                    pb >= 1,
            ;
        } else {
            let pa = pow2((fa - 1) as nat);
            lemma_pow2_pos((fa - 1) as nat);
            lemma_pow2_unfold(fa as nat);
            if fa < fb - 1 {
                lemma_pow2_strictly_increases(fa as nat, (fb - 1) as nat);
            }
            assert((ma + one) * pa < 2 * one * pa) by (nonlinear_arith)
                requires
                    ma < one,
                    pa > 0,
            ;
            assert(one * pb >= 2 * one * pa) by (nonlinear_arith)
                requires
                    pb >= 2 * pa,
            ;
        }
    }
}

/// Only one pattern is exactly `n / 2^53`.
pub proof fn lemma_fraction_unique(a: u64, b: u64, n: nat)
    requires
        is_53bit_fraction(a, n),
        is_53bit_fraction(b, n),
    ensures
        a == b,
{
    if a < b {
        lemma_steps_64_monotone(a, b);
    } else if b < a {
        lemma_steps_64_monotone(b, a);
    }
}

/// Some pattern is exactly `n / 2^53`, for `n < 2^53`.
pub proof fn lemma_fraction_exists(n: nat) -> (b: u64)
    requires
        n < 0x20_0000_0000_0000,
    ensures
        is_53bit_fraction(b, n),
{
    if n == 0 {
        assert(0 * pow2(1021) == 0) by (nonlinear_arith);
        0
    } else {
        lemma2_to64();
        lemma2_to64_rest();
        lemma_log_bounds(n);
        let e = floor_log2(n);
        if e > 52 {
            lemma_pow2_increases(53, e);
        }
        let up = (52 - e) as nat;
        lemma_pow2_adds(e + 1, up);
        lemma_pow2_adds(e, up);
        lemma_pow2_pos(up);
        let d = n * pow2(up);
        assert(pow2(e) * pow2(up) <= d < pow2(e + 1) * pow2(up)) by (nonlinear_arith)
            requires
                pow2(e) <= n < pow2(e + 1),
                pow2(up) > 0,
                d == n * pow2(up),
        ;
        let field = (e + 970) as nat;
        let b = ((field - 1) * 0x10_0000_0000_0000 + d) as u64;
        assert(b / 0x10_0000_0000_0000 == field);
        assert(b % 0x10_0000_0000_0000 == d - 0x10_0000_0000_0000);
        lemma_pow2_adds(up, (field - 1) as nat);
        assert(d * pow2((field - 1) as nat) == n * pow2(1021)) by (nonlinear_arith)
            requires
                d == n * pow2(up),
                pow2(1021) == pow2(up) * pow2((field - 1) as nat),
        ;
        b
    }
}

/// `n / 2^53` is below 1 for `n < 2^53`.
pub proof fn lemma_fraction_below_one(b: u64, n: nat)
    requires
        is_53bit_fraction(b, n),
        n < 0x20_0000_0000_0000,
    ensures
        less_64(b, ONE_64),
{
    lemma2_to64();
    lemma2_to64_rest();
    lemma_pow2_pos(1021);
    lemma_pow2_unfold(1022);
    let p = pow2(1021);
    assert(n * p < 0x20_0000_0000_0000 * p) by (nonlinear_arith)
        requires
            n < 0x20_0000_0000_0000,
            p > 0,
    ;
    assert(steps_64(ONE_64) == 0x10_0000_0000_0000 * pow2(1022));
    assert(0x10_0000_0000_0000 * (2 * p) == 0x20_0000_0000_0000 * p) by (nonlinear_arith);
    if b > ONE_64 {
        lemma_steps_64_monotone(ONE_64, b);
    }
}

/// A rounded code lies in `[-127, 127]`.
pub proof fn lemma_code_range(b: u32)
    ensures
        -127 <= rounded_code(b) <= 127,
{
    lemma_pow2_pos(150);
    lemma_div_pos_is_pos((2 * steps(b) + pow2(149)) as int, pow2(150) as int);
}

/// Rounding is symmetric: the negated value gets the negated code.
pub proof fn lemma_negated_code(b: u32)
    ensures
        rounded_code(negated(b)) == -rounded_code(b),
{
    assert(magnitude(negated(b)) == magnitude(b));
}

/// Rounds to the nearest integer (halves away from zero), clamps to
/// `[-127, 127]` and converts; NaN gives 0.
pub fn round_to_code(b: u32) -> (r: i8)
    ensures
        r == rounded_code(b),
{
    let m: u32 = abs(b);
    if m > INF_32 {
        return 0;
    }
    let field: u32 = m / 0x80_0000;
    let significand: u32 = m % 0x80_0000 + 0x80_0000;
    let ghost half = pow2(149);
    let ghost one = pow2(150);
    proof {
        lemma_pow2_pos(149);
        lemma_pow2_unfold(150);
        lemma2_to64();
        if 0 < field {
            lemma_pow2_unfold(field as nat);
            let p = pow2((field - 1) as nat);
            assert(2 * (significand * p) == significand * (2 * p)) by (nonlinear_arith);
        }
    }
    let whole: u32 = if field < 126 {
        proof {
            if field == 0 {
                lemma_pow2_strictly_increases(24, 149);
            } else {
                if field < 125 {
                    lemma_pow2_strictly_increases(field as nat, 125);
                }
                lemma_pow2_adds(24, 125);
                assert(significand * pow2(field as nat) < half) by (nonlinear_arith)
                    requires
                        significand < 0x100_0000,
                        0 <= pow2(field as nat) <= pow2(125),
                        pow2(125) > 0,
                        half == 0x100_0000 * pow2(125),
                ;
            }
            lemma_basic_div((2 * steps(b) + half) as int, one as int);
        }
        0
    } else if field > 133 {
        proof {
            if m < INF_32 {
                if field > 134 {
                    lemma_pow2_strictly_increases(134, field as nat);
                }
                lemma_pow2_adds(23, 134);
                lemma_pow2_adds(7, 150);
                assert(significand * pow2(field as nat) >= 128 * one) by (nonlinear_arith)
                    requires
                        significand >= 0x80_0000,
                        pow2(field as nat) >= pow2(134),
                        0x80_0000 * pow2(134) == 128 * one,
                ;
                lemma_div_is_ordered((128 * one) as int, (2 * steps(b) + half) as int, one as int);
                lemma_div_by_multiple(128, one as int);
            }
        }
        127
    } else {
        let down: u32 = 150 - field;
        let ghost p = pow2(field as nat);
        let ghost bump = pow2((down - 1) as nat);
        proof {
            lemma_pow2_pos(field as nat);
            lemma_pow2_pos(down as nat);
            lemma_pow2_adds(field as nat, (down - 1) as nat);
            lemma_pow2_adds(field as nat, down as nat);
            if down < 24 {
                lemma_pow2_strictly_increases((down - 1) as nat, 23);
            }
            vstd::bits::lemma_u32_shl_is_mul(1, (down - 1) as u32);
            let x = significand + bump;
            assert(significand * p + half == p * x) by (nonlinear_arith)
                requires
                    half == p * bump,
                    x == significand + bump,
            ;
            lemma_div_denominator(p * x, p as int, pow2(down as nat) as int);
            lemma_div_multiples_vanish(x as int, p as int);
            vstd::bits::lemma_u32_shr_is_div(x as u32, down);
        }
        let shifted: u32 = (significand + (1u32 << (down - 1))) >> down;
        if shifted > 127 {
            127
        } else {
            shifted
        }
    };
    if b < SIGN_32 {
        whole as i8
    } else {
        -(whole as i8)
    }
}

} // verus!
