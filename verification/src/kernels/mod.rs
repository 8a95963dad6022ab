//! Distance and similarity kernels over borrowed rows.
//!
//! Score convention: **higher is better**. All `dot_*` functions are
//! similarities. [`hamming`] is the one raw distance (lower is better,
//! exact); [`hamming_score`] adapts it to the score convention.
//!
//! # Binary code layout
//!
//! Packed sign-bit codes are `binary_code_len(dim)` bytes, **MSB-first within
//! each byte**: dimension `i` lives in byte `i / 8`, bit `7 - (i % 8)`.
//! **Padding bits in the final byte must be zero**: the symmetric [`hamming`]
//! kernel compares whole bytes and relies on equal padding cancelling; the
//! asymmetric kernels decode only the `dim` real bits.
//!
//! # Determinism
//!
//! The integer kernels are exact, so they give the same result on every
//! backend. The single-precision kernels add and multiply through functions
//! that the caller passes in, in the order of summation that the backend
//! fixes. With IEEE arithmetic the result of `n` terms is off the exact sum by
//! `n * 2^-23` of the sum of their magnitudes at most (see [`error`]).
//!
//! # Dispatch
//!
//! The free functions [`dot_f32`] and [`dot_f32_bin`] take the backend that was
//! detected for the processor and compute on it. Inside a scan loop the
//! backend's table, [`backend::Kernels`], is resolved once instead.

use vstd::prelude::*;
use crate::ieee;
use crate::kernels::backend::Backend;

pub mod backend;
pub mod determinism;
pub mod error;
pub mod exact;
pub mod integer;
pub mod lanes;
pub mod laws;
pub mod nan;
pub mod scalar;

verus! {

/// Number of bytes of a packed code for `dim` dimensions: `ceil(dim / 8)`.
pub open spec fn code_len(dim: nat) -> nat {
    (dim + 7) / 8
}

/// Dimension `i` of a packed code: whether its bit is set.
pub open spec fn code_bit(code: Seq<u8>, i: int) -> bool {
    (code[i / 8] >> ((7 - i % 8) as u8)) & 1u8 == 1u8
}

/// Sum of the first `n` products.
pub open spec fn dot_prefix(a: Seq<i8>, b: Seq<i8>, n: nat) -> int
    decreases n,
{
    if n == 0 {
        0
    } else {
        dot_prefix(a, b, (n - 1) as nat) + a[n - 1] * b[n - 1]
    }
}

/// The dot product of two code vectors of the same length.
pub open spec fn dot(a: Seq<i8>, b: Seq<i8>) -> int {
    dot_prefix(a, b, a.len())
}

/// Every partial sum of the dot product fits the 32-bit accumulator.
pub open spec fn dot_fits(a: Seq<i8>, b: Seq<i8>) -> bool {
    forall|n: nat|
        n <= a.len() ==> i32::MIN <= #[trigger] dot_prefix(a, b, n) <= i32::MAX
}

/// The sum of the first `n` query elements, each taken with the sign that the
/// code gives it: plus for a set bit, minus for a clear one.
pub open spec fn signed_prefix(q: Seq<i8>, code: Seq<u8>, n: nat) -> int
    decreases n,
{
    if n == 0 {
        0
    } else {
        signed_prefix(q, code, (n - 1) as nat) + if code_bit(code, n - 1) {
            q[n - 1] as int
        } else {
            -q[n - 1]
        }
    }
}

/// The dot product of an int8 query with the ±1 vector that a code stands for.
pub open spec fn signed_sum(q: Seq<i8>, code: Seq<u8>) -> int {
    signed_prefix(q, code, q.len())
}

/// Every partial sum of the signed sum fits the 32-bit accumulator.
pub open spec fn signed_fits(q: Seq<i8>, code: Seq<u8>) -> bool {
    forall|n: nat|
        n <= q.len() ==> i32::MIN <= #[trigger] signed_prefix(q, code, n) <= i32::MAX
}

/// In how many of the first `n` dimensions two codes differ.
pub open spec fn differing(a: Seq<u8>, b: Seq<u8>, n: nat) -> nat
    decreases n,
{
    if n == 0 {
        0
    } else {
        differing(a, b, (n - 1) as nat) + if code_bit(a, n - 1) != code_bit(b, n - 1) {
            1nat
        } else {
            0nat
        }
    }
}

/// In how many bits two byte strings of the same length differ.
pub open spec fn distance(a: Seq<u8>, b: Seq<u8>) -> nat {
    differing(a, b, 8 * a.len())
}

/// `acc` is what accumulating the first `n` products from zero, in order, can
/// come to: each product as `times` gives it, each sum as `plus` gives it.
pub open spec fn dot_chain<T: Fn(u32, u32) -> u32, P: Fn(u32, u32) -> u32>(
    times: T,
    plus: P,
    a: Seq<u32>,
    b: Seq<u32>,
    n: nat,
    acc: u32,
) -> bool
    decreases n,
{
    if n == 0 {
        acc == ieee::ZERO_32
    } else {
        exists|before: u32, product: u32|
            {
                &&& dot_chain(times, plus, a, b, (n - 1) as nat, before)
                &&& call_ensures(times, (a[n - 1], b[n - 1]), product)
                &&& #[trigger] call_ensures(plus, (before, product), acc)
            }
    }
}

/// Query element `i`, negated where the code bit is clear.
pub open spec fn signed_element(q: Seq<u32>, code: Seq<u8>, i: int) -> u32 {
    if code_bit(code, i) {
        q[i]
    } else {
        ieee::negated(q[i])
    }
}

/// `acc` is what accumulating the first `n` query elements from zero, in
/// order, can come to: each with the sign that the code gives it, each sum as
/// `plus` gives it.
pub open spec fn signed_chain<P: Fn(u32, u32) -> u32>(
    plus: P,
    q: Seq<u32>,
    code: Seq<u8>,
    n: nat,
    acc: u32,
) -> bool
    decreases n,
{
    if n == 0 {
        acc == ieee::ZERO_32
    } else {
        exists|before: u32|
            {
                &&& signed_chain(plus, q, code, (n - 1) as nat, before)
                &&& #[trigger] call_ensures(plus, (before, signed_element(q, code, n - 1)), acc)
            }
    }
}

/// `r` is the integer `n` in single precision, times `scale`.
pub open spec fn scaled_int<T: Fn(u32, u32) -> u32>(times: T, n: int, scale: u32, r: u32) -> bool {
    exists|x: u32| #[trigger] ieee::nearest_int(x, n) && call_ensures(times, (x, scale), r)
}

/// Number of bytes in a packed sign-bit code for `dim` dimensions.
pub fn binary_code_len(dim: usize) -> (r: usize)
    ensures
        r == code_len(dim as nat),
{
    if dim % 8 == 0 {
        dim / 8
    } else {
        dim / 8 + 1
    }
}

/// Dimension `i` of a packed code.
pub fn read_bit(code: &[u8], i: usize) -> (r: bool)
    requires
        i / 8 < code@.len(),
    ensures
        r == code_bit(code@, i as int),
{
    let shift: u8 = (7 - i % 8) as u8;
    (code[i / 8] >> shift) & 1 == 1
}

/// Exact int8 dot product with a 32-bit accumulator, over the full
/// `[-128, 127]` domain.
pub fn dot_i8(a: &[i8], b: &[i8]) -> (r: i32)
    requires
        a@.len() == b@.len(),
        dot_fits(a@, b@),
    ensures
        r == dot(a@, b@),
{
    let mut acc: i32 = 0;
    let mut i: usize = 0;
    while i < a.len()
        invariant
            i <= a@.len() == b@.len(),
            dot_fits(a@, b@),
            acc == dot_prefix(a@, b@, i as nat),
        decreases a@.len() - i,
    {
        let (x, y): (i32, i32) = (a[i] as i32, b[i] as i32);
        assert(-16384 <= x * y <= 16384) by (nonlinear_arith)
            requires
                -128 <= x <= 127,
                -128 <= y <= 127,
        ;
        assert(i32::MIN <= dot_prefix(a@, b@, (i + 1) as nat) <= i32::MAX);
        acc = acc + x * y;
        i += 1;
    }
    acc
}

/// Scaled int8 dot: the ranking score under per-vector scales.
pub fn dot_i8_scaled<T: Fn(u32, u32) -> u32>(a: &[i8], sa: u32, b: &[i8], sb: u32, times: &T) -> (r:
    u32)
    requires
        a@.len() == b@.len(),
        dot_fits(a@, b@),
        forall|x: u32, y: u32| call_requires(*times, (x, y)),
    ensures
        exists|scale: u32| #[trigger]
            call_ensures(*times, (sa, sb), scale) && scaled_int(*times, dot(a@, b@), scale, r),
{
    let x: u32 = ieee::from_i32(dot_i8(a, b));
    let scale: u32 = times(sa, sb);
    times(x, scale)
}

/// The number of set bits of a byte.
pub open spec fn ones(x: u8) -> int {
    ((x >> 7u8) & 1u8) + ((x >> 6u8) & 1u8) + ((x >> 5u8) & 1u8) + ((x >> 4u8) & 1u8) + ((x >> 3u8)
        & 1u8) + ((x >> 2u8) & 1u8) + ((x >> 1u8) & 1u8) + ((x >> 0u8) & 1u8)
}

/// Counts the set bits of a byte.
pub fn count_ones(x: u8) -> (r: u32)
    ensures
        r == ones(x),
        r <= 8,
{
    assert({
        &&& (x >> 1u8) & 0x55u8 <= x
        &&& {
            let p = (x - ((x >> 1u8) & 0x55u8)) as u8;
            let n = ((p & 0x33u8) + ((p >> 2u8) & 0x33u8)) as u8;
            &&& (p & 0x33u8) + ((p >> 2u8) & 0x33u8) <= 0x44
            &&& n + (n >> 4u8) <= 0xFF
            &&& ((n + (n >> 4u8)) as u8) & 0x0Fu8 == ((x >> 7u8) & 1u8) + ((x >> 6u8) & 1u8) + ((x
                >> 5u8) & 1u8) + ((x >> 4u8) & 1u8) + ((x >> 3u8) & 1u8) + ((x >> 2u8) & 1u8) + ((x
                >> 1u8) & 1u8) + ((x >> 0u8) & 1u8)
            &&& ((n + (n >> 4u8)) as u8) & 0x0Fu8 <= 8
        }
    }) by (bit_vector);
    let pairs: u8 = x - ((x >> 1) & 0x55);
    let nibbles: u8 = (pairs & 0x33) + ((pairs >> 2) & 0x33);
    ((nibbles + (nibbles >> 4)) & 0x0F) as u32
}

/// Where two codes differ within a byte, the exclusive or has a set bit.
proof fn lemma_bit_of_byte(a: Seq<u8>, b: Seq<u8>, i: nat, j: int)
    requires
        0 <= j < 8,
    ensures
        (code_bit(a, 8 * i + j) != code_bit(b, 8 * i + j)) == (((a[i as int] ^ b[i as int]) >> ((7
            - j) as u8)) & 1u8 == 1u8),
        ((a[i as int] ^ b[i as int]) >> ((7 - j) as u8)) & 1u8 <= 1,
{
    let (x, y) = (a[i as int], b[i as int]);
    let s = (7 - j) as u8;
    assert((8 * i + j) / 8 == i && (8 * i + j) % 8 == j);
    assert((((x >> s) & 1u8 == 1u8) != ((y >> s) & 1u8 == 1u8)) == (((x ^ y) >> s) & 1u8 == 1u8)
        && ((x ^ y) >> s) & 1u8 <= 1) by (bit_vector);
}

/// Bytes that agree bit by bit are equal.
pub proof fn lemma_same_bits(x: u8, y: u8)
    requires
        forall|t: int|
            0 <= t < 8 ==> ((x >> (#[trigger] (7 - t) as u8)) & 1u8 == 1u8) == ((y >> ((7
                - t) as u8)) & 1u8 == 1u8),
    ensures
        x == y,
{
    assert((7 - 0) as u8 == 7u8 && (7 - 1) as u8 == 6u8 && (7 - 2) as u8 == 5u8 && (7 - 3) as u8
        == 4u8 && (7 - 4) as u8 == 3u8 && (7 - 5) as u8 == 2u8 && (7 - 6) as u8 == 1u8 && (7
        - 7) as u8 == 0u8);
    assert(x == y) by (bit_vector)
        requires
            ((x >> 7u8) & 1u8 == 1u8) == ((y >> 7u8) & 1u8 == 1u8),
            ((x >> 6u8) & 1u8 == 1u8) == ((y >> 6u8) & 1u8 == 1u8),
            ((x >> 5u8) & 1u8 == 1u8) == ((y >> 5u8) & 1u8 == 1u8),
            ((x >> 4u8) & 1u8 == 1u8) == ((y >> 4u8) & 1u8 == 1u8),
            ((x >> 3u8) & 1u8 == 1u8) == ((y >> 3u8) & 1u8 == 1u8),
            ((x >> 2u8) & 1u8 == 1u8) == ((y >> 2u8) & 1u8 == 1u8),
            ((x >> 1u8) & 1u8 == 1u8) == ((y >> 1u8) & 1u8 == 1u8),
            ((x >> 0u8) & 1u8 == 1u8) == ((y >> 0u8) & 1u8 == 1u8),
    ;
}

/// One more byte adds the set bits of its exclusive or to the distance.
pub proof fn lemma_byte_step(a: Seq<u8>, b: Seq<u8>, i: nat)
    ensures
        differing(a, b, 8 * (i + 1)) == differing(a, b, 8 * i) + ones(a[i as int] ^ b[i as int]),
{
    let z = a[i as int] ^ b[i as int];
    let n = 8 * i;
    lemma_bit_of_byte(a, b, i, 0);
    assert(differing(a, b, n + 1) == differing(a, b, n + 0) + ((z >> 7u8) & 1u8));
    lemma_bit_of_byte(a, b, i, 1);
    assert(differing(a, b, n + 2) == differing(a, b, n + 1) + ((z >> 6u8) & 1u8));
    lemma_bit_of_byte(a, b, i, 2);
    assert(differing(a, b, n + 3) == differing(a, b, n + 2) + ((z >> 5u8) & 1u8));
    lemma_bit_of_byte(a, b, i, 3);
    assert(differing(a, b, n + 4) == differing(a, b, n + 3) + ((z >> 4u8) & 1u8));
    lemma_bit_of_byte(a, b, i, 4);
    assert(differing(a, b, n + 5) == differing(a, b, n + 4) + ((z >> 3u8) & 1u8));
    lemma_bit_of_byte(a, b, i, 5);
    assert(differing(a, b, n + 6) == differing(a, b, n + 5) + ((z >> 2u8) & 1u8));
    lemma_bit_of_byte(a, b, i, 6);
    assert(differing(a, b, n + 7) == differing(a, b, n + 6) + ((z >> 1u8) & 1u8));
    lemma_bit_of_byte(a, b, i, 7);
    assert(differing(a, b, n + 8) == differing(a, b, n + 7) + ((z >> 0u8) & 1u8));
}

/// A distance grows with the number of dimensions compared.
pub proof fn lemma_differing_bounded(a: Seq<u8>, b: Seq<u8>, m: nat, n: nat)
    requires
        m <= n,
    ensures
        differing(a, b, m) <= differing(a, b, n) <= differing(a, b, m) + (n - m),
    decreases n - m,
{
    if m < n {
        lemma_differing_bounded(a, b, m, (n - 1) as nat);
    }
}

/// Exact Hamming distance over packed sign-bit codes (lower is better).
pub fn hamming(a: &[u8], b: &[u8]) -> (r: u32)
    requires
        a@.len() == b@.len(),
        distance(a@, b@) <= u32::MAX,
    ensures
        r == distance(a@, b@),
{
    let mut acc: u32 = 0;
    let mut i: usize = 0;
    while i < a.len()
        invariant
            i <= a@.len() == b@.len(),
            distance(a@, b@) <= u32::MAX,
            acc == differing(a@, b@, 8 * i as nat),
        decreases a@.len() - i,
    {
        proof {
            lemma_byte_step(a@, b@, i as nat);
            lemma_differing_bounded(a@, b@, 8 * (i as nat + 1), 8 * a@.len());
        }
        acc = acc + count_ones(a[i] ^ b[i]);
        i += 1;
    }
    acc
}

/// Hamming adapted to the higher-is-better score convention: the negated
/// distance in single precision.
pub fn hamming_score(a: &[u8], b: &[u8]) -> (r: u32)
    requires
        a@.len() == b@.len(),
        distance(a@, b@) <= u32::MAX,
    ensures
        ieee::nearest_int(ieee::negated(r), distance(a@, b@) as int),
{
    ieee::negate(ieee::from_u32(hamming(a, b)))
}

/// Single-precision dot product on the detected backend: the bits that a scan
/// on that backend scores with.
pub fn dot_f32<M: Fn(u32, u32, u32) -> u32, T: Fn(u32, u32) -> u32, P: Fn(u32, u32) -> u32>(
    a: &[u32],
    b: &[u32],
    detected: Backend,
    fma: &M,
    times: &T,
    plus: &P,
) -> (r: u32)
    requires
        a@.len() == b@.len(),
        forall|x: u32, y: u32, z: u32| call_requires(*fma, (x, y, z)),
        forall|x: u32, y: u32| call_requires(*times, (x, y)),
        forall|x: u32, y: u32| call_requires(*plus, (x, y)),
    ensures
        backend::backend_dot(detected, *fma, *times, *plus, a@, b@, r),
{
    detected.dot_f32(a, b, fma, times, plus)
}

/// Asymmetric single-precision query × binary code on the detected backend.
pub fn dot_f32_bin<P: Fn(u32, u32) -> u32>(
    q: &[u32],
    code: &[u8],
    detected: Backend,
    plus: &P,
) -> (r: u32)
    requires
        code@.len() == code_len(q@.len()),
        forall|x: u32, y: u32| call_requires(*plus, (x, y)),
    ensures
        backend::backend_signed_dot(detected, *plus, q@, code@, r),
{
    detected.dot_f32_bin(q, code, plus)
}

/// Asymmetric int8 query × binary code: the exact ±1 dot.
pub fn dot_i8_bin(q: &[i8], code: &[u8]) -> (r: i32)
    requires
        code@.len() == code_len(q@.len()),
        signed_fits(q@, code@),
    ensures
        r == signed_sum(q@, code@),
{
    let mut acc: i32 = 0;
    let mut i: usize = 0;
    while i < q.len()
        invariant
            i <= q@.len(),
            code@.len() == code_len(q@.len()),
            signed_fits(q@, code@),
            acc == signed_prefix(q@, code@, i as nat),
        decreases q@.len() - i,
    {
        assert(i32::MIN <= signed_prefix(q@, code@, (i + 1) as nat) <= i32::MAX);
        if read_bit(code, i) {
            acc = acc + q[i] as i32;
        } else {
            acc = acc - q[i] as i32;
        }
        i += 1;
    }
    acc
}

} // verus!
