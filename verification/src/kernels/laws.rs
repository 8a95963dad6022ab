//! What the kernels promise over all inputs.

use vstd::prelude::*;
use crate::ieee;
use crate::kernels;

verus! {

/// A prefix of a dot product stays within `16384` per dimension, the square of
/// the lowest code.
proof fn lemma_dot_bound(a: Seq<i8>, b: Seq<i8>, n: nat)
    requires
        n <= a.len(),
    ensures
        -16384 * n <= kernels::dot_prefix(a, b, n) <= 16384 * n,
    decreases n,
{
    if n > 0 {
        lemma_dot_bound(a, b, (n - 1) as nat);
        let (x, y) = (a[n - 1] as int, b[n - 1] as int);
        assert(-16384 <= x * y <= 16384) by (nonlinear_arith)
            requires
                -128 <= x <= 127,
                -128 <= y <= 127,
        ;
    }
}

/// The int8 dot product is exact over the full `[-128, 127]` domain up to
/// 131071 dimensions: no partial sum leaves the accumulator.
pub proof fn law_dot_exact_over_full_domain(a: Seq<i8>, b: Seq<i8>)
    requires
        a.len() <= 131_071,
    ensures
        kernels::dot_fits(a, b),
{
    assert forall|n: nat| n <= a.len() implies i32::MIN <= #[trigger] kernels::dot_prefix(a, b, n)
        <= i32::MAX by {
        lemma_dot_bound(a, b, n);
    }
}

proof fn lemma_signed_bound(q: Seq<i8>, code: Seq<u8>, n: nat)
    requires
        n <= q.len(),
    ensures
        -128 * n <= kernels::signed_prefix(q, code, n) <= 128 * n,
    decreases n,
{
    if n > 0 {
        lemma_signed_bound(q, code, (n - 1) as nat);
    }
}

/// The asymmetric int8 dot is exact over the full domain up to 16777215
/// dimensions.
pub proof fn law_signed_sum_exact_over_full_domain(q: Seq<i8>, code: Seq<u8>)
    requires
        q.len() <= 16_777_215,
    ensures
        kernels::signed_fits(q, code),
{
    assert forall|n: nat| n <= q.len() implies i32::MIN <= #[trigger] kernels::signed_prefix(
        q,
        code,
        n,
    ) <= i32::MAX by {
        lemma_signed_bound(q, code, n);
    }
}

/// The distance of two codes is at most the number of their bits.
pub proof fn law_distance_bounded(a: Seq<u8>, b: Seq<u8>)
    ensures
        kernels::distance(a, b) <= 8 * a.len(),
{
    kernels::lemma_differing_bounded(a, b, 0, 8 * a.len());
}

proof fn lemma_differing_symmetric(a: Seq<u8>, b: Seq<u8>, n: nat)
    ensures
        kernels::differing(a, b, n) == kernels::differing(b, a, n),
    decreases n,
{
    if n > 0 {
        lemma_differing_symmetric(a, b, (n - 1) as nat);
    }
}

/// The Hamming distance is symmetric.
pub proof fn law_hamming_symmetric(a: Seq<u8>, b: Seq<u8>)
    requires
        a.len() == b.len(),
    ensures
        kernels::distance(a, b) == kernels::distance(b, a),
{
    lemma_differing_symmetric(a, b, 8 * a.len());
}

/// A distance of zero over `n` dimensions means that none of them differs.
pub proof fn law_zero_distance(a: Seq<u8>, b: Seq<u8>, n: nat)
    ensures
        kernels::differing(a, b, n) == 0 <==> forall|i: int|
            0 <= i < n ==> kernels::code_bit(a, i) == #[trigger] kernels::code_bit(b, i),
    decreases n,
{
    if n > 0 {
        law_zero_distance(a, b, (n - 1) as nat);
        if kernels::differing(a, b, n) != 0 {
            if kernels::differing(a, b, (n - 1) as nat) == 0 {
                assert(kernels::code_bit(a, n - 1) != kernels::code_bit(b, n - 1));
            }
        }
    }
}

/// Padding bits beyond dimension `dim` are zero.
pub open spec fn zero_padded(code: Seq<u8>, dim: nat) -> bool {
    forall|i: int| dim <= i < 8 * code.len() ==> !(#[trigger] kernels::code_bit(code, i))
}

/// Between two codes that keep their padding zero, the distance counts the
/// differing dimensions and nothing else.
pub proof fn law_padding_cancels(a: Seq<u8>, b: Seq<u8>, dim: nat)
    requires
        a.len() == b.len(),
        dim <= 8 * a.len(),
        zero_padded(a, dim),
        zero_padded(b, dim),
    ensures
        kernels::distance(a, b) == kernels::differing(a, b, dim),
{
    lemma_padding_cancels(a, b, dim, 8 * a.len());
}

proof fn lemma_padding_cancels(a: Seq<u8>, b: Seq<u8>, dim: nat, n: nat)
    requires
        a.len() == b.len(),
        dim <= n <= 8 * a.len(),
        zero_padded(a, dim),
        zero_padded(b, dim),
    ensures
        kernels::differing(a, b, n) == kernels::differing(a, b, dim),
    decreases n,
{
    if dim < n {
        lemma_padding_cancels(a, b, dim, (n - 1) as nat);
        assert(!kernels::code_bit(a, n - 1));
        assert(!kernels::code_bit(b, n - 1));
    }
}

/// The ±1 vector that a code stands for.
pub open spec fn signs(code: Seq<u8>, dim: nat) -> Seq<i8> {
    Seq::new(
        dim,
        |i: int|
            if kernels::code_bit(code, i) {
                1i8
            } else {
                -1i8
            },
    )
}

/// The asymmetric int8 dot is the plain dot product with the ±1 vector that
/// the code stands for.
pub proof fn law_signed_sum_is_dot(q: Seq<i8>, code: Seq<u8>)
    ensures
        kernels::signed_sum(q, code) == kernels::dot(q, signs(code, q.len())),
{
    lemma_signed_is_dot(q, code, q.len());
}

proof fn lemma_signed_is_dot(q: Seq<i8>, code: Seq<u8>, n: nat)
    requires
        n <= q.len(),
    ensures
        kernels::signed_prefix(q, code, n) == kernels::dot_prefix(q, signs(code, q.len()), n),
    decreases n,
{
    if n > 0 {
        lemma_signed_is_dot(q, code, (n - 1) as nat);
        let x = q[n - 1] as int;
        assert(x * 1 == x && x * (-1) == -x) by (nonlinear_arith);
    }
}

/// The dot product of two ±1 vectors counts the dimensions that agree less
/// those that differ: it is the dimension minus twice the distance of their
/// codes.
pub proof fn law_signs_dot_is_distance(a: Seq<u8>, b: Seq<u8>, dim: nat)
    requires
        a.len() == b.len(),
        dim <= 8 * a.len(),
        zero_padded(a, dim),
        zero_padded(b, dim),
    ensures
        kernels::signed_sum(signs(a, dim), b) == dim - 2 * kernels::distance(a, b),
{
    law_padding_cancels(a, b, dim);
    lemma_signs_dot(a, b, dim, dim);
}

proof fn lemma_signs_dot(a: Seq<u8>, b: Seq<u8>, dim: nat, n: nat)
    requires
        n <= dim,
    ensures
        kernels::signed_prefix(signs(a, dim), b, n) == n - 2 * kernels::differing(a, b, n),
    decreases n,
{
    if n > 0 {
        lemma_signs_dot(a, b, dim, (n - 1) as nat);
    }
}

/// The Hamming distance obeys the triangle inequality.
pub proof fn law_hamming_triangle(a: Seq<u8>, b: Seq<u8>, c: Seq<u8>)
    requires
        a.len() == b.len() == c.len(),
    ensures
        kernels::distance(a, c) <= kernels::distance(a, b) + kernels::distance(b, c),
{
    lemma_triangle(a, b, c, 8 * a.len());
}

proof fn lemma_triangle(a: Seq<u8>, b: Seq<u8>, c: Seq<u8>, n: nat)
    ensures
        kernels::differing(a, c, n) <= kernels::differing(a, b, n) + kernels::differing(b, c, n),
    decreases n,
{
    if n > 0 {
        lemma_triangle(a, b, c, (n - 1) as nat);
    }
}

/// The Hamming distance is zero for equal bytes and for no others.
pub proof fn law_zero_distance_means_equal(a: Seq<u8>, b: Seq<u8>)
    requires
        a.len() == b.len(),
    ensures
        kernels::distance(a, b) == 0 <==> a == b,
{
    law_zero_distance(a, b, 8 * a.len());
    if kernels::distance(a, b) == 0 {
        assert forall|k: int| 0 <= k < a.len() implies a[k] == b[k] by {
            let (x, y) = (a[k], b[k]);
            assert forall|t: int| 0 <= t < 8 implies ((x >> (#[trigger] (7 - t) as u8)) & 1u8
                == 1u8) == ((y >> ((7 - t) as u8)) & 1u8 == 1u8) by {
                let i = 8 * k + t;
                assert(i / 8 == k && i % 8 == t);
                assert(kernels::code_bit(a, i) == kernels::code_bit(b, i));
            }
            kernels::lemma_same_bits(x, y);
        }
        assert(a =~= b);
    }
}

/// Scores made of distances are higher where distances are lower; up to `2^24`
/// bits, a lower distance gets a strictly higher score.
pub proof fn law_hamming_score_reverses_order(near: nat, far: nat, high: u32, low: u32)
    requires
        near <= far,
        ieee::nearest_int(ieee::negated(high), near as int),
        ieee::nearest_int(ieee::negated(low), far as int),
    ensures
        ieee::total_rank(high) >= ieee::total_rank(low),
        near < far <= 0x100_0000 ==> ieee::total_rank(high) > ieee::total_rank(low),
{
    ieee::lemma_nearest_monotone(ieee::negated(high), near, ieee::negated(low), far);
}

} // verus!
