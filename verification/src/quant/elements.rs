//! What the quantizers do to every element, in terms of the values that the
//! patterns stand for.

use vstd::prelude::*;
use vstd::arithmetic::power2::*;
use crate::ieee;
use crate::kernels;
use crate::quant::binary;
use crate::quant::int8;
use crate::rounding;
use crate::values;

verus! {

/// The greatest magnitude: no element that is a number lies further from zero,
/// and one lies as far, or all are zero or no numbers.
pub proof fn law_greatest_magnitude(src: &[u32], m: u32)
    requires
        call_ensures(int8::max_abs, (src,), m),
    ensures
        !rounding::negative(m),
        !ieee::is_nan(m),
        forall|i: int|
            #![trigger src@[i]]
            0 <= i < src@.len() && ieee::is_finite(src@[i]) && ieee::is_finite(m)
                ==> -rounding::units(m) <= rounding::units(src@[i]) <= rounding::units(m),
        forall|i: int|
            #![trigger src@[i]]
            0 <= i < src@.len() && rounding::is_infinite(src@[i]) ==> rounding::is_infinite(m),
        m == 0 || exists|i: int|
            #![trigger src@[i]]
            0 <= i < src@.len() && (src@[i] == m || src@[i] == ieee::negated(m)),
{
    assert forall|i: int|
        #![trigger src@[i]]
        0 <= i < src@.len() && ieee::is_finite(src@[i]) && ieee::is_finite(m) implies
        -rounding::units(m) <= rounding::units(src@[i]) <= rounding::units(m) by {
        let x = ieee::magnitude(src@[i]);
        assert(x <= m);
        if x < m {
            ieee::lemma_steps_monotone(x, m);
        }
    }
    if m != 0 {
        let i = choose|i: int|
            0 <= i < src@.len() && !ieee::is_nan(#[trigger] src@[i]) && ieee::magnitude(src@[i])
                == m;
        assert(src@[i] == m || src@[i] == ieee::negated(m));
    }
}

/// The pattern of 127 is 127 in value.
pub proof fn law_greatest_code_value()
    ensures
        rounding::units(ieee::MAX_CODE_32) == 127 * pow2(149),
        ieee::is_finite(ieee::MAX_CODE_32),
{
    lemma_pow2_adds(17, 132);
    lemma2_to64();
    assert(ieee::MAX_CODE_32 / 0x80_0000 == 133 && ieee::MAX_CODE_32 % 0x80_0000 == 0x7E_0000);
    assert((0x7E_0000 + 0x80_0000) == 127 * pow2(17));
    let (a, b) = (pow2(17), pow2(132));
    assert((127 * a) * b == 127 * (a * b)) by (nonlinear_arith);
}

/// The scale of a vector is its greatest magnitude over 127; so is the scale of
/// a sample, over all its rows.
pub proof fn law_scale_is_greatest_over_127<V: Fn(u32, u32) -> u32>(
    src: &[u32],
    dim: usize,
    over: &V,
    r: u32,
)
    requires
        call_ensures(int8::max_abs_scale::<V>, (src, over), r) || call_ensures(
            int8::fixed_scale::<V>,
            (src, dim, over),
            r,
        ),
    ensures
        exists|m: u32|
            #![trigger call_ensures(*over, (m, ieee::MAX_CODE_32), r)]
            call_ensures(*over, (m, ieee::MAX_CODE_32), r) && is_greatest(src@, m),
{
    let m = choose|m: u32| #[trigger]
        int8::greatest_magnitude(src@, m) && call_ensures(*over, (m, ieee::MAX_CODE_32), r);
    lemma_greatest(src@, m);
    assert(call_ensures(*over, (m, ieee::MAX_CODE_32), r));
}

/// `m` is the pattern of an element's absolute value, and no element that is a
/// number has a greater one; zero where there is none.
pub open spec fn is_greatest(src: Seq<u32>, m: u32) -> bool {
    &&& m <= ieee::INF_32
    &&& forall|i: int|
        0 <= i < src.len() ==> (#[trigger] src[i]) % ieee::SIGN_32 <= m || src[i] % ieee::SIGN_32
            > ieee::INF_32
    &&& m == 0 || exists|i: int| 0 <= i < src.len() && (#[trigger] src[i]) % ieee::SIGN_32 == m
}

proof fn lemma_greatest(src: Seq<u32>, m: u32)
    requires
        int8::greatest_magnitude(src, m),
    ensures
        is_greatest(src, m),
{
    assert forall|i: int| 0 <= i < src.len() implies (#[trigger] src[i]) % ieee::SIGN_32 <= m
        || src[i] % ieee::SIGN_32 > ieee::INF_32 by {
        assert(ieee::magnitude(src[i]) == src[i] % ieee::SIGN_32);
    }
    if m != 0 {
        let i = choose|i: int|
            0 <= i < src.len() && !ieee::is_nan(#[trigger] src[i]) && ieee::magnitude(src[i]) == m;
        assert(src[i] % ieee::SIGN_32 == m);
    }
}

/// Every code is the one nearest to its element's quotient with the scale; all
/// are zero where the scale is not above zero.
pub proof fn law_codes_are_nearest<V: Fn(u32, u32) -> u32>(
    src: &[u32],
    scale: u32,
    over: &V,
    codes: Vec<i8>,
    i: int,
)
    requires
        call_ensures(int8::quantize_i8_vec::<V>, (src, scale, over), codes),
        0 <= i < src@.len(),
    ensures
        codes@.len() == src@.len(),
        ieee::is_finite(scale) && rounding::units(scale) > 0 || (rounding::is_infinite(scale)
            && !rounding::negative(scale)) ==> exists|p: u32| #[trigger]
            call_ensures(*over, (src@[i], scale), p) && values::nearest_code(p, codes@[i] as int),
        ieee::is_nan(scale) || rounding::negative(scale) || rounding::units(scale) == 0
            ==> codes@[i] == 0,
{
    lemma_code(*over, src@, scale, codes@, i);
}

pub proof fn lemma_code<V: Fn(u32, u32) -> u32>(
    over: V,
    src: Seq<u32>,
    scale: u32,
    codes: Seq<i8>,
    i: int,
)
    requires
        int8::quantized(over, src, scale, codes),
        0 <= i < src.len(),
    ensures
        codes.len() == src.len(),
        ieee::is_finite(scale) && rounding::units(scale) > 0 || (rounding::is_infinite(scale)
            && !rounding::negative(scale)) ==> exists|p: u32| #[trigger]
            call_ensures(over, (src[i], scale), p) && values::nearest_code(p, codes[i] as int),
        ieee::is_nan(scale) || rounding::negative(scale) || rounding::units(scale) == 0
            ==> codes[i] == 0,
{
    assert(ieee::steps(0) == 0);
    if ieee::positive(scale) {
        if scale < ieee::INF_32 {
            ieee::lemma_steps_monotone(0, scale);
        } else {
            vstd::arithmetic::power2::lemma_pow2_pos(254);
            assert(ieee::steps(scale) > 0) by {
                let p = pow2(254);
                assert(0x80_0000 * p > 0) by (nonlinear_arith)
                    requires
                        p > 0,
                ;
            }
        }
        assert(int8::is_code(over, src[i], scale, codes[i]));
        let p = choose|p: u32| #[trigger]
            call_ensures(over, (src[i], scale), p) && codes[i] == ieee::rounded_code(p);
        values::lemma_nearest_code(p);
        assert(call_ensures(over, (src[i], scale), p));
    } else {
        assert(codes[i] == 0);
    }
}

/// A packed bit is set where its element is above zero, and nowhere else: not
/// for zeros, for NaNs or beyond the last element.
pub proof fn law_bits_are_signs(src: &[u32], code: Vec<u8>, i: int)
    requires
        call_ensures(binary::pack_sign_bits_vec, (src,), code),
        0 <= i < 8 * code@.len(),
    ensures
        src@.len() <= 8 * code@.len() < src@.len() + 8,
        i >= src@.len() ==> !kernels::code_bit(code@, i),
        i < src@.len() && ieee::is_nan(src@[i]) ==> !kernels::code_bit(code@, i),
        i < src@.len() && rounding::is_infinite(src@[i]) ==> (kernels::code_bit(code@, i)
            <==> !rounding::negative(src@[i])),
        i < src@.len() && ieee::is_finite(src@[i]) ==> (kernels::code_bit(code@, i)
            <==> rounding::units(src@[i]) > 0),
{
    lemma_bit(src@, code@, i);
}

pub proof fn lemma_bit(src: Seq<u32>, code: Seq<u8>, i: int)
    requires
        binary::packs(src, code),
        0 <= i < 8 * code.len(),
    ensures
        src.len() <= 8 * code.len() < src.len() + 8,
        i >= src.len() ==> !kernels::code_bit(code, i),
        i < src.len() && ieee::is_nan(src[i]) ==> !kernels::code_bit(code, i),
        i < src.len() && rounding::is_infinite(src[i]) ==> (kernels::code_bit(code, i)
            <==> !rounding::negative(src[i])),
        i < src.len() && ieee::is_finite(src[i]) ==> (kernels::code_bit(code, i)
            <==> rounding::units(src[i]) > 0),
{
    if i < src.len() {
        assert(kernels::code_bit(code, i) == ieee::positive(src[i]));
        if ieee::is_finite(src[i]) {
            assert(ieee::steps(0) == 0);
            if ieee::magnitude(src[i]) > 0 {
                ieee::lemma_steps_monotone(0, ieee::magnitude(src[i]));
            }
        }
    }
}

} // verus!
