//! Symmetric linear int8 quantization (no zero-point), per-vector or fixed
//! scale. Division and multiplication in single precision come from the
//! caller; finding the scale's source, rounding and clamping are done here.

use vstd::prelude::*;
use crate::ieee;
use crate::kernels;
use crate::rounding;

verus! {

/// `m` is the greatest magnitude among the elements that are numbers, or zero
/// where there is none.
pub open spec fn greatest_magnitude(src: Seq<u32>, m: u32) -> bool {
    &&& forall|i: int|
        0 <= i < src.len() && !ieee::is_nan(#[trigger] src[i]) ==> ieee::magnitude(src[i]) <= m
    &&& m == 0 || exists|i: int|
        0 <= i < src.len() && !ieee::is_nan(#[trigger] src[i]) && ieee::magnitude(src[i]) == m
}

/// `r` is the symmetric scale of a vector: its greatest magnitude over 127.
pub open spec fn is_scale<V: Fn(u32, u32) -> u32>(over: V, src: Seq<u32>, r: u32) -> bool {
    exists|m: u32| #[trigger]
        greatest_magnitude(src, m) && call_ensures(over, (m, ieee::MAX_CODE_32), r)
}

/// `c` is the code of element `x`: the quotient with the scale, rounded.
pub open spec fn is_code<V: Fn(u32, u32) -> u32>(over: V, x: u32, scale: u32, c: i8) -> bool {
    exists|p: u32| #[trigger] call_ensures(over, (x, scale), p) && c == ieee::rounded_code(p)
}

/// `codes` are what quantizing `src` with `scale` can give. A scale that is
/// not positive (zero, negative, NaN) gives all-zero codes.
pub open spec fn quantized<V: Fn(u32, u32) -> u32>(
    over: V,
    src: Seq<u32>,
    scale: u32,
    codes: Seq<i8>,
) -> bool {
    &&& codes.len() == src.len()
    &&& forall|i: int|
        0 <= i < src.len() ==> if ieee::positive(scale) {
            is_code(over, src[i], scale, #[trigger] codes[i])
        } else {
            codes[i] == 0
        }
}

/// Greatest magnitude of the elements; NaN elements are ignored.
pub fn max_abs(src: &[u32]) -> (r: u32)
    ensures
        greatest_magnitude(src@, r),
{
    let mut m: u32 = 0;
    let mut i: usize = 0;
    while i < src.len()
        invariant
            i <= src@.len(),
            greatest_magnitude(src@.take(i as int), m),
        decreases src@.len() - i,
    {
        let x: u32 = ieee::abs(src[i]);
        let ghost before = src@.take(i as int);
        let ghost after = src@.take(i + 1);
        let ghost old_m = m;
        assert(forall|j: int| 0 <= j < i ==> before[j] == #[trigger] after[j]);
        assert(after[i as int] == src@[i as int]);
        if x <= ieee::INF_32 && x > m {
            m = x;
        }
        i += 1;
        proof {
            if m == old_m && m != 0 {
                let w = choose|w: int|
                    0 <= w < before.len() && !ieee::is_nan(#[trigger] before[w])
                        && ieee::magnitude(before[w]) == m;
                assert(after[w] == before[w]);
            }
        }
    }
    assert(src@.take(src@.len() as int) =~= src@);
    m
}

/// Symmetric per-vector scale: `max|x| / 127`.
pub fn max_abs_scale<V: Fn(u32, u32) -> u32>(src: &[u32], over: &V) -> (r: u32)
    requires
        forall|x: u32, y: u32| call_requires(*over, (x, y)),
    ensures
        is_scale(*over, src@, r),
{
    let m: u32 = max_abs(src);
    over(m, ieee::MAX_CODE_32)
}

/// Corpus-wide fixed scale: `max|x| / 127` over a flat sample block of whole
/// `dim`-length rows.
pub fn fixed_scale<V: Fn(u32, u32) -> u32>(block: &[u32], dim: usize, over: &V) -> (r: u32)
    requires
        dim > 0,
        block@.len() % dim as nat == 0,
        forall|x: u32, y: u32| call_requires(*over, (x, y)),
    ensures
        is_scale(*over, block@, r),
{
    max_abs_scale(block, over)
}

/// `out[i] = round(src[i] / scale)` (half away from zero), clamped to
/// `[-127, 127]`. A scale that is not positive emits all-zero codes.
pub fn quantize_i8<V: Fn(u32, u32) -> u32>(src: &[u32], scale: u32, out: &mut [i8], over: &V)
    requires
        src@.len() == old(out)@.len(),
        forall|x: u32, y: u32| call_requires(*over, (x, y)),
    ensures
        quantized(*over, src@, scale, final(out)@),
{
    let n: usize = out.len();
    let usable: bool = ieee::is_positive(scale);
    let mut i: usize = 0;
    while i < n
        invariant
            i <= n == out@.len() == src@.len(),
            usable == ieee::positive(scale),
            forall|x: u32, y: u32| call_requires(*over, (x, y)),
            forall|j: int|
                0 <= j < i ==> if usable {
                    is_code(*over, src@[j], scale, #[trigger] out@[j])
                } else {
                    out@[j] == 0
                },
        decreases n - i,
    {
        let c: i8 = if usable {
            let p: u32 = over(src[i], scale);
            let c: i8 = ieee::round_to_code(p);
            assert(is_code(*over, src@[i as int], scale, c));
            c
        } else {
            0
        };
        out[i] = c;
        i += 1;
    }
}

/// Allocating convenience for [`quantize_i8`].
pub fn quantize_i8_vec<V: Fn(u32, u32) -> u32>(src: &[u32], scale: u32, over: &V) -> (r: Vec<i8>)
    requires
        forall|x: u32, y: u32| call_requires(*over, (x, y)),
    ensures
        quantized(*over, src@, scale, r@),
{
    let mut out: Vec<i8> = vec![0i8; src.len()];
    quantize_i8(src, scale, out.as_mut_slice(), over);
    out
}

/// `out[i] = code[i] as f32 * scale`.
pub fn dequantize_i8<T: Fn(u32, u32) -> u32>(code: &[i8], scale: u32, out: &mut [u32], times: &T)
    requires
        code@.len() == old(out)@.len(),
        forall|x: u32, y: u32| call_requires(*times, (x, y)),
    ensures
        final(out)@.len() == code@.len(),
        forall|i: int|
            0 <= i < code@.len() ==> kernels::scaled_int(
                *times,
                code@[i] as int,
                scale,
                #[trigger] final(out)@[i],
            ),
{
    let n: usize = out.len();
    let mut i: usize = 0;
    while i < n
        invariant
            i <= n == out@.len() == code@.len(),
            forall|x: u32, y: u32| call_requires(*times, (x, y)),
            forall|j: int|
                0 <= j < i ==> kernels::scaled_int(
                    *times,
                    code@[j] as int,
                    scale,
                    #[trigger] out@[j],
                ),
        decreases n - i,
    {
        let x: u32 = ieee::from_i32(code[i] as i32);
        let y: u32 = times(x, scale);
        out[i] = y;
        assert(kernels::scaled_int(*times, code@[i as int] as int, scale, y));
        i += 1;
    }
}

/// The quantizer never emits a code outside `[-127, 127]`, whatever the
/// arithmetic gives.
pub proof fn law_codes_in_range<V: Fn(u32, u32) -> u32>(
    over: V,
    src: Seq<u32>,
    scale: u32,
    codes: Seq<i8>,
)
    requires
        quantized(over, src, scale, codes),
    ensures
        forall|i: int| 0 <= i < codes.len() ==> -127 <= #[trigger] codes[i] <= 127,
{
    assert forall|i: int| 0 <= i < codes.len() implies -127 <= #[trigger] codes[i] <= 127 by {
        if ieee::positive(scale) {
            assert(is_code(over, src[i], scale, codes[i]));
            let p = choose|p: u32| #[trigger]
                call_ensures(over, (src[i], scale), p) && codes[i] == ieee::rounded_code(p);
            ieee::lemma_code_range(p);
        }
    }
}

/// Dividing the negated number gives the negated quotient, or no number both
/// times.
pub open spec fn sign_symmetric<V: Fn(u32, u32) -> u32>(over: V) -> bool {
    forall|x: u32, y: u32, p: u32, q: u32| #[trigger]
        call_ensures(over, (x, y), p) && #[trigger] call_ensures(over, (ieee::negated(x), y), q)
            ==> q == ieee::negated(p) || (ieee::is_nan(p) && ieee::is_nan(q))
}

/// IEEE division is sign-symmetric.
pub proof fn law_quotient_is_sign_symmetric<V: Fn(u32, u32) -> u32>(over: V)
    requires
        rounding::is_quotient(over),
    ensures
        sign_symmetric(over),
{
    assert forall|x: u32, y: u32, p: u32, q: u32| #[trigger]
        call_ensures(over, (x, y), p) && #[trigger] call_ensures(
            over,
            (ieee::negated(x), y),
            q,
        ) implies q == ieee::negated(p) || (ieee::is_nan(p) && ieee::is_nan(q)) by {
        assert(rounding::quotient_of(x, y, p));
        assert(rounding::quotient_of(ieee::negated(x), y, q));
        assert(ieee::magnitude(ieee::negated(x)) == ieee::magnitude(x));
        if ieee::is_finite(x) && ieee::is_finite(y) && !rounding::is_zero(y) {
            rounding::lemma_rounds_unique(
                ieee::magnitude(p),
                ieee::magnitude(q),
                ieee::steps(x) * rounding::one(),
                ieee::steps(y),
            );
        }
    }
}

/// Negated elements get negated codes, given a sign-symmetric division.
pub proof fn law_negated_elements_get_negated_codes<V: Fn(u32, u32) -> u32>(
    over: V,
    src: Seq<u32>,
    negated: Seq<u32>,
    scale: u32,
    codes: Seq<i8>,
    negated_codes: Seq<i8>,
)
    requires
        sign_symmetric(over),
        negated.len() == src.len(),
        forall|i: int| 0 <= i < src.len() ==> #[trigger] negated[i] == ieee::negated(src[i]),
        quantized(over, src, scale, codes),
        quantized(over, negated, scale, negated_codes),
    ensures
        forall|i: int| 0 <= i < src.len() ==> #[trigger] negated_codes[i] == -codes[i],
{
    assert forall|i: int| 0 <= i < src.len() implies #[trigger] negated_codes[i] == -codes[i] by {
        if ieee::positive(scale) {
            assert(is_code(over, src[i], scale, codes[i]));
            assert(is_code(over, negated[i], scale, negated_codes[i]));
            let p = choose|p: u32| #[trigger]
                call_ensures(over, (src[i], scale), p) && codes[i] == ieee::rounded_code(p);
            let q = choose|q: u32| #[trigger]
                call_ensures(over, (negated[i], scale), q) && negated_codes[i]
                    == ieee::rounded_code(q);
            assert(call_ensures(over, (ieee::negated(src[i]), scale), q));
            if q == ieee::negated(p) {
                ieee::lemma_negated_code(p);
            }
        }
    }
}

/// An all-zero vector gets scale 0 and all-zero codes, given that dividing
/// zero by 127 gives zero.
pub proof fn law_zero_vector<V: Fn(u32, u32) -> u32>(
    over: V,
    src: Seq<u32>,
    scale: u32,
    codes: Seq<i8>,
)
    requires
        forall|i: int| 0 <= i < src.len() ==> ieee::magnitude(#[trigger] src[i]) == 0,
        forall|r: u32| #[trigger]
            call_ensures(over, (ieee::ZERO_32, ieee::MAX_CODE_32), r) ==> r == ieee::ZERO_32,
        is_scale(over, src, scale),
        quantized(over, src, scale, codes),
    ensures
        scale == ieee::ZERO_32,
        forall|i: int| 0 <= i < codes.len() ==> #[trigger] codes[i] == 0,
{
    let m = choose|m: u32| #[trigger]
        greatest_magnitude(src, m) && call_ensures(over, (m, ieee::MAX_CODE_32), scale);
    assert(m == 0);
}

} // verus!
