//! Sign-bit binary packing, MSB-first.
//!
//! The bit rule is `x > 0.0` strictly: both zeros pack as 0, and so does NaN.

use vstd::prelude::*;
use vstd::arithmetic::power2::*;
use crate::ieee;
use crate::kernels;
use crate::kernels::backend::{self, Backend};
use crate::kernels::determinism;
use crate::rounding;
use crate::kernels::laws;

verus! {

/// `code` is the packed form of `src`: bit `i` is set exactly where element
/// `i` is positive, and the padding is zero.
pub open spec fn packs(src: Seq<u32>, code: Seq<u8>) -> bool {
    &&& code.len() == kernels::code_len(src.len())
    &&& forall|i: int|
        0 <= i < src.len() ==> #[trigger] kernels::code_bit(code, i) == ieee::positive(src[i])
    &&& laws::zero_padded(code, src.len())
}

/// `+1.0` for a set bit, `-1.0` for a clear one.
pub open spec fn sign_value(bit: bool) -> u32 {
    if bit {
        ieee::ONE_32
    } else {
        ieee::MINUS_ONE_32
    }
}

/// Setting one bit of a byte leaves the others.
proof fn lemma_set_bit(v: u8, s: u8, t: u8)
    requires
        s < 8,
        t < 8,
    ensures
        ((v | (1u8 << s)) >> t) & 1u8 == (if s == t {
            1u8
        } else {
            (v >> t) & 1u8
        }),
{
    assert(((v | (1u8 << s)) >> t) & 1u8 == (if s == t {
        1u8
    } else {
        (v >> t) & 1u8
    })) by (bit_vector)
        requires
            s < 8,
            t < 8,
    ;
}

/// Packs sign bits into `out`, which is `binary_code_len(src.len())` bytes.
pub fn pack_sign_bits(src: &[u32], out: &mut [u8])
    requires
        old(out)@.len() == kernels::code_len(src@.len()),
    ensures
        packs(src@, final(out)@),
{
    let n: usize = out.len();
    let mut k: usize = 0;
    while k < n
        invariant
            k <= n == out@.len() == old(out)@.len(),
            forall|j: int| 0 <= j < k ==> out@[j] == 0,
        decreases n - k,
    {
        out[k] = 0;
        k += 1;
    }
    assert forall|j: int| 0 <= j < 8 * out@.len() implies !(#[trigger] kernels::code_bit(
        out@,
        j,
    )) by {
        let s = (7 - j % 8) as u8;
        assert(out@[j / 8] == 0);
        assert((0u8 >> s) & 1u8 == 0u8) by (bit_vector);
    }
    let mut i: usize = 0;
    while i < src.len()
        invariant
            i <= src@.len(),
            out@.len() == kernels::code_len(src@.len()),
            forall|j: int|
                0 <= j < 8 * out@.len() ==> #[trigger] kernels::code_bit(out@, j) == (j < i
                    && ieee::positive(src@[j])),
        decreases src@.len() - i,
    {
        if ieee::is_positive(src[i]) {
            let shift: u8 = (7 - i % 8) as u8;
            let ghost before = out@;
            out[i / 8] = out[i / 8] | (1u8 << shift);
            assert forall|j: int| 0 <= j < 8 * out@.len() implies #[trigger] kernels::code_bit(
                out@,
                j,
            ) == (j < i + 1 && ieee::positive(src@[j])) by {
                assert(kernels::code_bit(before, j) == (j < i && ieee::positive(src@[j])));
                if j / 8 == i / 8 {
                    lemma_set_bit(before[j / 8], shift, (7 - j % 8) as u8);
                    assert((i % 8 == j % 8) == (i == j));
                }
            }
        }
        i += 1;
    }
}

/// Allocating convenience for [`pack_sign_bits`].
pub fn pack_sign_bits_vec(src: &[u32]) -> (r: Vec<u8>)
    ensures
        packs(src@, r@),
{
    let mut out: Vec<u8> = vec![0u8; kernels::binary_code_len(src.len())];
    pack_sign_bits(src, out.as_mut_slice());
    out
}

/// Reconstructs the ±1 vector that a code represents.
pub fn unpack_sign_bits(code: &[u8], out: &mut [u32])
    requires
        code@.len() == kernels::code_len(old(out)@.len()),
    ensures
        final(out)@.len() == old(out)@.len(),
        forall|i: int|
            0 <= i < final(out)@.len() ==> #[trigger] final(out)@[i] == sign_value(
                kernels::code_bit(code@, i),
            ),
{
    let n: usize = out.len();
    let mut i: usize = 0;
    while i < n
        invariant
            i <= n == out@.len() == old(out)@.len(),
            code@.len() == kernels::code_len(n as nat),
            forall|j: int|
                0 <= j < i ==> #[trigger] out@[j] == sign_value(kernels::code_bit(code@, j)),
        decreases n - i,
    {
        out[i] = if kernels::read_bit(code, i) {
            ieee::ONE_32
        } else {
            ieee::MINUS_ONE_32
        };
        i += 1;
    }
}

/// A vector has one packed form.
pub proof fn law_packing_is_unique(src: Seq<u32>, a: Seq<u8>, b: Seq<u8>)
    requires
        packs(src, a),
        packs(src, b),
    ensures
        a == b,
{
    assert forall|k: int| 0 <= k < a.len() implies a[k] == b[k] by {
        let (x, y) = (a[k], b[k]);
        assert forall|t: int| 0 <= t < 8 implies ((x >> (#[trigger] (7 - t) as u8)) & 1u8 == 1u8)
            == ((y >> ((7 - t) as u8)) & 1u8 == 1u8) by {
            let i = 8 * k + t;
            assert(i / 8 == k && i % 8 == t);
            assert(kernels::code_bit(a, i) == kernels::code_bit(b, i));
        }
        kernels::lemma_same_bits(x, y);
    }
    assert(a =~= b);
}

/// Unpacking a packed vector gives the signs of its elements, +1 for a
/// positive one and -1 for any other.
pub proof fn law_unpacking_recovers_signs(src: Seq<u32>, code: Seq<u8>, unpacked: Seq<u32>)
    requires
        packs(src, code),
        unpacked.len() == src.len(),
        forall|i: int|
            0 <= i < unpacked.len() ==> #[trigger] unpacked[i] == sign_value(
                kernels::code_bit(code, i),
            ),
    ensures
        forall|i: int|
            0 <= i < src.len() ==> #[trigger] unpacked[i] == sign_value(ieee::positive(src[i])),
{
    assert forall|i: int| 0 <= i < src.len() implies #[trigger] unpacked[i] == sign_value(
        ieee::positive(src[i]),
    ) by {
        assert(kernels::code_bit(code, i) == ieee::positive(src[i]));
    }
}

/// Multiplying a finite number by +1 gives the number, by -1 its negative.
pub open spec fn exact_by_signs<T: Fn(u32, u32) -> u32>(times: T) -> bool {
    &&& forall|x: u32, y: u32| #[trigger]
        call_ensures(times, (x, ieee::ONE_32), y) && ieee::is_finite(x) ==> y == x
    &&& forall|x: u32, y: u32| #[trigger]
        call_ensures(times, (x, ieee::MINUS_ONE_32), y) && ieee::is_finite(x) ==> y
            == ieee::negated(x)
}

/// IEEE multiplication by +1 and -1 is exact.
pub proof fn law_product_is_exact_by_signs<T: Fn(u32, u32) -> u32>(times: T)
    requires
        rounding::is_product(times),
    ensures
        exact_by_signs(times),
{
    assert forall|x: u32, y: u32| #[trigger]
        call_ensures(times, (x, ieee::ONE_32), y) && ieee::is_finite(x) implies y == x by {
        assert(rounding::product_of(x, ieee::ONE_32, y));
        lemma_magnitude_kept(x, y);
    }
    assert forall|x: u32, y: u32| #[trigger]
        call_ensures(times, (x, ieee::MINUS_ONE_32), y) && ieee::is_finite(x) implies y
        == ieee::negated(x) by {
        assert(rounding::product_of(x, ieee::MINUS_ONE_32, y));
        lemma_magnitude_kept(x, y);
    }
}

proof fn lemma_magnitude_kept(x: u32, y: u32)
    requires
        ieee::is_finite(x),
        rounding::rounds(
            ieee::magnitude(y),
            ieee::steps(x) * ieee::steps(ieee::ONE_32),
            rounding::one(),
        ),
    ensures
        ieee::magnitude(y) == ieee::magnitude(x),
{
    rounding::lemma_one();
    lemma_pow2_pos(149);
    rounding::lemma_exact(x, rounding::one());
    rounding::lemma_finite_bound(x);
    ieee::lemma_steps_injective(ieee::magnitude(y), ieee::magnitude(x));
}

/// In the scalar order the asymmetric dot of a finite query with a code is the
/// dot product with the unpacked code, given that multiplying finite numbers
/// by +1 and -1 is exact.
pub proof fn law_asymmetric_dot_is_unpacked_dot<T: Fn(u32, u32) -> u32, P: Fn(u32, u32) -> u32>(
    times: T,
    plus: P,
    q: Seq<u32>,
    code: Seq<u8>,
    unpacked: Seq<u32>,
    n: nat,
    r: u32,
)
    requires
        n <= q.len(),
        forall|i: int|
            0 <= i < q.len() ==> #[trigger] unpacked[i] == sign_value(kernels::code_bit(code, i)),
        forall|i: int| 0 <= i < q.len() ==> ieee::is_finite(#[trigger] q[i]),
        exact_by_signs(times),
        kernels::dot_chain(times, plus, q, unpacked, n, r),
    ensures
        kernels::signed_chain(plus, q, code, n, r),
    decreases n,
{
    if n > 0 {
        let (before, product) = choose|before: u32, product: u32|
            {
                &&& kernels::dot_chain(times, plus, q, unpacked, (n - 1) as nat, before)
                &&& call_ensures(times, (q[n - 1], unpacked[n - 1]), product)
                &&& #[trigger] call_ensures(plus, (before, product), r)
            };
        law_asymmetric_dot_is_unpacked_dot(
            times,
            plus,
            q,
            code,
            unpacked,
            (n - 1) as nat,
            before,
        );
        assert(product == kernels::signed_element(q, code, n - 1));
    }
}

/// On the scalar backend both ways of taking the asymmetric dot of a finite
/// query give the same bits, for a sum with one value.
pub proof fn law_signs_add_no_rounding<
    M: Fn(u32, u32, u32) -> u32,
    T: Fn(u32, u32) -> u32,
    P: Fn(u32, u32) -> u32,
>(
    fma: M,
    times: T,
    plus: P,
    q: Seq<u32>,
    code: Seq<u8>,
    unpacked: Seq<u32>,
    r: u32,
    s: u32,
)
    requires
        forall|i: int|
            0 <= i < q.len() ==> #[trigger] unpacked[i] == sign_value(kernels::code_bit(code, i)),
        forall|i: int| 0 <= i < q.len() ==> ieee::is_finite(#[trigger] q[i]),
        exact_by_signs(times),
        determinism::single_valued(plus),
        backend::backend_dot(Backend::Scalar, fma, times, plus, q, unpacked, r),
        backend::backend_signed_dot(Backend::Scalar, plus, q, code, s),
    ensures
        r == s,
{
    law_asymmetric_dot_is_unpacked_dot(times, plus, q, code, unpacked, q.len(), r);
    determinism::law_signed_dot_is_determined(Backend::Scalar, plus, q, code, code, r, s);
}

} // verus!
