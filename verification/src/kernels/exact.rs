//! How the exact kernels' results relate to one another: what one more element
//! adds, what a code's bits are, and that every backend gives the same number.

use vstd::prelude::*;
use vstd::arithmetic::power2::*;
use crate::ieee;
use crate::kernels;
use crate::kernels::backend;
use crate::kernels::backend::Arch;
use crate::kernels::backend::Backend;
use crate::kernels::backend::Features;
use crate::rounding;

verus! {

/// The int8 dot product of nothing is zero, and one more pair of elements adds
/// its product, whatever backends the two results come from.
pub proof fn law_pair_adds_its_product(
    one: Backend,
    other: Backend,
    a: &[i8],
    b: &[i8],
    longer_a: &[i8],
    longer_b: &[i8],
    x: i8,
    y: i8,
    r: i32,
    s: i32,
)
    requires
        a@.len() == b@.len(),
        longer_a@ == a@.push(x),
        longer_b@ == b@.push(y),
        call_ensures(kernels::dot_i8, (a, b), r) || call_ensures(Backend::dot_i8, (one, a, b), r),
        call_ensures(kernels::dot_i8, (longer_a, longer_b), s) || call_ensures(
            Backend::dot_i8,
            (other, longer_a, longer_b),
            s,
        ),
    ensures
        a@.len() == 0 ==> r == 0,
        s - r == x * y,
{
    lemma_dot_of_front(a@, b@, longer_a@, longer_b@, a@.len());
}

proof fn lemma_dot_of_front(a: Seq<i8>, b: Seq<i8>, c: Seq<i8>, d: Seq<i8>, n: nat)
    requires
        n <= a.len() == b.len(),
        n <= c.len() == d.len(),
        forall|i: int| 0 <= i < n ==> a[i] == #[trigger] c[i],
        forall|i: int| 0 <= i < n ==> b[i] == #[trigger] d[i],
    ensures
        kernels::dot_prefix(a, b, n) == kernels::dot_prefix(c, d, n),
    decreases n,
{
    if n > 0 {
        lemma_dot_of_front(a, b, c, d, (n - 1) as nat);
        assert(a[n - 1] == c[n - 1] && b[n - 1] == d[n - 1]);
    }
}

/// One where the condition holds, zero where it does not.
pub open spec fn one_if(condition: bool) -> int {
    if condition {
        1
    } else {
        0
    }
}

/// A byte of a code is made up of its eight dimensions, the first of them the
/// most significant.
pub proof fn law_bits_make_up_the_code(code: Seq<u8>, k: int)
    requires
        0 <= k < code.len(),
    ensures
        code[k] == 128 * one_if(kernels::code_bit(code, 8 * k)) + 64 * one_if(
            kernels::code_bit(code, 8 * k + 1),
        ) + 32 * one_if(kernels::code_bit(code, 8 * k + 2)) + 16 * one_if(
            kernels::code_bit(code, 8 * k + 3),
        ) + 8 * one_if(kernels::code_bit(code, 8 * k + 4)) + 4 * one_if(
            kernels::code_bit(code, 8 * k + 5),
        ) + 2 * one_if(kernels::code_bit(code, 8 * k + 6)) + one_if(
            kernels::code_bit(code, 8 * k + 7),
        ),
{
    let x = code[k];
    assert forall|j: int| 0 <= j < 8 implies (8 * k + j) / 8 == k && #[trigger] ((8 * k + j) % 8)
        == j by {}
    assert(x == 128 * ((x >> 7u8) & 1u8) + 64 * ((x >> 6u8) & 1u8) + 32 * ((x >> 5u8) & 1u8) + 16
        * ((x >> 4u8) & 1u8) + 8 * ((x >> 3u8) & 1u8) + 4 * ((x >> 2u8) & 1u8) + 2 * ((x >> 1u8)
        & 1u8) + ((x >> 0u8) & 1u8) && (x >> 7u8) & 1u8 <= 1 && (x >> 6u8) & 1u8 <= 1 && (x >> 5u8)
        & 1u8 <= 1 && (x >> 4u8) & 1u8 <= 1 && (x >> 3u8) & 1u8 <= 1 && (x >> 2u8) & 1u8 <= 1 && (x
        >> 1u8) & 1u8 <= 1 && (x >> 0u8) & 1u8 <= 1) by (bit_vector);
    assert((8 * k) % 8 == 0 && (8 * k) / 8 == k);
    assert((8 * k + 1) % 8 == 1 && (8 * k + 2) % 8 == 2 && (8 * k + 3) % 8 == 3 && (8 * k + 4) % 8
        == 4 && (8 * k + 5) % 8 == 5 && (8 * k + 6) % 8 == 6 && (8 * k + 7) % 8 == 7);
}

/// The bit that is read of a code is the dimension's.
pub proof fn law_read_bit(code: &[u8], i: usize, r: bool)
    requires
        i / 8 < code@.len(),
        call_ensures(kernels::read_bit, (code, i), r),
    ensures
        r == kernels::code_bit(code@, i as int),
{
}

/// The asymmetric int8 dot of nothing is zero; one more element is added where
/// its bit is set and taken off where it is clear. The two codes need agree in
/// the dimensions before only.
pub proof fn law_element_counts_with_its_sign(
    one: Backend,
    other: Backend,
    q: &[i8],
    code: &[u8],
    longer_q: &[i8],
    longer_code: &[u8],
    x: i8,
    r: i32,
    s: i32,
)
    requires
        longer_q@ == q@.push(x),
        forall|i: int|
            0 <= i < q@.len() ==> kernels::code_bit(code@, i) == #[trigger] kernels::code_bit(
                longer_code@,
                i,
            ),
        call_ensures(kernels::dot_i8_bin, (q, code), r) || call_ensures(
            Backend::dot_i8_bin,
            (one, q, code),
            r,
        ),
        call_ensures(kernels::dot_i8_bin, (longer_q, longer_code), s) || call_ensures(
            Backend::dot_i8_bin,
            (other, longer_q, longer_code),
            s,
        ),
    ensures
        q@.len() == 0 ==> r == 0,
        kernels::code_bit(longer_code@, q@.len() as int) ==> s == r + x,
        !kernels::code_bit(longer_code@, q@.len() as int) ==> s == r - x,
{
    lemma_signed_of_front(q@, code@, longer_q@, longer_code@, q@.len());
}

proof fn lemma_signed_of_front(q: Seq<i8>, code: Seq<u8>, p: Seq<i8>, other: Seq<u8>, n: nat)
    requires
        n <= q.len(),
        n <= p.len(),
        forall|i: int| 0 <= i < n ==> q[i] == #[trigger] p[i],
        forall|i: int|
            0 <= i < n ==> kernels::code_bit(code, i) == #[trigger] kernels::code_bit(other, i),
    ensures
        kernels::signed_prefix(q, code, n) == kernels::signed_prefix(p, other, n),
    decreases n,
{
    if n > 0 {
        lemma_signed_of_front(q, code, p, other, (n - 1) as nat);
        assert(q[n - 1] == p[n - 1]);
        assert(kernels::code_bit(code, n - 1) == kernels::code_bit(other, n - 1));
    }
}

/// In how many of their eight binary digits two bytes differ.
pub open spec fn digits_apart(x: u8, y: u8) -> int {
    one_if(x % 2 != y % 2) + one_if(x / 2 % 2 != y / 2 % 2) + one_if(x / 4 % 2 != y / 4 % 2)
        + one_if(x / 8 % 2 != y / 8 % 2) + one_if(x / 16 % 2 != y / 16 % 2) + one_if(
        x / 32 % 2 != y / 32 % 2,
    ) + one_if(x / 64 % 2 != y / 64 % 2) + one_if(x / 128 % 2 != y / 128 % 2)
}

proof fn lemma_digits_apart(x: u8, y: u8)
    ensures
        kernels::ones(x ^ y) == digits_apart(x, y),
{
    let z = x ^ y;
    assert(((z >> 0u8) & 1u8 == 1) == (x % 2 != y % 2) && ((z >> 1u8) & 1u8 == 1) == (x / 2 % 2
        != y / 2 % 2) && ((z >> 2u8) & 1u8 == 1) == (x / 4 % 2 != y / 4 % 2) && ((z >> 3u8) & 1u8
        == 1) == (x / 8 % 2 != y / 8 % 2) && ((z >> 4u8) & 1u8 == 1) == (x / 16 % 2 != y / 16 % 2)
        && ((z >> 5u8) & 1u8 == 1) == (x / 32 % 2 != y / 32 % 2) && ((z >> 6u8) & 1u8 == 1) == (x
        / 64 % 2 != y / 64 % 2) && ((z >> 7u8) & 1u8 == 1) == (x / 128 % 2 != y / 128 % 2)
        && (z >> 0u8) & 1u8 <= 1 && (z >> 1u8) & 1u8 <= 1 && (z >> 2u8) & 1u8 <= 1 && (z >> 3u8)
        & 1u8 <= 1 && (z >> 4u8) & 1u8 <= 1 && (z >> 5u8) & 1u8 <= 1 && (z >> 6u8) & 1u8 <= 1 && (z
        >> 7u8) & 1u8 <= 1) by (bit_vector)
        requires
            z == x ^ y,
    ;
}

/// The Hamming distance of nothing is zero, and one more pair of bytes adds the
/// number of binary digits in which it differs, whatever backends the two
/// results come from.
pub proof fn law_byte_adds_its_differences(
    one: Backend,
    other: Backend,
    a: &[u8],
    b: &[u8],
    longer_a: &[u8],
    longer_b: &[u8],
    x: u8,
    y: u8,
    r: u32,
    s: u32,
)
    requires
        a@.len() == b@.len(),
        longer_a@ == a@.push(x),
        longer_b@ == b@.push(y),
        call_ensures(kernels::hamming, (a, b), r) || call_ensures(Backend::hamming, (one, a, b), r),
        call_ensures(kernels::hamming, (longer_a, longer_b), s) || call_ensures(
            Backend::hamming,
            (other, longer_a, longer_b),
            s,
        ),
    ensures
        a@.len() == 0 ==> r == 0,
        s - r == digits_apart(x, y),
{
    let n = a@.len();
    lemma_differing_of_front(a@, b@, longer_a@, longer_b@, n, 8 * n);
    kernels::lemma_byte_step(longer_a@, longer_b@, n);
    lemma_digits_apart(x, y);
}

proof fn lemma_differing_of_front(
    a: Seq<u8>,
    b: Seq<u8>,
    c: Seq<u8>,
    d: Seq<u8>,
    bytes: nat,
    n: nat,
)
    requires
        n <= 8 * bytes,
        forall|i: int| 0 <= i < bytes ==> a[i] == #[trigger] c[i],
        forall|i: int| 0 <= i < bytes ==> b[i] == #[trigger] d[i],
    ensures
        kernels::differing(a, b, n) == kernels::differing(c, d, n),
    decreases n,
{
    if n > 0 {
        lemma_differing_of_front(a, b, c, d, bytes, (n - 1) as nat);
        let k = (n - 1) / 8;
        assert(a[k] == c[k] && b[k] == d[k]);
    }
}

/// Halving a byte takes off its last digit's bit.
pub proof fn law_count_of_ones(x: u8, y: u8, r: u32, s: u32)
    requires
        y == x / 2,
        call_ensures(kernels::count_ones, (x,), r),
        call_ensures(kernels::count_ones, (y,), s),
    ensures
        r == s + x % 2,
        r == 0 <==> x == 0,
{
    assert(x ^ 0 == x && y ^ 0 == y) by (bit_vector);
    lemma_digits_apart(x, 0);
    lemma_digits_apart(y, 0);
    assert(y % 2 == x / 2 % 2 && y / 2 == x / 4 && y / 4 == x / 8 && y / 8 == x / 16 && y / 16 == x
        / 32 && y / 32 == x / 64 && y / 64 == x / 128 && y / 128 == 0);
    assert(x / 128 <= 1);
}

/// A code has room for all dimensions, and not for eight more.
pub proof fn law_code_has_room(dim: usize, r: usize)
    requires
        call_ensures(kernels::binary_code_len, (dim,), r),
    ensures
        dim <= 8 * r < dim + 8,
{
}

/// Which backend is preferred on which processor.
pub proof fn law_preferred_backend(arch: Arch, features: Features, r: Backend)
    requires
        call_ensures(Backend::best, (arch, features), r),
    ensures
        arch is Aarch64 && features.dotprod ==> r is NeonDotprod,
        arch is Aarch64 && !features.dotprod ==> r is Neon,
        arch is X86_64 && features.avx2 && features.fma && features.popcnt ==> r is Avx2,
        arch is X86_64 && !(features.avx2 && features.fma && features.popcnt) ==> r is Scalar,
        arch is Other ==> r is Scalar,
{
    assert(r.executable(arch, features));
    assert(Backend::NeonDotprod.executable(arch, features) ==> r.strength() >= 2);
    assert(Backend::Neon.executable(arch, features) ==> r.strength() >= 1);
    assert(Backend::Avx2.executable(arch, features) ==> r.strength() >= 3);
}

/// Which backend a name stands for, and on which processors it can be had.
pub proof fn law_named_backend(name: &str, arch: Arch, features: Features, r: Option<Backend>)
    requires
        call_ensures(Backend::by_name, (name, arch, features), r),
    ensures
        name@ == "scalar"@ ==> r == Some(Backend::Scalar),
        name@ == "neon"@ ==> r == (if arch is Aarch64 {
            Some(Backend::Neon)
        } else {
            None
        }),
        name@ == "neon_dotprod"@ ==> r == (if arch is Aarch64 && features.dotprod {
            Some(Backend::NeonDotprod)
        } else {
            None
        }),
        name@ == "avx2"@ ==> r == (if arch is X86_64 && features.avx2 && features.fma
            && features.popcnt {
            Some(Backend::Avx2)
        } else {
            None
        }),
        name@ != "scalar"@ && name@ != "neon"@ && name@ != "neon_dotprod"@ && name@ != "avx2"@
            ==> r is None,
{
    backend::lemma_names_differ();
    assert(Backend::Scalar.executable(arch, features));
    assert(Backend::Neon.executable(arch, features) == (arch is Aarch64));
    assert(Backend::NeonDotprod.executable(arch, features) == (arch is Aarch64
        && features.dotprod));
    assert(Backend::Avx2.executable(arch, features) == (arch is X86_64 && features.avx2
        && features.fma && features.popcnt));
    assert(Backend::Scalar.spec_name() == "scalar"@);
    assert(Backend::Neon.spec_name() == "neon"@);
    assert(Backend::NeonDotprod.spec_name() == "neon_dotprod"@);
    assert(Backend::Avx2.spec_name() == "avx2"@);
}

/// Which backends an architecture has, weakest first.
pub proof fn law_backends_of_an_architecture(arch: Arch, r: Vec<Backend>)
    requires
        call_ensures(Backend::all, (arch,), r),
    ensures
        r@ == match arch {
            Arch::Aarch64 => seq![Backend::Scalar, Backend::Neon, Backend::NeonDotprod],
            Arch::X86_64 => seq![Backend::Scalar, Backend::Avx2],
            Arch::Other => seq![Backend::Scalar],
        },
{
    let want = match arch {
        Arch::Aarch64 => seq![Backend::Scalar, Backend::Neon, Backend::NeonDotprod],
        Arch::X86_64 => seq![Backend::Scalar, Backend::Avx2],
        Arch::Other => seq![Backend::Scalar],
    };
    assert(Backend::Scalar.valid_for(arch));
    let at = choose|i: int| 0 <= i < r@.len() && r@[i] == Backend::Scalar;
    assert forall|i: int| 0 <= i < r@.len() implies #[trigger] r@[i].valid_for(arch) by {
        assert(r@.contains(r@[i]));
    }
    assert(r@.contains(Backend::Scalar));
    if at > 0 {
        assert(r@[0].strength() < r@[at].strength());
    }
    assert(r@[0] == Backend::Scalar);
    if arch is Aarch64 {
        assert(Backend::Neon.valid_for(arch) && Backend::NeonDotprod.valid_for(arch));
        assert(r@.contains(Backend::Neon) && r@.contains(Backend::NeonDotprod));
        let m = choose|i: int| 0 <= i < r@.len() && r@[i] == Backend::Neon;
        let n = choose|i: int| 0 <= i < r@.len() && r@[i] == Backend::NeonDotprod;
        if m > 1 {
            assert(r@[0].strength() < r@[1].strength() < r@[m].strength());
        }
        if n > 2 {
            assert(r@[0].strength() < r@[1].strength() < r@[2].strength() < r@[n].strength());
        }
        if r@.len() > 3 {
            assert(r@[0].strength() < r@[1].strength() < r@[2].strength() < r@[3].strength());
            assert(r@[3].valid_for(arch));
        }
    } else if arch is X86_64 {
        assert(Backend::Avx2.valid_for(arch));
        assert(r@.contains(Backend::Avx2));
        let m = choose|i: int| 0 <= i < r@.len() && r@[i] == Backend::Avx2;
        if m > 1 {
            assert(r@[0].strength() < r@[1].strength() < r@[m].strength());
        }
        if r@.len() > 2 {
            assert(r@[1].valid_for(arch) && r@[2].valid_for(arch));
            assert(r@[0].strength() < r@[1].strength() < r@[2].strength());
        }
    } else {
        if r@.len() > 1 {
            assert(r@[1].valid_for(arch));
            assert(r@[0].strength() < r@[1].strength());
        }
    }
    assert(r@ =~= want);
}

/// Every backend goes by its own name, which is the one it is found by.
pub proof fn law_backend_names(b: Backend, r: &'static str)
    requires
        call_ensures(Backend::name, (b,), r),
    ensures
        r@ == match b {
            Backend::Scalar => "scalar"@,
            Backend::Neon => "neon"@,
            Backend::NeonDotprod => "neon_dotprod"@,
            Backend::Avx2 => "avx2"@,
        },
{
}

/// The score of packed codes is minus their distance.
pub proof fn law_score_is_minus_the_distance(a: &[u8], b: &[u8], distance: u32, score: u32)
    requires
        call_ensures(kernels::hamming, (a, b), distance),
        call_ensures(kernels::hamming_score, (a, b), score),
    ensures
        ieee::nearest_int(ieee::negated(score), distance as int),
        rounding::negative(score),
        distance <= 0x100_0000 ==> rounding::units(score) == -(distance * pow2(149)),
{
    ieee::lemma_round_24_monotone(distance as nat, distance as nat);
    assert(ieee::magnitude(ieee::negated(score)) == ieee::magnitude(score));
}

/// The scaled dot is the dot of the codes, times the product of the scales.
pub proof fn law_scaled_dot<T: Fn(u32, u32) -> u32>(
    a: &[i8],
    sa: u32,
    b: &[i8],
    sb: u32,
    times: &T,
    dot: i32,
    r: u32,
)
    requires
        call_ensures(kernels::dot_i8, (a, b), dot),
        call_ensures(kernels::dot_i8_scaled::<T>, (a, sa, b, sb, times), r),
    ensures
        exists|scale: u32, x: u32|
            {
                &&& #[trigger] call_ensures(*times, (sa, sb), scale)
                &&& ieee::nearest_int(x, dot as int)
                &&& #[trigger] call_ensures(*times, (x, scale), r)
            },
{
    let scale = choose|scale: u32| #[trigger]
        call_ensures(*times, (sa, sb), scale) && kernels::scaled_int(
            *times,
            kernels::dot(a@, b@),
            scale,
            r,
        );
    let x = choose|x: u32| #[trigger]
        ieee::nearest_int(x, dot as int) && call_ensures(*times, (x, scale), r);
    assert(call_ensures(*times, (sa, sb), scale));
    assert(call_ensures(*times, (x, scale), r));
}

} // verus!
