//! Which implementation of the kernels a processor gets.
//!
//! The processor's architecture and features are looked up by the caller; the
//! choice among the backends is made here. [`Kernels`] is the table that a
//! scan works with once a backend is chosen. The integer kernels are exact on
//! every backend; the single-precision ones differ in the order of summation.

use vstd::prelude::*;
use crate::kernels;
use crate::kernels::integer;
use crate::kernels::lanes;
use crate::kernels::scalar;
use crate::text;

verus! {

/// An implementation of the kernels.
#[derive(Clone, Copy, Debug, PartialEq, Eq, Structural)]
pub enum Backend {
    /// The portable reference.
    Scalar,
    /// 128-bit vectors on aarch64.
    Neon,
    /// The same, on processors with the dot-product extension.
    NeonDotprod,
    /// 256-bit vectors on x86_64.
    Avx2,
}

/// Processor architecture of the compilation target.
#[derive(Clone, Copy, Debug, PartialEq, Eq, Structural)]
pub enum Arch {
    X86_64,
    Aarch64,
    Other,
}

/// What the running processor offers beyond its architecture's baseline.
#[derive(Clone, Copy, Debug, PartialEq, Eq, Structural)]
pub struct Features {
    pub avx2: bool,
    pub fma: bool,
    pub popcnt: bool,
    pub dotprod: bool,
}

impl Backend {
    /// The backend's name.
    pub open spec fn spec_name(self) -> Seq<char> {
        match self {
            Backend::Scalar => "scalar"@,
            Backend::Neon => "neon"@,
            Backend::NeonDotprod => "neon_dotprod"@,
            Backend::Avx2 => "avx2"@,
        }
    }

    /// Whether the backend exists for an architecture.
    pub open spec fn valid_for(self, arch: Arch) -> bool {
        match self {
            Backend::Scalar => true,
            Backend::Neon | Backend::NeonDotprod => arch == Arch::Aarch64,
            Backend::Avx2 => arch == Arch::X86_64,
        }
    }

    /// Whether a processor can execute the backend. AVX2 implies neither FMA
    /// nor POPCNT, so all three are asked for.
    pub open spec fn executable(self, arch: Arch, features: Features) -> bool {
        self.valid_for(arch) && match self {
            Backend::Scalar | Backend::Neon => true,
            Backend::NeonDotprod => features.dotprod,
            Backend::Avx2 => features.avx2 && features.fma && features.popcnt,
        }
    }

    /// How strong the backend is; the strongest executable one is preferred.
    pub open spec fn strength(self) -> int {
        match self {
            Backend::Scalar => 0,
            Backend::Neon => 1,
            Backend::NeonDotprod => 2,
            Backend::Avx2 => 3,
        }
    }

    /// The backend's name, for logs and labels.
    pub fn name(self) -> (r: &'static str)
        ensures
            r@ == self.spec_name(),
    {
        match self {
            Backend::Scalar => "scalar",
            Backend::Neon => "neon",
            Backend::NeonDotprod => "neon_dotprod",
            Backend::Avx2 => "avx2",
        }
    }

    /// The portable reference backend.
    pub fn scalar() -> (r: Self)
        ensures
            r == Backend::Scalar,
    {
        Backend::Scalar
    }

    fn is_executable(self, arch: Arch, features: Features) -> (r: bool)
        ensures
            r == self.executable(arch, features),
    {
        match self {
            Backend::Scalar => true,
            Backend::Neon => arch == Arch::Aarch64,
            Backend::NeonDotprod => arch == Arch::Aarch64 && features.dotprod,
            Backend::Avx2 => arch == Arch::X86_64 && features.avx2 && features.fma
                && features.popcnt,
        }
    }

    /// The backends of an architecture, weakest first. One that the running
    /// processor cannot execute is still listed.
    pub fn all(arch: Arch) -> (r: Vec<Backend>)
        ensures
            lists_all(r@, arch),
    {
        let mut out: Vec<Backend> = Vec::new();
        out.push(Backend::Scalar);
        if arch == Arch::Aarch64 {
            out.push(Backend::Neon);
            out.push(Backend::NeonDotprod);
        }
        if arch == Arch::X86_64 {
            out.push(Backend::Avx2);
        }
        proof {
            assert(out@[0] == Backend::Scalar);
            if arch == Arch::Aarch64 {
                assert(out@[1] == Backend::Neon);
                assert(out@[2] == Backend::NeonDotprod);
            }
            if arch == Arch::X86_64 {
                assert(out@[1] == Backend::Avx2);
            }
        }
        out
    }

    /// The backend named `name`, or `None` when there is none of that name or
    /// the processor lacks the features it needs: what is returned can always
    /// be executed.
    pub fn by_name(name: &str, arch: Arch, features: Features) -> (r: Option<Backend>)
        ensures
            match r {
                Some(b) => b.spec_name() == name@ && b.executable(arch, features),
                None => none_is_named(name@, arch, features),
            },
    {
        let found: Backend = if text::same(name, "scalar") {
            Backend::Scalar
        } else if text::same(name, "neon") {
            Backend::Neon
        } else if text::same(name, "neon_dotprod") {
            Backend::NeonDotprod
        } else if text::same(name, "avx2") {
            Backend::Avx2
        } else {
            return None;
        };
        assert(found.spec_name() == name@);
        if found.is_executable(arch, features) {
            Some(found)
        } else {
            proof {
                lemma_names_differ();
            }
            None
        }
    }

    /// The strongest backend that the processor can execute.
    pub fn best(arch: Arch, features: Features) -> (r: Backend)
        ensures
            r.executable(arch, features),
            forall|b: Backend|
                #[trigger] b.executable(arch, features) ==> b.strength() <= r.strength(),
    {
        match arch {
            Arch::Aarch64 => if features.dotprod {
                Backend::NeonDotprod
            } else {
                Backend::Neon
            },
            Arch::X86_64 => if features.avx2 && features.fma && features.popcnt {
                Backend::Avx2
            } else {
                Backend::Scalar
            },
            Arch::Other => Backend::Scalar,
        }
    }
}

/// The list holds the backends of an architecture, weakest first.
pub open spec fn lists_all(list: Seq<Backend>, arch: Arch) -> bool {
    &&& forall|b: Backend| list.contains(b) <==> b.valid_for(arch)
    &&& forall|i: int, j: int|
        0 <= i < j < list.len() ==> (#[trigger] list[i]).strength() < (#[trigger]
        list[j]).strength()
}

/// No executable backend goes by the name.
pub open spec fn none_is_named(name: Seq<char>, arch: Arch, features: Features) -> bool {
    forall|b: Backend| #[trigger] b.executable(arch, features) ==> b.spec_name() != name
}

/// `r` is the dot product in the backend's order of summation.
pub open spec fn backend_dot<
    M: Fn(u32, u32, u32) -> u32,
    T: Fn(u32, u32) -> u32,
    P: Fn(u32, u32) -> u32,
>(backend: Backend, fma: M, times: T, plus: P, a: Seq<u32>, b: Seq<u32>, r: u32) -> bool {
    match backend {
        Backend::Scalar => kernels::dot_chain(times, plus, a, b, a.len(), r),
        Backend::Neon | Backend::NeonDotprod => lanes::vector_dot(fma, times, plus, 4, a, b, r),
        Backend::Avx2 => lanes::vector_dot(fma, times, plus, 8, a, b, r),
    }
}

/// `r` is the asymmetric dot in the backend's order of summation.
pub open spec fn backend_signed_dot<P: Fn(u32, u32) -> u32>(
    backend: Backend,
    plus: P,
    q: Seq<u32>,
    code: Seq<u8>,
    r: u32,
) -> bool {
    match backend {
        Backend::Scalar => kernels::signed_chain(plus, q, code, q.len(), r),
        Backend::Neon | Backend::NeonDotprod => lanes::vector_signed_dot(plus, 4, q, code, r),
        Backend::Avx2 => lanes::vector_signed_dot(plus, 8, q, code, r),
    }
}

impl Backend {
    /// The backend's dot product.
    pub fn dot_f32<
        M: Fn(u32, u32, u32) -> u32,
        T: Fn(u32, u32) -> u32,
        P: Fn(u32, u32) -> u32,
    >(self, a: &[u32], b: &[u32], fma: &M, times: &T, plus: &P) -> (r: u32)
        requires
            a@.len() == b@.len(),
            forall|x: u32, y: u32, z: u32| call_requires(*fma, (x, y, z)),
            forall|x: u32, y: u32| call_requires(*times, (x, y)),
            forall|x: u32, y: u32| call_requires(*plus, (x, y)),
        ensures
            backend_dot(self, *fma, *times, *plus, a@, b@, r),
    {
        match self {
            Backend::Scalar => scalar::dot_f32(a, b, times, plus),
            Backend::Neon => lanes::dot_f32_lanes(a, b, 4, fma, times, plus),
            Backend::NeonDotprod => lanes::dot_f32_lanes(a, b, 4, fma, times, plus),
            Backend::Avx2 => lanes::dot_f32_lanes(a, b, 8, fma, times, plus),
        }
    }

    /// The backend's asymmetric dot.
    pub fn dot_f32_bin<P: Fn(u32, u32) -> u32>(self, q: &[u32], code: &[u8], plus: &P) -> (r: u32)
        requires
            code@.len() == kernels::code_len(q@.len()),
            forall|x: u32, y: u32| call_requires(*plus, (x, y)),
        ensures
            backend_signed_dot(self, *plus, q@, code@, r),
    {
        match self {
            Backend::Scalar => scalar::dot_f32_bin(q, code, plus),
            Backend::Neon => lanes::dot_f32_bin_lanes(q, code, 4, plus),
            Backend::NeonDotprod => lanes::dot_f32_bin_lanes(q, code, 4, plus),
            Backend::Avx2 => lanes::dot_f32_bin_lanes(q, code, 8, plus),
        }
    }
}

impl Backend {
    /// The backend's int8 dot product: exact, so the same on every backend.
    pub fn dot_i8(self, a: &[i8], b: &[i8]) -> (r: i32)
        requires
            a@.len() == b@.len(),
            kernels::dot_fits(a@, b@),
        ensures
            r == kernels::dot(a@, b@),
    {
        match self {
            Backend::Scalar => kernels::dot_i8(a, b),
            Backend::Neon => integer::dot_i8_mull(a, b),
            Backend::NeonDotprod => integer::dot_i8_dotprod(a, b),
            Backend::Avx2 => integer::dot_i8_avx2(a, b),
        }
    }

    /// The backend's Hamming distance: exact, so the same on every backend.
    pub fn hamming(self, a: &[u8], b: &[u8]) -> (r: u32)
        requires
            a@.len() == b@.len(),
            kernels::distance(a@, b@) <= u32::MAX,
        ensures
            r == kernels::distance(a@, b@),
    {
        match self {
            Backend::Scalar => kernels::hamming(a, b),
            Backend::Neon => integer::hamming_neon(a, b),
            Backend::NeonDotprod => integer::hamming_neon(a, b),
            Backend::Avx2 => integer::hamming_popcnt(a, b),
        }
    }

    /// The backend's int8 query × binary code: exact, so the same on every
    /// backend.
    pub fn dot_i8_bin(self, q: &[i8], code: &[u8]) -> (r: i32)
        requires
            code@.len() == kernels::code_len(q@.len()),
            kernels::signed_fits(q@, code@),
        ensures
            r == kernels::signed_sum(q@, code@),
    {
        match self {
            Backend::Scalar => kernels::dot_i8_bin(q, code),
            Backend::Neon => integer::dot_i8_bin_mull(q, code),
            Backend::NeonDotprod => integer::dot_i8_bin_dotprod(q, code),
            Backend::Avx2 => integer::dot_i8_bin_avx2(q, code),
        }
    }
}

/// No two backends share a name.
pub proof fn lemma_names_differ()
    ensures
        forall|a: Backend, b: Backend| #[trigger]
            a.spec_name() == #[trigger] b.spec_name() ==> a == b,
{
    reveal_strlit("scalar");
    reveal_strlit("neon");
    reveal_strlit("neon_dotprod");
    reveal_strlit("avx2");
    assert("scalar"@.len() == 6);
    assert("neon"@.len() == 4);
    assert("neon_dotprod"@.len() == 12);
    assert("avx2"@.len() == 4);
    assert("neon"@[0] == 'n');
    assert("avx2"@[0] == 'a');
}

/// A resolved set of kernels: the integer ones of a backend, its two
/// single-precision ones, and the multiplication that scales integer dot
/// products.
pub struct Kernels<D, B, T> {
    /// Name of the backend the kernels belong to.
    pub backend: &'static str,
    /// The backend of the integer kernels.
    pub integers: Backend,
    /// Dot product of two vectors of the same length.
    pub dot_f32: D,
    /// Asymmetric dot of a vector with a packed code of its dimension.
    pub dot_f32_bin: B,
    /// Multiplication.
    pub times: T,
}

/// The table's functions accept what they are documented to accept.
pub open spec fn usable<D, B, T>(k: Kernels<D, B, T>) -> bool where
    D: Fn(&[u32], &[u32]) -> u32,
    B: Fn(&[u32], &[u8]) -> u32,
    T: Fn(u32, u32) -> u32,
 {
    &&& forall|a: &[u32], b: &[u32]| a@.len() == b@.len() ==> call_requires(k.dot_f32, (a, b))
    &&& forall|q: &[u32], code: &[u8]|
        code@.len() == crate::kernels::code_len(q@.len()) ==> call_requires(
            k.dot_f32_bin,
            (q, code),
        )
    &&& forall|x: u32, y: u32| call_requires(k.times, (x, y))
}

/// The table's functions are those of a backend over the given arithmetic.
pub open spec fn is_table<D, B, X, M, T, P>(
    k: Kernels<D, B, X>,
    backend: Backend,
    fma: M,
    times: T,
    plus: P,
) -> bool where
    D: Fn(&[u32], &[u32]) -> u32,
    B: Fn(&[u32], &[u8]) -> u32,
    X: Fn(u32, u32) -> u32,
    M: Fn(u32, u32, u32) -> u32,
    T: Fn(u32, u32) -> u32,
    P: Fn(u32, u32) -> u32,
 {
    &&& k.backend@ == backend.spec_name()
    &&& k.integers == backend
    &&& forall|a: &[u32], b: &[u32], x: u32| #[trigger]
        call_ensures(k.dot_f32, (a, b), x) ==> backend_dot(backend, fma, times, plus, a@, b@, x)
    &&& forall|q: &[u32], code: &[u8], x: u32| #[trigger]
        call_ensures(k.dot_f32_bin, (q, code), x) ==> backend_signed_dot(
            backend,
            plus,
            q@,
            code@,
            x,
        )
    &&& forall|x: u32, y: u32, z: u32| #[trigger]
        call_ensures(k.times, (x, y), z) ==> call_ensures(times, (x, y), z)
}

impl Backend {
    /// The backend's table over the given arithmetic.
    pub fn kernels<
        'a,
        M: Fn(u32, u32, u32) -> u32,
        T: Fn(u32, u32) -> u32,
        P: Fn(u32, u32) -> u32,
    >(self, fma: &'a M, times: &'a T, plus: &'a P) -> (r: Kernels<
        impl Fn(&[u32], &[u32]) -> u32 + 'a,
        impl Fn(&[u32], &[u8]) -> u32 + 'a,
        impl Fn(u32, u32) -> u32 + 'a,
    >)
        requires
            forall|x: u32, y: u32, z: u32| call_requires(*fma, (x, y, z)),
            forall|x: u32, y: u32| call_requires(*times, (x, y)),
            forall|x: u32, y: u32| call_requires(*plus, (x, y)),
        ensures
            usable(r),
            is_table(r, self, *fma, *times, *plus),
    {
        let dot = move |a: &[u32], b: &[u32]| -> (x: u32)
            requires
                a@.len() == b@.len(),
            ensures
                backend_dot(self, *fma, *times, *plus, a@, b@, x),
            { self.dot_f32(a, b, fma, times, plus) };
        let signed_dot = move |q: &[u32], code: &[u8]| -> (x: u32)
            requires
                code@.len() == kernels::code_len(q@.len()),
            ensures
                backend_signed_dot(self, *plus, q@, code@, x),
            { self.dot_f32_bin(q, code, plus) };
        let product = move |x: u32, y: u32| -> (z: u32)
            ensures
                call_ensures(*times, (x, y), z),
            { times(x, y) };
        Kernels {
            backend: self.name(),
            integers: self,
            dot_f32: dot,
            dot_f32_bin: signed_dot,
            times: product,
        }
    }
}

} // verus!
