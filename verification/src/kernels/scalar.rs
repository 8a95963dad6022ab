//! The portable single-precision kernels: products and sums one by one, in
//! the order of the dimensions. The other backends are held against them.

use vstd::prelude::*;
use crate::ieee;
use crate::kernels;

verus! {

/// Single-precision dot product: products and sums in the order of the
/// dimensions, from zero.
pub fn dot_f32<T: Fn(u32, u32) -> u32, P: Fn(u32, u32) -> u32>(
    a: &[u32],
    b: &[u32],
    times: &T,
    plus: &P,
) -> (r: u32)
    requires
        a@.len() == b@.len(),
        forall|x: u32, y: u32| call_requires(*times, (x, y)),
        forall|x: u32, y: u32| call_requires(*plus, (x, y)),
    ensures
        kernels::dot_chain(*times, *plus, a@, b@, a@.len(), r),
{
    let mut acc: u32 = ieee::ZERO_32;
    let mut i: usize = 0;
    while i < a.len()
        invariant
            i <= a@.len() == b@.len(),
            forall|x: u32, y: u32| call_requires(*times, (x, y)),
            forall|x: u32, y: u32| call_requires(*plus, (x, y)),
            kernels::dot_chain(*times, *plus, a@, b@, i as nat, acc),
        decreases a@.len() - i,
    {
        let product: u32 = times(a[i], b[i]);
        let next: u32 = plus(acc, product);
        assert(call_ensures(*plus, (acc, product), next));
        acc = next;
        i += 1;
    }
    acc
}

/// Asymmetric single-precision query × binary code: the sum of the query
/// elements, each with its sign flipped where the code bit is clear.
pub fn dot_f32_bin<P: Fn(u32, u32) -> u32>(q: &[u32], code: &[u8], plus: &P) -> (r: u32)
    requires
        code@.len() == kernels::code_len(q@.len()),
        forall|x: u32, y: u32| call_requires(*plus, (x, y)),
    ensures
        kernels::signed_chain(*plus, q@, code@, q@.len(), r),
{
    let mut acc: u32 = ieee::ZERO_32;
    let mut i: usize = 0;
    while i < q.len()
        invariant
            i <= q@.len(),
            code@.len() == kernels::code_len(q@.len()),
            forall|x: u32, y: u32| call_requires(*plus, (x, y)),
            kernels::signed_chain(*plus, q@, code@, i as nat, acc),
        decreases q@.len() - i,
    {
        let term: u32 = if kernels::read_bit(code, i) {
            q[i]
        } else {
            ieee::negate(q[i])
        };
        let next: u32 = plus(acc, term);
        assert(call_ensures(
            *plus,
            (acc, kernels::signed_element(q@, code@, (i + 1) as nat - 1)),
            next,
        ));
        acc = next;
        i += 1;
    }
    acc
}

} // verus!
