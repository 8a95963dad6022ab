//! For a fixed backend every kernel is a function of its operands: given
//! arithmetic that is, the same vectors give the same result. The asymmetric
//! kernels look at the bits of the query's dimensions and at no padding.

use vstd::prelude::*;
use crate::ieee;
use crate::kernels;
use crate::kernels::backend::{self, Backend, Kernels};
use crate::kernels::lanes;

verus! {

/// The operation gives one result for its operands.
pub open spec fn single_valued<P: Fn(u32, u32) -> u32>(op: P) -> bool {
    forall|x: u32, y: u32, z: u32, w: u32| #[trigger]
        call_ensures(op, (x, y), z) && #[trigger] call_ensures(op, (x, y), w) ==> z == w
}

/// The same of an operation with three operands.
pub open spec fn single_valued_three<M: Fn(u32, u32, u32) -> u32>(op: M) -> bool {
    forall|x: u32, y: u32, v: u32, z: u32, w: u32| #[trigger]
        call_ensures(op, (x, y, v), z) && #[trigger] call_ensures(op, (x, y, v), w) ==> z == w
}

/// Two codes agree in the first `n` dimensions.
pub open spec fn agree(a: Seq<u8>, b: Seq<u8>, n: nat) -> bool {
    forall|i: int| 0 <= i < n ==> kernels::code_bit(a, i) == #[trigger] kernels::code_bit(b, i)
}

proof fn lemma_chain<T: Fn(u32, u32) -> u32, P: Fn(u32, u32) -> u32>(
    times: T,
    plus: P,
    a: Seq<u32>,
    b: Seq<u32>,
    n: nat,
    r: u32,
    s: u32,
)
    requires
        single_valued(times),
        single_valued(plus),
        kernels::dot_chain(times, plus, a, b, n, r),
        kernels::dot_chain(times, plus, a, b, n, s),
    ensures
        r == s,
    decreases n,
{
    if n > 0 {
        let (x, p) = choose|x: u32, p: u32|
            {
                &&& kernels::dot_chain(times, plus, a, b, (n - 1) as nat, x)
                &&& call_ensures(times, (a[n - 1], b[n - 1]), p)
                &&& #[trigger] call_ensures(plus, (x, p), r)
            };
        let (y, q) = choose|y: u32, q: u32|
            {
                &&& kernels::dot_chain(times, plus, a, b, (n - 1) as nat, y)
                &&& call_ensures(times, (a[n - 1], b[n - 1]), q)
                &&& #[trigger] call_ensures(plus, (y, q), s)
            };
        lemma_chain(times, plus, a, b, (n - 1) as nat, x, y);
    }
}

proof fn lemma_signed_chain<P: Fn(u32, u32) -> u32>(
    plus: P,
    query: Seq<u32>,
    c: Seq<u8>,
    d: Seq<u8>,
    n: nat,
    r: u32,
    s: u32,
)
    requires
        single_valued(plus),
        agree(c, d, n),
        kernels::signed_chain(plus, query, c, n, r),
        kernels::signed_chain(plus, query, d, n, s),
    ensures
        r == s,
    decreases n,
{
    if n > 0 {
        let x = choose|x: u32|
            {
                &&& kernels::signed_chain(plus, query, c, (n - 1) as nat, x)
                &&& #[trigger] call_ensures(
                    plus,
                    (x, kernels::signed_element(query, c, n - 1)),
                    r,
                )
            };
        let y = choose|y: u32|
            {
                &&& kernels::signed_chain(plus, query, d, (n - 1) as nat, y)
                &&& #[trigger] call_ensures(
                    plus,
                    (y, kernels::signed_element(query, d, n - 1)),
                    s,
                )
            };
        assert(kernels::code_bit(c, n - 1) == kernels::code_bit(d, n - 1));
        lemma_signed_chain(plus, query, c, d, (n - 1) as nat, x, y);
    }
}

proof fn lemma_product_lane<M: Fn(u32, u32, u32) -> u32>(
    fma: M,
    a: Seq<u32>,
    b: Seq<u32>,
    start: int,
    step: int,
    count: nat,
    init: u32,
    r: u32,
    s: u32,
)
    requires
        single_valued_three(fma),
        lanes::product_lane(fma, a, b, start, step, count, init, r),
        lanes::product_lane(fma, a, b, start, step, count, init, s),
    ensures
        r == s,
    decreases count,
{
    if count > 0 {
        let i = start + (count - 1) * step;
        let x = choose|x: u32|
            lanes::product_lane(fma, a, b, start, step, (count - 1) as nat, init, x)
                && #[trigger] call_ensures(fma, (a[i], b[i], x), r);
        let y = choose|y: u32|
            lanes::product_lane(fma, a, b, start, step, (count - 1) as nat, init, y)
                && #[trigger] call_ensures(fma, (a[i], b[i], y), s);
        lemma_product_lane(fma, a, b, start, step, (count - 1) as nat, init, x, y);
    }
}

/// The last element of a lane lies before the end.
proof fn lemma_last_element(lane: int, step: int, end: int)
    requires
        0 <= lane,
        0 < step,
        lane < end,
    ensures
        0 <= lane + (lanes::steps_below(lane, step, end) - 1) * step < end,
{
    let d = (end - lane - 1) / step;
    assert(0 <= d * step <= end - lane - 1) by (nonlinear_arith)
        requires
            d == (end - lane - 1) / step,
            0 < step,
            end - lane - 1 >= 0,
    ;
    assert(lanes::steps_below(lane, step, end) - 1 == d) by {
        assert(d >= 0) by (nonlinear_arith)
            requires
                d == (end - lane - 1) / step,
                0 < step,
                end - lane - 1 >= 0,
        ;
    }
}

proof fn lemma_signed_lane<P: Fn(u32, u32) -> u32>(
    plus: P,
    query: Seq<u32>,
    c: Seq<u8>,
    d: Seq<u8>,
    start: int,
    step: int,
    count: nat,
    n: nat,
    r: u32,
    s: u32,
)
    requires
        single_valued(plus),
        agree(c, d, n),
        0 <= start,
        0 < step,
        count > 0 ==> start + (count - 1) * step < n,
        lanes::signed_lane(plus, query, c, start, step, count, r),
        lanes::signed_lane(plus, query, d, start, step, count, s),
    ensures
        r == s,
    decreases count,
{
    if count > 0 {
        let i = start + (count - 1) * step;
        let x = choose|x: u32|
            lanes::signed_lane(plus, query, c, start, step, (count - 1) as nat, x)
                && #[trigger] call_ensures(plus, (x, kernels::signed_element(query, c, i)), r);
        let y = choose|y: u32|
            lanes::signed_lane(plus, query, d, start, step, (count - 1) as nat, y)
                && #[trigger] call_ensures(plus, (y, kernels::signed_element(query, d, i)), s);
        assert(0 <= (count - 1) * step && (count - 2) * step == (count - 1) * step - step)
            by (nonlinear_arith)
            requires
                count >= 1,
                0 < step,
        ;
        assert(kernels::code_bit(c, i) == kernels::code_bit(d, i));
        lemma_signed_lane(plus, query, c, d, start, step, (count - 1) as nat, n, x, y);
    }
}

proof fn lemma_folded<P: Fn(u32, u32) -> u32>(plus: P, register: Seq<u32>, r: u32, s: u32)
    requires
        single_valued(plus),
        lanes::folded(plus, register, r),
        lanes::folded(plus, register, s),
    ensures
        r == s,
{
    if register.len() == 8 {
        let t = choose|t: Seq<u32>| #[trigger]
            lanes::halves_added(plus, register, 4, t) && lanes::pairs_added(
                plus,
                t[0],
                t[2],
                t[1],
                t[3],
                r,
            );
        let u = choose|u: Seq<u32>| #[trigger]
            lanes::halves_added(plus, register, 4, u) && lanes::pairs_added(
                plus,
                u[0],
                u[2],
                u[1],
                u[3],
                s,
            );
        lemma_halves(plus, register, 4, t, u);
    }
}

proof fn lemma_halves<P: Fn(u32, u32) -> u32>(
    plus: P,
    register: Seq<u32>,
    apart: int,
    t: Seq<u32>,
    u: Seq<u32>,
)
    requires
        single_valued(plus),
        lanes::halves_added(plus, register, apart, t),
        lanes::halves_added(plus, register, apart, u),
    ensures
        t == u,
{
    assert forall|l: int| 0 <= l < apart implies t[l] == u[l] by {
        assert(call_ensures(plus, (register[l], register[l + apart]), t[l]));
        assert(call_ensures(plus, (register[l], register[l + apart]), u[l]));
    }
    assert(t =~= u);
}

proof fn lemma_product_tail<T: Fn(u32, u32) -> u32, P: Fn(u32, u32) -> u32>(
    times: T,
    plus: P,
    a: Seq<u32>,
    b: Seq<u32>,
    from: int,
    to: int,
    init: u32,
    r: u32,
    s: u32,
)
    requires
        single_valued(times),
        single_valued(plus),
        lanes::product_tail(times, plus, a, b, from, to, init, r),
        lanes::product_tail(times, plus, a, b, from, to, init, s),
    ensures
        r == s,
    decreases to - from,
{
    if from < to {
        let (x, p) = choose|x: u32, p: u32|
            {
                &&& lanes::product_tail(times, plus, a, b, from, to - 1, init, x)
                &&& call_ensures(times, (a[to - 1], b[to - 1]), p)
                &&& #[trigger] call_ensures(plus, (x, p), r)
            };
        let (y, q) = choose|y: u32, q: u32|
            {
                &&& lanes::product_tail(times, plus, a, b, from, to - 1, init, y)
                &&& call_ensures(times, (a[to - 1], b[to - 1]), q)
                &&& #[trigger] call_ensures(plus, (y, q), s)
            };
        lemma_product_tail(times, plus, a, b, from, to - 1, init, x, y);
    }
}

proof fn lemma_signed_tail<P: Fn(u32, u32) -> u32>(
    plus: P,
    query: Seq<u32>,
    c: Seq<u8>,
    d: Seq<u8>,
    from: int,
    to: int,
    init: u32,
    r: u32,
    s: u32,
)
    requires
        single_valued(plus),
        0 <= from,
        to >= 0,
        agree(c, d, to as nat),
        lanes::signed_tail(plus, query, c, from, to, init, r),
        lanes::signed_tail(plus, query, d, from, to, init, s),
    ensures
        r == s,
    decreases to - from,
{
    if from < to {
        let x = choose|x: u32|
            lanes::signed_tail(plus, query, c, from, to - 1, init, x) && #[trigger] call_ensures(
                plus,
                (x, kernels::signed_element(query, c, to - 1)),
                r,
            );
        let y = choose|y: u32|
            lanes::signed_tail(plus, query, d, from, to - 1, init, y) && #[trigger] call_ensures(
                plus,
                (y, kernels::signed_element(query, d, to - 1)),
                s,
            );
        assert(kernels::code_bit(c, to - 1) == kernels::code_bit(d, to - 1));
        lemma_signed_tail(plus, query, c, d, from, to - 1, init, x, y);
    }
}

proof fn lemma_vector<
    M: Fn(u32, u32, u32) -> u32,
    T: Fn(u32, u32) -> u32,
    P: Fn(u32, u32) -> u32,
>(fma: M, times: T, plus: P, width: int, a: Seq<u32>, b: Seq<u32>, r: u32, s: u32)
    requires
        single_valued_three(fma),
        single_valued(times),
        single_valued(plus),
        width == 4 || width == 8,
        lanes::vector_dot(fma, times, plus, width, a, b, r),
        lanes::vector_dot(fma, times, plus, width, a, b, s),
    ensures
        r == s,
{
    let n = a.len() as int;
    let groups = lanes::whole_part(n, 4 * width);
    let whole = lanes::whole_part(n, width);
    let (l1, f1, s1, t1) = choose|l: Seq<u32>, f: Seq<u32>, g: Seq<u32>, t: u32|
        {
            &&& #[trigger] lanes::product_lanes(fma, a, b, 4 * width, groups, l)
            &&& #[trigger] lanes::first_register(fma, a, b, width, groups, whole, l, f)
            &&& #[trigger] lanes::registers_added(plus, f, width, g)
            &&& lanes::folded(plus, g, t)
            &&& #[trigger] lanes::product_tail(times, plus, a, b, whole, n, t, r)
        };
    let (l2, f2, s2, t2) = choose|l: Seq<u32>, f: Seq<u32>, g: Seq<u32>, t: u32|
        {
            &&& #[trigger] lanes::product_lanes(fma, a, b, 4 * width, groups, l)
            &&& #[trigger] lanes::first_register(fma, a, b, width, groups, whole, l, f)
            &&& #[trigger] lanes::registers_added(plus, f, width, g)
            &&& lanes::folded(plus, g, t)
            &&& #[trigger] lanes::product_tail(times, plus, a, b, whole, n, t, s)
        };
    assert forall|p: int| 0 <= p < 4 * width implies l1[p] == l2[p] by {
        lemma_product_lane(
            fma,
            a,
            b,
            p,
            4 * width,
            lanes::steps_below(p, 4 * width, groups),
            ieee::ZERO_32,
            l1[p],
            l2[p],
        );
    }
    assert(l1 =~= l2);
    assert forall|p: int| 0 <= p < l1.len() implies f1[p] == f2[p] by {
        if p < width {
            lemma_product_lane(
                fma,
                a,
                b,
                groups + p,
                width,
                lanes::steps_below(groups + p, width, whole),
                l1[p],
                f1[p],
                f2[p],
            );
        }
    }
    assert(f1 =~= f2);
    assert forall|l: int| 0 <= l < width implies s1[l] == s2[l] by {
        assert(lanes::pairs_added(
            plus,
            f1[l],
            f1[width + l],
            f1[2 * width + l],
            f1[3 * width + l],
            s1[l],
        ));
        assert(lanes::pairs_added(
            plus,
            f1[l],
            f1[width + l],
            f1[2 * width + l],
            f1[3 * width + l],
            s2[l],
        ));
    }
    assert(s1 =~= s2);
    lemma_folded(plus, s1, t1, t2);
    lemma_product_tail(times, plus, a, b, whole, n, t1, r, s);
}

proof fn lemma_signed_vector<P: Fn(u32, u32) -> u32>(
    plus: P,
    width: int,
    query: Seq<u32>,
    c: Seq<u8>,
    d: Seq<u8>,
    r: u32,
    s: u32,
)
    requires
        single_valued(plus),
        width == 4 || width == 8,
        agree(c, d, query.len()),
        lanes::vector_signed_dot(plus, width, query, c, r),
        lanes::vector_signed_dot(plus, width, query, d, s),
    ensures
        r == s,
{
    let n = query.len() as int;
    let whole = n - n % 8;
    let (l1, s1, t1) = choose|l: Seq<u32>, g: Seq<u32>, t: u32|
        {
            &&& #[trigger] lanes::signed_lanes(plus, query, c, 2 * width, whole, l)
            &&& #[trigger] lanes::halves_added(plus, l, width, g)
            &&& lanes::folded(plus, g, t)
            &&& #[trigger] lanes::signed_tail(plus, query, c, whole, n, t, r)
        };
    let (l2, s2, t2) = choose|l: Seq<u32>, g: Seq<u32>, t: u32|
        {
            &&& #[trigger] lanes::signed_lanes(plus, query, d, 2 * width, whole, l)
            &&& #[trigger] lanes::halves_added(plus, l, width, g)
            &&& lanes::folded(plus, g, t)
            &&& #[trigger] lanes::signed_tail(plus, query, d, whole, n, t, s)
        };
    assert forall|p: int| 0 <= p < 2 * width implies l1[p] == l2[p] by {
        let count = lanes::steps_below(p, 2 * width, whole);
        if count > 0 {
            lemma_last_element(p, 2 * width, whole);
        }
        lemma_signed_lane(plus, query, c, d, p, 2 * width, count, query.len(), l1[p], l2[p]);
    }
    assert(l1 =~= l2);
    lemma_halves(plus, l1, width, s1, s2);
    lemma_folded(plus, s1, t1, t2);
    lemma_signed_tail(plus, query, c, d, whole, n, t1, r, s);
}

/// A backend's dot product is determined by its operands.
pub proof fn law_dot_is_determined<
    M: Fn(u32, u32, u32) -> u32,
    T: Fn(u32, u32) -> u32,
    P: Fn(u32, u32) -> u32,
>(
    backend: Backend,
    fma: M,
    times: T,
    plus: P,
    a: Seq<u32>,
    b: Seq<u32>,
    r: u32,
    s: u32,
)
    requires
        single_valued_three(fma),
        single_valued(times),
        single_valued(plus),
        backend::backend_dot(backend, fma, times, plus, a, b, r),
        backend::backend_dot(backend, fma, times, plus, a, b, s),
    ensures
        r == s,
{
    match backend {
        Backend::Scalar => lemma_chain(times, plus, a, b, a.len(), r, s),
        Backend::Neon => lemma_vector(fma, times, plus, 4, a, b, r, s),
        Backend::NeonDotprod => lemma_vector(fma, times, plus, 4, a, b, r, s),
        Backend::Avx2 => lemma_vector(fma, times, plus, 8, a, b, r, s),
    }
}

/// A backend's asymmetric dot is determined by the query and by the code's
/// bits within the query's dimensions; padding is never read.
pub proof fn law_signed_dot_is_determined<P: Fn(u32, u32) -> u32>(
    backend: Backend,
    plus: P,
    query: Seq<u32>,
    c: Seq<u8>,
    d: Seq<u8>,
    r: u32,
    s: u32,
)
    requires
        single_valued(plus),
        agree(c, d, query.len()),
        backend::backend_signed_dot(backend, plus, query, c, r),
        backend::backend_signed_dot(backend, plus, query, d, s),
    ensures
        r == s,
{
    match backend {
        Backend::Scalar => lemma_signed_chain(plus, query, c, d, query.len(), r, s),
        Backend::Neon => lemma_signed_vector(plus, 4, query, c, d, r, s),
        Backend::NeonDotprod => lemma_signed_vector(plus, 4, query, c, d, r, s),
        Backend::Avx2 => lemma_signed_vector(plus, 8, query, c, d, r, s),
    }
}

/// What a table of the detected backend gives has the bits of what the free
/// functions give on that backend.
pub proof fn law_table_and_free_functions_agree<D, B, X, M, T, P>(
    k: Kernels<D, B, X>,
    detected: Backend,
    fma: M,
    times: T,
    plus: P,
) where
    D: Fn(&[u32], &[u32]) -> u32,
    B: Fn(&[u32], &[u8]) -> u32,
    X: Fn(u32, u32) -> u32,
    M: Fn(u32, u32, u32) -> u32,
    T: Fn(u32, u32) -> u32,
    P: Fn(u32, u32) -> u32,

    requires
        backend::is_table(k, detected, fma, times, plus),
        single_valued_three(fma),
        single_valued(times),
        single_valued(plus),
    ensures
        forall|a: &[u32], b: &[u32], r: u32, s: u32| #[trigger]
            call_ensures(k.dot_f32, (a, b), r) && #[trigger] backend::backend_dot(
                detected,
                fma,
                times,
                plus,
                a@,
                b@,
                s,
            ) ==> r == s,
        forall|q: &[u32], code: &[u8], r: u32, s: u32| #[trigger]
            call_ensures(k.dot_f32_bin, (q, code), r) && #[trigger] backend::backend_signed_dot(
                detected,
                plus,
                q@,
                code@,
                s,
            ) ==> r == s,
{
    assert forall|a: &[u32], b: &[u32], r: u32, s: u32| #[trigger]
        call_ensures(k.dot_f32, (a, b), r) && #[trigger] backend::backend_dot(
            detected,
            fma,
            times,
            plus,
            a@,
            b@,
            s,
        ) implies r == s by {
        law_dot_is_determined(detected, fma, times, plus, a@, b@, r, s);
    }
    assert forall|q: &[u32], code: &[u8], r: u32, s: u32| #[trigger]
        call_ensures(k.dot_f32_bin, (q, code), r) && #[trigger] backend::backend_signed_dot(
            detected,
            plus,
            q@,
            code@,
            s,
        ) implies r == s by {
        law_signed_dot_is_determined(detected, plus, q@, code@, code@, r, s);
    }
}

/// The asymmetric int8 dot depends on the code's bits within the query's
/// dimensions only.
pub proof fn law_signed_sum_ignores_padding(query: Seq<i8>, c: Seq<u8>, d: Seq<u8>)
    requires
        agree(c, d, query.len()),
    ensures
        kernels::signed_sum(query, c) == kernels::signed_sum(query, d),
{
    lemma_signed_prefix(query, c, d, query.len());
}

proof fn lemma_signed_prefix(query: Seq<i8>, c: Seq<u8>, d: Seq<u8>, n: nat)
    requires
        agree(c, d, n),
    ensures
        kernels::signed_prefix(query, c, n) == kernels::signed_prefix(query, d, n),
    decreases n,
{
    if n > 0 {
        lemma_signed_prefix(query, c, d, (n - 1) as nat);
        assert(kernels::code_bit(c, n - 1) == kernels::code_bit(d, n - 1));
    }
}

} // verus!
