//! Not-a-number passes through every kernel: given arithmetic that passes it
//! through, an element that is not a number makes the result one that is not.

use vstd::prelude::*;
use vstd::arithmetic::div_mod::*;
use crate::ieee;
use crate::kernels;
use crate::kernels::backend::{self, Backend};
use crate::kernels::lanes;

verus! {

/// The operation gives no number where an operand is none.
pub open spec fn passes<P: Fn(u32, u32) -> u32>(op: P) -> bool {
    forall|x: u32, y: u32, z: u32| #[trigger]
        call_ensures(op, (x, y), z) && (ieee::is_nan(x) || ieee::is_nan(y)) ==> ieee::is_nan(z)
}

/// The same of an operation with three operands.
pub open spec fn passes_three<M: Fn(u32, u32, u32) -> u32>(op: M) -> bool {
    forall|x: u32, y: u32, z: u32, w: u32| #[trigger]
        call_ensures(op, (x, y, z), w) && (ieee::is_nan(x) || ieee::is_nan(y) || ieee::is_nan(z))
            ==> ieee::is_nan(w)
}

proof fn lemma_chain<T: Fn(u32, u32) -> u32, P: Fn(u32, u32) -> u32>(
    times: T,
    plus: P,
    a: Seq<u32>,
    b: Seq<u32>,
    n: nat,
    acc: u32,
    i: int,
)
    requires
        passes(times),
        passes(plus),
        0 <= i < n,
        ieee::is_nan(a[i]) || ieee::is_nan(b[i]),
        kernels::dot_chain(times, plus, a, b, n, acc),
    ensures
        ieee::is_nan(acc),
    decreases n,
{
    let (before, product) = choose|before: u32, product: u32|
        {
            &&& kernels::dot_chain(times, plus, a, b, (n - 1) as nat, before)
            &&& call_ensures(times, (a[n - 1], b[n - 1]), product)
            &&& #[trigger] call_ensures(plus, (before, product), acc)
        };
    if i < n - 1 {
        lemma_chain(times, plus, a, b, (n - 1) as nat, before, i);
    }
}

proof fn lemma_signed_chain<P: Fn(u32, u32) -> u32>(
    plus: P,
    q: Seq<u32>,
    code: Seq<u8>,
    n: nat,
    acc: u32,
    i: int,
)
    requires
        passes(plus),
        0 <= i < n,
        ieee::is_nan(q[i]),
        kernels::signed_chain(plus, q, code, n, acc),
    ensures
        ieee::is_nan(acc),
    decreases n,
{
    let before = choose|before: u32|
        {
            &&& kernels::signed_chain(plus, q, code, (n - 1) as nat, before)
            &&& #[trigger] call_ensures(
                plus,
                (before, kernels::signed_element(q, code, n - 1)),
                acc,
            )
        };
    if i < n - 1 {
        lemma_signed_chain(plus, q, code, (n - 1) as nat, before, i);
    }
}

/// A lane that starts with no number, or meets one, ends with none.
proof fn lemma_lane<M: Fn(u32, u32, u32) -> u32>(
    fma: M,
    a: Seq<u32>,
    b: Seq<u32>,
    start: int,
    step: int,
    count: nat,
    init: u32,
    acc: u32,
    k: int,
)
    requires
        passes_three(fma),
        ieee::is_nan(init) || 0 <= k < count && (ieee::is_nan(a[start + k * step]) || ieee::is_nan(
            b[start + k * step],
        )),
        lanes::product_lane(fma, a, b, start, step, count, init, acc),
    ensures
        ieee::is_nan(acc),
    decreases count,
{
    if count > 0 {
        let i = start + (count - 1) * step;
        let before = choose|before: u32|
            lanes::product_lane(fma, a, b, start, step, (count - 1) as nat, init, before)
                && #[trigger] call_ensures(fma, (a[i], b[i], before), acc);
        if ieee::is_nan(init) || k < count - 1 {
            lemma_lane(fma, a, b, start, step, (count - 1) as nat, init, before, k);
        }
    }
}

proof fn lemma_signed_lane<P: Fn(u32, u32) -> u32>(
    plus: P,
    q: Seq<u32>,
    code: Seq<u8>,
    start: int,
    step: int,
    count: nat,
    acc: u32,
    k: int,
)
    requires
        passes(plus),
        0 <= k < count,
        ieee::is_nan(q[start + k * step]),
        lanes::signed_lane(plus, q, code, start, step, count, acc),
    ensures
        ieee::is_nan(acc),
    decreases count,
{
    let i = start + (count - 1) * step;
    let before = choose|before: u32|
        lanes::signed_lane(plus, q, code, start, step, (count - 1) as nat, before)
            && #[trigger] call_ensures(
            plus,
            (before, kernels::signed_element(q, code, i)),
            acc,
        );
    if k < count - 1 {
        lemma_signed_lane(plus, q, code, start, step, (count - 1) as nat, before, k);
    }
}

/// A register with a lane that is no number adds up to none.
proof fn lemma_folded<P: Fn(u32, u32) -> u32>(plus: P, sums: Seq<u32>, total: u32, l: int)
    requires
        passes(plus),
        sums.len() == 4 || sums.len() == 8,
        0 <= l < sums.len(),
        ieee::is_nan(sums[l]),
        lanes::folded(plus, sums, total),
    ensures
        ieee::is_nan(total),
{
    if sums.len() == 8 {
        let t = choose|t: Seq<u32>| #[trigger]
            lanes::halves_added(plus, sums, 4, t) && lanes::pairs_added(
                plus,
                t[0],
                t[2],
                t[1],
                t[3],
                total,
            );
        let m = if l < 4 {
            l
        } else {
            l - 4
        };
        assert(call_ensures(plus, (sums[m], sums[m + 4]), t[m]));
        assert(ieee::is_nan(t[m]));
    }
}

proof fn lemma_tail<T: Fn(u32, u32) -> u32, P: Fn(u32, u32) -> u32>(
    times: T,
    plus: P,
    a: Seq<u32>,
    b: Seq<u32>,
    from: int,
    to: int,
    init: u32,
    acc: u32,
    i: int,
)
    requires
        passes(times),
        passes(plus),
        ieee::is_nan(init) || from <= i < to && (ieee::is_nan(a[i]) || ieee::is_nan(b[i])),
        lanes::product_tail(times, plus, a, b, from, to, init, acc),
    ensures
        ieee::is_nan(acc),
    decreases to - from,
{
    if from < to {
        let (before, product) = choose|before: u32, product: u32|
            {
                &&& lanes::product_tail(times, plus, a, b, from, to - 1, init, before)
                &&& call_ensures(times, (a[to - 1], b[to - 1]), product)
                &&& #[trigger] call_ensures(plus, (before, product), acc)
            };
        if ieee::is_nan(init) || i < to - 1 {
            lemma_tail(times, plus, a, b, from, to - 1, init, before, i);
        }
    }
}

proof fn lemma_signed_tail<P: Fn(u32, u32) -> u32>(
    plus: P,
    q: Seq<u32>,
    code: Seq<u8>,
    from: int,
    to: int,
    init: u32,
    acc: u32,
    i: int,
)
    requires
        passes(plus),
        ieee::is_nan(init) || from <= i < to && ieee::is_nan(q[i]),
        lanes::signed_tail(plus, q, code, from, to, init, acc),
    ensures
        ieee::is_nan(acc),
    decreases to - from,
{
    if from < to {
        let before = choose|before: u32|
            lanes::signed_tail(plus, q, code, from, to - 1, init, before)
                && #[trigger] call_ensures(
                plus,
                (before, kernels::signed_element(q, code, to - 1)),
                acc,
            );
        if ieee::is_nan(init) || i < to - 1 {
            lemma_signed_tail(plus, q, code, from, to - 1, init, before, i);
        }
    }
}

/// Element `i` of `from..end` is met by its lane.
proof fn lemma_met(from: int, step: int, end: int, i: int) -> (r: (int, int))
    requires
        0 < step,
        from <= i < end,
    ensures
        0 <= r.0 < step,
        0 <= r.1 < lanes::steps_below(from + r.0, step, end),
        from + r.0 + r.1 * step == i,
{
    let x = i - from;
    let (q, p) = (x / step, x % step);
    lemma_fundamental_div_mod(x, step);
    assert(step * q == q * step) by (nonlinear_arith);
    assert(q >= 0) by (nonlinear_arith)
        requires
            x >= 0,
            step > 0,
            q == x / step,
    ;
    let gap = end - from - p - 1;
    assert(gap >= q * step);
    assert(gap / step >= q) by (nonlinear_arith)
        requires
            gap >= q * step,
            step > 0,
    ;
    (p, q)
}

/// An element of the whole registers makes a lane no number.
proof fn lemma_lane_of<M: Fn(u32, u32, u32) -> u32>(
    fma: M,
    width: int,
    a: Seq<u32>,
    b: Seq<u32>,
    groups: int,
    whole: int,
    first: Seq<u32>,
    after: Seq<u32>,
    i: int,
) -> (p: int)
    requires
        passes_three(fma),
        0 < width,
        0 <= i < whole,
        0 <= groups <= whole,
        ieee::is_nan(a[i]) || ieee::is_nan(b[i]),
        lanes::product_lanes(fma, a, b, 4 * width, groups, first),
        lanes::first_register(fma, a, b, width, groups, whole, first, after),
    ensures
        0 <= p < 4 * width,
        ieee::is_nan(after[p]),
{
    if i < groups {
        let (p, k) = lemma_met(0, 4 * width, groups, i);
        let count = lanes::steps_below(p, 4 * width, groups);
        assert(lanes::product_lane(
            fma,
            a,
            b,
            p,
            4 * width,
            count,
            ieee::ZERO_32,
            first[p],
        ));
        lemma_lane(fma, a, b, p, 4 * width, count, ieee::ZERO_32, first[p], k);
        if p < width {
            let more = lanes::steps_below(groups + p, width, whole);
            assert(lanes::product_lane(fma, a, b, groups + p, width, more, first[p], after[p]));
            lemma_lane(fma, a, b, groups + p, width, more, first[p], after[p], 0);
        } else {
            assert(after[p] == first[p]);
        }
        p
    } else {
        let (p, k) = lemma_met(groups, width, whole, i);
        let more = lanes::steps_below(groups + p, width, whole);
        assert(lanes::product_lane(fma, a, b, groups + p, width, more, first[p], after[p]));
        lemma_lane(fma, a, b, groups + p, width, more, first[p], after[p], k);
        p
    }
}

/// A lane that is no number makes its sum over the registers none.
proof fn lemma_registers<P: Fn(u32, u32) -> u32>(
    plus: P,
    width: int,
    after: Seq<u32>,
    sums: Seq<u32>,
    p: int,
) -> (l: int)
    requires
        passes(plus),
        0 < width,
        0 <= p < 4 * width,
        ieee::is_nan(after[p]),
        lanes::registers_added(plus, after, width, sums),
    ensures
        0 <= l < width,
        ieee::is_nan(sums[l]),
{
    let l = if p < width {
        p
    } else if p < 2 * width {
        p - width
    } else if p < 3 * width {
        p - 2 * width
    } else {
        p - 3 * width
    };
    assert(lanes::pairs_added(
        plus,
        after[l],
        after[width + l],
        after[2 * width + l],
        after[3 * width + l],
        sums[l],
    ));
    l
}

proof fn lemma_vector<M: Fn(u32, u32, u32) -> u32, T: Fn(u32, u32) -> u32, P: Fn(u32, u32) -> u32>(
    fma: M,
    times: T,
    plus: P,
    width: int,
    a: Seq<u32>,
    b: Seq<u32>,
    r: u32,
    i: int,
)
    requires
        passes_three(fma),
        passes(times),
        passes(plus),
        width == 4 || width == 8,
        0 <= i < a.len(),
        ieee::is_nan(a[i]) || ieee::is_nan(b[i]),
        lanes::vector_dot(fma, times, plus, width, a, b, r),
    ensures
        ieee::is_nan(r),
{
    let n = a.len() as int;
    let groups = lanes::whole_part(n, 4 * width);
    let whole = lanes::whole_part(n, width);
    let (first, after, sums, total) = choose|
        first: Seq<u32>,
        after: Seq<u32>,
        sums: Seq<u32>,
        total: u32,
    |
        {
            &&& #[trigger] lanes::product_lanes(fma, a, b, 4 * width, groups, first)
            &&& #[trigger] lanes::first_register(fma, a, b, width, groups, whole, first, after)
            &&& #[trigger] lanes::registers_added(plus, after, width, sums)
            &&& lanes::folded(plus, sums, total)
            &&& #[trigger] lanes::product_tail(times, plus, a, b, whole, n, total, r)
        };
    lanes::lemma_whole_parts(n, width);
    lemma_vector_parts(fma, times, plus, width, a, b, r, i, groups, whole, first, after, sums, total);
}

proof fn lemma_vector_parts<
    M: Fn(u32, u32, u32) -> u32,
    T: Fn(u32, u32) -> u32,
    P: Fn(u32, u32) -> u32,
>(
    fma: M,
    times: T,
    plus: P,
    width: int,
    a: Seq<u32>,
    b: Seq<u32>,
    r: u32,
    i: int,
    groups: int,
    whole: int,
    first: Seq<u32>,
    after: Seq<u32>,
    sums: Seq<u32>,
    total: u32,
)
    requires
        passes_three(fma),
        passes(times),
        passes(plus),
        width == 4 || width == 8,
        0 <= i < a.len(),
        0 <= groups <= whole <= a.len(),
        ieee::is_nan(a[i]) || ieee::is_nan(b[i]),
        lanes::product_lanes(fma, a, b, 4 * width, groups, first),
        lanes::first_register(fma, a, b, width, groups, whole, first, after),
        lanes::registers_added(plus, after, width, sums),
        lanes::folded(plus, sums, total),
        lanes::product_tail(times, plus, a, b, whole, a.len() as int, total, r),
    ensures
        ieee::is_nan(r),
{
    if i < whole {
        let p = lemma_lane_of(fma, width, a, b, groups, whole, first, after, i);
        let l = lemma_registers(plus, width, after, sums, p);
        lemma_folded(plus, sums, total, l);
    }
    lemma_tail(times, plus, a, b, whole, a.len() as int, total, r, i);
}

proof fn lemma_signed_vector<P: Fn(u32, u32) -> u32>(
    plus: P,
    width: int,
    q: Seq<u32>,
    code: Seq<u8>,
    r: u32,
    i: int,
)
    requires
        passes(plus),
        width == 4 || width == 8,
        0 <= i < q.len(),
        ieee::is_nan(q[i]),
        lanes::vector_signed_dot(plus, width, q, code, r),
    ensures
        ieee::is_nan(r),
{
    let n = q.len() as int;
    let whole = n - n % 8;
    let (all, sums, total) = choose|all: Seq<u32>, sums: Seq<u32>, total: u32|
        {
            &&& #[trigger] lanes::signed_lanes(plus, q, code, 2 * width, whole, all)
            &&& #[trigger] lanes::halves_added(plus, all, width, sums)
            &&& lanes::folded(plus, sums, total)
            &&& #[trigger] lanes::signed_tail(plus, q, code, whole, n, total, r)
        };
    if i < whole {
        let (p, k) = lemma_met(0, 2 * width, whole, i);
        assert(lanes::signed_lane(
            plus,
            q,
            code,
            p,
            2 * width,
            lanes::steps_below(p, 2 * width, whole),
            all[p],
        ));
        lemma_signed_lane(
            plus,
            q,
            code,
            p,
            2 * width,
            lanes::steps_below(0 + p, 2 * width, whole),
            all[p],
            k,
        );
        let l = if p < width {
            p
        } else {
            p - width
        };
        assert(call_ensures(plus, (all[l], all[l + width]), sums[l]));
        lemma_folded(plus, sums, total, l);
    }
    lemma_signed_tail(plus, q, code, whole, n, total, r, i);
}

/// In every backend a dot product with an element that is not a number is not
/// a number.
pub proof fn law_nan_passes_through_dot<
    M: Fn(u32, u32, u32) -> u32,
    T: Fn(u32, u32) -> u32,
    P: Fn(u32, u32) -> u32,
>(backend: Backend, fma: M, times: T, plus: P, a: Seq<u32>, b: Seq<u32>, r: u32, i: int)
    requires
        passes_three(fma),
        passes(times),
        passes(plus),
        0 <= i < a.len(),
        ieee::is_nan(a[i]) || ieee::is_nan(b[i]),
        backend::backend_dot(backend, fma, times, plus, a, b, r),
    ensures
        ieee::is_nan(r),
{
    match backend {
        Backend::Scalar => {
            lemma_chain(times, plus, a, b, a.len(), r, i);
        },
        Backend::Neon | Backend::NeonDotprod => {
            lemma_vector(fma, times, plus, 4, a, b, r, i);
        },
        Backend::Avx2 => {
            lemma_vector(fma, times, plus, 8, a, b, r, i);
        },
    }
}

/// In every backend an asymmetric dot with a query element that is not a
/// number is not a number.
pub proof fn law_nan_passes_through_signed_dot<P: Fn(u32, u32) -> u32>(
    backend: Backend,
    plus: P,
    q: Seq<u32>,
    code: Seq<u8>,
    r: u32,
    i: int,
)
    requires
        passes(plus),
        0 <= i < q.len(),
        ieee::is_nan(q[i]),
        backend::backend_signed_dot(backend, plus, q, code, r),
    ensures
        ieee::is_nan(r),
{
    match backend {
        Backend::Scalar => {
            lemma_signed_chain(plus, q, code, q.len(), r, i);
        },
        Backend::Neon | Backend::NeonDotprod => {
            lemma_signed_vector(plus, 4, q, code, r, i);
        },
        Backend::Avx2 => {
            lemma_signed_vector(plus, 8, q, code, r, i);
        },
    }
}

} // verus!
