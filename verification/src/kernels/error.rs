//! How far the single-precision kernels are from the exact sum, for IEEE
//! arithmetic: in every backend by `n * 2^-23` of the sum of the magnitudes at
//! most, so two backends differ by at most twice that.
//!
//! Sums of products are counted in steps of `2^-298`, the product of two steps.

use vstd::prelude::*;
use vstd::arithmetic::power2::*;
use crate::ieee;
use crate::kernels;
use crate::kernels::backend::{self, Backend};
use crate::kernels::lanes;
use crate::rounding::{self, one, size, units};

verus! {

/// `r` is a finite number that approximates the exact sum `s` of `n` terms
/// whose magnitudes add up to `t`.
pub open spec fn near(r: u32, n: int, s: int, t: int) -> bool {
    &&& ieee::is_finite(r)
    &&& n >= 0
    &&& size(s) <= t
    &&& if n == 0 {
        units(r) == 0 && t == 0
    } else {
        0x100_0000 * size(units(r) * one() - s) <= (2 * n - 1) * t
    }
}

/// A signed value and its rounded form.
proof fn lemma_signed_error(r: u32, v: int, q: nat)
    requires
        q > 0,
        rounding::rounds_signed(r, v, q),
        ieee::is_finite(r),
    ensures
        size(v) >= 0x80_0000 * q ==> 0x100_0000 * size(units(r) * q - v) <= size(v),
        size(v) < 0x100_0000 * q ==> 2 * size(units(r) * q - v) <= q,
        forall|b: u32|
            ieee::is_finite(b) ==> size(units(r) * q - v) <= size(#[trigger] units(b) * q - v),
{
    let (p, s) = (size(v), ieee::steps(r));
    rounding::lemma_rounding_error(p, q);
    rounding::lemma_nearest(p, q, 0);
    assert(ieee::steps(ieee::magnitude(r)) == s);
    let e = size(units(r) * q - v);
    assert(e == size(s * q - p)) by {
        if v == 0 {
            assert(0 * q == 0);
            assert(s * q == 0);
            assert(s == 0) by (nonlinear_arith)
                requires
                    s * q == 0,
                    q > 0,
            ;
        }
        assert((-s) * q == -(s * q)) by (nonlinear_arith);
    }
    assert forall|b: u32| ieee::is_finite(b) implies e <= size(#[trigger] units(b) * q - v) by {
        rounding::lemma_nearest(p, q, b);
        let y = ieee::steps(b);
        assert((-y) * q == -(y * q)) by (nonlinear_arith);
        assert(y * q >= 0) by (nonlinear_arith);
    }
}

/// Adding two approximations approximates the sum of all terms.
proof fn lemma_added(
    x: u32,
    y: u32,
    r: u32,
    n1: int,
    s1: int,
    t1: int,
    n2: int,
    s2: int,
    t2: int,
)
    requires
        near(x, n1, s1, t1),
        near(y, n2, s2, t2),
        rounding::sum_of(x, y, r),
        ieee::is_finite(r),
    ensures
        near(r, n1 + n2, s1 + s2, t1 + t2),
{
    let b = one() as int;
    lemma_pow2_pos(149);
    let (ux, uy, v) = (units(x), units(y), units(x) + units(y));
    lemma_signed_error(r, v, 1);
    let e = size(units(r) - v) as int;
    assert(units(r) * 1 == units(r) && units(x) * 1 == ux && units(y) * 1 == uy);
    assert(e <= size(units(x) * 1 - v) && e <= size(units(y) * 1 - v));
    assert(0x100_0000 * e <= size(v));
    let big = e * b;
    let (d1, d2) = (size(ux * b - s1) as int, size(uy * b - s2) as int);
    assert(big <= size(ux * b) && big <= size(uy * b) && 0x100_0000 * big <= size(ux * b) + size(
        uy * b,
    )) by {
        lemma_size_times(ux, b);
        lemma_size_times(uy, b);
        let (px, py) = (size(ux) as int, size(uy) as int);
        assert(e * b <= px * b && e * b <= py * b && 0x100_0000 * (e * b) <= px * b + py * b)
            by (nonlinear_arith)
            requires
                e <= px,
                e <= py,
                0x100_0000 * e <= px + py,
                b > 0,
        ;
    }
    assert(units(r) * b - (s1 + s2) == (units(r) - v) * b + (ux * b - s1) + (uy * b - s2))
        by (nonlinear_arith)
        requires
            v == ux + uy,
    ;
    lemma_size_times(units(r) - v, b);
    assert(size(units(r) * b - (s1 + s2)) <= big + d1 + d2);
    if n1 == 0 {
        assert(0 * b == 0);
    } else if n2 == 0 {
        assert(0 * b == 0);
    } else {
        lemma_merge(big, d1, t1, n1, d2, t2, n2);
    }
}

/// The arithmetic of adding two approximations.
proof fn lemma_merge(e: int, d1: int, t1: int, n1: int, d2: int, t2: int, n2: int)
    requires
        n1 >= 1,
        n2 >= 1,
        t1 >= 0,
        t2 >= 0,
        d1 >= 0,
        d2 >= 0,
        0x100_0000 * d1 <= (2 * n1 - 1) * t1,
        0x100_0000 * d2 <= (2 * n2 - 1) * t2,
        e <= t1 + d1,
        e <= t2 + d2,
        0x100_0000 * e <= t1 + d1 + t2 + d2,
    ensures
        0x100_0000 * (e + d1 + d2) <= (2 * (n1 + n2) - 1) * (t1 + t2),
{
    let (m1, m2) = (2 * n1 - 1, 2 * n2 - 1);
    assert(0x100_0000 * e <= (m2 + 1) * t1 + (m1 + 1) * t2) by {
        if 0x100_0000 * t1 <= t2 {
            assert(m1 * t1 <= m1 * t2 && (m2 + 1) * t1 >= 0 && (m1 + 1) * t2 == m1 * t2 + t2)
                by (nonlinear_arith)
                requires
                    t1 <= t2,
                    t1 >= 0,
                    m1 >= 1,
                    m2 >= 1,
            ;
        } else if 0x100_0000 * t2 <= t1 {
            assert(m2 * t2 <= m2 * t1 && (m1 + 1) * t2 >= 0 && (m2 + 1) * t1 == m2 * t1 + t1)
                by (nonlinear_arith)
                requires
                    t2 <= t1,
                    t2 >= 0,
                    m1 >= 1,
                    m2 >= 1,
            ;
        } else {
            assert(d1 <= m1 * t2) by (nonlinear_arith)
                requires
                    0x100_0000 * d1 <= m1 * t1,
                    t1 < 0x100_0000 * t2,
                    m1 >= 1,
            ;
            assert(d2 <= m2 * t1) by (nonlinear_arith)
                requires
                    0x100_0000 * d2 <= m2 * t2,
                    t2 < 0x100_0000 * t1,
                    m2 >= 1,
            ;
            assert((m1 + 1) * t2 == m1 * t2 + t2 && (m2 + 1) * t1 == m2 * t1 + t1)
                by (nonlinear_arith);
        }
    }
    assert((2 * (n1 + n2) - 1) * (t1 + t2) == m1 * t1 + m2 * t2 + (m2 + 1) * t1 + (m1 + 1) * t2)
        by (nonlinear_arith)
        requires
            m1 == 2 * n1 - 1,
            m2 == 2 * n2 - 1,
    ;
}

/// The magnitude of a product.
proof fn lemma_size_times(x: int, y: int)
    ensures
        size(x * y) == size(x) * size(y),
{
    assert((-x) * y == -(x * y) && x * (-y) == -(x * y) && (-x) * (-y) == x * y)
        by (nonlinear_arith);
    if x >= 0 && y >= 0 {
        assert(x * y >= 0) by (nonlinear_arith)
            requires
                x >= 0,
                y >= 0,
        ;
    } else if x < 0 && y < 0 {
        assert(x * y >= 0) by (nonlinear_arith)
            requires
                x < 0,
                y < 0,
        ;
    } else if x < 0 {
        assert(x * y <= 0) by (nonlinear_arith)
            requires
                x < 0,
                y >= 0,
        ;
    } else {
        assert(x * y <= 0) by (nonlinear_arith)
            requires
                x >= 0,
                y < 0,
        ;
    }
}

/// The product of two finite numbers does not fall below the normal range: it
/// is zero or at least `2^-126`.
pub open spec fn no_underflow(x: u32, y: u32) -> bool {
    units(x) * units(y) == 0 || size(units(x) * units(y)) >= 0x80_0000 * one()
}

/// A product approximates itself.
proof fn lemma_product(x: u32, y: u32, r: u32)
    requires
        rounding::product_of(x, y, r),
        ieee::is_finite(r),
        no_underflow(x, y),
    ensures
        near(r, 1, units(x) * units(y), size(units(x) * units(y)) as int),
{
    lemma_pow2_pos(149);
    let p = units(x) * units(y);
    lemma_size_times(units(x), units(y));
    assert(size(p) == ieee::steps(x) * ieee::steps(y));
    let s = ieee::steps(r);
    assert(ieee::steps(ieee::magnitude(r)) == s);
    rounding::lemma_rounding_error(size(p), one());
    rounding::lemma_nearest(size(p), one(), 0);
    let b = one() as int;
    assert((-s) * b == -(s * b)) by (nonlinear_arith);
    if p == 0 {
        assert(0 * b == 0);
        assert(s * b == 0);
        assert(units(r) * b == 0);
    } else {
        assert((p < 0) == rounding::negative(r)) by {
            lemma_sign_of_product(units(x), units(y));
            assert(units(x) != 0 && units(y) != 0) by {
                assert(0 * units(y) == 0 && units(x) * 0 == 0);
            }
        }
    }
    assert(ieee::is_finite(x) && ieee::is_finite(y));
    assert(0x100_0000 * size(units(r) * b - p) <= size(p));
    assert((2 * 1 - 1) * (size(p) as int) == size(p)) by (nonlinear_arith);
}

proof fn lemma_sign_of_product(x: int, y: int)
    ensures
        x > 0 && y > 0 ==> x * y > 0,
        x < 0 && y < 0 ==> x * y > 0,
        x > 0 && y < 0 ==> x * y < 0,
        x < 0 && y > 0 ==> x * y < 0,
{
    assert((x > 0 && y > 0 ==> x * y > 0) && (x < 0 && y < 0 ==> x * y > 0) && (x > 0 && y < 0 ==> x
        * y < 0) && (x < 0 && y > 0 ==> x * y < 0)) by (nonlinear_arith);
}

/// A fused step adds one term to an approximation.
proof fn lemma_fused(x: u32, y: u32, z: u32, r: u32, n: int, s: int, t: int)
    requires
        near(z, n, s, t),
        rounding::fused_of(x, y, z, r),
        ieee::is_finite(r),
        no_underflow(x, y),
    ensures
        near(
            r,
            n + 1,
            s + units(x) * units(y),
            t + size(units(x) * units(y)),
        ),
{
    lemma_pow2_pos(149);
    let b = one() as int;
    let p = units(x) * units(y);
    let w = units(z) * b;
    let v = p + w;
    lemma_signed_error(r, v, one());
    let e = size(units(r) * b - v) as int;
    let a = size(p) as int;
    let d = size(w - s) as int;
    assert(e <= size(units(z) * one() - v));
    assert(e <= a);
    assert(size(units(r) * b - (s + p)) <= e + d);
    if p != 0 {
        assert(0x100_0000 * e <= a + t + d) by {
            if size(v) < 0x80_0000 * one() {
                assert(2 * e <= b);
            }
        }
        if n == 0 {
            assert(0 * b == 0);
            assert(0x100_0000 * e <= a) by {
                if size(v) < 0x80_0000 * one() {
                    assert(2 * e <= b);
                }
            }
            assert(1 * (t + a) == t + a);
        } else {
            lemma_step(e, d, t, n, a);
        }
    } else {
        assert(e == 0);
        if n == 0 {
            assert(0 * b == 0);
            assert(1 * (t + a) == t + a);
        } else {
            assert((2 * n - 1) * t <= (2 * (n + 1) - 1) * (t + a)) by (nonlinear_arith)
                requires
                    t >= 0,
                    a >= 0,
                    n >= 1,
            ;
        }
    }
}

/// The arithmetic of a fused step.
proof fn lemma_step(e: int, d: int, t: int, n: int, a: int)
    requires
        n >= 1,
        t >= 0,
        a >= 0,
        d >= 0,
        0x100_0000 * d <= (2 * n - 1) * t,
        e <= a,
        0x100_0000 * e <= a + t + d,
    ensures
        0x100_0000 * (e + d) <= (2 * (n + 1) - 1) * (t + a),
{
    let m = 2 * n - 1;
    assert(0x100_0000 * e <= 2 * t + (m + 2) * a) by {
        if 0x100_0000 * a <= t {
            assert((m + 2) * a >= 0) by (nonlinear_arith)
                requires
                    m >= 1,
                    a >= 0,
            ;
        } else {
            assert(d <= m * a) by (nonlinear_arith)
                requires
                    0x100_0000 * d <= m * t,
                    t < 0x100_0000 * a,
                    m >= 1,
            ;
            assert((m + 2) * a == m * a + 2 * a) by (nonlinear_arith);
        }
    }
    assert((2 * (n + 1) - 1) * (t + a) == m * t + 2 * t + (m + 2) * a) by (nonlinear_arith)
        requires
            m == 2 * n - 1,
    ;
}

/// The sum of a function over `from..to`.
pub open spec fn range_sum(f: spec_fn(int) -> int, from: int, to: int) -> int
    decreases to - from,
{
    if to <= from {
        0
    } else {
        range_sum(f, from, to - 1) + f(to - 1)
    }
}

/// The sum of a function over `start`, `start + step`, and so on.
pub open spec fn lane_sum(f: spec_fn(int) -> int, start: int, step: int, count: nat) -> int
    decreases count,
{
    if count == 0 {
        0
    } else {
        lane_sum(f, start, step, (count - 1) as nat) + f(start + (count - 1) * step)
    }
}

/// The sums of the first `upto` lanes over `from..end`, added up.
pub open spec fn lanes_sum(f: spec_fn(int) -> int, from: int, step: int, end: int, upto: int) -> int
    decreases upto,
{
    if upto <= 0 {
        0
    } else {
        lanes_sum(f, from, step, end, upto - 1) + lane_sum(
            f,
            from + upto - 1,
            step,
            lanes::steps_below(from + upto - 1, step, end),
        )
    }
}

/// Passing an element adds its term to the lanes' sums.
proof fn lemma_lanes_step(f: spec_fn(int) -> int, from: int, step: int, end: int, upto: int)
    requires
        0 < step,
        from <= end,
        0 <= upto <= step,
    ensures
        lanes_sum(f, from, step, end + 1, upto) == lanes_sum(f, from, step, end, upto) + if (end
            - from) % step < upto {
            f(end)
        } else {
            0
        },
    decreases upto,
{
    if upto > 0 {
        lemma_lanes_step(f, from, step, end, upto - 1);
        lanes::lemma_steps(from + upto - 1, step, from, end);
    } else {
        assert((end - from) % step >= 0) by (nonlinear_arith)
            requires
                step > 0,
        ;
    }
}

/// Before the first element no lane has a sum.
proof fn lemma_lanes_empty(f: spec_fn(int) -> int, from: int, step: int, upto: int)
    ensures
        lanes_sum(f, from, step, from, upto) == 0,
    decreases upto,
{
    if upto > 0 {
        lemma_lanes_empty(f, from, step, upto - 1);
    }
}

/// All lanes together sum over the whole range.
proof fn lemma_lanes_cover(f: spec_fn(int) -> int, from: int, step: int, end: int)
    requires
        0 < step,
        from <= end,
    ensures
        lanes_sum(f, from, step, end, step) == range_sum(f, from, end),
    decreases end - from,
{
    if end == from {
        lemma_lanes_empty(f, from, step, step);
    } else {
        lemma_lanes_cover(f, from, step, end - 1);
        lemma_lanes_step(f, from, step, end - 1, step);
        assert((end - 1 - from) % step < step) by (nonlinear_arith)
            requires
                step > 0,
        ;
    }
}

/// A sum over adjacent ranges.
proof fn lemma_ranges_join(f: spec_fn(int) -> int, from: int, mid: int, to: int)
    requires
        from <= mid <= to,
    ensures
        range_sum(f, from, mid) + range_sum(f, mid, to) == range_sum(f, from, to),
    decreases to - mid,
{
    if mid < to {
        lemma_ranges_join(f, from, mid, to - 1);
    }
}

/// The products of two vectors, element by element.
pub open spec fn products(a: Seq<u32>, b: Seq<u32>) -> spec_fn(int) -> int {
    |i: int| units(a[i]) * units(b[i])
}

/// The query's elements with the signs that a code gives them.
pub open spec fn signed_terms(q: Seq<u32>, code: Seq<u8>) -> spec_fn(int) -> int {
    |i: int| units(kernels::signed_element(q, code, i)) * one()
}

/// The magnitudes of terms.
pub open spec fn sizes(f: spec_fn(int) -> int) -> spec_fn(int) -> int {
    |i: int| size(f(i)) as int
}

/// One for every term.
pub open spec fn ones() -> spec_fn(int) -> int {
    |i: int| 1int
}

/// As many ones as there are elements.
proof fn lemma_ones(from: int, to: int)
    requires
        from <= to,
    ensures
        range_sum(ones(), from, to) == to - from,
    decreases to - from,
{
    if from < to {
        lemma_ones(from, to - 1);
    }
}

/// `r` approximates the sum of the terms `from..to`.
pub open spec fn near_range(r: u32, f: spec_fn(int) -> int, from: int, to: int) -> bool {
    near(r, range_sum(ones(), from, to), range_sum(f, from, to), range_sum(sizes(f), from, to))
}

/// `r` approximates the sum of a lane's terms.
spec fn near_lane(r: u32, f: spec_fn(int) -> int, start: int, step: int, count: nat) -> bool {
    near(
        r,
        lane_sum(ones(), start, step, count),
        lane_sum(f, start, step, count),
        lane_sum(sizes(f), start, step, count),
    )
}

/// Zero approximates the empty sum.
proof fn lemma_zero()
    ensures
        near(ieee::ZERO_32, 0, 0, 0),
{
}

/// A finite number approximates itself.
proof fn lemma_itself(x: u32)
    requires
        ieee::is_finite(x),
    ensures
        near(x, 1, units(x) * one(), size(units(x) * one()) as int),
{
    let t = size(units(x) * one()) as int;
    assert((2 * 1 - 1) * t == t) by (nonlinear_arith);
}

/// The scalar order approximates the dot product.
proof fn lemma_chain<T: Fn(u32, u32) -> u32, P: Fn(u32, u32) -> u32>(
    times: T,
    plus: P,
    a: Seq<u32>,
    b: Seq<u32>,
    n: nat,
    acc: u32,
)
    requires
        rounding::is_product(times),
        rounding::is_sum(plus),
        forall|i: int| 0 <= i < n ==> #[trigger] no_underflow(a[i], b[i]),
        kernels::dot_chain(times, plus, a, b, n, acc),
        ieee::is_finite(acc),
    ensures
        near_range(acc, products(a, b), 0, n as int),
    decreases n,
{
    if n > 0 {
        let (before, product) = choose|before: u32, product: u32|
            {
                &&& kernels::dot_chain(times, plus, a, b, (n - 1) as nat, before)
                &&& call_ensures(times, (a[n - 1], b[n - 1]), product)
                &&& #[trigger] call_ensures(plus, (before, product), acc)
            };
        lemma_term(times, plus, a, b, n - 1, before, product, acc);
        lemma_chain(times, plus, a, b, (n - 1) as nat, before);
        lemma_added_range(before, product, acc, products(a, b), 0, n - 1);
    }
}

/// A finite sum has finite operands, and the product among them is near.
proof fn lemma_term<T: Fn(u32, u32) -> u32, P: Fn(u32, u32) -> u32>(
    times: T,
    plus: P,
    a: Seq<u32>,
    b: Seq<u32>,
    i: int,
    before: u32,
    product: u32,
    acc: u32,
)
    requires
        rounding::is_product(times),
        rounding::is_sum(plus),
        no_underflow(a[i], b[i]),
        call_ensures(times, (a[i], b[i]), product),
        call_ensures(plus, (before, product), acc),
        ieee::is_finite(acc),
    ensures
        ieee::is_finite(before),
        rounding::sum_of(before, product, acc),
        near(product, 1, products(a, b)(i), sizes(products(a, b))(i)),
{
    assert(rounding::sum_of(before, product, acc));
    assert(rounding::product_of(a[i], b[i], product));
    lemma_product(a[i], b[i], product);
}

/// Adding the next term to an approximation of a range.
proof fn lemma_added_range(
    before: u32,
    term: u32,
    acc: u32,
    f: spec_fn(int) -> int,
    from: int,
    to: int,
)
    requires
        from <= to,
        near_range(before, f, from, to),
        near(term, 1, f(to), sizes(f)(to)),
        rounding::sum_of(before, term, acc),
        ieee::is_finite(acc),
    ensures
        near_range(acc, f, from, to + 1),
{
    lemma_added(
        before,
        term,
        acc,
        range_sum(ones(), from, to),
        range_sum(f, from, to),
        range_sum(sizes(f), from, to),
        1,
        f(to),
        sizes(f)(to),
    );
    assert(ones()(to) == 1);
}

/// A lane that ends finite began finite.
proof fn lemma_lane_finite<M: Fn(u32, u32, u32) -> u32>(
    fma: M,
    a: Seq<u32>,
    b: Seq<u32>,
    start: int,
    step: int,
    count: nat,
    init: u32,
    acc: u32,
)
    requires
        rounding::is_fused(fma),
        lanes::product_lane(fma, a, b, start, step, count, init, acc),
        ieee::is_finite(acc),
    ensures
        ieee::is_finite(init),
    decreases count,
{
    if count > 0 {
        let i = start + (count - 1) * step;
        let before = choose|before: u32|
            lanes::product_lane(fma, a, b, start, step, (count - 1) as nat, init, before)
                && #[trigger] call_ensures(fma, (a[i], b[i], before), acc);
        assert(rounding::fused_of(a[i], b[i], before, acc));
        lemma_lane_finite(fma, a, b, start, step, (count - 1) as nat, init, before);
    }
}

/// A lane adds its terms to the approximation that it starts with.
proof fn lemma_lane<M: Fn(u32, u32, u32) -> u32>(
    fma: M,
    a: Seq<u32>,
    b: Seq<u32>,
    start: int,
    step: int,
    count: nat,
    init: u32,
    acc: u32,
    n: int,
    s: int,
    t: int,
)
    requires
        rounding::is_fused(fma),
        forall|i: int| 0 <= i < a.len() ==> #[trigger] no_underflow(a[i], b[i]),
        0 <= start,
        0 < step,
        count > 0 ==> start + (count - 1) * step < a.len(),
        lanes::product_lane(fma, a, b, start, step, count, init, acc),
        ieee::is_finite(acc),
        near(init, n, s, t),
    ensures
        near(
            acc,
            n + lane_sum(ones(), start, step, count),
            s + lane_sum(products(a, b), start, step, count),
            t + lane_sum(sizes(products(a, b)), start, step, count),
        ),
    decreases count,
{
    if count > 0 {
        let i = start + (count - 1) * step;
        let before = choose|before: u32|
            lanes::product_lane(fma, a, b, start, step, (count - 1) as nat, init, before)
                && #[trigger] call_ensures(fma, (a[i], b[i], before), acc);
        assert(rounding::fused_of(a[i], b[i], before, acc));
        assert(0 <= (count - 1) * step && (count - 2) * step < (count - 1) * step)
            by (nonlinear_arith)
            requires
                count >= 1,
                step > 0,
        ;
        assert(no_underflow(a[i], b[i]));
        lemma_lane(fma, a, b, start, step, (count - 1) as nat, init, before, n, s, t);
        let less = (count - 1) as nat;
        lemma_fused(
            a[i],
            b[i],
            before,
            acc,
            n + lane_sum(ones(), start, step, less),
            s + lane_sum(products(a, b), start, step, less),
            t + lane_sum(sizes(products(a, b)), start, step, less),
        );
        assert(ones()(i) == 1);
        assert(products(a, b)(i) == units(a[i]) * units(b[i]));
        assert(sizes(products(a, b))(i) == size(units(a[i]) * units(b[i])));
    }
}

/// The elements of a lane lie below its end.
proof fn lemma_lane_end(lane: int, step: int, end: int)
    requires
        0 < step,
    ensures
        lanes::steps_below(lane, step, end) > 0 ==> lane + (lanes::steps_below(lane, step, end) - 1)
            * step < end,
{
    if lane < end {
        let x = end - lane - 1;
        let q = x / step;
        assert(q >= 0 && q * step <= x) by (nonlinear_arith)
            requires
                x >= 0,
                step > 0,
                q == x / step,
        ;
    }
}

/// Number of terms, their sum and the sum of their magnitudes.
spec fn join(a: (int, int, int), b: (int, int, int)) -> (int, int, int) {
    (a.0 + b.0, a.1 + b.1, a.2 + b.2)
}

spec fn near_all(r: u32, v: (int, int, int)) -> bool {
    near(r, v.0, v.1, v.2)
}

/// A sum of two.
proof fn lemma_two<P: Fn(u32, u32) -> u32>(
    plus: P,
    x: u32,
    y: u32,
    r: u32,
    v: (int, int, int),
    w: (int, int, int),
)
    requires
        rounding::is_sum(plus),
        call_ensures(plus, (x, y), r),
        ieee::is_finite(r),
        near_all(x, v),
        near_all(y, w),
    ensures
        near_all(r, join(v, w)),
{
    assert(rounding::sum_of(x, y, r));
    lemma_added(x, y, r, v.0, v.1, v.2, w.0, w.1, w.2);
}

/// A finite sum has finite operands.
proof fn lemma_two_finite<P: Fn(u32, u32) -> u32>(plus: P, x: u32, y: u32, r: u32)
    requires
        rounding::is_sum(plus),
        call_ensures(plus, (x, y), r),
        ieee::is_finite(r),
    ensures
        ieee::is_finite(x),
        ieee::is_finite(y),
{
    assert(rounding::sum_of(x, y, r));
}

proof fn lemma_pairs_finite<P: Fn(u32, u32) -> u32>(
    plus: P,
    a: u32,
    b: u32,
    c: u32,
    d: u32,
    total: u32,
)
    requires
        rounding::is_sum(plus),
        lanes::pairs_added(plus, a, b, c, d, total),
        ieee::is_finite(total),
    ensures
        ieee::is_finite(a),
        ieee::is_finite(b),
        ieee::is_finite(c),
        ieee::is_finite(d),
{
    let (x, y) = choose|x: u32, y: u32|
        {
            &&& #[trigger] call_ensures(plus, (a, b), x)
            &&& #[trigger] call_ensures(plus, (c, d), y)
            &&& call_ensures(plus, (x, y), total)
        };
    lemma_two_finite(plus, x, y, total);
    lemma_two_finite(plus, a, b, x);
    lemma_two_finite(plus, c, d, y);
}

/// A sum of two and two.
proof fn lemma_pairs<P: Fn(u32, u32) -> u32>(
    plus: P,
    a: u32,
    b: u32,
    c: u32,
    d: u32,
    total: u32,
    va: (int, int, int),
    vb: (int, int, int),
    vc: (int, int, int),
    vd: (int, int, int),
)
    requires
        rounding::is_sum(plus),
        lanes::pairs_added(plus, a, b, c, d, total),
        ieee::is_finite(total),
        near_all(a, va),
        near_all(b, vb),
        near_all(c, vc),
        near_all(d, vd),
    ensures
        near_all(total, join(join(va, vb), join(vc, vd))),
{
    let (x, y) = choose|x: u32, y: u32|
        {
            &&& #[trigger] call_ensures(plus, (a, b), x)
            &&& #[trigger] call_ensures(plus, (c, d), y)
            &&& call_ensures(plus, (x, y), total)
        };
    lemma_two_finite(plus, x, y, total);
    lemma_two(plus, a, b, x, va, vb);
    lemma_two(plus, c, d, y, vc, vd);
    lemma_two(plus, x, y, total, join(va, vb), join(vc, vd));
}

/// A register that adds up to a finite number has finite lanes.
proof fn lemma_folded_finite<P: Fn(u32, u32) -> u32>(plus: P, sums: Seq<u32>, total: u32)
    requires
        rounding::is_sum(plus),
        sums.len() == 4 || sums.len() == 8,
        lanes::folded(plus, sums, total),
        ieee::is_finite(total),
    ensures
        forall|l: int| 0 <= l < sums.len() ==> ieee::is_finite(#[trigger] sums[l]),
{
    if sums.len() == 8 {
        let t = choose|t: Seq<u32>| #[trigger]
            lanes::halves_added(plus, sums, 4, t) && lanes::pairs_added(
                plus,
                t[0],
                t[2],
                t[1],
                t[3],
                total,
            );
        lemma_pairs_finite(plus, t[0], t[2], t[1], t[3], total);
        assert forall|l: int| 0 <= l < 8 implies ieee::is_finite(#[trigger] sums[l]) by {
            let m = if l < 4 {
                l
            } else {
                l - 4
            };
            assert(call_ensures(plus, (sums[m], sums[m + 4]), t[m]));
            lemma_two_finite(plus, sums[m], sums[m + 4], t[m]);
        }
    } else {
        lemma_pairs_finite(plus, sums[0], sums[1], sums[2], sums[3], total);
    }
}

/// What a register's lanes stand for, added up.
spec fn added_up(v: Seq<(int, int, int)>) -> (int, int, int) {
    if v.len() == 8 {
        join(
            join(join(v[0], v[4]), join(v[2], v[6])),
            join(join(v[1], v[5]), join(v[3], v[7])),
        )
    } else {
        join(join(v[0], v[1]), join(v[2], v[3]))
    }
}

/// A register's lanes add up.
proof fn lemma_folded<P: Fn(u32, u32) -> u32>(
    plus: P,
    sums: Seq<u32>,
    total: u32,
    v: Seq<(int, int, int)>,
)
    requires
        rounding::is_sum(plus),
        sums.len() == 4 || sums.len() == 8,
        v.len() == sums.len(),
        lanes::folded(plus, sums, total),
        ieee::is_finite(total),
        forall|l: int| 0 <= l < sums.len() ==> near_all(#[trigger] sums[l], v[l]),
    ensures
        near_all(total, added_up(v)),
{
    if sums.len() == 8 {
        let t = choose|t: Seq<u32>| #[trigger]
            lanes::halves_added(plus, sums, 4, t) && lanes::pairs_added(
                plus,
                t[0],
                t[2],
                t[1],
                t[3],
                total,
            );
        lemma_pairs_finite(plus, t[0], t[2], t[1], t[3], total);
        assert(near_all(sums[0], v[0]) && near_all(sums[4], v[4]));
        assert(near_all(sums[1], v[1]) && near_all(sums[5], v[5]));
        assert(near_all(sums[2], v[2]) && near_all(sums[6], v[6]));
        assert(near_all(sums[3], v[3]) && near_all(sums[7], v[7]));
        lemma_two(plus, sums[0], sums[4], t[0], v[0], v[4]);
        lemma_two(plus, sums[1], sums[5], t[1], v[1], v[5]);
        lemma_two(plus, sums[2], sums[6], t[2], v[2], v[6]);
        lemma_two(plus, sums[3], sums[7], t[3], v[3], v[7]);
        lemma_pairs(
            plus,
            t[0],
            t[2],
            t[1],
            t[3],
            total,
            join(v[0], v[4]),
            join(v[2], v[6]),
            join(v[1], v[5]),
            join(v[3], v[7]),
        );
    } else {
        assert(near_all(sums[0], v[0]) && near_all(sums[1], v[1]));
        assert(near_all(sums[2], v[2]) && near_all(sums[3], v[3]));
        lemma_pairs(plus, sums[0], sums[1], sums[2], sums[3], total, v[0], v[1], v[2], v[3]);
    }
}

/// What lane `p` of the four registers sums in the end: the first register
/// goes on alone behind the whole groups.
spec fn register_lane(
    f: spec_fn(int) -> int,
    width: int,
    groups: int,
    whole: int,
    p: int,
) -> int {
    lane_sum(f, p, 4 * width, lanes::steps_below(p, 4 * width, groups)) + if p < width {
        lane_sum(f, groups + p, width, lanes::steps_below(groups + p, width, whole))
    } else {
        0
    }
}

/// The first `upto` lanes of the four registers, added up.
spec fn register_lanes(
    f: spec_fn(int) -> int,
    width: int,
    groups: int,
    whole: int,
    upto: int,
) -> int
    decreases upto,
{
    if upto <= 0 {
        0
    } else {
        register_lanes(f, width, groups, whole, upto - 1) + register_lane(
            f,
            width,
            groups,
            whole,
            upto - 1,
        )
    }
}

proof fn lemma_register_lanes(
    f: spec_fn(int) -> int,
    width: int,
    groups: int,
    whole: int,
    upto: int,
)
    requires
        0 < width,
        0 <= upto <= 4 * width,
    ensures
        register_lanes(f, width, groups, whole, upto) == lanes_sum(f, 0, 4 * width, groups, upto)
            + lanes_sum(
            f,
            groups,
            width,
            whole,
            if upto < width {
                upto
            } else {
                width
            },
        ),
    decreases upto,
{
    if upto > 0 {
        lemma_register_lanes(f, width, groups, whole, upto - 1);
    }
}

/// All lanes of the four registers together sum over the whole registers.
proof fn lemma_registers_cover(f: spec_fn(int) -> int, width: int, groups: int, whole: int)
    requires
        0 < width,
        0 <= groups <= whole,
    ensures
        register_lanes(f, width, groups, whole, 4 * width) == range_sum(f, 0, whole),
{
    lemma_register_lanes(f, width, groups, whole, 4 * width);
    lemma_lanes_cover(f, 0, 4 * width, groups);
    lemma_lanes_cover(f, groups, width, whole);
    lemma_ranges_join(f, 0, groups, whole);
}

/// The four lanes that are added up into lane `l`.
spec fn four_lanes(f: spec_fn(int) -> int, width: int, groups: int, whole: int, l: int) -> int {
    (register_lane(f, width, groups, whole, l) + register_lane(f, width, groups, whole, width + l))
        + (register_lane(f, width, groups, whole, 2 * width + l) + register_lane(
        f,
        width,
        groups,
        whole,
        3 * width + l,
    ))
}

proof fn lemma_four_lanes(f: spec_fn(int) -> int, width: int, groups: int, whole: int)
    requires
        width == 4 || width == 8,
    ensures
        width == 4 ==> register_lanes(f, width, groups, whole, 16) == four_lanes(
            f,
            width,
            groups,
            whole,
            0,
        ) + four_lanes(f, width, groups, whole, 1) + four_lanes(f, width, groups, whole, 2)
            + four_lanes(f, width, groups, whole, 3),
        width == 8 ==> register_lanes(f, width, groups, whole, 32) == four_lanes(
            f,
            width,
            groups,
            whole,
            0,
        ) + four_lanes(f, width, groups, whole, 1) + four_lanes(f, width, groups, whole, 2)
            + four_lanes(f, width, groups, whole, 3) + four_lanes(f, width, groups, whole, 4)
            + four_lanes(f, width, groups, whole, 5) + four_lanes(f, width, groups, whole, 6)
            + four_lanes(f, width, groups, whole, 7),
{
    reveal_with_fuel(register_lanes, 33);
}

/// What lane `p` of the four registers approximates.
spec fn lane_terms(
    f: spec_fn(int) -> int,
    width: int,
    groups: int,
    whole: int,
    p: int,
) -> (int, int, int) {
    (
        register_lane(ones(), width, groups, whole, p),
        register_lane(f, width, groups, whole, p),
        register_lane(sizes(f), width, groups, whole, p),
    )
}

/// What lane `l` of the registers' sum approximates.
spec fn sum_terms(
    f: spec_fn(int) -> int,
    width: int,
    groups: int,
    whole: int,
    l: int,
) -> (int, int, int) {
    (
        four_lanes(ones(), width, groups, whole, l),
        four_lanes(f, width, groups, whole, l),
        four_lanes(sizes(f), width, groups, whole, l),
    )
}

/// A lane of the four registers approximates its terms.
proof fn lemma_register<M: Fn(u32, u32, u32) -> u32>(
    fma: M,
    a: Seq<u32>,
    b: Seq<u32>,
    width: int,
    groups: int,
    whole: int,
    first: Seq<u32>,
    after: Seq<u32>,
    p: int,
)
    requires
        rounding::is_fused(fma),
        forall|i: int| 0 <= i < a.len() ==> #[trigger] no_underflow(a[i], b[i]),
        0 < width,
        0 <= groups <= whole <= a.len(),
        lanes::product_lanes(fma, a, b, 4 * width, groups, first),
        lanes::first_register(fma, a, b, width, groups, whole, first, after),
        0 <= p < 4 * width,
        ieee::is_finite(after[p]),
    ensures
        near_all(after[p], lane_terms(products(a, b), width, groups, whole, p)),
{
    let f = products(a, b);
    let count = lanes::steps_below(p, 4 * width, groups);
    let more = lanes::steps_below(groups + p, width, whole);
    lemma_lane_end(p, 4 * width, groups);
    lemma_lane_end(groups + p, width, whole);
    assert(lanes::product_lane(fma, a, b, p, 4 * width, count, ieee::ZERO_32, first[p]));
    lemma_zero();
    if p < width {
        assert(lanes::product_lane(fma, a, b, groups + p, width, more, first[p], after[p]));
        lemma_lane_finite(fma, a, b, groups + p, width, more, first[p], after[p]);
        lemma_lane(fma, a, b, p, 4 * width, count, ieee::ZERO_32, first[p], 0, 0, 0);
        lemma_lane(
            fma,
            a,
            b,
            groups + p,
            width,
            more,
            first[p],
            after[p],
            lane_sum(ones(), p, 4 * width, count),
            lane_sum(f, p, 4 * width, count),
            lane_sum(sizes(f), p, 4 * width, count),
        );
    } else {
        assert(after[p] == first[p]);
        lemma_lane(fma, a, b, p, 4 * width, count, ieee::ZERO_32, first[p], 0, 0, 0);
    }
}

/// A lane of the registers' sum approximates its terms.
proof fn lemma_sum_lane<M: Fn(u32, u32, u32) -> u32, P: Fn(u32, u32) -> u32>(
    fma: M,
    plus: P,
    a: Seq<u32>,
    b: Seq<u32>,
    width: int,
    groups: int,
    whole: int,
    first: Seq<u32>,
    after: Seq<u32>,
    sums: Seq<u32>,
    l: int,
)
    requires
        rounding::is_fused(fma),
        rounding::is_sum(plus),
        forall|i: int| 0 <= i < a.len() ==> #[trigger] no_underflow(a[i], b[i]),
        0 < width,
        0 <= groups <= whole <= a.len(),
        lanes::product_lanes(fma, a, b, 4 * width, groups, first),
        lanes::first_register(fma, a, b, width, groups, whole, first, after),
        lanes::registers_added(plus, after, width, sums),
        0 <= l < width,
        ieee::is_finite(sums[l]),
    ensures
        near_all(sums[l], sum_terms(products(a, b), width, groups, whole, l)),
{
    let f = products(a, b);
    let (x, y, z) = (after[width + l], after[2 * width + l], after[3 * width + l]);
    assert(lanes::pairs_added(plus, after[l], x, y, z, sums[l]));
    lemma_pairs_finite(plus, after[l], x, y, z, sums[l]);
    lemma_register(fma, a, b, width, groups, whole, first, after, l);
    lemma_register(fma, a, b, width, groups, whole, first, after, width + l);
    lemma_register(fma, a, b, width, groups, whole, first, after, 2 * width + l);
    lemma_register(fma, a, b, width, groups, whole, first, after, 3 * width + l);
    lemma_pairs(
        plus,
        after[l],
        x,
        y,
        z,
        sums[l],
        lane_terms(f, width, groups, whole, l),
        lane_terms(f, width, groups, whole, width + l),
        lane_terms(f, width, groups, whole, 2 * width + l),
        lane_terms(f, width, groups, whole, 3 * width + l),
    );
}

/// What all lanes of the registers' sum approximate.
spec fn all_terms(
    f: spec_fn(int) -> int,
    width: int,
    groups: int,
    whole: int,
) -> Seq<(int, int, int)> {
    Seq::new(width as nat, |l: int| sum_terms(f, width, groups, whole, l))
}

/// They add up to the terms of the whole registers.
proof fn lemma_all_terms(f: spec_fn(int) -> int, width: int, groups: int, whole: int)
    requires
        width == 4 || width == 8,
        0 <= groups <= whole,
    ensures
        added_up(all_terms(f, width, groups, whole)) == (
            range_sum(ones(), 0, whole),
            range_sum(f, 0, whole),
            range_sum(sizes(f), 0, whole),
        ),
{
    lemma_four_lanes(ones(), width, groups, whole);
    lemma_four_lanes(f, width, groups, whole);
    lemma_four_lanes(sizes(f), width, groups, whole);
    lemma_registers_cover(ones(), width, groups, whole);
    lemma_registers_cover(f, width, groups, whole);
    lemma_registers_cover(sizes(f), width, groups, whole);
}

/// The registers' sum approximates the terms of the whole registers.
proof fn lemma_total<M: Fn(u32, u32, u32) -> u32, P: Fn(u32, u32) -> u32>(
    fma: M,
    plus: P,
    a: Seq<u32>,
    b: Seq<u32>,
    width: int,
    groups: int,
    whole: int,
    first: Seq<u32>,
    after: Seq<u32>,
    sums: Seq<u32>,
    total: u32,
)
    requires
        rounding::is_fused(fma),
        rounding::is_sum(plus),
        forall|i: int| 0 <= i < a.len() ==> #[trigger] no_underflow(a[i], b[i]),
        width == 4 || width == 8,
        0 <= groups <= whole <= a.len(),
        lanes::product_lanes(fma, a, b, 4 * width, groups, first),
        lanes::first_register(fma, a, b, width, groups, whole, first, after),
        lanes::registers_added(plus, after, width, sums),
        lanes::folded(plus, sums, total),
        ieee::is_finite(total),
    ensures
        near_range(total, products(a, b), 0, whole),
{
    let v = all_terms(products(a, b), width, groups, whole);
    lemma_folded_finite(plus, sums, total);
    assert forall|l: int| 0 <= l < sums.len() implies near_all(#[trigger] sums[l], v[l]) by {
        lemma_sum_lane(fma, plus, a, b, width, groups, whole, first, after, sums, l);
    }
    lemma_folded(plus, sums, total, v);
    lemma_all_terms(products(a, b), width, groups, whole);
}

/// The elements that fill no register are added one by one.
proof fn lemma_tail<T: Fn(u32, u32) -> u32, P: Fn(u32, u32) -> u32>(
    times: T,
    plus: P,
    a: Seq<u32>,
    b: Seq<u32>,
    from: int,
    to: int,
    init: u32,
    acc: u32,
)
    requires
        rounding::is_product(times),
        rounding::is_sum(plus),
        forall|i: int| 0 <= i < a.len() ==> #[trigger] no_underflow(a[i], b[i]),
        0 <= from <= to <= a.len(),
        lanes::product_tail(times, plus, a, b, from, to, init, acc),
        ieee::is_finite(acc),
    ensures
        ieee::is_finite(init),
        near_range(init, products(a, b), 0, from) ==> near_range(acc, products(a, b), 0, to),
    decreases to - from,
{
    if from < to {
        let (before, product) = choose|before: u32, product: u32|
            {
                &&& lanes::product_tail(times, plus, a, b, from, to - 1, init, before)
                &&& call_ensures(times, (a[to - 1], b[to - 1]), product)
                &&& #[trigger] call_ensures(plus, (before, product), acc)
            };
        lemma_term(times, plus, a, b, to - 1, before, product, acc);
        lemma_tail(times, plus, a, b, from, to - 1, init, before);
        if near_range(init, products(a, b), 0, from) {
            lemma_added_range(before, product, acc, products(a, b), 0, to - 1);
        }
    }
}

proof fn lemma_vector<M: Fn(u32, u32, u32) -> u32, T: Fn(u32, u32) -> u32, P: Fn(u32, u32) -> u32>(
    fma: M,
    times: T,
    plus: P,
    width: int,
    a: Seq<u32>,
    b: Seq<u32>,
    r: u32,
)
    requires
        rounding::is_fused(fma),
        rounding::is_product(times),
        rounding::is_sum(plus),
        forall|i: int| 0 <= i < a.len() ==> #[trigger] no_underflow(a[i], b[i]),
        width == 4 || width == 8,
        lanes::vector_dot(fma, times, plus, width, a, b, r),
        ieee::is_finite(r),
    ensures
        near_range(r, products(a, b), 0, a.len() as int),
{
    let n = a.len() as int;
    let groups = lanes::whole_part(n, 4 * width);
    let whole = lanes::whole_part(n, width);
    let (first, after, sums, total) = choose|
        first: Seq<u32>,
        after: Seq<u32>,
        sums: Seq<u32>,
        total: u32,
    |
        {
            &&& #[trigger] lanes::product_lanes(fma, a, b, 4 * width, groups, first)
            &&& #[trigger] lanes::first_register(fma, a, b, width, groups, whole, first, after)
            &&& #[trigger] lanes::registers_added(plus, after, width, sums)
            &&& lanes::folded(plus, sums, total)
            &&& #[trigger] lanes::product_tail(times, plus, a, b, whole, n, total, r)
        };
    lanes::lemma_whole_parts(n, width);
    lemma_tail(times, plus, a, b, whole, n, total, r);
    lemma_total(fma, plus, a, b, width, groups, whole, first, after, sums, total);
}

/// What an approximation of `n` terms is off at most.
proof fn lemma_bound(r: u32, f: spec_fn(int) -> int, n: nat)
    requires
        near_range(r, f, 0, n as int),
    ensures
        0x80_0000 * size(units(r) * one() - range_sum(f, 0, n as int)) <= n * range_sum(
            sizes(f),
            0,
            n as int,
        ),
{
    lemma_ones(0, n as int);
    let t = range_sum(sizes(f), 0, n as int);
    let e = size(units(r) * one() - range_sum(f, 0, n as int));
    if n == 0 {
        assert(0 * one() == 0 && 0 * t == 0);
    } else {
        assert(0x80_0000 * e <= n * t) by (nonlinear_arith)
            requires
                0x100_0000 * e <= (2 * n - 1) * t,
                t >= 0,
        ;
    }
}

/// The error bound of the dot product: in every backend a finite result is off
/// the exact sum by `n * 2^-23` of the sum of the products' magnitudes at most,
/// for IEEE arithmetic and products that do not underflow.
pub proof fn law_dot_error_is_bounded<
    M: Fn(u32, u32, u32) -> u32,
    T: Fn(u32, u32) -> u32,
    P: Fn(u32, u32) -> u32,
>(backend: Backend, fma: M, times: T, plus: P, a: Seq<u32>, b: Seq<u32>, r: u32)
    requires
        rounding::is_fused(fma),
        rounding::is_product(times),
        rounding::is_sum(plus),
        forall|i: int| 0 <= i < a.len() ==> #[trigger] no_underflow(a[i], b[i]),
        backend::backend_dot(backend, fma, times, plus, a, b, r),
        ieee::is_finite(r),
    ensures
        0x80_0000 * size(units(r) * one() - range_sum(products(a, b), 0, a.len() as int)) <= a.len()
            * range_sum(sizes(products(a, b)), 0, a.len() as int),
{
    match backend {
        Backend::Scalar => {
            lemma_chain(times, plus, a, b, a.len(), r);
        },
        Backend::Neon | Backend::NeonDotprod => {
            lemma_vector(fma, times, plus, 4, a, b, r);
        },
        Backend::Avx2 => {
            lemma_vector(fma, times, plus, 8, a, b, r);
        },
    }
    lemma_bound(r, products(a, b), a.len());
}

/// Two backends differ by at most twice the bound.
pub proof fn law_backends_agree_within_rounding<
    M: Fn(u32, u32, u32) -> u32,
    T: Fn(u32, u32) -> u32,
    P: Fn(u32, u32) -> u32,
>(
    one_backend: Backend,
    other: Backend,
    fma: M,
    times: T,
    plus: P,
    a: Seq<u32>,
    b: Seq<u32>,
    x: u32,
    y: u32,
)
    requires
        rounding::is_fused(fma),
        rounding::is_product(times),
        rounding::is_sum(plus),
        forall|i: int| 0 <= i < a.len() ==> #[trigger] no_underflow(a[i], b[i]),
        backend::backend_dot(one_backend, fma, times, plus, a, b, x),
        backend::backend_dot(other, fma, times, plus, a, b, y),
        ieee::is_finite(x),
        ieee::is_finite(y),
    ensures
        0x80_0000 * size((units(x) - units(y)) * one()) <= 2 * (a.len() * range_sum(
            sizes(products(a, b)),
            0,
            a.len() as int,
        )),
{
    law_dot_error_is_bounded(one_backend, fma, times, plus, a, b, x);
    law_dot_error_is_bounded(other, fma, times, plus, a, b, y);
    assert((units(x) - units(y)) * one() == units(x) * one() - units(y) * one())
        by (nonlinear_arith);
}

/// Adding a signed element to a range.
proof fn lemma_signed_term<P: Fn(u32, u32) -> u32>(
    plus: P,
    q: Seq<u32>,
    code: Seq<u8>,
    i: int,
    before: u32,
    acc: u32,
)
    requires
        rounding::is_sum(plus),
        call_ensures(plus, (before, kernels::signed_element(q, code, i)), acc),
        ieee::is_finite(acc),
    ensures
        ieee::is_finite(before),
        rounding::sum_of(before, kernels::signed_element(q, code, i), acc),
        near(
            kernels::signed_element(q, code, i),
            1,
            signed_terms(q, code)(i),
            sizes(signed_terms(q, code))(i),
        ),
{
    let x = kernels::signed_element(q, code, i);
    lemma_two_finite(plus, before, x, acc);
    assert(rounding::sum_of(before, x, acc));
    lemma_itself(x);
}

proof fn lemma_signed_chain<P: Fn(u32, u32) -> u32>(
    plus: P,
    q: Seq<u32>,
    code: Seq<u8>,
    n: nat,
    acc: u32,
)
    requires
        rounding::is_sum(plus),
        kernels::signed_chain(plus, q, code, n, acc),
        ieee::is_finite(acc),
    ensures
        near_range(acc, signed_terms(q, code), 0, n as int),
    decreases n,
{
    if n > 0 {
        let x = kernels::signed_element(q, code, n - 1);
        let before = choose|before: u32|
            {
                &&& kernels::signed_chain(plus, q, code, (n - 1) as nat, before)
                &&& #[trigger] call_ensures(
                    plus,
                    (before, kernels::signed_element(q, code, n - 1)),
                    acc,
                )
            };
        lemma_signed_term(plus, q, code, n - 1, before, acc);
        lemma_signed_chain(plus, q, code, (n - 1) as nat, before);
        lemma_added_range(before, x, acc, signed_terms(q, code), 0, n - 1);
    }
}

proof fn lemma_signed_lane<P: Fn(u32, u32) -> u32>(
    plus: P,
    q: Seq<u32>,
    code: Seq<u8>,
    start: int,
    step: int,
    count: nat,
    acc: u32,
)
    requires
        rounding::is_sum(plus),
        lanes::signed_lane(plus, q, code, start, step, count, acc),
        ieee::is_finite(acc),
    ensures
        near_lane(acc, signed_terms(q, code), start, step, count),
    decreases count,
{
    if count > 0 {
        let i = start + (count - 1) * step;
        let less = (count - 1) as nat;
        let f = signed_terms(q, code);
        let before = choose|before: u32|
            lanes::signed_lane(plus, q, code, start, step, less, before)
                && #[trigger] call_ensures(
                plus,
                (before, kernels::signed_element(q, code, i)),
                acc,
            );
        lemma_signed_term(plus, q, code, i, before, acc);
        lemma_signed_lane(plus, q, code, start, step, less, before);
        lemma_added(
            before,
            kernels::signed_element(q, code, i),
            acc,
            lane_sum(ones(), start, step, less),
            lane_sum(f, start, step, less),
            lane_sum(sizes(f), start, step, less),
            1,
            f(i),
            sizes(f)(i),
        );
        assert(ones()(i) == 1);
    }
}

/// What lane `p` of two registers sums.
spec fn plain_lane(f: spec_fn(int) -> int, width: int, whole: int, p: int) -> int {
    lane_sum(f, p, 2 * width, lanes::steps_below(p, 2 * width, whole))
}

spec fn plain_terms(f: spec_fn(int) -> int, width: int, whole: int, p: int) -> (int, int, int) {
    (
        plain_lane(ones(), width, whole, p),
        plain_lane(f, width, whole, p),
        plain_lane(sizes(f), width, whole, p),
    )
}

/// What the sum of two registers approximates, lane by lane.
spec fn half_terms(f: spec_fn(int) -> int, width: int, whole: int) -> Seq<(int, int, int)> {
    Seq::new(
        width as nat,
        |l: int|
            join(plain_terms(f, width, whole, l), plain_terms(f, width, whole, l + width)),
    )
}

proof fn lemma_two_lanes(f: spec_fn(int) -> int, width: int, whole: int)
    requires
        width == 4 || width == 8,
        0 <= whole,
    ensures
        width == 4 ==> plain_lane(f, width, whole, 0) + plain_lane(f, width, whole, 1) + plain_lane(
            f,
            width,
            whole,
            2,
        ) + plain_lane(f, width, whole, 3) + plain_lane(f, width, whole, 4) + plain_lane(
            f,
            width,
            whole,
            5,
        ) + plain_lane(f, width, whole, 6) + plain_lane(f, width, whole, 7) == range_sum(
            f,
            0,
            whole,
        ),
        width == 8 ==> plain_lane(f, width, whole, 0) + plain_lane(f, width, whole, 1) + plain_lane(
            f,
            width,
            whole,
            2,
        ) + plain_lane(f, width, whole, 3) + plain_lane(f, width, whole, 4) + plain_lane(
            f,
            width,
            whole,
            5,
        ) + plain_lane(f, width, whole, 6) + plain_lane(f, width, whole, 7) + plain_lane(
            f,
            width,
            whole,
            8,
        ) + plain_lane(f, width, whole, 9) + plain_lane(f, width, whole, 10) + plain_lane(
            f,
            width,
            whole,
            11,
        ) + plain_lane(f, width, whole, 12) + plain_lane(f, width, whole, 13) + plain_lane(
            f,
            width,
            whole,
            14,
        ) + plain_lane(f, width, whole, 15) == range_sum(f, 0, whole),
{
    lemma_lanes_cover(f, 0, 2 * width, whole);
    reveal_with_fuel(lanes_sum, 17);
}

proof fn lemma_half_terms(f: spec_fn(int) -> int, width: int, whole: int)
    requires
        width == 4 || width == 8,
        0 <= whole,
    ensures
        added_up(half_terms(f, width, whole)) == (
            range_sum(ones(), 0, whole),
            range_sum(f, 0, whole),
            range_sum(sizes(f), 0, whole),
        ),
{
    lemma_two_lanes(ones(), width, whole);
    lemma_two_lanes(f, width, whole);
    lemma_two_lanes(sizes(f), width, whole);
}

proof fn lemma_signed_total<P: Fn(u32, u32) -> u32>(
    plus: P,
    q: Seq<u32>,
    code: Seq<u8>,
    width: int,
    whole: int,
    all: Seq<u32>,
    sums: Seq<u32>,
    total: u32,
)
    requires
        rounding::is_sum(plus),
        width == 4 || width == 8,
        0 <= whole,
        lanes::signed_lanes(plus, q, code, 2 * width, whole, all),
        lanes::halves_added(plus, all, width, sums),
        lanes::folded(plus, sums, total),
        ieee::is_finite(total),
    ensures
        near_range(total, signed_terms(q, code), 0, whole),
{
    let f = signed_terms(q, code);
    let v = half_terms(f, width, whole);
    lemma_folded_finite(plus, sums, total);
    assert forall|l: int| 0 <= l < sums.len() implies near_all(#[trigger] sums[l], v[l]) by {
        assert(call_ensures(plus, (all[l], all[l + width]), sums[l]));
        lemma_two_finite(plus, all[l], all[l + width], sums[l]);
        let (c, d) = (
            lanes::steps_below(l, 2 * width, whole),
            lanes::steps_below(l + width, 2 * width, whole),
        );
        assert(lanes::signed_lane(plus, q, code, l, 2 * width, c, all[l]));
        assert(lanes::signed_lane(plus, q, code, l + width, 2 * width, d, all[l + width]));
        lemma_signed_lane(plus, q, code, l, 2 * width, c, all[l]);
        lemma_signed_lane(plus, q, code, l + width, 2 * width, d, all[l + width]);
        lemma_two(
            plus,
            all[l],
            all[l + width],
            sums[l],
            plain_terms(f, width, whole, l),
            plain_terms(f, width, whole, l + width),
        );
    }
    lemma_folded(plus, sums, total, v);
    lemma_half_terms(f, width, whole);
}

proof fn lemma_signed_tail<P: Fn(u32, u32) -> u32>(
    plus: P,
    q: Seq<u32>,
    code: Seq<u8>,
    from: int,
    to: int,
    init: u32,
    acc: u32,
)
    requires
        rounding::is_sum(plus),
        0 <= from <= to,
        lanes::signed_tail(plus, q, code, from, to, init, acc),
        ieee::is_finite(acc),
    ensures
        ieee::is_finite(init),
        near_range(init, signed_terms(q, code), 0, from) ==> near_range(
            acc,
            signed_terms(q, code),
            0,
            to,
        ),
    decreases to - from,
{
    if from < to {
        let x = kernels::signed_element(q, code, to - 1);
        let before = choose|before: u32|
            lanes::signed_tail(plus, q, code, from, to - 1, init, before)
                && #[trigger] call_ensures(
                plus,
                (before, kernels::signed_element(q, code, to - 1)),
                acc,
            );
        lemma_signed_term(plus, q, code, to - 1, before, acc);
        lemma_signed_tail(plus, q, code, from, to - 1, init, before);
        if near_range(init, signed_terms(q, code), 0, from) {
            lemma_added_range(before, x, acc, signed_terms(q, code), 0, to - 1);
        }
    }
}

proof fn lemma_signed_vector<P: Fn(u32, u32) -> u32>(
    plus: P,
    width: int,
    q: Seq<u32>,
    code: Seq<u8>,
    r: u32,
)
    requires
        rounding::is_sum(plus),
        width == 4 || width == 8,
        lanes::vector_signed_dot(plus, width, q, code, r),
        ieee::is_finite(r),
    ensures
        near_range(r, signed_terms(q, code), 0, q.len() as int),
{
    let n = q.len() as int;
    let whole = n - n % 8;
    let (all, sums, total) = choose|all: Seq<u32>, sums: Seq<u32>, total: u32|
        {
            &&& #[trigger] lanes::signed_lanes(plus, q, code, 2 * width, whole, all)
            &&& #[trigger] lanes::halves_added(plus, all, width, sums)
            &&& lanes::folded(plus, sums, total)
            &&& #[trigger] lanes::signed_tail(plus, q, code, whole, n, total, r)
        };
    lemma_signed_tail(plus, q, code, whole, n, total, r);
    lemma_signed_total(plus, q, code, width, whole, all, sums, total);
}

/// The error bound of the asymmetric dot, as for the dot product; its terms
/// are exact, so none of them can underflow.
pub proof fn law_signed_dot_error_is_bounded<P: Fn(u32, u32) -> u32>(
    backend: Backend,
    plus: P,
    q: Seq<u32>,
    code: Seq<u8>,
    r: u32,
)
    requires
        rounding::is_sum(plus),
        backend::backend_signed_dot(backend, plus, q, code, r),
        ieee::is_finite(r),
    ensures
        0x80_0000 * size(units(r) * one() - range_sum(signed_terms(q, code), 0, q.len() as int))
            <= q.len() * range_sum(sizes(signed_terms(q, code)), 0, q.len() as int),
{
    match backend {
        Backend::Scalar => {
            lemma_signed_chain(plus, q, code, q.len(), r);
        },
        Backend::Neon | Backend::NeonDotprod => {
            lemma_signed_vector(plus, 4, q, code, r);
        },
        Backend::Avx2 => {
            lemma_signed_vector(plus, 8, q, code, r);
        },
    }
    lemma_bound(r, signed_terms(q, code), q.len());
}

} // verus!
