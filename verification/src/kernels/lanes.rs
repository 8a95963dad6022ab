//! The single-precision kernels in the summation order of vector registers.
//!
//! A register of `width` lanes (8 on AVX2, 4 on NEON) sums every `width`-th
//! element; several registers run side by side and are added up in a fixed
//! tree at the end, then the elements that fill no register follow one by one.
//! The result can differ from the scalar order by rounding, and only by that.

use vstd::prelude::*;
use vstd::arithmetic::div_mod::*;
use crate::ieee;
use crate::kernels;

verus! {

/// How many of the numbers `lane`, `lane + step`, `lane + 2 * step`, ... are
/// below `end`.
pub open spec fn steps_below(lane: int, step: int, end: int) -> nat {
    if end <= lane {
        0
    } else {
        ((end - lane - 1) / step + 1) as nat
    }
}

/// `acc` is what accumulating `count` products from `init` comes to, each
/// added without rounding in between: those of the elements `start`,
/// `start + step`, and so on.
pub open spec fn product_lane<M: Fn(u32, u32, u32) -> u32>(
    fma: M,
    a: Seq<u32>,
    b: Seq<u32>,
    start: int,
    step: int,
    count: nat,
    init: u32,
    acc: u32,
) -> bool
    decreases count,
{
    if count == 0 {
        acc == init
    } else {
        let i = start + (count - 1) * step;
        exists|before: u32|
            product_lane(fma, a, b, start, step, (count - 1) as nat, init, before)
                && #[trigger] call_ensures(fma, (a[i], b[i], before), acc)
    }
}

/// `acc` is what accumulating `count` signed query elements from zero comes
/// to: the elements `start`, `start + step`, and so on.
pub open spec fn signed_lane<P: Fn(u32, u32) -> u32>(
    plus: P,
    q: Seq<u32>,
    code: Seq<u8>,
    start: int,
    step: int,
    count: nat,
    acc: u32,
) -> bool
    decreases count,
{
    if count == 0 {
        acc == ieee::ZERO_32
    } else {
        let i = start + (count - 1) * step;
        exists|before: u32|
            signed_lane(plus, q, code, start, step, (count - 1) as nat, before)
                && #[trigger] call_ensures(
                plus,
                (before, kernels::signed_element(q, code, i)),
                acc,
            )
    }
}

/// `total` is the sum of two numbers and two numbers.
pub open spec fn pairs_added<P: Fn(u32, u32) -> u32>(
    plus: P,
    a: u32,
    b: u32,
    c: u32,
    d: u32,
    total: u32,
) -> bool {
    exists|x: u32, y: u32|
        {
            &&& #[trigger] call_ensures(plus, (a, b), x)
            &&& #[trigger] call_ensures(plus, (c, d), y)
            &&& call_ensures(plus, (x, y), total)
        }
}

/// Every element of `sums` adds up two elements of `lanes` that lie `apart`.
pub open spec fn halves_added<P: Fn(u32, u32) -> u32>(
    plus: P,
    lanes: Seq<u32>,
    apart: int,
    sums: Seq<u32>,
) -> bool {
    &&& sums.len() == apart
    &&& forall|l: int|
        0 <= l < apart ==> call_ensures(plus, (lanes[l], lanes[l + apart]), #[trigger] sums[l])
}

/// `total` is the sum of a register's lanes: four lanes pairwise from the
/// left; eight by adding the halves first, then the lanes two apart.
pub open spec fn folded<P: Fn(u32, u32) -> u32>(plus: P, lanes: Seq<u32>, total: u32) -> bool {
    if lanes.len() == 8 {
        exists|t: Seq<u32>| #[trigger]
            halves_added(plus, lanes, 4, t) && pairs_added(plus, t[0], t[2], t[1], t[3], total)
    } else {
        pairs_added(plus, lanes[0], lanes[1], lanes[2], lanes[3], total)
    }
}

/// `acc` is what adding the products of the elements `from..to` one by one to
/// `init` comes to.
pub open spec fn product_tail<T: Fn(u32, u32) -> u32, P: Fn(u32, u32) -> u32>(
    times: T,
    plus: P,
    a: Seq<u32>,
    b: Seq<u32>,
    from: int,
    to: int,
    init: u32,
    acc: u32,
) -> bool
    decreases to - from,
{
    if to <= from {
        acc == init
    } else {
        exists|before: u32, product: u32|
            {
                &&& product_tail(times, plus, a, b, from, to - 1, init, before)
                &&& call_ensures(times, (a[to - 1], b[to - 1]), product)
                &&& #[trigger] call_ensures(plus, (before, product), acc)
            }
    }
}

/// `acc` is what adding the signed query elements `from..to` one by one to
/// `init` comes to.
pub open spec fn signed_tail<P: Fn(u32, u32) -> u32>(
    plus: P,
    q: Seq<u32>,
    code: Seq<u8>,
    from: int,
    to: int,
    init: u32,
    acc: u32,
) -> bool
    decreases to - from,
{
    if to <= from {
        acc == init
    } else {
        exists|before: u32|
            signed_tail(plus, q, code, from, to - 1, init, before) && #[trigger] call_ensures(
                plus,
                (before, kernels::signed_element(q, code, to - 1)),
                acc,
            )
    }
}

/// The lanes of four registers side by side after all whole groups.
pub open spec fn product_lanes<M: Fn(u32, u32, u32) -> u32>(
    fma: M,
    a: Seq<u32>,
    b: Seq<u32>,
    step: int,
    end: int,
    lanes: Seq<u32>,
) -> bool {
    &&& lanes.len() == step
    &&& forall|p: int|
        0 <= p < step ==> product_lane(
            fma,
            a,
            b,
            p,
            step,
            steps_below(p, step, end),
            ieee::ZERO_32,
            #[trigger] lanes[p],
        )
}

/// The first register goes on alone over the whole registers that are left.
pub open spec fn first_register<M: Fn(u32, u32, u32) -> u32>(
    fma: M,
    a: Seq<u32>,
    b: Seq<u32>,
    width: int,
    start: int,
    end: int,
    before: Seq<u32>,
    after: Seq<u32>,
) -> bool {
    &&& after.len() == before.len()
    &&& forall|p: int|
        0 <= p < width ==> product_lane(
            fma,
            a,
            b,
            start + p,
            width,
            steps_below(start + p, width, end),
            before[p],
            #[trigger] after[p],
        )
    &&& forall|p: int| width <= p < before.len() ==> #[trigger] after[p] == before[p]
}

/// Four registers added up lane by lane, two and two.
pub open spec fn registers_added<P: Fn(u32, u32) -> u32>(
    plus: P,
    lanes: Seq<u32>,
    width: int,
    sums: Seq<u32>,
) -> bool {
    &&& sums.len() == width
    &&& forall|l: int|
        0 <= l < width ==> pairs_added(
            plus,
            lanes[l],
            lanes[width + l],
            lanes[2 * width + l],
            lanes[3 * width + l],
            #[trigger] sums[l],
        )
}

/// The greatest multiple of `unit` that is not above `n`.
#[verifier::opaque]
pub open spec fn whole_part(n: int, unit: int) -> int {
    n - n % unit
}

/// The whole groups of four registers lie within the whole registers.
pub proof fn lemma_whole_parts(n: int, width: int)
    requires
        n >= 0,
        width == 4 || width == 8,
    ensures
        0 <= whole_part(n, 4 * width) <= whole_part(n, width) <= n,
{
    reveal(whole_part);
    if width == 4 {
        assert(n % 4 <= n % 16);
    } else {
        assert(n % 8 <= n % 32);
    }
}

/// `r` is the dot product in the order of four registers of `width` lanes.
pub open spec fn vector_dot<
    M: Fn(u32, u32, u32) -> u32,
    T: Fn(u32, u32) -> u32,
    P: Fn(u32, u32) -> u32,
>(fma: M, times: T, plus: P, width: int, a: Seq<u32>, b: Seq<u32>, r: u32) -> bool {
    let n = a.len() as int;
    let groups = whole_part(n, 4 * width);
    let whole = whole_part(n, width);
    exists|lanes: Seq<u32>, after: Seq<u32>, sums: Seq<u32>, total: u32|
        {
            &&& #[trigger] product_lanes(fma, a, b, 4 * width, groups, lanes)
            &&& #[trigger] first_register(fma, a, b, width, groups, whole, lanes, after)
            &&& #[trigger] registers_added(plus, after, width, sums)
            &&& folded(plus, sums, total)
            &&& #[trigger] product_tail(times, plus, a, b, whole, n, total, r)
        }
}

/// The lanes of two registers after all whole bytes of the code.
pub open spec fn signed_lanes<P: Fn(u32, u32) -> u32>(
    plus: P,
    q: Seq<u32>,
    code: Seq<u8>,
    step: int,
    end: int,
    lanes: Seq<u32>,
) -> bool {
    &&& lanes.len() == step
    &&& forall|p: int|
        0 <= p < step ==> signed_lane(
            plus,
            q,
            code,
            p,
            step,
            steps_below(p, step, end),
            #[trigger] lanes[p],
        )
}

/// `r` is the asymmetric dot in the order of two registers of `width` lanes.
pub open spec fn vector_signed_dot<P: Fn(u32, u32) -> u32>(
    plus: P,
    width: int,
    q: Seq<u32>,
    code: Seq<u8>,
    r: u32,
) -> bool {
    let n = q.len() as int;
    let whole = n - n % 8;
    exists|lanes: Seq<u32>, sums: Seq<u32>, total: u32|
        {
            &&& #[trigger] signed_lanes(plus, q, code, 2 * width, whole, lanes)
            &&& #[trigger] halves_added(plus, lanes, width, sums)
            &&& folded(plus, sums, total)
            &&& #[trigger] signed_tail(plus, q, code, whole, n, total, r)
        }
}

/// Passing element `i` adds a step to its own lane and to no other.
pub proof fn lemma_steps(lane: int, step: int, from: int, i: int)
    requires
        0 < step,
        from <= lane < from + step,
        from <= i,
    ensures
        (i - from) % step == lane - from ==> {
            &&& steps_below(lane, step, i + 1) == steps_below(lane, step, i) + 1
            &&& lane + steps_below(lane, step, i) * step == i
        },
        (i - from) % step != lane - from ==> steps_below(lane, step, i + 1) == steps_below(
            lane,
            step,
            i,
        ),
{
    let (p, x) = (lane - from, i - from);
    let (q, r) = (x / step, x % step);
    lemma_fundamental_div_mod(x, step);
    assert(step * q == q * step && (q - 1) * step == q * step - step) by (nonlinear_arith);
    assert(q >= 0) by (nonlinear_arith)
        requires
            x >= 0,
            step > 0,
            q == x / step,
    ;
    if q == 0 {
        assert(q * step == 0) by (nonlinear_arith)
            requires
                q == 0,
        ;
    } else {
        assert(q * step >= step) by (nonlinear_arith)
            requires
                q >= 1,
                step > 0,
        ;
    }
    // x == q * step + r; the steps below i are those with lane + k * step < i.
    if r == p {
        if q > 0 {
            lemma_fundamental_div_mod_converse(x - p - 1, step, q - 1, step - 1);
        }
        lemma_fundamental_div_mod_converse(x - p, step, q, 0);
    } else if r > p {
        lemma_fundamental_div_mod_converse(x - p - 1, step, q, r - p - 1);
        lemma_fundamental_div_mod_converse(x - p, step, q, r - p);
    } else if q > 0 {
        lemma_fundamental_div_mod_converse(x - p - 1, step, q - 1, step + r - p - 1);
        lemma_fundamental_div_mod_converse(x - p, step, q - 1, step + r - p);
    }
}

/// Adds up the lanes of a register.
fn fold<P: Fn(u32, u32) -> u32>(lanes: &Vec<u32>, plus: &P) -> (r: u32)
    requires
        lanes@.len() == 4 || lanes@.len() == 8,
        forall|x: u32, y: u32| call_requires(*plus, (x, y)),
    ensures
        folded(*plus, lanes@, r),
{
    if lanes.len() == 8 {
        let t: Vec<u32> = add_halves(lanes, 4, plus);
        add_pairs(t[0], t[2], t[1], t[3], plus)
    } else {
        add_pairs(lanes[0], lanes[1], lanes[2], lanes[3], plus)
    }
}

/// Adds two numbers and two numbers.
fn add_pairs<P: Fn(u32, u32) -> u32>(a: u32, b: u32, c: u32, d: u32, plus: &P) -> (r: u32)
    requires
        forall|x: u32, y: u32| call_requires(*plus, (x, y)),
    ensures
        pairs_added(*plus, a, b, c, d, r),
{
    let x: u32 = plus(a, b);
    let y: u32 = plus(c, d);
    plus(x, y)
}

/// Adds the second half of the lanes to the first.
fn add_halves<P: Fn(u32, u32) -> u32>(lanes: &Vec<u32>, apart: usize, plus: &P) -> (r: Vec<u32>)
    requires
        lanes@.len() == 2 * apart,
        forall|x: u32, y: u32| call_requires(*plus, (x, y)),
    ensures
        halves_added(*plus, lanes@, apart as int, r@),
{
    let mut out: Vec<u32> = Vec::new();
    let mut l: usize = 0;
    while l < apart
        invariant
            l <= apart,
            lanes@.len() == 2 * apart,
            forall|x: u32, y: u32| call_requires(*plus, (x, y)),
            out@.len() == l,
            forall|k: int|
                0 <= k < l ==> call_ensures(
                    *plus,
                    (lanes@[k], lanes@[k + apart]),
                    #[trigger] out@[k],
                ),
        decreases apart - l,
    {
        let total: usize = lanes.len();
        out.push(plus(lanes[l], lanes[l + apart]));
        l += 1;
    }
    out
}

/// Adds the products `from..to` to the lanes, product `i` to lane
/// `(i - from) % width`.
fn accumulate<M: Fn(u32, u32, u32) -> u32>(
    lanes: &mut Vec<u32>,
    a: &[u32],
    b: &[u32],
    width: usize,
    from: usize,
    to: usize,
    fma: &M,
)
    requires
        0 < width <= old(lanes)@.len(),
        a@.len() == b@.len(),
        from <= to <= a@.len(),
        forall|x: u32, y: u32, z: u32| call_requires(*fma, (x, y, z)),
    ensures
        first_register(
            *fma,
            a@,
            b@,
            width as int,
            from as int,
            to as int,
            old(lanes)@,
            final(lanes)@,
        ),
{
    let ghost start = lanes@;
    let mut i: usize = from;
    while i < to
        invariant
            0 < width <= lanes@.len(),
            start == old(lanes)@,
            a@.len() == b@.len(),
            from <= i <= to <= a@.len(),
            forall|x: u32, y: u32, z: u32| call_requires(*fma, (x, y, z)),
            first_register(
                *fma,
                a@,
                b@,
                width as int,
                from as int,
                i as int,
                start,
                lanes@,
            ),
        decreases to - i,
    {
        let p: usize = (i - from) % width;
        let before: u32 = lanes[p];
        let after: u32 = fma(a[i], b[i], before);
        let ghost so_far = lanes@;
        lanes.set(p, after);
        proof {
            assert forall|k: int| 0 <= k < width implies product_lane(
                *fma,
                a@,
                b@,
                from + k,
                width as int,
                steps_below(from + k, width as int, i + 1),
                start[k],
                #[trigger] lanes@[k],
            ) by {
                lemma_steps(from + k, width as int, from as int, i as int);
                assert(product_lane(
                    *fma,
                    a@,
                    b@,
                    from + k,
                    width as int,
                    steps_below(from + k, width as int, i as int),
                    start[k],
                    so_far[k],
                ));
                if k == p {
                    let count = steps_below(from + k, width as int, i + 1);
                    assert((count - 1) as nat == steps_below(from + k, width as int, i as int));
                    assert(call_ensures(*fma, (a@[i as int], b@[i as int], before), after));
                }
            }
            assert forall|k: int| width <= k < start.len() implies #[trigger] lanes@[k]
                == start[k] by {
                assert(so_far[k] == start[k]);
            }
        }
        i += 1;
    }
}

/// The dot product in the order of four vector registers of `width` lanes.
pub fn dot_f32_lanes<
    M: Fn(u32, u32, u32) -> u32,
    T: Fn(u32, u32) -> u32,
    P: Fn(u32, u32) -> u32,
>(a: &[u32], b: &[u32], width: usize, fma: &M, times: &T, plus: &P) -> (r: u32)
    requires
        a@.len() == b@.len(),
        width == 4 || width == 8,
        forall|x: u32, y: u32, z: u32| call_requires(*fma, (x, y, z)),
        forall|x: u32, y: u32| call_requires(*times, (x, y)),
        forall|x: u32, y: u32| call_requires(*plus, (x, y)),
    ensures
        vector_dot(*fma, *times, *plus, width as int, a@, b@, r),
{
    let n: usize = a.len();
    let step: usize = 4 * width;
    proof {
        reveal(whole_part);
        lemma_whole_parts(n as int, width as int);
    }
    let groups: usize = n - n % step;
    let whole: usize = n - n % width;
    let mut lanes: Vec<u32> = vec![0u32; step];
    let ghost zeros = lanes@;
    accumulate(&mut lanes, a, b, step, 0, groups, fma);
    let ghost first = lanes@;
    assert(product_lanes(*fma, a@, b@, step as int, groups as int, first)) by {
        assert forall|p: int| 0 <= p < step implies product_lane(
            *fma,
            a@,
            b@,
            p,
            step as int,
            steps_below(p, step as int, groups as int),
            ieee::ZERO_32,
            #[trigger] first[p],
        ) by {
            assert(zeros[p] == 0);
            assert(product_lane(
                *fma,
                a@,
                b@,
                0 + p,
                step as int,
                steps_below(0 + p, step as int, groups as int),
                zeros[p],
                first[p],
            ));
        }
    }
    accumulate(&mut lanes, a, b, width, groups, whole, fma);
    let mut sums: Vec<u32> = Vec::new();
    let mut l: usize = 0;
    while l < width
        invariant
            l <= width <= 8,
            lanes@.len() == 4 * width,
            forall|x: u32, y: u32| call_requires(*plus, (x, y)),
            sums@.len() == l,
            forall|k: int|
                0 <= k < l ==> pairs_added(
                    *plus,
                    lanes@[k],
                    lanes@[width + k],
                    lanes@[2 * width + k],
                    lanes@[3 * width + k],
                    #[trigger] sums@[k],
                ),
        decreases width - l,
    {
        sums.push(
            add_pairs(
                lanes[l],
                lanes[width + l],
                lanes[2 * width + l],
                lanes[3 * width + l],
                plus,
            ),
        );
        l += 1;
    }
    assert(registers_added(*plus, lanes@, width as int, sums@));
    let total: u32 = fold(&sums, plus);
    let mut sum: u32 = total;
    let mut i: usize = whole;
    while i < n
        invariant
            whole <= i <= n == a@.len() == b@.len(),
            forall|x: u32, y: u32| call_requires(*times, (x, y)),
            forall|x: u32, y: u32| call_requires(*plus, (x, y)),
            product_tail(*times, *plus, a@, b@, whole as int, i as int, total, sum),
        decreases n - i,
    {
        let product: u32 = times(a[i], b[i]);
        let before: u32 = sum;
        sum = plus(before, product);
        i += 1;
        assert(call_ensures(*plus, (before, product), sum));
        assert(product_tail(*times, *plus, a@, b@, whole as int, i - 1, total, before));
    }
    sum
}

/// The asymmetric dot in the order of two vector registers of `width` lanes.
pub fn dot_f32_bin_lanes<P: Fn(u32, u32) -> u32>(
    q: &[u32],
    code: &[u8],
    width: usize,
    plus: &P,
) -> (r: u32)
    requires
        code@.len() == kernels::code_len(q@.len()),
        width == 4 || width == 8,
        forall|x: u32, y: u32| call_requires(*plus, (x, y)),
    ensures
        vector_signed_dot(*plus, width as int, q@, code@, r),
{
    let n: usize = q.len();
    let step: usize = 2 * width;
    let whole: usize = n - n % 8;
    let mut lanes: Vec<u32> = vec![0u32; step];
    let mut i: usize = 0;
    while i < whole
        invariant
            step == 2 * width,
            width == 4 || width == 8,
            i <= whole <= n == q@.len(),
            code@.len() == kernels::code_len(q@.len()),
            forall|x: u32, y: u32| call_requires(*plus, (x, y)),
            signed_lanes(*plus, q@, code@, step as int, i as int, lanes@),
        decreases whole - i,
    {
        let p: usize = i % step;
        let x: u32 = signed_at(q, code, i);
        let before: u32 = lanes[p];
        let after: u32 = plus(before, x);
        let ghost so_far = lanes@;
        lanes.set(p, after);
        proof {
            assert forall|k: int| 0 <= k < step implies signed_lane(
                *plus,
                q@,
                code@,
                k,
                step as int,
                steps_below(k, step as int, i + 1),
                #[trigger] lanes@[k],
            ) by {
                lemma_steps(k, step as int, 0, i as int);
                assert(signed_lane(
                    *plus,
                    q@,
                    code@,
                    k,
                    step as int,
                    steps_below(k, step as int, i as int),
                    so_far[k],
                ));
                if k == p {
                    let count = steps_below(k, step as int, i + 1);
                    assert((count - 1) as nat == steps_below(k, step as int, i as int));
                    assert(call_ensures(*plus, (before, x), after));
                }
            }
        }
        i += 1;
    }
    let sums: Vec<u32> = add_halves(&lanes, width, plus);
    let total: u32 = fold(&sums, plus);
    let mut sum: u32 = total;
    while i < n
        invariant
            whole <= i <= n == q@.len(),
            code@.len() == kernels::code_len(q@.len()),
            forall|x: u32, y: u32| call_requires(*plus, (x, y)),
            signed_tail(*plus, q@, code@, whole as int, i as int, total, sum),
        decreases n - i,
    {
        let x: u32 = signed_at(q, code, i);
        let before: u32 = sum;
        sum = plus(before, x);
        i += 1;
        assert(call_ensures(*plus, (before, x), sum));
        assert(signed_tail(*plus, q@, code@, whole as int, i - 1, total, before));
    }
    sum
}

/// Query element `i`, negated where the code bit is clear.
fn signed_at(q: &[u32], code: &[u8], i: usize) -> (r: u32)
    requires
        i < q@.len(),
        code@.len() == kernels::code_len(q@.len()),
    ensures
        r == kernels::signed_element(q@, code@, i as int),
{
    if kernels::read_bit(code, i) {
        q[i]
    } else {
        ieee::negate(q[i])
    }
}

} // verus!
