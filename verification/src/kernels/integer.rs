//! The integer kernels as the vector backends compute them.
//!
//! Products are summed in 32-bit lanes that wrap around, several registers
//! side by side; bit counts are summed in narrow lanes that are emptied before
//! they can overflow. Whatever the order, the result is exact, so it is the
//! same for every backend.

use vstd::prelude::*;
use crate::kernels;

verus! {

/// Equal modulo `2^32`.
pub open spec fn congruent(x: int, y: int) -> bool {
    (x - y) % 0x1_0000_0000 == 0
}

/// The sum of a register's lanes.
pub open spec fn lane_sum(lanes: Seq<i32>) -> int
    decreases lanes.len(),
{
    if lanes.len() == 0 {
        0
    } else {
        lane_sum(lanes.drop_last()) + lanes.last()
    }
}

/// The sum of a register's counts.
pub open spec fn count_sum(counts: Seq<u16>) -> int
    decreases counts.len(),
{
    if counts.len() == 0 {
        0
    } else {
        count_sum(counts.drop_last()) + counts.last()
    }
}

/// Changing a lane changes the sum by as much.
proof fn lemma_lane_update(lanes: Seq<i32>, i: int, v: i32)
    requires
        0 <= i < lanes.len(),
    ensures
        lane_sum(lanes.update(i, v)) == lane_sum(lanes) - lanes[i] + v,
    decreases lanes.len(),
{
    let changed = lanes.update(i, v);
    if i < lanes.len() - 1 {
        lemma_lane_update(lanes.drop_last(), i, v);
        assert(changed.drop_last() =~= lanes.drop_last().update(i, v));
    } else {
        assert(changed.drop_last() =~= lanes.drop_last());
    }
}

proof fn lemma_count_update(counts: Seq<u16>, i: int, v: u16)
    requires
        0 <= i < counts.len(),
    ensures
        count_sum(counts.update(i, v)) == count_sum(counts) - counts[i] + v,
    decreases counts.len(),
{
    let changed = counts.update(i, v);
    if i < counts.len() - 1 {
        lemma_count_update(counts.drop_last(), i, v);
        assert(changed.drop_last() =~= counts.drop_last().update(i, v));
    } else {
        assert(changed.drop_last() =~= counts.drop_last());
    }
}

/// Zero lanes sum to zero.
proof fn lemma_zero_lanes(lanes: Seq<i32>)
    requires
        forall|l: int| 0 <= l < lanes.len() ==> lanes[l] == 0,
    ensures
        lane_sum(lanes) == 0,
    decreases lanes.len(),
{
    if lanes.len() > 0 {
        lemma_zero_lanes(lanes.drop_last());
    }
}

proof fn lemma_zero_counts(counts: Seq<u16>)
    requires
        forall|l: int| 0 <= l < counts.len() ==> counts[l] == 0,
    ensures
        count_sum(counts) == 0,
    decreases counts.len(),
{
    if counts.len() > 0 {
        lemma_zero_counts(counts.drop_last());
    }
}

/// Two numbers of 32 bits that are equal modulo `2^32` are equal.
proof fn lemma_congruent_equal(x: int, y: int)
    requires
        congruent(x, y),
        i32::MIN <= x <= i32::MAX,
        i32::MIN <= y <= i32::MAX,
    ensures
        x == y,
{
}

/// Adds `term` to lane `l`, wrapping around.
fn add_to_lane(lanes: &mut Vec<i32>, l: usize, term: i32)
    requires
        l < old(lanes)@.len(),
    ensures
        final(lanes)@.len() == old(lanes)@.len(),
        congruent(lane_sum(final(lanes)@), lane_sum(old(lanes)@) + term),
{
    let sum: i32 = lanes[l].wrapping_add(term);
    proof {
        lemma_lane_update(lanes@, l as int, sum);
    }
    lanes[l] = sum;
}

/// A register of zeros.
fn zero_lanes(count: usize) -> (r: Vec<i32>)
    ensures
        r@.len() == count,
        lane_sum(r@) == 0,
{
    let mut lanes: Vec<i32> = Vec::new();
    let mut l: usize = 0;
    while l < count
        invariant
            l <= count,
            lanes@.len() == l,
            forall|i: int| 0 <= i < l ==> lanes@[i] == 0,
        decreases count - l,
    {
        lanes.push(0);
        l += 1;
    }
    proof {
        lemma_zero_lanes(lanes@);
    }
    lanes
}

/// The lanes added up, wrapping around.
fn reduce(lanes: &Vec<i32>) -> (r: i32)
    ensures
        congruent(r as int, lane_sum(lanes@)),
{
    let mut sum: i32 = 0;
    let mut l: usize = 0;
    while l < lanes.len()
        invariant
            l <= lanes@.len(),
            congruent(sum as int, lane_sum(lanes@.take(l as int))),
        decreases lanes@.len() - l,
    {
        let ghost before = lanes@.take(l as int);
        let next: i32 = sum.wrapping_add(lanes[l]);
        l += 1;
        assert(lanes@.take(l as int).drop_last() =~= before);
        sum = next;
    }
    assert(lanes@.take(l as int) =~= lanes@);
    sum
}

/// Adds the products of `count` elements from `start` to the lanes, `per_lane`
/// neighbours to a lane.
fn add_products(
    lanes: &mut Vec<i32>,
    a: &[i8],
    b: &[i8],
    start: usize,
    count: usize,
    per_lane: usize,
)
    requires
        start + count <= a@.len() == b@.len(),
        0 < per_lane,
        count <= old(lanes)@.len() * per_lane,
    ensures
        final(lanes)@.len() == old(lanes)@.len(),
        congruent(
            lane_sum(final(lanes)@) - kernels::dot_prefix(a@, b@, (start + count) as nat),
            lane_sum(old(lanes)@) - kernels::dot_prefix(a@, b@, start as nat),
        ),
{
    let total: usize = a.len();
    let mut j: usize = 0;
    while j < count
        invariant
            j <= count,
            start + count <= total == a@.len() == b@.len(),
            0 < per_lane,
            count <= lanes@.len() * per_lane,
            lanes@.len() == old(lanes)@.len(),
            congruent(
                lane_sum(lanes@) - kernels::dot_prefix(a@, b@, (start + j) as nat),
                lane_sum(old(lanes)@) - kernels::dot_prefix(a@, b@, start as nat),
            ),
        decreases count - j,
    {
        let (x, y): (i32, i32) = (a[start + j] as i32, b[start + j] as i32);
        assert(-16384 <= x * y <= 16384) by (nonlinear_arith)
            requires
                -128 <= x <= 127,
                -128 <= y <= 127,
        ;
        let lane: usize = j / per_lane;
        assert(lane < lanes@.len()) by (nonlinear_arith)
            requires
                lane == j / per_lane,
                j < lanes@.len() * per_lane,
                0 < per_lane,
        ;
        add_to_lane(lanes, lane, x * y);
        j += 1;
    }
}

/// Int8 dot product over groups of `group` elements, then single registers of
/// 16 elements, then one by one.
fn dot_i8_lanes(a: &[i8], b: &[i8], group: usize, per_lane: usize) -> (r: i32)
    requires
        a@.len() == b@.len(),
        kernels::dot_fits(a@, b@),
        group == 16 || group == 32 || group == 64,
        per_lane == 2 || per_lane == 4,
    ensures
        r == kernels::dot(a@, b@),
{
    let n: usize = a.len();
    let mut lanes: Vec<i32> = zero_lanes(group / per_lane);
    let mut i: usize = 0;
    while n - i >= group
        invariant
            i <= n == a@.len() == b@.len(),
            group == 16 || group == 32 || group == 64,
            per_lane == 2 || per_lane == 4,
            lanes@.len() == group / per_lane,
            congruent(lane_sum(lanes@), kernels::dot_prefix(a@, b@, i as nat)),
        decreases n - i,
    {
        add_products(&mut lanes, a, b, i, group, per_lane);
        i += group;
    }
    while n - i >= 16
        invariant
            i <= n == a@.len() == b@.len(),
            group == 16 || group == 32 || group == 64,
            per_lane == 2 || per_lane == 4,
            lanes@.len() == group / per_lane,
            congruent(lane_sum(lanes@), kernels::dot_prefix(a@, b@, i as nat)),
        decreases n - i,
    {
        add_products(&mut lanes, a, b, i, 16, per_lane);
        i += 16;
    }
    let mut sum: i32 = reduce(&lanes);
    proof {
        assert(i32::MIN <= kernels::dot_prefix(a@, b@, i as nat) <= i32::MAX);
        lemma_congruent_equal(sum as int, kernels::dot_prefix(a@, b@, i as nat));
    }
    while i < n
        invariant
            i <= n == a@.len() == b@.len(),
            kernels::dot_fits(a@, b@),
            sum == kernels::dot_prefix(a@, b@, i as nat),
        decreases n - i,
    {
        let (x, y): (i32, i32) = (a[i] as i32, b[i] as i32);
        assert(-16384 <= x * y <= 16384) by (nonlinear_arith)
            requires
                -128 <= x <= 127,
                -128 <= y <= 127,
        ;
        assert(i32::MIN <= kernels::dot_prefix(a@, b@, (i + 1) as nat) <= i32::MAX);
        sum = sum + x * y;
        i += 1;
    }
    sum
}

/// Int8 dot on AVX2: two registers of eight lanes, a pair of products to a
/// lane.
pub fn dot_i8_avx2(a: &[i8], b: &[i8]) -> (r: i32)
    requires
        a@.len() == b@.len(),
        kernels::dot_fits(a@, b@),
    ensures
        r == kernels::dot(a@, b@),
{
    dot_i8_lanes(a, b, 32, 2)
}

/// Int8 dot on NEON: two registers of four lanes, a pair of products to a
/// lane.
pub fn dot_i8_mull(a: &[i8], b: &[i8]) -> (r: i32)
    requires
        a@.len() == b@.len(),
        kernels::dot_fits(a@, b@),
    ensures
        r == kernels::dot(a@, b@),
{
    dot_i8_lanes(a, b, 16, 2)
}

/// Int8 dot with the dot-product extension: four registers of four lanes, four
/// products to a lane.
pub fn dot_i8_dotprod(a: &[i8], b: &[i8]) -> (r: i32)
    requires
        a@.len() == b@.len(),
        kernels::dot_fits(a@, b@),
    ensures
        r == kernels::dot(a@, b@),
{
    dot_i8_lanes(a, b, 64, 4)
}

/// Expands `count` code bits from `start` into lanes of 1 and -1.
fn expand_signs(code: &[u8], start: usize, count: usize) -> (r: Vec<i8>)
    requires
        start + count <= usize::MAX,
        start + count <= 8 * code@.len(),
    ensures
        r@.len() == count,
        forall|j: int|
            0 <= j < count ==> #[trigger] r@[j] == (if kernels::code_bit(code@, start + j) {
                1i8
            } else {
                -1i8
            }),
{
    let mut signs: Vec<i8> = Vec::new();
    let mut j: usize = 0;
    while j < count
        invariant
            j <= count,
            start + count <= usize::MAX,
            start + count <= 8 * code@.len(),
            signs@.len() == j,
            forall|i: int|
                0 <= i < j ==> #[trigger] signs@[i] == (if kernels::code_bit(code@, start + i) {
                    1i8
                } else {
                    -1i8
                }),
        decreases count - j,
    {
        signs.push(
            if kernels::read_bit(code, start + j) {
                1
            } else {
                -1
            },
        );
        j += 1;
    }
    signs
}

/// Int8 query × binary code over groups of `group` dimensions, a register of
/// signs at a time, then one by one.
fn dot_i8_bin_lanes(q: &[i8], code: &[u8], group: usize, per_lane: usize) -> (r: i32)
    requires
        code@.len() == kernels::code_len(q@.len()),
        kernels::signed_fits(q@, code@),
        group == 16 || group == 32,
        per_lane == 2 || per_lane == 4,
    ensures
        r == kernels::signed_sum(q@, code@),
{
    let n: usize = q.len();
    let mut lanes: Vec<i32> = zero_lanes(group / per_lane);
    let mut i: usize = 0;
    while n - i >= group
        invariant
            i <= n == q@.len(),
            code@.len() == kernels::code_len(q@.len()),
            group == 16 || group == 32,
            per_lane == 2 || per_lane == 4,
            lanes@.len() == group / per_lane,
            congruent(lane_sum(lanes@), kernels::signed_prefix(q@, code@, i as nat)),
        decreases n - i,
    {
        let signs: Vec<i8> = expand_signs(code, i, group);
        let mut j: usize = 0;
        while j < group
            invariant
                j <= group,
                i + group <= n == q@.len(),
                group == 16 || group == 32,
                per_lane == 2 || per_lane == 4,
                lanes@.len() == group / per_lane,
                signs@.len() == group,
                forall|j: int|
                    0 <= j < group ==> #[trigger] signs@[j] == (if kernels::code_bit(code@, i + j) {
                        1i8
                    } else {
                        -1i8
                    }),
                congruent(lane_sum(lanes@), kernels::signed_prefix(q@, code@, (i + j) as nat)),
            decreases group - j,
        {
            let (x, s): (i32, i32) = (q[i + j] as i32, signs[j] as i32);
            assert(x * s == (if s == 1 {
                x as int
            } else {
                -x
            })) by (nonlinear_arith)
                requires
                    s == 1 || s == -1,
            ;
            add_to_lane(&mut lanes, j / per_lane, x * s);
            j += 1;
        }
        i += group;
    }
    let mut sum: i32 = reduce(&lanes);
    proof {
        assert(i32::MIN <= kernels::signed_prefix(q@, code@, i as nat) <= i32::MAX);
        lemma_congruent_equal(sum as int, kernels::signed_prefix(q@, code@, i as nat));
    }
    while i < n
        invariant
            i <= n == q@.len(),
            code@.len() == kernels::code_len(q@.len()),
            kernels::signed_fits(q@, code@),
            sum == kernels::signed_prefix(q@, code@, i as nat),
        decreases n - i,
    {
        assert(i32::MIN <= kernels::signed_prefix(q@, code@, (i + 1) as nat) <= i32::MAX);
        if kernels::read_bit(code, i) {
            sum = sum + q[i] as i32;
        } else {
            sum = sum - q[i] as i32;
        }
        i += 1;
    }
    sum
}

/// Int8 query × binary code on AVX2: 32 dimensions at a time.
pub fn dot_i8_bin_avx2(q: &[i8], code: &[u8]) -> (r: i32)
    requires
        code@.len() == kernels::code_len(q@.len()),
        kernels::signed_fits(q@, code@),
    ensures
        r == kernels::signed_sum(q@, code@),
{
    dot_i8_bin_lanes(q, code, 32, 2)
}

/// Int8 query × binary code on NEON: 16 dimensions at a time.
pub fn dot_i8_bin_mull(q: &[i8], code: &[u8]) -> (r: i32)
    requires
        code@.len() == kernels::code_len(q@.len()),
        kernels::signed_fits(q@, code@),
    ensures
        r == kernels::signed_sum(q@, code@),
{
    dot_i8_bin_lanes(q, code, 16, 2)
}

/// Int8 query × binary code with the dot-product extension.
pub fn dot_i8_bin_dotprod(q: &[i8], code: &[u8]) -> (r: i32)
    requires
        code@.len() == kernels::code_len(q@.len()),
        kernels::signed_fits(q@, code@),
    ensures
        r == kernels::signed_sum(q@, code@),
{
    dot_i8_bin_lanes(q, code, 16, 4)
}

/// In how many bits the words at byte `start` differ.
fn word_distance(a: &[u8], b: &[u8], start: usize) -> (r: u64)
    requires
        start + 8 <= a@.len() == b@.len(),
    ensures
        r == kernels::differing(a@, b@, 8 * (start + 8) as nat) - kernels::differing(
            a@,
            b@,
            8 * start as nat,
        ),
        r <= 64,
{
    let total: usize = a.len();
    let mut count: u64 = 0;
    let mut j: usize = 0;
    while j < 8
        invariant
            j <= 8,
            start + 8 <= total == a@.len() == b@.len(),
            count == kernels::differing(a@, b@, 8 * (start + j) as nat) - kernels::differing(
                a@,
                b@,
                8 * start as nat,
            ),
            count <= 8 * j,
        decreases 8 - j,
    {
        proof {
            kernels::lemma_byte_step(a@, b@, (start + j) as nat);
        }
        count = count + kernels::count_ones(a[start + j] ^ b[start + j]) as u64;
        j += 1;
    }
    count
}

/// Hamming distance word by word, with four counters side by side.
pub fn hamming_popcnt(a: &[u8], b: &[u8]) -> (r: u32)
    requires
        a@.len() == b@.len(),
        kernels::distance(a@, b@) <= u32::MAX,
    ensures
        r == kernels::distance(a@, b@),
{
    let n: usize = a.len();
    let (mut c0, mut c1, mut c2, mut c3): (u64, u64, u64, u64) = (0, 0, 0, 0);
    let mut i: usize = 0;
    while n - i >= 32
        invariant
            i <= n == a@.len() == b@.len(),
            kernels::distance(a@, b@) <= u32::MAX,
            c0 + c1 + c2 + c3 == kernels::differing(a@, b@, 8 * i as nat),
            c0 + c1 + c2 + c3 <= u32::MAX,
        decreases n - i,
    {
        c0 = c0 + word_distance(a, b, i);
        c1 = c1 + word_distance(a, b, i + 8);
        c2 = c2 + word_distance(a, b, i + 16);
        c3 = c3 + word_distance(a, b, i + 24);
        i += 32;
        proof {
            kernels::lemma_differing_bounded(a@, b@, 8 * i as nat, 8 * a@.len());
        }
    }
    while n - i >= 8
        invariant
            i <= n == a@.len() == b@.len(),
            kernels::distance(a@, b@) <= u32::MAX,
            c0 + c1 + c2 + c3 == kernels::differing(a@, b@, 8 * i as nat),
            c0 + c1 + c2 + c3 <= u32::MAX,
        decreases n - i,
    {
        c0 = c0 + word_distance(a, b, i);
        i += 8;
        proof {
            kernels::lemma_differing_bounded(a@, b@, 8 * i as nat, 8 * a@.len());
        }
    }
    let mut total: u32 = (c0 + c1 + c2 + c3) as u32;
    while i < n
        invariant
            i <= n == a@.len() == b@.len(),
            kernels::distance(a@, b@) <= u32::MAX,
            total == kernels::differing(a@, b@, 8 * i as nat),
        decreases n - i,
    {
        proof {
            kernels::lemma_byte_step(a@, b@, i as nat);
            kernels::lemma_differing_bounded(a@, b@, 8 * (i as nat + 1), 8 * a@.len());
        }
        total = total + kernels::count_ones(a[i] ^ b[i]);
        i += 1;
    }
    total
}

/// Adds the bit counts of 16 bytes to eight lanes, two bytes to a lane.
fn add_counts(counts: &mut Vec<u16>, a: &[u8], b: &[u8], start: usize, limit: u16)
    requires
        old(counts)@.len() == 8,
        start + 16 <= a@.len() == b@.len(),
        limit <= 0xFFEF,
        forall|l: int| 0 <= l < 8 ==> #[trigger] old(counts)@[l] <= limit,
    ensures
        final(counts)@.len() == 8,
        forall|l: int| 0 <= l < 8 ==> #[trigger] final(counts)@[l] <= limit + 16,
        count_sum(final(counts)@) - count_sum(old(counts)@) == kernels::differing(
            a@,
            b@,
            8 * (start + 16) as nat,
        ) - kernels::differing(a@, b@, 8 * start as nat),
{
    let total: usize = a.len();
    let mut l: usize = 0;
    while l < 8
        invariant
            l <= 8,
            start + 16 <= total == a@.len() == b@.len(),
            limit <= 0xFFEF,
            counts@.len() == 8,
            forall|k: int| 0 <= k < l ==> #[trigger] counts@[k] <= limit + 16,
            forall|k: int| l <= k < 8 ==> #[trigger] counts@[k] <= limit,
            count_sum(counts@) - count_sum(old(counts)@) == kernels::differing(
                a@,
                b@,
                8 * (start + 2 * l) as nat,
            ) - kernels::differing(a@, b@, 8 * start as nat),
        decreases 8 - l,
    {
        let at: usize = start + 2 * l;
        proof {
            kernels::lemma_byte_step(a@, b@, at as nat);
            kernels::lemma_byte_step(a@, b@, (at + 1) as nat);
        }
        let pair: u32 = kernels::count_ones(a[at] ^ b[at]) + kernels::count_ones(
            a[at + 1] ^ b[at + 1],
        );
        let sum: u16 = counts[l] + pair as u16;
        proof {
            lemma_count_update(counts@, l as int, sum);
        }
        counts[l] = sum;
        l += 1;
    }
}

/// Hamming distance on NEON: 16 bytes at a time into 16-bit lanes, which are
/// emptied into the total after at most 512 steps.
pub fn hamming_neon(a: &[u8], b: &[u8]) -> (r: u32)
    requires
        a@.len() == b@.len(),
        kernels::distance(a@, b@) <= u32::MAX,
    ensures
        r == kernels::distance(a@, b@),
{
    let n: usize = a.len();
    let mut total: u32 = 0;
    let mut i: usize = 0;
    while n - i >= 16
        invariant
            i <= n == a@.len() == b@.len(),
            kernels::distance(a@, b@) <= u32::MAX,
            total == kernels::differing(a@, b@, 8 * i as nat),
        decreases n - i,
    {
        let mut counts: Vec<u16> = vec![0, 0, 0, 0, 0, 0, 0, 0];
        proof {
            lemma_zero_counts(counts@);
        }
        let ghost from = i;
        let mut steps: u16 = 0;
        while n - i >= 16 && steps < 512
            invariant
                from <= i <= n == a@.len() == b@.len(),
                steps <= 512,
                i == from + 16 * steps,
                counts@.len() == 8,
                forall|l: int| 0 <= l < 8 ==> #[trigger] counts@[l] <= 16 * steps,
                count_sum(counts@) == kernels::differing(a@, b@, 8 * i as nat)
                    - kernels::differing(a@, b@, 8 * from as nat),
            decreases n - i,
        {
            add_counts(&mut counts, a, b, i, 16 * steps);
            i += 16;
            steps += 1;
        }
        proof {
            kernels::lemma_differing_bounded(a@, b@, 8 * i as nat, 8 * a@.len());
            assert(i > from);
        }
        total = total + drain(&counts);
    }
    while i < n
        invariant
            i <= n == a@.len() == b@.len(),
            kernels::distance(a@, b@) <= u32::MAX,
            total == kernels::differing(a@, b@, 8 * i as nat),
        decreases n - i,
    {
        proof {
            kernels::lemma_byte_step(a@, b@, i as nat);
            kernels::lemma_differing_bounded(a@, b@, 8 * (i as nat + 1), 8 * a@.len());
        }
        total = total + kernels::count_ones(a[i] ^ b[i]);
        i += 1;
    }
    total
}

/// The lanes added up.
fn drain(counts: &Vec<u16>) -> (r: u32)
    requires
        counts@.len() == 8,
    ensures
        r == count_sum(counts@),
{
    let mut sum: u32 = 0;
    let mut l: usize = 0;
    while l < 8
        invariant
            l <= 8,
            counts@.len() == 8,
            sum == count_sum(counts@.take(l as int)),
            sum <= 0xFFFF * l,
        decreases 8 - l,
    {
        let ghost before = counts@.take(l as int);
        sum = sum + counts[l] as u32;
        l += 1;
        assert(counts@.take(l as int).drop_last() =~= before);
    }
    assert(counts@.take(8) =~= counts@);
    sum
}

} // verus!
