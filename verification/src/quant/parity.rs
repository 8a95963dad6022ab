//! Parity helpers: how close client-side codes are to an embedding provider's.
//!
//! Pure functions over pre-fetched arrays. The counts are exact integers; the
//! rates they give are exact fractions. Cosines are made of exact integers and
//! turned into numbers by functions of the caller's.

use vstd::prelude::*;
use crate::ieee;
use crate::kernels;
use crate::ratio::Ratio;

verus! {

/// Row `i` of a flat block of `len`-element rows.
pub open spec fn row_of<T>(block: Seq<T>, len: nat, i: int) -> Seq<T> {
    block.subrange(i * len, (i + 1) * len)
}

/// In how many bits rows `i` of two blocks of `len`-byte rows differ.
pub open spec fn row_distance(a: Seq<u8>, b: Seq<u8>, len: nat, i: int) -> nat {
    kernels::distance(row_of(a, len, i), row_of(b, len, i))
}

/// In how many bits the first `n` rows differ.
pub open spec fn total_distance(a: Seq<u8>, b: Seq<u8>, len: nat, n: nat) -> nat
    decreases n,
{
    if n == 0 {
        0
    } else {
        total_distance(a, b, len, (n - 1) as nat) + row_distance(a, b, len, n - 1)
    }
}

/// How many of the first `n` rows do not differ.
pub open spec fn identical_rows(a: Seq<u8>, b: Seq<u8>, len: nat, n: nat) -> nat
    decreases n,
{
    if n == 0 {
        0
    } else {
        identical_rows(a, b, len, (n - 1) as nat) + if row_distance(a, b, len, n - 1) == 0 {
            1nat
        } else {
            0nat
        }
    }
}

/// The distance of the worst of the first `n` rows.
pub open spec fn worst_distance(a: Seq<u8>, b: Seq<u8>, len: nat, n: nat) -> nat
    decreases n,
{
    if n == 0 {
        0
    } else {
        let before = worst_distance(a, b, len, (n - 1) as nat);
        let here = row_distance(a, b, len, n - 1);
        if here > before {
            here
        } else {
            before
        }
    }
}

/// `|x - y|`.
pub open spec fn gap(x: i8, y: i8) -> nat {
    if x >= y {
        (x - y) as nat
    } else {
        (y - x) as nat
    }
}

/// How many of the first `n` elements are equal.
pub open spec fn equal_elements(a: Seq<i8>, b: Seq<i8>, n: nat) -> nat
    decreases n,
{
    if n == 0 {
        0
    } else {
        equal_elements(a, b, (n - 1) as nat) + if a[n - 1] == b[n - 1] {
            1nat
        } else {
            0nat
        }
    }
}

/// Sum of the gaps of the first `n` elements.
pub open spec fn gap_sum(a: Seq<i8>, b: Seq<i8>, n: nat) -> nat
    decreases n,
{
    if n == 0 {
        0
    } else {
        gap_sum(a, b, (n - 1) as nat) + gap(a[n - 1], b[n - 1])
    }
}

/// Greatest gap among the first `n` elements.
pub open spec fn gap_max(a: Seq<i8>, b: Seq<i8>, n: nat) -> nat
    decreases n,
{
    if n == 0 {
        0
    } else {
        let before = gap_max(a, b, (n - 1) as nat);
        let here = gap(a[n - 1], b[n - 1]);
        if here > before {
            here
        } else {
            before
        }
    }
}

/// Converts offset-binary codes (`i8 = u8 - 128`) into plain packed codes.
///
/// Taking such bytes as they are would invert the first dimension of every
/// 8-dimension group.
pub fn voyage_offset_binary_to_codes(voyage_i8: &[i8], out: &mut [u8])
    requires
        voyage_i8@.len() == old(out)@.len(),
    ensures
        final(out)@.len() == old(out)@.len(),
        forall|i: int|
            0 <= i < final(out)@.len() ==> #[trigger] final(out)@[i] == voyage_i8@[i] + 128,
{
    let n: usize = out.len();
    let mut i: usize = 0;
    while i < n
        invariant
            i <= n == out@.len() == voyage_i8@.len(),
            forall|j: int| 0 <= j < i ==> #[trigger] out@[j] == voyage_i8@[j] + 128,
        decreases n - i,
    {
        let v: i8 = voyage_i8[i];
        let wide: i16 = v as i16 + 128;
        out[i] = wide as u8;
        i += 1;
    }
}

/// The conversion flips the top bit of the byte, so doing it again restores
/// the byte.
pub proof fn law_offset_binary_involutive(v: i8, code: u8)
    requires
        code == v + 128,
    ensures
        code == (v as u8) ^ 0x80u8,
        (code ^ 0x80u8) as i8 == v,
{
    assert(code == (v as u8) ^ 0x80u8 && (code ^ 0x80u8) as i8 == v) by (bit_vector)
        requires
            code == v + 128,
    ;
}

/// Byte for byte, `raw` is `codes` with the conversion left out.
pub open spec fn unconverted(codes: Seq<u8>, raw: Seq<u8>) -> bool {
    &&& codes.len() == raw.len()
    &&& forall|i: int| 0 <= i < codes.len() ==> #[trigger] raw[i] == codes[i] ^ 0x80u8
}

/// A skipped conversion inverts the first bit of a byte and no other.
proof fn lemma_flipped_bit(codes: Seq<u8>, raw: Seq<u8>, i: int)
    requires
        unconverted(codes, raw),
        0 <= i < 8 * codes.len(),
    ensures
        kernels::code_bit(codes, i) != kernels::code_bit(raw, i) <==> i % 8 == 0,
{
    let (x, y) = (codes[i / 8], raw[i / 8]);
    let place = (7 - i % 8) as u8;
    assert(((x >> place) & 1u8 == 1u8) != ((y >> place) & 1u8 == 1u8) <==> place == 7)
        by (bit_vector)
        requires
            y == x ^ 0x80u8,
            place <= 7,
    ;
}

proof fn lemma_flipped_bits(codes: Seq<u8>, raw: Seq<u8>, n: nat)
    requires
        unconverted(codes, raw),
        n <= 8 * codes.len(),
    ensures
        kernels::differing(codes, raw, n) == (n + 7) / 8,
    decreases n,
{
    if n > 0 {
        lemma_flipped_bits(codes, raw, (n - 1) as nat);
        lemma_flipped_bit(codes, raw, n - 1);
    }
}

/// Codes that agree but for a skipped conversion differ in the first bit of
/// every byte, so in one bit of eight. No row is identical, and every row
/// differs in as many bits as it has bytes.
pub proof fn law_skipped_conversion_shows(codes: Seq<u8>, raw: Seq<u8>, len: nat, rows: nat)
    requires
        unconverted(codes, raw),
        rows * len <= codes.len(),
    ensures
        forall|i: int|
            0 <= i < 8 * codes.len() ==> (kernels::code_bit(codes, i) != #[trigger] kernels::code_bit(
                raw,
                i,
            ) <==> i % 8 == 0),
        8 * total_distance(codes, raw, len, rows) == rows * (8 * len),
        len > 0 ==> identical_rows(codes, raw, len, rows) == 0,
        worst_distance(codes, raw, len, rows) == (if rows > 0 {
            len
        } else {
            0
        }),
    decreases rows,
{
    assert forall|i: int| 0 <= i < 8 * codes.len() implies (kernels::code_bit(codes, i)
        != #[trigger] kernels::code_bit(raw, i) <==> i % 8 == 0) by {
        lemma_flipped_bit(codes, raw, i);
    }
    if rows == 0 {
        assert(0 * (8 * len) == 0);
    } else {
        let before = (rows - 1) as nat;
        assert(rows * len == before * len + len && rows * (8 * len) == before * (8 * len) + 8 * len
            && before * len >= 0) by (nonlinear_arith)
            requires
                rows == before + 1,
        ;
        law_skipped_conversion_shows(codes, raw, len, before);
        let (a, b) = (row_of(codes, len, rows - 1), row_of(raw, len, rows - 1));
        assert(unconverted(a, b));
        lemma_flipped_bits(a, b, 8 * len);
        assert(row_distance(codes, raw, len, rows - 1) == len);
    }
}

/// Comparison of client-side sign-bit codes with a provider's codes.
#[derive(Clone, Copy, Debug)]
pub struct BinaryParity {
    pub vectors: usize,
    /// Dimensions per vector.
    pub dim: usize,
    /// Number of bits that differ, over all rows.
    pub diff_bits: u128,
    /// Number of rows that match exactly.
    pub identical: usize,
    /// Differing-bit count of the worst row.
    pub max_row_mismatch: u32,
}

impl BinaryParity {
    /// Fraction of all `dim * vectors` bits that differ; 0 without vectors.
    pub fn bit_mismatch_rate(&self) -> (r: Ratio)
        requires
            self.dim > 0,
        ensures
            r.wf(),
            self.vectors == 0 ==> r == (Ratio { numerator: 0, denominator: 1 }),
            self.vectors > 0 ==> r.numerator == self.diff_bits && r.denominator == self.vectors
                * self.dim,
    {
        if self.vectors == 0 {
            Ratio { numerator: 0, denominator: 1 }
        } else {
            let (v, d): (u128, u128) = (self.vectors as u128, self.dim as u128);
            assert(0 < v * d <= 0xFFFF_FFFF_FFFF_FFFF * 0xFFFF_FFFF_FFFF_FFFF) by (nonlinear_arith)
                requires
                    0 < v <= 0xFFFF_FFFF_FFFF_FFFF,
                    0 < d <= 0xFFFF_FFFF_FFFF_FFFF,
            ;
            Ratio { numerator: self.diff_bits, denominator: v * d }
        }
    }

    /// Fraction of rows that match exactly; 1 without vectors.
    pub fn identical_vector_rate(&self) -> (r: Ratio)
        ensures
            r.wf(),
            self.vectors == 0 ==> r == (Ratio { numerator: 1, denominator: 1 }),
            self.vectors > 0 ==> r.numerator == self.identical && r.denominator == self.vectors,
    {
        if self.vectors == 0 {
            Ratio { numerator: 1, denominator: 1 }
        } else {
            Ratio { numerator: self.identical as u128, denominator: self.vectors as u128 }
        }
    }
}

/// Whole rows: row `i` of a block lies within it.
proof fn lemma_row_in_block(total: nat, len: nat, i: nat)
    requires
        len > 0,
        i < total / len,
    ensures
        (i + 1) * len <= total,
        i * len + len == (i + 1) * len,
        i * len >= 0,
{
    assert((i + 1) * len <= total && i * len + len == (i + 1) * len && i * len >= 0)
        by (nonlinear_arith)
        requires
            i < total / len,
            len > 0,
    ;
}

/// Compares client codes with a provider's. Both arguments are flat blocks of
/// `binary_code_len(dim)`-byte rows in the same order.
pub fn binary_parity(client: &[u8], voyage: &[u8], dim: usize) -> (r: BinaryParity)
    requires
        dim > 0,
        client@.len() == voyage@.len(),
        client@.len() % kernels::code_len(dim as nat) == 0,
        forall|i: int|
            0 <= i < client@.len() / kernels::code_len(dim as nat) ==> #[trigger] row_distance(
                client@,
                voyage@,
                kernels::code_len(dim as nat),
                i,
            ) <= u32::MAX,
    ensures
        r.dim == dim,
        r.vectors == client@.len() / kernels::code_len(dim as nat),
        r.diff_bits == total_distance(
            client@,
            voyage@,
            kernels::code_len(dim as nat),
            r.vectors as nat,
        ),
        r.identical == identical_rows(
            client@,
            voyage@,
            kernels::code_len(dim as nat),
            r.vectors as nat,
        ),
        r.max_row_mismatch == worst_distance(
            client@,
            voyage@,
            kernels::code_len(dim as nat),
            r.vectors as nat,
        ),
{
    let row: usize = kernels::binary_code_len(dim);
    let total: usize = client.len();
    let vectors: usize = total / row;
    let mut diff_bits: u128 = 0;
    let mut identical: usize = 0;
    let mut worst: u32 = 0;
    let mut i: usize = 0;
    while i < vectors
        invariant
            i <= vectors,
            row > 0,
            row == kernels::code_len(dim as nat),
            total == client@.len(),
            vectors == client@.len() / row as nat,
            client@.len() == voyage@.len(),
            forall|i: int|
                0 <= i < vectors ==> #[trigger] row_distance(client@, voyage@, row as nat, i)
                    <= u32::MAX,
            diff_bits == total_distance(client@, voyage@, row as nat, i as nat),
            diff_bits <= i * 0xFFFF_FFFF,
            identical == identical_rows(client@, voyage@, row as nat, i as nat),
            identical <= i,
            worst == worst_distance(client@, voyage@, row as nat, i as nat),
        decreases vectors - i,
    {
        proof {
            lemma_row_in_block(client@.len(), row as nat, i as nat);
            assert(row_distance(client@, voyage@, row as nat, i as int) <= u32::MAX);
        }
        let start: usize = i * row;
        let c: &[u8] = &client[start..start + row];
        let v: &[u8] = &voyage[start..start + row];
        let h: u32 = kernels::hamming(c, v);
        diff_bits = diff_bits + h as u128;
        if h == 0 {
            identical += 1;
        }
        if h > worst {
            worst = h;
        }
        i += 1;
    }
    BinaryParity { vectors, dim, diff_bits, identical, max_row_mismatch: worst }
}

/// The exact integers that the cosine of two code rows is made of:
/// `dot / (sqrt(client_norm) * sqrt(voyage_norm))`.
#[derive(Clone, Copy, Debug, PartialEq, Eq, Structural)]
pub struct CosineParts {
    pub dot: i128,
    pub client_norm: i128,
    pub voyage_norm: i128,
}

/// The parts of the cosine of two rows, or `None` where one of them is all
/// zero: such a row counts as similarity 0.
pub open spec fn cosine_parts(c: Seq<i8>, v: Seq<i8>) -> Option<CosineParts> {
    let (cc, vv) = (kernels::dot(c, c), kernels::dot(v, v));
    if cc > 0 && vv > 0 {
        Some(
            CosineParts {
                dot: kernels::dot(c, v) as i128,
                client_norm: cc as i128,
                voyage_norm: vv as i128,
            },
        )
    } else {
        None
    }
}

/// `acc` is what adding the cosines of the first `n` rows in order to zero
/// comes to; a row without a cosine adds nothing.
pub open spec fn cosine_chain<C: Fn(CosineParts) -> u64, P: Fn(u64, u64) -> u64>(
    cosine: C,
    plus: P,
    cosines: Seq<Option<CosineParts>>,
    n: nat,
    acc: u64,
) -> bool
    decreases n,
{
    if n == 0 {
        acc == 0
    } else {
        match cosines[n - 1] {
            None => cosine_chain(cosine, plus, cosines, (n - 1) as nat, acc),
            Some(parts) => exists|before: u64, term: u64|
                {
                    &&& cosine_chain(cosine, plus, cosines, (n - 1) as nat, before)
                    &&& call_ensures(cosine, (parts,), term)
                    &&& #[trigger] call_ensures(plus, (before, term), acc)
                },
        }
    }
}

/// Every element of `scaled` is `factor` times that of `row`.
pub open spec fn multiple(row: Seq<i8>, factor: int, scaled: Seq<i8>) -> bool {
    &&& scaled.len() == row.len()
    &&& forall|i: int| 0 <= i < row.len() ==> #[trigger] scaled[i] == factor * row[i]
}

proof fn lemma_scaled_dot(
    a: Seq<i8>,
    b: Seq<i8>,
    s: int,
    t: int,
    scaled_a: Seq<i8>,
    scaled_b: Seq<i8>,
    n: nat,
)
    requires
        n <= a.len() == b.len(),
        multiple(a, s, scaled_a),
        multiple(b, t, scaled_b),
    ensures
        kernels::dot_prefix(scaled_a, scaled_b, n) == s * t * kernels::dot_prefix(a, b, n),
    decreases n,
{
    if n == 0 {
        assert(s * t * 0 == 0) by (nonlinear_arith);
    } else {
        lemma_scaled_dot(a, b, s, t, scaled_a, scaled_b, (n - 1) as nat);
        let (x, y) = (a[n - 1] as int, b[n - 1] as int);
        let (u, v) = (scaled_a[n - 1] as int, scaled_b[n - 1] as int);
        let before = kernels::dot_prefix(a, b, (n - 1) as nat);
        assert(s * t * before + u * v == s * t * (before + x * y)) by (nonlinear_arith)
            requires
                u == s * x,
                v == t * y,
        ;
    }
}

/// Scaling rows by positive factors keeps their cosine: numerator and
/// denominator of its square grow by the same factor, and its sign stays.
pub proof fn law_cosine_is_scale_invariant(
    c: Seq<i8>,
    v: Seq<i8>,
    s: int,
    t: int,
    scaled_c: Seq<i8>,
    scaled_v: Seq<i8>,
)
    requires
        c.len() == v.len(),
        s > 0,
        t > 0,
        multiple(c, s, scaled_c),
        multiple(v, t, scaled_v),
    ensures
        kernels::dot(scaled_c, scaled_v) == s * t * kernels::dot(c, v),
        kernels::dot(scaled_c, scaled_c) * kernels::dot(scaled_v, scaled_v) == (s * t) * (s * t) * (
        kernels::dot(c, c) * kernels::dot(v, v)),
        s * t > 0,
{
    lemma_scaled_dot(c, v, s, t, scaled_c, scaled_v, c.len());
    lemma_scaled_dot(c, c, s, s, scaled_c, scaled_c, c.len());
    lemma_scaled_dot(v, v, t, t, scaled_v, scaled_v, v.len());
    let (cc, vv) = (kernels::dot(c, c), kernels::dot(v, v));
    assert((s * s * cc) * (t * t * vv) == (s * t) * (s * t) * (cc * vv) && s * t > 0)
        by (nonlinear_arith)
        requires
            s > 0,
            t > 0,
    ;
}

/// Codes compared with themselves differ nowhere.
pub proof fn law_equal_codes_have_no_difference(codes: Seq<u8>, len: nat, n: nat)
    ensures
        total_distance(codes, codes, len, n) == 0,
        identical_rows(codes, codes, len, n) == n,
        worst_distance(codes, codes, len, n) == 0,
    decreases n,
{
    if n > 0 {
        law_equal_codes_have_no_difference(codes, len, (n - 1) as nat);
        let row = row_of(codes, len, n - 1);
        kernels::laws::law_zero_distance(row, row, 8 * row.len());
    }
}

/// Dot product of two rows in an accumulator that holds any of them.
fn wide_dot(a: &[i8], b: &[i8]) -> (r: i128)
    requires
        a@.len() == b@.len(),
    ensures
        r == kernels::dot(a@, b@),
{
    let mut acc: i128 = 0;
    let mut i: usize = 0;
    while i < a.len()
        invariant
            i <= a@.len() == b@.len(),
            acc == kernels::dot_prefix(a@, b@, i as nat),
            -16384 * i <= acc <= 16384 * i,
        decreases a@.len() - i,
    {
        let (x, y): (i128, i128) = (a[i] as i128, b[i] as i128);
        assert(-16384 <= x * y <= 16384) by (nonlinear_arith)
            requires
                -128 <= x <= 127,
                -128 <= y <= 127,
        ;
        acc = acc + x * y;
        i += 1;
    }
    acc
}

/// Comparison of client-side int8 codes with a provider's int8 codes.
#[derive(Debug)]
pub struct Int8Parity {
    pub vectors: usize,
    /// Dimensions per vector.
    pub dim: usize,
    /// Number of elements exactly equal.
    pub exact: usize,
    /// Sum of `|client - voyage|` in code units.
    pub abs_sum: u128,
    pub max_abs_diff: i32,
    /// Per row, what its cosine similarity is made of.
    pub cosines: Vec<Option<CosineParts>>,
}

impl Int8Parity {
    /// Fraction of elements exactly equal; 1 without vectors.
    pub fn elem_exact_rate(&self) -> (r: Ratio)
        requires
            self.dim > 0,
        ensures
            r.wf(),
            self.vectors == 0 ==> r == (Ratio { numerator: 1, denominator: 1 }),
            self.vectors > 0 ==> r.numerator == self.exact && r.denominator == self.vectors
                * self.dim,
    {
        if self.vectors == 0 {
            Ratio { numerator: 1, denominator: 1 }
        } else {
            let (v, d): (u128, u128) = (self.vectors as u128, self.dim as u128);
            assert(0 < v * d <= 0xFFFF_FFFF_FFFF_FFFF * 0xFFFF_FFFF_FFFF_FFFF) by (nonlinear_arith)
                requires
                    0 < v <= 0xFFFF_FFFF_FFFF_FFFF,
                    0 < d <= 0xFFFF_FFFF_FFFF_FFFF,
            ;
            Ratio { numerator: self.exact as u128, denominator: v * d }
        }
    }

    /// Mean `|client - voyage|` in code units; 0 without vectors.
    pub fn mean_abs_diff(&self) -> (r: Ratio)
        requires
            self.dim > 0,
        ensures
            r.wf(),
            self.vectors == 0 ==> r == (Ratio { numerator: 0, denominator: 1 }),
            self.vectors > 0 ==> r.numerator == self.abs_sum && r.denominator == self.vectors
                * self.dim,
    {
        if self.vectors == 0 {
            Ratio { numerator: 0, denominator: 1 }
        } else {
            let (v, d): (u128, u128) = (self.vectors as u128, self.dim as u128);
            assert(0 < v * d <= 0xFFFF_FFFF_FFFF_FFFF * 0xFFFF_FFFF_FFFF_FFFF) by (nonlinear_arith)
                requires
                    0 < v <= 0xFFFF_FFFF_FFFF_FFFF,
                    0 < d <= 0xFFFF_FFFF_FFFF_FFFF,
            ;
            Ratio { numerator: self.abs_sum, denominator: v * d }
        }
    }

    /// Mean cosine similarity of the rows in double precision, given the
    /// cosine of its parts, addition, and the division of a sum by a count.
    /// Without vectors it is 1.
    pub fn mean_cos_sim<
        C: Fn(CosineParts) -> u64,
        P: Fn(u64, u64) -> u64,
        M: Fn(u64, usize) -> u64,
    >(&self, cosine: &C, plus: &P, mean: &M) -> (r: u64)
        requires
            self.cosines@.len() == self.vectors,
            forall|parts: CosineParts| call_requires(*cosine, (parts,)),
            forall|x: u64, y: u64| call_requires(*plus, (x, y)),
            forall|sum: u64, count: usize| count > 0 ==> call_requires(*mean, (sum, count)),
        ensures
            self.vectors == 0 ==> r == ieee::ONE_64,
            self.vectors > 0 ==> exists|sum: u64|
                cosine_chain(*cosine, *plus, self.cosines@, self.vectors as nat, sum)
                    && #[trigger] call_ensures(*mean, (sum, self.vectors), r),
    {
        if self.vectors == 0 {
            return ieee::ONE_64;
        }
        let mut sum: u64 = 0;
        let mut i: usize = 0;
        while i < self.vectors
            invariant
                i <= self.vectors == self.cosines@.len(),
                forall|parts: CosineParts| call_requires(*cosine, (parts,)),
                forall|x: u64, y: u64| call_requires(*plus, (x, y)),
                cosine_chain(*cosine, *plus, self.cosines@, i as nat, sum),
            decreases self.vectors - i,
        {
            if let Some(parts) = self.cosines[i] {
                let term: u64 = cosine(parts);
                let next: u64 = plus(sum, term);
                assert(call_ensures(*plus, (sum, term), next));
                sum = next;
            }
            i += 1;
        }
        mean(sum, self.vectors)
    }
}

/// Compares client int8 rows (with their per-row scales) with a provider's
/// int8 rows. The provider publishes no scale, so agreement is reported in
/// code units and as the parts of a scale-invariant cosine; `client_scales`
/// only has to hold one scale per row.
pub fn int8_parity(client: &[i8], client_scales: &[u32], voyage: &[i8], dim: usize) -> (r:
    Int8Parity)
    requires
        dim > 0,
        client@.len() == voyage@.len(),
        client@.len() % dim as nat == 0,
        client_scales@.len() == client@.len() / dim as nat,
    ensures
        r.dim == dim,
        r.vectors == client@.len() / dim as nat,
        r.exact == equal_elements(client@, voyage@, client@.len()),
        r.abs_sum == gap_sum(client@, voyage@, client@.len()),
        r.max_abs_diff == gap_max(client@, voyage@, client@.len()),
        r.cosines@.len() == r.vectors,
        forall|i: int|
            0 <= i < r.vectors ==> #[trigger] r.cosines@[i] == cosine_parts(
                row_of(client@, dim as nat, i),
                row_of(voyage@, dim as nat, i),
            ),
{
    let total: usize = client.len();
    let vectors: usize = total / dim;
    let mut exact: usize = 0;
    let mut abs_sum: u128 = 0;
    let mut max_abs: i32 = 0;
    let mut i: usize = 0;
    while i < client.len()
        invariant
            i <= client@.len() == voyage@.len(),
            exact == equal_elements(client@, voyage@, i as nat),
            exact <= i,
            abs_sum == gap_sum(client@, voyage@, i as nat),
            abs_sum <= 255 * i,
            max_abs == gap_max(client@, voyage@, i as nat),
            0 <= max_abs <= 255,
        decreases client@.len() - i,
    {
        let (x, y): (i32, i32) = (client[i] as i32, voyage[i] as i32);
        let d: i32 = if x >= y {
            x - y
        } else {
            y - x
        };
        if d == 0 {
            exact += 1;
        }
        abs_sum = abs_sum + d as u128;
        if d > max_abs {
            max_abs = d;
        }
        i += 1;
    }
    let mut cosines: Vec<Option<CosineParts>> = Vec::new();
    let mut k: usize = 0;
    while k < vectors
        invariant
            k <= vectors,
            dim > 0,
            total == client@.len(),
            vectors == client@.len() / dim as nat,
            client@.len() == voyage@.len(),
            cosines@.len() == k,
            forall|i: int|
                0 <= i < k ==> #[trigger] cosines@[i] == cosine_parts(
                    row_of(client@, dim as nat, i),
                    row_of(voyage@, dim as nat, i),
                ),
        decreases vectors - k,
    {
        proof {
            lemma_row_in_block(client@.len(), dim as nat, k as nat);
        }
        let start: usize = k * dim;
        let c: &[i8] = &client[start..start + dim];
        let v: &[i8] = &voyage[start..start + dim];
        let client_norm: i128 = wide_dot(c, c);
        let voyage_norm: i128 = wide_dot(v, v);
        if client_norm > 0 && voyage_norm > 0 {
            cosines.push(Some(CosineParts { dot: wide_dot(c, v), client_norm, voyage_norm }));
        } else {
            cosines.push(None);
        }
        k += 1;
    }
    Int8Parity { vectors, dim, exact, abs_sum, max_abs_diff: max_abs, cosines }
}

/// The difference of two codes is their distance on the number line: added to
/// the smaller one it gives the larger.
pub proof fn law_difference_is_distance(x: i8, y: i8)
    ensures
        x <= y ==> x + gap(x, y) == y,
        y <= x ==> y + gap(x, y) == x,
        gap(x, y) == 0 <==> x == y,
{
}

/// No pair of codes is further apart than the greatest difference, and one is
/// as far.
pub proof fn law_greatest_difference(a: Seq<i8>, b: Seq<i8>, n: nat)
    requires
        n <= a.len() == b.len(),
    ensures
        forall|i: int|
            0 <= i < n ==> -gap_max(a, b, n) <= #[trigger] a[i] - #[trigger] b[i] <= gap_max(
                a,
                b,
                n,
            ),
        n > 0 ==> exists|i: int|
            0 <= i < n && (#[trigger] a[i] - #[trigger] b[i] == gap_max(a, b, n) || b[i] - a[i]
                == gap_max(a, b, n)),
        gap_max(a, b, n) <= 255,
    decreases n,
{
    if n > 0 {
        law_greatest_difference(a, b, (n - 1) as nat);
        law_difference_is_distance(a[n - 1], b[n - 1]);
        let (now, before) = (gap_max(a, b, n), gap_max(a, b, (n - 1) as nat));
        if now == before && n > 1 {
            let i = choose|i: int|
                0 <= i < n - 1 && (#[trigger] a[i] - #[trigger] b[i] == before || b[i] - a[i]
                    == before);
            assert(a[i] - b[i] == now || b[i] - a[i] == now);
        } else {
            assert(a[n - 1] - b[n - 1] == now || b[n - 1] - a[n - 1] == now);
        }
    }
}

/// Each pair of codes adds its distance to the sum of differences and, where
/// it agrees, one to the number of exact elements.
pub proof fn law_each_pair_counts_once(a: Seq<i8>, b: Seq<i8>, x: i8, y: i8)
    requires
        a.len() == b.len(),
    ensures
        gap_sum(a.push(x), b.push(y), a.len() + 1) == gap_sum(a, b, a.len()) + if x > y {
            x - y
        } else {
            y - x
        },
        equal_elements(a.push(x), b.push(y), a.len() + 1) == equal_elements(a, b, a.len()) + if x
            == y {
            1int
        } else {
            0int
        },
{
    lemma_same_front(a, b, a.push(x), b.push(y), a.len());
    law_difference_is_distance(x, y);
}

proof fn lemma_same_front(a: Seq<i8>, b: Seq<i8>, c: Seq<i8>, d: Seq<i8>, n: nat)
    requires
        n <= a.len() == b.len(),
        n <= c.len() == d.len(),
        forall|i: int| 0 <= i < n ==> a[i] == #[trigger] c[i],
        forall|i: int| 0 <= i < n ==> b[i] == #[trigger] d[i],
    ensures
        gap_sum(a, b, n) == gap_sum(c, d, n),
        equal_elements(a, b, n) == equal_elements(c, d, n),
    decreases n,
{
    if n > 0 {
        lemma_same_front(a, b, c, d, (n - 1) as nat);
        assert(a[n - 1] == c[n - 1] && b[n - 1] == d[n - 1]);
    }
}

/// The mean difference is zero, the greatest difference is zero and every
/// element is exact in the same case only: where all codes agree.
pub proof fn law_no_difference_means_equal(a: Seq<i8>, b: Seq<i8>)
    requires
        a.len() == b.len(),
    ensures
        gap_sum(a, b, a.len()) == 0 <==> a == b,
        gap_max(a, b, a.len()) == 0 <==> a == b,
        equal_elements(a, b, a.len()) == a.len() <==> a == b,
        equal_elements(a, b, a.len()) <= a.len(),
{
    lemma_no_difference(a, b, a.len());
    if forall|i: int| 0 <= i < a.len() ==> #[trigger] a[i] == b[i] {
        assert(a =~= b);
    }
}

proof fn lemma_no_difference(a: Seq<i8>, b: Seq<i8>, n: nat)
    requires
        n <= a.len() == b.len(),
    ensures
        gap_sum(a, b, n) == 0 <==> forall|i: int| 0 <= i < n ==> #[trigger] a[i] == b[i],
        gap_max(a, b, n) == 0 <==> forall|i: int| 0 <= i < n ==> #[trigger] a[i] == b[i],
        equal_elements(a, b, n) == n <==> forall|i: int| 0 <= i < n ==> #[trigger] a[i] == b[i],
        equal_elements(a, b, n) <= n,
    decreases n,
{
    if n > 0 {
        lemma_no_difference(a, b, (n - 1) as nat);
        law_difference_is_distance(a[n - 1], b[n - 1]);
        if a[n - 1] == b[n - 1] {
            if forall|i: int| 0 <= i < n - 1 ==> #[trigger] a[i] == b[i] {
                assert forall|i: int| 0 <= i < n implies #[trigger] a[i] == b[i] by {}
            }
        }
    }
}

/// The sum of differences bounds the difference of the sums of codes, reached
/// where one block is nowhere above the other.
pub proof fn law_one_sided_differences_add_up(a: Seq<i8>, b: Seq<i8>, n: nat)
    requires
        n <= a.len() == b.len(),
        forall|i: int| 0 <= i < n ==> #[trigger] a[i] <= b[i],
    ensures
        gap_sum(a, b, n) == code_sum(b, n) - code_sum(a, n),
        gap_sum(b, a, n) == code_sum(b, n) - code_sum(a, n),
    decreases n,
{
    if n > 0 {
        law_one_sided_differences_add_up(a, b, (n - 1) as nat);
        assert(a[n - 1] <= b[n - 1]);
    }
}

/// The sum of the first `n` codes.
pub open spec fn code_sum(a: Seq<i8>, n: nat) -> int
    decreases n,
{
    if n == 0 {
        0
    } else {
        code_sum(a, (n - 1) as nat) + a[n - 1]
    }
}

/// Rows that agree are counted, and only those: a row of no distance is one
/// whose bytes are equal.
pub proof fn law_identical_rows_are_equal(a: Seq<u8>, b: Seq<u8>, len: nat, n: nat)
    requires
        a.len() == b.len(),
        n * len <= a.len(),
    ensures
        identical_rows(a, b, len, n) <= n,
        identical_rows(a, b, len, n) == n <==> forall|i: int|
            0 <= i < n ==> #[trigger] row_of(a, len, i) == row_of(b, len, i),
        total_distance(a, b, len, n) == 0 <==> forall|i: int|
            0 <= i < n ==> #[trigger] row_of(a, len, i) == row_of(b, len, i),
    decreases n,
{
    if n > 0 {
        let m = (n - 1) as nat;
        assert(m * len <= n * len && n * len == m * len + len) by (nonlinear_arith)
            requires
                n == m + 1,
        ;
        law_identical_rows_are_equal(a, b, len, m);
        let (x, y) = (row_of(a, len, n - 1), row_of(b, len, n - 1));
        assert(x.len() == y.len());
        kernels::laws::law_zero_distance_means_equal(x, y);
        if x == y {
            if forall|i: int| 0 <= i < m ==> #[trigger] row_of(a, len, i) == row_of(b, len, i) {
                assert forall|i: int| 0 <= i < n implies #[trigger] row_of(a, len, i) == row_of(
                    b,
                    len,
                    i,
                ) by {}
            }
        }
    }
}

/// No row differs in more bits than the worst, one differs in as many, and the
/// worst is no more than the whole.
pub proof fn law_worst_row(a: Seq<u8>, b: Seq<u8>, len: nat, n: nat)
    ensures
        forall|i: int|
            0 <= i < n ==> #[trigger] kernels::distance(row_of(a, len, i), row_of(b, len, i))
                <= worst_distance(a, b, len, n),
        n > 0 ==> exists|i: int|
            0 <= i < n && #[trigger] kernels::distance(row_of(a, len, i), row_of(b, len, i))
                == worst_distance(a, b, len, n),
        worst_distance(a, b, len, n) <= total_distance(a, b, len, n) <= n * worst_distance(
            a,
            b,
            len,
            n,
        ),
    decreases n,
{
    if n == 0 {
        assert(0 * worst_distance(a, b, len, 0) == 0);
    } else {
        let m = (n - 1) as nat;
        law_worst_row(a, b, len, m);
        let (now, before) = (worst_distance(a, b, len, n), worst_distance(a, b, len, m));
        let here = row_distance(a, b, len, n - 1);
        assert(here == kernels::distance(row_of(a, len, n - 1), row_of(b, len, n - 1)));
        assert(m * before + here <= n * now) by (nonlinear_arith)
            requires
                before <= now,
                here <= now,
                n == m + 1,
        ;
        if now == before && m > 0 {
            let i = choose|i: int|
                0 <= i < m && #[trigger] kernels::distance(row_of(a, len, i), row_of(b, len, i))
                    == before;
            assert(kernels::distance(row_of(a, len, i), row_of(b, len, i)) == now);
        }
    }
}

/// What int8 parity reports of two blocks of codes: the greatest difference is
/// the greatest distance of two codes on the number line, a mean difference of
/// zero and an exact rate of one mean that all codes agree, and the cosine of a
/// row is made of the row's own products.
pub proof fn law_int8_parity(
    client: &[i8],
    scales: &[u32],
    voyage: &[i8],
    dim: usize,
    p: Int8Parity,
    mean: Ratio,
    rate: Ratio,
)
    requires
        dim > 0,
        client@.len() == voyage@.len(),
        client@.len() % dim as nat == 0,
        client@.len() > 0,
        call_ensures(int8_parity, (client, scales, voyage, dim), p),
        call_ensures(Int8Parity::mean_abs_diff, (&p,), mean),
        call_ensures(Int8Parity::elem_exact_rate, (&p,), rate),
    ensures
        p.vectors * dim == client@.len(),
        forall|i: int|
            0 <= i < client@.len() ==> -p.max_abs_diff <= #[trigger] client@[i]
                - #[trigger] voyage@[i] <= p.max_abs_diff,
        exists|i: int|
            0 <= i < client@.len() && (#[trigger] client@[i] - #[trigger] voyage@[i]
                == p.max_abs_diff || voyage@[i] - client@[i] == p.max_abs_diff),
        mean.denominator == client@.len(),
        mean.numerator == 0 <==> client@ == voyage@,
        p.max_abs_diff <= mean.numerator <= client@.len() * p.max_abs_diff,
        rate.denominator == client@.len(),
        rate.numerator == client@.len() <==> client@ == voyage@,
        forall|i: int|
            0 <= i < p.vectors ==> match #[trigger] p.cosines@[i] {
                Some(parts) => {
                    let (c, v) = (
                        client@.subrange(i * dim, i * dim + dim),
                        voyage@.subrange(i * dim, i * dim + dim),
                    );
                    &&& parts.dot == kernels::dot(c, v)
                    &&& parts.client_norm == kernels::dot(c, c) > 0
                    &&& parts.voyage_norm == kernels::dot(v, v) > 0
                },
                None => {
                    ||| forall|j: int| i * dim <= j < i * dim + dim ==> #[trigger] client@[j] == 0
                    ||| forall|j: int| i * dim <= j < i * dim + dim ==> #[trigger] voyage@[j] == 0
                },
            },
{
    let n = client@.len();
    law_no_difference_means_equal(client@, voyage@);
    law_greatest_difference(client@, voyage@, n);
    lemma_sum_of_gaps(client@, voyage@, n);
    vstd::arithmetic::div_mod::lemma_fundamental_div_mod(n as int, dim as int);
    let v = p.vectors as int;
    assert(v * dim == dim * v) by (nonlinear_arith);
    assert(v > 0) by {
        if v == 0 {
            assert(dim * v == 0) by (nonlinear_arith)
                requires
                    v == 0,
            ;
        }
    }
    assert forall|i: int| 0 <= i < p.vectors implies match #[trigger] p.cosines@[i] {
        Some(parts) => {
            let (c, v) = (
                client@.subrange(i * dim, i * dim + dim),
                voyage@.subrange(i * dim, i * dim + dim),
            );
            &&& parts.dot == kernels::dot(c, v)
            &&& parts.client_norm == kernels::dot(c, c) > 0
            &&& parts.voyage_norm == kernels::dot(v, v) > 0
        },
        None => {
            ||| forall|j: int| i * dim <= j < i * dim + dim ==> #[trigger] client@[j] == 0
            ||| forall|j: int| i * dim <= j < i * dim + dim ==> #[trigger] voyage@[j] == 0
        },
    } by {
        let (c, w) = (row_of(client@, dim as nat, i), row_of(voyage@, dim as nat, i));
        assert(p.cosines@[i] == cosine_parts(c, w));
        lemma_row_in_block(n, dim as nat, i as nat);
        assert((i + 1) * dim == i * dim + dim) by (nonlinear_arith);
        lemma_norm_fits(c, dim as nat);
        lemma_norm_fits(w, dim as nat);
        lemma_dot_fits(c, w, dim as nat);
        if p.cosines@[i] is None {
            if kernels::dot(c, c) == 0 {
                assert forall|j: int| i * dim <= j < i * dim + dim implies #[trigger] client@[j]
                    == 0 by {
                    assert(c[j - i * dim] == client@[j]);
                }
            } else {
                assert forall|j: int| i * dim <= j < i * dim + dim implies #[trigger] voyage@[j]
                    == 0 by {
                    assert(w[j - i * dim] == voyage@[j]);
                }
            }
        }
    }
}

/// A dot product fits a 128-bit integer.
proof fn lemma_dot_fits(c: Seq<i8>, v: Seq<i8>, n: nat)
    ensures
        -16384 * n <= kernels::dot_prefix(c, v, n) <= 16384 * n,
    decreases n,
{
    if n > 0 {
        lemma_dot_fits(c, v, (n - 1) as nat);
        let (x, y) = (c[n - 1] as int, v[n - 1] as int);
        assert(-16384 <= x * y <= 16384) by (nonlinear_arith)
            requires
                -128 <= x <= 127,
                -128 <= y <= 127,
        ;
    }
}

/// A square norm fits a 128-bit integer, and is zero for zeros only.
proof fn lemma_norm_fits(c: Seq<i8>, n: nat)
    requires
        n <= c.len(),
        n <= usize::MAX,
    ensures
        0 <= kernels::dot_prefix(c, c, n) <= 16384 * n,
        kernels::dot_prefix(c, c, n) == 0 ==> forall|i: int| 0 <= i < n ==> #[trigger] c[i] == 0,
    decreases n,
{
    if n > 0 {
        lemma_norm_fits(c, (n - 1) as nat);
        let x = c[n - 1] as int;
        assert(0 <= x * x <= 16384 && (x * x == 0 ==> x == 0)) by (nonlinear_arith)
            requires
                -128 <= x <= 127,
        ;
    }
}

proof fn lemma_sum_of_gaps(a: Seq<i8>, b: Seq<i8>, n: nat)
    ensures
        gap_max(a, b, n) <= gap_sum(a, b, n) <= n * gap_max(a, b, n),
    decreases n,
{
    if n == 0 {
        assert(0 * gap_max(a, b, 0) == 0);
    } else {
        let m = (n - 1) as nat;
        lemma_sum_of_gaps(a, b, m);
        let (now, before, here) = (gap_max(a, b, n), gap_max(a, b, m), gap(a[n - 1], b[n - 1]));
        assert(m * before + here <= n * now) by (nonlinear_arith)
            requires
                before <= now,
                here <= now,
                n == m + 1,
        ;
    }
}

/// Appending one more row of one pair of codes adds its distance to the sum of
/// differences, and one to the exact elements where the two agree.
pub proof fn law_int8_parity_counts_each_pair(
    client: &[i8],
    scales: &[u32],
    voyage: &[i8],
    longer_client: &[i8],
    longer_scales: &[u32],
    longer_voyage: &[i8],
    x: i8,
    y: i8,
    p: Int8Parity,
    q: Int8Parity,
)
    requires
        client@.len() == voyage@.len(),
        longer_client@ == client@.push(x),
        longer_voyage@ == voyage@.push(y),
        call_ensures(int8_parity, (client, scales, voyage, 1usize), p),
        call_ensures(int8_parity, (longer_client, longer_scales, longer_voyage, 1usize), q),
    ensures
        x >= y ==> q.abs_sum - p.abs_sum == x - y,
        x <= y ==> q.abs_sum - p.abs_sum == y - x,
        q.exact - p.exact == (if x == y {
            1int
        } else {
            0int
        }),
        client@.len() == 0 ==> p.abs_sum == 0 && p.exact == 0,
{
    law_each_pair_counts_once(client@, voyage@, x, y);
}

/// What binary parity reports of two blocks of packed codes: no bit differs and
/// every row is identical in the same case only, where the blocks are equal;
/// the rates are over all bits and all rows; the worst row is one of the rows.
pub proof fn law_binary_parity(
    client: &[u8],
    voyage: &[u8],
    dim: usize,
    p: BinaryParity,
    bits: Ratio,
    identical: Ratio,
)
    requires
        dim > 0,
        client@.len() == voyage@.len(),
        client@.len() % kernels::code_len(dim as nat) == 0,
        client@.len() > 0,
        call_ensures(binary_parity, (client, voyage, dim), p),
        call_ensures(BinaryParity::bit_mismatch_rate, (&p,), bits),
        call_ensures(BinaryParity::identical_vector_rate, (&p,), identical),
    ensures
        p.vectors * ((dim + 7) / 8) == client@.len(),
        bits.denominator == p.vectors * dim,
        bits.numerator == 0 <==> client@ == voyage@,
        identical.denominator == p.vectors,
        identical.numerator == p.vectors <==> client@ == voyage@,
        p.max_row_mismatch <= bits.numerator <= p.vectors * p.max_row_mismatch,
        forall|i: int|
            0 <= i < p.vectors ==> #[trigger] kernels::distance(
                row_of(client@, kernels::code_len(dim as nat), i),
                row_of(voyage@, kernels::code_len(dim as nat), i),
            ) <= p.max_row_mismatch,
{
    let len = kernels::code_len(dim as nat);
    let n = client@.len();
    let v = p.vectors as nat;
    vstd::arithmetic::div_mod::lemma_fundamental_div_mod(n as int, len as int);
    assert(v * len == n) by (nonlinear_arith)
        requires
            n == len * v,
    ;
    assert(v > 0) by {
        if v == 0 {
            assert(v * len == 0) by (nonlinear_arith)
                requires
                    v == 0,
            ;
        }
    }
    law_worst_row(client@, voyage@, len, v);
    law_identical_rows_are_equal(client@, voyage@, len, v);
    lemma_rows_make_block(client@, voyage@, len, v);
}

/// Blocks whose rows are all equal are equal.
proof fn lemma_rows_make_block(a: Seq<u8>, b: Seq<u8>, len: nat, n: nat)
    requires
        len > 0,
        a.len() == b.len() == n * len,
    ensures
        (forall|i: int| 0 <= i < n ==> #[trigger] row_of(a, len, i) == row_of(b, len, i)) <==> a
            == b,
{
    if forall|i: int| 0 <= i < n ==> #[trigger] row_of(a, len, i) == row_of(b, len, i) {
        assert forall|j: int| 0 <= j < a.len() implies a[j] == b[j] by {
            let (i, t) = (j / len as int, j % len as int);
            vstd::arithmetic::div_mod::lemma_fundamental_div_mod(j, len as int);
            assert(0 <= i < n && i * len == len * i && (i + 1) * len <= n * len && (i + 1) * len == i
                * len + len) by (nonlinear_arith)
                requires
                    j == len * i + t,
                    0 <= t < len,
                    0 <= j < n * len,
                    len > 0,
            ;
            assert(row_of(a, len, i)[t] == a[j]);
            assert(row_of(b, len, i)[t] == b[j]);
        }
        assert(a =~= b);
    }
}

/// The first rows of two blocks do not depend on what follows them.
proof fn lemma_rows_before(
    a: Seq<u8>,
    b: Seq<u8>,
    c: Seq<u8>,
    d: Seq<u8>,
    len: nat,
    n: nat,
)
    requires
        a.len() == b.len(),
        n * len <= a.len(),
    ensures
        total_distance(a, b, len, n) == total_distance(a + c, b + d, len, n),
        identical_rows(a, b, len, n) == identical_rows(a + c, b + d, len, n),
        worst_distance(a, b, len, n) == worst_distance(a + c, b + d, len, n),
    decreases n,
{
    if n > 0 {
        let m = (n - 1) as nat;
        assert(0 <= m * len && n * len == m * len + len && m * len <= n * len) by (nonlinear_arith)
            requires
                n == m + 1,
        ;
        lemma_rows_before(a, b, c, d, len, m);
        assert(row_of(a + c, len, n - 1) =~= row_of(a, len, n - 1));
        assert(row_of(b + d, len, n - 1) =~= row_of(b, len, n - 1));
    }
}

/// What one more row adds to binary parity: its Hamming distance to the
/// differing bits, itself to the identical rows where nothing differs, and the
/// worst row is the worse of the two. Without rows all are zero.
pub proof fn law_binary_parity_counts_each_row(
    client: &[u8],
    voyage: &[u8],
    row: &[u8],
    other: &[u8],
    longer_client: &[u8],
    longer_voyage: &[u8],
    dim: usize,
    distance: u32,
    p: BinaryParity,
    q: BinaryParity,
)
    requires
        dim > 0,
        client@.len() == voyage@.len(),
        client@.len() % kernels::code_len(dim as nat) == 0,
        row@.len() == kernels::code_len(dim as nat),
        other@.len() == kernels::code_len(dim as nat),
        longer_client@ == client@ + row@,
        longer_voyage@ == voyage@ + other@,
        call_ensures(kernels::hamming, (row, other), distance),
        call_ensures(binary_parity, (client, voyage, dim), p),
        call_ensures(binary_parity, (longer_client, longer_voyage, dim), q),
    ensures
        q.vectors == p.vectors + 1,
        q.diff_bits == p.diff_bits + distance,
        q.identical == p.identical + (if row@ == other@ {
            1int
        } else {
            0int
        }),
        q.max_row_mismatch == (if distance > p.max_row_mismatch {
            distance
        } else {
            p.max_row_mismatch
        }),
        client@.len() == 0 ==> p.vectors == 0 && p.diff_bits == 0 && p.identical == 0
            && p.max_row_mismatch == 0,
{
    let len = kernels::code_len(dim as nat);
    let n = client@.len() / len;
    vstd::arithmetic::div_mod::lemma_fundamental_div_mod(client@.len() as int, len as int);
    assert(n * len == client@.len()) by (nonlinear_arith)
        requires
            client@.len() == len * n,
    ;
    assert((n + 1) * len == n * len + len) by (nonlinear_arith);
    vstd::arithmetic::div_mod::lemma_div_multiples_vanish((n + 1) as int, len as int);
    assert(((n + 1) * len) as nat / len == n + 1) by {
        assert((n + 1) as int * len as int == len as int * (n + 1) as int) by (nonlinear_arith);
    }
    lemma_rows_before(client@, voyage@, row@, other@, len, n);
    assert(row_of(longer_client@, len, n as int) =~= row@);
    assert(row_of(longer_voyage@, len, n as int) =~= other@);
    kernels::laws::law_zero_distance_means_equal(row@, other@);
}

/// The cosines of the first rows, added one after another to zero.
pub open spec fn cosines_added(
    cosine: spec_fn(CosineParts) -> u64,
    plus: spec_fn(u64, u64) -> u64,
    cosines: Seq<Option<CosineParts>>,
) -> u64
    decreases cosines.len(),
{
    if cosines.len() == 0 {
        0
    } else {
        let before = cosines_added(cosine, plus, cosines.drop_last());
        match cosines.last() {
            Some(parts) => plus(before, cosine(parts)),
            None => before,
        }
    }
}

/// The mean cosine is the sum of all rows' cosines over the number of rows,
/// those without a cosine included; one where there are no rows.
pub proof fn law_mean_cosine<
    C: Fn(CosineParts) -> u64,
    P: Fn(u64, u64) -> u64,
    M: Fn(u64, usize) -> u64,
>(
    p: &Int8Parity,
    cosine: &C,
    plus: &P,
    mean: &M,
    one: spec_fn(CosineParts) -> u64,
    two: spec_fn(u64, u64) -> u64,
    over: spec_fn(u64, usize) -> u64,
    r: u64,
)
    requires
        p.cosines@.len() == p.vectors,
        forall|x: CosineParts, y: u64| #[trigger] call_ensures(*cosine, (x,), y) ==> y == one(x),
        forall|x: u64, y: u64, z: u64| #[trigger] call_ensures(*plus, (x, y), z) ==> z == two(x, y),
        forall|x: u64, n: usize, z: u64| #[trigger]
            call_ensures(*mean, (x, n), z) ==> z == over(x, n),
        call_ensures(Int8Parity::mean_cos_sim::<C, P, M>, (p, cosine, plus, mean), r),
    ensures
        p.vectors == 0 ==> r == ieee::ONE_64,
        p.vectors > 0 ==> r == over(cosines_added(one, two, p.cosines@), p.vectors),
{
    if p.vectors > 0 {
        let sum = choose|sum: u64|
            cosine_chain(*cosine, *plus, p.cosines@, p.vectors as nat, sum)
                && #[trigger] call_ensures(*mean, (sum, p.vectors), r);
        lemma_cosines_added(*cosine, *plus, one, two, p.cosines@, p.vectors as nat, sum);
        assert(p.cosines@.take(p.vectors as int) =~= p.cosines@);
    }
}

proof fn lemma_cosines_added<C: Fn(CosineParts) -> u64, P: Fn(u64, u64) -> u64>(
    cosine: C,
    plus: P,
    one: spec_fn(CosineParts) -> u64,
    two: spec_fn(u64, u64) -> u64,
    cosines: Seq<Option<CosineParts>>,
    n: nat,
    sum: u64,
)
    requires
        n <= cosines.len(),
        forall|x: CosineParts, y: u64| #[trigger] call_ensures(cosine, (x,), y) ==> y == one(x),
        forall|x: u64, y: u64, z: u64| #[trigger] call_ensures(plus, (x, y), z) ==> z == two(x, y),
        cosine_chain(cosine, plus, cosines, n, sum),
    ensures
        sum == cosines_added(one, two, cosines.take(n as int)),
    decreases n,
{
    if n > 0 {
        let m = (n - 1) as nat;
        assert(cosines.take(n as int).drop_last() =~= cosines.take(m as int));
        match cosines[n - 1] {
            None => {
                lemma_cosines_added(cosine, plus, one, two, cosines, m, sum);
            },
            Some(parts) => {
                let (before, term) = choose|before: u64, term: u64|
                    {
                        &&& cosine_chain(cosine, plus, cosines, m, before)
                        &&& call_ensures(cosine, (parts,), term)
                        &&& #[trigger] call_ensures(plus, (before, term), sum)
                    };
                lemma_cosines_added(cosine, plus, one, two, cosines, m, before);
            },
        }
    }
}

} // verus!
