//! What the hits of an evaluation are: the best of their candidates, by the
//! score of the representation that was asked for, computed from the data's
//! own rows and queries.

use vstd::prelude::*;
use crate::bitset::Bitset;
use crate::ieee;
use crate::kernels;
use crate::kernels::backend::Kernels;
use crate::recall::data::Data;
use crate::recall::eval::{self, Coarse, Store};
use crate::scan::hit::Hit;
use crate::scan::outcome;
use crate::scan::scorer::{self, Scorer};

verus! {

/// `score` is the single-precision dot of query `qi` with row `id`.
pub open spec fn single_score<D, B, T>(
    kern: Kernels<D, B, T>,
    data: &Data,
    qi: int,
    id: u32,
    score: u32,
) -> bool where
    D: Fn(&[u32], &[u32]) -> u32,
    B: Fn(&[u32], &[u8]) -> u32,
    T: Fn(u32, u32) -> u32,
 {
    exists|query: &[u32], row: &[u32]|
        query@ == data.q_f32@[qi]@ && row@ == data.f32s.matrix()[id as int]
            && #[trigger] call_ensures(kern.dot_f32, (query, row), score)
}

/// `score` is the dot of the int8 codes of query `qi` with those of row `id`,
/// times the product of the two scales.
pub open spec fn int8_score<D, B, T>(
    kern: Kernels<D, B, T>,
    data: &Data,
    qi: int,
    id: u32,
    score: u32,
) -> bool where
    D: Fn(&[u32], &[u32]) -> u32,
    B: Fn(&[u32], &[u8]) -> u32,
    T: Fn(u32, u32) -> u32,
 {
    exists|scale: u32, dot: u32|
        {
            &&& #[trigger] call_ensures(
                kern.times,
                (data.q_scales@[qi], data.i8s.row_scales()[id as int]),
                scale,
            )
            &&& ieee::nearest_int(
                dot,
                kernels::dot(data.q_i8@[qi]@, data.i8s.matrix()[id as int]),
            )
            &&& #[trigger] call_ensures(kern.times, (dot, scale), score)
        }
}

/// `score` is minus the number of sign bits in which query `qi` and row `id`
/// differ.
pub open spec fn bits_score(data: &Data, qi: int, id: u32, score: u32) -> bool {
    ieee::nearest_int(
        ieee::negated(score),
        kernels::distance(data.q_bits@[qi]@, data.bins.matrix()[id as int]) as int,
    )
}

/// `score` is the asymmetric dot of query `qi` in single precision with the
/// sign bits of row `id`.
pub open spec fn single_bits_score<D, B, T>(
    kern: Kernels<D, B, T>,
    data: &Data,
    qi: int,
    id: u32,
    score: u32,
) -> bool where
    D: Fn(&[u32], &[u32]) -> u32,
    B: Fn(&[u32], &[u8]) -> u32,
    T: Fn(u32, u32) -> u32,
 {
    exists|query: &[u32], row: &[u8]|
        query@ == data.q_f32@[qi]@ && row@ == data.bins.matrix()[id as int]
            && #[trigger] call_ensures(kern.dot_f32_bin, (query, row), score)
}

/// `score` is the asymmetric dot of query `qi` in int8 with the sign bits of
/// row `id`, times the query's scale.
pub open spec fn int8_bits_score<D, B, T>(
    kern: Kernels<D, B, T>,
    data: &Data,
    qi: int,
    id: u32,
    score: u32,
) -> bool where
    D: Fn(&[u32], &[u32]) -> u32,
    B: Fn(&[u32], &[u8]) -> u32,
    T: Fn(u32, u32) -> u32,
 {
    exists|dot: u32|
        {
            &&& ieee::nearest_int(
                dot,
                kernels::signed_sum(data.q_i8@[qi]@, data.bins.matrix()[id as int]),
            )
            &&& #[trigger] call_ensures(kern.times, (dot, data.q_scales@[qi]), score)
        }
}

/// The front of a pool: its first `factor * k` ids.
pub open spec fn front(pool: Seq<u32>, factor: int, k: int) -> Seq<u32> {
    pool.take(if factor * k < pool.len() {
        factor * k
    } else {
        pool.len() as int
    })
}

/// A rerank against the int8 store gives the best of the pool by the int8
/// score: the dot of the codes times both scales.
pub proof fn law_int8_rerank_scores_int8<D, B, T>(
    data: &Data,
    kern: &Kernels<D, B, T>,
    qi: usize,
    pool: &[u32],
    factor: usize,
    ks: &[usize],
    r: Vec<Vec<Hit>>,
    ki: int,
) where
    D: Fn(&[u32], &[u32]) -> u32,
    B: Fn(&[u32], &[u8]) -> u32,
    T: Fn(u32, u32) -> u32,

    requires
        call_ensures(
            eval::rerank_query::<D, B, T>,
            (data, kern, Store::I8, qi, pool, factor, ks),
            r,
        ),
        0 <= ki < ks@.len(),
    ensures
        outcome::best(
            |id: u32, score: u32| int8_score(*kern, data, qi as int, id, score),
            front(pool@, factor as int, ks@[ki] as int),
            ks@[ki] as nat,
            r@[ki]@,
        ),
{
    let part = eval::pool_part(pool@, factor as nat, ks@[ki] as nat);
    assert(eval::reranked(*kern, data, Store::I8, qi as int, part, ks@[ki] as nat, r@[ki]@));
    let s = choose|s: Scorer<'_>| #[trigger]
        Store::I8.kind().binds(data, qi as int, s) && s.selected(
            *kern,
            part,
            ks@[ki] as nat,
            r@[ki]@,
        );
    lemma_factor(factor, ks@[ki]);
    assert(part == front(pool@, factor as int, ks@[ki] as int));
    let score = |id: u32, score: u32| int8_score(*kern, data, qi as int, id, score);
    lemma_int8(*kern, data, qi as int, s);
    outcome::lemma_best(s, *kern, part, ks@[ki] as nat, r@[ki]@, score);
}

pub proof fn lemma_factor(factor: usize, k: usize)
    ensures
        0 <= factor * k,
{
    assert(0 <= factor * k) by (nonlinear_arith);
}

pub proof fn lemma_int8<D, B, T>(kern: Kernels<D, B, T>, data: &Data, qi: int, s: Scorer<'_>) where
    D: Fn(&[u32], &[u32]) -> u32,
    B: Fn(&[u32], &[u8]) -> u32,
    T: Fn(u32, u32) -> u32,

    requires
        Coarse::I8Sym.binds(data, qi, s),
    ensures
        forall|id: u32, x: u32| #[trigger]
            s.scores(kern, id, x) ==> int8_score(kern, data, qi, id, x),
{
    assert forall|id: u32, x: u32| #[trigger] s.scores(kern, id, x) implies int8_score(
        kern,
        data,
        qi,
        id,
        x,
    ) by {
        let (a, b) = (data.q_scales@[qi], data.i8s.row_scales()[id as int]);
        let n = kernels::dot(data.q_i8@[qi]@, data.i8s.matrix()[id as int]);
        let scale = choose|scale: u32| #[trigger]
            call_ensures(kern.times, (a, b), scale) && kernels::scaled_int(kern.times, n, scale, x);
        let dot = choose|dot: u32| #[trigger]
            ieee::nearest_int(dot, n) && call_ensures(kern.times, (dot, scale), x);
        assert(call_ensures(kern.times, (a, b), scale));
        assert(call_ensures(kern.times, (dot, scale), x));
    }
}

/// A rerank against the single-precision store gives the best of the pool by
/// the single-precision dot.
pub proof fn law_single_rerank_scores_single<D, B, T>(
    data: &Data,
    kern: &Kernels<D, B, T>,
    qi: usize,
    pool: &[u32],
    factor: usize,
    ks: &[usize],
    r: Vec<Vec<Hit>>,
    ki: int,
) where
    D: Fn(&[u32], &[u32]) -> u32,
    B: Fn(&[u32], &[u8]) -> u32,
    T: Fn(u32, u32) -> u32,

    requires
        call_ensures(
            eval::rerank_query::<D, B, T>,
            (data, kern, Store::F32, qi, pool, factor, ks),
            r,
        ),
        0 <= ki < ks@.len(),
    ensures
        outcome::best(
            |id: u32, score: u32| single_score(*kern, data, qi as int, id, score),
            front(pool@, factor as int, ks@[ki] as int),
            ks@[ki] as nat,
            r@[ki]@,
        ),
{
    let part = eval::pool_part(pool@, factor as nat, ks@[ki] as nat);
    assert(eval::reranked(*kern, data, Store::F32, qi as int, part, ks@[ki] as nat, r@[ki]@));
    let s = choose|s: Scorer<'_>| #[trigger]
        Store::F32.kind().binds(data, qi as int, s) && s.selected(
            *kern,
            part,
            ks@[ki] as nat,
            r@[ki]@,
        );
    lemma_factor(factor, ks@[ki]);
    assert(part == front(pool@, factor as int, ks@[ki] as int));
    let score = |id: u32, score: u32| single_score(*kern, data, qi as int, id, score);
    outcome::lemma_best(s, *kern, part, ks@[ki] as nat, r@[ki]@, score);
}

/// A scan in single precision gives the best rows by the single-precision dot.
pub proof fn law_control_scan_scores_single<D, B, T>(
    data: &Data,
    kern: &Kernels<D, B, T>,
    qi: usize,
    k: usize,
    filter: Option<&Bitset>,
    r: Vec<Hit>,
) where
    D: Fn(&[u32], &[u32]) -> u32,
    B: Fn(&[u32], &[u8]) -> u32,
    T: Fn(u32, u32) -> u32,

    requires
        data.rows() <= u32::MAX,
        call_ensures(
            eval::scan_query::<D, B, T>,
            (data, kern, Coarse::F32Control, qi, k, filter),
            r,
        ),
    ensures
        outcome::best_of_scan(
            |id: u32, score: u32| single_score(*kern, data, qi as int, id, score),
            filter,
            data.rows(),
            k as nat,
            r@,
        ),
{
    let (s, ids) = choose|s: Scorer<'_>, ids: Seq<u32>|
        {
            &&& #[trigger] Coarse::F32Control.binds(data, qi as int, s)
            &&& #[trigger] scorer::candidates(filter, data.rows(), ids)
            &&& s.selected(*kern, ids, k as nat, r@)
        };
    outcome::lemma_scanned(filter, data.rows(), ids);
    let score = |id: u32, score: u32| single_score(*kern, data, qi as int, id, score);
    outcome::lemma_best(s, *kern, ids, k as nat, r@, score);
}

/// A symmetric int8 scan gives the best rows by the int8 score.
pub proof fn law_int8_scan_scores_int8<D, B, T>(
    data: &Data,
    kern: &Kernels<D, B, T>,
    qi: usize,
    k: usize,
    filter: Option<&Bitset>,
    r: Vec<Hit>,
) where
    D: Fn(&[u32], &[u32]) -> u32,
    B: Fn(&[u32], &[u8]) -> u32,
    T: Fn(u32, u32) -> u32,

    requires
        data.rows() <= u32::MAX,
        call_ensures(
            eval::scan_query::<D, B, T>,
            (data, kern, Coarse::I8Sym, qi, k, filter),
            r,
        ),
    ensures
        outcome::best_of_scan(
            |id: u32, score: u32| int8_score(*kern, data, qi as int, id, score),
            filter,
            data.rows(),
            k as nat,
            r@,
        ),
{
    let (s, ids) = choose|s: Scorer<'_>, ids: Seq<u32>|
        {
            &&& #[trigger] Coarse::I8Sym.binds(data, qi as int, s)
            &&& #[trigger] scorer::candidates(filter, data.rows(), ids)
            &&& s.selected(*kern, ids, k as nat, r@)
        };
    outcome::lemma_scanned(filter, data.rows(), ids);
    let score = |id: u32, score: u32| int8_score(*kern, data, qi as int, id, score);
    lemma_int8(*kern, data, qi as int, s);
    outcome::lemma_best(s, *kern, ids, k as nat, r@, score);
}

/// A symmetric binary scan gives the best rows by minus the Hamming distance.
pub proof fn law_binary_scan_scores_distance<D, B, T>(
    data: &Data,
    kern: &Kernels<D, B, T>,
    qi: usize,
    k: usize,
    filter: Option<&Bitset>,
    r: Vec<Hit>,
) where
    D: Fn(&[u32], &[u32]) -> u32,
    B: Fn(&[u32], &[u8]) -> u32,
    T: Fn(u32, u32) -> u32,

    requires
        data.rows() <= u32::MAX,
        call_ensures(
            eval::scan_query::<D, B, T>,
            (data, kern, Coarse::BinSym, qi, k, filter),
            r,
        ),
    ensures
        outcome::best_of_scan(
            |id: u32, score: u32| bits_score(data, qi as int, id, score),
            filter,
            data.rows(),
            k as nat,
            r@,
        ),
{
    let (s, ids) = choose|s: Scorer<'_>, ids: Seq<u32>|
        {
            &&& #[trigger] Coarse::BinSym.binds(data, qi as int, s)
            &&& #[trigger] scorer::candidates(filter, data.rows(), ids)
            &&& s.selected(*kern, ids, k as nat, r@)
        };
    outcome::lemma_scanned(filter, data.rows(), ids);
    let score = |id: u32, score: u32| bits_score(data, qi as int, id, score);
    outcome::lemma_best(s, *kern, ids, k as nat, r@, score);
}

/// An asymmetric scan with a single-precision query gives the best rows by its
/// dot with the rows' sign bits.
pub proof fn law_asymmetric_scan_scores_signed_dot<D, B, T>(
    data: &Data,
    kern: &Kernels<D, B, T>,
    qi: usize,
    k: usize,
    filter: Option<&Bitset>,
    r: Vec<Hit>,
) where
    D: Fn(&[u32], &[u32]) -> u32,
    B: Fn(&[u32], &[u8]) -> u32,
    T: Fn(u32, u32) -> u32,

    requires
        data.rows() <= u32::MAX,
        call_ensures(
            eval::scan_query::<D, B, T>,
            (data, kern, Coarse::BinAsymF32q, qi, k, filter),
            r,
        ),
    ensures
        outcome::best_of_scan(
            |id: u32, score: u32| single_bits_score(*kern, data, qi as int, id, score),
            filter,
            data.rows(),
            k as nat,
            r@,
        ),
{
    let (s, ids) = choose|s: Scorer<'_>, ids: Seq<u32>|
        {
            &&& #[trigger] Coarse::BinAsymF32q.binds(data, qi as int, s)
            &&& #[trigger] scorer::candidates(filter, data.rows(), ids)
            &&& s.selected(*kern, ids, k as nat, r@)
        };
    outcome::lemma_scanned(filter, data.rows(), ids);
    let score = |id: u32, score: u32| single_bits_score(*kern, data, qi as int, id, score);
    outcome::lemma_best(s, *kern, ids, k as nat, r@, score);
}

/// An asymmetric scan with an int8 query gives the best rows by the dot of its
/// codes with the rows' sign bits, times its scale.
pub proof fn law_asymmetric_int8_scan_scores_signed_sum<D, B, T>(
    data: &Data,
    kern: &Kernels<D, B, T>,
    qi: usize,
    k: usize,
    filter: Option<&Bitset>,
    r: Vec<Hit>,
) where
    D: Fn(&[u32], &[u32]) -> u32,
    B: Fn(&[u32], &[u8]) -> u32,
    T: Fn(u32, u32) -> u32,

    requires
        data.rows() <= u32::MAX,
        call_ensures(
            eval::scan_query::<D, B, T>,
            (data, kern, Coarse::BinAsymI8q, qi, k, filter),
            r,
        ),
    ensures
        outcome::best_of_scan(
            |id: u32, score: u32| int8_bits_score(*kern, data, qi as int, id, score),
            filter,
            data.rows(),
            k as nat,
            r@,
        ),
{
    let (s, ids) = choose|s: Scorer<'_>, ids: Seq<u32>|
        {
            &&& #[trigger] Coarse::BinAsymI8q.binds(data, qi as int, s)
            &&& #[trigger] scorer::candidates(filter, data.rows(), ids)
            &&& s.selected(*kern, ids, k as nat, r@)
        };
    outcome::lemma_scanned(filter, data.rows(), ids);
    let score = |id: u32, score: u32| int8_bits_score(*kern, data, qi as int, id, score);
    outcome::lemma_best(s, *kern, ids, k as nat, r@, score);
}

} // verus!
