//! What preparing an evaluation makes of the corpus and the queries.

use vstd::prelude::*;
use crate::bitset::{self, Bitset};
use crate::ieee;
use crate::quant::binary;
use crate::quant::int8;
use crate::recall::data::Data;
use crate::rng;
use crate::storage::error::StorageError;
use crate::storage::geometry;

verus! {

/// Every row of the corpus and every query stands in all three representations,
/// in its own place: element `j` of vector `i` is element `i * dim + j` of what
/// was given, and its int8 codes, scale and sign bits are made of that vector.
pub proof fn law_prepared<V: Fn(u32, u32) -> u32>(
    corpus: &[u32],
    queries: &[u32],
    dim: usize,
    over: &V,
    r: Result<Data, StorageError>,
)
    requires
        call_ensures(Data::prepare::<V>, (corpus, queries, dim, over), r),
    ensures
        r is Ok <==> dim > 0 && corpus@.len() % dim as nat == 0 && corpus@.len() / dim as nat
            <= u32::MAX,
        r matches Ok(data) ==> {
            &&& data.f32s.matrix().len() == corpus@.len() / dim as nat
            &&& data.q_f32@.len() == queries@.len() / dim as nat
            &&& forall|i: int|
                0 <= i < corpus@.len() / dim as nat ==> (#[trigger] data.f32s.matrix()[i]).len()
                    == dim
            &&& forall|i: int, j: int|
                0 <= i < corpus@.len() / dim as nat && 0 <= j < dim
                    ==> #[trigger] data.f32s.matrix()[i][j] == corpus@[i * dim + j]
            &&& forall|i: int|
                #![trigger data.i8s.matrix()[i]]
                0 <= i < data.f32s.matrix().len() ==> int8::is_scale(
                    *over,
                    data.f32s.matrix()[i],
                    data.i8s.row_scales()[i],
                ) && int8::quantized(
                    *over,
                    data.f32s.matrix()[i],
                    data.i8s.row_scales()[i],
                    data.i8s.matrix()[i],
                )
            &&& forall|i: int|
                #![trigger data.bins.matrix()[i]]
                0 <= i < data.f32s.matrix().len() ==> binary::packs(
                    data.f32s.matrix()[i],
                    data.bins.matrix()[i],
                )
            &&& forall|q: int, j: int|
                #![trigger data.q_f32@[q]@[j]]
                0 <= q < data.q_f32@.len() && 0 <= j < dim ==> data.q_f32@[q]@.len() == dim
                    && data.q_f32@[q]@[j] == queries@[q * dim + j]
            &&& forall|q: int|
                #![trigger data.q_i8@[q]]
                0 <= q < data.q_f32@.len() ==> int8::is_scale(
                    *over,
                    data.q_f32@[q]@,
                    data.q_scales@[q],
                ) && int8::quantized(
                    *over,
                    data.q_f32@[q]@,
                    data.q_scales@[q],
                    data.q_i8@[q]@,
                )
            &&& forall|q: int|
                #![trigger data.q_bits@[q]]
                0 <= q < data.q_f32@.len() ==> binary::packs(data.q_f32@[q]@, data.q_bits@[q]@)
        },
{
    assert(corpus@.len() == corpus.len());
    if r is Ok {
        let data = r->Ok_0;
        let (rows, wanted) = (
            geometry::strided(corpus@, dim as nat, dim as nat),
            geometry::strided(queries@, dim as nat, dim as nat),
        );
        assert(data.holds_corpus(*over, rows) && data.holds_queries(*over, wanted));
        assert forall|i: int| 0 <= i < corpus@.len() / dim as nat implies (
        #[trigger] data.f32s.matrix()[i]).len() == dim by {
            geometry::lemma_row_place(corpus@.len(), dim as nat, dim as nat, i as nat);
        }
        assert forall|i: int, j: int|
            0 <= i < corpus@.len() / dim as nat && 0 <= j
                < dim implies #[trigger] data.f32s.matrix()[i][j] == corpus@[i * dim + j] by {
            geometry::lemma_row_place(corpus@.len(), dim as nat, dim as nat, i as nat);
        }
        assert forall|i: int|
            #![trigger data.i8s.matrix()[i]]
            0 <= i < data.f32s.matrix().len() implies int8::is_scale(
            *over,
            data.f32s.matrix()[i],
            data.i8s.row_scales()[i],
        ) && int8::quantized(
            *over,
            data.f32s.matrix()[i],
            data.i8s.row_scales()[i],
            data.i8s.matrix()[i],
        ) by {
            assert(int8::is_scale(*over, rows[i], data.i8s.row_scales()[i]));
        }
        assert forall|q: int, j: int|
            #![trigger data.q_f32@[q]@[j]]
            0 <= q < data.q_f32@.len() && 0 <= j < dim implies data.q_f32@[q]@.len() == dim
            && data.q_f32@[q]@[j] == queries@[q * dim + j] by {
            assert(data.q_f32@[q]@ == wanted[q]);
            geometry::lemma_row_place(queries@.len(), dim as nat, dim as nat, q as nat);
        }
        assert forall|q: int|
            #![trigger data.q_i8@[q]]
            0 <= q < data.q_f32@.len() implies int8::is_scale(
            *over,
            data.q_f32@[q]@,
            data.q_scales@[q],
        ) && int8::quantized(
            *over,
            data.q_f32@[q]@,
            data.q_scales@[q],
            data.q_i8@[q]@,
        ) by {
            assert(data.q_f32@[q]@ == wanted[q]);
            assert(int8::is_scale(*over, wanted[q], data.q_scales@[q]));
        }
        assert forall|q: int|
            #![trigger data.q_bits@[q]]
            0 <= q < data.q_f32@.len() implies binary::packs(
            data.q_f32@[q]@,
            data.q_bits@[q]@,
        ) by {
            assert(data.q_f32@[q]@ == wanted[q]);
        }
    }
}

/// The ids that a bitmap was made of are the ones it holds, lists in ascending
/// order, each once, and counts.
pub proof fn law_bitmap_holds_its_ids(
    len: usize,
    ids: &[u32],
    bitmap: Bitset,
    ones: Vec<u32>,
    count: usize,
    covered: usize,
)
    requires
        call_ensures(Bitset::from_ids, (len, ids), bitmap),
        call_ensures(Bitset::iter_ones, (&bitmap,), ones),
        call_ensures(Bitset::count_ones, (&bitmap,), count),
        call_ensures(Bitset::len, (&bitmap,), covered),
    ensures
        covered == len,
        count == ones@.len(),
        forall|i: int, j: int| 0 <= i < j < ones@.len() ==> #[trigger] ones@[i] < #[trigger] ones@[j],
        forall|id: u32| #[trigger] ones@.contains(id) <==> ids@.contains(id),
        forall|id: u32, r: bool| #[trigger]
            call_ensures(Bitset::contains, (&bitmap, id), r) ==> r == ids@.contains(id),
{
    let set = bitmap@;
    assert forall|id: u32| #[trigger] set.contains(id) <==> ids@.contains(id) by {}
    assert(ones@.no_duplicates());
    assert(set =~= ones@.to_set()) by {
        assert forall|id: u32| #[trigger] set.contains(id) <==> ones@.to_set().contains(id) by {
            assert(set.contains(id) <==> ones@.contains(id));
        }
    }
    ones@.unique_seq_to_set();
    assert forall|id: u32| #[trigger] ones@.contains(id) <==> ids@.contains(id) by {
        assert(set.contains(id) <==> ones@.contains(id));
    }
}

/// A random bitmap follows the stream of its seed: id `i` is kept where the
/// `i`-th number of the stream, as a fraction, is below the fraction to keep.
pub proof fn law_random_bitmap_follows_its_stream(
    len: usize,
    keep_fraction: u64,
    seed: u64,
    r: Bitset,
    id: u32,
    f: u64,
)
    requires
        call_ensures(Bitset::random, (len, keep_fraction, seed), r),
        len <= 0x1_0000_0000,
        id < len,
        ieee::is_53bit_fraction(f, (rng::drawn(seed, id as nat) / 2048) as nat),
    ensures
        r.size() == len,
        r@.contains(id) <==> ieee::less_64(f, keep_fraction),
{
    let n = (rng::drawn(seed, id as nat) / 2048) as nat;
    if r@.contains(id) {
        let i = choose|i: int|
            0 <= i < len && i % 0x1_0000_0000 == id && #[trigger] bitset::kept(
                seed,
                keep_fraction,
                i as nat,
            );
        assert(i == id);
        let g = choose|g: u64| #[trigger]
            ieee::is_53bit_fraction(g, rng::high_bits(rng::drawn(seed, id as nat)))
                && ieee::less_64(g, keep_fraction);
        ieee::lemma_fraction_unique(f, g, n);
    }
    if ieee::less_64(f, keep_fraction) {
        assert(ieee::is_53bit_fraction(f, rng::high_bits(rng::drawn(seed, id as nat))));
        assert(bitset::kept(seed, keep_fraction, id as nat));
        let i = id as int;
        assert(0 <= i < len && i % 0x1_0000_0000 == id && bitset::kept(
            seed,
            keep_fraction,
            i as nat,
        ));
    }
}

} // verus!
