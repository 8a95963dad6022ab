//! The corpus and the queries in every representation, quantized once and
//! shared by the whole evaluation.

use vstd::prelude::*;
use crate::kernels;
use crate::quant::{binary, int8};
use crate::storage::binary::BinaryBlock;
use crate::storage::error::StorageError;
use crate::storage::int8::I8Block;
use crate::storage::single::{self, F32Block};
use crate::storage::{self, geometry, Block};

verus! {

/// Everything that an evaluation scores.
pub struct Data {
    pub f32s: F32Block,
    pub i8s: I8Block,
    pub bins: BinaryBlock,
    pub q_f32: Vec<Vec<u32>>,
    pub q_i8: Vec<Vec<i8>>,
    pub q_scales: Vec<u32>,
    pub q_bits: Vec<Vec<u8>>,
}

impl Data {
    /// Rows of the corpus.
    pub open spec fn rows(&self) -> nat {
        self.f32s.matrix().len()
    }

    /// Dimensions of a vector.
    pub open spec fn dim(&self) -> nat {
        self.f32s.columns()
    }

    /// The representations agree in shape.
    pub open spec fn wf(&self) -> bool {
        &&& self.i8s.columns() == self.dim()
        &&& self.bins.columns() == self.dim()
        &&& self.i8s.matrix().len() == self.rows()
        &&& self.bins.matrix().len() == self.rows()
        &&& self.q_i8@.len() == self.q_f32@.len()
        &&& self.q_scales@.len() == self.q_f32@.len()
        &&& self.q_bits@.len() == self.q_f32@.len()
        &&& forall|i: int|
            0 <= i < self.q_f32@.len() ==> (#[trigger] self.q_f32@[i])@.len() == self.dim()
        &&& forall|i: int|
            0 <= i < self.q_f32@.len() ==> (#[trigger] self.q_i8@[i])@.len() == self.dim()
        &&& forall|i: int|
            0 <= i < self.q_f32@.len() ==> (#[trigger] self.q_bits@[i])@.len()
                == kernels::code_len(self.dim())
    }

    /// The blocks hold the corpus: as it is, quantized row by row, and as sign
    /// bits.
    pub open spec fn holds_corpus<V: Fn(u32, u32) -> u32>(
        &self,
        over: V,
        corpus: Seq<Seq<u32>>,
    ) -> bool {
        &&& self.f32s.matrix() == corpus
        &&& storage::int8::rows_quantized(
            over,
            corpus,
            self.i8s.row_scales(),
            self.i8s.matrix(),
        )
        &&& forall|i: int|
            0 <= i < corpus.len() ==> int8::is_scale(
                over,
                corpus[i],
                #[trigger] self.i8s.row_scales()[i],
            )
        &&& storage::binary::rows_packed(corpus, self.bins.matrix())
    }

    /// The query vectors hold the queries in the same ways.
    pub open spec fn holds_queries<V: Fn(u32, u32) -> u32>(
        &self,
        over: V,
        queries: Seq<Seq<u32>>,
    ) -> bool {
        &&& self.q_f32@.len() == queries.len()
        &&& forall|i: int| 0 <= i < queries.len() ==> (#[trigger] self.q_f32@[i])@ == queries[i]
        &&& forall|i: int|
            0 <= i < queries.len() ==> int8::is_scale(
                over,
                queries[i],
                #[trigger] self.q_scales@[i],
            )
        &&& forall|i: int|
            0 <= i < queries.len() ==> int8::quantized(
                over,
                queries[i],
                self.q_scales@[i],
                (#[trigger] self.q_i8@[i])@,
            )
        &&& forall|i: int|
            0 <= i < queries.len() ==> binary::packs(queries[i], (#[trigger] self.q_bits@[i])@)
    }

    /// Quantizes a corpus and its queries, both flat. Fails where the corpus
    /// is not whole rows of `dim`; an incomplete query at the end is dropped.
    pub fn prepare<V: Fn(u32, u32) -> u32>(
        corpus_flat: &[u32],
        queries_flat: &[u32],
        dim: usize,
        over: &V,
    ) -> (r: Result<Data, StorageError>)
        requires
            forall|x: u32, y: u32| call_requires(*over, (x, y)),
            single::flat_error(corpus_flat@.len() as usize, dim) is None ==> single::allocatable(
                corpus_flat@.len() / dim as nat,
                dim as nat,
            ),
        ensures
            r is Err <==> single::flat_error(corpus_flat@.len() as usize, dim) is Some,
            r matches Err(e) ==> single::flat_error(corpus_flat@.len() as usize, dim) == Some(e),
            r matches Ok(data) ==> {
                &&& data.wf()
                &&& data.dim() == dim
                &&& data.holds_corpus(
                    *over,
                    geometry::strided(corpus_flat@, dim as nat, dim as nat),
                )
                &&& data.holds_queries(
                    *over,
                    geometry::strided(queries_flat@, dim as nat, dim as nat),
                )
            },
    {
        let f32s: F32Block = match F32Block::from_flat(corpus_flat, dim) {
            Ok(block) => block,
            Err(e) => {
                return Err(e);
            },
        };
        let i8s: I8Block = I8Block::from_f32_per_vector(&f32s, over);
        let bins: BinaryBlock = BinaryBlock::from_f32(&f32s);
        let ghost queries = geometry::strided(queries_flat@, dim as nat, dim as nat);
        let n: usize = queries_flat.len() / dim;
        let mut q_f32: Vec<Vec<u32>> = Vec::new();
        let mut q_i8: Vec<Vec<i8>> = Vec::new();
        let mut q_scales: Vec<u32> = Vec::new();
        let mut q_bits: Vec<Vec<u8>> = Vec::new();
        let mut i: usize = 0;
        while i < n
            invariant
                i <= n == queries_flat@.len() / dim as nat,
                0 < dim,
                queries == geometry::strided(queries_flat@, dim as nat, dim as nat),
                forall|x: u32, y: u32| call_requires(*over, (x, y)),
                q_f32@.len() == i,
                q_i8@.len() == i,
                q_scales@.len() == i,
                q_bits@.len() == i,
                forall|k: int|
                    0 <= k < i ==> (#[trigger] q_f32@[k])@ == queries[k] && q_f32@[k]@.len() == dim,
                forall|k: int|
                    0 <= k < i ==> int8::is_scale(*over, queries[k], #[trigger] q_scales@[k]),
                forall|k: int|
                    0 <= k < i ==> int8::quantized(
                        *over,
                        queries[k],
                        q_scales@[k],
                        (#[trigger] q_i8@[k])@,
                    ),
                forall|k: int| 0 <= k < i ==> (#[trigger] q_i8@[k])@.len() == dim,
                forall|k: int| 0 <= k < i ==> binary::packs(queries[k], (#[trigger] q_bits@[k])@),
                forall|k: int|
                    0 <= k < i ==> (#[trigger] q_bits@[k])@.len() == kernels::code_len(dim as nat),
            decreases n - i,
        {
            let query: &[u32] = geometry::row_at(queries_flat, dim, dim, i);
            let scale: u32 = int8::max_abs_scale(query, over);
            q_i8.push(int8::quantize_i8_vec(query, scale, over));
            q_bits.push(binary::pack_sign_bits_vec(query));
            q_scales.push(scale);
            q_f32.push(copy_of(query));
            i += 1;
        }
        Ok(Data { f32s, i8s, bins, q_f32, q_i8, q_scales, q_bits })
    }

    /// Number of queries.
    pub fn queries(&self) -> (r: usize)
        ensures
            r == self.q_f32@.len(),
    {
        self.q_f32.len()
    }
}

/// A vector with the same elements.
pub(crate) fn copy_of(src: &[u32]) -> (r: Vec<u32>)
    ensures
        r@ == src@,
{
    let mut out: Vec<u32> = Vec::new();
    let mut i: usize = 0;
    while i < src.len()
        invariant
            i <= src@.len(),
            out@ == src@.take(i as int),
        decreases src@.len() - i,
    {
        out.push(src[i]);
        i += 1;
        assert(out@ =~= src@.take(i as int));
    }
    assert(src@.take(i as int) =~= src@);
    out
}

} // verus!
