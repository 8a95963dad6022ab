//! What the harness says of its data, and the choices around one filter.

use vstd::prelude::*;
use crate::bitset::{self, Bitset};
use crate::ieee;
use crate::kernels;
use crate::recall::cli::Dist;
use crate::text;

verus! {

/// Source of a synthetic corpus, for display and as part of the cache key.
pub open spec fn synthetic_name(dist: Dist, gmm_clusters: nat, seed: nat) -> Seq<char> {
    "synthetic:"@ + (match dist {
        Dist::Gmm => "gmm("@ + text::decimal(gmm_clusters) + ")"@,
        Dist::Uniform => "uniform"@,
    }) + ":seed"@ + text::decimal(seed)
}

/// Names a synthetic corpus.
pub fn synthetic_source(dist: Dist, gmm_clusters: usize, seed: u64) -> (r: String)
    ensures
        r@ == synthetic_name(dist, gmm_clusters as nat, seed as nat),
{
    let mut out: String = String::new();
    out.append("synthetic:");
    match dist {
        Dist::Gmm => {
            out.append("gmm(");
            text::push_decimal(&mut out, gmm_clusters as u128);
            out.append(")");
        },
        Dist::Uniform => {
            out.append("uniform");
        },
    }
    out.append(":seed");
    text::push_decimal(&mut out, seed as u128);
    assert(out@ =~= synthetic_name(dist, gmm_clusters as nat, seed as nat));
    out
}

/// Names a corpus read from a file, with the file's size in bytes.
pub fn file_source(path: &str, size: u64) -> (r: String)
    ensures
        r@ == "file:"@ + path@ + "("@ + text::decimal(size as nat) + "B)"@,
{
    let mut out: String = String::new();
    out.append("file:");
    out.append(path);
    out.append("(");
    text::push_decimal(&mut out, size as u128);
    out.append("B)");
    assert(out@ =~= "file:"@ + path@ + "("@ + text::decimal(size as nat) + "B)"@);
    out
}

/// What is wrong with a corpus and queries of these dimensions, if anything.
pub fn dims_error(corpus: usize, queries: usize) -> (r: Option<String>)
    ensures
        r is Some <==> corpus != queries,
        r matches Some(m) ==> m@ == "corpus dim "@ + text::decimal(corpus as nat)
            + " != query dim "@ + text::decimal(queries as nat),
{
    if corpus == queries {
        return None;
    }
    let mut out: String = String::new();
    out.append("corpus dim ");
    text::push_decimal(&mut out, corpus as u128);
    out.append(" != query dim ");
    text::push_decimal(&mut out, queries as u128);
    assert(out@ =~= "corpus dim "@ + text::decimal(corpus as nat) + " != query dim "@
        + text::decimal(queries as nat));
    Some(out)
}

/// Bytes per vector: single precision, int8 codes with their scale, sign bits.
pub fn vector_bytes(dim: usize) -> (r: (u128, u128, usize))
    ensures
        r.0 == 4 * dim,
        r.1 == dim + 4,
        r.2 == kernels::code_len(dim as nat),
{
    (4 * dim as u128, dim as u128 + 4, kernels::binary_code_len(dim))
}

/// The filter of a selectivity: none where it is 1 (or more), else a random
/// bitmap whose seed depends on the selectivity too.
pub fn corpus_filter(n: usize, selectivity: u64, seed: u64) -> (r: Option<Bitset>)
    ensures
        r is Some <==> ieee::less_64(selectivity, ieee::ONE_64),
        r matches Some(f) ==> f.size() == n && bitset::random_ids(
            f@,
            n as nat,
            selectivity,
            seed ^ selectivity,
        ),
{
    if ieee::is_less_64(selectivity, ieee::ONE_64) {
        Some(Bitset::random(n, selectivity, seed ^ selectivity))
    } else {
        None
    }
}

/// How many rows a scan under the filter looks at.
pub fn candidate_count(filter: Option<&Bitset>, n: usize) -> (r: usize)
    ensures
        r == (match filter {
            Some(f) => f@.len(),
            None => n as nat,
        }),
{
    match filter {
        Some(f) => f.count_ones(),
        None => n,
    }
}

/// The warning for a filter that leaves fewer than `8 * kmax` rows.
pub fn degenerate_warning(candidates: usize, kmax: usize, selectivity: &str) -> (r: Option<String>)
    ensures
        r is Some <==> candidates < 8 * kmax,
        r matches Some(m) ==> m@ == "warning: only "@ + text::decimal(candidates as nat)
            + " filter survivors at s="@ + selectivity@ + " (< 8·kmax = "@ + text::decimal(
            (8 * kmax) as nat,
        ) + ") — cells are degenerate"@,
{
    let limit: u128 = 8 * kmax as u128;
    if candidates as u128 >= limit {
        return None;
    }
    let mut out: String = String::new();
    out.append("warning: only ");
    text::push_decimal(&mut out, candidates as u128);
    out.append(" filter survivors at s=");
    out.append(selectivity);
    out.append(" (< 8·kmax = ");
    text::push_decimal(&mut out, limit);
    out.append(") — cells are degenerate");
    assert(out@ =~= "warning: only "@ + text::decimal(candidates as nat)
        + " filter survivors at s="@ + selectivity@ + " (< 8·kmax = "@ + text::decimal(
        (8 * kmax) as nat,
    ) + ") — cells are degenerate"@);
    Some(out)
}

/// The parameters that ground truth depends on.
pub struct GtKey<'a> {
    pub source: &'a str,
    pub n: usize,
    pub dim: usize,
    pub queries: usize,
    pub kmax: usize,
    pub seed: u64,
    /// The selectivity as a text for the reader.
    pub shown: &'a str,
    /// The selectivity's pattern, which tells selectivities apart.
    pub selectivity: u64,
}

impl<'a> GtKey<'a> {
    /// The shape part of the key.
    pub open spec fn shape(&self) -> Seq<char> {
        " | n="@ + text::decimal(self.n as nat) + " dim="@ + text::decimal(self.dim as nat) + " q="@
            + text::decimal(self.queries as nat)
    }

    /// The key as text.
    pub open spec fn key(&self) -> Seq<char> {
        "guksu-gt v1 | source="@ + self.source@ + self.shape() + " kmax="@ + text::decimal(
            self.kmax as nat,
        ) + " seed="@ + text::decimal(self.seed as nat) + " s="@ + self.shown@ + "-"@
            + text::hex(self.selectivity)
    }

    /// The key as text: a cache is valid under exactly one.
    pub fn text(&self) -> (r: String)
        ensures
            r@ == self.key(),
    {
        let mut shape: String = String::new();
        shape.append(" | n=");
        text::push_decimal(&mut shape, self.n as u128);
        shape.append(" dim=");
        text::push_decimal(&mut shape, self.dim as u128);
        shape.append(" q=");
        text::push_decimal(&mut shape, self.queries as u128);
        assert(shape@ =~= self.shape());
        let mut out: String = String::new();
        out.append("guksu-gt v1 | source=");
        out.append(self.source);
        out.append(shape.as_str());
        out.append(" kmax=");
        text::push_decimal(&mut out, self.kmax as u128);
        out.append(" seed=");
        text::push_decimal(&mut out, self.seed as u128);
        out.append(" s=");
        out.append(self.shown);
        out.append("-");
        text::push_hex(&mut out, self.selectivity);
        assert(out@ =~= self.key());
        out
    }
}

/// Keys of different selectivities differ, so ground truth under one filter is
/// never taken for another's.
pub proof fn law_keys_tell_selectivities_apart(a: GtKey<'_>, b: GtKey<'_>)
    requires
        a.selectivity != b.selectivity,
    ensures
        a.key() != b.key(),
{
    let (x, y) = (a.key(), b.key());
    if x == y {
        assert(x.skip(x.len() - 16) =~= text::hex(a.selectivity));
        assert(y.skip(y.len() - 16) =~= text::hex(b.selectivity));
        text::lemma_hex_injective(a.selectivity, b.selectivity);
    }
}

/// The filter's text above its table; `selectivity` has two decimals.
pub fn filter_label(filtered: bool, selectivity: &str, candidates: usize) -> (r: String)
    ensures
        filtered ==> r@ == "s="@ + selectivity@ + " ("@ + text::decimal(candidates as nat)
            + " candidates)"@,
        !filtered ==> r@ == "none (s=1.00, "@ + text::decimal(candidates as nat) + " candidates)"@,
{
    let mut out: String = String::new();
    if filtered {
        out.append("s=");
        out.append(selectivity);
        out.append(" (");
    } else {
        out.append("none (s=1.00, ");
    }
    text::push_decimal(&mut out, candidates as u128);
    out.append(" candidates)");
    assert(filtered ==> out@ =~= "s="@ + selectivity@ + " ("@ + text::decimal(candidates as nat)
        + " candidates)"@);
    assert(!filtered ==> out@ =~= "none (s=1.00, "@ + text::decimal(candidates as nat)
        + " candidates)"@);
    out
}

} // verus!
