//! What names and keys tell apart, what the cache gives back, and how filters
//! and shares of work relate to what they were asked for.

use vstd::prelude::*;
use crate::bitset::{self, Bitset};
use crate::ieee;
use crate::recall::cache;
use crate::recall::chunks;
use crate::recall::cli::Dist;
use crate::recall::files;
use crate::recall::report::{self, GtKey};
use crate::recall::rows;
use crate::scan::hit::Hit;
use crate::text;

verus! {

/// A number in front of something that is no digit can be read off.
proof fn lemma_number_cut(a: nat, x: Seq<char>, b: nat, y: Seq<char>)
    requires
        text::decimal(a) + x == text::decimal(b) + y,
        x.len() == 0 || !('0' <= x[0] <= '9'),
        y.len() == 0 || !('0' <= y[0] <= '9'),
    ensures
        a == b,
        x == y,
{
    let (p, q) = (text::decimal(a), text::decimal(b));
    let all = p + x;
    files::law_decimal_reads_back(a, a);
    files::law_decimal_reads_back(b, b);
    if p.len() < q.len() {
        assert(all[p.len() as int] == q[p.len() as int]);
        if x.len() == 0 {
            assert(all.len() == p.len());
        } else {
            assert(all[p.len() as int] == x[0]);
        }
        assert(false);
    }
    if q.len() < p.len() {
        assert((q + y)[q.len() as int] == p[q.len() as int]);
        if y.len() == 0 {
            assert((q + y).len() == q.len());
        } else {
            assert((q + y)[q.len() as int] == y[0]);
        }
        assert(false);
    }
    assert(p =~= all.take(p.len() as int));
    assert(q =~= (q + y).take(q.len() as int));
    assert(x =~= all.skip(p.len() as int));
    assert(y =~= (q + y).skip(q.len() as int));
}

/// Equal texts with equal fronts have equal rests.
proof fn lemma_front_cut(front: Seq<char>, x: Seq<char>, y: Seq<char>)
    requires
        front + x == front + y,
    ensures
        x == y,
{
    assert(x =~= (front + x).skip(front.len() as int));
    assert(y =~= (front + y).skip(front.len() as int));
}

/// Equal texts with equal ends have equal fronts.
proof fn lemma_end_cut(x: Seq<char>, y: Seq<char>, end: Seq<char>)
    requires
        x + end == y + end,
    ensures
        x == y,
{
    assert((x + end).len() == (y + end).len());
    assert(x =~= (x + end).take(x.len() as int));
    assert(y =~= (y + end).take(y.len() as int));
}

/// What of a key follows its source.
spec fn after_source(k: GtKey<'_>) -> Seq<char> {
    " | n="@ + (text::decimal(k.n as nat) + (" dim="@ + (text::decimal(k.dim as nat) + (" q="@ + (
    text::decimal(k.queries as nat) + (" kmax="@ + (text::decimal(k.kmax as nat) + (" seed="@ + (
    text::decimal(k.seed as nat) + (" s="@ + (k.shown@ + ("-"@ + text::hex(k.selectivity)))))))))))))
}

proof fn lemma_grouped(a: Seq<char>, b: Seq<char>, c: Seq<char>)
    ensures
        (a + b) + c == a + (b + c),
{
    assert((a + b) + c =~= a + (b + c));
}

proof fn lemma_key(k: GtKey<'_>)
    ensures
        k.key() == "guksu-gt v1 | source="@ + (k.source@ + after_source(k)),
{
    let (n, dim, q) = (
        text::decimal(k.n as nat),
        text::decimal(k.dim as nat),
        text::decimal(k.queries as nat),
    );
    let (kmax, seed) = (text::decimal(k.kmax as nat), text::decimal(k.seed as nat));
    let x0 = "guksu-gt v1 | source="@ + k.source@;
    let x1 = x0 + k.shape();
    let x2 = x1 + " kmax="@;
    let x3 = x2 + kmax;
    let x4 = x3 + " seed="@;
    let x5 = x4 + seed;
    let x6 = x5 + " s="@;
    let x7 = x6 + k.shown@;
    let r7 = "-"@ + text::hex(k.selectivity);
    let r6 = k.shown@ + r7;
    let r5 = " s="@ + r6;
    let r4 = seed + r5;
    let r3 = " seed="@ + r4;
    let r2 = kmax + r3;
    let r1 = " kmax="@ + r2;
    lemma_grouped(x7, "-"@, text::hex(k.selectivity));
    lemma_grouped(x6, k.shown@, r7);
    lemma_grouped(x5, " s="@, r6);
    lemma_grouped(x4, seed, r5);
    lemma_grouped(x3, " seed="@, r4);
    lemma_grouped(x2, kmax, r3);
    lemma_grouped(x1, " kmax="@, r2);
    assert(k.key() == x1 + r1);
    let y1 = " | n="@ + n;
    let y2 = y1 + " dim="@;
    let y3 = y2 + dim;
    let y4 = y3 + " q="@;
    let z4 = q + r1;
    let z3 = " q="@ + z4;
    let z2 = dim + z3;
    let z1 = " dim="@ + z2;
    lemma_grouped(y4, q, r1);
    lemma_grouped(y3, " q="@, z4);
    lemma_grouped(y2, dim, z3);
    lemma_grouped(y1, " dim="@, z2);
    lemma_grouped(" | n="@, n, z1);
    assert(k.shape() + r1 == after_source(k));
    lemma_grouped(x0, k.shape(), r1);
    lemma_grouped("guksu-gt v1 | source="@, k.source@, after_source(k));
}

/// The key of ground truth depends on everything that the truth depends on:
/// under one source, other numbers of rows, dimensions or queries, another
/// depth, seed or selectivity give another key; and so does another source
/// where the rest is the same.
pub proof fn law_key_depends_on_every_parameter(
    a: GtKey<'_>,
    b: GtKey<'_>,
    x: String,
    y: String,
)
    requires
        call_ensures(GtKey::text, (&a,), x),
        call_ensures(GtKey::text, (&b,), y),
        x@ == y@,
    ensures
        a.selectivity == b.selectivity,
        a.source@ == b.source@ ==> a.n == b.n && a.dim == b.dim && a.queries == b.queries && a.kmax
            == b.kmax && a.seed == b.seed && a.shown@ == b.shown@,
        a.n == b.n && a.dim == b.dim && a.queries == b.queries && a.kmax == b.kmax && a.seed
            == b.seed && a.shown@ == b.shown@ ==> a.source@ == b.source@,
{
    if a.selectivity != b.selectivity {
        report::law_keys_tell_selectivities_apart(a, b);
    }
    lemma_key(a);
    lemma_key(b);
    lemma_front_cut(
        "guksu-gt v1 | source="@,
        a.source@ + after_source(a),
        b.source@ + after_source(b),
    );
    if a.source@ == b.source@ {
        lemma_front_cut(a.source@, after_source(a), after_source(b));
        lemma_same_numbers(a, b);
    }
    if a.n == b.n && a.dim == b.dim && a.queries == b.queries && a.kmax == b.kmax && a.seed
        == b.seed && a.shown@ == b.shown@ {
        lemma_end_cut(a.source@, b.source@, after_source(a));
    }
}

proof fn lemma_same_numbers(a: GtKey<'_>, b: GtKey<'_>)
    requires
        after_source(a) == after_source(b),
        a.selectivity == b.selectivity,
    ensures
        a.n == b.n,
        a.dim == b.dim,
        a.queries == b.queries,
        a.kmax == b.kmax,
        a.seed == b.seed,
        a.shown@ == b.shown@,
{
    reveal_strlit(" | n=");
    reveal_strlit(" dim=");
    reveal_strlit(" q=");
    reveal_strlit(" kmax=");
    reveal_strlit(" seed=");
    reveal_strlit(" s=");
    let (a7, b7) = ("-"@ + text::hex(a.selectivity), "-"@ + text::hex(b.selectivity));
    let (a6, b6) = (" s="@ + (a.shown@ + a7), " s="@ + (b.shown@ + b7));
    let (a5, b5) = (text::decimal(a.seed as nat) + a6, text::decimal(b.seed as nat) + b6);
    let (a4, b4) = (
        text::decimal(a.kmax as nat) + (" seed="@ + a5),
        text::decimal(b.kmax as nat) + (" seed="@ + b5),
    );
    let (a3, b3) = (
        text::decimal(a.queries as nat) + (" kmax="@ + a4),
        text::decimal(b.queries as nat) + (" kmax="@ + b4),
    );
    let (a2, b2) = (
        text::decimal(a.dim as nat) + (" q="@ + a3),
        text::decimal(b.dim as nat) + (" q="@ + b3),
    );
    let (a1, b1) = (
        text::decimal(a.n as nat) + (" dim="@ + a2),
        text::decimal(b.n as nat) + (" dim="@ + b2),
    );
    lemma_front_cut(" | n="@, a1, b1);
    lemma_number_cut(a.n as nat, " dim="@ + a2, b.n as nat, " dim="@ + b2);
    lemma_front_cut(" dim="@, a2, b2);
    lemma_number_cut(a.dim as nat, " q="@ + a3, b.dim as nat, " q="@ + b3);
    lemma_front_cut(" q="@, a3, b3);
    lemma_number_cut(a.queries as nat, " kmax="@ + a4, b.queries as nat, " kmax="@ + b4);
    lemma_front_cut(" kmax="@, a4, b4);
    lemma_number_cut(a.kmax as nat, " seed="@ + a5, b.kmax as nat, " seed="@ + b5);
    lemma_front_cut(" seed="@, a5, b5);
    lemma_number_cut(a.seed as nat, a6, b.seed as nat, b6);
    lemma_front_cut(" s="@, a.shown@ + a7, b.shown@ + b7);
    lemma_end_cut(a.shown@, b.shown@, a7);
}

/// The name of a synthetic corpus tells its distribution, its seed, and for
/// mixtures the number of clusters.
pub proof fn law_synthetic_names(
    a: Dist,
    clusters_a: usize,
    seed_a: u64,
    b: Dist,
    clusters_b: usize,
    seed_b: u64,
    x: String,
    y: String,
)
    requires
        call_ensures(report::synthetic_source, (a, clusters_a, seed_a), x),
        call_ensures(report::synthetic_source, (b, clusters_b, seed_b), y),
        x@ == y@,
    ensures
        a == b,
        seed_a == seed_b,
        a is Gmm ==> clusters_a == clusters_b,
{
    reveal_strlit("synthetic:");
    reveal_strlit("gmm(");
    reveal_strlit(")");
    reveal_strlit("uniform");
    reveal_strlit(":seed");
    let (p, q) = (
        ":seed"@ + text::decimal(seed_a as nat),
        ":seed"@ + text::decimal(seed_b as nat),
    );
    let u = match a {
        Dist::Gmm => "gmm("@ + (text::decimal(clusters_a as nat) + (")"@ + p)),
        Dist::Uniform => "uniform"@ + p,
    };
    let v = match b {
        Dist::Gmm => "gmm("@ + (text::decimal(clusters_b as nat) + (")"@ + q)),
        Dist::Uniform => "uniform"@ + q,
    };
    assert(x@ =~= "synthetic:"@ + u);
    assert(y@ =~= "synthetic:"@ + v);
    lemma_front_cut("synthetic:"@, u, v);
    assert(u[0] == (if a is Gmm {
        'g'
    } else {
        'u'
    }));
    assert(v[0] == (if b is Gmm {
        'g'
    } else {
        'u'
    }));
    if a is Gmm {
        lemma_front_cut(
            "gmm("@,
            text::decimal(clusters_a as nat) + (")"@ + p),
            text::decimal(clusters_b as nat) + (")"@ + q),
        );
        lemma_number_cut(clusters_a as nat, ")"@ + p, clusters_b as nat, ")"@ + q);
        lemma_front_cut(")"@, p, q);
    } else {
        lemma_front_cut("uniform"@, p, q);
    }
    lemma_front_cut(":seed"@, text::decimal(seed_a as nat), text::decimal(seed_b as nat));
    let none = Seq::<char>::empty();
    assert(text::decimal(seed_a as nat) + none =~= text::decimal(seed_a as nat));
    assert(text::decimal(seed_b as nat) + none =~= text::decimal(seed_b as nat));
    lemma_number_cut(seed_a as nat, none, seed_b as nat, none);
}

/// The name of a file corpus tells files of one path apart by their size, and
/// files of one size by their path.
pub proof fn law_file_names(
    path_a: &str,
    size_a: u64,
    path_b: &str,
    size_b: u64,
    x: String,
    y: String,
)
    requires
        call_ensures(report::file_source, (path_a, size_a), x),
        call_ensures(report::file_source, (path_b, size_b), y),
        x@ == y@,
    ensures
        path_a@ == path_b@ ==> size_a == size_b,
        size_a == size_b ==> path_a@ == path_b@,
{
    reveal_strlit("B)");
    let (p, q) = (text::decimal(size_a as nat) + "B)"@, text::decimal(size_b as nat) + "B)"@);
    assert(x@ =~= "file:"@ + (path_a@ + ("("@ + p)));
    assert(y@ =~= "file:"@ + (path_b@ + ("("@ + q)));
    lemma_front_cut("file:"@, path_a@ + ("("@ + p), path_b@ + ("("@ + q));
    if path_a@ == path_b@ {
        lemma_front_cut(path_a@, "("@ + p, "("@ + q);
        lemma_front_cut("("@, p, q);
        lemma_number_cut(size_a as nat, "B)"@, size_b as nat, "B)"@);
    }
    if size_a == size_b {
        lemma_end_cut(path_a@, path_b@, "("@ + p);
    }
}

/// Different selectivities have different cache files, and so have different
/// bases under one selectivity.
pub proof fn law_cache_files(
    base_a: &str,
    base_b: &str,
    shown_a: &str,
    shown_b: &str,
    a: u64,
    b: u64,
    x: String,
    y: String,
)
    requires
        call_ensures(cache::gt_cache_path, (base_a, shown_a, a), x),
        call_ensures(cache::gt_cache_path, (base_b, shown_b, b), y),
        x@ == y@,
    ensures
        a == b,
        shown_a@ == shown_b@ ==> base_a@ == base_b@,
{
    assert(x@.skip(x@.len() - 16) =~= text::hex(a));
    assert(y@.skip(y@.len() - 16) =~= text::hex(b));
    text::lemma_hex_injective(a, b);
    if shown_a@ == shown_b@ {
        let end = ".s"@ + shown_a@ + "-"@ + text::hex(a);
        assert(x@ =~= base_a@ + end);
        assert(y@ =~= base_b@ + end);
        lemma_end_cut(base_a@, base_b@, end);
    }
}

/// Reading a cache under the parameters that it was written with gives back the
/// hits of every query; under other parameters it gives nothing.
pub proof fn law_cache_reads_back(
    params: &str,
    other: &str,
    gt: &[Vec<Hit>],
    bytes: Vec<u8>,
    stored: &[u8],
    r: Option<Vec<Vec<Hit>>>,
    s: Option<Vec<Vec<Hit>>>,
)
    requires
        vstd::utf8::encode_utf8(params@).len() <= u32::MAX,
        gt@.len() <= u32::MAX,
        forall|q: int| 0 <= q < gt@.len() ==> (#[trigger] gt@[q])@.len() <= u32::MAX,
        call_ensures(cache::encode_gt, (params, gt), bytes),
        stored@ == bytes@,
        call_ensures(cache::decode_gt, (stored, params), r),
        call_ensures(cache::decode_gt, (stored, other), s),
        other@ != params@,
    ensures
        r is Some,
        r->0@.len() == gt@.len(),
        forall|q: int| 0 <= q < gt@.len() ==> (#[trigger] r->0@[q])@ == gt@[q]@,
        s is None,
{
    let want = vstd::utf8::encode_utf8(params@);
    let wrong = vstd::utf8::encode_utf8(other@);
    vstd::utf8::encode_utf8_decode_utf8(params@);
    vstd::utf8::encode_utf8_decode_utf8(other@);
    let lists = cache::views(gt@);
    assert(cache::sizes_fit(want, lists));
    assert(cache::caches(stored@, want, lists));
    assert(r is Some);
    let read = cache::views(r->0@);
    cache::law_cache_round_trip(stored@, want, lists, read);
    assert forall|q: int| 0 <= q < gt@.len() implies (#[trigger] r->0@[q])@ == gt@[q]@ by {
        assert(read[q] == lists[q]);
    }
    if s is Some {
        cache::law_stale_parameters_miss(stored@, want, wrong, lists, cache::views(s->0@));
    }
}

/// A selectivity below one gets the random filter of that fraction, from a seed
/// that is mixed of the run's seed and the selectivity; any other gets none.
pub proof fn law_filter_of_a_selectivity(
    n: usize,
    selectivity: u64,
    seed: u64,
    mixed: u64,
    less: bool,
    r: Option<Bitset>,
    random: Bitset,
)
    requires
        call_ensures(report::corpus_filter, (n, selectivity, seed), r),
        call_ensures(ieee::is_less_64, (selectivity, ieee::ONE_64), less),
        mixed == seed ^ selectivity,
        call_ensures(Bitset::random, (n, selectivity, mixed), random),
    ensures
        r is Some <==> less,
        r is Some ==> r->0.size() == n && r->0@ == random@,
{
    if r is Some {
        assert forall|id: u32| r->0@.contains(id) <==> random@.contains(id) by {}
        assert(r->0@ =~= random@);
    }
}

/// Under one seed different selectivities draw from different streams, and
/// under one selectivity different seeds do.
pub proof fn law_filter_streams_differ(seed_a: u64, seed_b: u64, a: u64, b: u64)
    ensures
        a != b ==> seed_a ^ a != seed_a ^ b,
        seed_a != seed_b ==> seed_a ^ a != seed_b ^ a,
{
    assert(a != b ==> seed_a ^ a != seed_a ^ b) by (bit_vector);
    assert(seed_a != seed_b ==> seed_a ^ a != seed_b ^ a) by (bit_vector);
}

/// The candidates of a filter are the ids that it lists; without one they are
/// all rows.
pub proof fn law_candidates_are_counted(
    filter: Option<&Bitset>,
    n: usize,
    r: usize,
    ones: Vec<u32>,
)
    requires
        call_ensures(report::candidate_count, (filter, n), r),
        filter matches Some(f) ==> call_ensures(Bitset::iter_ones, (f,), ones),
    ensures
        filter is None ==> r == n,
        filter is Some ==> r == ones@.len(),
{
    if filter is Some {
        let set = filter->0@;
        assert(ones@.no_duplicates());
        assert(set =~= ones@.to_set()) by {
            assert forall|id: u32| #[trigger] set.contains(id) <==> ones@.to_set().contains(id) by {
                assert(set.contains(id) <==> ones@.contains(id));
            }
        }
        ones@.unique_seq_to_set();
    }
}

/// The shares of work follow one another from the first item to the last, none
/// is empty, and there are no more of them than threads.
pub proof fn law_shares_follow_one_another(
    total: usize,
    threads: usize,
    r: Vec<(usize, usize)>,
    i: int,
)
    requires
        call_ensures(chunks::chunk_ranges, (total, threads), r),
        0 <= i < r@.len(),
    ensures
        r@[i].0 < r@[i].1,
        i == 0 ==> r@[i].0 == 0,
        i + 1 < r@.len() ==> r@[i].1 == r@[i + 1].0,
        i + 1 == r@.len() ==> r@[i].1 == total,
        threads > 0 ==> r@.len() <= threads,
        threads == 0 ==> r@.len() <= 1,
{
    let size = chunks::share(total as nat, threads as nat) as int;
    let n = r@.len() as int;
    let t = total as int;
    assert(0 * size == 0) by (nonlinear_arith);
    assert(r@[i].0 == i * size);
    if i + 1 < n {
        assert(r@[i + 1].0 == (i + 1) * size);
        assert(r@[i + 1].0 < r@[i + 1].1);
    }
    let w: int = if threads == 0 {
        1
    } else {
        threads as int
    };
    vstd::arithmetic::div_mod::lemma_fundamental_div_mod(t + w - 1, w);
    let q = (t + w - 1) / w;
    assert(w * q > t - 1) by {
        assert(w * q == t + w - 1 - (t + w - 1) % w);
    }
    assert(size >= q && size >= 1);
    assert(r@[n - 1].0 == (n - 1) * size);
    if n > w {
        assert((n - 1) * size >= w * q) by (nonlinear_arith)
            requires
                n - 1 >= w,
                size >= q,
                size >= 1,
                w >= 1,
        ;
        assert(r@[n - 1].0 < r@[n - 1].1 <= t);
    }
}

/// There is a share wherever there is work.
pub proof fn law_no_work_no_shares(total: usize, threads: usize, r: Vec<(usize, usize)>)
    requires
        call_ensures(chunks::chunk_ranges, (total, threads), r),
    ensures
        total == 0 <==> r@.len() == 0,
{
    let size = chunks::share(total as nat, threads as nat) as int;
    assert(0 * size == 0) by (nonlinear_arith);
    if r@.len() > 0 {
        assert(r@[0].0 < r@[0].1);
    }
}

/// Row `i` of flat rows.
pub open spec fn row(flat: Seq<u32>, dim: usize, i: int) -> Seq<u32> {
    Seq::new(dim as nat, |j: int| flat[i * dim + j])
}

proof fn lemma_row(flat: Seq<u32>, dim: usize, i: int)
    requires
        dim > 0,
        0 <= i < flat.len() / dim as nat,
    ensures
        rows::row_of(flat, dim as nat, i) == row(flat, dim, i),
{
    crate::storage::geometry::lemma_row_place(flat.len(), dim as nat, dim as nat, i as nat);
    assert(rows::row_of(flat, dim as nat, i) =~= row(flat, dim, i));
}

/// The first row that a test rejects: it fails the test and all rows before it
/// pass; all pass where there is none.
pub proof fn law_first_rejected<F: Fn(&[u32]) -> bool>(
    flat: &[u32],
    dim: usize,
    accept: &F,
    test: spec_fn(Seq<u32>) -> bool,
    r: Option<usize>,
    j: int,
)
    requires
        dim > 0,
        forall|slice: &[u32], answer: bool| #[trigger]
            call_ensures(*accept, (slice,), answer) ==> answer == test(slice@),
        call_ensures(rows::first_rejected::<F>, (flat, dim, accept), r),
        0 <= j < flat@.len() / dim as nat,
    ensures
        r matches Some(i) ==> i < flat@.len() / dim as nat && !test(row(flat@, dim, i as int)) && (j
            < i ==> test(row(flat@, dim, j))),
        r is None ==> test(row(flat@, dim, j)),
{
    lemma_row(flat@, dim, j);
    let here = rows::row_of(flat@, dim as nat, j);
    if r is Some {
        let i = r->0;
        lemma_row(flat@, dim, i as int);
        assert(rows::answers(*accept, rows::row_of(flat@, dim as nat, i as int), false));
        if j < i {
            assert(rows::answers(*accept, here, true));
        }
    } else {
        assert(rows::answers(*accept, here, true));
    }
}

/// Changing rows changes each by itself: row `i` of the outcome is what the
/// change makes of row `i`.
pub proof fn law_rows_change_one_by_one<L: Fn(Vec<u32>) -> Vec<u32>>(
    flat: &[u32],
    dim: usize,
    change: &L,
    made: spec_fn(Seq<u32>) -> Seq<u32>,
    r: Vec<u32>,
    i: int,
)
    requires
        dim > 0,
        forall|v: Vec<u32>, w: Vec<u32>| #[trigger]
            call_ensures(*change, (v,), w) ==> w@ == made(v@),
        call_ensures(rows::change_rows::<L>, (flat, dim, change), r),
        0 <= i < flat@.len() / dim as nat,
    ensures
        r@.len() == flat@.len(),
        row(r@, dim, i) == made(row(flat@, dim, i)),
{
    lemma_row(flat@, dim, i);
    lemma_row(r@, dim, i);
    let (before, after) = (
        rows::row_of(flat@, dim as nat, i),
        rows::row_of(r@, dim as nat, i),
    );
    assert(rows::became(*change, before, after));
}

/// What is said of mismatched dimensions, and when.
pub proof fn law_dimensions_must_agree(corpus: usize, queries: usize, r: Option<String>)
    requires
        call_ensures(report::dims_error, (corpus, queries), r),
    ensures
        corpus == queries <==> r is None,
        r is Some ==> r->0@ == "corpus dim "@ + text::decimal(corpus as nat) + " != query dim "@
            + text::decimal(queries as nat),
{
}

/// Bytes per vector: four per element, one per code and four for the scale, and
/// a bit per sign.
pub proof fn law_vector_sizes(dim: usize, r: (u128, u128, usize))
    requires
        call_ensures(report::vector_bytes, (dim,), r),
    ensures
        r.0 == 4 * dim,
        r.1 == dim + 4,
        dim <= 8 * r.2 < dim + 8,
{
}

/// A filter that leaves fewer than eight times the greatest depth is warned of,
/// with the number of rows that it leaves.
pub proof fn law_warning(candidates: usize, kmax: usize, selectivity: &str, r: Option<String>)
    requires
        call_ensures(report::degenerate_warning, (candidates, kmax, selectivity), r),
    ensures
        r is Some <==> candidates < 8 * kmax,
        r is Some ==> r->0@ == "warning: only "@ + text::decimal(candidates as nat)
            + " filter survivors at s="@ + selectivity@ + " (< 8·kmax = "@ + text::decimal(
            (8 * kmax) as nat,
        ) + ") — cells are degenerate"@,
{
}

/// The heading of a filter tells its selectivity and its candidates.
pub proof fn law_filter_heading(filtered: bool, selectivity: &str, candidates: usize, r: String)
    requires
        call_ensures(report::filter_label, (filtered, selectivity, candidates), r),
    ensures
        filtered ==> r@ == "s="@ + selectivity@ + " ("@ + text::decimal(candidates as nat)
            + " candidates)"@,
        !filtered ==> r@ == "none (s=1.00, "@ + text::decimal(candidates as nat) + " candidates)"@,
{
}

/// What is said of a row that is not of unit length: which file, which row, and
/// its length.
pub proof fn law_norm_message(what: &str, row: usize, norm: &str, r: String)
    requires
        call_ensures(rows::norm_error, (what, row, norm), r),
    ensures
        r@ == what@ + " row "@ + text::decimal(row as nat) + " has L2 norm "@ + norm@
            + ", expected 1.0 — pass --normalize to normalize file data"@,
{
}

/// The four bytes of a number, the lowest first.
pub open spec fn low_first(n: int) -> Seq<u8> {
    seq![
        (n % 0x100) as u8,
        (n / 0x100 % 0x100) as u8,
        (n / 0x1_0000 % 0x100) as u8,
        (n / 0x100_0000 % 0x100) as u8,
    ]
}

/// How a cache begins: its mark, the parameters with their length in front, and
/// the number of queries.
pub proof fn law_cache_front(params: &str, gt: &[Vec<Hit>], bytes: Vec<u8>)
    requires
        call_ensures(cache::encode_gt, (params, gt), bytes),
    ensures
        ({
            let coded = vstd::utf8::encode_utf8(params@);
            let front = seq![0x47u8, 0x4B, 0x47, 0x54, 0x31, 0x0A] + low_first(coded.len() as int)
                + coded + low_first(gt@.len() as int);
            &&& front.len() <= bytes@.len()
            &&& bytes@.take(front.len() as int) == front
            &&& gt@.len() == 0 ==> bytes@ == front
        }),
{
    reveal(cache::front_bytes);
    let coded = vstd::utf8::encode_utf8(params@);
    let front = cache::front_bytes(coded, gt@.len() as int);
    assert(front =~= seq![0x47u8, 0x4B, 0x47, 0x54, 0x31, 0x0A] + low_first(coded.len() as int)
        + coded + low_first(gt@.len() as int));
    assert(bytes@.take(front.len() as int) =~= front);
    if gt@.len() == 0 {
        assert(cache::views(gt@) =~= Seq::<Seq<Hit>>::empty());
        assert(bytes@ =~= front);
    }
}

/// What one more query adds behind the others: the number of its hits, and each
/// hit's id and score.
pub proof fn law_cache_grows_by_a_query(
    params: &str,
    gt: &[Vec<Hit>],
    longer: &[Vec<Hit>],
    hits: Vec<Hit>,
    bytes: Vec<u8>,
    more: Vec<u8>,
)
    requires
        longer@ == gt@.push(hits),
        call_ensures(cache::encode_gt, (params, gt), bytes),
        call_ensures(cache::encode_gt, (params, longer), more),
    ensures
        ({
            let at = 14 + vstd::utf8::encode_utf8(params@).len() as int;
            more@.skip(at) == bytes@.skip(at) + low_first(hits@.len() as int) + wire(hits@)
        }),
{
    reveal(cache::front_bytes);
    let coded = vstd::utf8::encode_utf8(params@);
    let at = 14 + coded.len() as int;
    let (lists, all) = (cache::views(gt@), cache::views(longer@));
    assert(all.drop_last() =~= lists);
    assert(bytes@.skip(at) =~= cache::lists_bytes(lists));
    assert(more@.skip(at) =~= cache::lists_bytes(all));
    lemma_wire(hits@);
    assert(low_first(hits@.len() as int) =~= cache::le32(hits@.len() as int));
    assert(cache::lists_bytes(all) =~= cache::lists_bytes(lists) + low_first(hits@.len() as int)
        + wire(hits@));
}

/// Ids and scores in turn, four bytes each.
pub open spec fn wire(hits: Seq<Hit>) -> Seq<u8>
    decreases hits.len(),
{
    if hits.len() == 0 {
        Seq::empty()
    } else {
        low_first(hits[0].id as int) + low_first(hits[0].score as int) + wire(hits.skip(1))
    }
}

proof fn lemma_wire_end(hits: Seq<Hit>)
    requires
        hits.len() > 0,
    ensures
        wire(hits) == wire(hits.drop_last()) + (low_first(hits.last().id as int) + low_first(
            hits.last().score as int,
        )),
    decreases hits.len(),
{
    if hits.len() > 1 {
        let rest = hits.skip(1);
        lemma_wire_end(rest);
        assert(rest.drop_last() =~= hits.drop_last().skip(1));
        let (a, b, c) = (
            low_first(hits[0].id as int) + low_first(hits[0].score as int),
            wire(rest.drop_last()),
            low_first(hits.last().id as int) + low_first(hits.last().score as int),
        );
        assert(a + (b + c) =~= (a + b) + c);
    } else {
        assert(hits.skip(1) =~= Seq::<Hit>::empty());
        assert(hits.drop_last() =~= Seq::<Hit>::empty());
        assert(wire(hits) =~= wire(hits.drop_last()) + (low_first(hits.last().id as int)
            + low_first(hits.last().score as int)));
    }
}

proof fn lemma_wire(hits: Seq<Hit>)
    ensures
        cache::hits_bytes(hits) == wire(hits),
    decreases hits.len(),
{
    if hits.len() > 0 {
        lemma_wire(hits.drop_last());
        lemma_wire_end(hits);
        let h = hits.last();
        assert(cache::hit_bytes(h) =~= low_first(h.id as int) + low_first(h.score as int));
    }
}

/// Ground truth comes from the cache where the cache was written under the same
/// parameters, and is computed where there is no cache or it was written under
/// others.
pub proof fn law_truth_is_loaded_or_computed<F: FnOnce() -> Vec<Vec<Hit>>>(
    cached: Option<&[u8]>,
    params: &str,
    compute: F,
    other: &str,
    gt: &[Vec<Hit>],
    bytes: Vec<u8>,
    r: (Vec<Vec<Hit>>, bool),
)
    requires
        vstd::utf8::encode_utf8(other@).len() <= u32::MAX,
        gt@.len() <= u32::MAX,
        forall|q: int| 0 <= q < gt@.len() ==> (#[trigger] gt@[q])@.len() <= u32::MAX,
        call_ensures(cache::encode_gt, (other, gt), bytes),
        cached is Some ==> cached->0@ == bytes@,
        call_ensures(cache::load_or_compute_gt::<F>, (cached, params, compute), r),
    ensures
        r.1 <==> cached is Some && other@ == params@,
        !r.1 ==> call_ensures(compute, (), r.0),
        r.1 ==> r.0@.len() == gt@.len() && forall|q: int|
            0 <= q < gt@.len() ==> (#[trigger] r.0@[q])@ == gt@[q]@,
{
    let want = vstd::utf8::encode_utf8(other@);
    let asked = vstd::utf8::encode_utf8(params@);
    vstd::utf8::encode_utf8_decode_utf8(params@);
    vstd::utf8::encode_utf8_decode_utf8(other@);
    let lists = cache::views(gt@);
    if cached is Some {
        let stored = cached->0@;
        assert(cache::sizes_fit(want, lists));
        assert(cache::caches(stored, want, lists));
        if other@ == params@ {
            assert(r.1);
        }
        if r.1 {
            let read = cache::views(r.0@);
            if other@ != params@ {
                cache::law_stale_parameters_miss(stored, want, asked, lists, read);
            }
            cache::law_cache_round_trip(stored, want, lists, read);
            assert forall|q: int| 0 <= q < gt@.len() implies (#[trigger] r.0@[q])@ == gt@[q]@ by {
                assert(read[q] == lists[q]);
            }
        }
    }
}

} // verus!
