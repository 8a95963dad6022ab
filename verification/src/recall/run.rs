//! Running the evaluation grid.
//!
//! Two-stage cells share one coarse scan per coarse kind, at the depth of the
//! largest factor; the pools of smaller combinations are its prefixes, which
//! the prefix property of selection makes the same as scans of their own.

use vstd::prelude::*;
use crate::bitset::Bitset;
use crate::kernels::backend::{self, Kernels};
use crate::recall::data::Data;
use crate::recall::eval::{self, Cell, Coarse, Row, Store};
use crate::recall::measure;
use crate::scan::hit::Hit;

verus! {

/// The greatest of some depths.
pub open spec fn greatest(ks: Seq<usize>) -> usize
    decreases ks.len(),
{
    if ks.len() == 0 {
        0
    } else if ks.last() > greatest(ks.drop_last()) {
        ks.last()
    } else {
        greatest(ks.drop_last())
    }
}

/// The single-stage cells, in order.
pub open spec fn single_stage(cells: Seq<Cell>) -> Seq<Cell>
    decreases cells.len(),
{
    if cells.len() == 0 {
        Seq::empty()
    } else if cells.last().two_stage is None {
        single_stage(cells.drop_last()).push(cells.last())
    } else {
        single_stage(cells.drop_last())
    }
}

/// The two-stage cells of one coarse kind, in order.
pub open spec fn two_stage(cells: Seq<Cell>, coarse: Coarse) -> Seq<Cell>
    decreases cells.len(),
{
    if cells.len() == 0 {
        Seq::empty()
    } else if cells.last().coarse == coarse && cells.last().two_stage is Some {
        two_stage(cells.drop_last(), coarse).push(cells.last())
    } else {
        two_stage(cells.drop_last(), coarse)
    }
}

/// The factor of a two-stage cell.
pub open spec fn factor_of(cell: Cell) -> usize {
    (cell.two_stage->0).1
}

/// The largest factor among two-stage cells.
pub open spec fn largest_factor(group: Seq<Cell>) -> usize
    decreases group.len(),
{
    if group.len() == 0 {
        0
    } else if factor_of(group.last()) > largest_factor(group.drop_last()) {
        factor_of(group.last())
    } else {
        largest_factor(group.drop_last())
    }
}

/// The cells in the order of their rows: single-stage first, then by coarse
/// kind.
pub open spec fn row_order(cells: Seq<Cell>) -> Seq<Cell> {
    single_stage(cells) + two_stage(cells, Coarse::I8Sym) + two_stage(cells, Coarse::BinSym)
        + two_stage(cells, Coarse::BinAsymF32q) + two_stage(cells, Coarse::BinAsymI8q)
}

/// The pools are the ids of the hits.
pub open spec fn pools_of(hits: Seq<Vec<Hit>>, pools: Seq<Vec<u32>>) -> bool {
    &&& pools.len() == hits.len()
    &&& forall|i: int|
        0 <= i < hits.len() ==> (#[trigger] pools[i])@ == measure::ids_of(hits[i]@)
}

/// How deep the shared coarse scan of a group goes.
pub open spec fn depth(cells: Seq<Cell>, coarse: Coarse, ks: Seq<usize>) -> int {
    largest_factor(two_stage(cells, coarse)) * greatest(ks)
}

/// The row of a single-stage cell, from what `scan` gives.
pub open spec fn scan_row<S: Fn(Coarse, usize) -> Vec<Vec<Hit>>>(
    scan: S,
    row: Row,
    cell: Cell,
    ks: Seq<usize>,
    gt: Seq<Vec<Hit>>,
) -> bool {
    &&& row.describes(cell, ks)
    &&& exists|results: Vec<Vec<Hit>>| #[trigger]
        call_ensures(scan, (cell.coarse, greatest(ks)), results) && eval::recalls_of_scans(
            row.recalls@,
            results@,
            ks,
            gt,
        )
}

/// The row of a two-stage cell, from what `scan` and `rerank` give.
pub open spec fn rerank_row<
    S: Fn(Coarse, usize) -> Vec<Vec<Hit>>,
    R: Fn(Store, &Vec<Vec<u32>>, usize) -> Vec<Vec<Vec<Hit>>>,
>(scan: S, rerank: R, row: Row, cell: Cell, depth: usize, ks: Seq<usize>, gt: Seq<Vec<Hit>>) -> bool {
    &&& row.describes(cell, ks)
    &&& exists|hits: Vec<Vec<Hit>>, pools: Vec<Vec<u32>>, results: Vec<Vec<Vec<Hit>>>|
        {
            &&& #[trigger] call_ensures(scan, (cell.coarse, depth), hits)
            &&& pools_of(hits@, pools@)
            &&& #[trigger] call_ensures(
                rerank,
                ((cell.two_stage->0).0, &pools, factor_of(cell)),
                results,
            )
            &&& eval::recalls_of_reranks(row.recalls@, results@, ks, gt)
        }
}

/// `scan` can be called for every coarse kind of the cells and gives one
/// result per query; `rerank` can then be called for every store and factor of
/// the cells and gives one result per query and depth.
pub open spec fn runnable<
    S: Fn(Coarse, usize) -> Vec<Vec<Hit>>,
    R: Fn(Store, &Vec<Vec<u32>>, usize) -> Vec<Vec<Vec<Hit>>>,
>(scan: S, rerank: R, cells: Seq<Cell>, queries: nat, depths: nat) -> bool {
    &&& forall|i: int, k: usize|
        0 <= i < cells.len() ==> #[trigger] call_requires(scan, (cells[i].coarse, k))
    &&& forall|c: Coarse, k: usize, hits: Vec<Vec<Hit>>| #[trigger]
        call_ensures(scan, (c, k), hits) ==> hits@.len() == queries
    &&& forall|i: int, c: Coarse, k: usize, hits: Vec<Vec<Hit>>, pools: Vec<Vec<u32>>|
        #![trigger cells[i], call_ensures(scan, (c, k), hits), pools_of(hits@, pools@)]
        0 <= i < cells.len() && cells[i].two_stage is Some && call_ensures(scan, (c, k), hits)
            && pools_of(hits@, pools@) ==> call_requires(
            rerank,
            ((cells[i].two_stage->0).0, &pools, factor_of(cells[i])),
        )
    &&& forall|s: Store, pools: &Vec<Vec<u32>>, f: usize, results: Vec<Vec<Vec<Hit>>>|
        #[trigger] call_ensures(rerank, (s, pools, f), results) ==> results@.len() == pools@.len()
            && forall|q: int| 0 <= q < results@.len() ==> (#[trigger] results@[q])@.len() == depths
}

/// The greatest depth bounds every depth.
pub proof fn lemma_greatest(ks: Seq<usize>)
    ensures
        forall|i: int| 0 <= i < ks.len() ==> #[trigger] ks[i] <= greatest(ks),
    decreases ks.len(),
{
    if ks.len() > 0 {
        lemma_greatest(ks.drop_last());
        assert forall|i: int| 0 <= i < ks.len() implies #[trigger] ks[i] <= greatest(ks) by {
            if i < ks.len() - 1 {
                assert(ks.drop_last()[i] == ks[i]);
            }
        }
    }
}

/// A group holds two-stage cells of its kind, all of them among the cells.
proof fn lemma_group(cells: Seq<Cell>, coarse: Coarse)
    ensures
        forall|j: int|
            0 <= j < two_stage(cells, coarse).len() ==> {
                &&& cells.contains(#[trigger] two_stage(cells, coarse)[j])
                &&& two_stage(cells, coarse)[j].coarse == coarse
                &&& two_stage(cells, coarse)[j].two_stage is Some
                &&& factor_of(two_stage(cells, coarse)[j]) <= largest_factor(
                    two_stage(cells, coarse),
                )
            },
    decreases cells.len(),
{
    if cells.len() > 0 {
        let before = cells.drop_last();
        lemma_group(before, coarse);
        let group = two_stage(cells, coarse);
        assert forall|j: int| 0 <= j < group.len() implies {
            &&& cells.contains(#[trigger] group[j])
            &&& group[j].coarse == coarse
            &&& group[j].two_stage is Some
            &&& factor_of(group[j]) <= largest_factor(group)
        } by {
            let old_group = two_stage(before, coarse);
            if j < old_group.len() {
                assert(group[j] == old_group[j]);
                assert(before.contains(old_group[j]));
                let i = choose|i: int| 0 <= i < before.len() && before[i] == old_group[j];
                assert(cells[i] == group[j]);
                if group.len() > old_group.len() {
                    assert(group.drop_last() =~= old_group);
                } else {
                    assert(group =~= old_group);
                }
            } else {
                assert(cells[cells.len() - 1] == group[j]);
                assert(group.drop_last() =~= old_group);
            }
        }
    }
}

/// The largest factor of a group is one of the cells' factors.
proof fn lemma_largest_is_one(group: Seq<Cell>)
    requires
        group.len() > 0,
    ensures
        exists|j: int| 0 <= j < group.len() && factor_of(#[trigger] group[j]) == largest_factor(group),
    decreases group.len(),
{
    if largest_factor(group) == factor_of(group.last()) {
        assert(factor_of(group[group.len() - 1]) == largest_factor(group));
    } else {
        let before = group.drop_last();
        assert(before.len() == 0 ==> largest_factor(before) == 0);
        lemma_largest_is_one(before);
        let j = choose|j: int|
            0 <= j < before.len() && factor_of(#[trigger] before[j]) == largest_factor(before);
        assert(factor_of(group[j]) == largest_factor(group));
    }
}

/// The shared scan goes as deep as each of its cells needs.
pub proof fn lemma_depth_covers(cells: Seq<Cell>, cell: Cell, ks: Seq<usize>)
    requires
        cells.contains(cell),
        cell.two_stage is Some,
    ensures
        factor_of(cell) <= largest_factor(two_stage(cells, cell.coarse)),
        0 <= factor_of(cell) * greatest(ks) <= depth(cells, cell.coarse, ks),
    decreases cells.len(),
{
    let (f, most) = (factor_of(cell), largest_factor(two_stage(cells, cell.coarse)));
    let before = cells.drop_last();
    let (group, old_group) = (two_stage(cells, cell.coarse), two_stage(before, cell.coarse));
    if group.len() > 0 && group != old_group {
        assert(group.drop_last() =~= old_group);
    }
    if cells.last() != cell {
        let i = choose|i: int| 0 <= i < cells.len() && cells[i] == cell;
        assert(before[i] == cell);
        lemma_depth_covers(before, cell, ks);
    }
    assert(f <= most);
    assert(0 <= f * greatest(ks) <= most * greatest(ks)) by (nonlinear_arith)
        requires
            f <= most,
    ;
}

/// The single-stage cells are among the cells.
proof fn lemma_single(cells: Seq<Cell>)
    ensures
        forall|j: int|
            0 <= j < single_stage(cells).len() ==> cells.contains(
                #[trigger] single_stage(cells)[j],
            ) && single_stage(cells)[j].two_stage is None,
    decreases cells.len(),
{
    if cells.len() > 0 {
        let before = cells.drop_last();
        lemma_single(before);
        let (old_list, list) = (single_stage(before), single_stage(cells));
        assert forall|j: int| 0 <= j < list.len() implies cells.contains(#[trigger] list[j])
            && list[j].two_stage is None by {
            if j < old_list.len() {
                assert(list[j] == old_list[j]);
                assert(before.contains(old_list[j]));
                let i = choose|i: int| 0 <= i < before.len() && before[i] == old_list[j];
                assert(cells[i] == list[j]);
            } else {
                assert(cells[cells.len() - 1] == list[j]);
            }
        }
    }
}

/// The greatest depth.
fn max_of(ks: &[usize]) -> (r: usize)
    ensures
        r == greatest(ks@),
{
    let mut best: usize = 0;
    let mut i: usize = 0;
    while i < ks.len()
        invariant
            i <= ks@.len(),
            best == greatest(ks@.take(i as int)),
        decreases ks@.len() - i,
    {
        assert(ks@.take(i + 1).drop_last() =~= ks@.take(i as int));
        if ks[i] > best {
            best = ks[i];
        }
        i += 1;
    }
    assert(ks@.take(i as int) =~= ks@);
    best
}

/// The single-stage cells.
fn singles(cells: &[Cell]) -> (r: Vec<Cell>)
    ensures
        r@ == single_stage(cells@),
{
    let mut out: Vec<Cell> = Vec::new();
    let mut i: usize = 0;
    while i < cells.len()
        invariant
            i <= cells@.len(),
            out@ == single_stage(cells@.take(i as int)),
        decreases cells@.len() - i,
    {
        let cell: Cell = cells[i];
        assert(cells@.take(i + 1).drop_last() =~= cells@.take(i as int));
        if cell.two_stage.is_none() {
            out.push(cell);
        }
        i += 1;
    }
    assert(cells@.take(i as int) =~= cells@);
    out
}

/// The two-stage cells of one coarse kind.
fn group_of(cells: &[Cell], coarse: Coarse) -> (r: Vec<Cell>)
    ensures
        r@ == two_stage(cells@, coarse),
{
    let mut out: Vec<Cell> = Vec::new();
    let mut i: usize = 0;
    while i < cells.len()
        invariant
            i <= cells@.len(),
            out@ == two_stage(cells@.take(i as int), coarse),
        decreases cells@.len() - i,
    {
        let cell: Cell = cells[i];
        assert(cells@.take(i + 1).drop_last() =~= cells@.take(i as int));
        if cell.coarse == coarse && cell.two_stage.is_some() {
            out.push(cell);
        }
        i += 1;
    }
    assert(cells@.take(i as int) =~= cells@);
    out
}

/// The largest factor of a group.
fn max_factor(group: &Vec<Cell>) -> (r: usize)
    requires
        forall|j: int| 0 <= j < group@.len() ==> (#[trigger] group@[j]).two_stage is Some,
    ensures
        r == largest_factor(group@),
{
    let mut best: usize = 0;
    let mut i: usize = 0;
    while i < group.len()
        invariant
            i <= group@.len(),
            forall|j: int| 0 <= j < group@.len() ==> (#[trigger] group@[j]).two_stage is Some,
            best == largest_factor(group@.take(i as int)),
        decreases group@.len() - i,
    {
        assert(group@.take(i + 1).drop_last() =~= group@.take(i as int));
        if let Some((_, factor)) = group[i].two_stage {
            if factor > best {
                best = factor;
            }
        }
        i += 1;
    }
    assert(group@.take(i as int) =~= group@);
    best
}

/// The ids of every query's hits.
fn to_pools(hits: &Vec<Vec<Hit>>) -> (r: Vec<Vec<u32>>)
    ensures
        pools_of(hits@, r@),
{
    let mut out: Vec<Vec<u32>> = Vec::new();
    let mut q: usize = 0;
    while q < hits.len()
        invariant
            q <= hits@.len(),
            out@.len() == q,
            forall|i: int| 0 <= i < q ==> (#[trigger] out@[i])@ == measure::ids_of(hits@[i]@),
        decreases hits@.len() - q,
    {
        let list: &Vec<Hit> = &hits[q];
        let mut ids: Vec<u32> = Vec::new();
        let mut i: usize = 0;
        while i < list.len()
            invariant
                i <= list@.len(),
                ids@ == measure::ids_of(list@.take(i as int)),
            decreases list@.len() - i,
        {
            ids.push(list[i].id);
            i += 1;
            assert(ids@ =~= measure::ids_of(list@.take(i as int)));
        }
        assert(list@.take(i as int) =~= list@);
        out.push(ids);
        q += 1;
    }
    out
}

/// Appends the row of every single-stage cell.
fn run_singles<S: Fn(Coarse, usize) -> Vec<Vec<Hit>>>(
    rows: &mut Vec<Row>,
    list: &Vec<Cell>,
    ks: &[usize],
    gt: &[Vec<Hit>],
    prefixes: &Vec<Vec<Vec<u32>>>,
    queries: usize,
    scan: &S,
)
    requires
        queries <= gt@.len(),
        measure::prefixes_of(gt@, ks@, prefixes@),
        forall|j: int| 0 <= j < list@.len() ==> (#[trigger] list@[j]).two_stage is None,
        forall|j: int|
            0 <= j < list@.len() ==> call_requires(
                *scan,
                ((#[trigger] list@[j]).coarse, greatest(ks@)),
            ),
        forall|c: Coarse, k: usize, hits: Vec<Vec<Hit>>| #[trigger]
            call_ensures(*scan, (c, k), hits) ==> hits@.len() == queries,
    ensures
        final(rows)@.len() == old(rows)@.len() + list@.len(),
        final(rows)@.take(old(rows)@.len() as int) == old(rows)@,
        forall|j: int|
            0 <= j < list@.len() ==> scan_row(
                *scan,
                #[trigger] final(rows)@[old(rows)@.len() + j],
                list@[j],
                ks@,
                gt@,
            ),
{
    let kmax: usize = max_of(ks);
    let ghost before = rows@;
    let ghost base = rows@.len() as int;
    let mut i: usize = 0;
    assert(rows@.take(base) =~= before);
    while i < list.len()
        invariant
            i <= list@.len(),
            kmax == greatest(ks@),
            queries <= gt@.len(),
            measure::prefixes_of(gt@, ks@, prefixes@),
            forall|j: int| 0 <= j < list@.len() ==> (#[trigger] list@[j]).two_stage is None,
            forall|j: int|
                0 <= j < list@.len() ==> call_requires(
                    *scan,
                    ((#[trigger] list@[j]).coarse, greatest(ks@)),
                ),
            forall|c: Coarse, k: usize, hits: Vec<Vec<Hit>>| #[trigger]
                call_ensures(*scan, (c, k), hits) ==> hits@.len() == queries,
            base == before.len(),
            rows@.len() == base + i,
            rows@.take(base) == before,
            forall|j: int|
                0 <= j < i ==> scan_row(
                    *scan,
                    #[trigger] rows@[base + j],
                    list@[j],
                    ks@,
                    gt@,
                ),
        decreases list@.len() - i,
    {
        let cell: Cell = list[i];
        let results: Vec<Vec<Hit>> = scan(cell.coarse, kmax);
        let recalls = eval::tally_scans(&results, ks, gt, prefixes);
        let row: Row = Row {
            coarse: cell.coarse.label(),
            store: None,
            factor: None,
            pool_at: vec![None; ks.len()],
            recalls,
        };
        assert(row.describes(cell, ks@));
        assert(scan_row(*scan, row, cell, ks@, gt@));
        let ghost so_far = rows@;
        rows.push(row);
        i += 1;
        proof {
            assert(rows@.take(base) =~= so_far.take(base));
            assert forall|j: int| 0 <= j < i implies scan_row(
                *scan,
                #[trigger] rows@[base + j],
                list@[j],
                ks@,
                gt@,
            ) by {
                if j < i - 1 {
                    assert(rows@[base + j] == so_far[base + j]);
                }
            }
        }
    }
}

/// The pool sizes of a factor.
fn pool_sizes(factor: usize, ks: &[usize]) -> (r: Vec<Option<usize>>)
    requires
        forall|i: int| 0 <= i < ks@.len() ==> factor * #[trigger] ks@[i] <= usize::MAX,
    ensures
        r@.len() == ks@.len(),
        forall|i: int|
            0 <= i < ks@.len() ==> (#[trigger] r@[i]) is Some && r@[i]->0 == factor * ks@[i],
{
    let mut out: Vec<Option<usize>> = Vec::new();
    let mut i: usize = 0;
    while i < ks.len()
        invariant
            i <= ks@.len(),
            forall|i: int| 0 <= i < ks@.len() ==> factor * #[trigger] ks@[i] <= usize::MAX,
            out@.len() == i,
            forall|j: int|
                0 <= j < i ==> (#[trigger] out@[j]) is Some && out@[j]->0 == factor * ks@[j],
        decreases ks@.len() - i,
    {
        assert(factor * ks@[i as int] <= usize::MAX);
        out.push(Some(factor * ks[i]));
        i += 1;
    }
    out
}

/// Appends the row of every two-stage cell of one coarse kind.
fn run_group<
    S: Fn(Coarse, usize) -> Vec<Vec<Hit>>,
    R: Fn(Store, &Vec<Vec<u32>>, usize) -> Vec<Vec<Vec<Hit>>>,
>(
    rows: &mut Vec<Row>,
    cells: &[Cell],
    coarse: Coarse,
    ks: &[usize],
    gt: &[Vec<Hit>],
    prefixes: &Vec<Vec<Vec<u32>>>,
    queries: usize,
    scan: &S,
    rerank: &R,
)
    requires
        queries <= gt@.len(),
        measure::prefixes_of(gt@, ks@, prefixes@),
        runnable(*scan, *rerank, cells@, queries as nat, ks@.len()),
        forall|i: int|
            0 <= i < cells@.len() && (#[trigger] cells@[i]).two_stage is Some ==> factor_of(
                cells@[i],
            ) * greatest(ks@) <= usize::MAX,
    ensures
        final(rows)@.len() == old(rows)@.len() + two_stage(cells@, coarse).len(),
        final(rows)@.take(old(rows)@.len() as int) == old(rows)@,
        forall|j: int|
            0 <= j < two_stage(cells@, coarse).len() ==> rerank_row(
                *scan,
                *rerank,
                #[trigger] final(rows)@[old(rows)@.len() + j],
                two_stage(cells@, coarse)[j],
                depth(cells@, coarse, ks@) as usize,
                ks@,
                gt@,
            ),
{
    let group: Vec<Cell> = group_of(cells, coarse);
    let ghost before = rows@;
    let ghost base = rows@.len() as int;
    assert(rows@.take(base) =~= before);
    if group.len() == 0 {
        return;
    }
    proof {
        lemma_group(cells@, coarse);
        lemma_greatest(ks@);
        lemma_largest_is_one(group@);
        let j = choose|j: int|
            0 <= j < group@.len() && factor_of(#[trigger] group@[j]) == largest_factor(group@);
        let i = choose|i: int| 0 <= i < cells@.len() && cells@[i] == group@[j];
        assert(factor_of(cells@[i]) * greatest(ks@) <= usize::MAX);
        assert(call_requires(*scan, (cells@[i].coarse, depth(cells@, coarse, ks@) as usize)));
    }
    let deep: usize = max_factor(&group) * max_of(ks);
    let hits: Vec<Vec<Hit>> = scan(coarse, deep);
    let pools: Vec<Vec<u32>> = to_pools(&hits);
    let mut i: usize = 0;
    while i < group.len()
        invariant
            i <= group@.len(),
            group@ == two_stage(cells@, coarse),
            queries <= gt@.len(),
            measure::prefixes_of(gt@, ks@, prefixes@),
            runnable(*scan, *rerank, cells@, queries as nat, ks@.len()),
            forall|i: int|
                0 <= i < cells@.len() && (#[trigger] cells@[i]).two_stage is Some ==> factor_of(
                    cells@[i],
                ) * greatest(ks@) <= usize::MAX,
            deep == depth(cells@, coarse, ks@),
            call_ensures(*scan, (coarse, deep), hits),
            hits@.len() == queries,
            pools_of(hits@, pools@),
            base == before.len(),
            rows@.len() == base + i,
            rows@.take(base) == before,
            forall|j: int|
                0 <= j < i ==> rerank_row(
                    *scan,
                    *rerank,
                    #[trigger] rows@[base + j],
                    group@[j],
                    deep,
                    ks@,
                    gt@,
                ),
        decreases group@.len() - i,
    {
        let cell: Cell = group[i];
        proof {
            lemma_group(cells@, coarse);
            lemma_greatest(ks@);
            let c = choose|c: int| 0 <= c < cells@.len() && cells@[c] == group@[i as int];
            assert(cells@[c].two_stage is Some);
            assert(factor_of(cells@[c]) * greatest(ks@) <= usize::MAX);
            let factor = factor_of(cell) as int;
            assert forall|k: int| 0 <= k < ks@.len() implies factor * #[trigger] ks@[k]
                <= usize::MAX by {
                let (x, y) = (ks@[k] as int, greatest(ks@) as int);
                assert(factor * x <= factor * y) by (nonlinear_arith)
                    requires
                        0 <= factor,
                        x <= y,
                ;
            }
        }
        if let Some((store, factor)) = cell.two_stage {
            let results: Vec<Vec<Vec<Hit>>> = rerank(store, &pools, factor);
            let recalls = eval::tally_reranks(&results, ks, gt, prefixes);
            let row: Row = Row {
                coarse: coarse.label(),
                store: Some(store.label()),
                factor: Some(factor),
                pool_at: pool_sizes(factor, ks),
                recalls,
            };
            assert(row.describes(cell, ks@));
            assert(rerank_row(*scan, *rerank, row, cell, deep, ks@, gt@));
            let ghost so_far = rows@;
            rows.push(row);
            proof {
                assert(rows@.take(base) =~= so_far.take(base));
                assert forall|j: int| 0 <= j < i + 1 implies rerank_row(
                    *scan,
                    *rerank,
                    #[trigger] rows@[base + j],
                    group@[j],
                    deep,
                    ks@,
                    gt@,
                ) by {
                    if j < i {
                        assert(rows@[base + j] == so_far[base + j]);
                    }
                }
            }
        }
        i += 1;
    }
}

/// The row of a cell.
pub open spec fn cell_row<
    S: Fn(Coarse, usize) -> Vec<Vec<Hit>>,
    R: Fn(Store, &Vec<Vec<u32>>, usize) -> Vec<Vec<Vec<Hit>>>,
>(
    scan: S,
    rerank: R,
    row: Row,
    cell: Cell,
    cells: Seq<Cell>,
    ks: Seq<usize>,
    gt: Seq<Vec<Hit>>,
) -> bool {
    if cell.two_stage is None {
        scan_row(scan, row, cell, ks, gt)
    } else {
        rerank_row(scan, rerank, row, cell, depth(cells, cell.coarse, ks) as usize, ks, gt)
    }
}

/// Evaluates every cell, with `scan` to score all queries against one
/// representation and `rerank` to rerank all pools at every depth.
pub fn run_matrix_with<
    S: Fn(Coarse, usize) -> Vec<Vec<Hit>>,
    R: Fn(Store, &Vec<Vec<u32>>, usize) -> Vec<Vec<Vec<Hit>>>,
>(queries: usize, cells: &[Cell], ks: &[usize], gt: &[Vec<Hit>], scan: &S, rerank: &R) -> (r: Vec<
    Row,
>)
    requires
        ks@.len() > 0,
        queries <= gt@.len(),
        runnable(*scan, *rerank, cells@, queries as nat, ks@.len()),
        forall|i: int|
            0 <= i < cells@.len() && (#[trigger] cells@[i]).two_stage is Some ==> factor_of(
                cells@[i],
            ) * greatest(ks@) <= usize::MAX,
    ensures
        r@.len() == row_order(cells@).len(),
        forall|j: int|
            0 <= j < r@.len() ==> cell_row(
                *scan,
                *rerank,
                #[trigger] r@[j],
                row_order(cells@)[j],
                cells@,
                ks@,
                gt@,
            ),
{
    let prefixes: Vec<Vec<Vec<u32>>> = measure::gt_prefixes(gt, ks);
    let mut rows: Vec<Row> = Vec::new();
    let list: Vec<Cell> = singles(cells);
    proof {
        lemma_single(cells@);
        assert forall|j: int| 0 <= j < list@.len() implies call_requires(
            *scan,
            ((#[trigger] list@[j]).coarse, greatest(ks@)),
        ) by {
            let i = choose|i: int| 0 <= i < cells@.len() && cells@[i] == list@[j];
            assert(call_requires(*scan, (cells@[i].coarse, greatest(ks@))));
        }
        lemma_group(cells@, Coarse::I8Sym);
        lemma_group(cells@, Coarse::BinSym);
        lemma_group(cells@, Coarse::BinAsymF32q);
        lemma_group(cells@, Coarse::BinAsymI8q);
    }
    run_singles(&mut rows, &list, ks, gt, &prefixes, queries, scan);
    let ghost r0 = rows@;
    assert(rows_done(*scan, *rerank, r0, list@, cells@, ks@, gt@)) by {
        assert forall|j: int| 0 <= j < r0.len() implies cell_row(
            *scan,
            *rerank,
            #[trigger] r0[j],
            list@[j],
            cells@,
            ks@,
            gt@,
        ) by {
            assert(scan_row(*scan, r0[0 + j], list@[j], ks@, gt@));
        }
    }
    run_group(&mut rows, cells, Coarse::I8Sym, ks, gt, &prefixes, queries, scan, rerank);
    let ghost r1 = rows@;
    let ghost c1 = list@ + two_stage(cells@, Coarse::I8Sym);
    proof {
        lemma_rows_grow(*scan, *rerank, r0, r1, list@, cells@, Coarse::I8Sym, ks@, gt@);
    }
    run_group(&mut rows, cells, Coarse::BinSym, ks, gt, &prefixes, queries, scan, rerank);
    let ghost r2 = rows@;
    let ghost c2 = c1 + two_stage(cells@, Coarse::BinSym);
    proof {
        lemma_rows_grow(*scan, *rerank, r1, r2, c1, cells@, Coarse::BinSym, ks@, gt@);
    }
    run_group(&mut rows, cells, Coarse::BinAsymF32q, ks, gt, &prefixes, queries, scan, rerank);
    let ghost r3 = rows@;
    let ghost c3 = c2 + two_stage(cells@, Coarse::BinAsymF32q);
    proof {
        lemma_rows_grow(*scan, *rerank, r2, r3, c2, cells@, Coarse::BinAsymF32q, ks@, gt@);
    }
    run_group(&mut rows, cells, Coarse::BinAsymI8q, ks, gt, &prefixes, queries, scan, rerank);
    proof {
        lemma_rows_grow(*scan, *rerank, r3, rows@, c3, cells@, Coarse::BinAsymI8q, ks@, gt@);
    }
    rows
}

/// The rows are those of the cells done so far.
spec fn rows_done<
    S: Fn(Coarse, usize) -> Vec<Vec<Hit>>,
    R: Fn(Store, &Vec<Vec<u32>>, usize) -> Vec<Vec<Vec<Hit>>>,
>(
    scan: S,
    rerank: R,
    rows: Seq<Row>,
    done: Seq<Cell>,
    cells: Seq<Cell>,
    ks: Seq<usize>,
    gt: Seq<Vec<Hit>>,
) -> bool {
    &&& rows.len() == done.len()
    &&& forall|j: int|
        0 <= j < rows.len() ==> cell_row(
            scan,
            rerank,
            #[trigger] rows[j],
            done[j],
            cells,
            ks,
            gt,
        )
}

/// A group's rows are appended to those that are done.
proof fn lemma_rows_grow<
    S: Fn(Coarse, usize) -> Vec<Vec<Hit>>,
    R: Fn(Store, &Vec<Vec<u32>>, usize) -> Vec<Vec<Vec<Hit>>>,
>(
    scan: S,
    rerank: R,
    before: Seq<Row>,
    after: Seq<Row>,
    done: Seq<Cell>,
    cells: Seq<Cell>,
    coarse: Coarse,
    ks: Seq<usize>,
    gt: Seq<Vec<Hit>>,
)
    requires
        rows_done(scan, rerank, before, done, cells, ks, gt),
        after.len() == before.len() + two_stage(cells, coarse).len(),
        after.take(before.len() as int) == before,
        forall|j: int|
            0 <= j < two_stage(cells, coarse).len() ==> rerank_row(
                scan,
                rerank,
                #[trigger] after[before.len() + j],
                two_stage(cells, coarse)[j],
                depth(cells, coarse, ks) as usize,
                ks,
                gt,
            ),
    ensures
        rows_done(scan, rerank, after, done + two_stage(cells, coarse), cells, ks, gt),
{
    lemma_group(cells, coarse);
    let group = two_stage(cells, coarse);
    assert forall|j: int| 0 <= j < after.len() implies cell_row(
        scan,
        rerank,
        #[trigger] after[j],
        (done + group)[j],
        cells,
        ks,
        gt,
    ) by {
        if j < before.len() {
            assert(after[j] == after.take(before.len() as int)[j]);
            assert(cell_row(scan, rerank, before[j], done[j], cells, ks, gt));
        } else {
            let i = j - before.len();
            assert(after[before.len() + i] == after[j]);
            assert(group[i].coarse == coarse && group[i].two_stage is Some);
        }
    }
}

/// Every query's hits are what scanning it can give.
pub open spec fn all_found<D, B, T>(
    kern: Kernels<D, B, T>,
    data: &Data,
    coarse: Coarse,
    filter: Option<&Bitset>,
    k: nat,
    hits: Seq<Vec<Hit>>,
) -> bool where
    D: Fn(&[u32], &[u32]) -> u32,
    B: Fn(&[u32], &[u8]) -> u32,
    T: Fn(u32, u32) -> u32,
 {
    &&& hits.len() == data.q_f32@.len()
    &&& forall|q: int|
        0 <= q < hits.len() ==> eval::found(
            kern,
            data,
            coarse,
            q,
            filter,
            k,
            (#[trigger] hits[q])@,
        )
}

/// Every query's hits at every depth are what reranking its pool can give.
pub open spec fn all_reranked<D, B, T>(
    kern: Kernels<D, B, T>,
    data: &Data,
    store: Store,
    pools: Seq<Vec<u32>>,
    factor: nat,
    ks: Seq<usize>,
    results: Seq<Vec<Vec<Hit>>>,
) -> bool where
    D: Fn(&[u32], &[u32]) -> u32,
    B: Fn(&[u32], &[u8]) -> u32,
    T: Fn(u32, u32) -> u32,
 {
    &&& results.len() == data.q_f32@.len()
    &&& forall|q: int| 0 <= q < results.len() ==> (#[trigger] results[q])@.len() == ks.len()
    &&& forall|q: int, i: int|
        0 <= q < results.len() && 0 <= i < ks.len() ==> eval::reranked(
            kern,
            data,
            store,
            q,
            eval::pool_part(pools[q]@, factor, ks[i] as nat),
            ks[i] as nat,
            (#[trigger] results[q]@[i])@,
        )
}

/// All ids are rows of the corpus.
pub open spec fn hits_in_range(hits: Seq<Vec<Hit>>, rows: nat) -> bool {
    forall|q: int, i: int|
        0 <= q < hits.len() && 0 <= i < hits[q]@.len() ==> (#[trigger] hits[q]@[i]).id < rows
}

/// Scans every query with one representation.
pub fn scan_queries<D, B, T>(
    data: &Data,
    kern: &Kernels<D, B, T>,
    coarse: Coarse,
    k: usize,
    filter: Option<&Bitset>,
) -> (r: Vec<Vec<Hit>>) where
    D: Fn(&[u32], &[u32]) -> u32,
    B: Fn(&[u32], &[u8]) -> u32,
    T: Fn(u32, u32) -> u32,

    requires
        data.wf(),
        backend::usable(*kern),
        forall|q: int| 0 <= q < data.q_f32@.len() ==> #[trigger] coarse.fits(data, q),
        filter matches Some(f) ==> f.size() == data.rows(),
    ensures
        all_found(*kern, data, coarse, filter, k as nat, r@),
        hits_in_range(r@, data.rows()),
{
    let n: usize = data.queries();
    let mut out: Vec<Vec<Hit>> = Vec::new();
    let mut q: usize = 0;
    while q < n
        invariant
            q <= n == data.q_f32@.len(),
            data.wf(),
            backend::usable(*kern),
            forall|q: int| 0 <= q < data.q_f32@.len() ==> #[trigger] coarse.fits(data, q),
            filter matches Some(f) ==> f.size() == data.rows(),
            out@.len() == q,
            forall|i: int|
                0 <= i < q ==> eval::found(
                    *kern,
                    data,
                    coarse,
                    i,
                    filter,
                    k as nat,
                    (#[trigger] out@[i])@,
                ),
            hits_in_range(out@, data.rows()),
        decreases n - q,
    {
        assert(coarse.fits(data, q as int));
        let hits: Vec<Hit> = eval::scan_query(data, kern, coarse, q, k, filter);
        let ghost before = out@;
        out.push(hits);
        q += 1;
        proof {
            assert forall|x: int, i: int|
                0 <= x < out@.len() && 0 <= i < out@[x]@.len() implies (#[trigger] out@[x]@[i]).id
                < data.rows() by {
                if x < before.len() {
                    assert(out@[x] == before[x]);
                }
            }
        }
    }
    out
}

/// The exact answer of every query: what the evaluation measures against.
pub fn ground_truth<D, B, T>(
    data: &Data,
    kern: &Kernels<D, B, T>,
    kmax: usize,
    filter: Option<&Bitset>,
) -> (r: Vec<Vec<Hit>>) where
    D: Fn(&[u32], &[u32]) -> u32,
    B: Fn(&[u32], &[u8]) -> u32,
    T: Fn(u32, u32) -> u32,

    requires
        data.wf(),
        backend::usable(*kern),
        filter matches Some(f) ==> f.size() == data.rows(),
    ensures
        all_found(*kern, data, Coarse::F32Control, filter, kmax as nat, r@),
{
    scan_queries(data, kern, Coarse::F32Control, kmax, filter)
}

/// Pool ids are rows of the corpus.
pub open spec fn pools_in_range(pools: Seq<Vec<u32>>, rows: nat) -> bool {
    forall|q: int, i: int|
        0 <= q < pools.len() && 0 <= i < pools[q]@.len() ==> #[trigger] pools[q]@[i] < rows
}

/// Reranks every query's pool at every depth.
pub fn rerank_queries<D, B, T>(
    data: &Data,
    kern: &Kernels<D, B, T>,
    store: Store,
    pools: &Vec<Vec<u32>>,
    factor: usize,
    ks: &[usize],
) -> (r: Vec<Vec<Vec<Hit>>>) where
    D: Fn(&[u32], &[u32]) -> u32,
    B: Fn(&[u32], &[u8]) -> u32,
    T: Fn(u32, u32) -> u32,

    requires
        data.wf(),
        backend::usable(*kern),
        forall|q: int| 0 <= q < data.q_f32@.len() ==> #[trigger] store.kind().fits(data, q),
        pools@.len() == data.q_f32@.len(),
        pools_in_range(pools@, data.rows()),
        forall|i: int| 0 <= i < ks@.len() ==> factor * #[trigger] ks@[i] <= usize::MAX,
    ensures
        all_reranked(*kern, data, store, pools@, factor as nat, ks@, r@),
{
    let n: usize = data.queries();
    let mut out: Vec<Vec<Vec<Hit>>> = Vec::new();
    let mut q: usize = 0;
    while q < n
        invariant
            q <= n == data.q_f32@.len(),
            data.wf(),
            backend::usable(*kern),
            forall|q: int| 0 <= q < data.q_f32@.len() ==> #[trigger] store.kind().fits(data, q),
            pools@.len() == data.q_f32@.len(),
            pools_in_range(pools@, data.rows()),
            forall|i: int| 0 <= i < ks@.len() ==> factor * #[trigger] ks@[i] <= usize::MAX,
            out@.len() == q,
            forall|x: int| 0 <= x < q ==> (#[trigger] out@[x])@.len() == ks@.len(),
            forall|x: int, i: int|
                0 <= x < q && 0 <= i < ks@.len() ==> eval::reranked(
                    *kern,
                    data,
                    store,
                    x,
                    eval::pool_part(pools@[x]@, factor as nat, ks@[i] as nat),
                    ks@[i] as nat,
                    (#[trigger] out@[x]@[i])@,
                ),
        decreases n - q,
    {
        assert(store.kind().fits(data, q as int));
        let pool: &[u32] = pools[q].as_slice();
        assert forall|i: int| 0 <= i < pool@.len() implies #[trigger] pool@[i] < data.rows() by {
            assert(pools@[q as int]@[i] < data.rows());
        }
        let lists: Vec<Vec<Hit>> = eval::rerank_query(data, kern, store, q, pool, factor, ks);
        let ghost before = out@;
        out.push(lists);
        q += 1;
        proof {
            assert forall|x: int, i: int| 0 <= x < q && 0 <= i < ks@.len() implies eval::reranked(
                *kern,
                data,
                store,
                x,
                eval::pool_part(pools@[x]@, factor as nat, ks@[i] as nat),
                ks@[i] as nat,
                (#[trigger] out@[x]@[i])@,
            ) by {
                if x < before.len() {
                    assert(out@[x] == before[x]);
                    assert(before[x]@[i] == out@[x]@[i]);
                }
            }
        }
    }
    out
}

/// The row of a single-stage cell on the data.
pub open spec fn data_scan_row<D, B, T>(
    kern: Kernels<D, B, T>,
    data: &Data,
    filter: Option<&Bitset>,
    row: Row,
    cell: Cell,
    ks: Seq<usize>,
    gt: Seq<Vec<Hit>>,
) -> bool where
    D: Fn(&[u32], &[u32]) -> u32,
    B: Fn(&[u32], &[u8]) -> u32,
    T: Fn(u32, u32) -> u32,
 {
    &&& row.describes(cell, ks)
    &&& exists|results: Seq<Vec<Hit>>| #[trigger]
        all_found(kern, data, cell.coarse, filter, greatest(ks) as nat, results)
            && eval::recalls_of_scans(row.recalls@, results, ks, gt)
}

/// The row of a two-stage cell on the data.
pub open spec fn data_rerank_row<D, B, T>(
    kern: Kernels<D, B, T>,
    data: &Data,
    filter: Option<&Bitset>,
    row: Row,
    cell: Cell,
    depth: nat,
    ks: Seq<usize>,
    gt: Seq<Vec<Hit>>,
) -> bool where
    D: Fn(&[u32], &[u32]) -> u32,
    B: Fn(&[u32], &[u8]) -> u32,
    T: Fn(u32, u32) -> u32,
 {
    &&& row.describes(cell, ks)
    &&& exists|hits: Seq<Vec<Hit>>, pools: Seq<Vec<u32>>, results: Seq<Vec<Vec<Hit>>>|
        {
            &&& #[trigger] all_found(kern, data, cell.coarse, filter, depth, hits)
            &&& #[trigger] pools_of(hits, pools)
            &&& all_reranked(
                kern,
                data,
                (cell.two_stage->0).0,
                pools,
                factor_of(cell) as nat,
                ks,
                results,
            )
            &&& #[trigger] eval::recalls_of_reranks(row.recalls@, results, ks, gt)
        }
}

/// The row of a cell on the data.
pub open spec fn data_row<D, B, T>(
    kern: Kernels<D, B, T>,
    data: &Data,
    filter: Option<&Bitset>,
    row: Row,
    cell: Cell,
    cells: Seq<Cell>,
    ks: Seq<usize>,
    gt: Seq<Vec<Hit>>,
) -> bool where
    D: Fn(&[u32], &[u32]) -> u32,
    B: Fn(&[u32], &[u8]) -> u32,
    T: Fn(u32, u32) -> u32,
 {
    if cell.two_stage is None {
        data_scan_row(kern, data, filter, row, cell, ks, gt)
    } else {
        data_rerank_row(
            kern,
            data,
            filter,
            row,
            cell,
            depth(cells, cell.coarse, ks) as nat,
            ks,
            gt,
        )
    }
}

/// Evaluates every cell, one query after another.
pub fn run_matrix<D, B, T>(
    data: &Data,
    kern: &Kernels<D, B, T>,
    cells: &[Cell],
    ks: &[usize],
    gt: &[Vec<Hit>],
    filter: Option<&Bitset>,
) -> (r: Vec<Row>) where
    D: Fn(&[u32], &[u32]) -> u32,
    B: Fn(&[u32], &[u8]) -> u32,
    T: Fn(u32, u32) -> u32,

    requires
        data.wf(),
        backend::usable(*kern),
        ks@.len() > 0,
        data.q_f32@.len() <= gt@.len(),
        filter matches Some(f) ==> f.size() == data.rows(),
        forall|i: int, q: int|
            0 <= i < cells@.len() && 0 <= q < data.q_f32@.len() ==> #[trigger] cells@[i].coarse.fits(
                data,
                q,
            ),
        forall|i: int, q: int|
            0 <= i < cells@.len() && 0 <= q < data.q_f32@.len() && cells@[i].two_stage is Some
                ==> #[trigger] (cells@[i].two_stage->0).0.kind().fits(data, q),
        forall|i: int|
            0 <= i < cells@.len() && (#[trigger] cells@[i]).two_stage is Some ==> factor_of(
                cells@[i],
            ) * greatest(ks@) <= usize::MAX,
    ensures
        r@.len() == row_order(cells@).len(),
        forall|j: int|
            0 <= j < r@.len() ==> data_row(
                *kern,
                data,
                filter,
                #[trigger] r@[j],
                row_order(cells@)[j],
                cells@,
                ks@,
                gt@,
            ),
{
    let scan = |coarse: Coarse, k: usize| -> (hits: Vec<Vec<Hit>>)
        requires
            forall|q: int| 0 <= q < data.q_f32@.len() ==> #[trigger] coarse.fits(data, q),
        ensures
            all_found(*kern, data, coarse, filter, k as nat, hits@),
            hits_in_range(hits@, data.rows()),
        { scan_queries(data, kern, coarse, k, filter) };
    let rerank = |store: Store, pools: &Vec<Vec<u32>>, factor: usize| -> (results: Vec<
        Vec<Vec<Hit>>,
    >)
        requires
            forall|q: int| 0 <= q < data.q_f32@.len() ==> #[trigger] store.kind().fits(data, q),
            pools@.len() == data.q_f32@.len(),
            pools_in_range(pools@, data.rows()),
            forall|i: int| 0 <= i < ks@.len() ==> factor * #[trigger] ks@[i] <= usize::MAX,
        ensures
            all_reranked(*kern, data, store, pools@, factor as nat, ks@, results@),
            results@.len() == pools@.len(),
        { rerank_queries(data, kern, store, pools, factor, ks) };
    proof {
        assert forall|i: int, k: usize| 0 <= i < cells@.len() implies #[trigger] call_requires(
            scan,
            (cells@[i].coarse, k),
        ) by {
            assert forall|q: int| 0 <= q < data.q_f32@.len() implies #[trigger] cells@[i].coarse.fits(
                data,
                q,
            ) by {}
        }
        assert forall|
            i: int,
            c: Coarse,
            k: usize,
            hits: Vec<Vec<Hit>>,
            pools: Vec<Vec<u32>>,
        |
            #![trigger cells@[i], call_ensures(scan, (c, k), hits), pools_of(hits@, pools@)]
            0 <= i < cells@.len() && cells@[i].two_stage is Some && call_ensures(
                scan,
                (c, k),
                hits,
            ) && pools_of(hits@, pools@) implies call_requires(
            rerank,
            ((cells@[i].two_stage->0).0, &pools, factor_of(cells@[i])),
        ) by {
            let store = (cells@[i].two_stage->0).0;
            assert forall|q: int| 0 <= q < data.q_f32@.len() implies #[trigger] store.kind().fits(
                data,
                q,
            ) by {
                assert((cells@[i].two_stage->0).0.kind().fits(data, q));
            }
            assert forall|q: int, n: int|
                0 <= q < pools@.len() && 0 <= n < pools@[q]@.len() implies #[trigger] pools@[q]@[n]
                < data.rows() by {
                assert(pools@[q]@ == measure::ids_of(hits@[q]@));
                assert(hits@[q]@[n].id < data.rows());
            }
            lemma_greatest(ks@);
            let factor = factor_of(cells@[i]) as int;
            assert(factor_of(cells@[i]) * greatest(ks@) <= usize::MAX);
            assert forall|n: int| 0 <= n < ks@.len() implies factor * #[trigger] ks@[n]
                <= usize::MAX by {
                let (x, y) = (ks@[n] as int, greatest(ks@) as int);
                assert(factor * x <= factor * y) by (nonlinear_arith)
                    requires
                        0 <= factor,
                        x <= y,
                ;
            }
        }
        assert(runnable(scan, rerank, cells@, data.q_f32@.len(), ks@.len()));
    }
    let rows: Vec<Row> = run_matrix_with(data.queries(), cells, ks, gt, &scan, &rerank);
    proof {
        assert forall|j: int| 0 <= j < rows@.len() implies data_row(
            *kern,
            data,
            filter,
            #[trigger] rows@[j],
            row_order(cells@)[j],
            cells@,
            ks@,
            gt@,
        ) by {
            let cell = row_order(cells@)[j];
            assert(cell_row(scan, rerank, rows@[j], cell, cells@, ks@, gt@));
            if cell.two_stage is None {
                let results = choose|results: Vec<Vec<Hit>>| #[trigger]
                    call_ensures(scan, (cell.coarse, greatest(ks@)), results)
                        && eval::recalls_of_scans(rows@[j].recalls@, results@, ks@, gt@);
                assert(all_found(
                    *kern,
                    data,
                    cell.coarse,
                    filter,
                    greatest(ks@) as nat,
                    results@,
                ));
            } else {
                let deep = depth(cells@, cell.coarse, ks@) as usize;
                let (hits, pools, results) = choose|
                    hits: Vec<Vec<Hit>>,
                    pools: Vec<Vec<u32>>,
                    results: Vec<Vec<Vec<Hit>>>,
                |
                    {
                        &&& #[trigger] call_ensures(scan, (cell.coarse, deep), hits)
                        &&& pools_of(hits@, pools@)
                        &&& #[trigger] call_ensures(
                            rerank,
                            ((cell.two_stage->0).0, &pools, factor_of(cell)),
                            results,
                        )
                        &&& eval::recalls_of_reranks(rows@[j].recalls@, results@, ks@, gt@)
                    };
                lemma_depth_fits(cells@, cell.coarse, ks@, j);
                assert(all_found(*kern, data, cell.coarse, filter, deep as nat, hits@));
            }
        }
    }
    rows
}

/// The depth of a group's scan fits where the factors of the cells do.
proof fn lemma_depth_fits(cells: Seq<Cell>, coarse: Coarse, ks: Seq<usize>, j: int)
    requires
        0 <= j < row_order(cells).len(),
        row_order(cells)[j].two_stage is Some,
        row_order(cells)[j].coarse == coarse,
        forall|i: int|
            0 <= i < cells.len() && (#[trigger] cells[i]).two_stage is Some ==> factor_of(cells[i])
                * greatest(ks) <= usize::MAX,
    ensures
        0 <= depth(cells, coarse, ks) <= usize::MAX,
{
    lemma_single(cells);
    lemma_group(cells, Coarse::I8Sym);
    lemma_group(cells, Coarse::BinSym);
    lemma_group(cells, Coarse::BinAsymF32q);
    lemma_group(cells, Coarse::BinAsymI8q);
    let group = two_stage(cells, coarse);
    assert(0 <= largest_factor(group) * greatest(ks)) by (nonlinear_arith);
    if group.len() > 0 {
        lemma_group(cells, coarse);
        lemma_largest_is_one(group);
        let g = choose|g: int|
            0 <= g < group.len() && factor_of(#[trigger] group[g]) == largest_factor(group);
        let i = choose|i: int| 0 <= i < cells.len() && cells[i] == group[g];
        assert(factor_of(cells[i]) * greatest(ks) <= usize::MAX);
    }
}

} // verus!
