//! What the result table promises: every number stands under its own heading,
//! in the line of its own row.

use vstd::prelude::*;
use crate::recall::eval::Row;
use crate::recall::table;
use crate::recall::table::Measured;
use crate::text;

verus! {

/// Whether `text` stands at the right end of the cell from `from` to `to`, with
/// nothing but spaces before it.
pub open spec fn shows(line: Seq<char>, from: int, to: int, text: Seq<char>) -> bool {
    &&& 0 <= from <= to <= line.len()
    &&& text.len() <= to - from
    &&& line.subrange(to - text.len(), to) == text
    &&& forall|j: int| from <= j < to - text.len() ==> #[trigger] line[j] == ' '
}

/// Whether `text` stands at the left end of the cell from `from` to `to`, with
/// nothing but spaces behind it.
pub open spec fn leads(line: Seq<char>, from: int, to: int, text: Seq<char>) -> bool {
    &&& 0 <= from <= to <= line.len()
    &&& text.len() <= to - from
    &&& line.subrange(from, from + text.len()) == text
    &&& forall|j: int| from + text.len() <= j < to ==> #[trigger] line[j] == ' '
}

/// The first `n` of the texts, each in a cell two wider than `width`.
spec fn cells(texts: Seq<Seq<char>>, width: nat, n: nat) -> Seq<char>
    decreases n,
{
    if n == 0 {
        Seq::empty()
    } else {
        cells(texts, width, (n - 1) as nat) + table::column(texts[n - 1], width)
    }
}

proof fn lemma_cell(text: Seq<char>, width: nat)
    requires
        text.len() <= width,
    ensures
        table::column(text, width).len() == width + 2,
        shows(table::column(text, width), 0, width as int + 2, text),
{
    reveal_strlit("  ");
    let line = table::column(text, width);
    assert(line.subrange(width + 2 - text.len(), width as int + 2) =~= text);
}

/// A cell that a line shows is shown by every text that holds the line.
proof fn lemma_shown_within(
    before: Seq<char>,
    line: Seq<char>,
    after: Seq<char>,
    from: int,
    to: int,
    text: Seq<char>,
)
    requires
        shows(line, from, to, text),
    ensures
        shows(before + line + after, before.len() + from, before.len() + to, text),
{
    let all = before + line + after;
    assert(all.subrange(before.len() + to - text.len(), before.len() + to) =~= text) by {
        assert forall|j: int| 0 <= j < text.len() implies all[before.len() + to - text.len() + j]
            == #[trigger] text[j] by {
            assert(line.subrange(to - text.len(), to)[j] == line[to - text.len() + j]);
        }
    }
    assert forall|j: int|
        before.len() + from <= j < before.len() + to - text.len() implies #[trigger] all[j]
        == ' ' by {
        assert(all[j] == line[j - before.len()]);
    }
}

/// The same of a text at the left of its cell.
proof fn lemma_led_within(
    before: Seq<char>,
    line: Seq<char>,
    after: Seq<char>,
    from: int,
    to: int,
    text: Seq<char>,
)
    requires
        leads(line, from, to, text),
    ensures
        leads(before + line + after, before.len() + from, before.len() + to, text),
{
    let all = before + line + after;
    assert(all.subrange(before.len() + from, before.len() + from + text.len()) =~= text) by {
        assert forall|j: int| 0 <= j < text.len() implies all[before.len() + from + j]
            == #[trigger] text[j] by {
            assert(line.subrange(from, from + text.len())[j] == line[from + j]);
        }
    }
    assert forall|j: int|
        before.len() + from + text.len() <= j < before.len() + to implies #[trigger] all[j]
        == ' ' by {
        assert(all[j] == line[j - before.len()]);
    }
}

proof fn lemma_cells(texts: Seq<Seq<char>>, width: nat, n: nat, i: int)
    requires
        0 <= i < n <= texts.len(),
        forall|j: int| 0 <= j < texts.len() ==> (#[trigger] texts[j]).len() <= width,
    ensures
        shows(cells(texts, width, n), (width + 2) * i, (width + 2) * i + width + 2, texts[i]),
    decreases n,
{
    let before = cells(texts, width, (n - 1) as nat);
    lemma_cells_len(texts, width, (n - 1) as nat);
    lemma_cell(texts[n - 1], width);
    let here = table::column(texts[n - 1], width);
    if i < n - 1 {
        lemma_cells(texts, width, (n - 1) as nat, i);
        lemma_shown_within(
            Seq::empty(),
            before,
            here,
            (width + 2) * i,
            (width + 2) * i + width + 2,
            texts[i],
        );
        assert(Seq::<char>::empty() + before + here =~= before + here);
    } else {
        lemma_shown_within(before, here, Seq::empty(), 0, width as int + 2, texts[i]);
        assert(before + here + Seq::<char>::empty() =~= before + here);
    }
}

proof fn lemma_cells_len(texts: Seq<Seq<char>>, width: nat, n: nat)
    requires
        n <= texts.len(),
        forall|j: int| 0 <= j < texts.len() ==> (#[trigger] texts[j]).len() <= width,
    ensures
        cells(texts, width, n).len() == (width + 2) * n,
    decreases n,
{
    if n == 0 {
        assert((width + 2) * 0 == 0) by (nonlinear_arith);
    } else {
        lemma_cells_len(texts, width, (n - 1) as nat);
        lemma_cell(texts[n - 1], width);
        assert((width + 2) * n == (width + 2) * (n - 1) + width + 2) by (nonlinear_arith);
    }
}

/// A line of the table, from `at` on: a first cell, as many narrow cells as
/// there are depths, as many wide ones, and a last cell.
pub open spec fn laid_out(
    all: Seq<char>,
    at: int,
    width: nat,
    first: Seq<char>,
    narrow: Seq<Seq<char>>,
    wide: Seq<Seq<char>>,
    last: Seq<char>,
) -> bool {
    &&& leads(all, at, at + width, first)
    &&& forall|i: int|
        0 <= i < narrow.len() ==> shows(
            all,
            at + width + 8 * i,
            at + width + 8 * i + 8,
            #[trigger] narrow[i],
        )
    &&& forall|i: int|
        0 <= i < wide.len() ==> shows(
            all,
            at + width + 8 * narrow.len() + 13 * i,
            at + width + 8 * narrow.len() + 13 * i + 13,
            #[trigger] wide[i],
        )
    &&& shows(
        all,
        at + width + 8 * narrow.len() + 13 * wide.len(),
        at + width + 8 * narrow.len() + 13 * wide.len() + 10,
        last,
    )
    &&& at + width + 8 * narrow.len() + 13 * wide.len() + 10 < all.len()
    &&& all[at + width + 8 * narrow.len() + 13 * wide.len() + 10] == '\n'
}

/// Whether every text fits in a cell of `width`.
pub open spec fn fit(texts: Seq<Seq<char>>, width: nat) -> bool {
    forall|i: int| 0 <= i < texts.len() ==> (#[trigger] texts[i]).len() <= width
}

spec fn whole_line(
    width: nat,
    first: Seq<char>,
    narrow: Seq<Seq<char>>,
    wide: Seq<Seq<char>>,
    last: Seq<char>,
) -> Seq<char> {
    text::left_aligned(first, width) + cells(narrow, 6, narrow.len()) + cells(wide, 11, wide.len())
        + table::column(last, 8) + "\n"@
}

proof fn lemma_line(
    before: Seq<char>,
    after: Seq<char>,
    width: nat,
    first: Seq<char>,
    narrow: Seq<Seq<char>>,
    wide: Seq<Seq<char>>,
    last: Seq<char>,
)
    requires
        first.len() <= width,
        fit(narrow, 6),
        fit(wide, 11),
        last.len() <= 8,
    ensures
        whole_line(width, first, narrow, wide, last).len() == width + 8 * narrow.len() + 13
            * wide.len() + 11,
        laid_out(
            before + whole_line(width, first, narrow, wide, last) + after,
            before.len() as int,
            width,
            first,
            narrow,
            wide,
            last,
        ),
{
    reveal_strlit("\n");
    let line = whole_line(width, first, narrow, wide, last);
    let all = before + line + after;
    let a = text::left_aligned(first, width);
    let b = cells(narrow, 6, narrow.len());
    let c = cells(wide, 11, wide.len());
    let d = table::column(last, 8);
    lemma_cells_len(narrow, 6, narrow.len());
    lemma_cells_len(wide, 11, wide.len());
    lemma_cell(last, 8);
    assert(a.subrange(0, first.len() as int) =~= first);
    lemma_led_within(before, a, b + c + d + "\n"@ + after, 0, width as int, first);
    assert(before + a + (b + c + d + "\n"@ + after) =~= all);
    assert forall|i: int| 0 <= i < narrow.len() implies shows(
        all,
        before.len() + width + 8 * i,
        before.len() + width + 8 * i + 8,
        #[trigger] narrow[i],
    ) by {
        lemma_cells(narrow, 6, narrow.len(), i);
        lemma_shown_within(
            before + a,
            b,
            c + d + "\n"@ + after,
            8 * i,
            8 * i + 8,
            narrow[i],
        );
        assert((before + a) + b + (c + d + "\n"@ + after) =~= all);
    }
    assert forall|i: int| 0 <= i < wide.len() implies shows(
        all,
        before.len() + width + 8 * narrow.len() + 13 * i,
        before.len() + width + 8 * narrow.len() + 13 * i + 13,
        #[trigger] wide[i],
    ) by {
        lemma_cells(wide, 11, wide.len(), i);
        lemma_shown_within(
            before + a + b,
            c,
            d + "\n"@ + after,
            13 * i,
            13 * i + 13,
            wide[i],
        );
        assert((before + a + b) + c + (d + "\n"@ + after) =~= all);
    }
    lemma_shown_within(before + a + b + c, d, "\n"@ + after, 0, 10, last);
    assert((before + a + b + c) + d + ("\n"@ + after) =~= all);
}

/// The headings of the depths: `prefix` and the depth.
pub open spec fn headings(prefix: Seq<char>, ks: Seq<usize>) -> Seq<Seq<char>> {
    Seq::new(ks.len(), |i: int| prefix + text::decimal(ks[i] as nat))
}

/// The pool sizes of a row as text: the number, or a dash where there is none.
pub open spec fn pools(row: Row) -> Seq<Seq<char>> {
    Seq::new(
        row.pool_at@.len(),
        |i: int|
            match row.pool_at@[i] {
                Some(v) => text::decimal(v as nat),
                None => "-"@,
            },
    )
}

/// The measured recalls as text.
pub open spec fn recalls(measured: Measured) -> Seq<Seq<char>> {
    Seq::new(measured.recalls@.len(), |i: int| measured.recalls@[i]@)
}

proof fn lemma_headings(prefix: Seq<char>, width: nat, ks: Seq<usize>, n: nat)
    requires
        n <= ks.len(),
    ensures
        table::depth_headings(prefix, width, ks, n) == cells(headings(prefix, ks), width, n),
    decreases n,
{
    if n > 0 {
        lemma_headings(prefix, width, ks, (n - 1) as nat);
    }
}

proof fn lemma_pools(row: Row, n: nat)
    requires
        n <= row.pool_at@.len(),
    ensures
        table::pool_columns(row.pool_at@, n) == cells(pools(row), 6, n),
    decreases n,
{
    if n > 0 {
        lemma_pools(row, (n - 1) as nat);
    }
}

proof fn lemma_recalls(measured: Measured, n: nat)
    requires
        n <= measured.recalls@.len(),
    ensures
        table::recall_columns(measured.recalls@, n) == cells(recalls(measured), 11, n),
    decreases n,
{
    if n > 0 {
        lemma_recalls(measured, (n - 1) as nat);
    }
}

/// Every character takes a byte or more.
proof fn lemma_bytes(s: Seq<char>)
    ensures
        s.len() <= table::byte_len(s),
    decreases s.len(),
{
    if s.len() > 0 {
        lemma_bytes(s.drop_first());
    }
}

proof fn lemma_width(rows: Seq<Row>, n: nat, width: nat)
    requires
        n <= rows.len(),
        6 <= width,
        forall|i: int|
            0 <= i < rows.len() ==> table::byte_len((#[trigger] rows[i]).caption()) <= width,
    ensures
        table::label_width(rows, n) <= width,
        table::label_width(rows, n) >= 6,
        forall|i: int|
            0 <= i < n ==> table::byte_len((#[trigger] rows[i]).caption()) <= table::label_width(
                rows,
                n,
            ),
    decreases n,
{
    if n > 0 {
        lemma_width(rows, (n - 1) as nat, width);
    }
}

proof fn lemma_lines(rows: Seq<Row>, measured: Seq<Measured>, width: nat, long: nat, n: nat, i: int)
    requires
        0 <= i < n <= rows.len() == measured.len(),
        forall|j: int|
            0 <= j < rows.len() ==> table::table_line(#[trigger] rows[j], measured[j], width).len()
                == long,
    ensures
        table::table_lines(rows, measured, width, n).len() == n * long,
        table::table_lines(rows, measured, width, n) == table::table_lines(
            rows,
            measured,
            width,
            n,
        ).take(i * long) + table::table_line(rows[i], measured[i], width) + table::table_lines(
            rows,
            measured,
            width,
            n,
        ).skip((i + 1) * long),
        0 <= i * long <= (i + 1) * long <= n * long,
        (i + 1) * long == i * long + long,
    decreases n,
{
    let all = table::table_lines(rows, measured, width, n);
    let before = table::table_lines(rows, measured, width, (n - 1) as nat);
    let line = table::table_line(rows[n - 1], measured[n - 1], width);
    assert(line.len() == long);
    assert(0 * long == 0) by (nonlinear_arith);
    assert(n * long == (n - 1) * long + long) by (nonlinear_arith);
    assert((i + 1) * long == i * long + long) by (nonlinear_arith);
    assert(0 <= i * long) by (nonlinear_arith)
        requires
            0 <= i,
    ;
    assert((i + 1) * long <= n * long) by (nonlinear_arith)
        requires
            i + 1 <= n,
    ;
    if n > 1 && i < n - 1 {
        lemma_lines(rows, measured, width, long, (n - 1) as nat, i);
        assert(all.take(i * long) =~= before.take(i * long));
        let here = table::table_line(rows[i], measured[i], width);
        assert(all =~= before.take(i * long) + here + before.skip((i + 1) * long) + line);
        assert(all.skip((i + 1) * long) =~= before.skip((i + 1) * long) + line);
        assert(all =~= all.take(i * long) + here + all.skip((i + 1) * long));
    } else {
        if n > 1 {
            lemma_lines(rows, measured, width, long, (n - 1) as nat, 0);
        }
        assert(before.len() == (n - 1) * long);
        assert(all =~= all.take(i * long) + line + all.skip((i + 1) * long));
    }
}

/// The table holds a heading and one line per row, in the rows' order, all of
/// one length. Every line is cut at the same places: the first cell is as wide
/// as the longest label (and no narrower than its heading); under `R@` and a
/// depth stands that depth's pool size, under `recall@` and a depth that
/// depth's mean recall, under `us/q` the time per query.
pub proof fn law_numbers_stand_under_their_headings(
    rows: &[Row],
    ks: &[usize],
    measured: &[Measured],
    r: String,
    width: nat,
)
    requires
        measured@.len() == rows@.len(),
        6 <= width,
        forall|i: int|
            0 <= i < rows@.len() ==> table::byte_len((#[trigger] rows@[i]).caption()) <= width,
        width == 6 || exists|i: int|
            0 <= i < rows@.len() && table::byte_len((#[trigger] rows@[i]).caption()) == width,
        fit(headings("R@"@, ks@), 6),
        fit(headings("recall@"@, ks@), 11),
        forall|i: int|
            0 <= i < rows@.len() ==> (#[trigger] rows@[i]).pool_at@.len() == ks@.len() && fit(
                pools(rows@[i]),
                6,
            ),
        forall|i: int|
            0 <= i < rows@.len() ==> (#[trigger] measured@[i]).recalls@.len() == ks@.len() && fit(
                recalls(measured@[i]),
                11,
            ) && measured@[i].us_per_query@.len() <= 8,
        call_ensures(table::table_text, (rows, ks, measured), r),
    ensures
        r@.len() == (rows@.len() + 1) * (width + 21 * ks@.len() + 11),
        laid_out(
            r@,
            0,
            width,
            "config"@,
            headings("R@"@, ks@),
            headings("recall@"@, ks@),
            "us/q"@,
        ),
        forall|i: int|
            0 <= i < rows@.len() ==> laid_out(
                r@,
                (i + 1) * (width + 21 * ks@.len() + 11),
                width,
                (#[trigger] rows@[i]).caption(),
                pools(rows@[i]),
                recalls(measured@[i]),
                measured@[i].us_per_query@,
            ),
{
    let n = rows@.len();
    lemma_width(rows@, n, width);
    assert(table::label_width(rows@, n) == width);
    let long = width + 21 * ks@.len() + 11;
    reveal_strlit("config");
    reveal_strlit("us/q");
    lemma_headings("R@"@, 6, ks@, ks@.len());
    lemma_headings("recall@"@, 11, ks@, ks@.len());
    let (narrow, wide) = (headings("R@"@, ks@), headings("recall@"@, ks@));
    let head = table::heading(width, ks@);
    assert(head == whole_line(width, "config"@, narrow, wide, "us/q"@));
    let lines = table::table_lines(rows@, measured@, width, n);
    lemma_line(Seq::empty(), lines, width, "config"@, narrow, wide, "us/q"@);
    assert(Seq::<char>::empty() + head + lines =~= r@);
    assert forall|j: int| 0 <= j < n implies table::table_line(
        #[trigger] rows@[j],
        measured@[j],
        width,
    ).len() == long && table::table_line(rows@[j], measured@[j], width) == whole_line(
        width,
        rows@[j].caption(),
        pools(rows@[j]),
        recalls(measured@[j]),
        measured@[j].us_per_query@,
    ) by {
        lemma_one_line(rows@[j], measured@[j], width);
    }
    assert forall|i: int| 0 <= i < n implies laid_out(
        r@,
        (i + 1) * long,
        width,
        (#[trigger] rows@[i]).caption(),
        pools(rows@[i]),
        recalls(measured@[i]),
        measured@[i].us_per_query@,
    ) by {
        lemma_lines(rows@, measured@, width, long, n, i);
        let here = table::table_line(rows@[i], measured@[i], width);
        let before = head + lines.take(i * long);
        let after = lines.skip((i + 1) * long);
        assert(r@ =~= before + here + after);
        lemma_bytes(rows@[i].caption());
        lemma_line(
            before,
            after,
            width,
            rows@[i].caption(),
            pools(rows@[i]),
            recalls(measured@[i]),
            measured@[i].us_per_query@,
        );
        assert(before.len() == (i + 1) * long);
    }
    if n == 0 {
        assert((n + 1) * long == long) by (nonlinear_arith)
            requires
                n == 0,
        ;
    } else {
        lemma_lines(rows@, measured@, width, long, n, 0);
        assert((n + 1) * long == n * long + long) by (nonlinear_arith);
    }
}

proof fn lemma_one_line(row: Row, measured: Measured, width: nat)
    requires
        table::byte_len(row.caption()) <= width,
        row.pool_at@.len() == measured.recalls@.len(),
        fit(pools(row), 6),
        fit(recalls(measured), 11),
        measured.us_per_query@.len() <= 8,
    ensures
        table::table_line(row, measured, width) == whole_line(
            width,
            row.caption(),
            pools(row),
            recalls(measured),
            measured.us_per_query@,
        ),
        table::table_line(row, measured, width).len() == width + 21 * row.pool_at@.len() + 11,
{
    lemma_pools(row, row.pool_at@.len());
    lemma_recalls(measured, measured.recalls@.len());
    lemma_bytes(row.caption());
    lemma_line(
        Seq::empty(),
        Seq::empty(),
        width,
        row.caption(),
        pools(row),
        recalls(measured),
        measured.us_per_query@,
    );
}

/// The label of a row: the coarse scorer alone, or in its cell, followed by the
/// store in its own and the factor.
pub proof fn law_label(row: &Row, r: String)
    requires
        call_ensures(Row::label, (row,), r),
        row.coarse@.len() <= 13,
        row.store matches Some(store) ==> store@.len() <= 3,
    ensures
        row.store is None || row.factor is None ==> r@ == row.coarse@,
        row.store is Some && row.factor is Some ==> {
            &&& leads(r@, 0, 13, row.coarse@)
            &&& r@.subrange(13, 17) == " -> "@
            &&& leads(r@, 17, 20, row.store->0@)
            &&& r@.subrange(20, 22) == " x"@
            &&& r@.skip(22) == text::decimal(row.factor->0 as nat)
        },
{
    reveal_strlit(" -> ");
    reveal_strlit(" x");
    if row.store is Some && row.factor is Some {
        let store = row.store->0@;
        assert(r@.subrange(0, row.coarse@.len() as int) =~= row.coarse@);
        assert(r@.subrange(13, 17) =~= " -> "@);
        assert(r@.subrange(17, 17 + store.len() as int) =~= store);
        assert(r@.subrange(20, 22) =~= " x"@);
        assert(r@.skip(22) =~= text::decimal(row.factor->0 as nat));
    }
}

} // verus!
