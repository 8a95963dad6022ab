//! The aligned result table and the machine-readable lines. Measured numbers
//! (mean recalls and times) come in as text, already rounded.

use vstd::prelude::*;
use crate::recall::eval::Row;
use crate::text;

verus! {

/// Bytes of a text.
pub open spec fn byte_len(s: Seq<char>) -> nat {
    vstd::utf8::encode_utf8(s).len()
}

/// Width of the first column over the first `n` rows: that of the longest
/// label, or of the heading.
pub open spec fn label_width(rows: Seq<Row>, n: nat) -> nat
    decreases n,
{
    if n == 0 {
        6
    } else {
        let before = label_width(rows, (n - 1) as nat);
        let here = byte_len(rows[n - 1].caption());
        if here > before {
            here
        } else {
            before
        }
    }
}

/// A column: two spaces and the text, right-aligned.
pub open spec fn column(text: Seq<char>, width: nat) -> Seq<char> {
    "  "@ + text::right_aligned(text, width)
}

/// The headings of the first `n` depths.
pub open spec fn depth_headings(prefix: Seq<char>, width: nat, ks: Seq<usize>, n: nat) -> Seq<char>
    decreases n,
{
    if n == 0 {
        Seq::empty()
    } else {
        depth_headings(prefix, width, ks, (n - 1) as nat) + column(
            prefix + text::decimal(ks[n - 1] as nat),
            width,
        )
    }
}

/// The table's first line.
pub open spec fn heading(width: nat, ks: Seq<usize>) -> Seq<char> {
    text::left_aligned("config"@, width) + depth_headings("R@"@, 6, ks, ks.len()) + depth_headings(
        "recall@"@,
        11,
        ks,
        ks.len(),
    ) + column("us/q"@, 8) + "\n"@
}

/// The pool sizes of the first `n` depths; a dash where there is none.
pub open spec fn pool_columns(pools: Seq<Option<usize>>, n: nat) -> Seq<char>
    decreases n,
{
    if n == 0 {
        Seq::empty()
    } else {
        pool_columns(pools, (n - 1) as nat) + column(
            match pools[n - 1] {
                Some(v) => text::decimal(v as nat),
                None => "-"@,
            },
            6,
        )
    }
}

/// The recalls of the first `n` depths.
pub open spec fn recall_columns(recalls: Seq<String>, n: nat) -> Seq<char>
    decreases n,
{
    if n == 0 {
        Seq::empty()
    } else {
        recall_columns(recalls, (n - 1) as nat) + column(recalls[n - 1]@, 11)
    }
}

/// What was measured for a row, as text.
pub struct Measured {
    /// Mean recall per depth, four decimals in tables and six in lines.
    pub recalls: Vec<String>,
    /// Microseconds per query.
    pub us_per_query: String,
}

/// The table's line of a row.
pub open spec fn table_line(row: Row, measured: Measured, width: nat) -> Seq<char> {
    text::left_aligned(row.caption(), width) + pool_columns(row.pool_at@, row.pool_at@.len())
        + recall_columns(measured.recalls@, measured.recalls@.len()) + column(
        measured.us_per_query@,
        8,
    ) + "\n"@
}

/// The table's lines of the first `n` rows.
pub open spec fn table_lines(rows: Seq<Row>, measured: Seq<Measured>, width: nat, n: nat) -> Seq<
    char,
>
    decreases n,
{
    if n == 0 {
        Seq::empty()
    } else {
        table_lines(rows, measured, width, (n - 1) as nat) + table_line(
            rows[n - 1],
            measured[n - 1],
            width,
        )
    }
}

/// Appends a column.
fn push_column(out: &mut String, text: &str, width: usize)
    ensures
        final(out)@ == old(out)@ + column(text@, width as nat),
{
    out.append("  ");
    text::push_right(out, text, width);
    assert(out@ =~= old(out)@ + column(text@, width as nat));
}

/// Appends the headings of the depths.
fn push_headings(out: &mut String, prefix: &str, width: usize, ks: &[usize])
    ensures
        final(out)@ == old(out)@ + depth_headings(prefix@, width as nat, ks@, ks@.len()),
{
    let mut i: usize = 0;
    assert(out@ =~= old(out)@ + depth_headings(prefix@, width as nat, ks@, 0));
    while i < ks.len()
        invariant
            i <= ks@.len(),
            out@ == old(out)@ + depth_headings(prefix@, width as nat, ks@, i as nat),
        decreases ks@.len() - i,
    {
        let mut word: String = String::new();
        word.append(prefix);
        text::push_decimal(&mut word, ks[i] as u128);
        assert(word@ =~= prefix@ + text::decimal(ks@[i as int] as nat));
        push_column(out, word.as_str(), width);
        i += 1;
        assert(out@ =~= old(out)@ + depth_headings(prefix@, width as nat, ks@, i as nat));
    }
}

/// Width of the first column.
fn first_width(rows: &[Row]) -> (r: usize)
    ensures
        r == label_width(rows@, rows@.len()),
{
    let mut width: usize = 6;
    let mut i: usize = 0;
    while i < rows.len()
        invariant
            i <= rows@.len(),
            width == label_width(rows@, i as nat),
        decreases rows@.len() - i,
    {
        let label: String = rows[i].label();
        let n: usize = label.as_str().as_bytes().len();
        if n > width {
            width = n;
        }
        i += 1;
    }
    width
}

/// The result table: a heading, and one line per row.
pub fn table_text(rows: &[Row], ks: &[usize], measured: &[Measured]) -> (r: String)
    requires
        measured@.len() == rows@.len(),
    ensures
        r@ == heading(label_width(rows@, rows@.len()), ks@) + table_lines(
            rows@,
            measured@,
            label_width(rows@, rows@.len()),
            rows@.len(),
        ),
{
    let width: usize = first_width(rows);
    let mut out: String = String::new();
    text::push_left(&mut out, "config", width);
    push_headings(&mut out, "R@", 6, ks);
    push_headings(&mut out, "recall@", 11, ks);
    push_column(&mut out, "us/q", 8);
    out.append("\n");
    assert(out@ =~= heading(width as nat, ks@));
    let ghost head = out@;
    let mut i: usize = 0;
    assert(out@ =~= head + table_lines(rows@, measured@, width as nat, 0));
    while i < rows.len()
        invariant
            i <= rows@.len() == measured@.len(),
            out@ == head + table_lines(rows@, measured@, width as nat, i as nat),
        decreases rows@.len() - i,
    {
        push_line(&mut out, &rows[i], &measured[i], width);
        i += 1;
        assert(out@ =~= head + table_lines(rows@, measured@, width as nat, i as nat));
    }
    out
}

/// Appends the table's line of a row.
fn push_line(out: &mut String, row: &Row, measured: &Measured, width: usize)
    ensures
        final(out)@ == old(out)@ + table_line(*row, *measured, width as nat),
{
    let ghost before = out@;
    let label: String = row.label();
    text::push_left(out, label.as_str(), width);
    let ghost front = out@;
    let mut i: usize = 0;
    assert(out@ =~= front + pool_columns(row.pool_at@, 0));
    while i < row.pool_at.len()
        invariant
            i <= row.pool_at@.len(),
            out@ == front + pool_columns(row.pool_at@, i as nat),
        decreases row.pool_at@.len() - i,
    {
        match row.pool_at[i] {
            Some(v) => {
                let word: String = text::decimal_text(v as u128);
                push_column(out, word.as_str(), 6);
            },
            None => {
                push_column(out, "-", 6);
            },
        }
        i += 1;
        assert(out@ =~= front + pool_columns(row.pool_at@, i as nat));
    }
    let ghost middle = out@;
    let mut j: usize = 0;
    assert(out@ =~= middle + recall_columns(measured.recalls@, 0));
    while j < measured.recalls.len()
        invariant
            j <= measured.recalls@.len(),
            out@ == middle + recall_columns(measured.recalls@, j as nat),
        decreases measured.recalls@.len() - j,
    {
        push_column(out, measured.recalls[j].as_str(), 11);
        j += 1;
        assert(out@ =~= middle + recall_columns(measured.recalls@, j as nat));
    }
    push_column(out, measured.us_per_query.as_str(), 8);
    out.append("\n");
    assert(out@ =~= before + table_line(*row, *measured, width as nat));
}

/// What a run's lines have in common.
pub struct CsvMeta<'a> {
    pub n: usize,
    pub dim: usize,
    pub queries: usize,
    pub seed: u64,
    pub backend: &'a str,
}

/// The first line of a new file.
pub const CSV_HEADER: &'static str =
    "filter_s,config,coarse,rerank,factor,k,r,recall,us_per_query,n,dim,queries,seed,backend\n";

/// A number, or nothing.
pub open spec fn optional_number(v: Option<usize>) -> Seq<char> {
    match v {
        Some(v) => text::decimal(v as nat),
        None => Seq::empty(),
    }
}

/// The fields that say which configuration a line is about.
pub open spec fn csv_config(row: Row) -> Seq<char> {
    row.caption() + ","@ + row.coarse@ + ","@ + (match row.store {
        Some(store) => store@,
        None => Seq::empty(),
    }) + ","@ + optional_number(row.factor)
}

/// The fields of one depth.
pub open spec fn csv_depth(row: Row, measured: Measured, ks: Seq<usize>, ki: int) -> Seq<char> {
    text::decimal(ks[ki] as nat) + ","@ + optional_number(row.pool_at@[ki]) + ","@
        + measured.recalls@[ki]@ + ","@ + measured.us_per_query@
}

/// The fields that all lines of a run share.
pub open spec fn csv_run(meta: CsvMeta<'_>) -> Seq<char> {
    text::decimal(meta.n as nat) + ","@ + text::decimal(meta.dim as nat) + ","@ + text::decimal(
        meta.queries as nat,
    ) + ","@ + text::decimal(meta.seed as nat) + ","@ + meta.backend@
}

/// The line of a row at one depth.
pub open spec fn csv_line(
    filter: Seq<char>,
    row: Row,
    measured: Measured,
    ks: Seq<usize>,
    ki: int,
    meta: CsvMeta<'_>,
) -> Seq<char> {
    filter + ","@ + csv_config(row) + ","@ + csv_depth(row, measured, ks, ki) + ","@ + csv_run(meta)
        + "\n"@
}

/// The lines of a row at the first `n` depths.
pub open spec fn csv_row(
    filter: Seq<char>,
    row: Row,
    measured: Measured,
    ks: Seq<usize>,
    n: nat,
    meta: CsvMeta<'_>,
) -> Seq<char>
    decreases n,
{
    if n == 0 {
        Seq::empty()
    } else {
        csv_row(filter, row, measured, ks, (n - 1) as nat, meta) + csv_line(
            filter,
            row,
            measured,
            ks,
            n - 1,
            meta,
        )
    }
}

/// The lines of the first `n` rows.
pub open spec fn csv_rows(
    filter: Seq<char>,
    rows: Seq<Row>,
    measured: Seq<Measured>,
    ks: Seq<usize>,
    n: nat,
    meta: CsvMeta<'_>,
) -> Seq<char>
    decreases n,
{
    if n == 0 {
        Seq::empty()
    } else {
        csv_rows(filter, rows, measured, ks, (n - 1) as nat, meta) + csv_row(
            filter,
            rows[n - 1],
            measured[n - 1],
            ks,
            ks.len(),
            meta,
        )
    }
}

/// Appends a number, or nothing.
fn push_optional(out: &mut String, v: Option<usize>)
    ensures
        final(out)@ == old(out)@ + optional_number(v),
{
    match v {
        Some(v) => {
            text::push_decimal(out, v as u128);
        },
        None => {
            assert(out@ =~= old(out)@ + Seq::<char>::empty());
        },
    }
}

/// Appends the fields of a configuration.
fn push_config(out: &mut String, row: &Row)
    ensures
        final(out)@ == old(out)@ + csv_config(*row),
{
    let label: String = row.label();
    out.append(label.as_str());
    out.append(",");
    out.append(row.coarse);
    out.append(",");
    if let Some(store) = row.store {
        out.append(store);
    }
    out.append(",");
    push_optional(out, row.factor);
    assert(out@ =~= old(out)@ + csv_config(*row));
}

/// Appends the fields of one depth.
fn push_depth(out: &mut String, row: &Row, measured: &Measured, ks: &[usize], ki: usize)
    requires
        ki < ks@.len(),
        ki < row.pool_at@.len(),
        ki < measured.recalls@.len(),
    ensures
        final(out)@ == old(out)@ + csv_depth(*row, *measured, ks@, ki as int),
{
    text::push_decimal(out, ks[ki] as u128);
    out.append(",");
    push_optional(out, row.pool_at[ki]);
    out.append(",");
    out.append(measured.recalls[ki].as_str());
    out.append(",");
    out.append(measured.us_per_query.as_str());
    assert(out@ =~= old(out)@ + csv_depth(*row, *measured, ks@, ki as int));
}

/// Appends the fields of a run.
fn push_run(out: &mut String, meta: &CsvMeta<'_>)
    ensures
        final(out)@ == old(out)@ + csv_run(*meta),
{
    text::push_decimal(out, meta.n as u128);
    out.append(",");
    text::push_decimal(out, meta.dim as u128);
    out.append(",");
    text::push_decimal(out, meta.queries as u128);
    out.append(",");
    text::push_decimal(out, meta.seed as u128);
    out.append(",");
    out.append(meta.backend);
    assert(out@ =~= old(out)@ + csv_run(*meta));
}

/// Appends the line of a row at one depth.
fn push_csv_line(
    out: &mut String,
    filter: &str,
    row: &Row,
    measured: &Measured,
    ks: &[usize],
    ki: usize,
    meta: &CsvMeta<'_>,
)
    requires
        ki < ks@.len(),
        ki < row.pool_at@.len(),
        ki < measured.recalls@.len(),
    ensures
        final(out)@ == old(out)@ + csv_line(filter@, *row, *measured, ks@, ki as int, *meta),
{
    out.append(filter);
    out.append(",");
    push_config(out, row);
    out.append(",");
    push_depth(out, row, measured, ks, ki);
    out.append(",");
    push_run(out, meta);
    out.append("\n");
    assert(out@ =~= old(out)@ + csv_line(filter@, *row, *measured, ks@, ki as int, *meta));
}

/// One line per row and depth. `fresh` puts the header in front, for a new
/// file.
pub fn csv_text(
    fresh: bool,
    filter: &str,
    rows: &[Row],
    ks: &[usize],
    measured: &[Measured],
    meta: &CsvMeta<'_>,
) -> (r: String)
    requires
        measured@.len() == rows@.len(),
        forall|i: int|
            0 <= i < rows@.len() ==> (#[trigger] rows@[i]).pool_at@.len() == ks@.len(),
        forall|i: int|
            0 <= i < rows@.len() ==> (#[trigger] measured@[i]).recalls@.len() == ks@.len(),
    ensures
        r@ == (if fresh {
            CSV_HEADER@
        } else {
            Seq::empty()
        }) + csv_rows(filter@, rows@, measured@, ks@, rows@.len(), *meta),
{
    let mut out: String = String::new();
    if fresh {
        out.append(CSV_HEADER);
    }
    let ghost head = out@;
    assert(head =~= (if fresh {
        CSV_HEADER@
    } else {
        Seq::empty()
    }));
    let mut i: usize = 0;
    assert(out@ =~= head + csv_rows(filter@, rows@, measured@, ks@, 0, *meta));
    while i < rows.len()
        invariant
            i <= rows@.len() == measured@.len(),
            forall|i: int|
                0 <= i < rows@.len() ==> (#[trigger] rows@[i]).pool_at@.len() == ks@.len(),
            forall|i: int|
                0 <= i < rows@.len() ==> (#[trigger] measured@[i]).recalls@.len() == ks@.len(),
            out@ == head + csv_rows(filter@, rows@, measured@, ks@, i as nat, *meta),
        decreases rows@.len() - i,
    {
        let (row, text): (&Row, &Measured) = (&rows[i], &measured[i]);
        let ghost before = out@;
        let mut ki: usize = 0;
        assert(out@ =~= before + csv_row(filter@, *row, *text, ks@, 0, *meta));
        while ki < ks.len()
            invariant
                ki <= ks@.len() == row.pool_at@.len(),
                ks@.len() == text.recalls@.len(),
                out@ == before + csv_row(filter@, *row, *text, ks@, ki as nat, *meta),
            decreases ks@.len() - ki,
        {
            push_csv_line(&mut out, filter, row, text, ks, ki, meta);
            ki += 1;
            assert(out@ =~= before + csv_row(filter@, *row, *text, ks@, ki as nat, *meta));
        }
        i += 1;
        assert(out@ =~= head + csv_rows(filter@, rows@, measured@, ks@, i as nat, *meta));
    }
    out
}

} // verus!
