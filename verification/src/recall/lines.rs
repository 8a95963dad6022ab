//! What the machine-readable lines promise: cut at its commas, every line gives
//! back the fields that the header names, one line per row and depth.

use vstd::prelude::*;
use crate::recall::eval::Row;
use crate::recall::files;
use crate::recall::table;
use crate::recall::table::CsvMeta;
use crate::recall::table::Measured;
use crate::text;

verus! {

/// Whether a text holds neither comma nor line break.
pub open spec fn plain(s: Seq<char>) -> bool {
    forall|i: int| 0 <= i < s.len() ==> #[trigger] s[i] != ',' && s[i] != '\n'
}

/// The names of the fields.
pub open spec fn names() -> Seq<Seq<char>> {
    seq![
        "filter_s"@,
        "config"@,
        "coarse"@,
        "rerank"@,
        "factor"@,
        "k"@,
        "r"@,
        "recall"@,
        "us_per_query"@,
        "n"@,
        "dim"@,
        "queries"@,
        "seed"@,
        "backend"@,
    ]
}

/// The fields of a row at one depth, in the order of their names.
pub open spec fn fields(
    filter: Seq<char>,
    row: Row,
    measured: Measured,
    ks: Seq<usize>,
    ki: int,
    meta: CsvMeta<'_>,
) -> Seq<Seq<char>> {
    seq![
        filter,
        row.caption(),
        row.coarse@,
        match row.store {
            Some(store) => store@,
            None => Seq::empty(),
        },
        match row.factor {
            Some(factor) => text::decimal(factor as nat),
            None => Seq::empty(),
        },
        text::decimal(ks[ki] as nat),
        match row.pool_at@[ki] {
            Some(pool) => text::decimal(pool as nat),
            None => Seq::empty(),
        },
        measured.recalls@[ki]@,
        measured.us_per_query@,
        text::decimal(meta.n as nat),
        text::decimal(meta.dim as nat),
        text::decimal(meta.queries as nat),
        text::decimal(meta.seed as nat),
        meta.backend@,
    ]
}

/// What a separator cuts off at the end is the last piece.
pub proof fn law_last_piece(x: Seq<char>, a: Seq<char>, separator: char)
    requires
        forall|i: int| 0 <= i < a.len() ==> #[trigger] a[i] != separator,
    ensures
        text::pieces(x + seq![separator] + a, separator) == text::pieces(x, separator).push(a),
    decreases x.len(),
{
    let at = text::find(x, separator, 0);
    files::lemma_found(x, separator, 0);
    let front = x.take(at);
    if at < x.len() {
        let rest = x.skip(at + 1);
        law_last_piece(rest, a, separator);
        files::law_pieces(front, rest, separator);
        files::law_pieces(front, rest + seq![separator] + a, separator);
        assert(x =~= front + seq![separator] + rest);
        assert(x + seq![separator] + a =~= front + seq![separator] + (rest + seq![separator] + a));
        assert(seq![front] + text::pieces(rest, separator).push(a) =~= (seq![front] + text::pieces(
            rest,
            separator,
        )).push(a));
    } else {
        assert(front =~= x);
        files::law_pieces(x, a, separator);
        files::law_pieces(a, Seq::empty(), separator);
        assert(seq![x] + seq![a] =~= seq![x].push(a));
    }
}

/// What is appended without a separator makes the last piece longer.
pub proof fn law_longer_piece(x: Seq<char>, a: Seq<char>, separator: char)
    requires
        forall|i: int| 0 <= i < a.len() ==> #[trigger] a[i] != separator,
    ensures
        text::pieces(x, separator).len() > 0,
        text::pieces(x + a, separator) == text::pieces(x, separator).drop_last().push(
            text::pieces(x, separator).last() + a,
        ),
    decreases x.len(),
{
    let at = text::find(x, separator, 0);
    files::lemma_found(x, separator, 0);
    let front = x.take(at);
    if at < x.len() {
        let rest = x.skip(at + 1);
        law_longer_piece(rest, a, separator);
        files::law_pieces(front, rest, separator);
        files::law_pieces(front, rest + a, separator);
        assert(x =~= front + seq![separator] + rest);
        assert(x + a =~= front + seq![separator] + (rest + a));
        let tail = text::pieces(rest, separator);
        assert((seq![front] + tail).drop_last() =~= seq![front] + tail.drop_last());
        assert(seq![front] + tail.drop_last().push(tail.last() + a) =~= (seq![front]
            + tail.drop_last()).push(tail.last() + a));
    } else {
        assert(front =~= x);
        files::law_pieces(x, Seq::empty(), separator);
        assert forall|i: int| 0 <= i < (x + a).len() implies #[trigger] (x + a)[i]
            != separator by {
            if i < x.len() {
                assert((x + a)[i] == x[i]);
            }
        }
        files::law_pieces(x + a, Seq::empty(), separator);
        assert(seq![x].drop_last().push(x + a) =~= seq![x + a]);
    }
}

/// Texts with commas between them.
spec fn joined(texts: Seq<Seq<char>>) -> Seq<char>
    decreases texts.len(),
{
    if texts.len() <= 1 {
        texts[0]
    } else {
        joined(texts.drop_last()) + seq![','] + texts.last()
    }
}

proof fn lemma_joined(texts: Seq<Seq<char>>)
    requires
        texts.len() > 0,
        forall|i: int| 0 <= i < texts.len() ==> plain(#[trigger] texts[i]),
    ensures
        text::pieces(joined(texts), ',') == texts,
        plain_line(joined(texts)),
    decreases texts.len(),
{
    if texts.len() == 1 {
        files::law_pieces(texts[0], Seq::empty(), ',');
        assert(texts =~= seq![texts[0]]);
    } else {
        lemma_joined(texts.drop_last());
        law_last_piece(joined(texts.drop_last()), texts.last(), ',');
        assert(texts =~= texts.drop_last().push(texts.last()));
        assert(plain(texts[texts.len() - 1]));
    }
}

/// Whether a text holds no line break.
spec fn plain_line(s: Seq<char>) -> bool {
    forall|i: int| 0 <= i < s.len() ==> #[trigger] s[i] != '\n'
}

/// The texts before the last, joined, and the last.
proof fn lemma_join_step(texts: Seq<Seq<char>>, n: int)
    requires
        1 < n <= texts.len(),
    ensures
        joined(texts.take(n)) == joined(texts.take(n - 1)) + seq![','] + texts[n - 1],
{
    assert(texts.take(n).drop_last() =~= texts.take(n - 1));
}

proof fn lemma_four(
    x: Seq<char>,
    a: Seq<char>,
    b: Seq<char>,
    c: Seq<char>,
    d: Seq<char>,
    mark: Seq<char>,
)
    ensures
        x + mark + a + mark + b + mark + c + mark + d == x + mark + (a + mark + b + mark + c + mark
            + d),
{
    assert(x + mark + a + mark + b + mark + c + mark + d =~= x + mark + (a + mark + b + mark + c
        + mark + d));
}

proof fn lemma_five(
    x: Seq<char>,
    a: Seq<char>,
    b: Seq<char>,
    c: Seq<char>,
    d: Seq<char>,
    e: Seq<char>,
    mark: Seq<char>,
)
    ensures
        x + mark + a + mark + b + mark + c + mark + d + mark + e == x + mark + (a + mark + b + mark
            + c + mark + d + mark + e),
{
    lemma_four(x, a, b, c, d, mark);
    assert(x + mark + (a + mark + b + mark + c + mark + d) + mark + e =~= x + mark + (a + mark + b
        + mark + c + mark + d + mark + e));
}

proof fn lemma_line(
    filter: Seq<char>,
    row: Row,
    measured: Measured,
    ks: Seq<usize>,
    ki: int,
    meta: CsvMeta<'_>,
)
    ensures
        table::csv_line(filter, row, measured, ks, ki, meta) == joined(
            fields(filter, row, measured, ks, ki, meta),
        ) + "\n"@,
{
    reveal_strlit(",");
    let f = fields(filter, row, measured, ks, ki, meta);
    assert(","@ =~= seq![',']);
    assert(f.take(1) =~= seq![f[0]]);
    lemma_join_step(f, 2);
    lemma_join_step(f, 3);
    lemma_join_step(f, 4);
    lemma_join_step(f, 5);
    lemma_join_step(f, 6);
    lemma_join_step(f, 7);
    lemma_join_step(f, 8);
    lemma_join_step(f, 9);
    lemma_join_step(f, 10);
    lemma_join_step(f, 11);
    lemma_join_step(f, 12);
    lemma_join_step(f, 13);
    lemma_join_step(f, 14);
    assert(f.take(14) =~= f);
    let mark = ","@;
    let first = f[0] + mark + table::csv_config(row);
    let second = first + mark + table::csv_depth(row, measured, ks, ki);
    lemma_four(f[0], f[1], f[2], f[3], f[4], mark);
    assert(joined(f.take(5)) == first);
    lemma_four(first, f[5], f[6], f[7], f[8], mark);
    assert(joined(f.take(9)) == second);
    lemma_five(second, f[9], f[10], f[11], f[12], f[13], mark);
    assert(joined(f) == second + mark + table::csv_run(meta));
}

proof fn lemma_header()
    ensures
        table::CSV_HEADER@ == joined(names()) + "\n"@,
        forall|i: int| 0 <= i < 14 ==> plain(#[trigger] names()[i]),
{
    reveal_strlit(
        "filter_s,config,coarse,rerank,factor,k,r,recall,us_per_query,n,dim,queries,seed,backend\n",
    );
    reveal_strlit("\n");
    reveal_strlit("filter_s");
    reveal_strlit("config");
    reveal_strlit("coarse");
    reveal_strlit("rerank");
    reveal_strlit("factor");
    reveal_strlit("k");
    reveal_strlit("r");
    reveal_strlit("recall");
    reveal_strlit("us_per_query");
    reveal_strlit("n");
    reveal_strlit("dim");
    reveal_strlit("queries");
    reveal_strlit("seed");
    reveal_strlit("backend");
    let f = names();
    assert(f.take(1) =~= seq![f[0]]);
    lemma_join_step(f, 2);
    lemma_join_step(f, 3);
    lemma_join_step(f, 4);
    lemma_join_step(f, 5);
    lemma_join_step(f, 6);
    lemma_join_step(f, 7);
    lemma_join_step(f, 8);
    lemma_join_step(f, 9);
    lemma_join_step(f, 10);
    lemma_join_step(f, 11);
    lemma_join_step(f, 12);
    lemma_join_step(f, 13);
    lemma_join_step(f, 14);
    assert(f.take(14) =~= f);
    assert(table::CSV_HEADER@ =~= joined(f) + "\n"@);
}

/// The lines of the first `n` rows, without their line breaks.
spec fn listed(
    filter: Seq<char>,
    rows: Seq<Row>,
    measured: Seq<Measured>,
    ks: Seq<usize>,
    n: nat,
    meta: CsvMeta<'_>,
) -> Seq<Seq<char>>
    decreases n,
{
    if n == 0 {
        Seq::empty()
    } else {
        listed(filter, rows, measured, ks, (n - 1) as nat, meta) + Seq::new(
            ks.len(),
            |ki: int| joined(fields(filter, rows[n - 1], measured[n - 1], ks, ki, meta)),
        )
    }
}

/// A line appended behind a line break.
proof fn lemma_line_appended(x: Seq<char>, lines: Seq<Seq<char>>, line: Seq<char>)
    requires
        text::pieces(x, '\n') == lines.push(Seq::empty()),
        plain_line(line),
    ensures
        text::pieces(x + (line + "\n"@), '\n') == lines.push(line).push(Seq::empty()),
{
    reveal_strlit("\n");
    law_longer_piece(x, line, '\n');
    law_last_piece(x + line, Seq::empty(), '\n');
    assert(x + line + seq!['\n'] + Seq::<char>::empty() =~= x + (line + "\n"@));
    assert(lines.push(Seq::<char>::empty()).drop_last() =~= lines);
    assert(Seq::<char>::empty() + line =~= line);
}

/// Whether every field of every line is plain.
pub open spec fn all_plain(
    filter: Seq<char>,
    rows: Seq<Row>,
    measured: Seq<Measured>,
    ks: Seq<usize>,
    meta: CsvMeta<'_>,
) -> bool {
    forall|i: int, ki: int, j: int|
        0 <= i < rows.len() && 0 <= ki < ks.len() && 0 <= j < 14 ==> plain(
            #[trigger] fields(filter, rows[i], measured[i], ks, ki, meta)[j],
        )
}

proof fn lemma_row_lines(
    x: Seq<char>,
    lines: Seq<Seq<char>>,
    filter: Seq<char>,
    row: Row,
    measured: Measured,
    ks: Seq<usize>,
    n: nat,
    meta: CsvMeta<'_>,
)
    requires
        n <= ks.len(),
        text::pieces(x, '\n') == lines.push(Seq::empty()),
        forall|ki: int, j: int|
            0 <= ki < ks.len() && 0 <= j < 14 ==> plain(
                #[trigger] fields(filter, row, measured, ks, ki, meta)[j],
            ),
    ensures
        text::pieces(x + table::csv_row(filter, row, measured, ks, n, meta), '\n') == (lines
            + Seq::new(
            n,
            |ki: int| joined(fields(filter, row, measured, ks, ki, meta)),
        )).push(Seq::empty()),
    decreases n,
{
    let here = Seq::new(n, |ki: int| joined(fields(filter, row, measured, ks, ki, meta)));
    if n == 0 {
        assert(x + Seq::<char>::empty() =~= x);
        assert(lines + here =~= lines);
    } else {
        let m = (n - 1) as nat;
        lemma_row_lines(x, lines, filter, row, measured, ks, m, meta);
        let before = Seq::new(m, |ki: int| joined(fields(filter, row, measured, ks, ki, meta)));
        let line = joined(fields(filter, row, measured, ks, n - 1, meta));
        lemma_joined(fields(filter, row, measured, ks, n - 1, meta));
        lemma_line(filter, row, measured, ks, n - 1, meta);
        let y = x + table::csv_row(filter, row, measured, ks, m, meta);
        lemma_line_appended(y, lines + before, line);
        assert(y + (line + "\n"@) =~= x + table::csv_row(filter, row, measured, ks, n, meta));
        assert((lines + before).push(line) =~= lines + here);
    }
}

proof fn lemma_listed(
    x: Seq<char>,
    lines: Seq<Seq<char>>,
    filter: Seq<char>,
    rows: Seq<Row>,
    measured: Seq<Measured>,
    ks: Seq<usize>,
    n: nat,
    meta: CsvMeta<'_>,
)
    requires
        n <= rows.len() == measured.len(),
        text::pieces(x, '\n') == lines.push(Seq::empty()),
        all_plain(filter, rows, measured, ks, meta),
    ensures
        text::pieces(x + table::csv_rows(filter, rows, measured, ks, n, meta), '\n') == (lines
            + listed(filter, rows, measured, ks, n, meta)).push(Seq::empty()),
    decreases n,
{
    if n == 0 {
        assert(x + Seq::<char>::empty() =~= x);
        assert(lines + Seq::<Seq<char>>::empty() =~= lines);
    } else {
        let m = (n - 1) as nat;
        lemma_listed(x, lines, filter, rows, measured, ks, m, meta);
        let y = x + table::csv_rows(filter, rows, measured, ks, m, meta);
        let before = lines + listed(filter, rows, measured, ks, m, meta);
        lemma_row_lines(y, before, filter, rows[n - 1], measured[n - 1], ks, ks.len(), meta);
        assert(y + table::csv_row(filter, rows[n - 1], measured[n - 1], ks, ks.len(), meta) =~= x
            + table::csv_rows(filter, rows, measured, ks, n, meta));
        let here = Seq::new(
            ks.len(),
            |ki: int| joined(fields(filter, rows[n - 1], measured[n - 1], ks, ki, meta)),
        );
        assert(before + here =~= lines + listed(filter, rows, measured, ks, n, meta));
    }
}

proof fn lemma_listed_at(
    filter: Seq<char>,
    rows: Seq<Row>,
    measured: Seq<Measured>,
    ks: Seq<usize>,
    n: nat,
    meta: CsvMeta<'_>,
    i: int,
    ki: int,
)
    requires
        0 <= i < n <= rows.len() == measured.len(),
        0 <= ki < ks.len(),
    ensures
        listed(filter, rows, measured, ks, n, meta).len() == n * ks.len(),
        0 <= i * ks.len() + ki < n * ks.len(),
        listed(filter, rows, measured, ks, n, meta)[i * ks.len() + ki] == joined(
            fields(filter, rows[i], measured[i], ks, ki, meta),
        ),
    decreases n,
{
    let m = (n - 1) as nat;
    assert(n * ks.len() == m * ks.len() + ks.len()) by (nonlinear_arith)
        requires
            n == m + 1,
    ;
    assert(0 <= i * ks.len()) by (nonlinear_arith)
        requires
            0 <= i,
    ;
    lemma_listed_len(filter, rows, measured, ks, m, meta);
    if i < m {
        lemma_listed_at(filter, rows, measured, ks, m, meta, i, ki);
    }
}

proof fn lemma_listed_len(
    filter: Seq<char>,
    rows: Seq<Row>,
    measured: Seq<Measured>,
    ks: Seq<usize>,
    n: nat,
    meta: CsvMeta<'_>,
)
    ensures
        listed(filter, rows, measured, ks, n, meta).len() == n * ks.len(),
    decreases n,
{
    if n == 0 {
        assert(n * ks.len() == 0) by (nonlinear_arith)
            requires
                n == 0,
        ;
    } else {
        let m = (n - 1) as nat;
        assert(n * ks.len() == m * ks.len() + ks.len()) by (nonlinear_arith)
            requires
                n == m + 1,
        ;
        lemma_listed_len(filter, rows, measured, ks, m, meta);
    }
}

/// Cut at its line breaks, the text gives one line per row and depth, in that
/// order, behind the header where there is one. Cut at its commas, the header
/// gives the names, and the line of a row and a depth gives the filter, the
/// row's label, coarse scorer, store and factor, the depth with its pool size
/// and mean recall, the row's time, and what the run had in common.
pub proof fn law_lines_read_back(
    fresh: bool,
    filter: &str,
    rows: &[Row],
    ks: &[usize],
    measured: &[Measured],
    meta: &CsvMeta<'_>,
    r: String,
)
    requires
        measured@.len() == rows@.len(),
        all_plain(filter@, rows@, measured@, ks@, *meta),
        call_ensures(table::csv_text, (fresh, filter, rows, ks, measured, meta), r),
    ensures
        ({
            let lines = text::pieces(r@, '\n');
            let first: int = if fresh {
                1
            } else {
                0
            };
            &&& lines.len() == first + rows@.len() * ks@.len() + 1
            &&& lines.last() == Seq::<char>::empty()
            &&& fresh ==> text::pieces(lines[0], ',') == names()
            &&& forall|i: int, ki: int|
                #![trigger fields(filter@, rows@[i], measured@[i], ks@, ki, *meta)]
                0 <= i < rows@.len() && 0 <= ki < ks@.len() ==> text::pieces(
                    lines[first + i * ks@.len() + ki],
                    ',',
                ) == fields(filter@, rows@[i], measured@[i], ks@, ki, *meta)
        }),
{
    let head = if fresh {
        table::CSV_HEADER@
    } else {
        Seq::empty()
    };
    let none = Seq::<Seq<char>>::empty();
    files::law_pieces(Seq::empty(), Seq::empty(), '\n');
    assert(text::pieces(Seq::<char>::empty(), '\n') =~= none.push(Seq::empty()));
    lemma_header();
    lemma_joined(names());
    lemma_line_appended(Seq::empty(), none, joined(names()));
    assert(Seq::<char>::empty() + (joined(names()) + "\n"@) =~= table::CSV_HEADER@);
    let before = if fresh {
        none.push(joined(names()))
    } else {
        none
    };
    let n = rows@.len();
    lemma_listed(head, before, filter@, rows@, measured@, ks@, n, *meta);
    lemma_listed_len(filter@, rows@, measured@, ks@, n, *meta);
    let lines = text::pieces(r@, '\n');
    let found = listed(filter@, rows@, measured@, ks@, n, *meta);
    assert(lines == (before + found).push(Seq::empty()));
    assert forall|i: int, ki: int|
        #![trigger fields(filter@, rows@[i], measured@[i], ks@, ki, *meta)]
        0 <= i < n && 0 <= ki < ks@.len() implies text::pieces(
        lines[before.len() + i * ks@.len() + ki],
        ',',
    ) == fields(filter@, rows@[i], measured@[i], ks@, ki, *meta) by {
        lemma_listed_at(filter@, rows@, measured@, ks@, n, *meta, i, ki);
        assert(lines[before.len() + i * ks@.len() + ki] == found[i * ks@.len() + ki]);
        lemma_joined(fields(filter@, rows@[i], measured@[i], ks@, ki, *meta));
    }
}

} // verus!
