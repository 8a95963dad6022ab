//! What a command line comes to: every option sets its own setting to the value
//! that is written, in whatever order, and a later one overrides an earlier.

use vstd::prelude::*;
use crate::ieee;
use crate::recall::args::{self, Shape};
use crate::recall::cli::{self, Answer, Config, Dist, Flag, Request, Settings};
use crate::recall::files;
use crate::recall::lines;
use crate::text;
use crate::values;

verus! {

/// One option with its value.
pub enum Choice {
    N(usize),
    Dim(usize),
    Queries(usize),
    Clusters(usize),
    Threads(usize),
    Seed(u64),
    Gmm,
    Uniform,
    Vectors(Seq<char>),
    QueriesFile(Seq<char>),
    GtCache(Seq<char>),
    Csv(Seq<char>),
    K(Seq<usize>),
    Rerank(Seq<usize>),
    /// Texts of fractions, and the fractions they stand for.
    Filter(Seq<Seq<char>>, Seq<u64>),
    Normalize,
    Full,
}

/// Texts with commas between them.
pub open spec fn listed(parts: Seq<Seq<char>>) -> Seq<char>
    decreases parts.len(),
{
    if parts.len() <= 1 {
        parts[0]
    } else {
        listed(parts.drop_last()) + seq![','] + parts.last()
    }
}

/// Numbers in decimal.
pub open spec fn decimals(numbers: Seq<usize>) -> Seq<Seq<char>> {
    Seq::new(numbers.len(), |i: int| text::decimal(numbers[i] as nat))
}

/// How an option is written: its name behind two dashes, and its value, as the
/// next argument or `joined` by an equals sign.
pub open spec fn written(choice: Choice, joined: bool) -> Seq<Seq<char>> {
    match choice {
        Choice::N(v) => given("--n"@, text::decimal(v as nat), joined),
        Choice::Dim(v) => given("--dim"@, text::decimal(v as nat), joined),
        Choice::Queries(v) => given("--queries"@, text::decimal(v as nat), joined),
        Choice::Clusters(v) => given("--gmm-clusters"@, text::decimal(v as nat), joined),
        Choice::Threads(v) => given("--threads"@, text::decimal(v as nat), joined),
        Choice::Seed(v) => given("--seed"@, text::decimal(v as nat), joined),
        Choice::Gmm => given("--dist"@, "gmm"@, joined),
        Choice::Uniform => given("--dist"@, "uniform"@, joined),
        Choice::Vectors(path) => given("--vectors"@, path, joined),
        Choice::QueriesFile(path) => given("--queries-file"@, path, joined),
        Choice::GtCache(path) => given("--gt-cache"@, path, joined),
        Choice::Csv(path) => given("--csv"@, path, joined),
        Choice::K(list) => given("--k"@, listed(decimals(list)), joined),
        Choice::Rerank(list) => given("--rerank"@, listed(decimals(list)), joined),
        Choice::Filter(parts, _) => given("--filter"@, listed(parts), joined),
        Choice::Normalize => seq!["--normalize"@],
        Choice::Full => seq!["--full"@],
    }
}

/// What an option changes.
pub open spec fn chosen(settings: Settings, choice: Choice) -> Settings {
    match choice {
        Choice::N(v) => Settings { n: v, ..settings },
        Choice::Dim(v) => Settings { dim: v, dim_given: true, ..settings },
        Choice::Queries(v) => Settings { queries: v, ..settings },
        Choice::Clusters(v) => Settings { gmm_clusters: v, ..settings },
        Choice::Threads(v) => Settings { threads: v, ..settings },
        Choice::Seed(v) => Settings { seed: v, ..settings },
        Choice::Gmm => Settings { dist: Dist::Gmm, ..settings },
        Choice::Uniform => Settings { dist: Dist::Uniform, ..settings },
        Choice::Vectors(path) => Settings { vectors_path: Some(path), ..settings },
        Choice::QueriesFile(path) => Settings { queries_path: Some(path), ..settings },
        Choice::GtCache(path) => Settings { gt_cache: Some(path), ..settings },
        Choice::Csv(path) => Settings { csv: Some(path), ..settings },
        Choice::K(list) => Settings { k: list, ..settings },
        Choice::Rerank(list) => Settings { rerank: list, ..settings },
        Choice::Filter(_, fractions) => Settings { filters: fractions, ..settings },
        Choice::Normalize => Settings { normalize: true, ..settings },
        Choice::Full => Settings { full: true, ..settings },
    }
}

/// The option can be written: lists are not empty, and the texts of fractions
/// are ones that are read as those fractions.
pub open spec fn writable<F: Fn(&str) -> Option<u64>>(f: F, choice: Choice) -> bool {
    match choice {
        Choice::K(list) => list.len() > 0,
        Choice::Rerank(list) => list.len() > 0,
        Choice::Filter(parts, fractions) => {
            &&& parts.len() == fractions.len()
            &&& parts.len() > 0
            &&& forall|i: int| 0 <= i < parts.len() ==> bare(#[trigger] parts[i])
            &&& forall|i: int|
                0 <= i < parts.len() ==> cli::gives(f, #[trigger] parts[i], Some(fractions[i]))
        },
        _ => true,
    }
}

/// A text without commas that neither begins nor ends with white space.
pub open spec fn bare(s: Seq<char>) -> bool {
    &&& s.len() > 0
    &&& !text::white(s[0])
    &&& !text::white(s.last())
    &&& forall|i: int| 0 <= i < s.len() ==> #[trigger] s[i] != ','
}

/// All options, written one after another, each in the form that goes with it,
/// with something behind them.
pub open spec fn command(choices: Seq<(Choice, bool)>, tail: Seq<Seq<char>>) -> Seq<Seq<char>>
    decreases choices.len(),
{
    if choices.len() == 0 {
        tail
    } else {
        written(choices[0].0, choices[0].1) + command(choices.skip(1), tail)
    }
}

/// The settings after all options.
pub open spec fn all_chosen(settings: Settings, choices: Seq<(Choice, bool)>) -> Settings
    decreases choices.len(),
{
    if choices.len() == 0 {
        settings
    } else {
        all_chosen(chosen(settings, choices[0].0), choices.skip(1))
    }
}

proof fn lemma_long(word: Seq<char>, name: Seq<char>, rest: Seq<Seq<char>>)
    requires
        word == seq!['-', '-'] + name,
        name.len() > 0,
        forall|i: int| 0 <= i < name.len() ==> #[trigger] name[i] != '=',
    ensures
        args::shape(seq![word] + rest) == Shape::Long(name, None),
{
    assert(word[0] == '-' && word[1] == '-');
    assert forall|j: int| 2 <= j < word.len() implies #[trigger] word[j] != '=' by {
        assert(word[j] == name[j - 2]);
    }
    files::lemma_found(word, '=', 2);
    assert(text::find(word, '=', 2) == word.len());
    assert(word.subrange(2, word.len() as int) =~= name);
    assert((seq![word] + rest)[0] == word);
}

proof fn lemma_attached(word: Seq<char>, name: Seq<char>, value: Seq<char>, rest: Seq<Seq<char>>)
    requires
        word == seq!['-', '-'] + name,
        name.len() > 0,
        forall|i: int| 0 <= i < name.len() ==> #[trigger] name[i] != '=',
    ensures
        args::shape(seq![word + seq!['='] + value] + rest) == Shape::Long(name, Some(value)),
{
    let arg = word + seq!['='] + value;
    assert(arg[0] == '-' && arg[1] == '-');
    assert forall|j: int| 2 <= j < word.len() implies #[trigger] arg[j] != '=' by {
        assert(arg[j] == name[j - 2]);
    }
    assert(arg[word.len() as int] == '=');
    files::lemma_found(arg, '=', 2);
    let at = text::find(arg, '=', 2);
    if at > word.len() {
        assert(arg[word.len() as int] != '=');
    }
    if at < word.len() {
        assert(arg[at] != '=');
    }
    assert(arg.subrange(2, at) =~= name);
    assert(arg.skip(at + 1) =~= value);
    assert((seq![arg] + rest)[0] == arg);
}

proof fn lemma_names()
    ensures
        cli::flag_named("n"@) == Some(Flag::N),
        cli::flag_named("dim"@) == Some(Flag::Dim),
        cli::flag_named("queries"@) == Some(Flag::Queries),
        cli::flag_named("dist"@) == Some(Flag::Dist),
        cli::flag_named("gmm-clusters"@) == Some(Flag::GmmClusters),
        cli::flag_named("seed"@) == Some(Flag::Seed),
        cli::flag_named("vectors"@) == Some(Flag::Vectors),
        cli::flag_named("queries-file"@) == Some(Flag::QueriesFile),
        cli::flag_named("normalize"@) == Some(Flag::Normalize),
        cli::flag_named("k"@) == Some(Flag::K),
        cli::flag_named("rerank"@) == Some(Flag::Rerank),
        cli::flag_named("filter"@) == Some(Flag::Filter),
        cli::flag_named("full"@) == Some(Flag::Full),
        cli::flag_named("gt-cache"@) == Some(Flag::GtCache),
        cli::flag_named("threads"@) == Some(Flag::Threads),
        cli::flag_named("csv"@) == Some(Flag::Csv),
        cli::flag_named("help"@) == Some(Flag::Help),
{
    reveal_strlit("n");
    reveal_strlit("dim");
    reveal_strlit("queries");
    reveal_strlit("dist");
    reveal_strlit("gmm-clusters");
    reveal_strlit("seed");
    reveal_strlit("vectors");
    reveal_strlit("queries-file");
    reveal_strlit("normalize");
    reveal_strlit("k");
    reveal_strlit("rerank");
    reveal_strlit("filter");
    reveal_strlit("full");
    reveal_strlit("gt-cache");
    reveal_strlit("threads");
    reveal_strlit("csv");
    reveal_strlit("help");
    assert("n"@.len() == 1 && "n"@[0] == 'n');
    assert("dim"@.len() == 3 && "dim"@[0] == 'd');
    assert("queries"@.len() == 7 && "queries"@[0] == 'q');
    assert("dist"@.len() == 4 && "dist"@[0] == 'd');
    assert("gmm-clusters"@.len() == 12 && "gmm-clusters"@[0] == 'g');
    assert("seed"@.len() == 4 && "seed"@[0] == 's');
    assert("vectors"@.len() == 7 && "vectors"@[0] == 'v');
    assert("queries-file"@.len() == 12 && "queries-file"@[0] == 'q');
    assert("normalize"@.len() == 9 && "normalize"@[0] == 'n');
    assert("k"@.len() == 1 && "k"@[0] == 'k');
    assert("rerank"@.len() == 6 && "rerank"@[0] == 'r');
    assert("filter"@.len() == 6 && "filter"@[0] == 'f');
    assert("full"@.len() == 4 && "full"@[0] == 'f');
    assert("gt-cache"@.len() == 8 && "gt-cache"@[0] == 'g');
    assert("threads"@.len() == 7 && "threads"@[0] == 't');
    assert("csv"@.len() == 3 && "csv"@[0] == 'c');
    assert("help"@.len() == 4 && "help"@[0] == 'h');
}

proof fn lemma_word_n(value: Seq<char>, rest: Seq<Seq<char>>)
    ensures
        args::shape(seq!["--n"@] + rest) == Shape::Long("n"@, None),
        args::shape(seq!["--n"@] + (seq![value] + rest)) == Shape::Long("n"@, None),
        args::shape(seq!["--n"@ + seq!['='] + value] + rest) == Shape::Long("n"@, Some(value)),
{
    reveal_strlit("--n");
    reveal_strlit("n");
    assert("--n"@ =~= seq!['-', '-'] + "n"@);
    lemma_long("--n"@, "n"@, rest);
    lemma_long("--n"@, "n"@, seq![value] + rest);
    lemma_attached("--n"@, "n"@, value, rest);
}

proof fn lemma_word_dim(value: Seq<char>, rest: Seq<Seq<char>>)
    ensures
        args::shape(seq!["--dim"@] + rest) == Shape::Long("dim"@, None),
        args::shape(seq!["--dim"@] + (seq![value] + rest)) == Shape::Long("dim"@, None),
        args::shape(seq!["--dim"@ + seq!['='] + value] + rest) == Shape::Long("dim"@, Some(value)),
{
    reveal_strlit("--dim");
    reveal_strlit("dim");
    assert("--dim"@ =~= seq!['-', '-'] + "dim"@);
    lemma_long("--dim"@, "dim"@, rest);
    lemma_long("--dim"@, "dim"@, seq![value] + rest);
    lemma_attached("--dim"@, "dim"@, value, rest);
}

proof fn lemma_word_queries(value: Seq<char>, rest: Seq<Seq<char>>)
    ensures
        args::shape(seq!["--queries"@] + rest) == Shape::Long("queries"@, None),
        args::shape(seq!["--queries"@] + (seq![value] + rest)) == Shape::Long("queries"@, None),
        args::shape(seq!["--queries"@ + seq!['='] + value] + rest) == Shape::Long("queries"@, Some(value)),
{
    reveal_strlit("--queries");
    reveal_strlit("queries");
    assert("--queries"@ =~= seq!['-', '-'] + "queries"@);
    lemma_long("--queries"@, "queries"@, rest);
    lemma_long("--queries"@, "queries"@, seq![value] + rest);
    lemma_attached("--queries"@, "queries"@, value, rest);
}

proof fn lemma_word_dist(value: Seq<char>, rest: Seq<Seq<char>>)
    ensures
        args::shape(seq!["--dist"@] + rest) == Shape::Long("dist"@, None),
        args::shape(seq!["--dist"@] + (seq![value] + rest)) == Shape::Long("dist"@, None),
        args::shape(seq!["--dist"@ + seq!['='] + value] + rest) == Shape::Long("dist"@, Some(value)),
{
    reveal_strlit("--dist");
    reveal_strlit("dist");
    assert("--dist"@ =~= seq!['-', '-'] + "dist"@);
    lemma_long("--dist"@, "dist"@, rest);
    lemma_long("--dist"@, "dist"@, seq![value] + rest);
    lemma_attached("--dist"@, "dist"@, value, rest);
}

proof fn lemma_word_gmm_clusters(value: Seq<char>, rest: Seq<Seq<char>>)
    ensures
        args::shape(seq!["--gmm-clusters"@] + rest) == Shape::Long("gmm-clusters"@, None),
        args::shape(seq!["--gmm-clusters"@] + (seq![value] + rest)) == Shape::Long("gmm-clusters"@, None),
        args::shape(seq!["--gmm-clusters"@ + seq!['='] + value] + rest) == Shape::Long("gmm-clusters"@, Some(value)),
{
    reveal_strlit("--gmm-clusters");
    reveal_strlit("gmm-clusters");
    assert("--gmm-clusters"@ =~= seq!['-', '-'] + "gmm-clusters"@);
    lemma_long("--gmm-clusters"@, "gmm-clusters"@, rest);
    lemma_long("--gmm-clusters"@, "gmm-clusters"@, seq![value] + rest);
    lemma_attached("--gmm-clusters"@, "gmm-clusters"@, value, rest);
}

proof fn lemma_word_seed(value: Seq<char>, rest: Seq<Seq<char>>)
    ensures
        args::shape(seq!["--seed"@] + rest) == Shape::Long("seed"@, None),
        args::shape(seq!["--seed"@] + (seq![value] + rest)) == Shape::Long("seed"@, None),
        args::shape(seq!["--seed"@ + seq!['='] + value] + rest) == Shape::Long("seed"@, Some(value)),
{
    reveal_strlit("--seed");
    reveal_strlit("seed");
    assert("--seed"@ =~= seq!['-', '-'] + "seed"@);
    lemma_long("--seed"@, "seed"@, rest);
    lemma_long("--seed"@, "seed"@, seq![value] + rest);
    lemma_attached("--seed"@, "seed"@, value, rest);
}

proof fn lemma_word_vectors(value: Seq<char>, rest: Seq<Seq<char>>)
    ensures
        args::shape(seq!["--vectors"@] + rest) == Shape::Long("vectors"@, None),
        args::shape(seq!["--vectors"@] + (seq![value] + rest)) == Shape::Long("vectors"@, None),
        args::shape(seq!["--vectors"@ + seq!['='] + value] + rest) == Shape::Long("vectors"@, Some(value)),
{
    reveal_strlit("--vectors");
    reveal_strlit("vectors");
    assert("--vectors"@ =~= seq!['-', '-'] + "vectors"@);
    lemma_long("--vectors"@, "vectors"@, rest);
    lemma_long("--vectors"@, "vectors"@, seq![value] + rest);
    lemma_attached("--vectors"@, "vectors"@, value, rest);
}

proof fn lemma_word_queries_file(value: Seq<char>, rest: Seq<Seq<char>>)
    ensures
        args::shape(seq!["--queries-file"@] + rest) == Shape::Long("queries-file"@, None),
        args::shape(seq!["--queries-file"@] + (seq![value] + rest)) == Shape::Long("queries-file"@, None),
        args::shape(seq!["--queries-file"@ + seq!['='] + value] + rest) == Shape::Long("queries-file"@, Some(value)),
{
    reveal_strlit("--queries-file");
    reveal_strlit("queries-file");
    assert("--queries-file"@ =~= seq!['-', '-'] + "queries-file"@);
    lemma_long("--queries-file"@, "queries-file"@, rest);
    lemma_long("--queries-file"@, "queries-file"@, seq![value] + rest);
    lemma_attached("--queries-file"@, "queries-file"@, value, rest);
}

proof fn lemma_word_normalize(value: Seq<char>, rest: Seq<Seq<char>>)
    ensures
        args::shape(seq!["--normalize"@] + rest) == Shape::Long("normalize"@, None),
        args::shape(seq!["--normalize"@] + (seq![value] + rest)) == Shape::Long("normalize"@, None),
        args::shape(seq!["--normalize"@ + seq!['='] + value] + rest) == Shape::Long("normalize"@, Some(value)),
{
    reveal_strlit("--normalize");
    reveal_strlit("normalize");
    assert("--normalize"@ =~= seq!['-', '-'] + "normalize"@);
    lemma_long("--normalize"@, "normalize"@, rest);
    lemma_long("--normalize"@, "normalize"@, seq![value] + rest);
    lemma_attached("--normalize"@, "normalize"@, value, rest);
}

proof fn lemma_word_k(value: Seq<char>, rest: Seq<Seq<char>>)
    ensures
        args::shape(seq!["--k"@] + rest) == Shape::Long("k"@, None),
        args::shape(seq!["--k"@] + (seq![value] + rest)) == Shape::Long("k"@, None),
        args::shape(seq!["--k"@ + seq!['='] + value] + rest) == Shape::Long("k"@, Some(value)),
{
    reveal_strlit("--k");
    reveal_strlit("k");
    assert("--k"@ =~= seq!['-', '-'] + "k"@);
    lemma_long("--k"@, "k"@, rest);
    lemma_long("--k"@, "k"@, seq![value] + rest);
    lemma_attached("--k"@, "k"@, value, rest);
}

proof fn lemma_word_rerank(value: Seq<char>, rest: Seq<Seq<char>>)
    ensures
        args::shape(seq!["--rerank"@] + rest) == Shape::Long("rerank"@, None),
        args::shape(seq!["--rerank"@] + (seq![value] + rest)) == Shape::Long("rerank"@, None),
        args::shape(seq!["--rerank"@ + seq!['='] + value] + rest) == Shape::Long("rerank"@, Some(value)),
{
    reveal_strlit("--rerank");
    reveal_strlit("rerank");
    assert("--rerank"@ =~= seq!['-', '-'] + "rerank"@);
    lemma_long("--rerank"@, "rerank"@, rest);
    lemma_long("--rerank"@, "rerank"@, seq![value] + rest);
    lemma_attached("--rerank"@, "rerank"@, value, rest);
}

proof fn lemma_word_filter(value: Seq<char>, rest: Seq<Seq<char>>)
    ensures
        args::shape(seq!["--filter"@] + rest) == Shape::Long("filter"@, None),
        args::shape(seq!["--filter"@] + (seq![value] + rest)) == Shape::Long("filter"@, None),
        args::shape(seq!["--filter"@ + seq!['='] + value] + rest) == Shape::Long("filter"@, Some(value)),
{
    reveal_strlit("--filter");
    reveal_strlit("filter");
    assert("--filter"@ =~= seq!['-', '-'] + "filter"@);
    lemma_long("--filter"@, "filter"@, rest);
    lemma_long("--filter"@, "filter"@, seq![value] + rest);
    lemma_attached("--filter"@, "filter"@, value, rest);
}

proof fn lemma_word_full(value: Seq<char>, rest: Seq<Seq<char>>)
    ensures
        args::shape(seq!["--full"@] + rest) == Shape::Long("full"@, None),
        args::shape(seq!["--full"@] + (seq![value] + rest)) == Shape::Long("full"@, None),
        args::shape(seq!["--full"@ + seq!['='] + value] + rest) == Shape::Long("full"@, Some(value)),
{
    reveal_strlit("--full");
    reveal_strlit("full");
    assert("--full"@ =~= seq!['-', '-'] + "full"@);
    lemma_long("--full"@, "full"@, rest);
    lemma_long("--full"@, "full"@, seq![value] + rest);
    lemma_attached("--full"@, "full"@, value, rest);
}

proof fn lemma_word_gt_cache(value: Seq<char>, rest: Seq<Seq<char>>)
    ensures
        args::shape(seq!["--gt-cache"@] + rest) == Shape::Long("gt-cache"@, None),
        args::shape(seq!["--gt-cache"@] + (seq![value] + rest)) == Shape::Long("gt-cache"@, None),
        args::shape(seq!["--gt-cache"@ + seq!['='] + value] + rest) == Shape::Long("gt-cache"@, Some(value)),
{
    reveal_strlit("--gt-cache");
    reveal_strlit("gt-cache");
    assert("--gt-cache"@ =~= seq!['-', '-'] + "gt-cache"@);
    lemma_long("--gt-cache"@, "gt-cache"@, rest);
    lemma_long("--gt-cache"@, "gt-cache"@, seq![value] + rest);
    lemma_attached("--gt-cache"@, "gt-cache"@, value, rest);
}

proof fn lemma_word_threads(value: Seq<char>, rest: Seq<Seq<char>>)
    ensures
        args::shape(seq!["--threads"@] + rest) == Shape::Long("threads"@, None),
        args::shape(seq!["--threads"@] + (seq![value] + rest)) == Shape::Long("threads"@, None),
        args::shape(seq!["--threads"@ + seq!['='] + value] + rest) == Shape::Long("threads"@, Some(value)),
{
    reveal_strlit("--threads");
    reveal_strlit("threads");
    assert("--threads"@ =~= seq!['-', '-'] + "threads"@);
    lemma_long("--threads"@, "threads"@, rest);
    lemma_long("--threads"@, "threads"@, seq![value] + rest);
    lemma_attached("--threads"@, "threads"@, value, rest);
}

proof fn lemma_word_csv(value: Seq<char>, rest: Seq<Seq<char>>)
    ensures
        args::shape(seq!["--csv"@] + rest) == Shape::Long("csv"@, None),
        args::shape(seq!["--csv"@] + (seq![value] + rest)) == Shape::Long("csv"@, None),
        args::shape(seq!["--csv"@ + seq!['='] + value] + rest) == Shape::Long("csv"@, Some(value)),
{
    reveal_strlit("--csv");
    reveal_strlit("csv");
    assert("--csv"@ =~= seq!['-', '-'] + "csv"@);
    lemma_long("--csv"@, "csv"@, rest);
    lemma_long("--csv"@, "csv"@, seq![value] + rest);
    lemma_attached("--csv"@, "csv"@, value, rest);
}

proof fn lemma_word_help(value: Seq<char>, rest: Seq<Seq<char>>)
    ensures
        args::shape(seq!["--help"@] + rest) == Shape::Long("help"@, None),
        args::shape(seq!["--help"@] + (seq![value] + rest)) == Shape::Long("help"@, None),
        args::shape(seq!["--help"@ + seq!['='] + value] + rest) == Shape::Long("help"@, Some(value)),
{
    reveal_strlit("--help");
    reveal_strlit("help");
    assert("--help"@ =~= seq!['-', '-'] + "help"@);
    lemma_long("--help"@, "help"@, rest);
    lemma_long("--help"@, "help"@, seq![value] + rest);
    lemma_attached("--help"@, "help"@, value, rest);
}

proof fn lemma_listed(parts: Seq<Seq<char>>)
    requires
        parts.len() > 0,
        forall|i: int, j: int|
            0 <= i < parts.len() && 0 <= j < parts[i].len() ==> #[trigger] parts[i][j] != ',',
    ensures
        text::pieces(listed(parts), ',') == parts,
    decreases parts.len(),
{
    if parts.len() == 1 {
        files::law_pieces(parts[0], Seq::empty(), ',');
        assert(parts =~= seq![parts[0]]);
    } else {
        let before = parts.drop_last();
        assert forall|i: int, j: int|
            0 <= i < before.len() && 0 <= j < before[i].len() implies #[trigger] before[i][j]
            != ',' by {
            assert(before[i][j] == parts[i][j]);
        }
        lemma_listed(before);
        let last = parts.last();
        assert forall|j: int| 0 <= j < last.len() implies #[trigger] last[j] != ',' by {
            assert(parts[parts.len() - 1][j] == last[j]);
        }
        lines::law_last_piece(listed(before), last, ',');
        assert(parts =~= before.push(last));
    }
}

proof fn lemma_bare(s: Seq<char>)
    requires
        s.len() > 0,
        !text::white(s[0]),
        !text::white(s.last()),
    ensures
        text::trimmed(s) == s,
{
}

proof fn lemma_decimal(v: nat)
    ensures
        bare(text::decimal(v)),
{
    files::law_decimal_reads_back(v, v);
    let d = text::decimal(v);
    assert('0' <= d[0] <= '9' && '0' <= d[d.len() - 1] <= '9');
    assert forall|i: int| 0 <= i < d.len() implies #[trigger] d[i] != ',' by {
        assert('0' <= d[i] <= '9');
    }
}

proof fn lemma_integers(numbers: Seq<usize>)
    ensures
        cli::integers(decimals(numbers)) == Ok::<Seq<usize>, Seq<char>>(numbers),
    decreases numbers.len(),
{
    let parts = decimals(numbers);
    if numbers.len() == 0 {
        assert(numbers =~= Seq::<usize>::empty());
    } else {
        lemma_integers(numbers.drop_last());
        assert(parts.drop_last() =~= decimals(numbers.drop_last()));
        let v = numbers.last() as nat;
        lemma_decimal(v);
        lemma_bare(text::decimal(v));
        files::law_decimal_reads_back(v, usize::MAX as nat);
        assert(numbers.drop_last().push(numbers.last()) =~= numbers);
    }
}

proof fn lemma_fractions<F: Fn(&str) -> Option<u64>>(
    f: F,
    parts: Seq<Seq<char>>,
    fractions: Seq<u64>,
)
    requires
        cli::reads_fractions(f),
        parts.len() == fractions.len(),
        forall|i: int| 0 <= i < parts.len() ==> bare(#[trigger] parts[i]),
        forall|i: int|
            0 <= i < parts.len() ==> cli::gives(f, #[trigger] parts[i], Some(fractions[i])),
    ensures
        cli::fractions(f, parts) == Ok::<Seq<u64>, Seq<char>>(fractions),
    decreases parts.len(),
{
    if parts.len() == 0 {
        assert(fractions =~= Seq::<u64>::empty());
    } else {
        let (before, ahead) = (parts.drop_last(), fractions.drop_last());
        assert forall|i: int| 0 <= i < before.len() implies bare(#[trigger] before[i]) by {
            assert(before[i] == parts[i]);
        }
        assert forall|i: int| 0 <= i < before.len() implies cli::gives(
            f,
            #[trigger] before[i],
            Some(ahead[i]),
        ) by {
            assert(before[i] == parts[i]);
        }
        lemma_fractions(f, before, ahead);
        let last = parts[parts.len() - 1];
        lemma_bare(last);
        let read = Some(fractions[parts.len() - 1]);
        assert(cli::gives(f, last, read));
        assert(cli::gives(f, last, cli::fraction(f, last)));
        assert(cli::fraction(f, last) == read);
        assert(ahead.push(fractions.last()) =~= fractions);
    }
}

/// An option and its value as arguments: one behind the other, or joined by an
/// equals sign.
pub open spec fn given(word: Seq<char>, value: Seq<char>, joined: bool) -> Seq<Seq<char>> {
    if joined {
        seq![word + seq!['='] + value]
    } else {
        seq![word, value]
    }
}

/// An option with a value is taken off the command line.
proof fn lemma_taken<F: Fn(&str) -> Option<u64>>(
    f: F,
    word: Seq<char>,
    name: Seq<char>,
    flag: Flag,
    value: Seq<char>,
    joined: bool,
    rest: Seq<Seq<char>>,
    settings: Settings,
    after: Settings,
)
    requires
        args::shape(seq![word] + (seq![value] + rest)) == Shape::Long(name, None),
        args::shape(seq![word + seq!['='] + value] + rest) == Shape::Long(name, Some(value)),
        cli::flag_named(name) == Some(flag),
        !flag.is_switch(),
        flag != Flag::Help,
        cli::assigned(f, settings, flag, value) == Ok::<Settings, Seq<char>>(after),
    ensures
        cli::answer(f, given(word, value, joined) + rest, settings) == cli::answer(f, rest, after),
{
    let all = given(word, value, joined) + rest;
    if joined {
        assert(all.skip(1) =~= rest);
    } else {
        assert(seq![word] + (seq![value] + rest) =~= all);
        assert(all[1] == value);
        assert(all.skip(2) =~= rest);
    }
}

/// A switch is taken off the command line.
proof fn lemma_switched<F: Fn(&str) -> Option<u64>>(
    f: F,
    word: Seq<char>,
    name: Seq<char>,
    flag: Flag,
    rest: Seq<Seq<char>>,
    settings: Settings,
)
    requires
        args::shape(seq![word] + rest) == Shape::Long(name, None),
        cli::flag_named(name) == Some(flag),
        flag.is_switch(),
    ensures
        cli::answer(f, seq![word] + rest, settings) == cli::answer(
            f,
            rest,
            cli::switched(settings, flag),
        ),
{
    assert((seq![word] + rest).skip(1) =~= rest);
}

/// One option is read as it is written.
proof fn lemma_choice<F: Fn(&str) -> Option<u64>>(
    f: F,
    choice: Choice,
    joined: bool,
    rest: Seq<Seq<char>>,
    settings: Settings,
)
    requires
        cli::reads_fractions(f),
        writable(f, choice),
    ensures
        cli::answer(f, written(choice, joined) + rest, settings) == cli::answer(
            f,
            rest,
            chosen(settings, choice),
        ),
{
    lemma_names();
    let after = chosen(settings, choice);
    match choice {
        Choice::N(v) => {
            let value = text::decimal(v as nat);
            files::law_decimal_reads_back(v as nat, usize::MAX as nat);
            lemma_word_n(value, rest);
            lemma_taken(f, "--n"@, "n"@, Flag::N, value, joined, rest, settings, after);
        },
        Choice::Dim(v) => {
            let value = text::decimal(v as nat);
            files::law_decimal_reads_back(v as nat, usize::MAX as nat);
            lemma_word_dim(value, rest);
            lemma_taken(f, "--dim"@, "dim"@, Flag::Dim, value, joined, rest, settings, after);
        },
        Choice::Queries(v) => {
            let value = text::decimal(v as nat);
            files::law_decimal_reads_back(v as nat, usize::MAX as nat);
            lemma_word_queries(value, rest);
            lemma_taken(f, "--queries"@, "queries"@, Flag::Queries, value, joined, rest, settings, after);
        },
        Choice::Clusters(v) => {
            let value = text::decimal(v as nat);
            files::law_decimal_reads_back(v as nat, usize::MAX as nat);
            lemma_word_gmm_clusters(value, rest);
            lemma_taken(f, "--gmm-clusters"@, "gmm-clusters"@, Flag::GmmClusters, value, joined, rest, settings, after);
        },
        Choice::Threads(v) => {
            let value = text::decimal(v as nat);
            files::law_decimal_reads_back(v as nat, usize::MAX as nat);
            lemma_word_threads(value, rest);
            lemma_taken(f, "--threads"@, "threads"@, Flag::Threads, value, joined, rest, settings, after);
        },
        Choice::Seed(v) => {
            let value = text::decimal(v as nat);
            files::law_decimal_reads_back(v as nat, u64::MAX as nat);
            lemma_word_seed(value, rest);
            lemma_taken(f, "--seed"@, "seed"@, Flag::Seed, value, joined, rest, settings, after);
        },
        Choice::Gmm => {
            reveal_strlit("gmm");
            reveal_strlit("uniform");
            assert("gmm"@.len() == 3 && "uniform"@.len() == 7);
            lemma_word_dist("gmm"@, rest);
            lemma_taken(f, "--dist"@, "dist"@, Flag::Dist, "gmm"@, joined, rest, settings, after);
        },
        Choice::Uniform => {
            reveal_strlit("gmm");
            reveal_strlit("uniform");
            assert("gmm"@.len() == 3 && "uniform"@.len() == 7);
            lemma_word_dist("uniform"@, rest);
            lemma_taken(f, "--dist"@, "dist"@, Flag::Dist, "uniform"@, joined, rest, settings, after);
        },
        Choice::Vectors(path) => {
            lemma_word_vectors(path, rest);
            lemma_taken(f, "--vectors"@, "vectors"@, Flag::Vectors, path, joined, rest, settings, after);
        },
        Choice::QueriesFile(path) => {
            lemma_word_queries_file(path, rest);
            lemma_taken(f, "--queries-file"@, "queries-file"@, Flag::QueriesFile, path, joined, rest, settings, after);
        },
        Choice::GtCache(path) => {
            lemma_word_gt_cache(path, rest);
            lemma_taken(f, "--gt-cache"@, "gt-cache"@, Flag::GtCache, path, joined, rest, settings, after);
        },
        Choice::Csv(path) => {
            lemma_word_csv(path, rest);
            lemma_taken(f, "--csv"@, "csv"@, Flag::Csv, path, joined, rest, settings, after);
        },
        Choice::K(list) => {
            let value = listed(decimals(list));
            lemma_integers(list);
            lemma_decimals_listed(list);
            lemma_word_k(value, rest);
            lemma_taken(f, "--k"@, "k"@, Flag::K, value, joined, rest, settings, after);
        },
        Choice::Rerank(list) => {
            let value = listed(decimals(list));
            lemma_integers(list);
            lemma_decimals_listed(list);
            lemma_word_rerank(value, rest);
            lemma_taken(f, "--rerank"@, "rerank"@, Flag::Rerank, value, joined, rest, settings, after);
        },
        Choice::Filter(parts, fractions) => {
            let value = listed(parts);
            lemma_fractions(f, parts, fractions);
            assert forall|i: int, j: int|
                0 <= i < parts.len() && 0 <= j < parts[i].len() implies #[trigger] parts[i][j]
                != ',' by {
                assert(bare(parts[i]));
            }
            lemma_listed(parts);
            lemma_word_filter(value, rest);
            lemma_taken(f, "--filter"@, "filter"@, Flag::Filter, value, joined, rest, settings, after);
        },
        Choice::Normalize => {
            lemma_word_normalize(Seq::empty(), rest);
            lemma_switched(f, "--normalize"@, "normalize"@, Flag::Normalize, rest, settings);
        },
        Choice::Full => {
            lemma_word_full(Seq::empty(), rest);
            lemma_switched(f, "--full"@, "full"@, Flag::Full, rest, settings);
        },
    }
}

proof fn lemma_decimals_listed(list: Seq<usize>)
    requires
        list.len() > 0,
    ensures
        text::pieces(listed(decimals(list)), ',') == decimals(list),
{
    let parts = decimals(list);
    assert forall|i: int, j: int|
        0 <= i < parts.len() && 0 <= j < parts[i].len() implies #[trigger] parts[i][j] != ',' by {
        lemma_decimal(list[i] as nat);
    }
    lemma_listed(parts);
}

proof fn lemma_command<F: Fn(&str) -> Option<u64>>(
    f: F,
    choices: Seq<(Choice, bool)>,
    tail: Seq<Seq<char>>,
    settings: Settings,
)
    requires
        cli::reads_fractions(f),
        forall|i: int| 0 <= i < choices.len() ==> writable(f, (#[trigger] choices[i]).0),
    ensures
        cli::answer(f, command(choices, tail), settings) == cli::answer(
            f,
            tail,
            all_chosen(settings, choices),
        ),
    decreases choices.len(),
{
    if choices.len() > 0 {
        let rest = choices.skip(1);
        assert(writable(f, choices[0].0));
        lemma_choice(f, choices[0].0, choices[0].1, command(rest, tail), settings);
        assert forall|i: int| 0 <= i < rest.len() implies writable(f, (#[trigger] rest[i]).0) by {
            assert(rest[i] == choices[i + 1]);
        }
        lemma_command(f, rest, tail, chosen(settings, choices[0].0));
    }
}

/// The settings can be run: both files or none, numbers above zero, fractions
/// above zero and not above one.
pub open spec fn usable(settings: Settings) -> bool {
    &&& settings.vectors_path is Some <==> settings.queries_path is Some
    &&& settings.n > 0
    &&& settings.dim > 0
    &&& settings.queries > 0
    &&& settings.threads > 0
    &&& settings.dist is Gmm ==> settings.gmm_clusters > 0
    &&& settings.k.len() > 0
    &&& forall|i: int| 0 <= i < settings.k.len() ==> #[trigger] settings.k[i] > 0
    &&& settings.rerank.len() > 0
    &&& forall|i: int| 0 <= i < settings.rerank.len() ==> #[trigger] settings.rerank[i] > 0
    &&& settings.filters.len() > 0
    &&& forall|i: int| 0 <= i < settings.filters.len() ==> in_range(#[trigger] settings.filters[i])
}

/// A fraction above zero and not above one, by its value.
pub open spec fn in_range(x: u64) -> bool {
    &&& x % ieee::SIGN_64 < ieee::INF_64
    &&& 0 < values::units_64(x) <= values::units_64(ieee::ONE_64)
}

proof fn lemma_in_range(x: u64)
    ensures
        in_range(x) <==> 0 < x <= ieee::ONE_64,
{
    assert(ieee::steps_64(0) == 0);
    if x < ieee::INF_64 {
        assert(x % ieee::SIGN_64 == x);
        if x > 0 {
            ieee::lemma_steps_64_monotone(0, x);
        }
        if x > ieee::ONE_64 {
            ieee::lemma_steps_64_monotone(ieee::ONE_64, x);
        }
        if x < ieee::ONE_64 {
            ieee::lemma_steps_64_monotone(x, ieee::ONE_64);
        }
    }
}

proof fn lemma_usable(settings: Settings)
    ensures
        usable(settings) <==> cli::settings_error(settings) is None,
{
    assert forall|x: u64| in_range(x) <==> #[trigger] below(x) by {
        lemma_in_range(x);
    }
    if cli::settings_error(settings) is None {
        assert forall|i: int| 0 <= i < settings.k.len() implies #[trigger] settings.k[i] > 0 by {
            if settings.k[i] == 0 {
                assert(settings.k.contains(0));
            }
        }
        assert forall|i: int| 0 <= i < settings.rerank.len() implies #[trigger] settings.rerank[i]
            > 0 by {
            if settings.rerank[i] == 0 {
                assert(settings.rerank.contains(0));
            }
        }
        assert forall|i: int| 0 <= i < settings.filters.len() implies in_range(
            #[trigger] settings.filters[i],
        ) by {
            assert(below(settings.filters[i]));
        }
    }
    if usable(settings) {
        assert forall|i: int| 0 <= i < settings.filters.len() implies 0
            < #[trigger] settings.filters[i] <= ieee::ONE_64 by {
            assert(in_range(settings.filters[i]));
            assert(below(settings.filters[i]));
        }
    }
}

spec fn below(x: u64) -> bool {
    0 < x <= ieee::ONE_64
}

/// The settings before any option.
pub open spec fn untouched(threads: usize) -> Settings {
    Settings {
        n: 100_000,
        dim: 1024,
        dim_given: false,
        queries: 1000,
        dist: Dist::Gmm,
        gmm_clusters: 1024,
        seed: 42,
        vectors_path: None,
        queries_path: None,
        normalize: false,
        k: seq![10, 100],
        rerank: seq![2, 4, 8],
        filters: seq![ieee::ONE_64],
        full: false,
        gt_cache: None,
        threads,
        csv: None,
    }
}

/// A command line is read as it is written: whatever options there are, in
/// whatever order and form, each sets its own setting to the value that is written, the
/// last one of a kind counts, and what is not mentioned keeps its default. It
/// is run exactly where the settings are usable.
pub proof fn law_options_are_read_as_written<F: Fn(&str) -> Option<u64>>(
    arguments: &[String],
    threads: usize,
    f: &F,
    choices: Seq<(Choice, bool)>,
    r: Request,
)
    requires
        cli::reads_fractions(*f),
        forall|i: int| 0 <= i < choices.len() ==> writable(*f, (#[trigger] choices[i]).0),
        args::texts(arguments@) == command(choices, Seq::empty()),
        call_ensures(cli::parse::<F>, (arguments, threads, f), r),
    ensures
        usable(all_chosen(untouched(threads), choices)) ==> r is Run && r->Run_0@ == all_chosen(
            untouched(threads),
            choices,
        ),
        !usable(all_chosen(untouched(threads), choices)) ==> r is Fail,
{
    lemma_command(*f, choices, Seq::empty(), untouched(threads));
    lemma_usable(all_chosen(untouched(threads), choices));
}

/// Help is shown where it is asked for, whatever else is written before or
/// behind; an argument that is no option, and a name that no option has, are
/// refused.
pub proof fn law_help_and_refusals<F: Fn(&str) -> Option<u64>>(
    arguments: &[String],
    threads: usize,
    f: &F,
    choices: Seq<(Choice, bool)>,
    word: Seq<char>,
    rest: Seq<Seq<char>>,
    r: Request,
)
    requires
        cli::reads_fractions(*f),
        forall|i: int| 0 <= i < choices.len() ==> writable(*f, (#[trigger] choices[i]).0),
        args::texts(arguments@) == command(choices, seq![word] + rest),
        call_ensures(cli::parse::<F>, (arguments, threads, f), r),
    ensures
        word == "--help"@ || word == "-h"@ ==> r is Help,
        word.len() > 0 && word[0] != '-' ==> r is Fail,
        word.len() > 2 && word[0] == '-' && word[1] == '-' && (forall|i: int|
            2 <= i < word.len() ==> #[trigger] word[i] != '=') && !is_name(word.skip(2))
            ==> r is Fail,
{
    lemma_command(*f, choices, seq![word] + rest, untouched(threads));
    lemma_names();
    if word == "--help"@ {
        lemma_word_help(Seq::empty(), rest);
    }
    reveal_strlit("-h");
    assert((seq![word] + rest)[0] == word);
    if word.len() > 2 && word[0] == '-' && word[1] == '-' && (forall|i: int|
        2 <= i < word.len() ==> #[trigger] word[i] != '=') && !is_name(word.skip(2)) {
        let name = word.skip(2);
        assert(word =~= seq!['-', '-'] + name);
        assert forall|i: int| 0 <= i < name.len() implies #[trigger] name[i] != '=' by {
            assert(name[i] == word[i + 2]);
        }
        lemma_long(word, name, rest);
        assert(cli::flag_named(name) is None);
    }
}

/// Whether an option goes by the name.
pub open spec fn is_name(name: Seq<char>) -> bool {
    ||| name == "n"@
    ||| name == "dim"@
    ||| name == "queries"@
    ||| name == "dist"@
    ||| name == "gmm-clusters"@
    ||| name == "seed"@
    ||| name == "vectors"@
    ||| name == "queries-file"@
    ||| name == "normalize"@
    ||| name == "k"@
    ||| name == "rerank"@
    ||| name == "filter"@
    ||| name == "full"@
    ||| name == "gt-cache"@
    ||| name == "threads"@
    ||| name == "csv"@
    ||| name == "help"@
}

/// A number that is none, or does not fit, is refused.
pub proof fn law_bad_numbers_are_refused<F: Fn(&str) -> Option<u64>>(
    arguments: &[String],
    threads: usize,
    f: &F,
    choices: Seq<(Choice, bool)>,
    value: Seq<char>,
    rest: Seq<Seq<char>>,
    r: Request,
)
    requires
        cli::reads_fractions(*f),
        forall|i: int| 0 <= i < choices.len() ==> writable(*f, (#[trigger] choices[i]).0),
        args::texts(arguments@) == command(choices, seq!["--n"@, value] + rest),
        value.len() == 0 || (exists|i: int|
            0 <= i < value.len() && !('0' <= #[trigger] value[i] <= '9') && (i > 0 || value[0]
                != '+')) || exists|v: nat| v > usize::MAX && value == #[trigger] text::decimal(v),
        call_ensures(cli::parse::<F>, (arguments, threads, f), r),
    ensures
        r is Fail,
{
    lemma_command(*f, choices, seq!["--n"@, value] + rest, untouched(threads));
    lemma_names();
    lemma_word_n(value, rest);
    let all = seq!["--n"@, value] + rest;
    assert(seq!["--n"@] + (seq![value] + rest) =~= all);
    assert(all[1] == value);
    if exists|v: nat| v > usize::MAX && value == #[trigger] text::decimal(v) {
        let v = choose|v: nat| v > usize::MAX && value == #[trigger] text::decimal(v);
        files::law_decimal_reads_back(v, usize::MAX as nat);
    } else if value.len() > 0 {
        let i = choose|i: int|
            0 <= i < value.len() && !('0' <= #[trigger] value[i] <= '9') && (i > 0 || value[0]
                != '+');
        let digits = text::unsigned_part(value);
        if value[0] == '+' {
            assert(digits[i - 1] == value[i]);
        } else {
            assert(digits[i] == value[i]);
        }
        assert(!text::all_digits(digits));
    }
    assert(text::number(value, usize::MAX as nat) is None);
}

/// The configuration without options, and the dimension of raw files.
pub proof fn law_defaults(threads: usize, r: Config, dim: Option<usize>)
    requires
        call_ensures(Config::with_threads, (threads,), r),
        call_ensures(Config::raw_dim, (&r,), dim),
    ensures
        r@ == untouched(threads),
        dim is None,
{
}

/// What unusable settings are told: the first fault, in this order.
pub proof fn law_faults(cfg: &Config, r: Result<(), &'static str>)
    requires
        call_ensures(cli::validate, (cfg,), r),
    ensures
        r is Ok <==> usable(cfg@),
        r matches Err(message) ==> message@ == (if (cfg.vectors_path is Some)
            != (cfg.queries_path is Some) {
            "--vectors and --queries-file must be given together"@
        } else if cfg.n == 0 || cfg.dim == 0 || cfg.queries == 0 {
            "--n, --dim and --queries must be > 0"@
        } else if cfg.k@.len() == 0 || cfg.k@.contains(0) {
            "--k needs at least one depth > 0"@
        } else if cfg.rerank@.len() == 0 || cfg.rerank@.contains(0) {
            "--rerank needs at least one factor > 0"@
        } else if cfg.filters@.len() == 0 || exists|i: int|
            0 <= i < cfg.filters@.len() && !in_range(#[trigger] cfg.filters@[i]) {
            "--filter selectivities must be in (0.0, 1.0]"@
        } else if cfg.threads == 0 {
            "--threads must be > 0"@
        } else {
            "--gmm-clusters must be > 0"@
        }),
{
    lemma_usable(cfg@);
    assert forall|i: int| 0 <= i < cfg.filters@.len() implies (in_range(
        #[trigger] cfg.filters@[i],
    ) <==> 0 < cfg.filters@[i] <= ieee::ONE_64) by {
        lemma_in_range(cfg.filters@[i]);
    }
}

/// Raw files have a dimension where it was given, and that one.
pub proof fn law_raw_dimension(cfg: &Config, r: Option<usize>)
    requires
        call_ensures(Config::raw_dim, (cfg,), r),
    ensures
        r is Some <==> cfg.dim_given,
        r is Some ==> r == Some(cfg.dim),
{
}

/// An option is found by the word that it is written as, without its dashes;
/// all but three take a value.
pub proof fn law_option_words(
    flag: Flag,
    word: &'static str,
    takes: bool,
    name: &str,
    r: Option<Flag>,
)
    requires
        call_ensures(Flag::text, (flag,), word),
        call_ensures(Flag::takes_value, (flag,), takes),
        call_ensures(cli::find_flag, (name,), r),
        word@ == seq!['-', '-'] + name@,
    ensures
        r == Some(flag),
        takes <==> !(flag is Normalize || flag is Full || flag is Help),
{
    lemma_names();
    if flag is N {
        reveal_strlit("--n");
        reveal_strlit("n");
        assert(name@ =~= "n"@) by {
            assert(name@ =~= word@.skip(2));
        }
    }
    if flag is Dim {
        reveal_strlit("--dim");
        reveal_strlit("dim");
        assert(name@ =~= "dim"@) by {
            assert(name@ =~= word@.skip(2));
        }
    }
    if flag is Queries {
        reveal_strlit("--queries");
        reveal_strlit("queries");
        assert(name@ =~= "queries"@) by {
            assert(name@ =~= word@.skip(2));
        }
    }
    if flag is Dist {
        reveal_strlit("--dist");
        reveal_strlit("dist");
        assert(name@ =~= "dist"@) by {
            assert(name@ =~= word@.skip(2));
        }
    }
    if flag is GmmClusters {
        reveal_strlit("--gmm-clusters");
        reveal_strlit("gmm-clusters");
        assert(name@ =~= "gmm-clusters"@) by {
            assert(name@ =~= word@.skip(2));
        }
    }
    if flag is Seed {
        reveal_strlit("--seed");
        reveal_strlit("seed");
        assert(name@ =~= "seed"@) by {
            assert(name@ =~= word@.skip(2));
        }
    }
    if flag is Vectors {
        reveal_strlit("--vectors");
        reveal_strlit("vectors");
        assert(name@ =~= "vectors"@) by {
            assert(name@ =~= word@.skip(2));
        }
    }
    if flag is QueriesFile {
        reveal_strlit("--queries-file");
        reveal_strlit("queries-file");
        assert(name@ =~= "queries-file"@) by {
            assert(name@ =~= word@.skip(2));
        }
    }
    if flag is Normalize {
        reveal_strlit("--normalize");
        reveal_strlit("normalize");
        assert(name@ =~= "normalize"@) by {
            assert(name@ =~= word@.skip(2));
        }
    }
    if flag is K {
        reveal_strlit("--k");
        reveal_strlit("k");
        assert(name@ =~= "k"@) by {
            assert(name@ =~= word@.skip(2));
        }
    }
    if flag is Rerank {
        reveal_strlit("--rerank");
        reveal_strlit("rerank");
        assert(name@ =~= "rerank"@) by {
            assert(name@ =~= word@.skip(2));
        }
    }
    if flag is Filter {
        reveal_strlit("--filter");
        reveal_strlit("filter");
        assert(name@ =~= "filter"@) by {
            assert(name@ =~= word@.skip(2));
        }
    }
    if flag is Full {
        reveal_strlit("--full");
        reveal_strlit("full");
        assert(name@ =~= "full"@) by {
            assert(name@ =~= word@.skip(2));
        }
    }
    if flag is GtCache {
        reveal_strlit("--gt-cache");
        reveal_strlit("gt-cache");
        assert(name@ =~= "gt-cache"@) by {
            assert(name@ =~= word@.skip(2));
        }
    }
    if flag is Threads {
        reveal_strlit("--threads");
        reveal_strlit("threads");
        assert(name@ =~= "threads"@) by {
            assert(name@ =~= word@.skip(2));
        }
    }
    if flag is Csv {
        reveal_strlit("--csv");
        reveal_strlit("csv");
        assert(name@ =~= "csv"@) by {
            assert(name@ =~= word@.skip(2));
        }
    }
    if flag is Help {
        reveal_strlit("--help");
        reveal_strlit("help");
        assert(name@ =~= "help"@) by {
            assert(name@ =~= word@.skip(2));
        }
    }
}

} // verus!
