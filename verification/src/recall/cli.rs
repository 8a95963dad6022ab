//! Command-line parsing and validation for the recall harness.
//!
//! Parsing a fraction is left to a function of the caller's, which gives the
//! bit pattern of a double-precision number; everything else is done here.

use vstd::prelude::*;
use crate::ieee;
use crate::recall::args::{self, Shape, Token};
use crate::text;

verus! {

/// Distribution of a synthetic corpus.
#[derive(Clone, Copy, Debug, PartialEq, Eq, Structural)]
pub enum Dist {
    Gmm,
    Uniform,
}

/// What the harness is asked to do. Fractions are bit patterns.
#[derive(Debug)]
pub struct Config {
    pub n: usize,
    pub dim: usize,
    /// Whether `dim` was given; a raw data file needs that.
    pub dim_given: bool,
    pub queries: usize,
    pub dist: Dist,
    pub gmm_clusters: usize,
    pub seed: u64,
    pub vectors_path: Option<String>,
    pub queries_path: Option<String>,
    pub normalize: bool,
    pub k: Vec<usize>,
    pub rerank: Vec<usize>,
    pub filters: Vec<u64>,
    pub full: bool,
    pub gt_cache: Option<String>,
    pub threads: usize,
    pub csv: Option<String>,
}

/// The contents of a [`Config`].
#[verifier::ext_equal]
pub struct Settings {
    pub n: usize,
    pub dim: usize,
    pub dim_given: bool,
    pub queries: usize,
    pub dist: Dist,
    pub gmm_clusters: usize,
    pub seed: u64,
    pub vectors_path: Option<Seq<char>>,
    pub queries_path: Option<Seq<char>>,
    pub normalize: bool,
    pub k: Seq<usize>,
    pub rerank: Seq<usize>,
    pub filters: Seq<u64>,
    pub full: bool,
    pub gt_cache: Option<Seq<char>>,
    pub threads: usize,
    pub csv: Option<Seq<char>>,
}

/// The characters of an optional string.
pub open spec fn optional(s: Option<String>) -> Option<Seq<char>> {
    match s {
        Some(s) => Some(s@),
        None => None,
    }
}

impl View for Config {
    type V = Settings;

    open spec fn view(&self) -> Settings {
        Settings {
            n: self.n,
            dim: self.dim,
            dim_given: self.dim_given,
            queries: self.queries,
            dist: self.dist,
            gmm_clusters: self.gmm_clusters,
            seed: self.seed,
            vectors_path: optional(self.vectors_path),
            queries_path: optional(self.queries_path),
            normalize: self.normalize,
            k: self.k@,
            rerank: self.rerank@,
            filters: self.filters@,
            full: self.full,
            gt_cache: optional(self.gt_cache),
            threads: self.threads,
            csv: optional(self.csv),
        }
    }
}

/// The settings before any option is read.
pub open spec fn defaults(threads: usize) -> Settings {
    Settings {
        n: 100_000,
        dim: 1024,
        dim_given: false,
        queries: 1000,
        dist: Dist::Gmm,
        gmm_clusters: 1024,
        seed: 42,
        vectors_path: None,
        queries_path: None,
        normalize: false,
        k: seq![10, 100],
        rerank: seq![2, 4, 8],
        filters: seq![ieee::ONE_64],
        full: false,
        gt_cache: None,
        threads,
        csv: None,
    }
}

impl Config {
    /// The default configuration, with the given number of worker threads.
    pub fn with_threads(threads: usize) -> (r: Self)
        ensures
            r@ == defaults(threads),
    {
        let r = Config {
            n: 100_000,
            dim: 1024,
            dim_given: false,
            queries: 1000,
            dist: Dist::Gmm,
            gmm_clusters: 1024,
            seed: 42,
            vectors_path: None,
            queries_path: None,
            normalize: false,
            k: vec![10, 100],
            rerank: vec![2, 4, 8],
            filters: vec![ieee::ONE_64],
            full: false,
            gt_cache: None,
            threads,
            csv: None,
        };
        assert(r@ =~= defaults(threads));
        r
    }

    /// The dimension of raw data files, where it was given.
    pub fn raw_dim(&self) -> (r: Option<usize>)
        ensures
            r == (if self.dim_given {
                Some(self.dim)
            } else {
                None
            }),
    {
        if self.dim_given {
            Some(self.dim)
        } else {
            None
        }
    }
}

/// The help text.
pub const HELP: &'static str = "recall — quantization-loss benchmark (guksu M0)

Reports recall@k of quantized configs against f32 brute-force ground truth:
{int8, binary, binary→int8-rerank, binary→f32-rerank} × {symmetric, asymmetric}
× rerank depth, optionally under filter bitmaps.

USAGE:
  recall [OPTIONS]                      synthetic corpus (default)
  recall --vectors F --queries-file F   real data (.npy <f4 C-order or raw f32 LE)

DATA (synthetic):
  --n N                 corpus size                        [100000]
  --dim D               dimensionality                     [1024]
  --queries Q           number of queries                  [1000]
  --dist gmm|uniform    synthetic distribution             [gmm]
  --gmm-clusters C      mixture components (~n/100 is a    [1024]
                        realistic density; fewer = harder)
  --seed S              PRNG seed (data, queries, filters) [42]
DATA (files; both flags required together):
  --vectors PATH        corpus file (.npy or raw little-endian f32; raw needs --dim)
  --queries-file PATH   query file, same formats
  --normalize           L2-normalize file data (default: verify and abort if not normalized)
EVALUATION:
  --k LIST              recall depths                      [10,100]
  --rerank LIST         rerank factors (× k)               [2,4,8]
  --filter LIST         filter selectivities (1.0 = none)  [1.0]
  --full                also run int8 → f32 rerank rows
  --gt-cache PATH       reuse ground truth if params match, else compute and save
  --threads N           worker threads                     [available parallelism]
OUTPUT:
  --csv PATH            append machine-readable rows
  -h, --help            this text
";

/// The options.
#[derive(Clone, Copy, Debug, PartialEq, Eq, Structural)]
pub enum Flag {
    N,
    Dim,
    Queries,
    Dist,
    GmmClusters,
    Seed,
    Vectors,
    QueriesFile,
    Normalize,
    K,
    Rerank,
    Filter,
    Full,
    GtCache,
    Threads,
    Csv,
    Help,
}

/// The option of a name.
pub open spec fn flag_named(name: Seq<char>) -> Option<Flag> {
    if name == "n"@ {
        Some(Flag::N)
    } else if name == "dim"@ {
        Some(Flag::Dim)
    } else if name == "queries"@ {
        Some(Flag::Queries)
    } else if name == "dist"@ {
        Some(Flag::Dist)
    } else if name == "gmm-clusters"@ {
        Some(Flag::GmmClusters)
    } else if name == "seed"@ {
        Some(Flag::Seed)
    } else if name == "vectors"@ {
        Some(Flag::Vectors)
    } else if name == "queries-file"@ {
        Some(Flag::QueriesFile)
    } else if name == "normalize"@ {
        Some(Flag::Normalize)
    } else if name == "k"@ {
        Some(Flag::K)
    } else if name == "rerank"@ {
        Some(Flag::Rerank)
    } else if name == "filter"@ {
        Some(Flag::Filter)
    } else if name == "full"@ {
        Some(Flag::Full)
    } else if name == "gt-cache"@ {
        Some(Flag::GtCache)
    } else if name == "threads"@ {
        Some(Flag::Threads)
    } else if name == "csv"@ {
        Some(Flag::Csv)
    } else if name == "help"@ {
        Some(Flag::Help)
    } else {
        None
    }
}

/// Looks up an option by its name.
pub fn find_flag(name: &str) -> (r: Option<Flag>)
    ensures
        r == flag_named(name@),
{
    if text::same(name, "n") {
        Some(Flag::N)
    } else if text::same(name, "dim") {
        Some(Flag::Dim)
    } else if text::same(name, "queries") {
        Some(Flag::Queries)
    } else if text::same(name, "dist") {
        Some(Flag::Dist)
    } else if text::same(name, "gmm-clusters") {
        Some(Flag::GmmClusters)
    } else if text::same(name, "seed") {
        Some(Flag::Seed)
    } else if text::same(name, "vectors") {
        Some(Flag::Vectors)
    } else if text::same(name, "queries-file") {
        Some(Flag::QueriesFile)
    } else if text::same(name, "normalize") {
        Some(Flag::Normalize)
    } else if text::same(name, "k") {
        Some(Flag::K)
    } else if text::same(name, "rerank") {
        Some(Flag::Rerank)
    } else if text::same(name, "filter") {
        Some(Flag::Filter)
    } else if text::same(name, "full") {
        Some(Flag::Full)
    } else if text::same(name, "gt-cache") {
        Some(Flag::GtCache)
    } else if text::same(name, "threads") {
        Some(Flag::Threads)
    } else if text::same(name, "csv") {
        Some(Flag::Csv)
    } else if text::same(name, "help") {
        Some(Flag::Help)
    } else {
        None
    }
}

impl Flag {
    /// The option as it is written.
    pub open spec fn word(self) -> Seq<char> {
        match self {
            Flag::N => "--n"@,
            Flag::Dim => "--dim"@,
            Flag::Queries => "--queries"@,
            Flag::Dist => "--dist"@,
            Flag::GmmClusters => "--gmm-clusters"@,
            Flag::Seed => "--seed"@,
            Flag::Vectors => "--vectors"@,
            Flag::QueriesFile => "--queries-file"@,
            Flag::Normalize => "--normalize"@,
            Flag::K => "--k"@,
            Flag::Rerank => "--rerank"@,
            Flag::Filter => "--filter"@,
            Flag::Full => "--full"@,
            Flag::GtCache => "--gt-cache"@,
            Flag::Threads => "--threads"@,
            Flag::Csv => "--csv"@,
            Flag::Help => "--help"@,
        }
    }

    /// The option as it is written.
    pub fn text(self) -> (r: &'static str)
        ensures
            r@ == self.word(),
    {
        match self {
            Flag::N => "--n",
            Flag::Dim => "--dim",
            Flag::Queries => "--queries",
            Flag::Dist => "--dist",
            Flag::GmmClusters => "--gmm-clusters",
            Flag::Seed => "--seed",
            Flag::Vectors => "--vectors",
            Flag::QueriesFile => "--queries-file",
            Flag::Normalize => "--normalize",
            Flag::K => "--k",
            Flag::Rerank => "--rerank",
            Flag::Filter => "--filter",
            Flag::Full => "--full",
            Flag::GtCache => "--gt-cache",
            Flag::Threads => "--threads",
            Flag::Csv => "--csv",
            Flag::Help => "--help",
        }
    }

    /// Whether the option stands alone.
    pub open spec fn is_switch(self) -> bool {
        self == Flag::Normalize || self == Flag::Full
    }

    /// Whether the option needs a value.
    pub fn takes_value(self) -> (r: bool)
        ensures
            r == !(self.is_switch() || self == Flag::Help),
    {
        self != Flag::Normalize && self != Flag::Full && self != Flag::Help
    }
}

/// `f` gives `r` for a string that holds `text`.
pub open spec fn gives<F: Fn(&str) -> Option<u64>>(f: F, text: Seq<char>, r: Option<u64>) -> bool {
    exists|s: &str| s@ == text && #[trigger] call_ensures(f, (s,), r)
}

/// `f` accepts every text and gives one result for it.
pub open spec fn reads_fractions<F: Fn(&str) -> Option<u64>>(f: F) -> bool {
    &&& forall|s: &str| call_requires(f, (s,))
    &&& forall|text: Seq<char>, a: Option<u64>, b: Option<u64>| #[trigger]
        gives(f, text, a) && #[trigger] gives(f, text, b) ==> a == b
}

/// The fraction that `f` reads from a text.
pub open spec fn fraction<F: Fn(&str) -> Option<u64>>(f: F, text: Seq<char>) -> Option<u64> {
    choose|r: Option<u64>| gives(f, text, r)
}

/// The integers of a list, or the first element that is none.
pub open spec fn integers(parts: Seq<Seq<char>>) -> Result<Seq<usize>, Seq<char>>
    decreases parts.len(),
{
    if parts.len() == 0 {
        Ok(Seq::empty())
    } else {
        match integers(parts.drop_last()) {
            Err(part) => Err(part),
            Ok(before) => match text::number(text::trimmed(parts.last()), usize::MAX as nat) {
                Some(v) => Ok(before.push(v as usize)),
                None => Err(parts.last()),
            },
        }
    }
}

/// The fractions of a list, or the first element that is none.
pub open spec fn fractions<F: Fn(&str) -> Option<u64>>(f: F, parts: Seq<Seq<char>>) -> Result<
    Seq<u64>,
    Seq<char>,
>
    decreases parts.len(),
{
    if parts.len() == 0 {
        Ok(Seq::empty())
    } else {
        match fractions(f, parts.drop_last()) {
            Err(part) => Err(part),
            Ok(before) => match fraction(f, text::trimmed(parts.last())) {
                Some(v) => Ok(before.push(v)),
                None => Err(parts.last()),
            },
        }
    }
}

/// The settings after an option got its value, or what is wrong with it.
pub open spec fn assigned<F: Fn(&str) -> Option<u64>>(
    f: F,
    cfg: Settings,
    flag: Flag,
    value: Seq<char>,
) -> Result<Settings, Seq<char>> {
    let invalid = Err("invalid value for "@ + flag.word() + ": "@ + args::quoted(value));
    let parts = text::pieces(value, ',');
    match flag {
        Flag::N => match text::number(value, usize::MAX as nat) {
            Some(v) => Ok(Settings { n: v as usize, ..cfg }),
            None => invalid,
        },
        Flag::Dim => match text::number(value, usize::MAX as nat) {
            Some(v) => Ok(Settings { dim: v as usize, dim_given: true, ..cfg }),
            None => invalid,
        },
        Flag::Queries => match text::number(value, usize::MAX as nat) {
            Some(v) => Ok(Settings { queries: v as usize, ..cfg }),
            None => invalid,
        },
        Flag::GmmClusters => match text::number(value, usize::MAX as nat) {
            Some(v) => Ok(Settings { gmm_clusters: v as usize, ..cfg }),
            None => invalid,
        },
        Flag::Threads => match text::number(value, usize::MAX as nat) {
            Some(v) => Ok(Settings { threads: v as usize, ..cfg }),
            None => invalid,
        },
        Flag::Seed => match text::number(value, u64::MAX as nat) {
            Some(v) => Ok(Settings { seed: v as u64, ..cfg }),
            None => invalid,
        },
        Flag::Dist => if value == "gmm"@ {
            Ok(Settings { dist: Dist::Gmm, ..cfg })
        } else if value == "uniform"@ {
            Ok(Settings { dist: Dist::Uniform, ..cfg })
        } else {
            Err("--dist must be gmm or uniform, got "@ + args::quoted(value))
        },
        Flag::K => match integers(parts) {
            Ok(v) => Ok(Settings { k: v, ..cfg }),
            Err(part) => Err("invalid --k element "@ + args::quoted(part)),
        },
        Flag::Rerank => match integers(parts) {
            Ok(v) => Ok(Settings { rerank: v, ..cfg }),
            Err(part) => Err("invalid --rerank element "@ + args::quoted(part)),
        },
        Flag::Filter => match fractions(f, parts) {
            Ok(v) => Ok(Settings { filters: v, ..cfg }),
            Err(part) => Err("invalid --filter element "@ + args::quoted(part)),
        },
        Flag::Vectors => Ok(Settings { vectors_path: Some(value), ..cfg }),
        Flag::QueriesFile => Ok(Settings { queries_path: Some(value), ..cfg }),
        Flag::GtCache => Ok(Settings { gt_cache: Some(value), ..cfg }),
        Flag::Csv => Ok(Settings { csv: Some(value), ..cfg }),
        Flag::Normalize | Flag::Full | Flag::Help => Ok(cfg),
    }
}

/// The integers of a comma-separated list, or the first element that is none.
fn read_integers(value: &[char]) -> (r: Result<Vec<usize>, String>)
    ensures
        match integers(text::pieces(value@, ',')) {
            Ok(v) => r matches Ok(w) && w@ == v,
            Err(part) => r matches Err(m) && m@ == part,
        },
{
    let parts: Vec<Vec<char>> = text::split(value, ',');
    let ghost all = text::pieces(value@, ',');
    let mut out: Vec<usize> = Vec::new();
    let mut i: usize = 0;
    assert(all.take(0) =~= Seq::<Seq<char>>::empty());
    while i < parts.len()
        invariant
            i <= parts@.len() == all.len(),
            forall|k: int| 0 <= k < parts@.len() ==> (#[trigger] parts@[k])@ == all[k],
            integers(all.take(i as int)) == Ok::<Seq<usize>, Seq<char>>(out@),
            all == text::pieces(value@, ','),
        decreases parts@.len() - i,
    {
        let part: &[char] = parts[i].as_slice();
        let ghost longer = all.take(i + 1);
        assert(longer.drop_last() =~= all.take(i as int));
        assert(longer.last() == part@);
        match text::parse_number(text::trim(part), usize::MAX as u64) {
            Some(v) => {
                out.push(v as usize);
            },
            None => {
                proof {
                    assert(integers(longer) == Err::<Seq<usize>, Seq<char>>(part@));
                    lemma_bad_integer(all, i + 1);
                }
                return Err(text::from_chars(part));
            },
        }
        i += 1;
    }
    assert(all.take(all.len() as int) =~= all);
    Ok(out)
}

/// A list fails with the first element that fails.
proof fn lemma_bad_integer(parts: Seq<Seq<char>>, n: int)
    requires
        0 <= n <= parts.len(),
        integers(parts.take(n)) is Err,
    ensures
        integers(parts) == integers(parts.take(n)),
    decreases parts.len() - n,
{
    if n == parts.len() {
        assert(parts.take(n) =~= parts);
    } else {
        assert(parts.take(n + 1).drop_last() =~= parts.take(n));
        lemma_bad_integer(parts, n + 1);
    }
}

/// The fractions of a comma-separated list, or the first element that is none.
fn read_fractions<F: Fn(&str) -> Option<u64>>(value: &[char], f: &F) -> (r: Result<
    Vec<u64>,
    String,
>)
    requires
        reads_fractions(*f),
    ensures
        match fractions(*f, text::pieces(value@, ',')) {
            Ok(v) => r matches Ok(w) && w@ == v,
            Err(part) => r matches Err(m) && m@ == part,
        },
{
    let parts: Vec<Vec<char>> = text::split(value, ',');
    let ghost all = text::pieces(value@, ',');
    let mut out: Vec<u64> = Vec::new();
    let mut i: usize = 0;
    assert(all.take(0) =~= Seq::<Seq<char>>::empty());
    while i < parts.len()
        invariant
            reads_fractions(*f),
            i <= parts@.len() == all.len(),
            forall|k: int| 0 <= k < parts@.len() ==> (#[trigger] parts@[k])@ == all[k],
            fractions(*f, all.take(i as int)) == Ok::<Seq<u64>, Seq<char>>(out@),
            all == text::pieces(value@, ','),
        decreases parts@.len() - i,
    {
        let part: &[char] = parts[i].as_slice();
        let ghost longer = all.take(i + 1);
        assert(longer.drop_last() =~= all.take(i as int));
        assert(longer.last() == part@);
        let trimmed: String = text::from_chars(text::trim(part));
        let read: Option<u64> = f(trimmed.as_str());
        proof {
            assert(gives(*f, text::trimmed(part@), read));
            assert(gives(*f, text::trimmed(part@), fraction(*f, text::trimmed(part@))));
            assert(fraction(*f, text::trimmed(part@)) == read);
        }
        match read {
            Some(v) => {
                out.push(v);
            },
            None => {
                proof {
                    assert(fractions(*f, longer) == Err::<Seq<u64>, Seq<char>>(part@));
                    lemma_bad_fraction(*f, all, i + 1);
                }
                return Err(text::from_chars(part));
            },
        }
        i += 1;
    }
    assert(all.take(all.len() as int) =~= all);
    Ok(out)
}

/// A list fails with the first element that fails.
proof fn lemma_bad_fraction<F: Fn(&str) -> Option<u64>>(f: F, parts: Seq<Seq<char>>, n: int)
    requires
        0 <= n <= parts.len(),
        fractions(f, parts.take(n)) is Err,
    ensures
        fractions(f, parts) == fractions(f, parts.take(n)),
    decreases parts.len() - n,
{
    if n == parts.len() {
        assert(parts.take(n) =~= parts);
    } else {
        assert(parts.take(n + 1).drop_last() =~= parts.take(n));
        lemma_bad_fraction(f, parts, n + 1);
    }
}

/// The message for a value that the option does not take.
fn invalid_value(flag: Flag, value: &str) -> (r: String)
    ensures
        r@ == "invalid value for "@ + flag.word() + ": "@ + args::quoted(value@),
{
    let mut m: String = String::new();
    m.append("invalid value for ");
    m.append(flag.text());
    m.append(": ");
    m.append(args::quote(value).as_str());
    assert(m@ =~= "invalid value for "@ + flag.word() + ": "@ + args::quoted(value@));
    m
}

/// A message that ends in a quoted text.
fn invalid_element(message: &str, part: &str) -> (r: String)
    ensures
        r@ == message@ + args::quoted(part@),
{
    let mut m: String = String::new();
    m.append(message);
    m.append(args::quote(part).as_str());
    assert(m@ =~= message@ + args::quoted(part@));
    m
}

/// Gives an option its value.
fn assign<F: Fn(&str) -> Option<u64>>(cfg: &mut Config, flag: Flag, value: &str, f: &F) -> (r:
    Result<(), String>)
    requires
        reads_fractions(*f),
    ensures
        match assigned(*f, old(cfg)@, flag, value@) {
            Ok(after) => r is Ok && final(cfg)@ == after,
            Err(message) => r matches Err(m) && m@ == message,
        },
{
    let chars: Vec<char> = text::chars(value);
    match flag {
        Flag::N => match text::parse_number(chars.as_slice(), usize::MAX as u64) {
            Some(v) => {
                cfg.n = v as usize;
                Ok(())
            },
            None => Err(invalid_value(flag, value)),
        },
        Flag::Dim => match text::parse_number(chars.as_slice(), usize::MAX as u64) {
            Some(v) => {
                cfg.dim = v as usize;
                cfg.dim_given = true;
                Ok(())
            },
            None => Err(invalid_value(flag, value)),
        },
        Flag::Queries => match text::parse_number(chars.as_slice(), usize::MAX as u64) {
            Some(v) => {
                cfg.queries = v as usize;
                Ok(())
            },
            None => Err(invalid_value(flag, value)),
        },
        Flag::GmmClusters => match text::parse_number(chars.as_slice(), usize::MAX as u64) {
            Some(v) => {
                cfg.gmm_clusters = v as usize;
                Ok(())
            },
            None => Err(invalid_value(flag, value)),
        },
        Flag::Threads => match text::parse_number(chars.as_slice(), usize::MAX as u64) {
            Some(v) => {
                cfg.threads = v as usize;
                Ok(())
            },
            None => Err(invalid_value(flag, value)),
        },
        Flag::K => match read_integers(chars.as_slice()) {
            Ok(v) => {
                cfg.k = v;
                Ok(())
            },
            Err(part) => Err(invalid_element("invalid --k element ", part.as_str())),
        },
        Flag::Rerank => match read_integers(chars.as_slice()) {
            Ok(v) => {
                cfg.rerank = v;
                Ok(())
            },
            Err(part) => Err(invalid_element("invalid --rerank element ", part.as_str())),
        },
        Flag::Vectors => {
            cfg.vectors_path = Some(value.to_owned());
            Ok(())
        },
        Flag::QueriesFile => {
            cfg.queries_path = Some(value.to_owned());
            Ok(())
        },
        Flag::GtCache => {
            cfg.gt_cache = Some(value.to_owned());
            Ok(())
        },
        Flag::Csv => {
            cfg.csv = Some(value.to_owned());
            Ok(())
        },
        Flag::Seed => match text::parse_number(chars.as_slice(), u64::MAX) {
            Some(v) => {
                cfg.seed = v;
                Ok(())
            },
            None => Err(invalid_value(flag, value)),
        },
        Flag::Dist => if text::same(value, "gmm") {
            cfg.dist = Dist::Gmm;
            Ok(())
        } else if text::same(value, "uniform") {
            cfg.dist = Dist::Uniform;
            Ok(())
        } else {
            Err(invalid_element("--dist must be gmm or uniform, got ", value))
        },
        Flag::Filter => match read_fractions(chars.as_slice(), f) {
            Ok(v) => {
                cfg.filters = v;
                Ok(())
            },
            Err(part) => Err(invalid_element("invalid --filter element ", part.as_str())),
        },
        Flag::Normalize | Flag::Full | Flag::Help => Ok(()),
    }
}

/// What is wrong with the settings as a whole, if anything.
pub open spec fn settings_error(cfg: Settings) -> Option<Seq<char>> {
    if (cfg.vectors_path is Some) != (cfg.queries_path is Some) {
        Some("--vectors and --queries-file must be given together"@)
    } else if cfg.dim == 0 || cfg.n == 0 || cfg.queries == 0 {
        Some("--n, --dim and --queries must be > 0"@)
    } else if cfg.k.len() == 0 || cfg.k.contains(0) {
        Some("--k needs at least one depth > 0"@)
    } else if cfg.rerank.len() == 0 || cfg.rerank.contains(0) {
        Some("--rerank needs at least one factor > 0"@)
    } else if cfg.filters.len() == 0 || !selectivities(cfg.filters) {
        Some("--filter selectivities must be in (0.0, 1.0]"@)
    } else if cfg.threads == 0 {
        Some("--threads must be > 0"@)
    } else if cfg.dist == Dist::Gmm && cfg.gmm_clusters == 0 {
        Some("--gmm-clusters must be > 0"@)
    } else {
        None
    }
}

/// Every fraction is in (0, 1].
pub open spec fn selectivities(filters: Seq<u64>) -> bool {
    forall|i: int| 0 <= i < filters.len() ==> 0 < #[trigger] filters[i] <= ieee::ONE_64
}

/// Whether a list holds a zero.
fn has_zero(list: &Vec<usize>) -> (r: bool)
    ensures
        r == list@.contains(0),
{
    let mut i: usize = 0;
    while i < list.len()
        invariant
            i <= list@.len(),
            forall|j: int| 0 <= j < i ==> list@[j] != 0,
        decreases list@.len() - i,
    {
        if list[i] == 0 {
            assert(list@[i as int] == 0);
            return true;
        }
        i += 1;
    }
    false
}

/// Whether every fraction is in (0, 1].
fn all_selectivities(filters: &Vec<u64>) -> (r: bool)
    ensures
        r == selectivities(filters@),
{
    let mut i: usize = 0;
    while i < filters.len()
        invariant
            i <= filters@.len(),
            forall|j: int| 0 <= j < i ==> 0 < #[trigger] filters@[j] <= ieee::ONE_64,
        decreases filters@.len() - i,
    {
        let x: u64 = filters[i];
        if x == 0 || x > ieee::ONE_64 {
            assert(!(0 < filters@[i as int] <= ieee::ONE_64));
            return false;
        }
        i += 1;
    }
    true
}

/// Checks the settings as a whole.
pub fn validate(cfg: &Config) -> (r: Result<(), &'static str>)
    ensures
        match settings_error(cfg@) {
            Some(message) => r matches Err(m) && m@ == message,
            None => r is Ok,
        },
{
    if cfg.vectors_path.is_some() != cfg.queries_path.is_some() {
        return Err("--vectors and --queries-file must be given together");
    }
    if cfg.dim == 0 || cfg.n == 0 || cfg.queries == 0 {
        return Err("--n, --dim and --queries must be > 0");
    }
    if cfg.k.len() == 0 || has_zero(&cfg.k) {
        return Err("--k needs at least one depth > 0");
    }
    if cfg.rerank.len() == 0 || has_zero(&cfg.rerank) {
        return Err("--rerank needs at least one factor > 0");
    }
    if cfg.filters.len() == 0 || !all_selectivities(&cfg.filters) {
        return Err("--filter selectivities must be in (0.0, 1.0]");
    }
    if cfg.threads == 0 {
        return Err("--threads must be > 0");
    }
    if cfg.dist == Dist::Gmm && cfg.gmm_clusters == 0 {
        return Err("--gmm-clusters must be > 0");
    }
    Ok(())
}

/// What the command line comes to.
#[derive(Debug)]
pub enum Request {
    /// Run with this configuration.
    Run(Config),
    /// Show the help text.
    Help,
    /// Refuse, with this message.
    Fail(String),
}

/// The contents of a [`Request`].
pub enum Answer {
    Run(Settings),
    Help,
    Fail(Seq<char>),
}

impl View for Request {
    type V = Answer;

    open spec fn view(&self) -> Answer {
        match *self {
            Request::Run(cfg) => Answer::Run(cfg@),
            Request::Help => Answer::Help,
            Request::Fail(message) => Answer::Fail(message@),
        }
    }
}

/// A message with the help text below it.
pub open spec fn with_help(message: Seq<char>) -> Seq<char> {
    message + "\n\n"@ + HELP@
}

/// The command line's answer, from the settings read so far and the arguments
/// that are left: options are taken one by one, in their order.
pub open spec fn answer<F: Fn(&str) -> Option<u64>>(
    f: F,
    args: Seq<Seq<char>>,
    cfg: Settings,
) -> Answer
    decreases args.len(),
{
    match args::shape(args) {
        Shape::End => match settings_error(cfg) {
            Some(message) => Answer::Fail(message),
            None => Answer::Run(cfg),
        },
        Shape::Short(c) => if c == 'h' {
            Answer::Help
        } else {
            Answer::Fail(with_help(args::rejection(args::shape(args))))
        },
        Shape::Value(_) => Answer::Fail(with_help(args::rejection(args::shape(args)))),
        Shape::Long(name, attached) => match flag_named(name) {
            None => Answer::Fail(with_help(args::rejection(args::shape(args)))),
            Some(Flag::Help) => Answer::Help,
            Some(flag) => if flag.is_switch() {
                match attached {
                    Some(value) => Answer::Fail(
                        with_help(
                            "unexpected argument for option '--"@ + name + "': "@ + args::os_quoted(
                                value,
                            ),
                        ),
                    ),
                    None => answer(f, args.skip(1), switched(cfg, flag)),
                }
            } else {
                match args::option_value(args) {
                    None => Answer::Fail("missing argument for option '--"@ + name + "'"@),
                    Some(value) => match assigned(f, cfg, flag, value) {
                        Err(message) => Answer::Fail(message),
                        Ok(after) => answer(
                            f,
                            args.skip(
                                if attached is Some {
                                    1
                                } else {
                                    2
                                },
                            ),
                            after,
                        ),
                    },
                }
            },
        },
    }
}

/// The settings with a switch turned on.
pub open spec fn switched(cfg: Settings, flag: Flag) -> Settings {
    if flag == Flag::Normalize {
        Settings { normalize: true, ..cfg }
    } else {
        Settings { full: true, ..cfg }
    }
}

/// Appends the help text to a message.
fn add_help(message: String) -> (r: String)
    ensures
        r@ == with_help(message@),
{
    let mut m: String = message;
    m.append("\n\n");
    m.append(HELP);
    m
}

/// Reads the command line: `arguments` without the program's name, `threads`
/// the default number of workers, `f` the reading of a fraction.
pub fn parse<F: Fn(&str) -> Option<u64>>(arguments: &[String], threads: usize, f: &F) -> (r: Request)
    requires
        reads_fractions(*f),
    ensures
        r@ == answer(*f, args::texts(arguments@), defaults(threads)),
{
    let mut cfg: Config = Config::with_threads(threads);
    let ghost all = args::texts(arguments@);
    let n: usize = arguments.len();
    let mut i: usize = 0;
    assert(all.skip(0) =~= all);
    while i < n
        invariant
            reads_fractions(*f),
            i <= n == arguments@.len(),
            all == args::texts(arguments@),
            answer(*f, all, defaults(threads)) == answer(*f, all.skip(i as int), cfg@),
        decreases n - i,
    {
        let rest: &[String] = &arguments[i..n];
        let ghost left = all.skip(i as int);
        assert(args::texts(rest@) =~= left);
        match args::next_token(rest) {
            Token::Failed(_) => {
                assert(false);
            },
            Token::End => {
                assert(args::shape(left) is End);
                return finish(cfg);
            },
            Token::Short(c) => {
                if c == 'h' {
                    return Request::Help;
                }
                return Request::Fail(add_help(args::reject(rest)));
            },
            Token::Value => {
                return Request::Fail(add_help(args::reject(rest)));
            },
            Token::Long(name) => match find_flag(name.as_str()) {
                None => {
                    return Request::Fail(add_help(args::reject(rest)));
                },
                Some(flag) => {
                    if flag == Flag::Help {
                        return Request::Help;
                    }
                    if flag == Flag::Normalize || flag == Flag::Full {
                        match args::surplus_value(rest) {
                            Some(message) => {
                                return Request::Fail(add_help(message));
                            },
                            None => {},
                        }
                        if flag == Flag::Normalize {
                            cfg.normalize = true;
                        } else {
                            cfg.full = true;
                        }
                        assert(left.skip(1) =~= all.skip(i + 1));
                        i += 1;
                    } else {
                        let value: String = match args::value_of_option(rest) {
                            Ok(value) => value,
                            Err(message) => {
                                return Request::Fail(message);
                            },
                        };
                        match assign(&mut cfg, flag, value.as_str(), f) {
                            Err(message) => {
                                return Request::Fail(message);
                            },
                            Ok(()) => {},
                        }
                        let used: usize = if attached(rest[0].as_str()) {
                            1
                        } else {
                            2
                        };
                        assert(left.skip(used as int) =~= all.skip(i + used));
                        i += used;
                    }
                },
            },
        }
    }
    assert(args::shape(all.skip(i as int)) is End);
    finish(cfg)
}

/// Whether a long option has a value attached to it.
fn attached(arg: &str) -> (r: bool)
    ensures
        r == (text::find(arg@, '=', 2) < arg@.len()),
{
    let chars: Vec<char> = text::chars(arg);
    let n: usize = chars.len();
    let mut i: usize = 2;
    while i < n
        invariant
            2 <= i,
            n == chars@.len(),
            chars@ == arg@,
            i <= n || n < 2,
            text::find(arg@, '=', 2) == text::find(arg@, '=', i as int),
        decreases n - i,
    {
        if chars[i] == '=' {
            return true;
        }
        i += 1;
    }
    false
}

/// The answer when all options are read.
fn finish(cfg: Config) -> (r: Request)
    ensures
        r@ == (match settings_error(cfg@) {
            Some(message) => Answer::Fail(message),
            None => Answer::Run(cfg@),
        }),
{
    match validate(&cfg) {
        Err(message) => Request::Fail(message.to_owned()),
        Ok(()) => Request::Run(cfg),
    }
}

/// A run is only asked for with settings that are valid as a whole.
pub proof fn law_accepted_settings_are_valid<F: Fn(&str) -> Option<u64>>(
    f: F,
    args: Seq<Seq<char>>,
    cfg: Settings,
)
    ensures
        answer(f, args, cfg) matches Answer::Run(accepted) ==> settings_error(accepted) is None,
    decreases args.len(),
{
    match args::shape(args) {
        Shape::Long(name, attached) => match flag_named(name) {
            None => {},
            Some(flag) => if flag == Flag::Help {
            } else if flag.is_switch() {
                law_accepted_settings_are_valid(f, args.skip(1), switched(cfg, flag));
            } else if args::option_value(args) is Some {
                let value = args::option_value(args)->0;
                if assigned(f, cfg, flag, value) is Ok {
                    let after = assigned(f, cfg, flag, value)->Ok_0;
                    law_accepted_settings_are_valid(
                        f,
                        args.skip(
                            if attached is Some {
                                1
                            } else {
                                2
                            },
                        ),
                        after,
                    );
                }
            },
        },
        _ => {},
    }
}

} // verus!
