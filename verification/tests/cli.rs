use guksu::recall::cli::{find_flag, parse, validate, Config, Dist, Request, HELP};
use guksu::recall::npy::load_matrix;
use guksu::text::{chars, decimal_text, from_chars, parse_number, same, split, trim};

fn fraction(s: &str) -> Option<u64> {
    s.parse::<f64>().ok().map(f64::to_bits)
}

fn request(arguments: &[&str]) -> Request {
    let arguments: Vec<String> = arguments.iter().map(|s| s.to_string()).collect();
    parse(&arguments, 4, &fraction)
}

fn config(arguments: &[&str]) -> Config {
    match request(arguments) {
        Request::Run(cfg) => cfg,
        other => panic!("{other:?}"),
    }
}

fn failure(arguments: &[&str]) -> String {
    match request(arguments) {
        Request::Fail(message) => message,
        other => panic!("{other:?}"),
    }
}

#[test]
fn defaults_without_arguments() {
    let cfg = config(&[]);
    assert_eq!((cfg.n, cfg.dim, cfg.queries), (100_000, 1024, 1000));
    assert_eq!(cfg.dist, Dist::Gmm);
    assert_eq!((cfg.gmm_clusters, cfg.seed, cfg.threads), (1024, 42, 4));
    assert_eq!(cfg.k, [10, 100]);
    assert_eq!(cfg.rerank, [2, 4, 8]);
    assert_eq!(cfg.filters, [1.0f64.to_bits()]);
    assert!(!cfg.full && !cfg.normalize);
    assert!(cfg.vectors_path.is_none() && cfg.queries_path.is_none());
    assert!(cfg.gt_cache.is_none() && cfg.csv.is_none());
}

#[test]
fn raw_files_need_a_dimension_that_was_given() {
    let without = config(&["--vectors", "v.bin", "--queries-file", "q.bin"]);
    assert_eq!((without.dim_given, without.raw_dim()), (false, None));
    assert_eq!(
        load_matrix("v.bin", &[0; 8], without.raw_dim()),
        Err("v.bin is not .npy; raw f32 files need --dim".to_string())
    );
    // The default value counts where it is written out.
    let with = config(&["--vectors", "v.bin", "--queries-file", "q.bin", "--dim", "1024"]);
    assert_eq!((with.dim_given, with.raw_dim()), (true, Some(1024)));
    let two = config(&["--dim=2"]);
    assert_eq!(load_matrix("v.bin", &[0; 8], two.raw_dim()), Ok((vec![0, 0], 2)));
}

#[test]
fn flags_that_take_a_value() {
    assert!(find_flag("k").unwrap().takes_value());
    assert_eq!(find_flag("queries-file").unwrap().text(), "--queries-file");
    assert!(!find_flag("normalize").unwrap().takes_value());
    assert!(!find_flag("full").unwrap().takes_value());
    assert!(find_flag("bogus").is_none());
}

#[test]
fn every_flag_is_read() {
    let cfg = config(&[
        "--n", "12", "--dim=34", "--queries", "56", "--dist", "uniform", "--gmm-clusters", "7", "--seed=9",
        "--vectors", "v.npy", "--queries-file=q.npy", "--normalize", "--k", "1, 2,3", "--rerank", "5",
        "--filter", "0.5,1.0", "--full", "--gt-cache", "gt", "--threads", "3", "--csv", "out.csv",
    ]);
    assert_eq!((cfg.n, cfg.dim, cfg.queries), (12, 34, 56));
    assert_eq!(cfg.dist, Dist::Uniform);
    assert_eq!((cfg.gmm_clusters, cfg.seed, cfg.threads), (7, 9, 3));
    assert_eq!(cfg.vectors_path.as_deref(), Some("v.npy"));
    assert_eq!(cfg.queries_path.as_deref(), Some("q.npy"));
    assert_eq!(cfg.k, [1, 2, 3]);
    assert_eq!(cfg.rerank, [5]);
    assert_eq!(cfg.filters, [0.5f64.to_bits(), 1.0f64.to_bits()]);
    assert!(cfg.full && cfg.normalize);
    assert_eq!(cfg.gt_cache.as_deref(), Some("gt"));
    assert_eq!(cfg.csv.as_deref(), Some("out.csv"));
}

#[test]
fn later_values_win() {
    assert_eq!(config(&["--n", "1", "--n", "2"]).n, 2);
}

#[test]
fn values_may_start_with_a_dash() {
    // The value of an option is the next argument, whatever it looks like.
    assert_eq!(failure(&["--n", "--dim"]), "invalid value for --n: \"--dim\"");
}

#[test]
fn help_comes_before_what_follows() {
    assert!(matches!(request(&["--help"]), Request::Help));
    assert!(matches!(request(&["-h"]), Request::Help));
    assert!(matches!(request(&["--n", "0", "-h", "--bogus"]), Request::Help));
    assert!(HELP.starts_with("recall — quantization-loss benchmark"));
    assert!(HELP.ends_with("  -h, --help            this text\n"));
}

#[test]
fn malformed_values_are_refused() {
    assert_eq!(failure(&["--n", "x\"y"]), "invalid value for --n: \"x\\\"y\"");
    assert_eq!(failure(&["--seed", "-1"]), "invalid value for --seed: \"-1\"");
    assert_eq!(failure(&["--k", "1,a b,3"]), "invalid --k element \"a b\"");
    assert_eq!(failure(&["--filter", "0.5, q"]), "invalid --filter element \" q\"");
    assert_eq!(failure(&["--dist", "cauchy"]), "--dist must be gmm or uniform, got \"cauchy\"");
    assert_eq!(config(&["--n", "+5"]).n, 5);
}

#[test]
fn the_parser_reports_misuse() {
    assert_eq!(failure(&["--dim"]), "missing argument for option '--dim'");
    assert_eq!(failure(&["--bogus"]), format!("invalid option '--bogus'\n\n{HELP}"));
    assert_eq!(failure(&["-x"]), format!("invalid option '-x'\n\n{HELP}"));
    assert_eq!(failure(&["stray"]), format!("unexpected argument \"stray\"\n\n{HELP}"));
    assert_eq!(failure(&["--", "--n"]), format!("unexpected argument \"--n\"\n\n{HELP}"));
    assert_eq!(
        failure(&["--full=yes"]),
        format!("unexpected argument for option '--full': \"yes\"\n\n{HELP}")
    );
    assert!(matches!(request(&["--full", "--"]), Request::Run(_)));
}

#[test]
fn settings_are_validated() {
    assert_eq!(
        failure(&["--vectors", "v"]),
        "--vectors and --queries-file must be given together"
    );
    assert_eq!(failure(&["--n", "0"]), "--n, --dim and --queries must be > 0");
    assert_eq!(failure(&["--k", "0"]), "--k needs at least one depth > 0");
    assert_eq!(failure(&["--rerank", "2,0"]), "--rerank needs at least one factor > 0");
    for s in ["0", "1.5", "-0.1", "NaN", "0.5,0.0"] {
        assert_eq!(
            failure(&["--filter", s]),
            "--filter selectivities must be in (0.0, 1.0]",
            "{s}"
        );
    }
    assert_eq!(failure(&["--threads", "0"]), "--threads must be > 0");
    assert_eq!(failure(&["--gmm-clusters", "0"]), "--gmm-clusters must be > 0");
    assert_eq!(config(&["--gmm-clusters", "0", "--dist", "uniform"]).gmm_clusters, 0);
}

#[test]
fn empty_lists_are_invalid() {
    let mut cfg = Config::with_threads(1);
    assert!(validate(&cfg).is_ok());
    cfg.k = vec![];
    assert_eq!(validate(&cfg), Err("--k needs at least one depth > 0"));
    cfg.k = vec![1];
    cfg.filters = vec![];
    assert_eq!(validate(&cfg), Err("--filter selectivities must be in (0.0, 1.0]"));
    // An empty text is one element that is no number.
    assert_eq!(failure(&["--k", ""]), "invalid --k element \"\"");
}

#[test]
fn text_pieces() {
    for n in [0u128, 7, 10, 99, 100, 18446744073709551616, u128::MAX] {
        assert_eq!(decimal_text(n), format!("{n}"));
    }
    let text = chars(" a,é, ");
    assert_eq!(from_chars(trim(&text)), "a,é,");
    let parts: Vec<String> = split(&text, ',').iter().map(|p| from_chars(p)).collect();
    assert_eq!(parts, [" a", "é", " "]);
    assert!(same("é", "é") && !same("e", "é"));
    for s in ["0", "+17", "017", "18446744073709551615", "18446744073709551616", "", "+", "-0", "1 ", "1_0"]
    {
        assert_eq!(parse_number(&chars(s), u64::MAX), s.parse::<u64>().ok(), "{s:?}");
    }
    assert_eq!(parse_number(&chars("256"), 255), None);
}
