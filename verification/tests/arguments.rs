use resource_scrambler::cli::{parse_args, prepare, ArgumentError, Command, Options, Preparation};

fn parse(args: &[&str]) -> Command {
    parse_args(&args.iter().map(|s| s.to_string()).collect())
}

fn options(args: &[&str]) -> Options {
    match parse(args) {
        Command::Run(options) => options,
        other => panic!("{:?}", other),
    }
}

fn error(args: &[&str]) -> ArgumentError {
    match parse(args) {
        Command::Fail(error) => error,
        other => panic!("{:?}", other),
    }
}

#[test]
fn only_a_directory() {
    let o = options(&["res"]);
    assert_eq!(o.src, "res");
    assert_eq!(o.dst, "./scrambled_resources");
    assert_eq!(o.loader, None);
    assert!(!o.timings && !o.quiet && !o.no_clone);
}

#[test]
fn all_options() {
    let o = options(&["--dst", "out", "--timings", "res", "-q", "--no-clone", "--loader", "l.lua"]);
    assert_eq!(o.src, "res");
    assert_eq!(o.dst, "out");
    assert_eq!(o.loader, Some("l.lua".to_string()));
    assert!(o.timings && o.quiet && o.no_clone);
    assert!(options(&["--quiet", "res"]).quiet);
}

#[test]
fn the_last_value_counts() {
    assert_eq!(options(&["--dst", "a", "res", "--dst", "--quiet"]).dst, "--quiet");
}

#[test]
fn missing_values() {
    let e = error(&["res", "--dst"]);
    assert_eq!(e.message(), "error: --dst requires a value");
    assert!(!e.shows_usage());
    assert_eq!(error(&["--loader"]).message(), "error: --loader requires a value");
}

#[test]
fn unknown_arguments() {
    let e = error(&["--dts", "res"]);
    assert!(matches!(e, ArgumentError::Unknown(_)));
    assert_eq!(e.message(), "unknown argument: --dts");
    assert!(e.shows_usage());
    assert_eq!(error(&["-"]).message(), "unknown argument: -");
}

#[test]
fn extra_directories() {
    let e = error(&["a", "b", "--help"]);
    assert!(matches!(e, ArgumentError::Extra(_)));
    assert_eq!(e.message(), "error: extra positional argument: b");
    assert!(e.shows_usage());
}

#[test]
fn missing_directory() {
    let e = error(&["--quiet"]);
    assert!(matches!(e, ArgumentError::MissingDirectory));
    assert_eq!(e.message(), "error: missing <resources-dir>\n");
    assert!(e.shows_usage());
    assert!(matches!(error(&[]), ArgumentError::MissingDirectory));
}

#[test]
fn help_comes_first() {
    assert!(matches!(parse(&["-h", "--bad"]), Command::Help));
    assert!(matches!(parse(&["a", "--help"]), Command::Help));
    assert!(matches!(parse(&["--bad", "-h"]), Command::Fail(_)));
}

#[test]
fn an_empty_argument_is_a_directory() {
    assert_eq!(options(&[""]).src, "");
}

#[test]
fn preparations() {
    assert_eq!(prepare(false, true, true), Preparation::SourceMissing);
    assert_eq!(prepare(true, false, true), Preparation::CopyMissing);
    assert_eq!(prepare(true, true, true), Preparation::Reuse);
    assert_eq!(prepare(true, true, false), Preparation::Replace);
    assert_eq!(prepare(true, false, false), Preparation::Copy);
}
