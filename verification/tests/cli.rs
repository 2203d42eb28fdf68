//! The command line: argument parsing, output and exit codes.
use slipcheck::cli::{parse_scan_args, parse_size, FailOn};
use slipcheck::findings::Check;
use slipcheck::scan;

#[test]
fn parse_size_accepts_binary_suffixes() {
    assert_eq!(parse_size("4096"), Some(4096));
    assert_eq!(parse_size("64K"), Some(64 << 10));
    assert_eq!(parse_size("512M"), Some(512 << 20));
    assert_eq!(parse_size("2g"), Some(2 << 30));
    assert_eq!(parse_size(""), None);
    assert_eq!(parse_size("12X"), None);
    assert_eq!(parse_size("M"), None);
}

#[test]
fn scan_args_defaults_and_flags() {
    let args: Vec<String> = [
        "a.tar",
        "--json",
        "--fail-on",
        "warning",
        "--allow",
        "setuid",
    ]
    .iter()
    .map(|s| s.to_string())
    .collect();
    let parsed = parse_scan_args(&args).unwrap();
    assert_eq!(parsed.paths, vec!["a.tar"]);
    assert!(parsed.json);
    assert_eq!(parsed.fail_on, FailOn::Warning);
    assert_eq!(parsed.opts.allow, vec![Check::Setuid]);
    assert_eq!(parsed.opts.max_unpacked, scan::DEFAULT_MAX_UNPACKED);
}

#[test]
fn scan_args_reject_unknown_values() {
    let bad = |args: &[&str]| {
        let owned: Vec<String> = args.iter().map(|s| s.to_string()).collect();
        parse_scan_args(&owned).unwrap_err()
    };
    assert!(bad(&["a.tar", "--fail-on", "sometimes"]).contains("--fail-on"));
    assert!(bad(&["a.tar", "--allow", "nope"]).contains("unknown check"));
    assert!(bad(&["a.tar", "--format", "rar"]).contains("unknown format"));
    assert!(bad(&["a.tar", "--frobnicate"]).contains("unknown option"));
    assert!(bad(&[]).contains("at least one archive"));
}

#[test]
fn sizes_may_overflow_and_may_carry_a_plus() {
    assert_eq!(parse_size("+8k"), Some(8192));
    assert_eq!(parse_size("0G"), Some(0));
    assert_eq!(parse_size("18446744073709551616"), None);
    assert_eq!(parse_size("18446744073709551615G"), None);
    assert_eq!(parse_size("-1"), None);
    assert_eq!(parse_size("+"), None);
    assert_eq!(parse_size("1.5M"), None);
    assert_eq!(parse_size("5\u{e9}"), None);
}

#[test]
fn every_option_is_read() {
    let args: Vec<String> = [
        "--quiet",
        "--format",
        "tgz",
        "x",
        "--max-unpacked",
        "2K",
        "--fail-on",
        "never",
        "--allow",
        "traversal",
        "--allow",
        "setgid",
        "-",
        "-x",
    ]
    .iter()
    .map(|s| s.to_string())
    .collect();
    let parsed = parse_scan_args(&args).unwrap();
    assert_eq!(parsed.paths, vec!["x", "-", "-x"]);
    assert!(parsed.quiet);
    assert!(!parsed.json);
    assert_eq!(parsed.fail_on, FailOn::Never);
    assert_eq!(parsed.opts.format, Some(slipcheck::format::Format::TarGz));
    assert_eq!(parsed.opts.max_unpacked, 2048);
    assert_eq!(parsed.opts.allow, vec![Check::Traversal, Check::Setgid]);
}

#[test]
fn argument_errors_are_exact() {
    let bad = |args: &[&str]| {
        let owned: Vec<String> = args.iter().map(|s| s.to_string()).collect();
        parse_scan_args(&owned).unwrap_err()
    };
    assert_eq!(bad(&["--fail-on"]), "--fail-on needs a value");
    assert_eq!(bad(&["--allow"]), "--allow needs a check id");
    assert_eq!(bad(&["--format"]), "--format needs a value");
    assert_eq!(bad(&["--max-unpacked"]), "--max-unpacked needs a size");
    assert_eq!(
        bad(&["--fail-on", "Critical"]),
        "unknown --fail-on level 'Critical'"
    );
    assert_eq!(
        bad(&["--allow", "x"]),
        "unknown check 'x' (see 'slipcheck checks')"
    );
    assert_eq!(
        bad(&["--format", "x"]),
        "unknown format 'x' (tar, tar.gz, zip)"
    );
    assert_eq!(
        bad(&["--max-unpacked", "x"]),
        "invalid size 'x' (try 512M or 2G)"
    );
    assert_eq!(bad(&["--"]), "unknown option '--'");
    assert_eq!(
        bad(&["--json"]),
        "scan needs at least one archive path (or '-')"
    );
}
