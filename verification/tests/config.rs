use folor::config::{parse_duration, Cli, Config};
use folor::duration::duration_fits;

fn make_cli() -> Cli {
    Cli {
        patterns: vec![],
        follow: false,
        lines: 50,
        directory: None,
        newer_than: None,
        older_than: None,
        one_file_system: false,
        no_truncation_reset: false,
        filename: false,
        no_filename: false,
        scan_interval: 2,
        deleted_grace: 5,
    }
}

#[test]
fn valid_defaults() {
    let cli = make_cli();
    let cfg = Config::from_cli(cli).expect("defaults should be valid");
    assert_eq!(cfg.lines, 50);
    assert_eq!(cfg.scan_interval, 2);
    assert_eq!(cfg.deleted_grace, 5);
}

#[test]
fn lines_zero_accepted() {
    let mut cli = make_cli();
    cli.lines = 0;
    let cfg = Config::from_cli(cli).expect("lines=0 should be valid");
    assert_eq!(cfg.lines, 0);
}

#[test]
fn lines_above_max_rejected() {
    let mut cli = make_cli();
    cli.lines = Config::MAX_LINES + 1;
    assert!(Config::from_cli(cli).is_err());
}

#[test]
fn lines_at_max_accepted() {
    let mut cli = make_cli();
    cli.lines = Config::MAX_LINES;
    assert!(Config::from_cli(cli).is_ok());
}

#[test]
fn scan_interval_zero_rejected() {
    let mut cli = make_cli();
    cli.scan_interval = 0;
    assert!(Config::from_cli(cli).is_err());
}

#[test]
fn deleted_grace_zero_rejected() {
    let mut cli = make_cli();
    cli.deleted_grace = 0;
    assert!(Config::from_cli(cli).is_err());
}

#[test]
fn parse_duration_valid() {
    assert!(parse_duration("30s").is_ok());
    assert!(parse_duration("5m").is_ok());
    assert!(parse_duration("2h").is_ok());
    assert!(parse_duration("1d").is_ok());
}

#[test]
fn parse_duration_invalid() {
    assert!(parse_duration("xyz").is_err());
    assert!(parse_duration("").is_err());
}

#[test]
fn directory_is_some() {
    let mut cli = make_cli();
    cli.directory = Some("/tmp".into());
    let cfg = Config::from_cli(cli).unwrap();
    assert_eq!(cfg.directory, Some("/tmp".into()));
}

#[test]
fn older_than_is_some() {
    let mut cli = make_cli();
    cli.older_than = Some(std::time::Duration::from_secs(3600));
    let cfg = Config::from_cli(cli).unwrap();
    assert_eq!(cfg.older_than, Some(std::time::Duration::from_secs(3600)));
}

#[test]
fn newer_than_is_some() {
    let mut cli = make_cli();
    cli.newer_than = Some(std::time::Duration::from_secs(3600));
    let cfg = Config::from_cli(cli).unwrap();
    assert_eq!(cfg.newer_than, Some(std::time::Duration::from_secs(3600)));
}

#[test]
fn lines_above_max_message() {
    let mut cli = make_cli();
    cli.lines = 1_234_567;
    let err = Config::from_cli(cli).err().unwrap();
    assert_eq!(err, "--lines must not exceed 1000000 (got 1234567)");
}

#[test]
fn scan_interval_zero_message() {
    let mut cli = make_cli();
    cli.scan_interval = 0;
    cli.deleted_grace = 0;
    let err = Config::from_cli(cli).err().unwrap();
    assert_eq!(err, "--scan-interval must be greater than 0");
}

#[test]
fn deleted_grace_zero_message() {
    let mut cli = make_cli();
    cli.deleted_grace = 0;
    let err = Config::from_cli(cli).err().unwrap();
    assert_eq!(err, "--deleted-grace must be greater than 0");
}

#[test]
fn lines_checked_before_intervals() {
    let mut cli = make_cli();
    cli.lines = usize::MAX;
    cli.scan_interval = 0;
    let err = Config::from_cli(cli).err().unwrap();
    assert!(err.starts_with("--lines must not exceed 1000000 (got "));
}

#[test]
fn fields_carried_over() {
    let mut cli = make_cli();
    cli.patterns = vec!["*.log".to_string(), "**/*.jsonl".to_string()];
    cli.follow = true;
    cli.one_file_system = true;
    cli.no_truncation_reset = true;
    cli.filename = true;
    let cfg = Config::from_cli(cli).unwrap();
    assert_eq!(cfg.patterns, vec!["*.log".to_string(), "**/*.jsonl".to_string()]);
    assert!(cfg.follow);
    assert!(cfg.one_file_system);
    assert!(cfg.no_truncation_reset);
    assert!(cfg.show_filename);
    assert!(!cfg.no_filename);
}

#[test]
fn parse_duration_values() {
    assert_eq!(parse_duration("2h"), Ok((7200, 0)));
    assert_eq!(parse_duration("30m"), Ok((1800, 0)));
    assert_eq!(parse_duration("90s"), Ok((90, 0)));
    assert_eq!(parse_duration("1d"), Ok((86400, 0)));
    assert_eq!(parse_duration("250ms"), Ok((0, 250_000_000)));
    assert_eq!(parse_duration("0"), Ok((0, 0)));
}

const OVERFLOW: &str =
    "number is too large or cannot be represented without a lack of precision (values below 1ns are not supported)";

#[test]
fn parse_duration_refuses_overflowing_totals() {
    // one second of nanoseconds carried onto u64::MAX seconds
    assert_eq!(
        parse_duration("18446744073709551615s 1000000000ns"),
        Err(OVERFLOW.to_string())
    );
    assert_eq!(parse_duration("18446744073709551615s 1s"), Err(OVERFLOW.to_string()));
    assert_eq!(parse_duration("999999999999y"), Err(OVERFLOW.to_string()));
    assert_eq!(parse_duration("99999999999999999999s"), Err(OVERFLOW.to_string()));
}

#[test]
fn parse_duration_accepts_totals_up_to_u64_max() {
    assert_eq!(parse_duration("18446744073709551615s"), Ok((u64::MAX, 0)));
    assert_eq!(
        parse_duration("18446744073709551615s 999999999ns"),
        Ok((u64::MAX, 999_999_999))
    );
    assert_eq!(parse_duration("10000000000000000000s"), Ok((10_000_000_000_000_000_000, 0)));
    assert_eq!(parse_duration("3000000000000000h"), Ok((10_800_000_000_000_000_000, 0)));
    assert_eq!(parse_duration("584542046090y"), Ok((18_446_744_073_689_784_000, 0)));
    // large counts of small units are still parsed
    assert_eq!(parse_duration("100000000000ns"), Ok((100, 0)));
}

#[test]
fn parse_duration_spans_and_fractions() {
    assert_eq!(parse_duration("1h 30min"), Ok((5400, 0)));
    assert_eq!(parse_duration("2h 37min"), Ok((9420, 0)));
    assert_eq!(parse_duration(" 2 h 37min "), Ok((9420, 0)));
    assert_eq!(parse_duration("5\u{2003}s"), Ok((5, 0)));
    assert_eq!(parse_duration("1.5h"), Ok((5400, 0)));
    assert_eq!(parse_duration("4.2s"), Ok((4, 200_000_000)));
    assert_eq!(parse_duration("32ms"), Ok((0, 32_000_000)));
    assert_eq!(parse_duration("3\u{b5}s"), Ok((0, 3_000)));
    assert_eq!(parse_duration("1M"), Ok((2_630_016, 0)));
}

#[test]
fn parse_duration_keeps_other_errors() {
    assert_eq!(
        parse_duration("5"),
        Err("time unit needed, for example 5sec or 5ms".to_string())
    );
    assert_eq!(parse_duration("5s x"), Err("expected number at 3".to_string()));
    assert_eq!(parse_duration("1.s"), Err("invalid character at 1".to_string()));
}

#[test]
fn duration_fits_sums_spans_until_the_text_stops() {
    assert!(duration_fits("18446744073709551615s"));
    assert!(duration_fits("18446744073709551614s 999999999ns 1ns"));
    assert!(duration_fits("18446744073709551614s 999999999ns 2ns"));
    assert!(!duration_fits("18446744073709551614s 999999999ns 1000000001ns"));
    assert!(!duration_fits("18446744073709551615s 1000000000ns"));
    assert!(!duration_fits("0.5y 18446744073709551615s"));
    // after a character with no place in the text nothing more is added
    assert!(duration_fits("x 18446744073709551615s 1s"));
    assert!(duration_fits("1\u{e9} 18446744073709551615s 1s"));
    assert!(duration_fits("5parsecs 18446744073709551615s 1s"));
    // Unicode whitespace separates spans like a space
    assert!(!duration_fits("18446744073709551615s\u{3000}1s"));
}
