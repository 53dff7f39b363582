use std::time::Duration;
use vstd::prelude::*;
use vstd::string::StringExecFns;

use crate::duration::{duration_fits, duration_nanos, nanos_limit};
use crate::text::{decimal, push_decimal};

verus! {

/// What `humantime::parse_duration` makes of a text: the duration as whole
/// seconds and the nanoseconds beyond them, or the text of its error.
pub uninterp spec fn humantime_parse(text: Seq<char>) -> Result<(u64, u32), Seq<char>>;

/// Calls `humantime::parse_duration` and gives back the duration as
/// `(as_secs, subsec_nanos)`, or the error's `to_string`. The contract claims
/// that the outcome depends on the text alone (it is named by
/// `humantime_parse`) and, from std's documentation of `subsec_nanos`, that
/// the nanoseconds stay below one second.
///
/// `humantime` adds each span to a running `Duration` (`add_current`), with
/// checked arithmetic everywhere but in `Duration::new`, which panics when
/// the carried second lands on a total of `u64::MAX` seconds, that is when
/// the running total reaches `u64::MAX + 1` seconds. `duration_nanos` reads
/// the spans as `humantime` does, stops only where `humantime` returns an
/// error, and adds every span in full, so no running total exceeds it; texts
/// whose sum stays below `u64::MAX + 1` seconds never panic, and only those
/// are admitted. Every text that `humantime` accepts is among them: its
/// result is that sum.
#[verifier::external_body]
fn humantime_parse_duration(text: &str) -> (r: Result<(u64, u32), String>)
    requires
        duration_nanos(text@) < nanos_limit(),
    ensures
        match r {
            Ok(p) => humantime_parse(text@) == Ok::<(u64, u32), Seq<char>>(p) && p.1 < 1_000_000_000,
            Err(e) => humantime_parse(text@) == Err::<(u64, u32), Seq<char>>(e@),
        },
{
    humantime::parse_duration(text).map(|d| (d.as_secs(), d.subsec_nanos())).map_err(|e| e.to_string())
}

/// The message of `humantime`'s error for a number too large to represent.
pub open spec fn overflow_message() -> Seq<char> {
    "number is too large or cannot be represented without a lack of precision (values below 1ns are not supported)"@
}

/// Parse a human-readable duration string (e.g. "2h", "30m", "1d", "90s")
/// into whole seconds and the nanoseconds beyond them. Used for
/// `--newer-than` and `--older-than`. A text whose spans add up to
/// `u64::MAX + 1` seconds or more is refused with the message of a number
/// too large to represent.
pub fn parse_duration(text: &str) -> (r: Result<(u64, u32), String>)
    ensures
        duration_nanos(text@) >= nanos_limit() ==> (r matches Err(e) && e@ == overflow_message()),
        duration_nanos(text@) < nanos_limit() ==> match r {
            Ok(p) => humantime_parse(text@) == Ok::<(u64, u32), Seq<char>>(p) && p.1 < 1_000_000_000,
            Err(e) => humantime_parse(text@) == Err::<(u64, u32), Seq<char>>(e@),
        },
{
    if !duration_fits(text) {
        return Err(
            String::from_str(
                "number is too large or cannot be represented without a lack of precision (values below 1ns are not supported)",
            ),
        );
    }
    humantime_parse_duration(text)
}

/// CLI arguments as the command line gives them.
pub struct Cli {
    /// File paths or glob patterns to follow. If omitted, reads from stdin.
    pub patterns: Vec<String>,
    /// Follow mode: watch files and print new lines as they appear
    pub follow: bool,
    /// Number of lines to print from each file
    pub lines: usize,
    /// Working directory for resolving relative paths and patterns
    pub directory: Option<String>,
    /// Only tail files modified more recently than this (e.g. 2h, 30m, 1d)
    pub newer_than: Option<Duration>,
    /// Skip files older than this duration (e.g. 2h, 30m, 1d)
    pub older_than: Option<Duration>,
    /// Do not cross filesystem boundaries (skip cross-device symlinks)
    pub one_file_system: bool,
    /// Disable truncation detection (truncated files treated as EOF)
    pub no_truncation_reset: bool,
    /// Always prefix output lines with the source filename
    pub filename: bool,
    /// Never prefix output lines with the source filename
    pub no_filename: bool,
    /// File discovery scan interval in seconds
    pub scan_interval: u64,
    /// Grace period in seconds before closing a reader for a deleted inode
    pub deleted_grace: u64,
}

/// Validated configuration derived from CLI arguments.
#[derive(Debug, Clone)]
pub struct Config {
    /// File paths or glob patterns to follow. Empty means stdin fallback.
    pub patterns: Vec<String>,
    /// Whether to run in follow mode.
    pub follow: bool,
    /// Number of lines to print per file.
    pub lines: usize,
    /// Working directory for relative path resolution.
    pub directory: Option<String>,
    /// Only include files modified more recently than this.
    pub newer_than: Option<Duration>,
    /// Skip files modified longer ago than this.
    pub older_than: Option<Duration>,
    /// Stay within a single filesystem.
    pub one_file_system: bool,
    /// Disable truncation detection.
    pub no_truncation_reset: bool,
    /// Force filename prefixes in output.
    pub show_filename: bool,
    /// Suppress filename prefixes in output.
    pub no_filename: bool,
    /// File discovery scan interval in seconds.
    pub scan_interval: u64,
    /// Grace period in seconds before closing a reader for a deleted inode.
    pub deleted_grace: u64,
}

/// The first problem with the command line's numbers, as the message that
/// reports it: too many lines, then a zero scan interval, then a zero grace
/// period.
pub open spec fn cli_problem(lines: nat, scan_interval: nat, deleted_grace: nat) -> Option<Seq<char>> {
    if lines > Config::MAX_LINES {
        Some(
            "--lines must not exceed "@ + decimal(Config::MAX_LINES as nat) + " (got "@ + decimal(lines)
                + ")"@,
        )
    } else if scan_interval == 0 {
        Some("--scan-interval must be greater than 0"@)
    } else if deleted_grace == 0 {
        Some("--deleted-grace must be greater than 0"@)
    } else {
        None
    }
}

/// The command line's numbers are refused exactly when `--lines` exceeds
/// `MAX_LINES`, the scan interval is zero or the grace period is zero; any
/// positive scan interval and grace period are accepted together, whatever
/// their sizes relative to each other.
pub proof fn lemma_cli_problems(lines: nat, scan_interval: nat, deleted_grace: nat)
    ensures
        cli_problem(lines, scan_interval, deleted_grace) is None <==> (lines <= 1_000_000 && scan_interval > 0
            && deleted_grace > 0),
        lines > 1_000_000 ==> cli_problem(lines, scan_interval, deleted_grace) is Some,
        lines <= 1_000_000 && scan_interval == 0 ==> cli_problem(lines, scan_interval, deleted_grace)
            == Some("--scan-interval must be greater than 0"@),
        lines <= 1_000_000 && scan_interval > 0 && deleted_grace == 0 ==> cli_problem(
            lines,
            scan_interval,
            deleted_grace,
        ) == Some("--deleted-grace must be greater than 0"@),
{
}

impl Config {
    /// Maximum allowed value for `--lines` to prevent accidental OOM from
    /// unbounded buffer allocation when reading huge files.
    pub const MAX_LINES: usize = 1_000_000;

    /// Validate and convert CLI arguments into a `Config`.
    ///
    /// # Errors
    ///
    /// Returns an error string if any values are invalid:
    /// - `lines` must be in [0, MAX_LINES].
    /// - `scan_interval` must be greater than 0.
    /// - `deleted_grace` must be greater than 0.
    pub fn from_cli(cli: Cli) -> (r: Result<Self, String>)
        ensures
            match r {
                Ok(c) => {
                    &&& cli_problem(cli.lines as nat, cli.scan_interval as nat, cli.deleted_grace as nat) is None
                    &&& c.patterns == cli.patterns
                    &&& c.follow == cli.follow
                    &&& c.lines == cli.lines
                    &&& c.directory == cli.directory
                    &&& c.newer_than == cli.newer_than
                    &&& c.older_than == cli.older_than
                    &&& c.one_file_system == cli.one_file_system
                    &&& c.no_truncation_reset == cli.no_truncation_reset
                    &&& c.show_filename == cli.filename
                    &&& c.no_filename == cli.no_filename
                    &&& c.scan_interval == cli.scan_interval
                    &&& c.deleted_grace == cli.deleted_grace
                },
                Err(e) => cli_problem(cli.lines as nat, cli.scan_interval as nat, cli.deleted_grace as nat)
                    == Some(e@),
            },
            r is Ok <==> (cli.lines <= Self::MAX_LINES && cli.scan_interval > 0 && cli.deleted_grace > 0),
    {
        if cli.lines > Self::MAX_LINES {
            let mut msg = String::from_str("--lines must not exceed ");
            push_decimal(&mut msg, Self::MAX_LINES);
            msg.append(" (got ");
            push_decimal(&mut msg, cli.lines);
            msg.append(")");
            return Err(msg);
        }
        if cli.scan_interval == 0 {
            return Err(String::from_str("--scan-interval must be greater than 0"));
        }
        if cli.deleted_grace == 0 {
            return Err(String::from_str("--deleted-grace must be greater than 0"));
        }
        Ok(Config {
            patterns: cli.patterns,
            follow: cli.follow,
            lines: cli.lines,
            directory: cli.directory,
            newer_than: cli.newer_than,
            older_than: cli.older_than,
            one_file_system: cli.one_file_system,
            no_truncation_reset: cli.no_truncation_reset,
            show_filename: cli.filename,
            no_filename: cli.no_filename,
            scan_interval: cli.scan_interval,
            deleted_grace: cli.deleted_grace,
        })
    }
}

} // verus!
