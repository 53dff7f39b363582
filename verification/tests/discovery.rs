use folor::discovery::{
    build_globset, classify_entry, entry_verdict, invalid_pattern_message, set_failure_message,
    EntryVerdict,
};

fn patterns(p: &[&str]) -> Vec<String> {
    p.iter().map(|s| s.to_string()).collect()
}

#[test]
fn invalid_glob_is_reported() {
    let err = build_globset(&patterns(&["*.log", "["])).err().unwrap();
    assert!(err.starts_with("invalid glob pattern '[': "));
}

#[test]
fn first_invalid_glob_is_reported() {
    let err = build_globset(&patterns(&["a{b", "["])).err().unwrap();
    assert!(err.starts_with("invalid glob pattern 'a{b': "));
}

#[test]
fn star_matches_extension() {
    let m = build_globset(&patterns(&["*.log"])).unwrap();
    assert!(m.is_match("app.log"));
    assert!(m.is_match("error.log"));
    assert!(!m.is_match("readme.txt"));
}

#[test]
fn star_crosses_separators() {
    // patterns are compiled without literal separators
    let m = build_globset(&patterns(&["*.log"])).unwrap();
    assert!(m.is_match("subdir/nested.log"));
}

#[test]
fn recursive_glob_matches() {
    let m = build_globset(&patterns(&["**/*.log"])).unwrap();
    assert!(m.is_match("root.log"));
    assert!(m.is_match("subdir/nested.log"));
}

#[test]
fn union_of_patterns() {
    let m = build_globset(&patterns(&["*.log", "*.jsonl"])).unwrap();
    assert!(m.is_match("a.log"));
    assert!(m.is_match("b.jsonl"));
    assert!(!m.is_match("c.txt"));
}

#[test]
fn matching_is_case_sensitive() {
    let m = build_globset(&patterns(&["*.log"])).unwrap();
    assert!(!m.is_match("APP.LOG"));
}

#[test]
fn empty_pattern_list_matches_nothing() {
    let m = build_globset(&Vec::new()).unwrap();
    assert!(!m.is_match("app.log"));
}

#[test]
fn entry_checks_in_order() {
    let m = build_globset(&patterns(&["*.log"])).unwrap();
    assert_eq!(classify_entry(&m, "x.log", false, None, 1, None, None, None), EntryVerdict::NotAFile);
    assert_eq!(classify_entry(&m, "x.txt", true, None, 1, None, None, None), EntryVerdict::NoMatch);
    assert_eq!(classify_entry(&m, "x.log", true, Some(2), 1, None, None, None), EntryVerdict::CrossesDevice);
    assert_eq!(classify_entry(&m, "x.log", true, Some(1), 1, None, None, None), EntryVerdict::Keep);
    assert_eq!(classify_entry(&m, "x.log", true, None, 1, None, None, None), EntryVerdict::Keep);
}

#[test]
fn newer_than_keeps_recent_files() {
    let m = build_globset(&patterns(&["*.log"])).unwrap();
    let hour: u128 = 3_600_000_000_000;
    assert_eq!(classify_entry(&m, "recent.log", true, None, 1, Some(5), Some(hour), None), EntryVerdict::Keep);
    assert_eq!(classify_entry(&m, "old.log", true, None, 1, Some(2 * hour), Some(hour), None), EntryVerdict::TooOld);
    assert_eq!(classify_entry(&m, "edge.log", true, None, 1, Some(hour), Some(hour), None), EntryVerdict::Keep);
    assert_eq!(classify_entry(&m, "odd.log", true, None, 1, None, Some(hour), None), EntryVerdict::AgeUnknown);
}

#[test]
fn older_than_filters_old_files() {
    // --older-than 1h skips files older than an hour
    let m = build_globset(&patterns(&["*.log"])).unwrap();
    let hour: u128 = 3_600_000_000_000;
    assert_eq!(classify_entry(&m, "fresh.log", true, None, 1, Some(5), None, Some(hour)), EntryVerdict::Keep);
    assert_eq!(classify_entry(&m, "old.log", true, None, 1, Some(7201 * 1_000_000_000), None, Some(hour)), EntryVerdict::TooOld);
    assert_eq!(classify_entry(&m, "edge.log", true, None, 1, Some(hour), None, Some(hour)), EntryVerdict::Keep);
    assert_eq!(classify_entry(&m, "odd.log", true, None, 1, None, None, Some(0)), EntryVerdict::AgeUnknown);
}

#[test]
fn pattern_messages() {
    assert_eq!(
        invalid_pattern_message("[", "unclosed character class; missing ']'"),
        "invalid glob pattern '[': unclosed character class; missing ']'"
    );
    assert_eq!(
        set_failure_message("too big"),
        "failed to compile glob patterns: too big"
    );
}

#[test]
fn entry_verdict_without_matcher() {
    assert_eq!(entry_verdict(true, true, None, 3, None, None, None), EntryVerdict::Keep);
    assert_eq!(entry_verdict(true, false, None, 3, None, None, None), EntryVerdict::NoMatch);
    assert_eq!(entry_verdict(false, true, None, 3, None, None, None), EntryVerdict::NotAFile);
    assert_eq!(entry_verdict(true, true, None, 3, Some(10), Some(5), Some(20)), EntryVerdict::TooOld);
    assert_eq!(entry_verdict(true, true, None, 3, Some(10), Some(15), Some(5)), EntryVerdict::TooOld);
    assert_eq!(entry_verdict(true, true, None, 3, Some(10), Some(15), Some(20)), EntryVerdict::Keep);
}
