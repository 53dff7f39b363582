use folor::file_ref::FileRef;
use folor::supervisor::{RetryTracker, TrackAction, Tracker};

fn fr(inode: u64) -> FileRef {
    FileRef { device: 1, inode }
}

fn scan(entries: &[(&str, u64)]) -> Vec<(String, FileRef)> {
    entries.iter().map(|(p, i)| (p.to_string(), fr(*i))).collect()
}

fn starts(actions: &[TrackAction]) -> Vec<(FileRef, String)> {
    let mut v: Vec<(FileRef, String)> = actions
        .iter()
        .filter_map(|a| match a {
            TrackAction::Start { file_ref, path } => Some((*file_ref, path.clone())),
            _ => None,
        })
        .collect();
    v.sort_by_key(|(r, _)| r.inode);
    v
}

fn moves(actions: &[TrackAction]) -> Vec<(FileRef, String)> {
    actions
        .iter()
        .filter_map(|a| match a {
            TrackAction::Retarget { file_ref, path } => Some((*file_ref, path.clone())),
            _ => None,
        })
        .collect()
}

fn stops(actions: &[TrackAction]) -> Vec<FileRef> {
    let mut v: Vec<FileRef> = actions
        .iter()
        .filter_map(|a| match a {
            TrackAction::Stop { file_ref } => Some(*file_ref),
            _ => None,
        })
        .collect();
    v.sort_by_key(|r| r.inode);
    v
}

#[test]
fn new_files_are_started() {
    let mut t = Tracker::new();
    let actions = t.reconcile(&scan(&[("a.log", 1), ("b.log", 2)]), 0, 5);
    assert_eq!(
        starts(&actions),
        vec![(fr(1), "a.log".to_string()), (fr(2), "b.log".to_string())]
    );
    assert!(stops(&actions).is_empty());
}

#[test]
fn same_scan_twice_changes_nothing() {
    let mut t = Tracker::new();
    let files = scan(&[("a.log", 1), ("b.log", 2)]);
    t.reconcile(&files, 0, 5);
    let actions = t.reconcile(&files, 0, 5);
    assert!(actions.is_empty());
}

#[test]
fn renamed_file_keeps_its_follower() {
    let mut t = Tracker::new();
    t.reconcile(&scan(&[("app.log", 7)]), 0, 5);
    // logrotate renamed app.log to app.log.1 and created a new app.log
    let actions = t.reconcile(&scan(&[("app.log.1", 7), ("app.log", 8)]), 2, 5);
    assert_eq!(starts(&actions), vec![(fr(8), "app.log".to_string())]);
    assert_eq!(moves(&actions), vec![(fr(7), "app.log.1".to_string())]);
    assert!(stops(&actions).is_empty());
}

#[test]
fn vanished_file_is_stopped_after_grace() {
    let mut t = Tracker::new();
    t.reconcile(&scan(&[("a.log", 1), ("b.log", 2)]), 0, 5);
    // first scan without a.log at t = 10: the grace period starts
    let actions = t.reconcile(&scan(&[("b.log", 2)]), 10, 5);
    assert!(actions.is_empty());
    let actions = t.reconcile(&scan(&[("b.log", 2)]), 14, 5);
    assert!(actions.is_empty());
    let actions = t.reconcile(&scan(&[("b.log", 2)]), 15, 5);
    assert!(starts(&actions).is_empty());
    assert_eq!(stops(&actions), vec![fr(1)]);
    // gone for good: a later scan does nothing more
    let actions = t.reconcile(&scan(&[("b.log", 2)]), 30, 5);
    assert!(actions.is_empty());
}

#[test]
fn file_back_within_grace_keeps_its_follower() {
    let mut t = Tracker::new();
    t.reconcile(&scan(&[("a.log", 1)]), 0, 5);
    assert!(t.reconcile(&scan(&[]), 1, 5).is_empty());
    assert!(t.reconcile(&scan(&[("a.log", 1)]), 3, 5).is_empty());
    // the grace period starts over from the next miss
    assert!(t.reconcile(&scan(&[]), 100, 5).is_empty());
    let actions = t.reconcile(&scan(&[]), 105, 5);
    assert_eq!(stops(&actions), vec![fr(1)]);
}

#[test]
fn zero_grace_stops_at_once() {
    let mut t = Tracker::new();
    t.reconcile(&scan(&[("a.log", 1)]), 0, 0);
    let actions = t.reconcile(&scan(&[]), 0, 0);
    assert_eq!(stops(&actions), vec![fr(1)]);
}

#[test]
fn duplicate_listing_starts_once_with_last_path() {
    let mut t = Tracker::new();
    let actions = t.reconcile(&scan(&[("link.log", 3), ("real.log", 3)]), 0, 5);
    assert_eq!(starts(&actions), vec![(fr(3), "real.log".to_string())]);
}

#[test]
fn same_inode_on_other_device_is_another_file() {
    let mut t = Tracker::new();
    let files = vec![
        ("a.log".to_string(), FileRef { device: 1, inode: 5 }),
        ("b.log".to_string(), FileRef { device: 2, inode: 5 }),
    ];
    let actions = t.reconcile(&files, 0, 5);
    assert_eq!(actions.len(), 2);
}

#[test]
fn retry_mode_never_drops_paths() {
    let mut t = RetryTracker::new();
    let actions = t.reconcile(&scan(&[("a.log", 1), ("b.log", 2)]));
    assert_eq!(actions.len(), 2);
    let actions = t.reconcile(&scan(&[("b.log", 9)]));
    assert!(actions.is_empty());
    let actions = t.reconcile(&scan(&[("a.log", 4), ("c.log", 5)]));
    assert_eq!(starts(&actions), vec![(fr(5), "c.log".to_string())]);
}

#[test]
fn retry_mode_starts_each_path_once() {
    let mut t = RetryTracker::new();
    let actions = t.reconcile(&scan(&[("a.log", 1), ("a.log", 2)]));
    assert_eq!(starts(&actions), vec![(fr(2), "a.log".to_string())]);
}
