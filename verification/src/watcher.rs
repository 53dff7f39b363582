use vstd::prelude::*;

use crate::file_ref::FileRef;

verus! {

/// Message sent from the watcher thread to the supervisor.
///
/// Each message carries a fresh list of files matching the configured patterns.
#[derive(Debug, Clone)]
pub enum DiscoveryEvent {
    /// Discovery produced a fresh list of matching files.
    Found { files: Vec<(String, FileRef)> },
}

/// Filesystem events that arrive within this many milliseconds of the first
/// one are absorbed into the same rescan.
pub const DEBOUNCE_MILLIS: u64 = 100;

/// The kinds of filesystem event the watcher is told about.
#[derive(Debug, Clone, Copy, PartialEq, Eq, Structural)]
pub enum FsEventKind {
    Any,
    Access,
    Create,
    Modify,
    Remove,
    Other,
}

/// Only events that can change which files exist or what they hold cause a
/// rescan: creation, modification and removal.
pub fn triggers_scan(kind: FsEventKind) -> (r: bool)
    ensures
        r == (kind == FsEventKind::Create || kind == FsEventKind::Modify || kind == FsEventKind::Remove),
{
    match kind {
        FsEventKind::Create | FsEventKind::Modify | FsEventKind::Remove => true,
        _ => false,
    }
}

/// How long the watcher waits for filesystem events before its next periodic
/// scan: what is left of the scan interval since the last scan, or nothing
/// once the interval has passed.
pub fn scan_wait(elapsed_nanos: u128, interval_nanos: u128) -> (r: u128)
    ensures
        r == (if elapsed_nanos >= interval_nanos {
            0
        } else {
            interval_nanos - elapsed_nanos
        }),
        elapsed_nanos + r >= interval_nanos,
{
    if elapsed_nanos >= interval_nanos {
        0
    } else {
        interval_nanos - elapsed_nanos
    }
}

} // verus!
