use folor::file_ref::FileRef;
use folor::watcher::{scan_wait, triggers_scan, DiscoveryEvent, FsEventKind};

#[test]
fn discovery_event_debug() {
    let event = DiscoveryEvent::Found {
        files: vec![(
            String::from("/tmp/test.log"),
            FileRef {
                device: 1,
                inode: 42,
            },
        )],
    };
    let debug = format!("{:?}", event);
    assert!(debug.contains("Found"));
    assert!(debug.contains("/tmp/test.log"));
}

#[test]
fn discovery_event_clone() {
    let event = DiscoveryEvent::Found {
        files: vec![(
            String::from("/tmp/a.log"),
            FileRef {
                device: 0,
                inode: 1,
            },
        )],
    };
    let cloned = event.clone();
    match cloned {
        DiscoveryEvent::Found { files } => {
            assert_eq!(files.len(), 1);
            assert_eq!(files[0].0, String::from("/tmp/a.log"));
            assert_eq!(files[0].1.inode, 1);
        }
    }
}

#[test]
fn discovery_event_empty_files() {
    let event = DiscoveryEvent::Found { files: vec![] };
    match event {
        DiscoveryEvent::Found { files } => {
            assert!(files.is_empty());
        }
    }
}

#[test]
fn only_content_events_trigger_scans() {
    assert!(triggers_scan(FsEventKind::Create));
    assert!(triggers_scan(FsEventKind::Modify));
    assert!(triggers_scan(FsEventKind::Remove));
    assert!(!triggers_scan(FsEventKind::Access));
    assert!(!triggers_scan(FsEventKind::Any));
    assert!(!triggers_scan(FsEventKind::Other));
}

#[test]
fn scan_wait_counts_down() {
    assert_eq!(scan_wait(0, 2_000), 2_000);
    assert_eq!(scan_wait(500, 2_000), 1_500);
    assert_eq!(scan_wait(2_000, 2_000), 0);
    assert_eq!(scan_wait(9_000, 2_000), 0);
}

#[test]
fn file_refs_compare_by_device_and_inode() {
    let a = FileRef { device: 1, inode: 2 };
    assert_eq!(a, FileRef { device: 1, inode: 2 });
    assert_ne!(a, FileRef { device: 2, inode: 1 });
}
