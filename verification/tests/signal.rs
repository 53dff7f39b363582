use std::sync::atomic::AtomicBool;

use folor::signal::SignalFlags;

#[test]
fn shutdown_flag_is_sticky() {
    let flags = SignalFlags { shutdown: AtomicBool::new(false), rescan: AtomicBool::new(false) };
    assert!(!flags.shutdown_requested());
    flags.request_shutdown();
    assert!(flags.shutdown_requested());
    assert!(flags.shutdown_requested());
}

#[test]
fn rescan_request_is_taken_once() {
    let flags = SignalFlags { shutdown: AtomicBool::new(false), rescan: AtomicBool::new(false) };
    assert!(!flags.take_rescan_request());
    flags.request_rescan();
    assert!(flags.take_rescan_request());
    assert!(!flags.take_rescan_request());
}
