use std::sync::atomic::AtomicBool;
use vstd::prelude::*;

verus! {

/// The requests that signals leave for the rest of the program: SIGINT and
/// SIGTERM ask for shutdown, SIGHUP for an immediate rescan. Signal handlers
/// set them; the threads of the program read them. Their values change
/// behind the program's back, so nothing is stated of what a read returns.
pub struct SignalFlags {
    /// Set by the SIGINT/SIGTERM handler to request shutdown.
    pub shutdown: AtomicBool,
    /// Set by the SIGHUP handler to request an immediate rescan.
    pub rescan: AtomicBool,
}

impl SignalFlags {
    /// Record a shutdown request.
    pub fn request_shutdown(&self) {
        self.shutdown.store(true, std::sync::atomic::Ordering::SeqCst);
    }

    /// Record a rescan request.
    pub fn request_rescan(&self) {
        self.rescan.store(true, std::sync::atomic::Ordering::SeqCst);
    }

    /// Check whether shutdown has been requested (SIGINT/SIGTERM).
    pub fn shutdown_requested(&self) -> bool {
        self.shutdown.load(std::sync::atomic::Ordering::SeqCst)
    }

    /// Check and clear the rescan flag (SIGHUP). Returns `true` if a
    /// rescan was requested since the last call.
    pub fn take_rescan_request(&self) -> bool {
        self.rescan.swap(false, std::sync::atomic::Ordering::SeqCst)
    }
}

} // verus!
