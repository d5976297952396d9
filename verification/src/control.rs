use vstd::prelude::*;
use std::sync::atomic::{AtomicBool, Ordering};

verus! {

/// Pause and stop requests that another thread makes of a running export.
#[derive(Debug)]
pub struct ExportControl {
    pause_requested: AtomicBool,
    stop_requested: AtomicBool,
}

impl ExportControl {
    /// A control with no request made.
    pub fn new() -> (r: ExportControl) {
        ExportControl { pause_requested: AtomicBool::new(false), stop_requested: AtomicBool::new(false) }
    }

    /// Asks the export to pause before its next image.
    pub fn request_pause(&self) {
        self.pause_requested.store(true, Ordering::SeqCst);
    }

    /// Withdraws a pause request.
    pub fn resume(&self) {
        self.pause_requested.store(false, Ordering::SeqCst);
    }

    /// Asks the export to stop before its next image, and withdraws a pause request.
    pub fn request_stop(&self) {
        self.stop_requested.store(true, Ordering::SeqCst);
        self.resume();
    }

    /// Withdraws both requests.
    pub fn reset(&self) {
        self.pause_requested.store(false, Ordering::SeqCst);
        self.stop_requested.store(false, Ordering::SeqCst);
    }

    /// Whether a pause is requested now.
    pub fn is_paused(&self) -> bool {
        self.pause_requested.load(Ordering::SeqCst)
    }

    /// Whether a stop is requested now.
    pub fn is_stopped(&self) -> bool {
        self.stop_requested.load(Ordering::SeqCst)
    }
}

} // verus!
