//! Shutdown gating: a shared flag the window-close handlers consult before
//! letting the process exit, so state can be persisted first.

use vstd::prelude::*;

use core::sync::atomic::{AtomicBool, Ordering};

verus! {

/// Whether the application may exit; shared between the UI thread and the
/// shutdown handler, hence atomic.  Another thread may flip the flag at
/// any time, so no more is promised of a read than that it yields a bool.
pub struct ShutdownState {
    pub allow_exit: AtomicBool,
}

impl Default for ShutdownState {
    /// A fresh state that does not yet allow exiting.
    fn default() -> ShutdownState {
        ShutdownState { allow_exit: AtomicBool::new(false) }
    }
}

impl ShutdownState {
    /// A fresh state that does not yet allow exiting.
    pub fn new() -> ShutdownState {
        ShutdownState { allow_exit: AtomicBool::new(false) }
    }

    /// Reads the flag.
    pub fn allow_exit(&self) -> bool {
        self.allow_exit.load(Ordering::SeqCst)
    }

    /// Sets the flag.
    pub fn set_allow_exit(&self, val: bool) {
        self.allow_exit.store(val, Ordering::SeqCst);
    }
}

} // verus!
