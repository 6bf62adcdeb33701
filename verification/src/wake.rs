use std::sync::{Condvar, Mutex};
use std::time::Duration;

use vstd::prelude::*;

use crate::platform::{new_condvar, new_flag, notify_all, read_flag, replace_flag, wait_and_lower_flag};

verus! {

/// A level-triggered wake-up shared between producers and one waiting runner.
///
/// `notify` raises the signal; `wait` blocks until it is raised or the timeout
/// elapses and then lowers it again.
pub struct WakeSignal {
    raised: Mutex<bool>,
    ready: Condvar,
}

impl WakeSignal {
    /// Creates a lowered signal.
    pub fn new() -> Self {
        WakeSignal { raised: new_flag(false), ready: new_condvar() }
    }

    /// Raises the signal and wakes any waiter.
    pub fn notify(&self) {
        let _previous = replace_flag(&self.raised, true);
        notify_all(&self.ready);
    }

    /// Returns whether the signal is currently raised.
    pub fn is_notified(&self) -> bool {
        read_flag(&self.raised)
    }

    /// Waits up to `timeout` for the signal, then lowers it.
    pub fn wait(&self, timeout: Duration) {
        let _was_raised = wait_and_lower_flag(&self.ready, &self.raised, timeout);
    }
}

} // verus!
