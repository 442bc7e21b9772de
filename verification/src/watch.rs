//! Configuration of the file watcher that restarts work on changes.

use vstd::prelude::*;

verus! {

/// How the watcher announces itself on the terminal.
pub struct PrintConfig {
    /// The name of the job the watcher runs, for its status lines.
    pub job_name: String,
    /// Whether to clear the screen before a restart, on terminals only.
    pub clear_screen: bool,
}

/// Who triggers a restart when a watched path changes.
#[derive(Clone, Copy, Debug, PartialEq, Eq, Structural)]
pub enum WatcherRestartMode {
    /// A change restarts the process at once.
    Automatic,
    /// A change is reported; the caller decides when to restart.
    Manual,
}

} // verus!
