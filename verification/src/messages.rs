//! Small message and argument types shared between the core and the
//! surrounding application.

use vstd::prelude::*;

verus! {

/// Tells the web server task to restart (after a port change) or to shut
/// down for good.
#[derive(Clone, Copy, PartialEq, Eq, Structural, Debug)]
pub enum ShutdownMessage {
    Restart,
    Shutdown,
}

/// Events that make the user interface refresh its device state.
#[derive(Clone, Copy, PartialEq, Eq, Structural, Debug)]
pub enum ApplicationStatusEvent {
    DeviceAdded,
    DeviceRemoved,
    Tick,
}

impl ApplicationStatusEvent {
    /// The next periodic tick event.
    pub fn next_tick() -> (r: ApplicationStatusEvent)
        ensures
            r == ApplicationStatusEvent::Tick,
    {
        ApplicationStatusEvent::Tick
    }
}

/// Command-line arguments, as plain values; the surrounding application
/// parses the actual command line into this.
pub struct CliArgs {
    pub verbose: u8,
    pub stdout: bool,
    pub log_filter: Option<String>,
    pub self_check: bool,
    pub debug_ticks: Option<u64>,
    pub no_panic_handler: bool,
    pub force_panic_handler: bool,
}

impl Default for CliArgs {
    /// No flags set.
    fn default() -> (r: CliArgs)
        ensures
            r.verbose == 0 && !r.stdout && r.log_filter is None && !r.self_check && r.debug_ticks
                is None && !r.no_panic_handler && !r.force_panic_handler,
    {
        CliArgs {
            verbose: 0,
            stdout: false,
            log_filter: None,
            self_check: false,
            debug_ticks: None,
            no_panic_handler: false,
            force_panic_handler: false,
        }
    }
}

} // verus!
