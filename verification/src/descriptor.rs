//! What the analyzer declares of itself to a host.

use vstd::prelude::*;

verus! {

/// What a host may do with the analyzer, and how it shows it.
#[derive(Clone, Copy, Debug)]
pub struct Behavior {
    /// The host may start and stop it.
    pub supports_start_stop: bool,
    /// The host may restart it.
    pub supports_restart: bool,
    /// The host may apply options while it runs.
    pub supports_apply: bool,
    /// Input ports can be added.
    pub extendable_inputs: bool,
    /// It runs as soon as it is loaded.
    pub loads_started: bool,
    /// It is shown in a window of its own.
    pub external_window: bool,
    /// It is shown expanded at first.
    pub starts_expanded: bool,
}

/// The analyzer can be started, stopped and restarted; options are not
/// applied while it runs; it has no further input ports, does not start by
/// itself, and is shown inline and expanded.
pub fn behavior() -> (r: Behavior)
    ensures
        r.supports_start_stop,
        r.supports_restart,
        !r.supports_apply,
        !r.extendable_inputs,
        !r.loads_started,
        !r.external_window,
        r.starts_expanded,
{
    Behavior {
        supports_start_stop: true,
        supports_restart: true,
        supports_apply: false,
        extendable_inputs: false,
        loads_started: false,
        external_window: false,
        starts_expanded: true,
    }
}

} // verus!
