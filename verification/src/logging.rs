//! The log-level vocabulary shared by the two binaries' tracing setup.

use vstd::prelude::*;

verus! {

/// The most detailed level that is still emitted.
#[derive(PartialEq, Eq, Structural, Clone, Copy, Debug)]
pub enum TracingLogLevel {
    Trace,
    Debug,
    Info,
    Warn,
    Error,
}

impl Default for TracingLogLevel {
    /// The default level keeps informational messages and drops the two
    /// detailed levels.
    fn default() -> (r: TracingLogLevel)
        ensures
            r == TracingLogLevel::Info,
    {
        TracingLogLevel::Info
    }
}

} // verus!
