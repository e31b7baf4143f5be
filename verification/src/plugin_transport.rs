//! The channel over which the host exchanges protocol messages with one plugin worker.
use vstd::prelude::*;
use crate::plugin_protocol::PluginWireMessage;
use std::time::Duration;

verus! {

/// A bidirectional message channel to a plugin worker. Implementations decide how the
/// messages travel (a child process's standard streams, an in-memory queue, ...).
pub trait PluginTransport {
    /// Hands `message` to the worker.
    fn send(&mut self, message: &PluginWireMessage) -> Result<(), String>;

    /// Waits at most `timeout` for the next message: `Ok(None)` when none came in time.
    fn receive(&mut self, timeout: Duration) -> Result<Option<PluginWireMessage>, String>;

    /// Ends the channel and the worker behind it.
    fn terminate(&mut self);
}

} // verus!
