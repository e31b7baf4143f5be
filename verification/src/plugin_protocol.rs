//! The messages that pass between the host and a plugin worker process.
use vstd::prelude::*;

verus! {

/// The protocol version that this host speaks by default.
pub const PLUGIN_PROTOCOL_VERSION: u32 = 1;

/// One message of the host–worker protocol.
#[derive(Clone, Debug, PartialEq, Eq)]
pub enum PluginWireMessage {
    Handshake {
        protocol_version: u32,
        supported_protocol_versions: Vec<u32>,
        plugin_id: String,
        plugin_version: String,
        capabilities: Vec<String>,
    },
    HandshakeAck {
        protocol_version: u32,
        accepted: bool,
        reason: Option<String>,
        reported_capabilities: Vec<String>,
    },
    Activate { request_id: String, event: String, timeout_ms: u64 },
    Ping { request_id: String },
    Pong { request_id: String },
    ActivateResult { request_id: String, ok: bool, error: Option<String> },
    Cancel { request_id: String, reason: String },
}

/// Whether a receiver waiting for the result of request `request_id` (or for anything,
/// when `None`) takes `msg`: only results of other requests are passed over.
pub fn message_is_awaited(msg: &PluginWireMessage, request_id: Option<&str>) -> (b: bool)
    ensures
        b == (match (msg, request_id) {
            (PluginWireMessage::ActivateResult { request_id: rid, .. }, Some(want)) => rid@ == want@,
            _ => true,
        }),
{
    match (msg, request_id) {
        (PluginWireMessage::ActivateResult { request_id: rid, .. }, Some(want)) => {
            let a = crate::text::chars_of(rid.as_str());
            crate::text::eq_str(&a, want)
        },
        _ => true,
    }
}

/// Whether `msg` answers the ping `request_id`.
pub fn is_pong_for(msg: &PluginWireMessage, request_id: &str) -> (b: bool)
    ensures
        b == (msg matches PluginWireMessage::Pong { request_id: rid } && rid@ == request_id@),
{
    match msg {
        PluginWireMessage::Pong { request_id: rid } => {
            let a = crate::text::chars_of(rid.as_str());
            crate::text::eq_str(&a, request_id)
        },
        _ => false,
    }
}

} // verus!
