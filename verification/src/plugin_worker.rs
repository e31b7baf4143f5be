//! The reference plugin worker: how it answers each message of the host protocol.
use vstd::prelude::*;
use crate::plugin_protocol::PluginWireMessage;
use crate::text::{chars_of, string_of, trim, trim_chars, split_on, split_char, views, lower_seq, lower_ascii, eq_str, owned};
use crate::sorted::sviews;

verus! {

/// How a worker is set up to behave.
#[derive(Clone, Debug, PartialEq, Eq)]
pub struct WorkerSettings {
    /// Milliseconds to wait before answering an activation.
    pub delay_ms: u64,
    /// Whether activations succeed.
    pub activate_ok: bool,
    /// The protocol version to announce whatever the host offers.
    pub protocol_override: Option<u32>,
    /// The capabilities to report whatever the plugin declares.
    pub reported_capabilities: Option<Vec<String>>,
}

/// What the worker does with one message.
#[derive(Clone, Debug, PartialEq, Eq)]
pub enum WorkerAction {
    /// Waits `delay_ms` (when positive), then sends `message`.
    Reply { message: PluginWireMessage, delay_ms: u64 },
    /// Nothing to answer.
    Ignore,
    /// Stops serving.
    Stop,
}

/// The version the worker speaks: the host's own when the host lists it as supported, else
/// the highest supported one, else the host's own.
pub open spec fn selected_version(own: u32, supported: Seq<u32>) -> u32
    decreases supported.len(),
{
    if supported.contains(own) {
        own
    } else if supported.len() == 0 {
        own
    } else {
        max_of(supported)
    }
}

pub open spec fn max_of(s: Seq<u32>) -> u32
    decreases s.len(),
{
    if s.len() == 0 {
        0
    } else if s.len() == 1 {
        s[0]
    } else {
        let m = max_of(s.drop_last());
        if s.last() > m {
            s.last()
        } else {
            m
        }
    }
}

/// How long an activation answer waits: the configured delay, at most three times the
/// activation's time limit (at least 1 ms); none when no delay is configured.
pub open spec fn activation_delay(delay_ms: u64, timeout_ms: u64) -> u64 {
    if delay_ms == 0 {
        0
    } else {
        let cap: u64 = if timeout_ms * 3 > u64::MAX {
            u64::MAX
        } else if timeout_ms * 3 < 1 {
            1
        } else {
            (timeout_ms * 3) as u64
        };
        if delay_ms < cap {
            delay_ms
        } else {
            cap
        }
    }
}

pub open spec fn opt_strings(o: Option<Vec<String>>) -> Option<Seq<Seq<char>>> {
    match o {
        Some(v) => Some(sviews(v@)),
        None => None,
    }
}

/// The worker's step: whether a handshake has been seen after the message, and what it
/// does with it. Activations and pings before a handshake, a cancellation, stop the worker;
/// messages meant for the host are ignored.
pub open spec fn worker_step_spec(
    settings: WorkerSettings,
    seen_handshake: bool,
    msg: PluginWireMessage,
    next_seen: bool,
    action: WorkerAction,
) -> bool {
    match msg {
        PluginWireMessage::Handshake { protocol_version, supported_protocol_versions, capabilities, .. } => {
            &&& next_seen
            &&& action matches WorkerAction::Reply { message, delay_ms }
            &&& delay_ms == 0
            &&& message matches PluginWireMessage::HandshakeAck {
                protocol_version: pv,
                accepted,
                reason,
                reported_capabilities,
            }
            &&& pv == (match settings.protocol_override {
                Some(v) => v,
                None => selected_version(protocol_version, supported_protocol_versions@),
            })
            &&& accepted
            &&& reason is None
            &&& sviews(reported_capabilities@) == (match opt_strings(settings.reported_capabilities) {
                Some(r) => r,
                None => sviews(capabilities@),
            })
        },
        PluginWireMessage::Activate { request_id, timeout_ms, .. } => {
            &&& next_seen == seen_handshake
            &&& if !seen_handshake {
                action == WorkerAction::Stop
            } else {
                &&& action matches WorkerAction::Reply { message, delay_ms }
                &&& delay_ms == activation_delay(settings.delay_ms, timeout_ms)
                &&& message matches PluginWireMessage::ActivateResult { request_id: rid, ok, error }
                &&& rid@ == request_id@
                &&& ok == settings.activate_ok
                &&& if settings.activate_ok {
                    error is None
                } else {
                    error matches Some(e) && e@ == "worker activation failed"@
                }
            }
        },
        PluginWireMessage::Ping { request_id } => {
            &&& next_seen == seen_handshake
            &&& if !seen_handshake {
                action == WorkerAction::Stop
            } else {
                &&& action matches WorkerAction::Reply { message, delay_ms }
                &&& delay_ms == 0
                &&& message matches PluginWireMessage::Pong { request_id: rid }
                &&& rid@ == request_id@
            }
        },
        PluginWireMessage::Cancel { .. } => next_seen == seen_handshake && action == WorkerAction::Stop,
        _ => next_seen == seen_handshake && action == WorkerAction::Ignore,
    }
}

fn contains_u32(v: &Vec<u32>, x: u32) -> (b: bool)
    ensures
        b == v@.contains(x),
{
    let mut i: usize = 0;
    while i < v.len()
        invariant
            i <= v.len(),
            forall|k: int| 0 <= k < i ==> v@[k] != x,
        decreases v.len() - i,
    {
        if v[i] == x {
            assert(v@[i as int] == x);
            return true;
        }
        i += 1;
    }
    false
}

fn max_u32(v: &Vec<u32>) -> (m: u32)
    requires
        v@.len() > 0,
    ensures
        m == max_of(v@),
{
    let mut m: u32 = v[0];
    let mut i: usize = 1;
    assert(v@.take(1) =~= seq![v@[0]]);
    while i < v.len()
        invariant
            1 <= i <= v.len(),
            m == max_of(v@.take(i as int)),
        decreases v.len() - i,
    {
        proof {
            assert(v@.take(i + 1).drop_last() =~= v@.take(i as int));
            assert(v@.take(i + 1).last() == v@[i as int]);
        }
        if v[i] > m {
            m = v[i];
        }
        i += 1;
    }
    assert(v@.take(v.len() as int) =~= v@);
    m
}

fn copy_strings(v: &Vec<String>) -> (r: Vec<String>)
    ensures
        sviews(r@) == sviews(v@),
{
    let mut r: Vec<String> = Vec::new();
    let mut i: usize = 0;
    while i < v.len()
        invariant
            i <= v.len(),
            sviews(r@) == sviews(v@.take(i as int)),
        decreases v.len() - i,
    {
        let ghost before = r@;
        r.push(v[i].clone());
        proof {
            assert(sviews(r@) =~= sviews(before).push(v@[i as int]@));
            assert(sviews(v@.take(i + 1)) =~= sviews(v@.take(i as int)).push(v@[i as int]@));
        }
        i += 1;
    }
    assert(v@.take(v.len() as int) =~= v@);
    r
}

/// What the worker does with `msg`, given whether it has seen a handshake; returns whether
/// it has seen one afterwards, and the action.
pub fn worker_step(settings: &WorkerSettings, seen_handshake: bool, msg: PluginWireMessage) -> (r: (bool, WorkerAction))
    ensures
        worker_step_spec(*settings, seen_handshake, msg, r.0, r.1),
{
    match msg {
        PluginWireMessage::Handshake { protocol_version, supported_protocol_versions, capabilities, .. } => {
            let selected = if contains_u32(&supported_protocol_versions, protocol_version) {
                protocol_version
            } else if supported_protocol_versions.len() == 0 {
                protocol_version
            } else {
                max_u32(&supported_protocol_versions)
            };
            let reported = match &settings.reported_capabilities {
                Some(v) => copy_strings(v),
                None => capabilities,
            };
            let pv = match settings.protocol_override {
                Some(v) => v,
                None => selected,
            };
            (
                true,
                WorkerAction::Reply {
                    message: PluginWireMessage::HandshakeAck {
                        protocol_version: pv,
                        accepted: true,
                        reason: None,
                        reported_capabilities: reported,
                    },
                    delay_ms: 0,
                },
            )
        },
        PluginWireMessage::Activate { request_id, timeout_ms, .. } => {
            if !seen_handshake {
                return (seen_handshake, WorkerAction::Stop);
            }
            let delay: u64 = if settings.delay_ms == 0 {
                0
            } else {
                let cap: u64 = if timeout_ms > u64::MAX / 3 {
                    u64::MAX
                } else if timeout_ms * 3 < 1 {
                    1
                } else {
                    timeout_ms * 3
                };
                if settings.delay_ms < cap {
                    settings.delay_ms
                } else {
                    cap
                }
            };
            let message = if settings.activate_ok {
                PluginWireMessage::ActivateResult { request_id, ok: true, error: None }
            } else {
                PluginWireMessage::ActivateResult {
                    request_id,
                    ok: false,
                    error: Some(owned("worker activation failed")),
                }
            };
            (seen_handshake, WorkerAction::Reply { message, delay_ms: delay })
        },
        PluginWireMessage::Ping { request_id } => {
            if !seen_handshake {
                return (seen_handshake, WorkerAction::Stop);
            }
            (seen_handshake, WorkerAction::Reply { message: PluginWireMessage::Pong { request_id }, delay_ms: 0 })
        },
        PluginWireMessage::Cancel { .. } => (seen_handshake, WorkerAction::Stop),
        _ => (seen_handshake, WorkerAction::Ignore),
    }
}

/// The non-empty trimmed items of a comma-separated list.
pub open spec fn list_items(raw: Seq<char>) -> Seq<Seq<char>> {
    split_on(raw, ',').map_values(|x: Seq<char>| trim(x)).filter(|x: Seq<char>| x.len() > 0)
}

/// The capabilities listed in `raw`, separated by commas: each trimmed, empty ones left out.
pub fn parse_reported_capabilities(raw: &str) -> (r: Vec<String>)
    ensures
        sviews(r@) == list_items(raw@),
{
    let parts = split_char(&chars_of(raw), ',');
    let ghost ps = views(parts@);
    let ghost t = ps.map_values(|x: Seq<char>| trim(x));
    let mut r: Vec<String> = Vec::new();
    let mut i: usize = 0;
    while i < parts.len()
        invariant
            i <= parts.len(),
            ps == views(parts@),
            t == ps.map_values(|x: Seq<char>| trim(x)),
            sviews(r@) == t.take(i as int).filter(|x: Seq<char>| x.len() > 0),
        decreases parts.len() - i,
    {
        proof {
            reveal(Seq::filter);
            assert(t.take(i + 1).drop_last() =~= t.take(i as int));
            assert(t.take(i + 1).last() == trim(parts@[i as int]@));
        }
        let item = trim_chars(&parts[i]);
        if item.len() > 0 {
            let ghost before = r@;
            r.push(string_of(&item));
            assert(sviews(r@) =~= sviews(before).push(item@));
        }
        i += 1;
    }
    assert(t.take(parts.len() as int) =~= t);
    r
}

/// Whether an activation outcome setting means success: `true` (ASCII case ignored) or `1`;
/// success when unset.
pub fn parse_activate_ok(value: Option<&str>) -> (b: bool)
    ensures
        b == (match value {
            Some(v) => lower_seq(v@) == "true"@ || v@ == "1"@,
            None => true,
        }),
{
    match value {
        Some(v) => {
            let l = lower_ascii(&chars_of(v));
            eq_str(&l, "true") || eq_str(&chars_of(v), "1")
        },
        None => true,
    }
}

} // verus!
