//! The host's side of a conversation with a plugin worker: the messages it sends, how it
//! judges the answers, and the book it keeps of the worker sessions it holds open.
use vstd::prelude::*;
use crate::plugin::{
    PluginManifest, PluginCapability, PluginActivationEvent, ProcessRuntimeConfig, RuntimeActivationSpec,
    RuntimeErrorCode, RuntimeError, RuntimeStatus, RuntimeTelemetrySnapshot, RuntimeSessionSnapshot,
    capability_tag, runtime_tag, accepted_version, strictly_desc, join_comma, activation_result_status,
    request_id,
};
use crate::plugin_protocol::PluginWireMessage;
use crate::sorted::{sviews, lex_lt, strictly_sorted, string_less, string_eq, lemma_lex_total, lemma_lex_transitive, lemma_lex_irreflexive};
use crate::text::{chars_of, string_of, push_str, push_all, owned, decimal, decimal_chars};

verus! {

// ---------------------------------------------------------------------------
// Messages and verdicts
// ---------------------------------------------------------------------------
/// The tags of the capabilities, in the given order.
pub open spec fn cap_tags(caps: Seq<PluginCapability>) -> Seq<Seq<char>> {
    caps.map_values(|c: PluginCapability| capability_tag(c))
}

/// The tags of `caps`, in order.
pub fn capability_tags(caps: &Vec<PluginCapability>) -> (r: Vec<String>)
    ensures
        sviews(r@) == cap_tags(caps@),
{
    let mut r: Vec<String> = Vec::new();
    let mut i: usize = 0;
    while i < caps.len()
        invariant
            i <= caps.len(),
            sviews(r@) == cap_tags(caps@.take(i as int)),
        decreases caps.len() - i,
    {
        let ghost before = r@;
        let t = owned(caps[i].as_tag());
        r.push(t);
        proof {
            assert(caps@.take(i + 1) =~= caps@.take(i as int).push(caps@[i as int]));
            assert(r@ =~= before.push(t));
            assert(sviews(r@) =~= sviews(before).push(t@));
            assert(cap_tags(caps@.take(i + 1)) =~= cap_tags(caps@.take(i as int)).push(capability_tag(caps@[i as int])));
            assert(sviews(r@) =~= cap_tags(caps@.take(i + 1)));
        }
        i += 1;
    }
    assert(caps@.take(caps.len() as int) =~= caps@);
    r
}

/// The versions a configuration accepts, highest first, each once.
pub open spec fn lists_accepted(config: ProcessRuntimeConfig, versions: Seq<u32>) -> bool {
    strictly_desc(versions) && forall|v: u32| versions.contains(v) <==> accepted_version(config, v)
}

/// The versions a configuration accepts, highest first (the one list that `lists_accepted`
/// describes; see `law_accepted_list_unique`).
pub open spec fn accepted_list(config: ProcessRuntimeConfig) -> Seq<u32> {
    choose|versions: Seq<u32>| lists_accepted(config, versions)
}

proof fn lemma_desc_unique(a: Seq<u32>, b: Seq<u32>)
    requires
        strictly_desc(a),
        strictly_desc(b),
        forall|v: u32| a.contains(v) <==> b.contains(v),
    ensures
        a == b,
    decreases a.len(),
{
    if a.len() == 0 {
        if b.len() > 0 {
            assert(b.contains(b[0]));
        }
        assert(a =~= b);
    } else {
        if b.len() == 0 {
            assert(a.contains(a[0]));
        }
        assert(a.contains(b[0]));
        assert(b.contains(a[0]));
        let k = choose|k: int| 0 <= k < a.len() && a[k] == b[0];
        let j = choose|j: int| 0 <= j < b.len() && b[j] == a[0];
        if k > 0 {
            assert(a[0] > a[k]);
            if j > 0 {
                assert(b[0] > b[j]);
            }
        }
        assert(a[0] == b[0]);
        assert forall|v: u32| a.drop_first().contains(v) <==> b.drop_first().contains(v) by {
            if a.drop_first().contains(v) {
                let i = choose|i: int| 0 <= i < a.drop_first().len() && a.drop_first()[i] == v;
                assert(a[i + 1] == v);
                assert(a[0] > a[i + 1]);
                assert(b.contains(v));
                let i2 = choose|i2: int| 0 <= i2 < b.len() && b[i2] == v;
                assert(i2 != 0);
                assert(b.drop_first()[i2 - 1] == v);
            }
            if b.drop_first().contains(v) {
                let i = choose|i: int| 0 <= i < b.drop_first().len() && b.drop_first()[i] == v;
                assert(b[i + 1] == v);
                assert(b[0] > b[i + 1]);
                assert(a.contains(v));
                let i2 = choose|i2: int| 0 <= i2 < a.len() && a[i2] == v;
                assert(i2 != 0);
                assert(a.drop_first()[i2 - 1] == v);
            }
        }
        lemma_desc_unique(a.drop_first(), b.drop_first());
        assert(a =~= b.drop_first().insert(0, b[0]));
        assert(b =~= b.drop_first().insert(0, b[0]));
    }
}

/// The accepted versions, highest first, form one list only: any list that holds exactly
/// the accepted versions in strictly descending order is `accepted_list`.
pub proof fn law_accepted_list_unique(config: ProcessRuntimeConfig, versions: Seq<u32>)
    requires
        lists_accepted(config, versions),
    ensures
        versions == accepted_list(config),
{
    let w = accepted_list(config);
    assert(lists_accepted(config, w));
    lemma_desc_unique(versions, w);
}

/// The first message to a new worker: who the plugin is, what it may do, and which protocol
/// versions the host speaks.
pub fn handshake_message(config: &ProcessRuntimeConfig, manifest: &PluginManifest) -> (m: PluginWireMessage)
    ensures
        m matches PluginWireMessage::Handshake {
            protocol_version,
            supported_protocol_versions,
            plugin_id,
            plugin_version,
            capabilities,
        } && protocol_version == config.protocol_version && lists_accepted(
            *config,
            supported_protocol_versions@,
        ) && plugin_id@ == manifest.id@ && plugin_version@ == manifest.version@ && sviews(
            capabilities@,
        ) == cap_tags(manifest.capabilities@),
{
    PluginWireMessage::Handshake {
        protocol_version: config.protocol_version,
        supported_protocol_versions: config.normalized_supported_protocol_versions(),
        plugin_id: manifest.id.clone(),
        plugin_version: manifest.version.clone(),
        capabilities: capability_tags(&manifest.capabilities),
    }
}

/// How `Debug` prints a list of numbers: `[a, b, c]`.
pub open spec fn debug_list(items: Seq<u32>) -> Seq<char>
    decreases items.len(),
{
    if items.len() == 0 {
        "[]"@
    } else {
        list_body(items) + "]"@
    }
}

/// `[` and the numbers with `, ` between them.
pub open spec fn list_body(items: Seq<u32>) -> Seq<char>
    decreases items.len(),
{
    if items.len() == 0 {
        "["@
    } else if items.len() == 1 {
        "["@ + decimal(items[0] as nat)
    } else {
        list_body(items.drop_last()) + ", "@ + decimal(items.last() as nat)
    }
}

fn debug_list_chars(items: &Vec<u32>) -> (r: Vec<char>)
    ensures
        r@ == debug_list(items@),
{
    let mut out: Vec<char> = chars_of("[");
    let mut i: usize = 0;
    while i < items.len()
        invariant
            i <= items.len(),
            i == 0 ==> out@ == "["@,
            i > 0 ==> out@ == list_body(items@.take(i as int)),
        decreases items.len() - i,
    {
        let ghost before = out@;
        if i > 0 {
            push_str(&mut out, ", ");
        }
        let d = decimal_chars(items[i] as u128);
        push_all(&mut out, &d);
        proof {
            let t = items@.take(i + 1);
            assert(t.drop_last() =~= items@.take(i as int));
            assert(t.last() == items@[i as int]);
            if i == 0 {
                assert(t.len() == 1);
                assert(out@ =~= "["@ + decimal(t[0] as nat));
            } else {
                assert(out@ =~= list_body(items@.take(i as int)) + ", "@ + decimal(t.last() as nat));
            }
        }
        i += 1;
    }
    assert(items@.take(items.len() as int) =~= items@);
    if items.len() == 0 {
        proof {
            reveal_strlit("[");
            reveal_strlit("[]");
        }
        out.push(']');
        assert(out@ =~= "[]"@);
    } else {
        push_str(&mut out, "]");
    }
    out
}

/// The reported tags that `declared` lacks, each once, in the order first reported.
pub open spec fn undeclared(reported: Seq<Seq<char>>, declared: Seq<Seq<char>>) -> Seq<Seq<char>>
    decreases reported.len(),
{
    if reported.len() == 0 {
        Seq::empty()
    } else {
        let rest = undeclared(reported.drop_last(), declared);
        let x = reported.last();
        if declared.contains(x) || rest.contains(x) {
            rest
        } else {
            rest.push(x)
        }
    }
}

fn seq_has(v: &Vec<String>, x: &String) -> (b: bool)
    ensures
        b == sviews(v@).contains(x@),
{
    let mut i: usize = 0;
    while i < v.len()
        invariant
            i <= v.len(),
            forall|k: int| 0 <= k < i ==> v@[k]@ != x@,
        decreases v.len() - i,
    {
        if string_eq(&v[i], x) {
            assert(sviews(v@)[i as int] == x@);
            return true;
        }
        i += 1;
    }
    proof {
        if sviews(v@).contains(x@) {
            let k = choose|k: int| 0 <= k < sviews(v@).len() && sviews(v@)[k] == x@;
            assert(v@[k]@ == x@);
        }
    }
    false
}

fn undeclared_tags(reported: &Vec<String>, declared: &Vec<String>) -> (r: Vec<String>)
    ensures
        sviews(r@) == undeclared(sviews(reported@), sviews(declared@)),
{
    let mut r: Vec<String> = Vec::new();
    let mut i: usize = 0;
    while i < reported.len()
        invariant
            i <= reported.len(),
            sviews(r@) == undeclared(sviews(reported@.take(i as int)), sviews(declared@)),
        decreases reported.len() - i,
    {
        let x = &reported[i];
        proof {
            assert(sviews(reported@.take(i + 1)).drop_last() =~= sviews(reported@.take(i as int)));
            assert(sviews(reported@.take(i + 1)).last() == x@);
        }
        if !seq_has(declared, x) && !seq_has(&r, x) {
            r.push(x.clone());
            assert(sviews(r@) =~= sviews(r@).drop_last().push(x@));
        }
        i += 1;
    }
    assert(reported@.take(reported.len() as int) =~= reported@);
    r
}

/// Why a handshake answer is refused, with the description reported; `None` when it is
/// accepted. The text for a version mismatch lists the accepted versions as `versions`.
pub open spec fn handshake_refusal(
    config: ProcessRuntimeConfig,
    manifest: PluginManifest,
    reply: PluginWireMessage,
    versions: Seq<u32>,
) -> Option<(RuntimeErrorCode, Seq<char>)> {
    match reply {
        PluginWireMessage::HandshakeAck { protocol_version, accepted, reason, reported_capabilities } => {
            let extra = undeclared(sviews(reported_capabilities@), cap_tags(manifest.capabilities@));
            if !accepted {
                Some(
                    (
                        RuntimeErrorCode::HandshakeRejected,
                        match reason {
                            Some(t) => t@,
                            None => "runtime handshake rejected"@,
                        },
                    ),
                )
            } else if protocol_version == 0 || !accepted_version(config, protocol_version) {
                Some(
                    (
                        RuntimeErrorCode::ProtocolMismatch,
                        "protocol version mismatch: host_supported="@ + debug_list(versions)
                            + " runtime="@ + decimal(protocol_version as nat),
                    ),
                )
            } else if extra.len() > 0 {
                Some(
                    (
                        RuntimeErrorCode::CapabilityViolation,
                        "runtime reported undeclared capabilities: "@ + join_comma(extra),
                    ),
                )
            } else {
                None
            }
        },
        _ => Some(
            (RuntimeErrorCode::ProtocolViolation, "unexpected runtime message before handshake ack"@),
        ),
    }
}

fn join_strings(items: &Vec<String>) -> (r: Vec<char>)
    ensures
        r@ == join_comma(sviews(items@)),
{
    let mut out: Vec<char> = Vec::new();
    let mut i: usize = 0;
    while i < items.len()
        invariant
            i <= items.len(),
            out@ == join_comma(sviews(items@.take(i as int))),
        decreases items.len() - i,
    {
        proof {
            let t = sviews(items@.take(i + 1));
            assert(t.drop_last() =~= sviews(items@.take(i as int)));
            assert(t.last() == items@[i as int]@);
        }
        if i > 0 {
            out.push(',');
        }
        push_str(&mut out, items[i].as_str());
        proof {
            reveal_strlit(",");
            let t = sviews(items@.take(i + 1));
            if i == 0 {
                assert(out@ =~= t[0]);
            } else {
                assert(out@ =~= join_comma(t.drop_last()) + ","@ + t.last());
            }
        }
        i += 1;
    }
    assert(items@.take(items.len() as int) =~= items@);
    out
}

/// Judges the worker's answer to the handshake: accepted only when the worker agrees, speaks
/// a protocol version the host accepts, and reports no capability that the manifest does
/// not declare.
pub fn evaluate_handshake_ack(
    config: &ProcessRuntimeConfig,
    manifest: &PluginManifest,
    reply: &PluginWireMessage,
) -> (r: Result<(), RuntimeStatus>)
    ensures
        match handshake_refusal(*config, *manifest, *reply, accepted_list(*config)) {
            None => r is Ok,
            Some((code, detail)) => r matches Err(RuntimeStatus::Failed(e)) && e.code == code && e.detail@ == detail,
        },
{
    let versions = config.normalized_supported_protocol_versions();
    proof {
        law_accepted_list_unique(*config, versions@);
    }
    match reply {
        PluginWireMessage::HandshakeAck { protocol_version, accepted, reason, reported_capabilities } => {
            if !*accepted {
                let detail = match reason {
                    Some(t) => t.clone(),
                    None => owned("runtime handshake rejected"),
                };
                return Err(RuntimeStatus::Failed(RuntimeError { code: RuntimeErrorCode::HandshakeRejected, detail }));
            }
            if config.negotiate_protocol(*protocol_version).is_none() {
                let mut text = chars_of("protocol version mismatch: host_supported=");
                let list = debug_list_chars(&versions);
                push_all(&mut text, &list);
                push_str(&mut text, " runtime=");
                let d = decimal_chars(*protocol_version as u128);
                push_all(&mut text, &d);
                return Err(RuntimeStatus::Failed(RuntimeError { code: RuntimeErrorCode::ProtocolMismatch, detail: string_of(&text) }));
            }
            let declared = capability_tags(&manifest.capabilities);
            let extra = undeclared_tags(reported_capabilities, &declared);
            if extra.len() > 0 {
                let mut text = chars_of("runtime reported undeclared capabilities: ");
                let joined = join_strings(&extra);
                push_all(&mut text, &joined);
                return Err(RuntimeStatus::Failed(RuntimeError { code: RuntimeErrorCode::CapabilityViolation, detail: string_of(&text) }));
            }
            Ok(())
        },
        _ => Err(RuntimeStatus::Failed(RuntimeError::new(
            RuntimeErrorCode::ProtocolViolation,
            "unexpected runtime message before handshake ack",
        ))),
    }
}

/// The request to activate the plugin for `trigger` within the activation's time limit.
pub fn activation_message(request_id: String, trigger: &PluginActivationEvent, spec: RuntimeActivationSpec) -> (m:
    PluginWireMessage)
    ensures
        m matches PluginWireMessage::Activate { request_id: rid, event, timeout_ms } && rid@ == request_id@
            && event@ == runtime_tag(*trigger) && timeout_ms == spec.timeout_ms,
{
    PluginWireMessage::Activate { request_id, event: trigger.as_runtime_tag(), timeout_ms: spec.timeout_ms }
}

/// The status that the worker's answer to an activation request reports: its result, or a
/// protocol violation for any other message.
pub fn evaluate_activation_reply(reply: PluginWireMessage) -> (s: RuntimeStatus)
    ensures
        match reply {
            PluginWireMessage::ActivateResult { ok, error, .. } => if ok {
                s == RuntimeStatus::Ready
            } else {
                s matches RuntimeStatus::Failed(e) && e.code == RuntimeErrorCode::ActivationRejected
                    && e.detail@ == (match error {
                    Some(t) => t@,
                    None => "runtime activation failed"@,
                })
            },
            _ => s matches RuntimeStatus::Failed(e) && e.code == RuntimeErrorCode::ProtocolViolation
                && e.detail@ == "unexpected runtime message before activation result"@,
        },
{
    match reply {
        PluginWireMessage::ActivateResult { ok, error, .. } => activation_result_status(ok, error),
        _ => RuntimeStatus::Failed(RuntimeError::new(
            RuntimeErrorCode::ProtocolViolation,
            "unexpected runtime message before activation result",
        )),
    }
}


/// What an activation decides before it talks to any worker: cancelled when the token is
/// already raised, an invalid configuration when the worker command is blank; else nothing
/// yet.
pub fn activation_precheck(config: &ProcessRuntimeConfig, cancelled: bool) -> (r: Option<RuntimeStatus>)
    ensures
        cancelled ==> r == Some(RuntimeStatus::Cancelled),
        !cancelled && crate::text::trim(config.command@).len() == 0 ==> (r matches Some(
            RuntimeStatus::Failed(e),
        ) && e.code == RuntimeErrorCode::InvalidConfig && e.detail@ == "process runtime command is empty"@),
        !cancelled && crate::text::trim(config.command@).len() > 0 ==> r is None,
{
    if cancelled {
        return Some(RuntimeStatus::Cancelled);
    }
    if crate::text::is_blank(config.command.as_str()) {
        return Some(RuntimeStatus::Failed(RuntimeError::new(
            RuntimeErrorCode::InvalidConfig,
            "process runtime command is empty",
        )));
    }
    None
}

/// What happened during an activation through a worker process, as its driver reports it.
pub enum ActivationEvent {
    /// The activation began; whether its token was already raised.
    Began { cancelled: bool },
    /// The plugin's kept session answered the ping (`true`) or did not.
    Pinged(bool),
    /// No session was kept for the plugin.
    NothingToReuse,
    /// Starting a worker succeeded (`None`) or failed with this status.
    Spawned(Option<RuntimeStatus>),
    /// The handshake succeeded (`None`) or failed with this status.
    Handshaken(Option<RuntimeStatus>),
    /// The worker's answer to the activation request.
    Answered(RuntimeStatus),
}

/// What the driver of an activation does next.
pub enum ActivationStep {
    /// Answer with `status`, taking no time where `zero_elapsed`, else the time measured.
    Finish { status: RuntimeStatus, zero_elapsed: bool },
    /// Close the sessions idle too long, then ping the plugin's kept session, if any.
    EvictIdleThenPing,
    /// Count the reuse, then request the activation on the kept session.
    ReuseThenActivate,
    /// Count the failed ping and close that session, then start a new worker.
    DropThenSpawn,
    /// Start a new worker.
    Spawn,
    /// Shake hands with the new worker.
    Handshake,
    /// Request the activation.
    Activate,
    /// Close the worker, then answer with the status.
    TerminateThenFinish(RuntimeStatus),
    /// Keep the worker's session for later, then answer with the status.
    KeepThenFinish(RuntimeStatus),
}

/// The order of an activation through a worker process: check the configuration, reuse a
/// kept session that still answers (keep-alive only), else start a worker and shake hands,
/// then request the activation and keep or close the session as `keeps_session` says. Any
/// failure ends the activation with its status, closing a worker that was started.
pub fn activation_step(config: &ProcessRuntimeConfig, event: ActivationEvent) -> (s: ActivationStep)
    ensures
        event matches ActivationEvent::Began { cancelled } && cancelled ==> s == (ActivationStep::Finish {
            status: RuntimeStatus::Cancelled,
            zero_elapsed: true,
        }),
        event matches ActivationEvent::Began { cancelled } && !cancelled && crate::text::trim(config.command@).len() == 0 ==> (s matches ActivationStep::Finish {
            status: RuntimeStatus::Failed(e),
            zero_elapsed: false,
        } && e.code == RuntimeErrorCode::InvalidConfig && e.detail@ == "process runtime command is empty"@),
        event matches ActivationEvent::Began { cancelled } && !cancelled && crate::text::trim(config.command@).len() > 0 ==> s == if config.keep_alive_session {
            ActivationStep::EvictIdleThenPing
        } else {
            ActivationStep::Spawn
        },
        event == ActivationEvent::Pinged(true) ==> s == ActivationStep::ReuseThenActivate,
        event == ActivationEvent::Pinged(false) ==> s == ActivationStep::DropThenSpawn,
        event == ActivationEvent::NothingToReuse ==> s == ActivationStep::Spawn,
        event matches ActivationEvent::Spawned(r) ==> s == match r {
            Some(st) => ActivationStep::Finish { status: st, zero_elapsed: false },
            None => ActivationStep::Handshake,
        },
        event matches ActivationEvent::Handshaken(r) ==> s == match r {
            Some(st) => ActivationStep::TerminateThenFinish(st),
            None => ActivationStep::Activate,
        },
        event matches ActivationEvent::Answered(st) ==> s == if config.keep_alive_session && !(match st {
            RuntimeStatus::Ready => false,
            RuntimeStatus::Cancelled => true,
            RuntimeStatus::Failed(e) => e.code != RuntimeErrorCode::ActivationRejected,
        }) {
            ActivationStep::KeepThenFinish(st)
        } else {
            ActivationStep::TerminateThenFinish(st)
        },
{
    match event {
        ActivationEvent::Began { cancelled } => match activation_precheck(config, cancelled) {
            Some(status) => ActivationStep::Finish { status, zero_elapsed: cancelled },
            None => if config.keep_alive_session {
                ActivationStep::EvictIdleThenPing
            } else {
                ActivationStep::Spawn
            },
        },
        ActivationEvent::Pinged(ok) => if ok {
            ActivationStep::ReuseThenActivate
        } else {
            ActivationStep::DropThenSpawn
        },
        ActivationEvent::NothingToReuse => ActivationStep::Spawn,
        ActivationEvent::Spawned(r) => match r {
            Some(status) => ActivationStep::Finish { status, zero_elapsed: false },
            None => ActivationStep::Handshake,
        },
        ActivationEvent::Handshaken(r) => match r {
            Some(status) => ActivationStep::TerminateThenFinish(status),
            None => ActivationStep::Activate,
        },
        ActivationEvent::Answered(status) => if keeps_session(config, &status) {
            ActivationStep::KeepThenFinish(status)
        } else {
            ActivationStep::TerminateThenFinish(status)
        },
    }
}

/// Whether the worker session stays open after an activation that ended with `status`: only
/// with keep-alive on, and not after a cancellation or a failure other than a refusal by the
/// plugin.
pub fn keeps_session(config: &ProcessRuntimeConfig, status: &RuntimeStatus) -> (b: bool)
    ensures
        b == (config.keep_alive_session && !(match status {
            RuntimeStatus::Ready => false,
            RuntimeStatus::Cancelled => true,
            RuntimeStatus::Failed(e) => e.code != RuntimeErrorCode::ActivationRejected,
        })),
{
    config.keep_alive_session && !crate::plugin::should_reset_session(status)
}

// ---------------------------------------------------------------------------
// The book of kept-alive sessions
// ---------------------------------------------------------------------------
/// The milliseconds from `last` to `now`; none when `last` lies ahead.
pub open spec fn idle_ms(now: u128, last: u128) -> u128 {
    if now >= last {
        (now - last) as u128
    } else {
        0
    }
}

/// The keys of the entries, in order.
pub open spec fn entry_keys(e: Seq<(String, u128)>) -> Seq<Seq<char>> {
    e.map_values(|x: (String, u128)| x.0@)
}

/// No key occurs twice.
pub open spec fn distinct_keys(e: Seq<(String, u128)>) -> bool {
    forall|i: int, j: int| 0 <= i < j < e.len() ==> #[trigger] e[i].0@ != #[trigger] e[j].0@
}

/// `a + k`, held at the largest `u64`.
pub open spec fn add_capped(a: u64, k: nat) -> u64 {
    if a + k <= u64::MAX {
        (a + k) as u64
    } else {
        u64::MAX
    }
}

/// The keys of session snapshots, in order.
pub open spec fn snap_keys(r: Seq<RuntimeSessionSnapshot>) -> Seq<Seq<char>> {
    r.map_values(|x: RuntimeSessionSnapshot| x.session_key@)
}

/// The snapshots as (key, idle time) pairs.
pub open spec fn snap_pairs(r: Seq<RuntimeSessionSnapshot>) -> Seq<(Seq<char>, u128)> {
    r.map_values(|x: RuntimeSessionSnapshot| (x.session_key@, x.idle_ms))
}

/// The entries as (key, idle time at `now`) pairs.
pub open spec fn entry_pairs(e: Seq<(String, u128)>, now: u128) -> Seq<(Seq<char>, u128)> {
    e.map_values(|x: (String, u128)| (x.0@, idle_ms(now, x.1)))
}

/// The open worker sessions of a process runtime, by key, with the time each was last used,
/// least recently kept first; and the runtime's counters.
pub struct SessionBook {
    entries: Vec<(String, u128)>,
    telemetry: RuntimeTelemetrySnapshot,
    request_sequence: u64,
}

/// The entries whose key is not `k`, in order.
pub open spec fn without_key(e: Seq<(String, u128)>, k: Seq<char>) -> Seq<(String, u128)> {
    e.filter(key_is_not(k))
}

pub open spec fn key_is_not(k: Seq<char>) -> spec_fn((String, u128)) -> bool {
    |x: (String, u128)| x.0@ != k
}

pub open spec fn used_within(now: u128, ttl: u64) -> spec_fn((String, u128)) -> bool {
    |x: (String, u128)| idle_ms(now, x.1) < ttl
}

pub open spec fn unused_for(now: u128, ttl: u64) -> spec_fn((String, u128)) -> bool {
    |x: (String, u128)| idle_ms(now, x.1) >= ttl
}

/// The entries used less than `ttl` before `now`, in order.
pub open spec fn live_entries(e: Seq<(String, u128)>, now: u128, ttl: u64) -> Seq<(String, u128)> {
    e.filter(used_within(now, ttl))
}

/// The entries left unused for `ttl` or more by `now`, in order.
pub open spec fn stale_entries(e: Seq<(String, u128)>, now: u128, ttl: u64) -> Seq<(String, u128)> {
    e.filter(unused_for(now, ttl))
}

proof fn lemma_filter_order(s: Seq<(String, u128)>, p: spec_fn((String, u128)) -> bool, a: int, b: int)
    requires
        distinct_keys(s),
        0 <= a < b < s.filter(p).len(),
    ensures
        s.filter(p)[a].0@ != s.filter(p)[b].0@,
    decreases s.len(),
{
    reveal(Seq::filter);
    let d = s.drop_last();
    let sub = d.filter(p);
    assert forall|i: int, j: int| 0 <= i < j < d.len() implies #[trigger] d[i].0@ != #[trigger] d[j].0@ by {
        assert(s[i] == d[i] && s[j] == d[j]);
    }
    if p(s.last()) {
        assert(s.filter(p) == sub.push(s.last()));
        if b == sub.len() {
            let x = sub[a];
            assert(sub[a] == x);
            assert(sub.contains(x));
            d.lemma_filter_contains_rev(p, x);
            let k = choose|k: int| 0 <= k < d.len() && d[k] == x;
            assert(s[k] == x);
            assert(s[s.len() - 1] == s.last());
        } else {
            assert(s.filter(p)[a] == sub[a] && s.filter(p)[b] == sub[b]);
            lemma_filter_order(d, p, a, b);
        }
    } else {
        assert(s.filter(p) == sub);
        lemma_filter_order(d, p, a, b);
    }
}

proof fn lemma_filter_distinct(s: Seq<(String, u128)>, p: spec_fn((String, u128)) -> bool)
    requires
        distinct_keys(s),
    ensures
        distinct_keys(s.filter(p)),
{
    assert forall|a: int, b: int| 0 <= a < b < s.filter(p).len() implies #[trigger] s.filter(p)[a].0@
        != #[trigger] s.filter(p)[b].0@ by {
        lemma_filter_order(s, p, a, b);
    }
}

proof fn lemma_filter_step(s: Seq<(String, u128)>, p: spec_fn((String, u128)) -> bool, i: int)
    requires
        0 <= i < s.len(),
    ensures
        s.take(i + 1).filter(p) == if p(s[i]) {
            s.take(i).filter(p).push(s[i])
        } else {
            s.take(i).filter(p)
        },
{
    reveal(Seq::filter);
    assert(s.take(i + 1).drop_last() =~= s.take(i));
    assert(s.take(i + 1).last() == s[i]);
}

fn drop_key(entries: &Vec<(String, u128)>, key: &str) -> (r: (Vec<(String, u128)>, bool))
    requires
        distinct_keys(entries@),
    ensures
        r.0@ == without_key(entries@, key@),
        distinct_keys(r.0@),
        r.1 == entry_keys(entries@).contains(key@),
{
    let mut out: Vec<(String, u128)> = Vec::new();
    let mut found = false;
    let mut i: usize = 0;
    while i < entries.len()
        invariant
            i <= entries.len(),
            distinct_keys(entries@),
            out@ == without_key(entries@.take(i as int), key@),
            found == entry_keys(entries@.take(i as int)).contains(key@),
        decreases entries.len() - i,
    {
        proof {
            lemma_filter_step(entries@, key_is_not(key@), i as int);
            assert(entry_keys(entries@.take(i + 1)) =~= entry_keys(entries@.take(i as int)).push(entries@[i as int].0@));
        }
        let same = crate::text::eq_str(&chars_of(entries[i].0.as_str()), key);
        if same {
            found = true;
            assert(entry_keys(entries@.take(i + 1))[i as int] == key@);
        } else {
            out.push((entries[i].0.clone(), entries[i].1));
            proof {
                let ks = entry_keys(entries@.take(i as int));
                let ks1 = entry_keys(entries@.take(i + 1));
                if found {
                    let j = choose|j: int| 0 <= j < ks.len() && ks[j] == key@;
                    assert(ks1[j] == key@);
                } else if ks1.contains(key@) {
                    let j = choose|j: int| 0 <= j < ks1.len() && ks1[j] == key@;
                    assert(j != i);
                    assert(ks[j] == key@);
                }
            }
        }
        i += 1;
    }
    assert(entries@.take(entries.len() as int) =~= entries@);
    proof {
        lemma_filter_distinct(entries@, key_is_not(key@));
    }
    (out, found)
}

impl SessionBook {
    /// The keys, last-use times and counters, as values.
    pub closed spec fn entries_view(&self) -> Seq<(String, u128)> {
        self.entries@
    }

    pub closed spec fn telemetry_view(&self) -> RuntimeTelemetrySnapshot {
        self.telemetry
    }

    pub closed spec fn sequence(&self) -> u64 {
        self.request_sequence
    }

    pub open spec fn wf(&self) -> bool {
        distinct_keys(self.entries_view())
    }

    /// A book with no session and all counters at zero.
    pub fn new() -> (b: SessionBook)
        ensures
            b.wf(),
            b.entries_view().len() == 0,
            b.telemetry_view() == (RuntimeTelemetrySnapshot {
                spawn_count: 0,
                handshake_count: 0,
                activation_request_count: 0,
                reused_session_count: 0,
                session_ping_failure_count: 0,
                evicted_by_limit_count: 0,
                evicted_by_idle_ttl_count: 0,
            }),
            b.sequence() == 0,
    {
        SessionBook { entries: Vec::new(), telemetry: RuntimeTelemetrySnapshot::default(), request_sequence: 0 }
    }

    /// How many sessions are open.
    pub fn len(&self) -> (n: usize)
        ensures
            n == self.entries_view().len(),
    {
        self.entries.len()
    }

    /// A copy of the counters.
    pub fn telemetry(&self) -> (t: RuntimeTelemetrySnapshot)
        ensures
            t == self.telemetry_view(),
    {
        RuntimeTelemetrySnapshot {
            spawn_count: self.telemetry.spawn_count,
            handshake_count: self.telemetry.handshake_count,
            activation_request_count: self.telemetry.activation_request_count,
            reused_session_count: self.telemetry.reused_session_count,
            session_ping_failure_count: self.telemetry.session_ping_failure_count,
            evicted_by_limit_count: self.telemetry.evicted_by_limit_count,
            evicted_by_idle_ttl_count: self.telemetry.evicted_by_idle_ttl_count,
        }
    }

    /// Takes the session `key` out of the book; says whether it was there.
    pub fn take(&mut self, key: &str) -> (found: bool)
        requires
            old(self).wf(),
        ensures
            final(self).wf(),
            found == entry_keys(old(self).entries_view()).contains(key@),
            final(self).entries_view() == without_key(old(self).entries_view(), key@),
            final(self).telemetry_view() == old(self).telemetry_view(),
            final(self).sequence() == old(self).sequence(),
    {
        let (rest, found) = drop_key(&self.entries, key);
        self.entries = rest;
        found
    }

    /// Records that session `key` was used at `now_ms` and stays open, as the most recently
    /// kept; then closes the least recently kept sessions while more than `limit` are open,
    /// and returns their keys, oldest first.
    pub fn keep(&mut self, key: String, now_ms: u128, limit: usize) -> (evicted: Vec<String>)
        requires
            old(self).wf(),
            limit >= 1,
        ensures
            final(self).wf(),
            ({
                let t = without_key(old(self).entries_view(), key@).push((key, now_ms));
                let cut = if t.len() > limit { t.len() - limit } else { 0 };
                &&& final(self).entries_view() == t.skip(cut)
                &&& sviews(evicted@) == entry_keys(t.take(cut))
                &&& final(self).telemetry_view() == (RuntimeTelemetrySnapshot {
                    evicted_by_limit_count: add_capped(old(self).telemetry_view().evicted_by_limit_count, cut as nat),
                    ..old(self).telemetry_view()
                })
            }),
            final(self).sequence() == old(self).sequence(),
            final(self).entries_view().len() <= limit,
            entry_keys(final(self).entries_view()).contains(key@),
    {
        let (rest, _found) = drop_key(&self.entries, key.as_str());
        let mut t = rest;
        let ghost kv = key@;
        let ghost key_view = key@;
        t.push((key, now_ms));
        proof {
            let f = without_key(old(self).entries@, kv);
            assert forall|a: int, b: int| 0 <= a < b < t@.len() implies #[trigger] t@[a].0@ != #[trigger] t@[b].0@ by {
                if b == t@.len() - 1 {
                    assert(f[a] == t@[a]);
                    old(self).entries@.lemma_filter_pred(key_is_not(kv), a);
                }
            }
        }
        let ghost t0 = t@;
        let cut: usize = if t.len() > limit { t.len() - limit } else { 0 };
        let mut evicted: Vec<String> = Vec::new();
        let mut kept: Vec<(String, u128)> = Vec::new();
        let mut i: usize = 0;
        while i < t.len()
            invariant
                t@ == t0,
                i <= t.len(),
                cut <= t.len(),
                i <= cut ==> sviews(evicted@) == entry_keys(t0.take(i as int)) && kept@.len() == 0,
                i > cut ==> sviews(evicted@) == entry_keys(t0.take(cut as int)) && kept@ == t0.subrange(cut as int, i as int),
            decreases t.len() - i,
        {
            let e = (t[i].0.clone(), t[i].1);
            if i < cut {
                let ghost before = evicted@;
                evicted.push(e.0);
                proof {
                    assert(t0.take(i + 1) =~= t0.take(i as int).push(t0[i as int]));
                    assert(sviews(evicted@) =~= sviews(before).push(t0[i as int].0@));
                    assert(entry_keys(t0.take(i + 1)) =~= entry_keys(t0.take(i as int)).push(t0[i as int].0@));
                }
            } else {
                kept.push(e);
                proof {
                    if i == cut {
                        assert(kept@ =~= t0.subrange(cut as int, i + 1));
                    } else {
                        assert(kept@ =~= t0.subrange(cut as int, i + 1));
                    }
                }
            }
            i += 1;
        }
        proof {
            if t0.len() == cut {
                assert(kept@ =~= t0.skip(cut as int));
            } else {
                assert(kept@ =~= t0.skip(cut as int));
            }
            assert forall|a: int, b: int| 0 <= a < b < kept@.len() implies #[trigger] kept@[a].0@ != #[trigger] kept@[b].0@ by {
                assert(kept@[a] == t0[a + cut]);
                assert(kept@[b] == t0[b + cut]);
            }
        }
        proof {
            let last = t0.len() - 1;
            assert(kept@[last - cut] == t0[last]);
            assert(entry_keys(kept@)[last - cut] == key_view);
        }
        self.entries = kept;
        let ghost kept_view = self.entries@;
        let mut k: usize = 0;
        while k < cut
            invariant
                k <= cut,
                self.entries@ == kept_view,
                self.request_sequence == old(self).request_sequence,
                self.telemetry == (RuntimeTelemetrySnapshot {
                    evicted_by_limit_count: add_capped(old(self).telemetry.evicted_by_limit_count, k as nat),
                    ..old(self).telemetry
                }),
            decreases cut - k,
        {
            self.telemetry.evicted_by_limit_count = self.telemetry.evicted_by_limit_count.saturating_add(1);
            k += 1;
        }
        evicted
    }

    /// Closes every session left unused for at least `ttl_ms` by `now_ms` and returns their
    /// keys, in book order.
    pub fn evict_idle(&mut self, now_ms: u128, ttl_ms: u64) -> (evicted: Vec<String>)
        requires
            old(self).wf(),
        ensures
            final(self).wf(),
            final(self).entries_view() == live_entries(old(self).entries_view(), now_ms, ttl_ms),
            sviews(evicted@) == entry_keys(stale_entries(old(self).entries_view(), now_ms, ttl_ms)),
            final(self).telemetry_view() == (RuntimeTelemetrySnapshot {
                evicted_by_idle_ttl_count: add_capped(
                    old(self).telemetry_view().evicted_by_idle_ttl_count,
                    evicted@.len() as nat,
                ),
                ..old(self).telemetry_view()
            }),
            final(self).sequence() == old(self).sequence(),
    {
        let ghost e0 = self.entries@;
        let mut kept: Vec<(String, u128)> = Vec::new();
        let mut evicted: Vec<String> = Vec::new();
        let mut i: usize = 0;
        while i < self.entries.len()
            invariant
                self.entries@ == e0,
                distinct_keys(e0),
                i <= e0.len(),
                kept@ == live_entries(e0.take(i as int), now_ms, ttl_ms),
                sviews(evicted@) == entry_keys(stale_entries(e0.take(i as int), now_ms, ttl_ms)),
                self.telemetry == old(self).telemetry,
                self.request_sequence == old(self).request_sequence,
            decreases e0.len() - i,
        {
            proof {
                lemma_filter_step(e0, used_within(now_ms, ttl_ms), i as int);
                lemma_filter_step(e0, unused_for(now_ms, ttl_ms), i as int);
            }
            let last = self.entries[i].1;
            let idle: u128 = if now_ms >= last { now_ms - last } else { 0 };
            if idle >= ttl_ms as u128 {
                let ghost before = evicted@;
                evicted.push(self.entries[i].0.clone());
                proof {
                    assert(sviews(evicted@) =~= sviews(before).push(e0[i as int].0@));
                    assert(entry_keys(stale_entries(e0.take(i + 1), now_ms, ttl_ms)) =~= entry_keys(
                        stale_entries(e0.take(i as int), now_ms, ttl_ms),
                    ).push(e0[i as int].0@));
                }
            } else {
                kept.push((self.entries[i].0.clone(), last));
            }
            i += 1;
        }
        proof {
            assert(e0.take(e0.len() as int) =~= e0);
            lemma_filter_distinct(e0, used_within(now_ms, ttl_ms));
        }
        self.entries = kept;
        let ghost kept_view = self.entries@;
        let n = evicted.len();
        let mut k: usize = 0;
        while k < n
            invariant
                k <= n,
                self.entries@ == kept_view,
                self.request_sequence == old(self).request_sequence,
                self.telemetry == (RuntimeTelemetrySnapshot {
                    evicted_by_idle_ttl_count: add_capped(old(self).telemetry.evicted_by_idle_ttl_count, k as nat),
                    ..old(self).telemetry
                }),
            decreases n - k,
        {
            self.telemetry.evicted_by_idle_ttl_count = self.telemetry.evicted_by_idle_ttl_count.saturating_add(1);
            k += 1;
        }
        evicted
    }

    /// The open sessions with how long each has been idle at `now_ms`, sorted by key.
    pub fn snapshot(&self, now_ms: u128) -> (r: Vec<RuntimeSessionSnapshot>)
        requires
            self.wf(),
        ensures
            strictly_sorted(snap_keys(r@)),
            forall|p: (Seq<char>, u128)| snap_pairs(r@).contains(p) <==> entry_pairs(self.entries_view(), now_ms).contains(p),
    {
        let mut r: Vec<RuntimeSessionSnapshot> = Vec::new();
        let mut i: usize = 0;
        let ghost e = self.entries@;
        while i < self.entries.len()
            invariant
                e == self.entries@,
                distinct_keys(e),
                i <= e.len(),
                strictly_sorted(snap_keys(r@)),
                forall|p: (Seq<char>, u128)| snap_pairs(r@).contains(p) <==> entry_pairs(e.take(i as int), now_ms).contains(p),
                forall|k: int| 0 <= k < r@.len() ==> entry_keys(e.take(i as int)).contains(#[trigger] snap_keys(r@)[k]),
            decreases e.len() - i,
        {
            let key = self.entries[i].0.clone();
            let last = self.entries[i].1;
            let idle: u128 = if now_ms >= last { now_ms - last } else { 0 };
            let mut p: usize = 0;
            while p < r.len() && string_less(&r[p].session_key, &key)
                invariant
                    p <= r.len(),
                    forall|k: int| 0 <= k < p ==> lex_lt(#[trigger] snap_keys(r@)[k], key@),
                decreases r.len() - p,
            {
                p += 1;
            }
            let ghost old_r = r@;
            proof {
                assert(!entry_keys(e.take(i as int)).contains(key@)) by {
                    if entry_keys(e.take(i as int)).contains(key@) {
                        let ek = entry_keys(e.take(i as int));
                        let j = choose|j: int| 0 <= j < ek.len() && ek[j] == key@;
                        assert(e[j].0@ == e[i as int].0@);
                    }
                }
                if p < old_r.len() {
                    assert(entry_keys(e.take(i as int)).contains(snap_keys(old_r)[p as int]));
                    assert(!lex_lt(snap_keys(old_r)[p as int], key@));
                    assert(snap_keys(old_r)[p as int] != key@);
                    lemma_lex_total(key@, snap_keys(old_r)[p as int]);
                    assert(lex_lt(key@, snap_keys(old_r)[p as int]));
                }
            }
            r.insert(p, RuntimeSessionSnapshot { session_key: key, idle_ms: idle });
            proof {
                let nk = snap_keys(r@);
                let ok = snap_keys(old_r);
                let x = key@;
                assert(nk =~= ok.insert(p as int, x));
                assert(snap_pairs(r@) =~= snap_pairs(old_r).insert(p as int, (x, idle)));
                assert(e.take(i + 1) =~= e.take(i as int).push(e[i as int]));
                assert(entry_pairs(e.take(i + 1), now_ms) =~= entry_pairs(e.take(i as int), now_ms).push((x, idle)));
                assert(entry_keys(e.take(i + 1)) =~= entry_keys(e.take(i as int)).push(x));
                assert forall|a: int, b: int| 0 <= a < b < nk.len() implies lex_lt(#[trigger] nk[a], #[trigger] nk[b]) by {
                    if b < p {
                        assert(lex_lt(ok[a], ok[b]));
                    } else if b == p {
                    } else if a == p {
                        if b - 1 > p {
                            assert(lex_lt(ok[p as int], ok[b - 1]));
                            lemma_lex_transitive(x, ok[p as int], ok[b - 1]);
                        }
                    } else if a < p {
                        if b - 1 > p {
                            assert(lex_lt(ok[p as int], ok[b - 1]));
                            lemma_lex_transitive(x, ok[p as int], ok[b - 1]);
                        }
                        lemma_lex_transitive(ok[a], x, ok[b - 1]);
                    } else {
                        assert(lex_lt(ok[a - 1], ok[b - 1]));
                    }
                }
                assert forall|q: (Seq<char>, u128)| snap_pairs(r@).contains(q) <==> entry_pairs(e.take(i + 1), now_ms).contains(q) by {
                    let sp = snap_pairs(r@);
                    let osp = snap_pairs(old_r);
                    let ep = entry_pairs(e.take(i as int), now_ms);
                    if osp.contains(q) {
                        let k = choose|k: int| 0 <= k < osp.len() && osp[k] == q;
                        if k < p { assert(sp[k] == q); } else { assert(sp[k + 1] == q); }
                        assert(ep.contains(q));
                        let j = choose|j: int| 0 <= j < ep.len() && ep[j] == q;
                        assert(entry_pairs(e.take(i + 1), now_ms)[j] == q);
                    }
                    if q == (x, idle) {
                        assert(sp[p as int] == q);
                        assert(entry_pairs(e.take(i + 1), now_ms)[i as int] == q);
                    }
                    if sp.contains(q) {
                        let k = choose|k: int| 0 <= k < sp.len() && sp[k] == q;
                        if k < p { assert(osp[k] == q); } else if k > p { assert(osp[k - 1] == q); }
                    }
                    if entry_pairs(e.take(i + 1), now_ms).contains(q) {
                        let ep1 = entry_pairs(e.take(i + 1), now_ms);
                        let j = choose|j: int| 0 <= j < ep1.len() && ep1[j] == q;
                        if j < i { assert(ep[j] == q); }
                    }
                }
                assert forall|k: int| 0 <= k < r@.len() implies entry_keys(e.take(i + 1)).contains(#[trigger] snap_keys(r@)[k]) by {
                    if k == p {
                        assert(entry_keys(e.take(i + 1))[i as int] == x);
                    } else {
                        let kk = if k < p { k } else { k - 1 };
                        assert(snap_keys(r@)[k] == ok[kk]);
                        assert(entry_keys(e.take(i as int)).contains(ok[kk]));
                        let ek = entry_keys(e.take(i as int));
                        let j = choose|j: int| 0 <= j < ek.len() && ek[j] == ok[kk];
                        assert(entry_keys(e.take(i + 1))[j] == ok[kk]);
                    }
                }
            }
            i += 1;
        }
        assert(e.take(e.len() as int) =~= e);
        r
    }

    /// The next request identifier, `<prefix>:<plugin id>:<n>`, counting from 1 (held at the
    /// largest `u64`).
    pub fn next_request_id(&mut self, prefix: &str, plugin_id: &str) -> (r: String)
        ensures
            final(self).sequence() == add_capped(old(self).sequence(), 1),
            r@ == prefix@ + ":"@ + plugin_id@ + ":"@ + decimal(final(self).sequence() as nat),
            final(self).entries_view() == old(self).entries_view(),
            final(self).telemetry_view() == old(self).telemetry_view(),
    {
        self.request_sequence = self.request_sequence.saturating_add(1);
        request_id(prefix, plugin_id, self.request_sequence)
    }

    /// Counts a worker process started.
    pub fn record_spawn(&mut self)
        ensures
            final(self).telemetry_view() == (RuntimeTelemetrySnapshot {
                spawn_count: add_capped(old(self).telemetry_view().spawn_count, 1),
                ..old(self).telemetry_view()
            }),
            final(self).entries_view() == old(self).entries_view(),
            final(self).sequence() == old(self).sequence(),
    {
        self.telemetry.spawn_count = self.telemetry.spawn_count.saturating_add(1);
    }

    /// Counts a handshake accepted.
    pub fn record_handshake(&mut self)
        ensures
            final(self).telemetry_view() == (RuntimeTelemetrySnapshot {
                handshake_count: add_capped(old(self).telemetry_view().handshake_count, 1),
                ..old(self).telemetry_view()
            }),
            final(self).entries_view() == old(self).entries_view(),
            final(self).sequence() == old(self).sequence(),
    {
        self.telemetry.handshake_count = self.telemetry.handshake_count.saturating_add(1);
    }

    /// Counts an activation request sent.
    pub fn record_activation_request(&mut self)
        ensures
            final(self).telemetry_view() == (RuntimeTelemetrySnapshot {
                activation_request_count: add_capped(old(self).telemetry_view().activation_request_count, 1),
                ..old(self).telemetry_view()
            }),
            final(self).entries_view() == old(self).entries_view(),
            final(self).sequence() == old(self).sequence(),
    {
        self.telemetry.activation_request_count = self.telemetry.activation_request_count.saturating_add(1);
    }

    /// Counts a kept-alive session that answered its ping and was used again.
    pub fn record_reuse(&mut self)
        ensures
            final(self).telemetry_view() == (RuntimeTelemetrySnapshot {
                reused_session_count: add_capped(old(self).telemetry_view().reused_session_count, 1),
                ..old(self).telemetry_view()
            }),
            final(self).entries_view() == old(self).entries_view(),
            final(self).sequence() == old(self).sequence(),
    {
        self.telemetry.reused_session_count = self.telemetry.reused_session_count.saturating_add(1);
    }

    /// Counts a kept-alive session that failed its ping.
    pub fn record_ping_failure(&mut self)
        ensures
            final(self).telemetry_view() == (RuntimeTelemetrySnapshot {
                session_ping_failure_count: add_capped(old(self).telemetry_view().session_ping_failure_count, 1),
                ..old(self).telemetry_view()
            }),
            final(self).entries_view() == old(self).entries_view(),
            final(self).sequence() == old(self).sequence(),
    {
        self.telemetry.session_ping_failure_count = self.telemetry.session_ping_failure_count.saturating_add(1);
    }
}

} // verus!
