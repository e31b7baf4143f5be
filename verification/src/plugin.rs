//! Plugins: manifests and their validation against the host policy, the runtimes that
//! activate them, and the registry that drives each plugin's lifecycle.
use vstd::prelude::*;
use crate::command::{CommandId, command_name};
use crate::text::{chars_of, string_of, push_str, push_all, trimmed, trim, lower_ascii, lower_seq, eq_str, owned, decimal, decimal_chars, is_blank};
use crate::sorted::{lex_lt, strictly_sorted, string_less, lemma_lex_total, lemma_lex_transitive};
use crate::host::{ActivationCancellation, instant_now, millis_since, duration_from_millis, millis_duration};
use std::time::Duration;
use std::collections::HashMap;
use crate::plugin_protocol::PLUGIN_PROTOCOL_VERSION;

verus! {

/// What a plugin may do.
#[derive(Clone, Copy, Debug, PartialEq, Eq, Hash, Structural)]
pub enum PluginCapability {
    Commands,
    ReadVault,
    WriteVault,
    Network,
}

pub open spec fn capability_tag(c: PluginCapability) -> Seq<char> {
    match c {
        PluginCapability::Commands => "commands"@,
        PluginCapability::ReadVault => "read_vault"@,
        PluginCapability::WriteVault => "write_vault"@,
        PluginCapability::Network => "network"@,
    }
}

impl PluginCapability {
    pub fn as_tag(self) -> (s: &'static str)
        ensures
            s@ == capability_tag(self),
    {
        match self {
            PluginCapability::Commands => "commands",
            PluginCapability::ReadVault => "read_vault",
            PluginCapability::WriteVault => "write_vault",
            PluginCapability::Network => "network",
        }
    }
}

/// What wakes a plugin up.
#[derive(Clone, Copy, Debug, PartialEq, Eq, Hash, Structural)]
pub enum PluginActivationEvent {
    OnStartupFinished,
    OnVaultOpened,
    OnCommand(CommandId),
}

/// The tag by which a runtime is told what woke the plugin.
pub open spec fn runtime_tag(e: PluginActivationEvent) -> Seq<char> {
    match e {
        PluginActivationEvent::OnStartupFinished => "on_startup_finished"@,
        PluginActivationEvent::OnVaultOpened => "on_vault_opened"@,
        PluginActivationEvent::OnCommand(c) => "on_command:"@ + command_name(c),
    }
}

impl PluginActivationEvent {
    /// Whether a registered event answers `trigger`: the same event, for a command the same
    /// command.
    pub fn matches_trigger(&self, trigger: &PluginActivationEvent) -> (b: bool)
        ensures
            b == (*self == *trigger),
    {
        match (self, trigger) {
            (PluginActivationEvent::OnStartupFinished, PluginActivationEvent::OnStartupFinished) => true,
            (PluginActivationEvent::OnVaultOpened, PluginActivationEvent::OnVaultOpened) => true,
            (PluginActivationEvent::OnCommand(a), PluginActivationEvent::OnCommand(b)) => *a == *b,
            _ => false,
        }
    }

    pub fn as_runtime_tag(&self) -> (s: String)
        ensures
            s@ == runtime_tag(*self),
    {
        match self {
            PluginActivationEvent::OnStartupFinished => owned("on_startup_finished"),
            PluginActivationEvent::OnVaultOpened => owned("on_vault_opened"),
            PluginActivationEvent::OnCommand(c) => {
                let mut v = chars_of("on_command:");
                push_str(&mut v, c.as_str());
                string_of(&v)
            },
        }
    }
}

#[derive(Clone, Copy, Debug, PartialEq, Eq, Structural)]
pub enum PluginLifecycleState {
    Registered,
    Activating,
    Active,
    Failed,
    Disabled,
    Cancelled,
}

/// What the host knows of one plugin's activations.
#[derive(Clone, Debug, PartialEq, Eq)]
pub struct PluginRuntimeState {
    pub state: PluginLifecycleState,
    pub activation_count: u32,
    pub failed_attempts: u32,
    pub cancelled_attempts: u32,
    pub last_error: Option<String>,
    pub last_trigger: Option<PluginActivationEvent>,
    pub total_activation_ms: u128,
}

/// A runtime state with its texts taken as character sequences.
pub struct RuntimeStateModel {
    pub state: PluginLifecycleState,
    pub activation_count: u32,
    pub failed_attempts: u32,
    pub cancelled_attempts: u32,
    pub last_error: Option<Seq<char>>,
    pub last_trigger: Option<PluginActivationEvent>,
    pub total_activation_ms: u128,
}

pub open spec fn opt_view(o: Option<String>) -> Option<Seq<char>> {
    match o {
        Some(s) => Some(s@),
        None => None,
    }
}

impl View for PluginRuntimeState {
    type V = RuntimeStateModel;

    open spec fn view(&self) -> RuntimeStateModel {
        RuntimeStateModel {
            state: self.state,
            activation_count: self.activation_count,
            failed_attempts: self.failed_attempts,
            cancelled_attempts: self.cancelled_attempts,
            last_error: opt_view(self.last_error),
            last_trigger: self.last_trigger,
            total_activation_ms: self.total_activation_ms,
        }
    }
}

pub open spec fn default_runtime_model() -> RuntimeStateModel {
    RuntimeStateModel {
        state: PluginLifecycleState::Registered,
        activation_count: 0,
        failed_attempts: 0,
        cancelled_attempts: 0,
        last_error: None,
        last_trigger: None,
        total_activation_ms: 0,
    }
}

impl Default for PluginRuntimeState {
    fn default() -> (s: PluginRuntimeState)
        ensures
            s@ == default_runtime_model(),
    {
        PluginRuntimeState {
            state: PluginLifecycleState::Registered,
            activation_count: 0,
            failed_attempts: 0,
            cancelled_attempts: 0,
            last_error: None,
            last_trigger: None,
            total_activation_ms: 0,
        }
    }
}

/// What one activation attempt came to.
#[derive(Clone, Debug, PartialEq, Eq)]
pub struct PluginActivationOutcome {
    pub plugin_id: String,
    pub state: PluginLifecycleState,
    pub activated: bool,
    pub error: Option<String>,
    pub elapsed_ms: u128,
}

pub struct OutcomeModel {
    pub plugin_id: Seq<char>,
    pub state: PluginLifecycleState,
    pub activated: bool,
    pub error: Option<Seq<char>>,
    pub elapsed_ms: u128,
}

impl View for PluginActivationOutcome {
    type V = OutcomeModel;

    open spec fn view(&self) -> OutcomeModel {
        OutcomeModel {
            plugin_id: self.plugin_id@,
            state: self.state,
            activated: self.activated,
            error: opt_view(self.error),
            elapsed_ms: self.elapsed_ms,
        }
    }
}

/// What a plugin declares of itself.
#[derive(Clone, Debug, PartialEq, Eq)]
pub struct PluginManifest {
    pub id: String,
    pub display_name: String,
    pub version: String,
    pub capabilities: Vec<PluginCapability>,
    pub command_allowlist: Vec<CommandId>,
    pub activation_events: Vec<PluginActivationEvent>,
}

fn copy_vec<T: Copy>(v: &Vec<T>) -> (r: Vec<T>)
    ensures
        r@ == v@,
{
    let mut r: Vec<T> = Vec::new();
    let mut i: usize = 0;
    while i < v.len()
        invariant
            i <= v.len(),
            r@ == v@.take(i as int),
        decreases v.len() - i,
    {
        r.push(v[i]);
        assert(v@.take(i + 1) =~= v@.take(i as int).push(v@[i as int]));
        i += 1;
    }
    assert(v@.take(v.len() as int) =~= v@);
    r
}

/// The manifest's texts and lists, taken as values.
pub open spec fn same_manifest(a: PluginManifest, b: PluginManifest) -> bool {
    a.id@ == b.id@ && a.display_name@ == b.display_name@ && a.version@ == b.version@
        && a.capabilities@ == b.capabilities@ && a.command_allowlist@ == b.command_allowlist@
        && a.activation_events@ == b.activation_events@
}

impl PluginManifest {
    /// A copy of the manifest.
    pub fn duplicate(&self) -> (r: PluginManifest)
        ensures
            same_manifest(r, *self),
    {
        PluginManifest {
            id: self.id.clone(),
            display_name: self.display_name.clone(),
            version: self.version.clone(),
            capabilities: copy_vec(&self.capabilities),
            command_allowlist: copy_vec(&self.command_allowlist),
            activation_events: copy_vec(&self.activation_events),
        }
    }
}

/// A plugin as the host sees it: through its manifest.
pub trait Plugin {
    fn manifest(&self) -> &PluginManifest;
}

/// What the host allows plugins.
#[derive(Clone, Copy, Debug, PartialEq, Eq, Structural)]
pub struct PluginPolicy {
    pub allow_network: bool,
    pub max_failed_activations: u32,
    pub activation_timeout_ms: u64,
}

pub open spec fn default_policy() -> PluginPolicy {
    PluginPolicy { allow_network: false, max_failed_activations: 3, activation_timeout_ms: 2000 }
}

impl Default for PluginPolicy {
    fn default() -> (p: PluginPolicy)
        ensures
            p == default_policy(),
    {
        PluginPolicy { allow_network: false, max_failed_activations: 3, activation_timeout_ms: 2000 }
    }
}

#[derive(Clone, Copy, Debug, PartialEq, Eq, Structural)]
pub struct RuntimeActivationSpec {
    pub timeout_ms: u64,
}

#[derive(Clone, Copy, Debug, PartialEq, Eq, Structural)]
pub enum RuntimeErrorCode {
    InvalidConfig,
    SpawnFailed,
    TransportIo,
    HandshakeRejected,
    ProtocolMismatch,
    CapabilityViolation,
    ProtocolViolation,
    ActivationRejected,
}

pub open spec fn error_code_tag(c: RuntimeErrorCode) -> Seq<char> {
    match c {
        RuntimeErrorCode::InvalidConfig => "invalid_config"@,
        RuntimeErrorCode::SpawnFailed => "spawn_failed"@,
        RuntimeErrorCode::TransportIo => "transport_io"@,
        RuntimeErrorCode::HandshakeRejected => "handshake_rejected"@,
        RuntimeErrorCode::ProtocolMismatch => "protocol_mismatch"@,
        RuntimeErrorCode::CapabilityViolation => "capability_violation"@,
        RuntimeErrorCode::ProtocolViolation => "protocol_violation"@,
        RuntimeErrorCode::ActivationRejected => "activation_rejected"@,
    }
}

impl RuntimeErrorCode {
    pub fn as_tag(self) -> (s: &'static str)
        ensures
            s@ == error_code_tag(self),
    {
        match self {
            RuntimeErrorCode::InvalidConfig => "invalid_config",
            RuntimeErrorCode::SpawnFailed => "spawn_failed",
            RuntimeErrorCode::TransportIo => "transport_io",
            RuntimeErrorCode::HandshakeRejected => "handshake_rejected",
            RuntimeErrorCode::ProtocolMismatch => "protocol_mismatch",
            RuntimeErrorCode::CapabilityViolation => "capability_violation",
            RuntimeErrorCode::ProtocolViolation => "protocol_violation",
            RuntimeErrorCode::ActivationRejected => "activation_rejected",
        }
    }
}

/// A runtime failure: its kind and a description.
#[derive(Clone, Debug, PartialEq, Eq)]
pub struct RuntimeError {
    pub code: RuntimeErrorCode,
    pub detail: String,
}

/// How a runtime failure reads: `<tag>: <detail>`.
pub open spec fn error_text(e: RuntimeError) -> Seq<char> {
    error_code_tag(e.code) + ": "@ + e.detail@
}

impl RuntimeError {
    pub fn new(code: RuntimeErrorCode, detail: &str) -> (e: RuntimeError)
        ensures
            e.code == code,
            e.detail@ == detail@,
    {
        RuntimeError { code, detail: owned(detail) }
    }

    pub fn to_string(&self) -> (s: String)
        ensures
            s@ == error_text(*self),
    {
        let mut v = chars_of(self.code.as_tag());
        push_str(&mut v, ": ");
        push_str(&mut v, self.detail.as_str());
        string_of(&v)
    }
}

#[derive(Clone, Debug, PartialEq, Eq)]
pub enum RuntimeStatus {
    Ready,
    Failed(RuntimeError),
    Cancelled,
}

/// A failed status of kind `code`.
pub fn runtime_failed(code: RuntimeErrorCode, detail: &str) -> (s: RuntimeStatus)
    ensures
        s matches RuntimeStatus::Failed(e) && e.code == code && e.detail@ == detail@,
{
    RuntimeStatus::Failed(RuntimeError::new(code, detail))
}

#[derive(Clone, Debug, PartialEq, Eq)]
pub struct RuntimeActivationResult {
    pub status: RuntimeStatus,
    pub elapsed_ms: u128,
}

#[derive(Clone, Debug, PartialEq, Eq)]
pub struct RuntimeSessionSnapshot {
    pub session_key: String,
    pub idle_ms: u128,
}

/// Counters of what a process runtime has done.
#[derive(Clone, Debug, PartialEq, Eq)]
pub struct RuntimeTelemetrySnapshot {
    pub spawn_count: u64,
    pub handshake_count: u64,
    pub activation_request_count: u64,
    pub reused_session_count: u64,
    pub session_ping_failure_count: u64,
    pub evicted_by_limit_count: u64,
    pub evicted_by_idle_ttl_count: u64,
}

impl Default for RuntimeTelemetrySnapshot {
    fn default() -> (t: RuntimeTelemetrySnapshot)
        ensures
            t.spawn_count == 0 && t.handshake_count == 0 && t.activation_request_count == 0
                && t.reused_session_count == 0 && t.session_ping_failure_count == 0
                && t.evicted_by_limit_count == 0 && t.evicted_by_idle_ttl_count == 0,
    {
        RuntimeTelemetrySnapshot {
            spawn_count: 0,
            handshake_count: 0,
            activation_request_count: 0,
            reused_session_count: 0,
            session_ping_failure_count: 0,
            evicted_by_limit_count: 0,
            evicted_by_idle_ttl_count: 0,
        }
    }
}

/// Something that can activate a plugin; implementations decide how.
pub trait PluginRuntime: Sized {
    /// The answers this runtime may give to an activation of `manifest` for `trigger` under
    /// `spec`, where `raisable` tells whether the cancellation token can be raised: any
    /// answer, unless the runtime says more.
    open spec fn may_answer(
        &self,
        manifest: PluginManifest,
        trigger: PluginActivationEvent,
        spec: RuntimeActivationSpec,
        raisable: bool,
        r: RuntimeActivationResult,
    ) -> bool {
        true
    }

    /// Whether an activation leaves the runtime answering as before (a runtime that does
    /// not say so promises nothing of its later answers).
    open spec fn answers_stay() -> bool {
        false
    }

    fn activate(
        &mut self,
        manifest: &PluginManifest,
        trigger: &PluginActivationEvent,
        spec: RuntimeActivationSpec,
        cancellation: &ActivationCancellation,
    ) -> (r: RuntimeActivationResult)
        ensures
            old(self).may_answer(*manifest, *trigger, spec, cancellation.raisable(), r),
            Self::answers_stay() ==> forall|m: PluginManifest, t: PluginActivationEvent, s: RuntimeActivationSpec, ra: bool, x: RuntimeActivationResult|
                #[trigger] final(self).may_answer(m, t, s, ra, x) == old(self).may_answer(m, t, s, ra, x),
    ;
}

/// Two runtimes that may give the same answers to every activation.
pub open spec fn same_answers<R: PluginRuntime>(a: R, b: R) -> bool {
    forall|m: PluginManifest, t: PluginActivationEvent, s: RuntimeActivationSpec, ra: bool, r: RuntimeActivationResult|
        #[trigger] a.may_answer(m, t, s, ra, r) == b.may_answer(m, t, s, ra, r)
}

/// Activation inside the host process: ready at once unless cancelled.
pub struct InProcessRuntime;

impl PluginRuntime for InProcessRuntime {
    /// Ready at once, or cancelled at once where the token can be raised.
    open spec fn may_answer(
        &self,
        manifest: PluginManifest,
        trigger: PluginActivationEvent,
        spec: RuntimeActivationSpec,
        raisable: bool,
        r: RuntimeActivationResult,
    ) -> bool {
        r.elapsed_ms == 0 && (r.status is Ready || (raisable && r.status is Cancelled))
    }

    open spec fn answers_stay() -> bool {
        true
    }

    fn activate(
        &mut self,
        manifest: &PluginManifest,
        trigger: &PluginActivationEvent,
        spec: RuntimeActivationSpec,
        cancellation: &ActivationCancellation,
    ) -> RuntimeActivationResult {
        if cancellation.is_cancelled() {
            return RuntimeActivationResult { status: RuntimeStatus::Cancelled, elapsed_ms: 0 };
        }
        RuntimeActivationResult { status: RuntimeStatus::Ready, elapsed_ms: 0 }
    }
}

#[derive(Clone, Copy, Debug, PartialEq, Eq, Structural)]
pub enum PluginRuntimeMode {
    InProcess,
    Process,
}

impl PluginRuntimeMode {
    pub fn as_tag(self) -> (s: &'static str)
        ensures
            s@ == (match self {
                PluginRuntimeMode::InProcess => "in_process"@,
                PluginRuntimeMode::Process => "process"@,
            }),
    {
        match self {
            PluginRuntimeMode::InProcess => "in_process",
            PluginRuntimeMode::Process => "process",
        }
    }

    /// `process` in any ASCII case, surrounding whitespace aside, selects the process
    /// runtime; anything else the in-process one.
    pub fn from_tag(input: &str) -> (m: PluginRuntimeMode)
        ensures
            m == (if lower_seq(trim(input@)) == "process"@ {
                PluginRuntimeMode::Process
            } else {
                PluginRuntimeMode::InProcess
            }),
    {
        let t = trimmed(input);
        let l = lower_ascii(&t);
        if eq_str(&l, "process") {
            PluginRuntimeMode::Process
        } else {
            PluginRuntimeMode::InProcess
        }
    }
}

// ---------------------------------------------------------------------------
// Process runtime configuration
// ---------------------------------------------------------------------------
/// How to start and talk to a plugin worker process.
#[derive(Clone, Debug, PartialEq, Eq)]
pub struct ProcessRuntimeConfig {
    pub command: String,
    pub args: Vec<String>,
    pub extra_env: HashMap<String, String>,
    pub watchdog_interval_ms: u64,
    pub protocol_version: u32,
    pub supported_protocol_versions: Vec<u32>,
    pub keep_alive_session: bool,
    pub session_ping_timeout_ms: u64,
    pub max_keep_alive_sessions: usize,
    pub session_idle_ttl_ms: u64,
}

/// The settings a configuration starts with, whatever its command and arguments.
pub open spec fn has_default_settings(c: ProcessRuntimeConfig) -> bool {
    c.extra_env@ == Map::<String, String>::empty() && c.watchdog_interval_ms == 10
        && c.protocol_version == 1 && c.supported_protocol_versions@ == seq![1u32]
        && !c.keep_alive_session && c.session_ping_timeout_ms == 150
        && c.max_keep_alive_sessions == 8 && c.session_idle_ttl_ms == 60_000
}

pub open spec fn strictly_desc(s: Seq<u32>) -> bool {
    forall|i: int, j: int| 0 <= i < j < s.len() ==> #[trigger] s[i] > #[trigger] s[j]
}

/// The protocol versions a configuration accepts: the positive supported ones and its own.
pub open spec fn accepted_version(c: ProcessRuntimeConfig, v: u32) -> bool {
    (c.supported_protocol_versions@.contains(v) && v > 0) || v == c.protocol_version
}

fn insert_desc(v: &mut Vec<u32>, x: u32)
    requires
        strictly_desc(old(v)@),
    ensures
        strictly_desc(final(v)@),
        forall|y: u32| final(v)@.contains(y) <==> (old(v)@.contains(y) || y == x),
{
    let mut p: usize = 0;
    while p < v.len() && v[p] > x
        invariant
            p <= v.len(),
            v@ == old(v)@,
            forall|k: int| 0 <= k < p ==> v@[k] > x,
        decreases v.len() - p,
    {
        p += 1;
    }
    if p < v.len() && v[p] == x {
        assert(v@[p as int] == x);
        return;
    }
    let ghost old_v = v@;
    v.insert(p, x);
    proof {
        assert(v@ =~= old_v.insert(p as int, x));
        assert forall|i: int, j: int| 0 <= i < j < v@.len() implies #[trigger] v@[i] > #[trigger] v@[j] by {
            if j < p {
                assert(v@[i] == old_v[i] && v@[j] == old_v[j]);
            } else if j == p {
                assert(v@[i] == old_v[i]);
            } else if i == p {
                assert(v@[j] == old_v[j - 1]);
                assert(old_v[p as int] <= x);
                if j - 1 > p {
                    assert(old_v[p as int] > old_v[j - 1]);
                }
            } else if i < p {
                assert(v@[i] == old_v[i] && v@[j] == old_v[j - 1]);
            } else {
                assert(v@[i] == old_v[i - 1] && v@[j] == old_v[j - 1]);
            }
        }
        assert forall|y: u32| v@.contains(y) <==> (old_v.contains(y) || y == x) by {
            if old_v.contains(y) {
                let i = choose|i: int| 0 <= i < old_v.len() && old_v[i] == y;
                if i < p {
                    assert(v@[i] == y);
                } else {
                    assert(v@[i + 1] == y);
                }
            }
            if y == x {
                assert(v@[p as int] == y);
            }
            if v@.contains(y) {
                let i = choose|i: int| 0 <= i < v@.len() && v@[i] == y;
                if i < p {
                    assert(old_v[i] == y);
                } else if i > p {
                    assert(old_v[i - 1] == y);
                }
            }
        }
    }
}

fn contains_u32(v: &Vec<u32>, x: u32) -> (b: bool)
    ensures
        b == v@.contains(x),
{
    let mut i: usize = 0;
    while i < v.len()
        invariant
            i <= v.len(),
            forall|k: int| 0 <= k < i ==> v@[k] != x,
        decreases v.len() - i,
    {
        if v[i] == x {
            assert(v@[i as int] == x);
            return true;
        }
        i += 1;
    }
    false
}

impl ProcessRuntimeConfig {
    /// A configuration that runs `command` with `args`, with default settings otherwise.
    pub fn new(command: &str, args: Vec<String>) -> (c: ProcessRuntimeConfig)
        ensures
            c.command@ == command@,
            c.args@ == args@,
            has_default_settings(c),
    {
        let mut supported: Vec<u32> = Vec::new();
        supported.push(PLUGIN_PROTOCOL_VERSION);
        ProcessRuntimeConfig {
            command: owned(command),
            args,
            extra_env: HashMap::new(),
            watchdog_interval_ms: 10,
            protocol_version: PLUGIN_PROTOCOL_VERSION,
            supported_protocol_versions: supported,
            keep_alive_session: false,
            session_ping_timeout_ms: 150,
            max_keep_alive_sessions: 8,
            session_idle_ttl_ms: 60_000,
        }
    }

    /// The default configuration: the worker named by `override_bin` when it is set and not
    /// blank, else `worker_binary`; no arguments.
    pub fn for_worker(worker_binary: &str, override_bin: Option<&str>) -> (c: ProcessRuntimeConfig)
        ensures
            c.command@ == (match override_bin {
                Some(b) => if trim(b@).len() > 0 {
                    b@
                } else {
                    worker_binary@
                },
                None => worker_binary@,
            }),
            c.args@.len() == 0,
            has_default_settings(c),
    {
        let command = match override_bin {
            Some(b) => if !is_blank(b) {
                b
            } else {
                worker_binary
            },
            None => worker_binary,
        };
        ProcessRuntimeConfig::new(command, Vec::new())
    }

    pub fn normalized_watchdog_interval_ms(&self) -> (ms: u64)
        ensures
            ms == if self.watchdog_interval_ms >= 1 {
                self.watchdog_interval_ms
            } else {
                1
            },
    {
        if self.watchdog_interval_ms >= 1 {
            self.watchdog_interval_ms
        } else {
            1
        }
    }

    /// The accepted protocol versions, highest first, each once.
    pub fn normalized_supported_protocol_versions(&self) -> (r: Vec<u32>)
        ensures
            strictly_desc(r@),
            forall|v: u32| r@.contains(v) <==> accepted_version(*self, v),
    {
        let mut r: Vec<u32> = Vec::new();
        let mut i: usize = 0;
        let src = &self.supported_protocol_versions;
        while i < src.len()
            invariant
                i <= src.len(),
                src == &self.supported_protocol_versions,
                strictly_desc(r@),
                forall|v: u32| r@.contains(v) <==> (src@.take(i as int).contains(v) && v > 0),
            decreases src.len() - i,
        {
            let x = src[i];
            let ghost before = r@;
            if x > 0 {
                insert_desc(&mut r, x);
            }
            proof {
                assert(src@.take(i + 1) =~= src@.take(i as int).push(x));
                assert forall|v: u32| r@.contains(v) <==> (src@.take(i + 1).contains(v) && v > 0) by {
                    if src@.take(i + 1).contains(v) && v > 0 && v != x {
                        let k = choose|k: int| 0 <= k < i + 1 && #[trigger] src@.take(i + 1)[k] == v;
                        assert(src@.take(i as int)[k] == v);
                    }
                    if src@.take(i as int).contains(v) {
                        let k = choose|k: int| 0 <= k < i && #[trigger] src@.take(i as int)[k] == v;
                        assert(src@.take(i + 1)[k] == v);
                    }
                    if v == x {
                        assert(src@.take(i + 1)[i as int] == v);
                    }
                }
            }
            i += 1;
        }
        assert(src@.take(src.len() as int) =~= src@);
        insert_desc(&mut r, self.protocol_version);
        r
    }

    /// The version to speak with a runtime that announces `runtime_version`, when accepted.
    pub fn negotiate_protocol(&self, runtime_version: u32) -> (r: Option<u32>)
        ensures
            r == (if runtime_version != 0 && accepted_version(*self, runtime_version) {
                Some(runtime_version)
            } else {
                None
            }),
    {
        if runtime_version == 0 {
            return None;
        }
        let versions = self.normalized_supported_protocol_versions();
        if contains_u32(&versions, runtime_version) {
            Some(runtime_version)
        } else {
            None
        }
    }

    pub fn normalized_session_ping_timeout_ms(&self) -> (ms: u64)
        ensures
            ms == if self.session_ping_timeout_ms >= 10 {
                self.session_ping_timeout_ms
            } else {
                10
            },
    {
        if self.session_ping_timeout_ms >= 10 {
            self.session_ping_timeout_ms
        } else {
            10
        }
    }

    pub fn normalized_max_keep_alive_sessions(&self) -> (n: usize)
        ensures
            n == if self.max_keep_alive_sessions >= 1 {
                self.max_keep_alive_sessions
            } else {
                1
            },
    {
        if self.max_keep_alive_sessions >= 1 {
            self.max_keep_alive_sessions
        } else {
            1
        }
    }

    pub fn normalized_session_idle_ttl_ms(&self) -> (ms: u64)
        ensures
            ms == if self.session_idle_ttl_ms >= 100 {
                self.session_idle_ttl_ms
            } else {
                100
            },
    {
        if self.session_idle_ttl_ms >= 100 {
            self.session_idle_ttl_ms
        } else {
            100
        }
    }
}

// ---------------------------------------------------------------------------
// Worker sessions
// ---------------------------------------------------------------------------
/// The tags of the capabilities present, in the order of their tags.
pub open spec fn present_tags(caps: Seq<PluginCapability>) -> Seq<Seq<char>> {
    (if caps.contains(PluginCapability::Commands) { seq!["commands"@] } else { Seq::empty() })
        + (if caps.contains(PluginCapability::Network) { seq!["network"@] } else { Seq::empty() })
        + (if caps.contains(PluginCapability::ReadVault) { seq!["read_vault"@] } else { Seq::empty() })
        + (if caps.contains(PluginCapability::WriteVault) { seq!["write_vault"@] } else { Seq::empty() })
}

/// The items joined with `,` between them.
pub open spec fn join_comma(items: Seq<Seq<char>>) -> Seq<char>
    decreases items.len(),
{
    if items.len() == 0 {
        Seq::empty()
    } else if items.len() == 1 {
        items[0]
    } else {
        join_comma(items.drop_last()) + ","@ + items.last()
    }
}

/// The key under which a worker session for a plugin can be reused:
/// `<id>:<version>:<capability tags, sorted, comma-separated>`.
pub open spec fn session_key_of(m: PluginManifest) -> Seq<char> {
    m.id@ + ":"@ + m.version@ + ":"@ + join_comma(present_tags(m.capabilities@))
}

fn contains_capability(v: &Vec<PluginCapability>, c: PluginCapability) -> (b: bool)
    ensures
        b == v@.contains(c),
{
    let mut i: usize = 0;
    while i < v.len()
        invariant
            i <= v.len(),
            forall|k: int| 0 <= k < i ==> v@[k] != c,
        decreases v.len() - i,
    {
        if v[i] == c {
            assert(v@[i as int] == c);
            return true;
        }
        i += 1;
    }
    false
}

fn push_item(out: &mut Vec<char>, items: Ghost<Seq<Seq<char>>>, first: bool, item: &str)
    requires
        old(out)@ == join_comma(items@),
        first == (items@.len() == 0),
    ensures
        final(out)@ == join_comma(items@.push(item@)),
{
    proof {
        assert(items@.push(item@).drop_last() =~= items@);
    }
    if !first {
        out.push(',');
    }
    push_str(out, item);
    proof {
        reveal_strlit(",");
        if first {
            assert(out@ =~= join_comma(items@.push(item@)));
        } else {
            assert(out@ =~= join_comma(items@) + ","@ + item@);
        }
    }
}

pub fn session_key(manifest: &PluginManifest) -> (k: String)
    ensures
        k@ == session_key_of(*manifest),
{
    let caps = &manifest.capabilities;
    let mut tags: Vec<char> = Vec::new();
    let ghost mut items: Seq<Seq<char>> = Seq::empty();
    let mut n: usize = 0;
    let ghost c0 = if caps@.contains(PluginCapability::Commands) { seq!["commands"@] } else { Seq::<Seq<char>>::empty() };
    let ghost c1 = if caps@.contains(PluginCapability::Network) { seq!["network"@] } else { Seq::<Seq<char>>::empty() };
    let ghost c2 = if caps@.contains(PluginCapability::ReadVault) { seq!["read_vault"@] } else { Seq::<Seq<char>>::empty() };
    let ghost c3 = if caps@.contains(PluginCapability::WriteVault) { seq!["write_vault"@] } else { Seq::<Seq<char>>::empty() };
    assert(tags@ =~= join_comma(items));
    if contains_capability(caps, PluginCapability::Commands) {
        push_item(&mut tags, Ghost(items), n == 0, "commands");
        proof { items = items.push("commands"@); }
        n = 1;
    }
    assert(items =~= c0);
    if contains_capability(caps, PluginCapability::Network) {
        push_item(&mut tags, Ghost(items), n == 0, "network");
        proof { items = items.push("network"@); }
        n = n + 1;
    }
    assert(items =~= c0 + c1);
    if contains_capability(caps, PluginCapability::ReadVault) {
        push_item(&mut tags, Ghost(items), n == 0, "read_vault");
        proof { items = items.push("read_vault"@); }
        n = n + 1;
    }
    assert(items =~= c0 + c1 + c2);
    if contains_capability(caps, PluginCapability::WriteVault) {
        push_item(&mut tags, Ghost(items), n == 0, "write_vault");
        proof { items = items.push("write_vault"@); }
    }
    assert(items =~= present_tags(caps@));
    let mut out = chars_of(manifest.id.as_str());
    out.push(':');
    push_str(&mut out, manifest.version.as_str());
    out.push(':');
    push_all(&mut out, &tags);
    proof {
        reveal_strlit(":");
    }
    assert(out@ =~= session_key_of(*manifest));
    string_of(&out)
}

/// Whether a kept-alive worker session should be dropped after an activation with `status`:
/// after anything but success or a plain refusal by the plugin.
pub fn should_reset_session(status: &RuntimeStatus) -> (b: bool)
    ensures
        b == (match status {
            RuntimeStatus::Ready => false,
            RuntimeStatus::Cancelled => true,
            RuntimeStatus::Failed(e) => e.code != RuntimeErrorCode::ActivationRejected,
        }),
{
    match status {
        RuntimeStatus::Ready => false,
        RuntimeStatus::Cancelled => true,
        RuntimeStatus::Failed(e) => e.code != RuntimeErrorCode::ActivationRejected,
    }
}

/// The identifier of a request: `<prefix>:<plugin id>:<sequence number>`.
pub fn request_id(prefix: &str, plugin_id: &str, sequence: u64) -> (r: String)
    ensures
        r@ == prefix@ + ":"@ + plugin_id@ + ":"@ + decimal(sequence as nat),
{
    let mut out = chars_of(prefix);
    out.push(':');
    push_str(&mut out, plugin_id);
    out.push(':');
    let d = decimal_chars(sequence as u128);
    push_all(&mut out, &d);
    proof {
        reveal_strlit(":");
    }
    assert(out@ =~= prefix@ + ":"@ + plugin_id@ + ":"@ + decimal(sequence as nat));
    string_of(&out)
}

/// The status that an activation result message reports.
pub fn activation_result_status(ok: bool, error: Option<String>) -> (s: RuntimeStatus)
    ensures
        ok ==> s == RuntimeStatus::Ready,
        !ok ==> (s matches RuntimeStatus::Failed(e) && e.code == RuntimeErrorCode::ActivationRejected
            && e.detail@ == (match error {
                Some(t) => t@,
                None => "runtime activation failed"@,
            })),
{
    if ok {
        RuntimeStatus::Ready
    } else {
        match error {
            Some(t) => RuntimeStatus::Failed(RuntimeError { code: RuntimeErrorCode::ActivationRejected, detail: t }),
            None => runtime_failed(RuntimeErrorCode::ActivationRejected, "runtime activation failed"),
        }
    }
}

// ---------------------------------------------------------------------------
// Manifest validation
// ---------------------------------------------------------------------------
/// The first complaint about the command events of a manifest, scanning `events` in order.
pub open spec fn command_event_error(m: PluginManifest, events: Seq<PluginActivationEvent>) -> Option<
    Seq<char>,
>
    decreases events.len(),
{
    if events.len() == 0 {
        None
    } else {
        match events[0] {
            PluginActivationEvent::OnCommand(c) => if !m.capabilities@.contains(
                PluginCapability::Commands,
            ) {
                Some("OnCommand activation requires Commands capability"@)
            } else if m.command_allowlist@.len() > 0 && !m.command_allowlist@.contains(c) {
                Some("OnCommand activation must be included in command allowlist"@)
            } else {
                command_event_error(m, events.drop_first())
            },
            _ => command_event_error(m, events.drop_first()),
        }
    }
}

/// Why a manifest is refused under `policy`, if it is.
pub open spec fn manifest_error(m: PluginManifest, policy: PluginPolicy) -> Option<Seq<char>> {
    if trim(m.id@).len() == 0 {
        Some("plugin id is required"@)
    } else if trim(m.display_name@).len() == 0 {
        Some("plugin display name is required"@)
    } else if trim(m.version@).len() == 0 {
        Some("plugin version is required"@)
    } else if m.activation_events@.len() == 0 {
        Some("plugin activation events are required"@)
    } else if !policy.allow_network && m.capabilities@.contains(PluginCapability::Network) {
        Some("network capability is blocked by policy"@)
    } else if m.command_allowlist@.len() > 0 && !m.capabilities@.contains(PluginCapability::Commands) {
        Some("command allowlist requires Commands capability"@)
    } else {
        command_event_error(m, m.activation_events@)
    }
}

fn contains_command(v: &Vec<CommandId>, c: CommandId) -> (b: bool)
    ensures
        b == v@.contains(c),
{
    let mut i: usize = 0;
    while i < v.len()
        invariant
            i <= v.len(),
            forall|k: int| 0 <= k < i ==> v@[k] != c,
        decreases v.len() - i,
    {
        if v[i] == c {
            assert(v@[i as int] == c);
            return true;
        }
        i += 1;
    }
    false
}

fn validate_manifest(manifest: &PluginManifest, policy: PluginPolicy) -> (r: Result<(), String>)
    ensures
        match manifest_error(*manifest, policy) {
            Some(msg) => r matches Err(e) && e@ == msg,
            None => r is Ok,
        },
{
    if is_blank(manifest.id.as_str()) {
        return Err(owned("plugin id is required"));
    }
    if is_blank(manifest.display_name.as_str()) {
        return Err(owned("plugin display name is required"));
    }
    if is_blank(manifest.version.as_str()) {
        return Err(owned("plugin version is required"));
    }
    if manifest.activation_events.len() == 0 {
        return Err(owned("plugin activation events are required"));
    }
    let has_commands = contains_capability(&manifest.capabilities, PluginCapability::Commands);
    if !policy.allow_network && contains_capability(&manifest.capabilities, PluginCapability::Network) {
        return Err(owned("network capability is blocked by policy"));
    }
    if manifest.command_allowlist.len() > 0 && !has_commands {
        return Err(owned("command allowlist requires Commands capability"));
    }
    let events = &manifest.activation_events;
    let mut i: usize = 0;
    assert(events@.skip(0) =~= events@);
    while i < events.len()
        invariant
            i <= events.len(),
            events == &manifest.activation_events,
            has_commands == manifest.capabilities@.contains(PluginCapability::Commands),
            manifest_error(*manifest, policy) == command_event_error(*manifest, events@),
            command_event_error(*manifest, events@) == command_event_error(*manifest, events@.skip(i as int)),
        decreases events.len() - i,
    {
        proof {
            assert(events@.skip(i as int)[0] == events@[i as int]);
            assert(events@.skip(i as int).drop_first() =~= events@.skip(i + 1));
        }
        match events[i] {
            PluginActivationEvent::OnCommand(c) => {
                if !has_commands {
                    return Err(owned("OnCommand activation requires Commands capability"));
                }
                if manifest.command_allowlist.len() > 0 && !contains_command(&manifest.command_allowlist, c) {
                    return Err(owned("OnCommand activation must be included in command allowlist"));
                }
            },
            _ => {},
        }
        i += 1;
    }
    Ok(())
}

// ---------------------------------------------------------------------------
// Host-side activation
// ---------------------------------------------------------------------------
/// How the host settles a runtime's answer: a missing duration is the one it measured, and
/// an activation that was cancelled meanwhile or took longer than allowed counts as cancelled.
pub open spec fn settled(r: RuntimeActivationResult, measured_ms: u128, cancelled: bool, spec: RuntimeActivationSpec) -> RuntimeActivationResult {
    let elapsed = if r.elapsed_ms == 0 {
        measured_ms
    } else {
        r.elapsed_ms
    };
    RuntimeActivationResult {
        status: if cancelled || elapsed > spec.timeout_ms as u128 {
            RuntimeStatus::Cancelled
        } else {
            r.status
        },
        elapsed_ms: elapsed,
    }
}

pub fn settle_activation(
    result: RuntimeActivationResult,
    measured_ms: u128,
    cancelled: bool,
    spec: RuntimeActivationSpec,
) -> (r: RuntimeActivationResult)
    ensures
        r == settled(result, measured_ms, cancelled, spec),
{
    let mut result = result;
    if result.elapsed_ms == 0 {
        result.elapsed_ms = measured_ms;
    }
    if cancelled || result.elapsed_ms > spec.timeout_ms as u128 {
        result.status = RuntimeStatus::Cancelled;
    }
    result
}

/// What the host boundary makes of an activation of `manifest` for `trigger` under `spec`
/// through `rt`: cancelled at once (only where the token can be raised), or an answer the
/// runtime may give, settled with the time measured and a second look at the token.
pub open spec fn host_answer<R: PluginRuntime>(
    rt: R,
    manifest: PluginManifest,
    trigger: PluginActivationEvent,
    spec: RuntimeActivationSpec,
    raisable: bool,
    r: RuntimeActivationResult,
) -> bool {
    ||| raisable && r == (RuntimeActivationResult { status: RuntimeStatus::Cancelled, elapsed_ms: 0 })
    ||| exists|a: RuntimeActivationResult, m: u128, c: bool|
        rt.may_answer(manifest, trigger, spec, raisable, a) && (c ==> raisable) && r == #[trigger] settled(a, m, c, spec)
}

/// Runs one activation on `runtime` at the host boundary: nothing is started once
/// cancelled, and whatever the runtime answers, an activation past the timeout is cancelled.
pub fn run_host_activation<R: PluginRuntime>(
    runtime: &mut R,
    manifest: &PluginManifest,
    trigger: &PluginActivationEvent,
    spec: RuntimeActivationSpec,
    cancellation: &ActivationCancellation,
) -> (r: RuntimeActivationResult)
    ensures
        r.status is Cancelled || r.elapsed_ms <= spec.timeout_ms as u128,
        host_answer::<R>(*old(runtime), *manifest, *trigger, spec, cancellation.raisable(), r),
        R::answers_stay() ==> same_answers(*final(runtime), *old(runtime)),
{
    let started_at = instant_now();
    if cancellation.is_cancelled() {
        return RuntimeActivationResult { status: RuntimeStatus::Cancelled, elapsed_ms: 0 };
    }
    let result = runtime.activate(manifest, trigger, spec, cancellation);
    let measured = if result.elapsed_ms == 0 {
        millis_since(&started_at)
    } else {
        0
    };
    let cancelled = cancellation.is_cancelled();
    let r = settle_activation(result, measured, cancelled, spec);
    assert(old(runtime).may_answer(*manifest, *trigger, spec, cancellation.raisable(), result) && (cancelled ==> cancellation.raisable()) && r
        == settled(result, measured, cancelled, spec));
    r
}

/// The time allowed for one activation under the default policy.
pub fn default_activation_timeout() -> (d: Duration)
    ensures
        d == millis_duration(default_policy().activation_timeout_ms),
{
    let policy = PluginPolicy::default();
    duration_from_millis(policy.activation_timeout_ms)
}

// ---------------------------------------------------------------------------
// The registry and the lifecycle of activation
// ---------------------------------------------------------------------------
/// A registered plugin: its manifest and what the host knows of its activations.
#[derive(Clone, Debug)]
pub struct PluginEntry {
    pub manifest: PluginManifest,
    pub runtime: PluginRuntimeState,
}

pub open spec fn entry_ids(es: Seq<PluginEntry>) -> Seq<Seq<char>> {
    es.map_values(|e: PluginEntry| e.manifest.id@)
}

/// The plugins the host knows, one per id, and the policy they run under.
pub struct PluginRegistry {
    entries: Vec<PluginEntry>,
    policy: PluginPolicy,
}

/// The failures after which a plugin is disabled (at least one).
pub open spec fn failure_limit(p: PluginPolicy) -> u32 {
    if p.max_failed_activations >= 1 {
        p.max_failed_activations
    } else {
        1
    }
}

/// The time allowed for one activation (at least 10 ms).
pub open spec fn activation_timeout_ms(p: PluginPolicy) -> u64 {
    if p.activation_timeout_ms >= 10 {
        p.activation_timeout_ms
    } else {
        10
    }
}

pub open spec fn sat_inc(a: u32) -> u32 {
    if a == u32::MAX {
        a
    } else {
        (a + 1) as u32
    }
}

pub open spec fn sat_add_ms(a: u128, b: u128) -> u128 {
    if a + b > u128::MAX {
        u128::MAX
    } else {
        (a + b) as u128
    }
}

pub open spec fn after_failures(p: PluginPolicy, failed: u32) -> PluginLifecycleState {
    if failed >= failure_limit(p) {
        PluginLifecycleState::Disabled
    } else {
        PluginLifecycleState::Failed
    }
}

pub open spec fn policy_block_message() -> Seq<char> {
    "capability blocked by host policy: "@ + capability_tag(PluginCapability::Network)
}

pub open spec fn cancel_message(p: PluginPolicy) -> Seq<char> {
    "activation cancelled/timeout (>"@ + decimal(activation_timeout_ms(p) as nat) + "ms)"@
}

/// The plugin needs a capability that the policy withholds (only the network can be).
pub open spec fn blocked_by_policy(m: PluginManifest, p: PluginPolicy) -> bool {
    !p.allow_network && m.capabilities@.contains(PluginCapability::Network)
}

/// The plugin asked to be woken by `event`.
pub open spec fn answers(m: PluginManifest, event: PluginActivationEvent) -> bool {
    m.activation_events@.contains(event)
}

/// What the host decides without asking the runtime: a blocked capability counts as a
/// failure; an active plugin stays as it is; a plugin at its failure limit is disabled.
/// `None`: the runtime is asked.
pub open spec fn decided_by_host(
    p: PluginPolicy,
    m: PluginManifest,
    s: RuntimeStateModel,
) -> Option<(RuntimeStateModel, OutcomeModel)> {
    if blocked_by_policy(m, p) {
        let f = sat_inc(s.failed_attempts);
        let st = after_failures(p, f);
        Some(
            (
                RuntimeStateModel { failed_attempts: f, last_error: Some(policy_block_message()), state: st, ..s },
                OutcomeModel { plugin_id: m.id@, state: st, activated: false, error: Some(policy_block_message()), elapsed_ms: 0 },
            ),
        )
    } else if s.state == PluginLifecycleState::Active {
        Some(
            (
                s,
                OutcomeModel { plugin_id: m.id@, state: PluginLifecycleState::Active, activated: false, error: None, elapsed_ms: 0 },
            ),
        )
    } else if s.failed_attempts >= failure_limit(p) {
        Some(
            (
                RuntimeStateModel { state: PluginLifecycleState::Disabled, ..s },
                OutcomeModel { plugin_id: m.id@, state: PluginLifecycleState::Disabled, activated: false, error: s.last_error, elapsed_ms: 0 },
            ),
        )
    } else {
        None
    }
}

/// The state and outcome after the runtime answered `r` to a trigger `event`.
pub open spec fn after_activation(
    p: PluginPolicy,
    m: PluginManifest,
    event: PluginActivationEvent,
    s: RuntimeStateModel,
    r: RuntimeActivationResult,
) -> (RuntimeStateModel, OutcomeModel) {
    let total = sat_add_ms(s.total_activation_ms, r.elapsed_ms);
    match r.status {
        RuntimeStatus::Ready => (
            RuntimeStateModel {
                state: PluginLifecycleState::Active,
                activation_count: sat_inc(s.activation_count),
                failed_attempts: 0,
                last_error: None,
                last_trigger: Some(event),
                total_activation_ms: total,
                ..s
            },
            OutcomeModel { plugin_id: m.id@, state: PluginLifecycleState::Active, activated: true, error: None, elapsed_ms: r.elapsed_ms },
        ),
        RuntimeStatus::Failed(e) => {
            let f = sat_inc(s.failed_attempts);
            let st = after_failures(p, f);
            (
                RuntimeStateModel {
                    state: st,
                    failed_attempts: f,
                    last_error: Some(error_text(e)),
                    last_trigger: Some(event),
                    total_activation_ms: total,
                    ..s
                },
                OutcomeModel { plugin_id: m.id@, state: st, activated: false, error: Some(error_text(e)), elapsed_ms: r.elapsed_ms },
            )
        },
        RuntimeStatus::Cancelled => (
            RuntimeStateModel {
                state: PluginLifecycleState::Cancelled,
                cancelled_attempts: sat_inc(s.cancelled_attempts),
                last_error: Some(cancel_message(p)),
                last_trigger: Some(event),
                total_activation_ms: total,
                ..s
            },
            OutcomeModel { plugin_id: m.id@, state: PluginLifecycleState::Cancelled, activated: false, error: Some(cancel_message(p)), elapsed_ms: r.elapsed_ms },
        ),
    }
}

/// One triggered plugin: decided by the host, or by some answer of the runtime that the
/// host boundary let through (cancelled, or within the timeout).
pub open spec fn plugin_step(
    p: PluginPolicy,
    event: PluginActivationEvent,
    old: PluginEntry,
    new: PluginEntry,
    o: OutcomeModel,
    ok: spec_fn(PluginManifest, RuntimeActivationResult) -> bool,
) -> bool {
    new.manifest == old.manifest && match decided_by_host(p, old.manifest, old.runtime@) {
        Some((s, oc)) => new.runtime@ == s && o == oc,
        None => exists|r: RuntimeActivationResult|
            ok(old.manifest, r) && (r.status is Cancelled || r.elapsed_ms <= activation_timeout_ms(p) as u128) && (new.runtime@, o)
                == #[trigger] after_activation(p, old.manifest, event, old.runtime@, r),
    }
}

/// The activation spec the host hands a runtime under policy `p`.
pub open spec fn spec_for(p: PluginPolicy) -> RuntimeActivationSpec {
    RuntimeActivationSpec { timeout_ms: activation_timeout_ms(p) }
}

/// A trigger of `event` over the registry, plugin by plugin in id order: the plugins that
/// answer it take a step and yield an outcome each, the activations answering as `ok`
/// allows; the others stay as they are.
pub open spec fn triggered(
    p: PluginPolicy,
    event: PluginActivationEvent,
    old: Seq<PluginEntry>,
    new: Seq<PluginEntry>,
    outs: Seq<OutcomeModel>,
    ok: spec_fn(PluginManifest, RuntimeActivationResult) -> bool,
) -> bool
    decreases old.len(),
{
    if old.len() == 0 {
        new.len() == 0 && outs.len() == 0
    } else if new.len() != old.len() {
        false
    } else if answers(old.last().manifest, event) {
        outs.len() > 0 && plugin_step(p, event, old.last(), new.last(), outs.last(), ok) && triggered(
            p,
            event,
            old.drop_last(),
            new.drop_last(),
            outs.drop_last(),
            ok,
        )
    } else {
        new.last() == old.last() && triggered(p, event, old.drop_last(), new.drop_last(), outs, ok)
    }
}

pub open spec fn outcome_views(v: Seq<PluginActivationOutcome>) -> Seq<OutcomeModel> {
    v.map_values(|o: PluginActivationOutcome| o@)
}

/// The effect of registering `m`: a refusal changes nothing; otherwise the manifest takes the
/// place of the one with its id, keeping what is known of its activations, or is added with
/// a fresh state.
pub open spec fn registration(
    p: PluginPolicy,
    old: Seq<PluginEntry>,
    new: Seq<PluginEntry>,
    r: Result<(), String>,
    m: PluginManifest,
) -> bool {
    match manifest_error(m, p) {
        Some(msg) => (r matches Err(e) && e@ == msg) && new == old,
        None => r is Ok && if exists|i: int| 0 <= i < old.len() && #[trigger] old[i].manifest.id@ == m.id@ {
            exists|i: int|
                0 <= i < old.len() && #[trigger] old[i].manifest.id@ == m.id@ && new == old.update(
                    i,
                    PluginEntry { manifest: m, runtime: old[i].runtime },
                )
        } else {
            exists|i: int, rt: PluginRuntimeState|
                0 <= i <= old.len() && rt@ == default_runtime_model() && new == old.insert(
                    i,
                    PluginEntry { manifest: m, runtime: rt },
                )
        },
    }
}

pub open spec fn count_active(es: Seq<PluginEntry>) -> nat
    decreases es.len(),
{
    if es.len() == 0 {
        0
    } else {
        count_active(es.drop_last()) + if es.last().runtime.state == PluginLifecycleState::Active {
            1nat
        } else {
            0nat
        }
    }
}

fn clone_opt_string(o: &Option<String>) -> (r: Option<String>)
    ensures
        r == *o,
{
    match o {
        Some(s) => Some(s.clone()),
        None => None,
    }
}

fn answers_event(events: &Vec<PluginActivationEvent>, event: &PluginActivationEvent) -> (b: bool)
    ensures
        b == events@.contains(*event),
{
    let mut i: usize = 0;
    while i < events.len()
        invariant
            i <= events.len(),
            forall|k: int| 0 <= k < i ==> events@[k] != *event,
        decreases events.len() - i,
    {
        if events[i].matches_trigger(event) {
            assert(events@[i as int] == *event);
            return true;
        }
        i += 1;
    }
    false
}

fn sat_inc_exec(a: u32) -> (r: u32)
    ensures
        r == sat_inc(a),
{
    if a < u32::MAX {
        a + 1
    } else {
        a
    }
}

fn sat_add_ms_exec(a: u128, b: u128) -> (r: u128)
    ensures
        r == sat_add_ms(a, b),
{
    if a <= u128::MAX - b {
        a + b
    } else {
        u128::MAX
    }
}

fn failure_limit_exec(p: PluginPolicy) -> (n: u32)
    ensures
        n == failure_limit(p),
{
    if p.max_failed_activations >= 1 {
        p.max_failed_activations
    } else {
        1
    }
}

fn policy_block_text() -> (s: String)
    ensures
        s@ == policy_block_message(),
{
    let mut v = chars_of("capability blocked by host policy: ");
    push_str(&mut v, PluginCapability::Network.as_tag());
    string_of(&v)
}

fn cancel_text(p: PluginPolicy) -> (s: String)
    ensures
        s@ == cancel_message(p),
{
    let t: u64 = if p.activation_timeout_ms >= 10 {
        p.activation_timeout_ms
    } else {
        10
    };
    let mut v = chars_of("activation cancelled/timeout (>");
    let d = decimal_chars(t as u128);
    push_all(&mut v, &d);
    push_str(&mut v, "ms)");
    string_of(&v)
}

/// Takes one plugin through a trigger of `event`.
fn step_entry<R: PluginRuntime>(
    policy: PluginPolicy,
    event: PluginActivationEvent,
    entry: PluginEntry,
    runtime: &mut R,
    cancellation: &ActivationCancellation,
) -> (r: (PluginEntry, Option<PluginActivationOutcome>))
    ensures
        !answers(entry.manifest, event) ==> r.0 == entry && r.1 is None,
        answers(entry.manifest, event) ==> (r.1 matches Some(o) && plugin_step(
            policy,
            event,
            entry,
            r.0,
            o@,
            |m: PluginManifest, x: RuntimeActivationResult| host_answer::<R>(*old(runtime), m, event, spec_for(policy), cancellation.raisable(), x),
        )),
        R::answers_stay() ==> same_answers(*final(runtime), *old(runtime)),
{
    let mut e = entry;
    if !answers_event(&e.manifest.activation_events, &event) {
        return (e, None);
    }
    let limit = failure_limit_exec(policy);
    let ghost s0 = e.runtime@;
    if !policy.allow_network && contains_capability(&e.manifest.capabilities, PluginCapability::Network) {
        let f = sat_inc_exec(e.runtime.failed_attempts);
        e.runtime.failed_attempts = f;
        let msg = policy_block_text();
        e.runtime.last_error = Some(msg.clone());
        e.runtime.state = if f >= limit {
            PluginLifecycleState::Disabled
        } else {
            PluginLifecycleState::Failed
        };
        let o = PluginActivationOutcome {
            plugin_id: e.manifest.id.clone(),
            state: e.runtime.state,
            activated: false,
            error: Some(msg),
            elapsed_ms: 0,
        };
        return (e, Some(o));
    }
    if e.runtime.state == PluginLifecycleState::Active {
        let o = PluginActivationOutcome {
            plugin_id: e.manifest.id.clone(),
            state: PluginLifecycleState::Active,
            activated: false,
            error: None,
            elapsed_ms: 0,
        };
        return (e, Some(o));
    }
    if e.runtime.failed_attempts >= limit {
        e.runtime.state = PluginLifecycleState::Disabled;
        let o = PluginActivationOutcome {
            plugin_id: e.manifest.id.clone(),
            state: PluginLifecycleState::Disabled,
            activated: false,
            error: clone_opt_string(&e.runtime.last_error),
            elapsed_ms: 0,
        };
        return (e, Some(o));
    }
    e.runtime.state = PluginLifecycleState::Activating;
    e.runtime.last_trigger = Some(event);
    let timeout: u64 = if policy.activation_timeout_ms >= 10 {
        policy.activation_timeout_ms
    } else {
        10
    };
    let spec = RuntimeActivationSpec { timeout_ms: timeout };
    let result = run_host_activation(runtime, &e.manifest, &event, spec, cancellation);
    let ghost rr = result;
    let elapsed = result.elapsed_ms;
    e.runtime.total_activation_ms = sat_add_ms_exec(e.runtime.total_activation_ms, elapsed);
    let id = e.manifest.id.clone();
    let o = match result.status {
        RuntimeStatus::Ready => {
            e.runtime.state = PluginLifecycleState::Active;
            e.runtime.activation_count = sat_inc_exec(e.runtime.activation_count);
            e.runtime.failed_attempts = 0;
            e.runtime.last_error = None;
            PluginActivationOutcome {
                plugin_id: id,
                state: PluginLifecycleState::Active,
                activated: true,
                error: None,
                elapsed_ms: elapsed,
            }
        },
        RuntimeStatus::Failed(err) => {
            let text = err.to_string();
            let f = sat_inc_exec(e.runtime.failed_attempts);
            e.runtime.failed_attempts = f;
            e.runtime.last_error = Some(text.clone());
            e.runtime.state = if f >= limit {
                PluginLifecycleState::Disabled
            } else {
                PluginLifecycleState::Failed
            };
            PluginActivationOutcome {
                plugin_id: id,
                state: e.runtime.state,
                activated: false,
                error: Some(text),
                elapsed_ms: elapsed,
            }
        },
        RuntimeStatus::Cancelled => {
            e.runtime.cancelled_attempts = sat_inc_exec(e.runtime.cancelled_attempts);
            e.runtime.state = PluginLifecycleState::Cancelled;
            let msg = cancel_text(policy);
            e.runtime.last_error = Some(msg.clone());
            PluginActivationOutcome {
                plugin_id: id,
                state: PluginLifecycleState::Cancelled,
                activated: false,
                error: Some(msg),
                elapsed_ms: elapsed,
            }
        },
    };
    proof {
        assert((e.runtime@, o@) == after_activation(policy, entry.manifest, event, s0, rr));
    }
    (e, Some(o))
}

impl Default for PluginRegistry {
    fn default() -> (r: PluginRegistry)
        ensures
            r.spec_entries().len() == 0,
            r.spec_policy() == default_policy(),
            r.wf(),
    {
        PluginRegistry { entries: Vec::new(), policy: PluginPolicy::default() }
    }
}

impl PluginRegistry {
    pub closed spec fn spec_entries(&self) -> Seq<PluginEntry> {
        self.entries@
    }

    pub closed spec fn spec_policy(&self) -> PluginPolicy {
        self.policy
    }

    /// Plugins are kept in id order, one per id.
    pub open spec fn wf(&self) -> bool {
        strictly_sorted(entry_ids(self.spec_entries()))
    }

    pub fn with_policy(policy: PluginPolicy) -> (r: PluginRegistry)
        ensures
            r.spec_entries().len() == 0,
            r.spec_policy() == policy,
            r.wf(),
    {
        PluginRegistry { entries: Vec::new(), policy }
    }

    pub fn set_policy(&mut self, policy: PluginPolicy)
        ensures
            final(self).spec_entries() == old(self).spec_entries(),
            final(self).spec_policy() == policy,
    {
        self.policy = policy;
    }

    fn find_index(&self, id: &str) -> (r: Option<usize>)
        ensures
            r matches Some(i) ==> i < self.spec_entries().len() && self.spec_entries()[i as int].manifest.id@ == id@,
            r is None ==> forall|i: int| 0 <= i < self.spec_entries().len() ==> #[trigger] self.spec_entries()[i].manifest.id@ != id@,
    {
        let mut i: usize = 0;
        while i < self.entries.len()
            invariant
                i <= self.entries.len(),
                forall|k: int| 0 <= k < i ==> #[trigger] self.entries@[k].manifest.id@ != id@,
            decreases self.entries.len() - i,
        {
            let c = chars_of(self.entries[i].manifest.id.as_str());
            if eq_str(&c, id) {
                return Some(i);
            }
            i += 1;
        }
        None
    }

    /// Registers a manifest that the policy admits (see `registration`).
    pub fn register_manifest(&mut self, manifest: PluginManifest) -> (r: Result<(), String>)
        requires
            old(self).wf(),
        ensures
            final(self).wf(),
            final(self).spec_policy() == old(self).spec_policy(),
            registration(old(self).spec_policy(), old(self).spec_entries(), final(self).spec_entries(), r, manifest),
    {
        match validate_manifest(&manifest, self.policy) {
            Err(e) => {
                return Err(e);
            },
            Ok(()) => {},
        }
        let ghost old_e = self.entries@;
        match self.find_index(manifest.id.as_str()) {
            Some(i) => {
                let old_entry = self.entries.remove(i);
                let ghost m = manifest;
                self.entries.insert(i, PluginEntry { manifest, runtime: old_entry.runtime });
                proof {
                    assert(self.entries@ =~= old_e.update(i as int, PluginEntry { manifest: m, runtime: old_e[i as int].runtime }));
                    assert(entry_ids(self.entries@) =~= entry_ids(old_e));
                    assert(old_e[i as int].manifest.id@ == m.id@);
                }
                Ok(())
            },
            None => {
                let mut p: usize = 0;
                while p < self.entries.len() && string_less(&self.entries[p].manifest.id, &manifest.id)
                    invariant
                        p <= self.entries.len(),
                        self.entries@ == old_e,
                        forall|k: int| 0 <= k < p ==> lex_lt(#[trigger] self.entries@[k].manifest.id@, manifest.id@),
                    decreases self.entries.len() - p,
                {
                    p += 1;
                }
                let ghost m = manifest;
                let rt = PluginRuntimeState::default();
                let ghost grt = rt;
                self.entries.insert(p, PluginEntry { manifest, runtime: rt });
                proof {
                    let ne = self.entries@;
                    assert(ne =~= old_e.insert(p as int, PluginEntry { manifest: m, runtime: grt }));
                    let ids = entry_ids(ne);
                    let oids = entry_ids(old_e);
                    assert(ids =~= oids.insert(p as int, m.id@));
                    if p < old_e.len() {
                        assert(oids[p as int] == old_e[p as int].manifest.id@);
                        lemma_lex_total(m.id@, oids[p as int]);
                    }
                    assert forall|a: int, b: int| 0 <= a < b < ids.len() implies lex_lt(#[trigger] ids[a], #[trigger] ids[b]) by {
                        if b < p {
                            assert(lex_lt(oids[a], oids[b]));
                        } else if b == p {
                            assert(oids[a] == old_e[a].manifest.id@);
                        } else if a == p {
                            if b - 1 > p {
                                assert(lex_lt(oids[p as int], oids[b - 1]));
                                lemma_lex_transitive(m.id@, oids[p as int], oids[b - 1]);
                            }
                        } else if a < p {
                            assert(oids[a] == old_e[a].manifest.id@);
                            if b - 1 > p {
                                assert(lex_lt(oids[p as int], oids[b - 1]));
                                lemma_lex_transitive(m.id@, oids[p as int], oids[b - 1]);
                            }
                            lemma_lex_transitive(oids[a], m.id@, oids[b - 1]);
                        } else {
                            assert(lex_lt(oids[a - 1], oids[b - 1]));
                        }
                    }
                    assert(!exists|i: int| 0 <= i < old_e.len() && #[trigger] old_e[i].manifest.id@ == m.id@);
                }
                Ok(())
            },
        }
    }

    /// Registers the manifest that `plugin` presents; the plugin decides what it presents.
    pub fn register_plugin<P: Plugin>(&mut self, plugin: &P) -> (r: Result<(), String>)
        requires
            old(self).wf(),
        ensures
            final(self).wf(),
            final(self).spec_policy() == old(self).spec_policy(),
            exists|m: PluginManifest|
                registration(old(self).spec_policy(), old(self).spec_entries(), final(self).spec_entries(), r, m),
    {
        let m = plugin.manifest().duplicate();
        let ghost gm = m;
        let r = self.register_manifest(m);
        assert(registration(old(self).spec_policy(), old(self).spec_entries(), self.spec_entries(), r, gm));
        r
    }

    /// The manifest registered under `id`.
    pub fn manifest(&self, id: &str) -> (r: Option<&PluginManifest>)
        ensures
            r matches Some(m) ==> exists|i: int|
                0 <= i < self.spec_entries().len() && self.spec_entries()[i].manifest == *m && m.id@ == id@,
            r is None ==> forall|i: int|
                0 <= i < self.spec_entries().len() ==> #[trigger] self.spec_entries()[i].manifest.id@ != id@,
    {
        match self.find_index(id) {
            Some(i) => Some(&self.entries[i].manifest),
            None => None,
        }
    }

    /// What is known of the activations of the plugin registered under `id`.
    pub fn runtime(&self, id: &str) -> (r: Option<&PluginRuntimeState>)
        ensures
            r matches Some(s) ==> exists|i: int|
                0 <= i < self.spec_entries().len() && self.spec_entries()[i].runtime == *s
                    && self.spec_entries()[i].manifest.id@ == id@,
            r is None ==> forall|i: int|
                0 <= i < self.spec_entries().len() ==> #[trigger] self.spec_entries()[i].manifest.id@ != id@,
    {
        match self.find_index(id) {
            Some(i) => Some(&self.entries[i].runtime),
            None => None,
        }
    }

    /// The registered manifests in id order.
    pub fn list(&self) -> (r: Vec<&PluginManifest>)
        ensures
            r.len() == self.spec_entries().len(),
            forall|i: int| 0 <= i < r.len() ==> *(#[trigger] r@[i]) == self.spec_entries()[i].manifest,
    {
        let mut r: Vec<&PluginManifest> = Vec::new();
        let mut i: usize = 0;
        while i < self.entries.len()
            invariant
                i <= self.entries.len(),
                r.len() == i,
                forall|k: int| 0 <= k < i ==> *(#[trigger] r@[k]) == self.entries@[k].manifest,
            decreases self.entries.len() - i,
        {
            r.push(&self.entries[i].manifest);
            i += 1;
        }
        r
    }

    /// How many plugins are active.
    pub fn active_count(&self) -> (n: usize)
        ensures
            n == count_active(self.spec_entries()),
    {
        let mut n: usize = 0;
        let mut i: usize = 0;
        while i < self.entries.len()
            invariant
                i <= self.entries.len(),
                n == count_active(self.entries@.take(i as int)),
                n <= i,
            decreases self.entries.len() - i,
        {
            proof {
                assert(self.entries@.take(i + 1).drop_last() =~= self.entries@.take(i as int));
            }
            if self.entries[i].runtime.state == PluginLifecycleState::Active {
                n += 1;
            }
            i += 1;
        }
        assert(self.entries@.take(self.entries.len() as int) =~= self.entries@);
        n
    }

    /// Triggers `event` with the in-process runtime.
    pub fn trigger_event(&mut self, event: PluginActivationEvent) -> (outs: Vec<PluginActivationOutcome>)
        requires
            old(self).wf(),
        ensures
            final(self).wf(),
            final(self).spec_policy() == old(self).spec_policy(),
            triggered(old(self).spec_policy(), event, old(self).spec_entries(), final(self).spec_entries(), outcome_views(outs@),
                |m: PluginManifest, x: RuntimeActivationResult| in_process_answer(old(self).spec_policy(), x)),
    {
        let mut runtime = InProcessRuntime;
        let ghost p = self.spec_policy();
        let ghost before = self.spec_entries();
        let outs = self.trigger_event_with_runtime(event, &mut runtime);
        proof {
            let ok1 = |m: PluginManifest, x: RuntimeActivationResult| host_answer::<InProcessRuntime>(InProcessRuntime, m, event, spec_for(p), false, x);
            let ok2 = |m: PluginManifest, x: RuntimeActivationResult| in_process_answer(p, x);
            assert forall|m: PluginManifest, x: RuntimeActivationResult| #[trigger] ok1(m, x) implies ok2(m, x) by {
                lemma_in_process_answer(p, m, event, x);
            }
            lemma_triggered_weaken(p, event, before, self.spec_entries(), outcome_views(outs@), ok1, ok2);
        }
        outs
    }

    /// Triggers `event` with `runtime` and a fresh cancellation token.
    pub fn trigger_event_with_runtime<R: PluginRuntime>(
        &mut self,
        event: PluginActivationEvent,
        runtime: &mut R,
    ) -> (outs: Vec<PluginActivationOutcome>)
        requires
            old(self).wf(),
        ensures
            final(self).wf(),
            final(self).spec_policy() == old(self).spec_policy(),
            triggered(old(self).spec_policy(), event, old(self).spec_entries(), final(self).spec_entries(), outcome_views(outs@),
                |m: PluginManifest, x: RuntimeActivationResult| exists|rt: R| #[trigger] host_answer::<R>(rt, m, event, spec_for(old(self).spec_policy()), false, x)),
            R::answers_stay() ==> triggered(old(self).spec_policy(), event, old(self).spec_entries(), final(self).spec_entries(), outcome_views(outs@),
                |m: PluginManifest, x: RuntimeActivationResult| host_answer::<R>(*old(runtime), m, event, spec_for(old(self).spec_policy()), false, x)),
            R::answers_stay() ==> same_answers(*final(runtime), *old(runtime)),
    {
        let cancellation = ActivationCancellation::unraisable();
        self.trigger_event_with_runtime_and_cancel(event, runtime, &cancellation)
    }

    /// Triggers `event`: every plugin that answers it, in id order, is activated through
    /// `runtime` unless the host decides first (see `triggered`).
    pub fn trigger_event_with_runtime_and_cancel<R: PluginRuntime>(
        &mut self,
        event: PluginActivationEvent,
        runtime: &mut R,
        cancellation: &ActivationCancellation,
    ) -> (outs: Vec<PluginActivationOutcome>)
        requires
            old(self).wf(),
        ensures
            final(self).wf(),
            final(self).spec_policy() == old(self).spec_policy(),
            triggered(old(self).spec_policy(), event, old(self).spec_entries(), final(self).spec_entries(), outcome_views(outs@),
                |m: PluginManifest, x: RuntimeActivationResult| exists|rt: R| #[trigger] host_answer::<R>(rt, m, event, spec_for(old(self).spec_policy()), cancellation.raisable(), x)),
            R::answers_stay() ==> triggered(old(self).spec_policy(), event, old(self).spec_entries(), final(self).spec_entries(), outcome_views(outs@),
                |m: PluginManifest, x: RuntimeActivationResult| host_answer::<R>(*old(runtime), m, event, spec_for(old(self).spec_policy()), cancellation.raisable(), x)),
            R::answers_stay() ==> same_answers(*final(runtime), *old(runtime)),
    {
        let mut pending: Vec<PluginEntry> = Vec::new();
        std::mem::swap(&mut pending, &mut self.entries);
        let ghost orig = pending@;
        let policy = self.policy;
        let mut done: Vec<PluginEntry> = Vec::new();
        let mut outs: Vec<PluginActivationOutcome> = Vec::new();
        let ghost mut i: int = 0;
        let ghost rt0 = *runtime;
        assert(orig.take(0) =~= Seq::<PluginEntry>::empty());
        assert(outcome_views(outs@) =~= Seq::<OutcomeModel>::empty());
        while pending.len() > 0
            invariant
                0 <= i <= orig.len(),
                pending@ == orig.skip(i),
                done.len() == i,
                forall|k: int| 0 <= k < i ==> (#[trigger] done@[k]).manifest == orig[k].manifest,
                policy == old(self).spec_policy(),
                rt0 == *old(runtime),
                triggered(policy, event, orig.take(i), done@, outcome_views(outs@),
                    |m: PluginManifest, x: RuntimeActivationResult| exists|rt: R| #[trigger] host_answer::<R>(rt, m, event, spec_for(policy), cancellation.raisable(), x)),
                R::answers_stay() ==> same_answers(*runtime, rt0) && triggered(policy, event, orig.take(i), done@, outcome_views(outs@),
                    |m: PluginManifest, x: RuntimeActivationResult| host_answer::<R>(rt0, m, event, spec_for(policy), cancellation.raisable(), x)),
            decreases pending.len(),
        {
            let ghost rt_before = *runtime;
            let e = pending.remove(0);
            proof {
                assert(e == orig[i]);
                assert(pending@ =~= orig.skip(i + 1));
            }
            let (ne, o) = step_entry(policy, event, e, runtime, cancellation);
            let ghost prev_done = done@;
            let ghost prev_outs = outcome_views(outs@);
            done.push(ne);
            match o {
                Some(oc) => {
                    outs.push(oc);
                },
                None => {},
            }
            proof {
                assert(orig.take(i + 1).drop_last() =~= orig.take(i));
                assert(done@.drop_last() =~= prev_done);
                let raisable = cancellation.raisable();
                let ok_now = |m: PluginManifest, x: RuntimeActivationResult| host_answer::<R>(rt_before, m, event, spec_for(policy), raisable, x);
                let ok_any = |m: PluginManifest, x: RuntimeActivationResult| exists|rt: R| #[trigger] host_answer::<R>(rt, m, event, spec_for(policy), raisable, x);
                let ok_fixed = |m: PluginManifest, x: RuntimeActivationResult| host_answer::<R>(rt0, m, event, spec_for(policy), raisable, x);
                if answers(orig[i].manifest, event) {
                    assert(outcome_views(outs@).drop_last() =~= prev_outs);
                    assert forall|m: PluginManifest, x: RuntimeActivationResult| #[trigger] ok_now(m, x) implies ok_any(m, x) by {
                        assert(host_answer::<R>(rt_before, m, event, spec_for(policy), raisable, x));
                    }
                    lemma_step_weaken(policy, event, orig[i], ne, oc_view(o), ok_now, ok_any);
                    if R::answers_stay() {
                        assert(same_answers(rt_before, rt0));
                        assert forall|m: PluginManifest, x: RuntimeActivationResult| #[trigger] ok_now(m, x) implies ok_fixed(m, x) by {
                            assert(host_answer::<R>(rt_before, m, event, spec_for(policy), raisable, x));
                            lemma_same_answers_host(rt_before, rt0, m, event, spec_for(policy), raisable, x);
                        }
                        lemma_step_weaken(policy, event, orig[i], ne, oc_view(o), ok_now, ok_fixed);
                    }
                } else {
                    assert(outcome_views(outs@) =~= prev_outs);
                }
                i = i + 1;
            }
        }
        proof {
            assert(orig.take(i) =~= orig);
            assert(entry_ids(done@) =~= entry_ids(orig));
        }
        self.entries = done;
        outs
    }
}

/// What an in-process activation comes to under policy `p`: ready and active, unless the
/// time the host measured is past the timeout, when it counts as cancelled.
pub open spec fn in_process_answer(p: PluginPolicy, r: RuntimeActivationResult) -> bool {
    if r.elapsed_ms > activation_timeout_ms(p) as u128 {
        r.status is Cancelled
    } else {
        r.status is Ready
    }
}

proof fn lemma_in_process_answer(p: PluginPolicy, m: PluginManifest, t: PluginActivationEvent, x: RuntimeActivationResult)
    requires
        host_answer::<InProcessRuntime>(InProcessRuntime, m, t, spec_for(p), false, x),
    ensures
        in_process_answer(p, x),
{
    let (a, ms, c) = choose|a: RuntimeActivationResult, ms: u128, c: bool|
        InProcessRuntime.may_answer(m, t, spec_for(p), false, a) && (c ==> false) && x == #[trigger] settled(a, ms, c, spec_for(p));
}

spec fn oc_view(o: Option<PluginActivationOutcome>) -> OutcomeModel {
    match o {
        Some(x) => x@,
        None => arbitrary(),
    }
}

proof fn lemma_same_answers_host<R: PluginRuntime>(
    a: R,
    b: R,
    m: PluginManifest,
    t: PluginActivationEvent,
    spec: RuntimeActivationSpec,
    raisable: bool,
    x: RuntimeActivationResult,
)
    requires
        same_answers(a, b),
        host_answer::<R>(a, m, t, spec, raisable, x),
    ensures
        host_answer::<R>(b, m, t, spec, raisable, x),
{
    if !(raisable && x == (RuntimeActivationResult { status: RuntimeStatus::Cancelled, elapsed_ms: 0 })) {
        let (r, ms, c) = choose|r: RuntimeActivationResult, ms: u128, c: bool|
            a.may_answer(m, t, spec, raisable, r) && (c ==> raisable) && x == #[trigger] settled(r, ms, c, spec);
        assert(b.may_answer(m, t, spec, raisable, r));
    }
}

proof fn lemma_step_weaken(
    p: PluginPolicy,
    event: PluginActivationEvent,
    old: PluginEntry,
    new: PluginEntry,
    o: OutcomeModel,
    ok1: spec_fn(PluginManifest, RuntimeActivationResult) -> bool,
    ok2: spec_fn(PluginManifest, RuntimeActivationResult) -> bool,
)
    requires
        plugin_step(p, event, old, new, o, ok1),
        forall|m: PluginManifest, x: RuntimeActivationResult| #[trigger] ok1(m, x) ==> ok2(m, x),
    ensures
        plugin_step(p, event, old, new, o, ok2),
{
    if decided_by_host(p, old.manifest, old.runtime@) is None {
        let r = choose|r: RuntimeActivationResult|
            ok1(old.manifest, r) && (r.status is Cancelled || r.elapsed_ms <= activation_timeout_ms(p) as u128) && (new.runtime@, o)
                == #[trigger] after_activation(p, old.manifest, event, old.runtime@, r);
        assert(ok2(old.manifest, r));
    }
}

proof fn lemma_triggered_weaken(
    p: PluginPolicy,
    event: PluginActivationEvent,
    old: Seq<PluginEntry>,
    new: Seq<PluginEntry>,
    outs: Seq<OutcomeModel>,
    ok1: spec_fn(PluginManifest, RuntimeActivationResult) -> bool,
    ok2: spec_fn(PluginManifest, RuntimeActivationResult) -> bool,
)
    requires
        triggered(p, event, old, new, outs, ok1),
        forall|m: PluginManifest, x: RuntimeActivationResult| #[trigger] ok1(m, x) ==> ok2(m, x),
    ensures
        triggered(p, event, old, new, outs, ok2),
    decreases old.len(),
{
    if old.len() > 0 {
        if answers(old.last().manifest, event) {
            lemma_triggered_weaken(p, event, old.drop_last(), new.drop_last(), outs.drop_last(), ok1, ok2);
            if decided_by_host(p, old.last().manifest, old.last().runtime@) is None {
                let r = choose|r: RuntimeActivationResult|
                    ok1(old.last().manifest, r) && (r.status is Cancelled || r.elapsed_ms <= activation_timeout_ms(p) as u128) && (new.last().runtime@, outs.last())
                        == #[trigger] after_activation(p, old.last().manifest, event, old.last().runtime@, r);
                assert(ok2(old.last().manifest, r));
            }
        } else {
            lemma_triggered_weaken(p, event, old.drop_last(), new.drop_last(), outs, ok1, ok2);
        }
    }
}

/// A plugin that has used up its allowed failures is not activated by a trigger: it is
/// (or stays) disabled.
pub proof fn law_exhausted_plugin_is_disabled(
    p: PluginPolicy,
    event: PluginActivationEvent,
    old: PluginEntry,
    new: PluginEntry,
    o: OutcomeModel,
    ok: spec_fn(PluginManifest, RuntimeActivationResult) -> bool,
)
    requires
        plugin_step(p, event, old, new, o, ok),
        old.runtime.failed_attempts >= failure_limit(p),
        old.runtime.state != PluginLifecycleState::Active,
    ensures
        !o.activated,
        o.state == PluginLifecycleState::Disabled,
        new.runtime.state == PluginLifecycleState::Disabled,
{
}

/// An active plugin that the policy does not block is left as it is by a trigger, and the
/// runtime is not asked again.
pub proof fn law_active_plugin_untouched(
    p: PluginPolicy,
    event: PluginActivationEvent,
    old: PluginEntry,
    new: PluginEntry,
    o: OutcomeModel,
    ok: spec_fn(PluginManifest, RuntimeActivationResult) -> bool,
)
    requires
        plugin_step(p, event, old, new, o, ok),
        old.runtime.state == PluginLifecycleState::Active,
        !blocked_by_policy(old.manifest, p),
    ensures
        new.runtime@ == old.runtime@,
        o.state == PluginLifecycleState::Active,
        !o.activated,
{
}

/// A successful activation clears the failure count and the last error.
pub proof fn law_success_resets_failures(
    p: PluginPolicy,
    m: PluginManifest,
    event: PluginActivationEvent,
    s: RuntimeStateModel,
    elapsed_ms: u128,
)
    ensures
        ({
            let (ns, o) = after_activation(p, m, event, s, RuntimeActivationResult { status: RuntimeStatus::Ready, elapsed_ms });
            ns.failed_attempts == 0 && ns.last_error is None && ns.state == PluginLifecycleState::Active && o.activated
        }),
{
}

} // verus!
