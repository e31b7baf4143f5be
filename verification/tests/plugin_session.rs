use xnote_core::command::CommandId;
use xnote_core::plugin::{
    PluginActivationEvent, PluginCapability, PluginManifest, ProcessRuntimeConfig,
    RuntimeActivationSpec, RuntimeErrorCode, RuntimeStatus,
};
use xnote_core::plugin_protocol::PluginWireMessage;
use xnote_core::plugin_session::{
    activation_step, ActivationEvent, ActivationStep, activation_message, activation_precheck, evaluate_activation_reply, evaluate_handshake_ack,
    handshake_message, keeps_session, SessionBook,
};

fn manifest() -> PluginManifest {
    PluginManifest {
        id: "demo".to_string(),
        display_name: "Demo".to_string(),
        version: "1.2.0".to_string(),
        capabilities: vec![PluginCapability::ReadVault, PluginCapability::Commands],
        command_allowlist: vec![CommandId::QuickOpen],
        activation_events: vec![PluginActivationEvent::OnStartupFinished],
    }
}

fn ack(version: u32, accepted: bool, reason: Option<&str>, caps: &[&str]) -> PluginWireMessage {
    PluginWireMessage::HandshakeAck {
        protocol_version: version,
        accepted,
        reason: reason.map(str::to_string),
        reported_capabilities: caps.iter().map(|c| c.to_string()).collect(),
    }
}

fn failure(r: Result<(), RuntimeStatus>) -> (RuntimeErrorCode, String) {
    match r {
        Err(RuntimeStatus::Failed(e)) => (e.code, e.detail),
        other => panic!("expected a failure, got {other:?}"),
    }
}

#[test]
fn handshake_message_lists_versions_and_capabilities() {
    let mut config = ProcessRuntimeConfig::new("worker", Vec::new());
    config.protocol_version = 2;
    config.supported_protocol_versions = vec![1, 3, 0, 1];
    let msg = handshake_message(&config, &manifest());
    assert_eq!(
        msg,
        PluginWireMessage::Handshake {
            protocol_version: 2,
            supported_protocol_versions: vec![3, 2, 1],
            plugin_id: "demo".to_string(),
            plugin_version: "1.2.0".to_string(),
            capabilities: vec!["read_vault".to_string(), "commands".to_string()],
        }
    );
}

#[test]
fn handshake_ack_verdicts() {
    let mut config = ProcessRuntimeConfig::new("worker", Vec::new());
    config.protocol_version = 2;
    config.supported_protocol_versions = vec![3, 2];
    let m = manifest();

    assert_eq!(evaluate_handshake_ack(&config, &m, &ack(3, true, None, &["commands"])), Ok(()));
    assert_eq!(
        failure(evaluate_handshake_ack(&config, &m, &ack(3, false, None, &[]))),
        (RuntimeErrorCode::HandshakeRejected, "runtime handshake rejected".to_string())
    );
    assert_eq!(
        failure(evaluate_handshake_ack(&config, &m, &ack(3, false, Some("busy"), &[]))),
        (RuntimeErrorCode::HandshakeRejected, "busy".to_string())
    );
    assert_eq!(
        failure(evaluate_handshake_ack(&config, &m, &ack(9, true, None, &[]))),
        (
            RuntimeErrorCode::ProtocolMismatch,
            "protocol version mismatch: host_supported=[3, 2] runtime=9".to_string()
        )
    );
    assert_eq!(
        failure(evaluate_handshake_ack(
            &config,
            &m,
            &ack(2, true, None, &["network", "commands", "write_vault", "network"])
        )),
        (
            RuntimeErrorCode::CapabilityViolation,
            "runtime reported undeclared capabilities: network,write_vault".to_string()
        )
    );
    assert_eq!(
        failure(evaluate_handshake_ack(
            &config,
            &m,
            &PluginWireMessage::Pong { request_id: "x".to_string() }
        )),
        (
            RuntimeErrorCode::ProtocolViolation,
            "unexpected runtime message before handshake ack".to_string()
        )
    );
}

#[test]
fn activation_request_and_reply() {
    let msg = activation_message(
        "act:demo:1".to_string(),
        &PluginActivationEvent::OnCommand(CommandId::QuickOpen),
        RuntimeActivationSpec { timeout_ms: 250 },
    );
    assert_eq!(
        msg,
        PluginWireMessage::Activate {
            request_id: "act:demo:1".to_string(),
            event: "on_command:quick_open".to_string(),
            timeout_ms: 250,
        }
    );
    assert_eq!(
        evaluate_activation_reply(PluginWireMessage::ActivateResult {
            request_id: "act:demo:1".to_string(),
            ok: true,
            error: None,
        }),
        RuntimeStatus::Ready
    );
    match evaluate_activation_reply(PluginWireMessage::ActivateResult {
        request_id: "act:demo:1".to_string(),
        ok: false,
        error: None,
    }) {
        RuntimeStatus::Failed(e) => {
            assert_eq!(e.code, RuntimeErrorCode::ActivationRejected);
            assert_eq!(e.detail, "runtime activation failed");
        }
        other => panic!("unexpected {other:?}"),
    }
    match evaluate_activation_reply(PluginWireMessage::Ping { request_id: "p".to_string() }) {
        RuntimeStatus::Failed(e) => {
            assert_eq!(e.code, RuntimeErrorCode::ProtocolViolation);
            assert_eq!(e.detail, "unexpected runtime message before activation result");
        }
        other => panic!("unexpected {other:?}"),
    }
}

#[test]
fn precheck_and_session_keeping() {
    let mut config = ProcessRuntimeConfig::new("  ", Vec::new());
    assert_eq!(activation_precheck(&config, true), Some(RuntimeStatus::Cancelled));
    match activation_precheck(&config, false) {
        Some(RuntimeStatus::Failed(e)) => {
            assert_eq!(e.code, RuntimeErrorCode::InvalidConfig);
            assert_eq!(e.detail, "process runtime command is empty");
        }
        other => panic!("unexpected {other:?}"),
    }
    config.command = "worker".to_string();
    assert_eq!(activation_precheck(&config, false), None);

    assert!(!keeps_session(&config, &RuntimeStatus::Ready));
    config.keep_alive_session = true;
    assert!(keeps_session(&config, &RuntimeStatus::Ready));
    assert!(!keeps_session(&config, &RuntimeStatus::Cancelled));
    let rejected = evaluate_activation_reply(PluginWireMessage::ActivateResult {
        request_id: "r".to_string(),
        ok: false,
        error: Some("no".to_string()),
    });
    assert!(keeps_session(&config, &rejected));
    let violation = evaluate_activation_reply(PluginWireMessage::Ping { request_id: "p".to_string() });
    assert!(!keeps_session(&config, &violation));
}

#[test]
fn session_book_keeps_evicts_and_counts() {
    let mut book = SessionBook::new();
    assert!(book.keep("a".to_string(), 0, 2).is_empty());
    assert!(book.keep("b".to_string(), 10, 2).is_empty());
    // Keeping "a" again makes it the most recent; "c" then pushes out "b", the oldest.
    assert!(book.keep("a".to_string(), 20, 2).is_empty());
    assert_eq!(book.keep("c".to_string(), 30, 2), vec!["b".to_string()]);
    assert_eq!(book.len(), 2);
    assert_eq!(book.telemetry().evicted_by_limit_count, 1);

    let snap = book.snapshot(50);
    let pairs: Vec<(String, u128)> = snap.iter().map(|s| (s.session_key.clone(), s.idle_ms)).collect();
    assert_eq!(pairs, vec![("a".to_string(), 30), ("c".to_string(), 20)]);

    assert!(book.take("a"));
    assert!(!book.take("a"));
    assert_eq!(book.len(), 1);

    assert!(book.keep("d".to_string(), 100, 8).is_empty());
    let evicted = book.evict_idle(130, 100);
    assert_eq!(evicted, vec!["c".to_string()]);
    assert_eq!(book.len(), 1);
    assert_eq!(book.telemetry().evicted_by_idle_ttl_count, 1);

    book.record_spawn();
    book.record_spawn();
    book.record_handshake();
    book.record_activation_request();
    book.record_reuse();
    book.record_ping_failure();
    let t = book.telemetry();
    assert_eq!(
        (t.spawn_count, t.handshake_count, t.activation_request_count, t.reused_session_count, t.session_ping_failure_count),
        (2, 1, 1, 1, 1)
    );
    assert_eq!(book.next_request_id("ping", "demo"), "ping:demo:1");
    assert_eq!(book.next_request_id("act", "demo"), "act:demo:2");
}

#[test]
fn activation_steps_follow_the_worker_protocol() {
    let mut config = ProcessRuntimeConfig::new("worker", vec![]);
    config.keep_alive_session = false;
    assert!(matches!(activation_step(&config, ActivationEvent::Began { cancelled: false }), ActivationStep::Spawn));
    assert!(matches!(
        activation_step(&config, ActivationEvent::Began { cancelled: true }),
        ActivationStep::Finish { status: RuntimeStatus::Cancelled, zero_elapsed: true }
    ));
    assert!(matches!(activation_step(&config, ActivationEvent::Spawned(None)), ActivationStep::Handshake));
    assert!(matches!(activation_step(&config, ActivationEvent::Handshaken(None)), ActivationStep::Activate));
    assert!(matches!(
        activation_step(&config, ActivationEvent::Answered(RuntimeStatus::Ready)),
        ActivationStep::TerminateThenFinish(RuntimeStatus::Ready)
    ));
    config.keep_alive_session = true;
    assert!(matches!(activation_step(&config, ActivationEvent::Began { cancelled: false }), ActivationStep::EvictIdleThenPing));
    assert!(matches!(activation_step(&config, ActivationEvent::Pinged(true)), ActivationStep::ReuseThenActivate));
    assert!(matches!(activation_step(&config, ActivationEvent::Pinged(false)), ActivationStep::DropThenSpawn));
    assert!(matches!(activation_step(&config, ActivationEvent::NothingToReuse), ActivationStep::Spawn));
    assert!(matches!(
        activation_step(&config, ActivationEvent::Answered(RuntimeStatus::Ready)),
        ActivationStep::KeepThenFinish(RuntimeStatus::Ready)
    ));
    config.command = "  ".to_string();
    match activation_step(&config, ActivationEvent::Began { cancelled: false }) {
        ActivationStep::Finish { status: RuntimeStatus::Failed(e), zero_elapsed: false } => {
            assert_eq!(e.code, RuntimeErrorCode::InvalidConfig);
            assert_eq!(e.detail, "process runtime command is empty");
        }
        _ => panic!("an empty command fails the activation"),
    }
}

fn worker_config(keep_alive: bool) -> ProcessRuntimeConfig {
    let mut config = ProcessRuntimeConfig::new("worker", vec![]);
    config.keep_alive_session = keep_alive;
    config
}

fn reply(ok: bool, error: Option<&str>) -> PluginWireMessage {
    PluginWireMessage::ActivateResult { request_id: "act-1".to_string(), ok, error: error.map(|e| e.to_string()) }
}

#[test]
fn fresh_worker_is_spawned_greeted_and_closed_after_activation() {
    let config = worker_config(false);
    let m = manifest();
    assert!(matches!(activation_step(&config, ActivationEvent::Began { cancelled: false }), ActivationStep::Spawn));
    assert!(matches!(activation_step(&config, ActivationEvent::Spawned(None)), ActivationStep::Handshake));
    let shook = evaluate_handshake_ack(&config, &m, &ack(1, true, None, &["commands"])).err();
    assert!(shook.is_none());
    assert!(matches!(activation_step(&config, ActivationEvent::Handshaken(shook)), ActivationStep::Activate));
    let status = evaluate_activation_reply(reply(true, None));
    assert!(matches!(
        activation_step(&config, ActivationEvent::Answered(status)),
        ActivationStep::TerminateThenFinish(RuntimeStatus::Ready)
    ));
}

#[test]
fn rejected_handshake_closes_the_worker_with_the_reason() {
    let config = worker_config(true);
    let m = manifest();
    let shook = evaluate_handshake_ack(&config, &m, &ack(1, false, Some("busy"), &[])).err();
    match activation_step(&config, ActivationEvent::Handshaken(shook)) {
        ActivationStep::TerminateThenFinish(RuntimeStatus::Failed(e)) => {
            assert_eq!(e.code, RuntimeErrorCode::HandshakeRejected);
            assert_eq!(e.detail, "busy");
        }
        _ => panic!("a refused handshake ends the activation"),
    }
}

#[test]
fn kept_session_is_reused_and_kept_after_a_plugin_refusal() {
    let config = worker_config(true);
    assert!(matches!(activation_step(&config, ActivationEvent::Began { cancelled: false }), ActivationStep::EvictIdleThenPing));
    assert!(matches!(activation_step(&config, ActivationEvent::Pinged(true)), ActivationStep::ReuseThenActivate));
    let status = evaluate_activation_reply(reply(false, Some("no thanks")));
    match activation_step(&config, ActivationEvent::Answered(status)) {
        ActivationStep::KeepThenFinish(RuntimeStatus::Failed(e)) => {
            assert_eq!(e.code, RuntimeErrorCode::ActivationRejected);
            assert_eq!(e.detail, "no thanks");
        }
        _ => panic!("a refusal by the plugin keeps the session"),
    }
}

#[test]
fn silent_kept_session_is_dropped_and_a_worker_spawned() {
    let config = worker_config(true);
    assert!(matches!(activation_step(&config, ActivationEvent::Pinged(false)), ActivationStep::DropThenSpawn));
    let status = evaluate_activation_reply(PluginWireMessage::Pong { request_id: "x".to_string() });
    match activation_step(&config, ActivationEvent::Answered(status)) {
        ActivationStep::TerminateThenFinish(RuntimeStatus::Failed(e)) => assert_eq!(e.code, RuntimeErrorCode::ProtocolViolation),
        _ => panic!("a protocol violation closes the session"),
    }
}

#[test]
fn session_book_never_keeps_more_than_its_limit() {
    let mut book = SessionBook::new();
    for (i, key) in ["a", "b", "c", "d"].iter().enumerate() {
        book.keep(key.to_string(), i as u128, 2);
        assert!(book.len() <= 2);
    }
    assert!(book.take("d"));
    assert!(!book.take("a"));
}
