use xnote_core::plugin_protocol::PluginWireMessage;
use xnote_core::plugin_worker::{
    parse_activate_ok, parse_reported_capabilities, worker_step, WorkerAction, WorkerSettings,
};

fn settings() -> WorkerSettings {
    WorkerSettings { delay_ms: 0, activate_ok: true, protocol_override: None, reported_capabilities: None }
}

fn handshake(version: u32, supported: Vec<u32>) -> PluginWireMessage {
    PluginWireMessage::Handshake {
        protocol_version: version,
        supported_protocol_versions: supported,
        plugin_id: "p".to_string(),
        plugin_version: "1".to_string(),
        capabilities: vec!["commands".to_string()],
    }
}

fn ack_of(action: WorkerAction) -> (u32, Vec<String>) {
    match action {
        WorkerAction::Reply {
            message: PluginWireMessage::HandshakeAck { protocol_version, accepted: true, reason: None, reported_capabilities },
            delay_ms: 0,
        } => (protocol_version, reported_capabilities),
        other => panic!("unexpected {other:?}"),
    }
}

#[test]
fn worker_handshake_selects_a_version() {
    let (seen, action) = worker_step(&settings(), false, handshake(2, vec![3, 2, 1]));
    assert!(seen);
    assert_eq!(ack_of(action), (2, vec!["commands".to_string()]));
    let (_, action) = worker_step(&settings(), false, handshake(5, vec![1, 3, 2]));
    assert_eq!(ack_of(action).0, 3);
    let (_, action) = worker_step(&settings(), false, handshake(4, vec![]));
    assert_eq!(ack_of(action).0, 4);
    let custom = WorkerSettings {
        protocol_override: Some(9),
        reported_capabilities: Some(vec!["network".to_string()]),
        ..settings()
    };
    let (_, action) = worker_step(&custom, false, handshake(1, vec![1]));
    assert_eq!(ack_of(action), (9, vec!["network".to_string()]));
}

#[test]
fn worker_answers_only_after_handshake() {
    let activate = PluginWireMessage::Activate { request_id: "r1".to_string(), event: "e".to_string(), timeout_ms: 10 };
    assert_eq!(worker_step(&settings(), false, activate.clone()), (false, WorkerAction::Stop));
    let ping = PluginWireMessage::Ping { request_id: "p1".to_string() };
    assert_eq!(worker_step(&settings(), false, ping.clone()), (false, WorkerAction::Stop));
    assert_eq!(
        worker_step(&settings(), true, ping),
        (true, WorkerAction::Reply { message: PluginWireMessage::Pong { request_id: "p1".to_string() }, delay_ms: 0 })
    );
    let slow = WorkerSettings { delay_ms: 500, activate_ok: false, ..settings() };
    assert_eq!(
        worker_step(&slow, true, activate),
        (
            true,
            WorkerAction::Reply {
                message: PluginWireMessage::ActivateResult {
                    request_id: "r1".to_string(),
                    ok: false,
                    error: Some("worker activation failed".to_string()),
                },
                delay_ms: 30,
            }
        )
    );
    let cancel = PluginWireMessage::Cancel { request_id: "r1".to_string(), reason: "x".to_string() };
    assert_eq!(worker_step(&settings(), true, cancel), (true, WorkerAction::Stop));
    let stray = PluginWireMessage::Pong { request_id: "x".to_string() };
    assert_eq!(worker_step(&settings(), true, stray), (true, WorkerAction::Ignore));
}

#[test]
fn worker_settings_parse() {
    assert_eq!(parse_reported_capabilities(" read_vault, ,network,"), vec!["read_vault".to_string(), "network".to_string()]);
    assert!(parse_reported_capabilities("").is_empty());
    assert!(parse_activate_ok(None));
    assert!(parse_activate_ok(Some("TRUE")));
    assert!(parse_activate_ok(Some("1")));
    assert!(!parse_activate_ok(Some("yes")));
}
