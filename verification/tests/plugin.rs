use xnote_core::command::CommandId;
use xnote_core::host::ActivationCancellation;
use xnote_core::plugin::{
    run_host_activation, runtime_failed, PluginActivationEvent, PluginCapability,
    PluginLifecycleState, PluginManifest, PluginPolicy, PluginRegistry, PluginRuntime,
    ProcessRuntimeConfig, RuntimeActivationResult, RuntimeActivationSpec, RuntimeErrorCode,
    RuntimeStatus,
};

struct FakeRuntime {
    status: RuntimeStatus,
    elapsed_ms: u128,
}

impl PluginRuntime for FakeRuntime {
    fn activate(
        &mut self,
        _manifest: &PluginManifest,
        _trigger: &PluginActivationEvent,
        _spec: RuntimeActivationSpec,
        _cancellation: &ActivationCancellation,
    ) -> RuntimeActivationResult {
        RuntimeActivationResult {
            status: self.status.clone(),
            elapsed_ms: self.elapsed_ms,
        }
    }
}

fn base_manifest(id: &str) -> PluginManifest {
    PluginManifest {
        id: id.to_string(),
        display_name: id.to_string(),
        version: "0.1.0".to_string(),
        capabilities: vec![PluginCapability::Commands],
        command_allowlist: vec![CommandId::QuickOpen],
        activation_events: vec![PluginActivationEvent::OnCommand(CommandId::QuickOpen)],
    }
}

#[test]
fn process_runtime_config_negotiates_protocol_from_supported_set() {
    let mut config = ProcessRuntimeConfig::new("worker", Vec::new());
    config.protocol_version = 2;
    config.supported_protocol_versions = vec![3, 2, 1];

    assert_eq!(config.negotiate_protocol(3), Some(3));
    assert_eq!(config.negotiate_protocol(2), Some(2));
    assert_eq!(config.negotiate_protocol(1), Some(1));
    assert_eq!(config.negotiate_protocol(4), None);
    assert_eq!(config.negotiate_protocol(0), None);
}

#[test]
fn process_runtime_config_normalizes_session_policy_values() {
    let mut config = ProcessRuntimeConfig::new("worker", Vec::new());
    config.session_ping_timeout_ms = 0;
    config.max_keep_alive_sessions = 0;
    config.session_idle_ttl_ms = 0;

    assert_eq!(config.normalized_session_ping_timeout_ms(), 10);
    assert_eq!(config.normalized_max_keep_alive_sessions(), 1);
    assert_eq!(config.normalized_session_idle_ttl_ms(), 100);
}

#[test]
fn registry_blocks_network_when_policy_disables_it() {
    let mut registry = PluginRegistry::default();
    let result = registry.register_manifest(PluginManifest {
        id: "x.network".to_string(),
        display_name: "Network".to_string(),
        version: "0.1.0".to_string(),
        capabilities: vec![PluginCapability::Network],
        command_allowlist: vec![],
        activation_events: vec![PluginActivationEvent::OnStartupFinished],
    });
    assert!(result.is_err());
}

#[test]
fn registry_accepts_commands_allowlist_when_capability_present() {
    let mut registry = PluginRegistry::default();
    let result = registry.register_manifest(base_manifest("x.quick_open"));
    assert!(result.is_ok());
}

#[test]
fn startup_event_activates_plugin() {
    let mut registry = PluginRegistry::default();
    registry
        .register_manifest(PluginManifest {
            id: "x.startup".to_string(),
            display_name: "Startup".to_string(),
            version: "0.1.0".to_string(),
            capabilities: vec![PluginCapability::ReadVault],
            command_allowlist: vec![],
            activation_events: vec![PluginActivationEvent::OnStartupFinished],
        })
        .expect("register manifest");

    let outcomes = registry.trigger_event(PluginActivationEvent::OnStartupFinished);
    assert_eq!(outcomes.len(), 1);
    assert!(outcomes[0].activated);
    assert_eq!(registry.active_count(), 1);
}

#[test]
fn command_event_only_activates_matching_plugin() {
    let mut registry = PluginRegistry::default();
    registry
        .register_manifest(base_manifest("x.quick_open"))
        .expect("register quick open plugin");
    registry
        .register_manifest(PluginManifest {
            id: "x.save_file".to_string(),
            display_name: "Save File".to_string(),
            version: "0.1.0".to_string(),
            capabilities: vec![PluginCapability::Commands],
            command_allowlist: vec![CommandId::SaveFile],
            activation_events: vec![PluginActivationEvent::OnCommand(CommandId::SaveFile)],
        })
        .expect("register save plugin");

    let outcomes =
        registry.trigger_event(PluginActivationEvent::OnCommand(CommandId::QuickOpen));
    assert_eq!(outcomes.len(), 1);
    assert_eq!(outcomes[0].plugin_id, "x.quick_open");
    assert_eq!(registry.active_count(), 1);
}

#[test]
fn plugin_disabled_after_repeated_activation_failures() {
    let mut registry = PluginRegistry::with_policy(PluginPolicy {
        allow_network: false,
        max_failed_activations: 2,
        activation_timeout_ms: 2000,
    });
    registry
        .register_manifest(PluginManifest {
            id: "x.flaky".to_string(),
            display_name: "Flaky".to_string(),
            version: "0.1.0".to_string(),
            capabilities: vec![PluginCapability::ReadVault],
            command_allowlist: vec![],
            activation_events: vec![PluginActivationEvent::OnStartupFinished],
        })
        .expect("register plugin");

    let mut runtime = FakeRuntime {
        status: runtime_failed(RuntimeErrorCode::ActivationRejected, "activation failed"),
        elapsed_ms: 20,
    };

    let _ = registry
        .trigger_event_with_runtime(PluginActivationEvent::OnStartupFinished, &mut runtime);
    let _ = registry
        .trigger_event_with_runtime(PluginActivationEvent::OnStartupFinished, &mut runtime);

    let runtime_state = registry.runtime("x.flaky").expect("runtime state exists");
    assert_eq!(runtime_state.state, PluginLifecycleState::Disabled);
    assert_eq!(runtime_state.failed_attempts, 2);
}

#[test]
fn timeout_cancels_activation() {
    let mut registry = PluginRegistry::with_policy(PluginPolicy {
        allow_network: false,
        max_failed_activations: 3,
        activation_timeout_ms: 50,
    });
    registry
        .register_manifest(PluginManifest {
            id: "x.slow".to_string(),
            display_name: "Slow".to_string(),
            version: "0.1.0".to_string(),
            capabilities: vec![PluginCapability::ReadVault],
            command_allowlist: vec![],
            activation_events: vec![PluginActivationEvent::OnStartupFinished],
        })
        .expect("register plugin");

    let mut runtime = FakeRuntime {
        status: RuntimeStatus::Ready,
        elapsed_ms: 120,
    };

    let outcomes = registry
        .trigger_event_with_runtime(PluginActivationEvent::OnStartupFinished, &mut runtime);
    assert_eq!(outcomes.len(), 1);
    assert_eq!(outcomes[0].state, PluginLifecycleState::Cancelled);
    assert!(!outcomes[0].activated);
}

#[test]
fn host_boundary_function_applies_timeout() {
    let manifest = PluginManifest {
        id: "x.boundary".to_string(),
        display_name: "Boundary".to_string(),
        version: "0.1.0".to_string(),
        capabilities: vec![PluginCapability::ReadVault],
        command_allowlist: vec![],
        activation_events: vec![PluginActivationEvent::OnStartupFinished],
    };
    let trigger = PluginActivationEvent::OnStartupFinished;
    let mut runtime = FakeRuntime {
        status: RuntimeStatus::Ready,
        elapsed_ms: 100,
    };
    let cancellation = ActivationCancellation::new();

    let result = run_host_activation(
        &mut runtime,
        &manifest,
        &trigger,
        RuntimeActivationSpec { timeout_ms: 10 },
        &cancellation,
    );

    assert_eq!(result.status, RuntimeStatus::Cancelled);
}

#[test]
fn cancellation_token_short_circuits_host_activation() {
    let manifest = PluginManifest {
        id: "x.cancel".to_string(),
        display_name: "Cancel".to_string(),
        version: "0.1.0".to_string(),
        capabilities: vec![PluginCapability::ReadVault],
        command_allowlist: vec![],
        activation_events: vec![PluginActivationEvent::OnStartupFinished],
    };
    let trigger = PluginActivationEvent::OnStartupFinished;
    let mut runtime = FakeRuntime {
        status: RuntimeStatus::Ready,
        elapsed_ms: 1,
    };
    let cancellation = ActivationCancellation::new();
    cancellation.cancel();

    let result = run_host_activation(
        &mut runtime,
        &manifest,
        &trigger,
        RuntimeActivationSpec { timeout_ms: 2000 },
        &cancellation,
    );

    assert_eq!(result.status, RuntimeStatus::Cancelled);
}

#[test]
fn trigger_event_blocks_disallowed_capability_by_policy() {
    let mut registry = PluginRegistry::with_policy(PluginPolicy {
        allow_network: false,
        max_failed_activations: 3,
        activation_timeout_ms: 2000,
    });
    registry
        .register_manifest(PluginManifest {
            id: "x.policy.net".to_string(),
            display_name: "Policy Net".to_string(),
            version: "0.1.0".to_string(),
            capabilities: vec![PluginCapability::Network],
            command_allowlist: vec![],
            activation_events: vec![PluginActivationEvent::OnStartupFinished],
        })
        .expect_err("registration should fail by manifest validator");

    let mut registry = PluginRegistry::with_policy(PluginPolicy {
        allow_network: true,
        max_failed_activations: 3,
        activation_timeout_ms: 2000,
    });
    registry
        .register_manifest(PluginManifest {
            id: "x.policy.net.allowed".to_string(),
            display_name: "Policy Net Allowed".to_string(),
            version: "0.1.0".to_string(),
            capabilities: vec![PluginCapability::Network],
            command_allowlist: vec![],
            activation_events: vec![PluginActivationEvent::OnStartupFinished],
        })
        .expect("register plugin");

    registry.set_policy(PluginPolicy {
        allow_network: false,
        max_failed_activations: 3,
        activation_timeout_ms: 2000,
    });

    let outcomes = registry.trigger_event(PluginActivationEvent::OnStartupFinished);
    assert_eq!(outcomes.len(), 1);
    assert!(matches!(outcomes[0].state, PluginLifecycleState::Failed));
    assert!(outcomes[0]
        .error
        .as_deref()
        .unwrap_or_default()
        .contains("capability blocked by host policy"));
}

#[test]
fn quick_open_trigger_activates_only_the_quick_open_plugin() {
    let mut registry = PluginRegistry::default();
    registry.register_manifest(base_manifest("x.quick_open")).unwrap();
    registry
        .register_manifest(PluginManifest {
            id: "x.save_file".to_string(),
            display_name: "Save File".to_string(),
            version: "0.1.0".to_string(),
            capabilities: vec![PluginCapability::Commands],
            command_allowlist: vec![CommandId::SaveFile],
            activation_events: vec![PluginActivationEvent::OnCommand(CommandId::SaveFile)],
        })
        .unwrap();
    let outcomes = registry.trigger_event(PluginActivationEvent::OnCommand(CommandId::QuickOpen));
    assert_eq!(outcomes.len(), 1);
    assert_eq!(outcomes[0].plugin_id, "x.quick_open");
    assert!(outcomes[0].activated);
    assert_eq!(registry.active_count(), 1);
    assert_eq!(registry.runtime("x.quick_open").unwrap().state, PluginLifecycleState::Active);
    assert_eq!(registry.runtime("x.save_file").unwrap().state, PluginLifecycleState::Registered);
}

#[test]
fn default_activation_timeout_is_two_seconds() {
    assert_eq!(
        xnote_core::plugin::default_activation_timeout(),
        std::time::Duration::from_millis(2000)
    );
}
