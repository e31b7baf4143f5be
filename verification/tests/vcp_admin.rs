use serde_json::Value;
use xnote_core::vcp::{VcpHealthCategory, VcpRuntimeConfig};
use xnote_core::vcp_admin::{
    admin_authorization, assemble_probe_report, assemble_vcp_admin_snapshot, bearer_authorization,
    extract_models_from_value, extract_plugins_from_value, extract_string_list_from_value,
    flatten_object_metrics, get_member, normalize_string_array, probe_answered, probe_unreachable,
    stringify_json_value, transport_failure_category, JsonValue, VcpAdminAnswers, admin_answer, parse_json,
    parse_models_from_json_body, FetchFailure,
};

fn to_json(value: &Value) -> JsonValue {
    match value {
        Value::Null => JsonValue::Null,
        Value::Bool(b) => JsonValue::Bool(*b),
        Value::Number(n) => JsonValue::Number(n.to_string()),
        Value::String(s) => JsonValue::Str(s.clone()),
        Value::Array(items) => JsonValue::Array {
            items: items.iter().map(to_json).collect(),
            text: serde_json::to_string(items).unwrap(),
        },
        Value::Object(map) => JsonValue::Object {
            entries: map.iter().map(|(k, v)| (k.clone(), to_json(v))).collect(),
            text: serde_json::to_string(map).unwrap(),
        },
    }
}

fn parse(text: &str) -> JsonValue {
    to_json(&serde_json::from_str::<Value>(text).expect("valid json"))
}

#[test]
fn parse_models_from_json_data_array() {
    let value = parse(r#"{"data":[{"id":"gemini-2.5"},{"id":"gpt-4.1"}],"object":"list"}"#);
    let models = extract_models_from_value(&value);
    assert_eq!(models, vec!["gemini-2.5".to_string(), "gpt-4.1".to_string()]);
}

#[test]
fn extract_plugins_from_mixed_shape() {
    let value = parse(
        r#"{
            "plugins": [
                "ToolA",
                {"name":"ToolB","enabled":true},
                {"pluginName":"ToolC","isEnabled":false}
            ]
        }"#,
    );

    let plugins = extract_plugins_from_value(&value);
    assert_eq!(plugins.len(), 3);
    assert!(plugins.iter().any(|item| item.name == "ToolA"));
    assert!(plugins
        .iter()
        .any(|item| item.name == "ToolB" && item.enabled == Some(true)));
    assert!(plugins
        .iter()
        .any(|item| item.name == "ToolC" && item.enabled == Some(false)));
}

#[test]
fn extract_string_list_from_object_array() {
    let value = parse(
        r#"{
            "data": [
                {"name":"Nova"},
                {"id":"Coder"},
                {"title":"Planner"}
            ]
        }"#,
    );

    let list = extract_string_list_from_value(&value, &["data"]);
    assert_eq!(
        list,
        vec!["Coder".to_string(), "Nova".to_string(), "Planner".to_string()]
    );
}

#[test]
fn flatten_object_metrics_keeps_scalar_entries() {
    let value = parse(
        r#"{
            "cpu": 10,
            "memory": {"used": 1024},
            "ok": true,
            "empty": null
        }"#,
    );

    let metrics = flatten_object_metrics(&value, 10);
    assert!(metrics.iter().any(|entry| entry.key == "cpu"));
    assert!(metrics.iter().any(|entry| entry.key == "memory"));
    assert!(metrics.iter().any(|entry| entry.key == "ok"));
    assert!(!metrics.iter().any(|entry| entry.key == "empty"));
}

#[test]
fn plugins_sorted_and_deduplicated_ignoring_case() {
    let value = parse(
        r#"{"data": ["beta", {"id":"Alpha","active":true}, "alpha", {"enabled":true}, 7, "BETA"]}"#,
    );
    let plugins = extract_plugins_from_value(&value);
    let names: Vec<(String, Option<bool>)> =
        plugins.iter().map(|p| (p.name.clone(), p.enabled)).collect();
    // Sorted by name (upper case first), then equal-but-for-case neighbours dropped.
    assert_eq!(
        names,
        vec![
            ("Alpha".to_string(), Some(true)),
            ("BETA".to_string(), None),
            ("alpha".to_string(), None),
            ("beta".to_string(), None),
        ]
    );
    let listed = extract_plugins_from_value(&parse(r#"["x", "X", "x"]"#));
    assert_eq!(listed.len(), 1);
    assert_eq!(listed[0].name, "X");
}

#[test]
fn models_fall_back_to_named_lists() {
    let models = extract_models_from_value(&parse(r#"{"models": [" b ", "a", "", {"title":"c"}, "a"]}"#));
    assert_eq!(models, vec!["a".to_string(), "b".to_string(), "c".to_string()]);
    let bare = extract_models_from_value(&parse(r#"["m2", "m1"]"#));
    assert_eq!(bare, vec!["m1".to_string(), "m2".to_string()]);
    let none = extract_models_from_value(&parse(r#"{"data": 3}"#));
    assert!(none.is_empty());
    let ids = extract_models_from_value(&parse(r#"{"data": [{"id":" x "}, {"name":"y"}, {"id":" x "}]}"#));
    assert_eq!(ids, vec![" x ".to_string()]);
}

#[test]
fn string_arrays_and_members() {
    let value = parse(r#"{"k": [" one ", {"name":"  ", "id":"two"}, {"fileName":"three"}, null]}"#);
    match get_member(&value, "k") {
        Some(JsonValue::Array { items, .. }) => {
            // A blank first name drops the entry rather than falling back to `id`.
            assert_eq!(normalize_string_array(items), vec!["one".to_string(), "three".to_string()]);
        }
        other => panic!("unexpected {other:?}"),
    }
    assert!(get_member(&value, "missing").is_none());
    assert!(get_member(&parse("[1]"), "k").is_none());
}

#[test]
fn metric_texts_and_limits() {
    assert_eq!(stringify_json_value(&parse("null")), "");
    assert_eq!(stringify_json_value(&parse("false")), "false");
    assert_eq!(stringify_json_value(&parse("1.5")), "1.5");
    assert_eq!(stringify_json_value(&parse("[]")), "");
    assert_eq!(stringify_json_value(&parse("[1, 2]")), "[1,2]");
    assert_eq!(stringify_json_value(&parse(r#"{"a": {"b": 1}}"#)), r#"{"a":{"b":1}}"#);
    let value = parse(r#"{"a": 1, "b": " ", "c": 3, "d": 4}"#);
    let metrics = flatten_object_metrics(&value, 2);
    let pairs: Vec<(String, String)> = metrics.iter().map(|m| (m.key.clone(), m.value.clone())).collect();
    assert_eq!(pairs, vec![("a".to_string(), "1".to_string()), ("c".to_string(), "3".to_string())]);
    assert!(flatten_object_metrics(&parse("[1]"), 5).is_empty());
}

#[test]
fn authorization_headers() {
    assert_eq!(bearer_authorization(&Some("  key ".to_string())), Some("Bearer key".to_string()));
    assert_eq!(bearer_authorization(&Some("   ".to_string())), None);
    assert_eq!(bearer_authorization(&None), None);
    assert_eq!(admin_authorization(&Some(" Basic abc ".to_string())), Some("Basic abc".to_string()));
    assert_eq!(admin_authorization(&Some("".to_string())), None);
}

#[test]
fn probe_findings() {
    let unreachable = probe_unreachable(" http://x:1 ", VcpHealthCategory::InvalidEndpoint, "no port");
    assert_eq!(unreachable.detail, "http://x:1 (no port)");
    assert_eq!(unreachable.status_code, None);
    let answered = probe_answered("http://x:1/v1/models", 401, Some("{}".to_string()));
    assert_eq!(answered.category, VcpHealthCategory::Unauthorized);
    assert_eq!(answered.detail, "http://x:1/v1/models -> HTTP 401");
    assert_eq!(transport_failure_category("Connection Timed Out"), VcpHealthCategory::Timeout);
    assert_eq!(transport_failure_category("refused"), VcpHealthCategory::NetworkError);

    let ok = probe_answered("http://x:1/v1/models", 200, Some(r#"{"data":[{"id":"m"}]}"#.to_string()));
    let report = assemble_probe_report(ok, answered);
    assert_eq!(report.chat.category, VcpHealthCategory::Connected);
    assert_eq!(report.admin.status_code, Some(401));
    assert_eq!(report.models, vec!["m".to_string()]);
}

#[test]
fn admin_snapshot_from_answers() {
    let config = VcpRuntimeConfig { admin_endpoint: "http://h:6005/admin_api/".to_string(), ..VcpRuntimeConfig::default() };
    let answers = VcpAdminAnswers {
        models: Ok(parse(r#"{"data":[{"id":"b"},{"id":"a"}]}"#)),
        plugins: Err("request failed".to_string()),
        agents: Ok(parse(r#"{"files": ["z", "y"]}"#)),
        rag_tags: Ok(parse(r#"["t"]"#)),
        schedules: Err("timeout".to_string()),
        clusters: Ok(parse(r#"{"available_clusters": [{"name":"c1"}]}"#)),
        config: Ok(parse(r#"{"empty": ""}"#)),
        vectordb: Ok(parse(r#"{"docs": 3}"#)),
        resources: Ok(parse(r#"{"cpu": "5%"}"#)),
    };
    let snap = assemble_vcp_admin_snapshot(&config, 42, &answers);
    assert_eq!(snap.generated_at_epoch_ms, 42);
    assert_eq!(snap.models, vec!["a".to_string(), "b".to_string()]);
    assert!(snap.plugins.is_empty());
    assert_eq!(snap.agents, vec!["y".to_string(), "z".to_string()]);
    assert_eq!(snap.rag_tags, vec!["t".to_string()]);
    assert!(snap.schedules.is_empty());
    assert_eq!(snap.clusters, vec!["c1".to_string()]);
    assert_eq!(snap.config_items.len(), 1);
    assert_eq!(snap.config_items[0].key, "admin_endpoint");
    assert_eq!(snap.config_items[0].value, "http://h:6005");
    let sys: Vec<(String, String)> = snap.system_metrics.iter().map(|m| (m.key.clone(), m.value.clone())).collect();
    assert_eq!(sys, vec![("docs".to_string(), "3".to_string()), ("cpu".to_string(), "5%".to_string())]);
    assert_eq!(
        snap.warnings,
        vec![
            "plugins endpoint failed: request failed".to_string(),
            "schedules endpoint failed: timeout".to_string()
        ]
    );
}

#[test]
fn parse_json_reads_values_and_refuses_other_text() {
    assert_eq!(parse_json(r#"{"a":[1,true,"x"]}"#), Some(parse(r#"{"a":[1,true,"x"]}"#)));
    assert_eq!(parse_json("not json"), None);
}

#[test]
fn admin_answer_names_the_failing_stage() {
    let e = "http://h/admin_api/plugins";
    assert_eq!(admin_answer(Err(FetchFailure::Request), e), Err(format!("request {e}")));
    assert_eq!(admin_answer(Err(FetchFailure::ReadBody), e), Err(format!("read response body {e}")));
    assert_eq!(admin_answer(Ok("{".to_string()), e), Err(format!("parse response json {e}")));
    assert_eq!(admin_answer(Ok("[1]".to_string()), e), Ok(parse("[1]")));
}

#[test]
fn models_from_a_chat_answer_body() {
    assert!(parse_models_from_json_body(None).is_empty());
    assert!(parse_models_from_json_body(Some("oops".to_string())).is_empty());
    assert_eq!(
        parse_models_from_json_body(Some(r#"{"data":[{"id":"b"},{"id":"a"},{"id":"b"}]}"#.to_string())),
        vec!["a".to_string(), "b".to_string()]
    );
}
