use serde_json::Value;
use xnote_core::ai::VcpToolRequest;
use xnote_core::ai_vcp::{
    completion_endpoint_for, extract_completion_text, parse_flag, summarize_tool_args,
    summarize_tool_detail, tool_args_summarizable, tool_audit_entry, tool_detail_summarizable,
};
use xnote_core::vcp_admin::JsonValue;

fn to_json(value: &Value) -> JsonValue {
    match value {
        Value::Null => JsonValue::Null,
        Value::Bool(b) => JsonValue::Bool(*b),
        Value::Number(n) => JsonValue::Number(n.to_string()),
        Value::String(s) => JsonValue::Str(s.clone()),
        Value::Array(items) => JsonValue::Array {
            items: items.iter().map(to_json).collect(),
            text: serde_json::to_string(items).unwrap(),
        },
        Value::Object(map) => JsonValue::Object {
            entries: map.iter().map(|(k, v)| (k.clone(), to_json(v))).collect(),
            text: serde_json::to_string(map).unwrap(),
        },
    }
}

fn parse(text: &str) -> JsonValue {
    to_json(&serde_json::from_str::<Value>(text).expect("valid json"))
}

#[test]
fn completion_endpoint_switches_to_chatvcp() {
    let plain = "http://127.0.0.1:5890/v1/chat/completions";
    assert_eq!(completion_endpoint_for(plain, false), plain);
    assert_eq!(completion_endpoint_for(plain, true), "http://127.0.0.1:5890/v1/chatvcp/completions");
    assert_eq!(
        completion_endpoint_for("http://h/v1/chatvcp/completions", true),
        "http://h/v1/chatvcp/completions"
    );
    assert_eq!(completion_endpoint_for("http://h/", true), "http://h/v1/chatvcp/completions");
    assert_eq!(completion_endpoint_for("http://h", true), "http://h/v1/chatvcp/completions");
}

#[test]
fn environment_flags() {
    assert!(parse_flag(Some(" Yes "), false));
    assert!(!parse_flag(Some("off"), true));
    assert!(parse_flag(Some("maybe"), true));
    assert!(!parse_flag(None, false));
}

#[test]
fn completion_text_is_found_where_providers_put_it() {
    let message = parse(r#"{"choices":[{"message":{"content":"  hello  "}}]}"#);
    assert_eq!(extract_completion_text(&message), Some("hello".to_string()));
    let chunks = parse(r#"{"choices":[{"message":{"content":[{"text":"a"},{"content":"b"},{"x":1}]}}]}"#);
    assert_eq!(extract_completion_text(&chunks), Some("ab".to_string()));
    let delta = parse(r#"{"choices":[{"message":{"content":"  "},"delta":{"content":"d"}}]}"#);
    assert_eq!(extract_completion_text(&delta), Some("d".to_string()));
    let nested = parse(r#"{"response":{"choices":[{"message":{"content":"n"}}]}}"#);
    assert_eq!(extract_completion_text(&nested), Some("n".to_string()));
    assert_eq!(extract_completion_text(&parse(r#"{"choices":[]}"#)), None);
    assert_eq!(extract_completion_text(&parse(r#"{"choices":[{"message":{"content":7}}]}"#)), None);
}

#[test]
fn tool_details_are_trimmed_and_cut() {
    assert_eq!(summarize_tool_detail("  a\r\nb  ", 10), "a\nb");
    assert_eq!(summarize_tool_detail("abcdef", 3), "abc...");
    assert!(tool_detail_summarizable("é", 1) == false);
    assert!(tool_detail_summarizable("éa", 2));
    assert_eq!(summarize_tool_detail("éab", 2), "é...");
}

#[test]
fn tool_args_are_listed() {
    assert_eq!(summarize_tool_args(&vec![], 10), "{}");
    let args = vec![("path".to_string(), "notes/a.md".to_string()), ("query".to_string(), "x\ny".to_string())];
    assert!(tool_args_summarizable(&args, 220));
    assert_eq!(summarize_tool_args(&args, 220), "path=notes/a.md, query=x y");
    assert_eq!(summarize_tool_args(&args, 6), "path=n...");
}

#[test]
fn audit_entry_for_a_tool_run() {
    let request = VcpToolRequest {
        tool_name: "read_note".to_string(),
        args: vec![("path".to_string(), "a.md".to_string())],
        no_reply: false,
        mark_history: false,
    };
    let entry = tool_audit_entry(7, 1, &request, " payload ", Some("rid".to_string()), None, 3, 4);
    assert_eq!(entry.event, "tool_execution");
    assert_eq!(entry.detail, "payload");
    assert_eq!(entry.args_summary.as_deref(), Some("path=a.md"));
    assert_eq!(entry.outcome_category.as_deref(), Some("tool_executed"));
    assert_eq!(entry.model_latency_ms, Some(3));
    assert_eq!((entry.timestamp_epoch_ms, entry.round), (7, 1));
}

#[test]
fn rewrite_prompts_fill_the_templates() {
    let request = xnote_core::ai::AiRewriteRequest {
        note_path: "notes/a.md".to_string(),
        selection: "some text".to_string(),
        instruction: "  Shorten  ".to_string(),
    };
    let (system, user) = xnote_core::ai_vcp::vcp_rewrite_prompts(
        &request,
        &xnote_core::ai::VcpToolRegistry::with_xnote_defaults(),
    );
    assert!(system.starts_with("You are the XNote rewrite engine.\n"));
    assert!(system.ends_with("\nCurrent note: notes/a.md"));
    assert!(system.contains("Available tools:\n- xnote.knowledge.search (ReadOnly)\n  - "));
    assert!(!system.contains("{{VcpToolList}}"));
    assert_eq!(user, "Rewrite instruction:\nShorten\n\nSelected text:\n```text\nsome text\n```");
}

#[test]
fn rewrite_prompts_use_the_default_instruction_when_blank() {
    let request = xnote_core::ai::AiRewriteRequest {
        note_path: "n.md".to_string(),
        selection: "x".to_string(),
        instruction: "   ".to_string(),
    };
    let (_, user) = xnote_core::ai_vcp::vcp_rewrite_prompts(
        &request,
        &xnote_core::ai::VcpToolRegistry::default(),
    );
    assert!(user.starts_with(
        "Rewrite instruction:\nPolish the selected text while keeping the original meaning and language.\n"
    ));
}

#[test]
fn completion_from_body_reads_the_assistant_text() {
    let body = r#"{"choices":[{"message":{"content":"hello"}}]}"#;
    assert_eq!(xnote_core::ai_vcp::completion_from_body(body), Ok("hello".to_string()));
    assert_eq!(
        xnote_core::ai_vcp::completion_from_body("nope"),
        Err("failed to decode VCP response JSON".to_string())
    );
    assert_eq!(
        xnote_core::ai_vcp::completion_from_body("{}"),
        Err("vcp response missing assistant content (expected choices[0].message.content)".to_string())
    );
}
