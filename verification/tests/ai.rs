use xnote_core::ai::{
    generate_ai_tool_descriptor_bundle, generate_mcp_tool_descriptions,
    generate_vcp_tool_descriptions, AiEngine, AiPolicy, AiRewriteRequest, AiVariableRegistry,
    AiVariableScope, MockAiProvider, VcpToolPolicy, VcpToolRegistry, VcpToolRequest,
    VcpToolRequestParser,
};

#[test]
fn ai_engine_dry_run_returns_proposal() {
    let engine = AiEngine::new(MockAiProvider, AiPolicy::default());
    let request = AiRewriteRequest {
        note_path: "notes/demo.md".to_string(),
        selection: "A\tline\n\n\nB".to_string(),
        instruction: "Polish text".to_string(),
    };

    let result = engine
        .rewrite_selection(&request, false)
        .expect("dry run proposal");

    assert!(result.dry_run);
    assert!(!result.applied);
    assert_eq!(result.proposal.provider, "mock");
    assert_eq!(result.proposal.model, "mock-draft-v1");
    assert_eq!(result.proposal.replacement, "A    line\n\n\nB");
}

#[test]
fn ai_engine_apply_is_policy_guarded() {
    let policy = AiPolicy {
        allow_apply: false,
        max_selection_chars: 200,
    };
    let engine = AiEngine::new(MockAiProvider, policy);
    let request = AiRewriteRequest {
        note_path: "notes/demo.md".to_string(),
        selection: "A".to_string(),
        instruction: String::new(),
    };

    let err = engine
        .rewrite_selection(&request, true)
        .expect_err("apply must be blocked");
    assert!(err.to_string().contains("policy gate"));
}

#[test]
fn variable_registry_respects_progressive_disclosure() {
    let mut registry = AiVariableRegistry::default();
    registry.insert_global("Date", "2026-02-10");
    registry.insert_knowledge("CurrentNotePath", "notes/demo.md");

    let global =
        registry.render_template("{{Date}} | {{CurrentNotePath}}", AiVariableScope::Global);
    assert_eq!(global, "2026-02-10 | {{CurrentNotePath}}");

    let knowledge =
        registry.render_template("{{Date}} | {{CurrentNotePath}}", AiVariableScope::Knowledge);
    assert_eq!(knowledge, "2026-02-10 | notes/demo.md");
}

#[test]
fn vcp_tool_parser_extracts_wrapped_block() {
    let input = "prefix\n<<<[TOOL_REQUEST]>>>\n\
tool_name:\u{300c}\u{59cb}\u{300d}xnote.vault.read_note\u{300c}\u{672b}\u{300d},\n\
note_path:\u{300c}\u{59cb}\u{300d}notes/demo.md\u{300c}\u{672b}\u{300d}\n\
<<<[END_TOOL_REQUEST]>>>\nsuffix";

    let parsed = VcpToolRequestParser::parse_first(input)
        .expect("parser result")
        .expect("request");

    assert_eq!(parsed.tool_name, "xnote.vault.read_note");
    assert_eq!(
        parsed
            .args
            .iter()
            .find(|(key, _)| key == "note_path")
            .map(|(_, value)| value.as_str()),
        Some("notes/demo.md")
    );
}

#[test]
fn vcp_tool_registry_blocks_write_without_permission() {
    let request = VcpToolRequest {
        tool_name: "xnote.vault.write_note".to_string(),
        args: vec![
            ("content".to_string(), "hello".to_string()),
            ("note_path".to_string(), "notes/demo.md".to_string()),
        ],
        no_reply: false,
        mark_history: false,
    };

    let registry = VcpToolRegistry::with_xnote_defaults();
    let err = registry
        .validate_request(&request, &VcpToolPolicy::default())
        .expect_err("write must be blocked by default policy");

    assert!(err.to_string().contains("requires write permission"));
}

#[test]
fn generate_vcp_and_mcp_tool_descriptions_from_same_registry() {
    let registry = VcpToolRegistry::with_xnote_defaults();
    let vcp = generate_vcp_tool_descriptions(&registry);
    let mcp = generate_mcp_tool_descriptions(&registry);

    assert!(!vcp.is_empty());
    assert_eq!(vcp.len(), mcp.len());
    assert!(vcp.iter().any(|item| {
        item.tool_name == "xnote.vault.read_note"
            && item.invocation_snippet.contains("<<<[TOOL_REQUEST]>>>")
    }));
    assert!(mcp.iter().any(|item| {
        item.name == "xnote.vault.read_note" && item.input_schema_json.contains("note_path")
    }));
}

#[test]
fn generate_ai_tool_descriptor_bundle_contains_dual_protocol_payload() {
    let registry = VcpToolRegistry::with_xnote_defaults();
    let bundle = generate_ai_tool_descriptor_bundle(&registry);

    assert_eq!(bundle.schema_version, "xnote.ai.tools.v1");
    assert!(bundle.generated_at_epoch_ms > 0);
    assert!(!bundle.vcp.is_empty());
    assert_eq!(bundle.vcp.len(), bundle.mcp.len());
}

#[test]
fn dry_run_proposal_carries_provider_answer_names_and_rationale() {
    let engine = AiEngine::new(MockAiProvider, AiPolicy::default());
    let request = AiRewriteRequest {
        note_path: "notes/demo.md".to_string(),
        selection: "A\tline\n\n\nB".to_string(),
        instruction: "Polish text".to_string(),
    };
    let r = engine.rewrite_selection(&request, false).unwrap();
    assert!(r.dry_run && !r.applied);
    assert_eq!(r.proposal.provider, "mock");
    assert_eq!(r.proposal.model, "mock-draft-v1");
    assert_eq!(r.proposal.replacement, "A    line\n\n\nB");
    assert_eq!(r.proposal.rationale, "Polish text");
}

#[test]
fn proposal_from_answer_uses_the_answer_and_names() {
    let request = AiRewriteRequest {
        note_path: "n.md".to_string(),
        selection: "old".to_string(),
        instruction: "  ".to_string(),
    };
    let r = xnote_core::ai::proposal_from_answer(Ok("new text".to_string()), &request, "p", "m", true).unwrap();
    assert_eq!(r.proposal.replacement, "new text");
    assert_eq!(r.proposal.provider, "p");
    assert_eq!(r.proposal.model, "m");
    assert_eq!(r.proposal.rationale, "normalized selection formatting");
    assert!(r.applied && !r.dry_run);
}

#[test]
fn proposal_from_answer_refuses_empty_and_passes_errors_on() {
    let request = AiRewriteRequest {
        note_path: "n.md".to_string(),
        selection: "old".to_string(),
        instruction: "x".to_string(),
    };
    let empty = xnote_core::ai::proposal_from_answer(Ok(String::new()), &request, "p", "m", false);
    assert_eq!(empty.unwrap_err(), "provider returned empty rewrite result");
    let failed = xnote_core::ai::proposal_from_answer(Err("down".to_string()), &request, "p", "m", false);
    assert_eq!(failed.unwrap_err(), "down");
}

#[test]
fn descriptor_bundle_pairs_vcp_and_mcp_names_by_index() {
    let registry = VcpToolRegistry::with_xnote_defaults();
    let bundle = generate_ai_tool_descriptor_bundle(&registry);
    assert_eq!(bundle.vcp.len(), 4);
    assert_eq!(bundle.mcp.len(), 4);
    for i in 0..4 {
        assert_eq!(bundle.vcp[i].tool_name, bundle.mcp[i].name);
    }
    assert_eq!(bundle.vcp[0].tool_name, "xnote.knowledge.search");
}

#[test]
fn mcp_input_schema_is_an_object_of_required_string_arguments() {
    let registry = VcpToolRegistry::with_xnote_defaults();
    let mcp = generate_mcp_tool_descriptions(&registry);
    let read = mcp.iter().find(|d| d.name == "xnote.vault.read_note").unwrap();
    let v: serde_json::Value = serde_json::from_str(&read.input_schema_json).unwrap();
    assert_eq!(v["type"], "object");
    assert_eq!(v["additionalProperties"], false);
    assert_eq!(v["required"][0], "note_path");
    assert_eq!(v["properties"]["note_path"]["type"], "string");
    assert_eq!(
        v["properties"]["note_path"]["description"],
        "Argument `note_path` for tool `xnote.vault.read_note`"
    );
    assert_eq!(read.input_schema_json, serde_json::to_string_pretty(&v).unwrap());
}

#[test]
fn tool_round_reads_the_models_answer() {
    let registry = VcpToolRegistry::with_xnote_defaults();
    let policy = VcpToolPolicy::default();
    match xnote_core::ai::tool_round(Ok("plain answer".to_string()), &registry, &policy) {
        Ok(xnote_core::ai::ToolRound::Final(t)) => assert_eq!(t, "plain answer"),
        _ => panic!("an answer without tool blocks is final"),
    }
    assert!(matches!(xnote_core::ai::tool_round(Err("down".to_string()), &registry, &policy), Err(e) if e == "down"));
    let ask = "<<<[TOOL_REQUEST]>>>\n\
tool_name:\u{300c}\u{59cb}\u{300d}xnote.vault.read_note\u{300c}\u{672b}\u{300d},\n\
note_path:\u{300c}\u{59cb}\u{300d}a.md\u{300c}\u{672b}\u{300d}\n\
<<<[END_TOOL_REQUEST]>>>";
    match xnote_core::ai::tool_round(Ok(ask.to_string()), &registry, &policy) {
        Ok(xnote_core::ai::ToolRound::Call(q)) => assert_eq!(q.tool_name, "xnote.vault.read_note"),
        other => panic!("expected a tool call, got {}", matches!(other, Err(_))),
    }
}
