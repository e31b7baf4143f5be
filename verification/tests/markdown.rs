use xnote_core::markdown::{
    lint_markdown, lint_markdown_with_providers, parse_markdown, parse_markdown_summary,
    parse_markdown_window, MarkdownDiagnostic, MarkdownDiagnosticSeverity,
    MarkdownDiagnosticsProvider, MarkdownInvalidationWindow,
};

struct TestProvider;

impl MarkdownDiagnosticsProvider for TestProvider {
    fn provide(&self, _text: &str) -> Vec<MarkdownDiagnostic> {
        vec![MarkdownDiagnostic {
            line: 2,
            severity: MarkdownDiagnosticSeverity::Info,
            message: "provider-message".to_string(),
        }]
    }
}

#[test]
fn parse_markdown_extracts_headings_links_and_blocks() {
    let doc = "# Title\n\nHello [x](https://example.com)\n\n```rs\nfn main(){}\n```\n";
    let parsed = parse_markdown(doc);
    assert_eq!(parsed.summary.headings.len(), 1);
    assert_eq!(parsed.summary.headings[0], (1, "Title".to_string()));
    assert_eq!(parsed.summary.links.len(), 1);
    assert_eq!(parsed.summary.links[0], "https://example.com".to_string());
    assert_eq!(parsed.summary.code_fence_count, 1);
    assert!(parsed.summary.block_count >= 3);
}

#[test]
fn invalidation_window_clamps_and_merges() {
    let mut a = MarkdownInvalidationWindow::from_edit(10..14, 2, 40, 6);
    assert_eq!(a.as_range(), 4..18);

    let b = MarkdownInvalidationWindow::new(16, 30);
    a.merge(&b);
    assert_eq!(a.as_range(), 4..30);
    assert_eq!(a.len(), 26);
}

#[test]
fn parse_markdown_window_offsets_blocks() {
    let doc = "prefix\n# Heading\n\nbody\n";
    let start = doc.find('#').expect("heading start");
    let window = MarkdownInvalidationWindow::new(start, doc.len());
    let parsed = parse_markdown_window(doc, &window);

    let first = parsed.blocks.first().expect("first block");
    assert_eq!(first.start_offset, start);
    assert!(parsed
        .blocks
        .iter()
        .all(|block| block.start_offset >= window.start));
}

#[test]
fn parse_markdown_summary_matches_full_summary_counts() {
    let doc = "# A\n\n## B\n[link](https://x.dev)\n\n```rs\nfn main() {}\n```\n";
    let summary_only = parse_markdown_summary(doc);
    let full = parse_markdown(doc).summary;

    assert_eq!(summary_only.headings.len(), full.headings.len());
    assert_eq!(summary_only.links.len(), full.links.len());
    assert_eq!(summary_only.code_fence_count, full.code_fence_count);
    assert_eq!(summary_only.block_count, full.block_count);
}

#[test]
fn lint_markdown_detects_heading_jump_and_unclosed_fence() {
    let doc = "# H1\n### H3\n```\nbody\n";
    let diagnostics = lint_markdown(doc);

    assert!(diagnostics
        .iter()
        .any(|d| d.message.contains("heading level jump")));
    assert!(diagnostics
        .iter()
        .any(|d| d.message.contains("unclosed code fence")));
}

#[test]
fn lint_markdown_with_provider_merges_results() {
    let doc = "# H1\n# Another\n";
    let provider = TestProvider;
    let diagnostics = lint_markdown_with_providers(doc, &[&provider]);

    assert!(diagnostics
        .iter()
        .any(|d| d.message.contains("multiple H1 headings")));
    assert!(diagnostics.iter().any(|d| d.message == "provider-message"));
}

#[test]
fn lint_with_provider_gives_lint_findings_and_provider_output_in_order() {
    let provider = TestProvider;
    let diagnostics = lint_markdown_with_providers("# H1\n# Another\n", &[&provider]);
    assert_eq!(
        diagnostics,
        vec![
            MarkdownDiagnostic {
                line: 2,
                severity: MarkdownDiagnosticSeverity::Warning,
                message: "multiple H1 headings (first at line 1)".to_string(),
            },
            MarkdownDiagnostic {
                line: 2,
                severity: MarkdownDiagnosticSeverity::Info,
                message: "provider-message".to_string(),
            },
        ]
    );
}

#[test]
fn lint_with_two_providers_keeps_both_outputs() {
    let provider = TestProvider;
    let diagnostics = lint_markdown_with_providers("plain\n", &[&provider, &provider]);
    assert_eq!(diagnostics.len(), 2);
    assert!(diagnostics.iter().all(|d| d.message == "provider-message"));
}

#[test]
fn soft_break_inside_paragraph_becomes_space() {
    let parsed = parse_markdown("a\nb\n");
    assert_eq!(parsed.blocks.len(), 1);
    assert_eq!(parsed.blocks[0].text, "a  b");
}

#[test]
fn quote_and_list_blocks_close_at_their_end() {
    let parsed = parse_markdown("> q\n\n- x\n");
    assert_eq!(parsed.summary.code_fence_count, 0);
    assert!(parsed.blocks.iter().any(|b| b.kind == xnote_core::markdown::MarkdownBlockKind::Quote));
    assert!(parsed.blocks.iter().any(|b| b.kind == xnote_core::markdown::MarkdownBlockKind::List));
}
