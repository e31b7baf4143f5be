use xnote_core::vault::{assemble_scan, format_order_md, parse_order_md};

#[test]
fn parse_order_extracts_paths() {
    let content = r#"
# Order for notes/
- [[path:notes/Intro.md]]
- [[path:notes/Basics.md]]
- [[id:01H...]]
"#;
    let parsed = parse_order_md(content);
    assert_eq!(parsed, vec!["notes/Intro.md", "notes/Basics.md"]);
}

#[test]
fn format_order_writes_markdown_list() {
    let out = format_order_md("notes", &["notes/A.md".into()]);
    assert!(out.contains("# Order for notes/"));
    assert!(out.contains("- [[path:notes/A.md]]"));
}

#[test]
fn order_file_reads_back_what_was_written() {
    let paths = vec!["notes/b.md".to_string(), "notes/a.md".to_string(), "notes/sub/c.md".to_string()];
    let text = format_order_md(" notes/ ", &paths);
    assert!(text.starts_with("# Order for notes/\n"));
    assert_eq!(parse_order_md(&text), paths);
    assert!(parse_order_md(&format_order_md("notes", &[])).is_empty());
}

#[test]
fn scan_keeps_vault_content_sorted() {
    let folders = vec!["notes/".to_string(), ".xnote".to_string(), ".xnote/cache".to_string(), "a".to_string(), "notes".to_string()];
    let notes = vec!["notes/b.md".to_string(), ".xnote/x.md".to_string(), "a/a.md".to_string()];
    let scan = assemble_scan(&folders, &notes);
    assert_eq!(scan.folders, vec!["a".to_string(), "notes".to_string()]);
    let paths: Vec<String> = scan.notes.iter().map(|n| n.path.clone()).collect();
    assert_eq!(paths, vec!["a/a.md".to_string(), "notes/b.md".to_string()]);
}

#[test]
fn scan_keeps_only_markdown_files() {
    let notes = vec![
        "a/x.MD".to_string(),
        "a/y.txt".to_string(),
        "a/.md".to_string(),
        "a.md/readme".to_string(),
        "b/z.md".to_string(),
    ];
    let scan = assemble_scan(&vec![], &notes);
    let paths: Vec<String> = scan.notes.iter().map(|n| n.path.clone()).collect();
    assert_eq!(paths, vec!["a/x.MD".to_string(), "b/z.md".to_string()]);
}
