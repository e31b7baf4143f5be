use xnote_core::note_meta::{ensure_frontmatter_note_id, extract_note_id_from_frontmatter, normalize_note_id};

#[test]
fn normalize_note_id_rejects_invalid_characters() {
    assert!(normalize_note_id("01HABC").is_ok());
    assert!(normalize_note_id("01H_ABC-123").is_ok());
    assert!(normalize_note_id("../bad").is_err());
    assert!(normalize_note_id("bad value").is_err());
}

#[test]
fn ensure_frontmatter_note_id_inserts_into_existing_frontmatter() {
    let content = "---\naliases: [\"Guide\"]\n---\n# Title\n";
    let (next, id, changed) = ensure_frontmatter_note_id(content, "01HNOTE").expect("ensure");
    assert!(changed);
    assert_eq!(id, "01HNOTE");
    assert!(next.contains("aliases: [\"Guide\"]\nid: 01HNOTE\n---"));
}

#[test]
fn ensure_frontmatter_note_id_prepends_when_missing_frontmatter() {
    let content = "# Title\nBody\n";
    let (next, id, changed) = ensure_frontmatter_note_id(content, "01HNOTE").expect("ensure");
    assert!(changed);
    assert_eq!(id, "01HNOTE");
    assert!(next.starts_with("---\nid: 01HNOTE\n---\n# Title\n"));
}

#[test]
fn ensure_frontmatter_note_id_keeps_existing_id() {
    let content = "---\nid: 01HOLD\n---\n# Title\n";
    let (next, id, changed) =
        ensure_frontmatter_note_id(content, "01HNEW").expect("ensure existing");
    assert!(!changed);
    assert_eq!(id, "01HOLD");
    assert_eq!(next, content);
}

#[test]
fn ensured_id_reads_back_and_second_call_is_unchanged() {
    let inputs = [
        "# Title\r\nbody\r\n",
        "---\ntitle: x\n---\nbody\n",
        "---\n---\n",
        "plain",
    ];
    for input in inputs {
        let (content, id, changed) = ensure_frontmatter_note_id(input, "note-42").unwrap();
        assert!(changed);
        assert_eq!(id, "note-42");
        assert_eq!(extract_note_id_from_frontmatter(&content), Some("note-42".to_string()));
        let (again, id2, changed2) = ensure_frontmatter_note_id(&content, "other").unwrap();
        assert_eq!(again, content);
        assert_eq!(id2, "note-42");
        assert!(!changed2);
    }
}
