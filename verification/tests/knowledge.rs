use xnote_core::knowledge::{parse_note_metadata, KnowledgeIndex, NoteSource, SearchOptions, UpsertError};
use xnote_core::paths::PathError;

#[test]
fn parse_metadata_extracts_title_frontmatter_links_and_tags() {
    let content = r#"---
aliases: Demo
kind: note
---
# My Title
Body with [[Linked/Note]] and #tag_one #tag-two.
"#;

    let meta = parse_note_metadata(content, "notes/Fallback.md");
    assert_eq!(meta.title, "My Title");
    assert_eq!(
        meta.frontmatter
            .iter()
            .find(|(key, _)| key == "aliases")
            .map(|(_, value)| value.as_str()),
        Some("Demo")
    );
    assert_eq!(meta.links, vec!["Linked/Note"]);
    assert!(meta.tags.contains(&"tag_one".to_string()));
    assert!(meta.tags.contains(&"tag-two".to_string()));
}

#[test]
fn build_from_entries_keeps_last_content_per_path_and_drops_invalid_paths() {
    let entries = vec![
        ("notes/a.md".to_string(), "# First\n".to_string()),
        ("../bad.md".to_string(), "# Bad\n".to_string()),
        ("notes/a.md".to_string(), "# Second\n".to_string()),
        ("notes/b.md".to_string(), "# B\n".to_string()),
    ];
    let index = KnowledgeIndex::build_from_entries(&entries).expect("build");
    assert_eq!(index.note_count(), 2);
    assert_eq!(index.note_summary("notes/a.md").expect("a").title, "Second");
    assert!(index.note_summary("notes/b.md").is_some());
}

struct MemNotes(Vec<(String, String)>);

impl NoteSource for MemNotes {
    fn note_content(&self, path: &str) -> Option<String> {
        self.0.iter().find(|(p, _)| p == path).map(|(_, c)| c.clone())
    }
}

#[test]
fn search_keeps_within_the_row_budget_and_reports_indexed_notes() {
    let notes = MemNotes(vec![
        ("a.md".to_string(), "alpha one\nalpha two\n".to_string()),
        ("b.md".to_string(), "beta\nAlpha three\n".to_string()),
    ]);
    let mut index = KnowledgeIndex::empty();
    for (p, c) in &notes.0 {
        index.upsert_note(p, c).unwrap();
    }
    let mut options = SearchOptions::default();
    options.max_match_rows = 3;
    let outcome = index.search(&notes, "  alpha ", options);
    assert_eq!(outcome.query, "alpha");
    let shown: usize = outcome.hits.iter().map(|h| h.previews.len()).sum();
    assert!(shown <= 3);
    assert_eq!(outcome.hits.len(), 2);
    for h in &outcome.hits {
        assert!(h.path == "a.md" || h.path == "b.md");
        assert!(h.match_count >= 1);
    }
    assert_ne!(outcome.hits[0].path, outcome.hits[1].path);
    let a = outcome.hits.iter().find(|h| h.path == "a.md").unwrap();
    assert_eq!(a.match_count, 2);
}

#[test]
fn removing_a_note_forgets_only_that_note() {
    let mut index = KnowledgeIndex::empty();
    index.upsert_note("a.md", "# A\n").unwrap();
    index.upsert_note("b.md", "# B\n").unwrap();
    let b_before = index.note_summary("b.md");
    index.remove_note("./a.md");
    assert!(index.note_summary("a.md").is_none());
    assert_eq!(index.note_count(), 1);
    assert_eq!(index.note_summary("b.md"), b_before);
    index.upsert_note("b.md", "# B2\n").unwrap();
    assert_eq!(index.note_count(), 1);
    assert_eq!(index.note_summary("b.md").unwrap().title, "B2");
}

#[test]
fn search_stops_once_the_row_budget_is_spent() {
    let notes = MemNotes(vec![
        ("a.md".to_string(), "alpha one\nalpha two\n".to_string()),
        ("b.md".to_string(), "alpha three\nalpha four\n".to_string()),
    ]);
    let mut index = KnowledgeIndex::empty();
    for (p, c) in &notes.0 {
        index.upsert_note(p, c).unwrap();
    }
    let mut options = SearchOptions::default();
    options.max_match_rows = 2;
    let outcome = index.search(&notes, "alpha", options);
    assert_eq!(outcome.hits.len(), 1);
    assert_eq!(outcome.hits[0].previews.len(), 2);
}

#[test]
fn indexing_from_a_source_refuses_missing_notes_and_bad_paths() {
    let notes = MemNotes(vec![("a.md".to_string(), "# A\nalpha\n".to_string())]);
    let mut index = KnowledgeIndex::empty();
    assert_eq!(index.upsert_note_from(&notes, "missing.md"), Err(UpsertError::Unreadable));
    assert_eq!(index.note_count(), 0);
    assert_eq!(index.upsert_note_from(&notes, "../x.md"), Err(UpsertError::Path(PathError::InvalidPath)));
    assert_eq!(index.upsert_note_from(&notes, "./a.md"), Ok(()));
    assert_eq!(index.note_count(), 1);
    assert_eq!(index.note_summary("a.md").unwrap().title, "A");
}

#[test]
fn quick_open_lists_distinct_indexed_paths_within_the_limit() {
    let mut index = KnowledgeIndex::empty();
    for p in ["notes/alpha.md", "notes/alpine.md", "b/alps.md", "c/other.md"] {
        index.upsert_note(p, "# t\n").unwrap();
    }
    let all = index.all_paths_sorted();
    let r = index.quick_open_paths("al", 2);
    assert!(r.len() <= 2);
    assert!(r.iter().all(|p| all.contains(p)));
    assert!(r.len() < 2 || r[0] != r[1]);
    assert!(index.quick_open_paths("al", 0).is_empty());
    assert_eq!(index.quick_open_paths("  ", 3), all.into_iter().take(3).collect::<Vec<_>>());
}

#[test]
fn search_reports_every_matching_note_within_the_limits() {
    let notes = MemNotes(vec![
        ("a.md".to_string(), "gamma\n".to_string()),
        ("b.md".to_string(), "gamma gamma\n".to_string()),
        ("c.md".to_string(), "delta\n".to_string()),
    ]);
    let mut index = KnowledgeIndex::empty();
    for (p, c) in &notes.0 {
        index.upsert_note(p, c).unwrap();
    }
    let outcome = index.search(&notes, "gamma", SearchOptions::default());
    let mut paths: Vec<String> = outcome.hits.iter().map(|h| h.path.clone()).collect();
    paths.sort();
    assert_eq!(paths, vec!["a.md".to_string(), "b.md".to_string()]);
}
