use xnote_core::paths::{normalize_folder_rel_path, normalize_vault_rel_path, posix_text, rel_segments, PathError};

#[test]
fn normalize_rejects_empty() {
  assert!(normalize_vault_rel_path("  ").is_err());
}

#[test]
fn normalize_rejects_traversal() {
  assert!(normalize_vault_rel_path("../a.md").is_err());
  assert!(normalize_folder_rel_path("a/../b").is_err());
}

#[test]
fn normalize_accepts_leading_dot_slash() {
  assert_eq!(normalize_vault_rel_path("./a.md").unwrap(), "a.md");
  assert_eq!(normalize_vault_rel_path("././a.md").unwrap(), "a.md");
  assert_eq!(normalize_folder_rel_path("./notes/").unwrap(), "notes");
  assert_eq!(normalize_folder_rel_path("././notes").unwrap(), "notes");
}

#[test]
fn normalize_accepts_leading_slashes() {
  assert_eq!(normalize_vault_rel_path("/a.md").unwrap(), "a.md");
  assert_eq!(normalize_vault_rel_path("///a.md").unwrap(), "a.md");
  assert_eq!(normalize_folder_rel_path("/notes/").unwrap(), "notes");
}

#[test]
fn normalize_converts_backslashes() {
  assert_eq!(normalize_vault_rel_path(r#"a\b.md"#).unwrap(), "a/b.md");
}

#[test]
fn posix_text_and_segments() {
    assert_eq!(posix_text(Some("a\\b\\c.md")), Ok("a/b/c.md".to_string()));
    assert_eq!(posix_text(None), Err(PathError::NotUtf8));
    assert_eq!(rel_segments("notes/sub/a.md"), Ok(vec!["notes".to_string(), "sub".to_string(), "a.md".to_string()]));
    assert_eq!(rel_segments("notes/../a.md"), Err(PathError::InvalidPath));
    assert_eq!(rel_segments("notes//a.md"), Err(PathError::InvalidPath));
    assert_eq!(PathError::InvalidPath.message(), "invalid path");
}

#[test]
fn normalizing_a_normalized_path_gives_it_back() {
    for raw in ["notes\\a.md", "./notes/b.md", "//x/y.md", "  ./././c/d.md  "] {
        let once = normalize_vault_rel_path(raw).unwrap();
        assert_eq!(normalize_vault_rel_path(&once).unwrap(), once);
    }
}

#[test]
fn whitespace_exposed_by_dot_slash_is_trimmed_the_second_time() {
    let once = normalize_vault_rel_path("./ a").unwrap();
    assert_eq!(once, " a");
    assert_eq!(normalize_vault_rel_path(&once).unwrap(), "a");
}
