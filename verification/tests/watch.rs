use xnote_core::watch::{
    collapse_move_pairs, dedup_changes, expand_folder_move_pairs_to_note_moves,
    expand_note_move_pairs_with_prefix, note_path_has_folder_prefix, synthesize_watch_txn_replay_changes,
    changes_of_event, folder_rel_path, note_rel_path, RenameSide, VaultWatchChange, WatchEvent,
    WatchEventKind, WatchEventPath,
};

fn wp(rel: &str, is_dir: bool) -> WatchEventPath {
    WatchEventPath { rel: Some(rel.to_string()), is_dir }
}

fn ev(kind: WatchEventKind, paths: Vec<WatchEventPath>) -> WatchEvent {
    WatchEvent { kind, paths }
}

#[test]
fn dedup_prefers_removed_over_changed_for_same_note() {
    let out = dedup_changes(vec![
        VaultWatchChange::NoteChanged {
            path: "notes/A.md".to_string(),
        },
        VaultWatchChange::NoteRemoved {
            path: "notes/A.md".to_string(),
        },
        VaultWatchChange::NoteChanged {
            path: "notes/B.md".to_string(),
        },
    ])
    .expect("dedup");

    assert_eq!(
        out,
        vec![
            VaultWatchChange::NoteChanged {
                path: "notes/B.md".to_string()
            },
            VaultWatchChange::NoteRemoved {
                path: "notes/A.md".to_string()
            }
        ]
    );
}

#[test]
fn dedup_keeps_rescan_as_single_signal() {
    let out = dedup_changes(vec![
        VaultWatchChange::NoteChanged {
            path: "notes/A.md".to_string(),
        },
        VaultWatchChange::RescanRequired,
        VaultWatchChange::NoteRemoved {
            path: "notes/B.md".to_string(),
        },
    ])
    .expect("dedup");

    assert_eq!(out, vec![VaultWatchChange::RescanRequired]);
}

#[test]
fn dedup_keeps_move_event() {
    let out = dedup_changes(vec![
        VaultWatchChange::NoteMoved {
            from: "notes/A.md".to_string(),
            to: "notes/B.md".to_string(),
        },
        VaultWatchChange::NoteChanged {
            path: "notes/B.md".to_string(),
        },
    ])
    .expect("dedup");

    assert_eq!(
        out,
        vec![VaultWatchChange::NoteMoved {
            from: "notes/A.md".to_string(),
            to: "notes/B.md".to_string()
        }]
    );
}

#[test]
fn dedup_collapses_move_chain() {
    let out = dedup_changes(vec![
        VaultWatchChange::NoteMoved {
            from: "notes/A.md".to_string(),
            to: "notes/B.md".to_string(),
        },
        VaultWatchChange::NoteMoved {
            from: "notes/B.md".to_string(),
            to: "notes/C.md".to_string(),
        },
    ])
    .expect("dedup");

    assert_eq!(
        out,
        vec![
            VaultWatchChange::NoteMoved {
                from: "notes/A.md".to_string(),
                to: "notes/C.md".to_string()
            },
            VaultWatchChange::NoteMoved {
                from: "notes/B.md".to_string(),
                to: "notes/C.md".to_string()
            }
        ]
    );
}

#[test]
fn dedup_keeps_folder_events() {
    let out = dedup_changes(vec![
        VaultWatchChange::FolderCreated {
            path: "notes/new".to_string(),
        },
        VaultWatchChange::FolderCreated {
            path: "notes/new".to_string(),
        },
        VaultWatchChange::FolderRemoved {
            path: "notes/old".to_string(),
        },
    ])
    .expect("dedup");

    assert_eq!(
        out,
        vec![
            VaultWatchChange::FolderCreated {
                path: "notes/new".to_string()
            },
            VaultWatchChange::FolderRemoved {
                path: "notes/old".to_string()
            }
        ]
    );
}

#[test]
fn dedup_collapses_folder_move_chain() {
    let out = dedup_changes(vec![
        VaultWatchChange::FolderMoved {
            from: "notes/a".to_string(),
            to: "notes/b".to_string(),
        },
        VaultWatchChange::FolderMoved {
            from: "notes/b".to_string(),
            to: "notes/c".to_string(),
        },
    ])
    .expect("dedup");

    assert_eq!(
        out,
        vec![
            VaultWatchChange::FolderMoved {
                from: "notes/a".to_string(),
                to: "notes/c".to_string()
            },
            VaultWatchChange::FolderMoved {
                from: "notes/b".to_string(),
                to: "notes/c".to_string()
            }
        ]
    );
}

#[test]
fn collapse_move_pairs_detects_cycle() {
    let moved = vec![
        ("notes/a".to_string(), "notes/b".to_string()),
        ("notes/b".to_string(), "notes/a".to_string()),
    ];
    assert!(collapse_move_pairs(&moved).is_none());
}

#[test]
fn expand_note_move_pairs_with_prefix_expands_existing_paths() {
    let existing = vec![
        "notes/old/a.md".to_string(),
        "notes/old/b.md".to_string(),
        "notes/old/sub/c.md".to_string(),
    ];
    let moved = vec![("notes/old/a.md".to_string(), "notes/new/a.md".to_string())];

    let out = expand_note_move_pairs_with_prefix(&existing, &moved).expect("expanded");
    assert_eq!(
        out,
        vec![
            ("notes/old/a.md".to_string(), "notes/new/a.md".to_string()),
            ("notes/old/b.md".to_string(), "notes/new/b.md".to_string()),
            (
                "notes/old/sub/c.md".to_string(),
                "notes/new/sub/c.md".to_string()
            )
        ]
    );
}

#[test]
fn expand_folder_move_pairs_to_note_moves_rewrites_note_paths() {
    let existing = vec![
        "notes/a/1.md".to_string(),
        "notes/a/sub/2.md".to_string(),
        "notes/x/3.md".to_string(),
    ];
    let folder_moves = vec![("notes/a".to_string(), "notes/b".to_string())];

    let out =
        expand_folder_move_pairs_to_note_moves(&existing, &folder_moves).expect("rewritten");
    assert_eq!(
        out,
        vec![
            ("notes/a/1.md".to_string(), "notes/b/1.md".to_string()),
            (
                "notes/a/sub/2.md".to_string(),
                "notes/b/sub/2.md".to_string()
            )
        ]
    );
}

#[test]
fn note_path_has_folder_prefix_respects_boundaries() {
    assert!(note_path_has_folder_prefix("notes/a/x.md", "notes/a"));
    assert!(!note_path_has_folder_prefix("notes/ab/x.md", "notes/a"));
}

#[test]
fn synthesize_watch_txn_replay_changes_uses_1k_plus_directory_batch() {
    let sample_notes = vec!["notes/a.md".to_string(), "notes/b.md".to_string()];
    let changes = synthesize_watch_txn_replay_changes(&sample_notes, 1_024);

    let folder_ops = changes
        .iter()
        .filter(|change| {
            matches!(
                change,
                VaultWatchChange::FolderCreated { .. }
                    | VaultWatchChange::FolderMoved { .. }
                    | VaultWatchChange::FolderRemoved { .. }
            )
        })
        .count();
    assert!(folder_ops >= 1_024, "expected >= 1024 folder ops, got {folder_ops}");
    assert!(changes.len() > folder_ops, "should include mixed note changes");
}

#[test]
fn replay_changes_pad_directory_numbers_and_rotate_notes() {
    let sample_notes = vec!["notes/a.md".to_string(), "notes/b.md".to_string()];
    let changes = synthesize_watch_txn_replay_changes(&sample_notes, 3);
    assert_eq!(
        changes[0],
        VaultWatchChange::FolderCreated { path: "notes/__watch_txn_batch/d0000".to_string() }
    );
    assert_eq!(
        changes[2],
        VaultWatchChange::FolderMoved {
            from: "notes/__watch_txn_batch_stage/d0000".to_string(),
            to: "notes/__watch_txn_batch_final/d0000".to_string(),
        }
    );
    assert_eq!(
        changes[3],
        VaultWatchChange::FolderRemoved { path: "notes/__watch_txn_batch_final/d0000".to_string() }
    );
    assert_eq!(changes[4], VaultWatchChange::NoteChanged { path: "notes/a.md".to_string() });
    assert_eq!(changes[8], VaultWatchChange::NoteChanged { path: "notes/b.md".to_string() });
    // 1024 directories; every sixth (0, 6, ..., 1020) is also removed; each brings one note change.
    assert_eq!(changes.len(), 1024 * 4 + 171);
    let none = synthesize_watch_txn_replay_changes(&[], 2000);
    assert_eq!(none.len(), 2000 * 3 + 334);
    assert_eq!(
        none[3 * 1000 + 167],
        VaultWatchChange::FolderCreated { path: "notes/__watch_txn_batch/d1000".to_string() }
    );
}

#[test]
fn watched_paths_name_notes_and_folders() {
    assert_eq!(note_rel_path(&wp("notes/a.md", false)), Some("notes/a.md".to_string()));
    assert_eq!(note_rel_path(&wp("notes/a.txt", false)), None);
    assert_eq!(note_rel_path(&wp(".xnote/cache.md", false)), None);
    assert_eq!(note_rel_path(&WatchEventPath { rel: None, is_dir: false }), None);
    assert_eq!(folder_rel_path(&wp("notes/sub/", true), true), Some("notes/sub".to_string()));
    assert_eq!(folder_rel_path(&wp("notes/sub", false), true), None);
    assert_eq!(folder_rel_path(&wp("notes/sub", false), false), Some("notes/sub".to_string()));
    assert_eq!(folder_rel_path(&wp("/", true), true), None);
    assert_eq!(folder_rel_path(&wp(".xnote", true), true), None);
    assert_eq!(folder_rel_path(&wp(".xnote/x", true), true), None);
}

#[test]
fn events_become_changes() {
    assert_eq!(changes_of_event(None), vec![VaultWatchChange::RescanRequired]);
    let changed = ev(
        WatchEventKind::Changed,
        vec![wp("notes/a.md", false), wp("notes/new", true), wp("notes/file.txt", false)],
    );
    assert_eq!(
        changes_of_event(Some(&changed)),
        vec![
            VaultWatchChange::NoteChanged { path: "notes/a.md".to_string() },
            VaultWatchChange::FolderCreated { path: "notes/new".to_string() },
        ]
    );
    let removed = ev(WatchEventKind::Removed, vec![wp("notes/a.md", false), wp("notes/dir", false)]);
    assert_eq!(
        changes_of_event(Some(&removed)),
        vec![VaultWatchChange::NoteRemoved { path: "notes/a.md".to_string() }]
    );
    let folder_gone = ev(WatchEventKind::FolderRemoved, vec![wp("notes/dir/", false)]);
    assert_eq!(
        changes_of_event(Some(&folder_gone)),
        vec![VaultWatchChange::FolderRemoved { path: "notes/dir".to_string() }]
    );
    assert!(changes_of_event(Some(&ev(WatchEventKind::Accessed, vec![wp("notes/a.md", false)]))).is_empty());
}

#[test]
fn rename_events_become_moves() {
    let both = ev(WatchEventKind::Renamed(RenameSide::Both), vec![wp("a.md", false), wp("b.md", false)]);
    assert_eq!(
        changes_of_event(Some(&both)),
        vec![VaultWatchChange::NoteMoved { from: "a.md".to_string(), to: "b.md".to_string() }]
    );
    let folders = ev(WatchEventKind::Renamed(RenameSide::Any), vec![wp("x", false), wp("y", true)]);
    assert_eq!(
        changes_of_event(Some(&folders)),
        vec![VaultWatchChange::FolderMoved { from: "x".to_string(), to: "y".to_string() }]
    );
    let single = ev(WatchEventKind::Renamed(RenameSide::Both), vec![wp("a.md", false)]);
    assert!(changes_of_event(Some(&single)).is_empty());
    let from = ev(WatchEventKind::Renamed(RenameSide::From), vec![wp("old", false)]);
    assert_eq!(
        changes_of_event(Some(&from)),
        vec![VaultWatchChange::FolderRemoved { path: "old".to_string() }]
    );
    let to = ev(WatchEventKind::Renamed(RenameSide::To), vec![wp("new.md", false)]);
    assert_eq!(
        changes_of_event(Some(&to)),
        vec![VaultWatchChange::NoteChanged { path: "new.md".to_string() }]
    );
}
