use xnote_core::knowledge::{KnowledgeIndex, NoteSource};
use xnote_core::watch::{synthesize_watch_txn_replay_changes, VaultWatchChange};
use xnote_core::watch_apply::{
    apply_watch_changes_benchmark, plan_watch_replay, WatchReplay, WatchStep,
};

struct MemVault {
    notes: Vec<(String, String)>,
}

impl MemVault {
    fn new(notes: &[(&str, &str)]) -> MemVault {
        MemVault {
            notes: notes
                .iter()
                .map(|(p, c)| (p.to_string(), c.to_string()))
                .collect(),
        }
    }

    fn write(&mut self, path: &str, content: &str) {
        self.notes.retain(|(p, _)| p != path);
        self.notes.push((path.to_string(), content.to_string()));
    }

    fn remove(&mut self, path: &str) {
        self.notes.retain(|(p, _)| p != path);
    }

    fn index(&self) -> KnowledgeIndex {
        KnowledgeIndex::build_from_entries(&self.notes).expect("build knowledge index")
    }
}

impl NoteSource for MemVault {
    fn note_content(&self, path: &str) -> Option<String> {
        self.notes
            .iter()
            .find(|(p, _)| p == path)
            .map(|(_, c)| c.clone())
    }
}

fn applied(r: WatchReplay) -> xnote_core::watch_apply::WatchApplyBenchmarkStats {
    match r {
        WatchReplay::Applied(stats) => stats,
        WatchReplay::Rebuild => panic!("expected an incremental replay"),
    }
}

#[test]
fn apply_watch_changes_benchmark_skips_rebuild_for_irrelevant_large_folder_batch() {
    let vault = MemVault::new(&[("notes/alpha.md", "# Alpha\n"), ("notes/beta.md", "# Beta\n")]);
    let mut index = vault.index();
    let base_note_count = index.note_count();
    let paths: Vec<String> = vault.notes.iter().map(|(p, _)| p.clone()).collect();
    let changes = synthesize_watch_txn_replay_changes(&paths, 1_024);
    let stats = applied(
        apply_watch_changes_benchmark(&mut index, &vault, changes).expect("apply watch changes"),
    );
    assert_eq!(stats.rebuild_count, 0);
    assert_eq!(index.note_count(), base_note_count);
}

#[test]
fn apply_watch_changes_benchmark_note_only_stays_incremental() {
    let mut vault = MemVault::new(&[("notes/draft.md", "# Draft\nold\n")]);
    let mut index = vault.index();
    vault.write("notes/draft.md", "# Draft\nnew\n");
    let stats = applied(
        apply_watch_changes_benchmark(
            &mut index,
            &vault,
            vec![VaultWatchChange::NoteChanged {
                path: "notes/draft.md".to_string(),
            }],
        )
        .expect("apply note change"),
    );
    assert_eq!(stats.rebuild_count, 0);
    assert_eq!(stats.note_upsert_count, 1);
}

#[test]
fn apply_watch_changes_benchmark_applies_folder_move_incrementally() {
    let mut vault = MemVault::new(&[("notes/a/moved.md", "# Move\n")]);
    let mut index = vault.index();
    vault.remove("notes/a/moved.md");
    vault.write("notes/b/moved.md", "# Move\n");
    let stats = applied(
        apply_watch_changes_benchmark(
            &mut index,
            &vault,
            vec![VaultWatchChange::FolderMoved {
                from: "notes/a".to_string(),
                to: "notes/b".to_string(),
            }],
        )
        .expect("apply folder move"),
    );
    assert_eq!(stats.rebuild_count, 0);
    assert!(index.note_summary("notes/a/moved.md").is_none());
    assert!(index.note_summary("notes/b/moved.md").is_some());
}

#[test]
fn rescan_in_a_batch_forces_rebuild_and_leaves_index() {
    let vault = MemVault::new(&[("notes/a.md", "# A\n")]);
    let mut index = vault.index();
    let r = apply_watch_changes_benchmark(
        &mut index,
        &vault,
        vec![
            VaultWatchChange::NoteRemoved {
                path: "notes/a.md".to_string(),
            },
            VaultWatchChange::RescanRequired,
        ],
    )
    .expect("replay");
    assert_eq!(r, WatchReplay::Rebuild);
    assert_eq!(index.note_count(), 1);
}

#[test]
fn note_changes_plan_refreshes_each_note_once_in_path_order() {
    let existing = vec!["notes/a.md".to_string()];
    let changes = vec![
        VaultWatchChange::NoteChanged { path: "notes/z.md".to_string() },
        VaultWatchChange::NoteChanged { path: "notes/a.md".to_string() },
        VaultWatchChange::NoteChanged { path: "notes/z.md".to_string() },
    ];
    let plan = plan_watch_replay(&existing, &changes).expect("incremental");
    assert_eq!(
        plan,
        vec![
            WatchStep::Refresh("notes/a.md".to_string()),
            WatchStep::Refresh("notes/z.md".to_string()),
        ]
    );
}

#[test]
fn plan_orders_folder_steps_then_removals_moves_and_refreshes() {
    let existing = vec![
        "notes/gone/x.md".to_string(),
        "notes/old/y.md".to_string(),
        "notes/stay.md".to_string(),
    ];
    let changes = vec![
        VaultWatchChange::NoteChanged { path: "notes/stay.md".to_string() },
        VaultWatchChange::NoteMoved { from: "notes/p.md".to_string(), to: "notes/q.md".to_string() },
        VaultWatchChange::NoteMoved { from: "notes/q.md".to_string(), to: "notes/r.md".to_string() },
        VaultWatchChange::FolderRemoved { path: "notes/gone".to_string() },
        VaultWatchChange::FolderMoved { from: "notes/old".to_string(), to: "notes/new".to_string() },
        VaultWatchChange::NoteRemoved { path: "notes/dead.md".to_string() },
    ];
    let plan = plan_watch_replay(&existing, &changes).expect("incremental");
    assert_eq!(
        plan,
        vec![
            WatchStep::Remove("notes/gone/x.md".to_string()),
            WatchStep::Relocate { from: "notes/old/y.md".to_string(), to: "notes/new/y.md".to_string() },
            WatchStep::Remove("notes/dead.md".to_string()),
            WatchStep::MoveNote { from: "notes/p.md".to_string(), to: "notes/r.md".to_string() },
            WatchStep::MoveNote { from: "notes/q.md".to_string(), to: "notes/r.md".to_string() },
            WatchStep::Refresh("notes/stay.md".to_string()),
        ]
    );
}

#[test]
fn cyclic_note_moves_call_for_rebuild() {
    let changes = vec![
        VaultWatchChange::NoteMoved { from: "notes/a.md".to_string(), to: "notes/b.md".to_string() },
        VaultWatchChange::NoteMoved { from: "notes/b.md".to_string(), to: "notes/a.md".to_string() },
    ];
    assert!(plan_watch_replay(&Vec::new(), &changes).is_none());
}

#[test]
fn unreadable_move_target_counts_move_without_upsert() {
    let vault = MemVault::new(&[("notes/p.md", "# P\n")]);
    let mut index = vault.index();
    let stats = applied(
        apply_watch_changes_benchmark(
            &mut index,
            &vault,
            vec![VaultWatchChange::NoteMoved {
                from: "notes/p.md".to_string(),
                to: "notes/q.md".to_string(),
            }],
        )
        .expect("replay"),
    );
    assert_eq!(stats.note_remove_count, 1);
    assert_eq!(stats.note_upsert_count, 0);
    assert_eq!(stats.note_move_count, 1);
    assert_eq!(index.note_count(), 0);
}
