//! Replaying a batch of vault changes onto a knowledge index: the batch is turned into a
//! plan of index steps (or a call for a full rebuild), and the steps are applied one by
//! one with the note contents read at that moment.
use vstd::prelude::*;
use crate::sorted::{strictly_sorted, sviews, set_of, set_insert, sorted_list, lemma_sorted_is_sorted_list, keys_sorted, key_views, key_index, map_of, map_insert, string_eq, lex_lt, lemma_lex_irreflexive, lemma_map_of_at, lemma_map_of_has};
use crate::knowledge::{KnowledgeIndex, NoteSource, NoteModel, note_paths_of, without_note, upserted};
use crate::paths::{spec_normalize_vault_rel_path, PathError};
use crate::watch::{VaultWatchChange, ChangeModel, change_views, pair_views, under_folder, note_path_has_folder_prefix, moves_of, chains_end, collapsed, collapse_move_pairs, map_pairs, lemma_pair_views_map_pairs, prefix_order, rewrite_with_folders, order_longest_first, rewrite_note_path_with_folder_moves};

verus! {

/// What one batch gathers: the notes changed and removed, the note moves (a later move of
/// a source replaces an earlier one), the folders removed and the folder moves; `rescan`
/// once a change asks for a full rescan, after which nothing more is gathered.
pub struct ReplayBatch {
    pub rescan: bool,
    pub changed: Set<Seq<char>>,
    pub removed: Set<Seq<char>>,
    pub note_moves: Map<Seq<char>, Seq<char>>,
    pub folder_removed: Set<Seq<char>>,
    pub folder_moves: Map<Seq<char>, Seq<char>>,
}

pub open spec fn empty_batch() -> ReplayBatch {
    ReplayBatch {
        rescan: false,
        changed: Set::empty(),
        removed: Set::empty(),
        note_moves: Map::empty(),
        folder_removed: Set::empty(),
        folder_moves: Map::empty(),
    }
}

/// The batch after one more change.
pub open spec fn replay_step(b: ReplayBatch, c: ChangeModel) -> ReplayBatch {
    if b.rescan {
        b
    } else {
        match c {
            ChangeModel::NoteChanged(p) => ReplayBatch { changed: b.changed.insert(p), ..b },
            ChangeModel::NoteRemoved(p) => ReplayBatch { removed: b.removed.insert(p), ..b },
            ChangeModel::NoteMoved(f, t) => if f != t {
                ReplayBatch { note_moves: b.note_moves.insert(f, t), ..b }
            } else {
                b
            },
            ChangeModel::FolderCreated(_) => b,
            ChangeModel::FolderRemoved(p) => ReplayBatch { folder_removed: b.folder_removed.insert(p), ..b },
            ChangeModel::FolderMoved(f, t) => if f != t {
                ReplayBatch { folder_moves: b.folder_moves.insert(f, t), ..b }
            } else {
                b
            },
            ChangeModel::RescanRequired => ReplayBatch { rescan: true, ..b },
        }
    }
}

pub open spec fn replay_batch(cs: Seq<ChangeModel>) -> ReplayBatch
    decreases cs.len(),
{
    if cs.len() == 0 {
        empty_batch()
    } else {
        replay_step(replay_batch(cs.drop_last()), cs.last())
    }
}

/// No move in the map stays in place.
pub open spec fn no_identity(m: Map<Seq<char>, Seq<char>>) -> bool {
    forall|k: Seq<char>| #[trigger] m.contains_key(k) ==> m[k] != k
}

struct Gathered {
    rescan: bool,
    changed: Vec<String>,
    removed: Vec<String>,
    note_moves: Vec<(String, String)>,
    folder_removed: Vec<String>,
    folder_moves: Vec<(String, String)>,
}

impl Gathered {
    spec fn model(&self) -> ReplayBatch {
        ReplayBatch {
            rescan: self.rescan,
            changed: set_of(self.changed@),
            removed: set_of(self.removed@),
            note_moves: map_of(self.note_moves@),
            folder_removed: set_of(self.folder_removed@),
            folder_moves: map_of(self.folder_moves@),
        }
    }

    spec fn sorted(&self) -> bool {
        &&& strictly_sorted(sviews(self.changed@))
        &&& strictly_sorted(sviews(self.removed@))
        &&& keys_sorted(self.note_moves@)
        &&& strictly_sorted(sviews(self.folder_removed@))
        &&& keys_sorted(self.folder_moves@)
        &&& no_identity(map_of(self.note_moves@))
        &&& no_identity(map_of(self.folder_moves@))
    }
}

proof fn lemma_empty_sets()
    ensures
        set_of(Seq::<String>::empty()) == Set::<Seq<char>>::empty(),
        map_of(Seq::<(String, String)>::empty()) == Map::<Seq<char>, Seq<char>>::empty(),
        strictly_sorted(sviews(Seq::<String>::empty())),
        keys_sorted(Seq::<(String, String)>::empty()),
{
    assert(set_of(Seq::<String>::empty()) =~= Set::<Seq<char>>::empty());
    assert(map_of(Seq::<(String, String)>::empty()) =~= Map::<Seq<char>, Seq<char>>::empty());
}

fn gather(changes: &Vec<VaultWatchChange>) -> (g: Gathered)
    ensures
        g.sorted(),
        g.model() == replay_batch(change_views(changes@)),
{
    proof {
        lemma_empty_sets();
    }
    let mut g = Gathered {
        rescan: false,
        changed: Vec::new(),
        removed: Vec::new(),
        note_moves: Vec::new(),
        folder_removed: Vec::new(),
        folder_moves: Vec::new(),
    };
    let ghost cv = change_views(changes@);
    assert(cv.take(0) =~= Seq::<ChangeModel>::empty());
    let mut i: usize = 0;
    while i < changes.len()
        invariant
            i <= changes.len(),
            cv == change_views(changes@),
            g.sorted(),
            g.model() == replay_batch(cv.take(i as int)),
        decreases changes.len() - i,
    {
        assert(cv.take(i + 1).drop_last() =~= cv.take(i as int));
        assert(cv.take(i + 1).last() == changes@[i as int]@);
        if !g.rescan {
            match &changes[i] {
                VaultWatchChange::NoteChanged { path } => {
                    set_insert(&mut g.changed, path.clone());
                },
                VaultWatchChange::NoteRemoved { path } => {
                    set_insert(&mut g.removed, path.clone());
                },
                VaultWatchChange::NoteMoved { from, to } => {
                    if !string_eq(from, to) {
                        map_insert(&mut g.note_moves, from.clone(), to.clone());
                    }
                },
                VaultWatchChange::FolderCreated { .. } => {},
                VaultWatchChange::FolderRemoved { path } => {
                    set_insert(&mut g.folder_removed, path.clone());
                },
                VaultWatchChange::FolderMoved { from, to } => {
                    if !string_eq(from, to) {
                        map_insert(&mut g.folder_moves, from.clone(), to.clone());
                    }
                },
                VaultWatchChange::RescanRequired => {
                    g.rescan = true;
                },
            }
        }
        i += 1;
    }
    assert(cv.take(changes.len() as int) =~= cv);
    g
}


/// A key-sorted list of moves, none in place, states exactly the moves of its map.
proof fn lemma_moves_of_sorted(v: Seq<(String, String)>)
    requires
        keys_sorted(v),
        no_identity(map_of(v)),
    ensures
        moves_of(pair_views(v)) == Some(map_of(v)),
    decreases v.len(),
{
    if v.len() == 0 {
        assert(pair_views(v) =~= Seq::<(Seq<char>, Seq<char>)>::empty());
        assert(map_of(v) =~= Map::<Seq<char>, Seq<char>>::empty());
    } else {
        let n = v.len() - 1;
        let u = v.drop_last();
        assert(key_views(u) =~= key_views(v).drop_last());
        assert forall|a: int, b: int| 0 <= a < b < key_views(u).len() implies lex_lt(
            #[trigger] key_views(u)[a],
            #[trigger] key_views(u)[b],
        ) by {
            assert(key_views(u)[a] == key_views(v)[a] && key_views(u)[b] == key_views(v)[b]);
        }
        assert forall|k: Seq<char>| #[trigger] map_of(u).contains_key(k) implies map_of(u)[k] != k by {
            lemma_map_of_has(u, k);
            let j = key_index(u, k);
            lemma_map_of_at(u, j);
            lemma_map_of_at(v, j);
        }
        lemma_moves_of_sorted(u);
        assert(pair_views(v).drop_last() =~= pair_views(u));
        let f = v[n].0@;
        let t = v[n].1@;
        lemma_map_of_at(v, n);
        assert(pair_views(v).last() == (f, t));
        if map_of(u).contains_key(f) {
            lemma_map_of_has(u, f);
            let j = key_index(u, f);
            assert(key_views(v)[j] == f && key_views(v)[n] == f);
            lemma_lex_irreflexive(f);
        }
        let m = map_of(u).insert(f, t);
        assert forall|k: Seq<char>| map_of(v).contains_key(k) <==> m.contains_key(k) by {
            if key_views(v).contains(k) {
                let i = choose|i: int| 0 <= i < key_views(v).len() && key_views(v)[i] == k;
                if i < n {
                    assert(key_views(u)[i] == k);
                }
            }
            if key_views(u).contains(k) {
                let i = choose|i: int| 0 <= i < key_views(u).len() && key_views(u)[i] == k;
                assert(key_views(v)[i] == k);
            }
            if k == f {
                assert(key_views(v)[n] == k);
            }
        }
        assert forall|k: Seq<char>| #[trigger] map_of(v).contains_key(k) implies map_of(v)[k] == m[k] by {
            if k != f {
                assert(m.contains_key(k));
                assert(map_of(u).contains_key(k));
                lemma_map_of_has(u, k);
                let j = key_index(u, k);
                lemma_map_of_at(u, j);
                lemma_map_of_at(v, j);
            }
        }
        assert(map_of(v) =~= m);
    }
}

/// One step of replaying a batch onto the index, with its paths as character sequences.
pub enum StepModel {
    Remove(Seq<char>),
    Relocate(Seq<char>, Seq<char>),
    MoveNote(Seq<char>, Seq<char>),
    Refresh(Seq<char>),
}

/// One step of replaying a batch onto the index: drop a note; move a note that a folder
/// move carried along (counted as a move only where its new path can be read); move a
/// note; read a note again.
#[derive(Clone, Debug, PartialEq, Eq)]
pub enum WatchStep {
    Remove(String),
    Relocate { from: String, to: String },
    MoveNote { from: String, to: String },
    Refresh(String),
}

impl View for WatchStep {
    type V = StepModel;

    open spec fn view(&self) -> StepModel {
        match self {
            WatchStep::Remove(p) => StepModel::Remove(p@),
            WatchStep::Relocate { from, to } => StepModel::Relocate(from@, to@),
            WatchStep::MoveNote { from, to } => StepModel::MoveNote(from@, to@),
            WatchStep::Refresh(p) => StepModel::Refresh(p@),
        }
    }
}

pub open spec fn step_views(v: Seq<WatchStep>) -> Seq<StepModel> {
    v.map_values(|s: WatchStep| s@)
}

/// Some path lies under some folder.
pub open spec fn any_under(paths: Seq<Seq<char>>, folders: Seq<Seq<char>>) -> bool {
    exists|i: int, j: int| 0 <= i < folders.len() && 0 <= j < paths.len() && #[trigger] under_folder(paths[j], folders[i])
}

/// `p` lies under one of the folders.
pub open spec fn under_some(p: Seq<char>, folders: Seq<Seq<char>>) -> bool {
    exists|i: int| 0 <= i < folders.len() && #[trigger] under_folder(p, folders[i])
}

/// Each path rewritten by the folder moves; `None` where one would move endlessly.
pub open spec fn relocate_all(existing: Seq<Seq<char>>, mv: Seq<(Seq<char>, Seq<char>)>) -> Option<Seq<Seq<char>>>
    decreases existing.len(),
{
    if existing.len() == 0 {
        Some(Seq::empty())
    } else {
        match relocate_all(existing.drop_last(), mv) {
            None => None,
            Some(acc) => match rewrite_with_folders(existing.last(), mv, 0) {
                None => None,
                Some(q) => Some(acc.push(q)),
            },
        }
    }
}

/// The steps for the first `n` notes after folder changes: a note whose new path lies
/// under a removed folder is dropped, one that moved is relocated.
pub open spec fn folder_steps(existing: Seq<Seq<char>>, targets: Seq<Seq<char>>, removed: Seq<Seq<char>>, n: nat) -> Seq<StepModel>
    decreases n,
{
    if n == 0 {
        Seq::empty()
    } else {
        let acc = folder_steps(existing, targets, removed, (n - 1) as nat);
        let old = existing[n - 1];
        let q = targets[n - 1];
        if under_some(q, removed) {
            acc.push(StepModel::Remove(old))
        } else if q != old {
            acc.push(StepModel::Relocate(old, q))
        } else {
            acc
        }
    }
}

pub open spec fn remove_steps(ps: Seq<Seq<char>>) -> Seq<StepModel> {
    ps.map_values(|p: Seq<char>| StepModel::Remove(p))
}

pub open spec fn move_steps(ps: Seq<(Seq<char>, Seq<char>)>) -> Seq<StepModel> {
    ps.map_values(|mv: (Seq<char>, Seq<char>)| StepModel::MoveNote(mv.0, mv.1))
}

pub open spec fn refresh_steps(ps: Seq<Seq<char>>) -> Seq<StepModel> {
    ps.map_values(|p: Seq<char>| StepModel::Refresh(p))
}

/// The steps that replay the changes `cs` onto an index holding the notes `existing`:
/// `None` where a full rebuild is due (a rescan was asked for, or note or folder moves do
/// not end, or a note would move endlessly). Otherwise the folder steps (only where a
/// folder move or removal touches an existing note), then the removed notes, the note
/// moves collapsed to their ends, and the changed notes, each in path order.
pub open spec fn replay_plan(existing: Seq<Seq<char>>, cs: Seq<ChangeModel>) -> Option<Seq<StepModel>> {
    let b = replay_batch(cs);
    if b.rescan || !chains_end(b.note_moves) || !chains_end(b.folder_moves) {
        None
    } else {
        let fm = collapsed(b.folder_moves);
        let fr = sorted_list(b.folder_removed);
        let relevant_move = any_under(existing, sorted_list(fm.dom()));
        let relevant_remove = any_under(existing, fr);
        let targets = if relevant_move {
            relocate_all(existing, prefix_order(fm))
        } else {
            Some(existing)
        };
        match targets {
            None => None,
            Some(t) => {
                let fs = if relevant_move || relevant_remove {
                    folder_steps(existing, t, fr, existing.len())
                } else {
                    Seq::empty()
                };
                Some(
                    fs + remove_steps(sorted_list(b.removed)) + move_steps(map_pairs(collapsed(b.note_moves)))
                        + refresh_steps(sorted_list(b.changed)),
                )
            },
        }
    }
}

fn under_any(p: &String, folders: &Vec<String>) -> (r: bool)
    ensures
        r == under_some(p@, sviews(folders@)),
{
    let mut i: usize = 0;
    while i < folders.len()
        invariant
            i <= folders.len(),
            forall|k: int| 0 <= k < i ==> !under_folder(p@, #[trigger] sviews(folders@)[k]),
        decreases folders.len() - i,
    {
        if note_path_has_folder_prefix(p.as_str(), folders[i].as_str()) {
            assert(under_folder(p@, sviews(folders@)[i as int]));
            return true;
        }
        i += 1;
    }
    false
}

fn any_under_exec(paths: &Vec<String>, folders: &Vec<String>) -> (r: bool)
    ensures
        r == any_under(sviews(paths@), sviews(folders@)),
{
    let mut j: usize = 0;
    while j < paths.len()
        invariant
            j <= paths.len(),
            forall|a: int, k: int| 0 <= k < folders.len() && 0 <= a < j ==> !#[trigger] under_folder(sviews(paths@)[a], sviews(folders@)[k]),
        decreases paths.len() - j,
    {
        if under_any(&paths[j], folders) {
            let ghost i = choose|i: int| 0 <= i < sviews(folders@).len() && #[trigger] under_folder(paths@[j as int]@, sviews(folders@)[i]);
            assert(under_folder(sviews(paths@)[j as int], sviews(folders@)[i]));
            return true;
        }
        j += 1;
    }
    false
}

fn keys_of(v: &Vec<(String, String)>) -> (r: Vec<String>)
    ensures
        sviews(r@) == key_views(v@),
{
    let mut r: Vec<String> = Vec::new();
    let mut i: usize = 0;
    while i < v.len()
        invariant
            i <= v.len(),
            sviews(r@) == key_views(v@).take(i as int),
        decreases v.len() - i,
    {
        r.push(v[i].0.clone());
        assert(key_views(v@).take(i + 1) =~= key_views(v@).take(i as int).push(v@[i as int].0@));
        assert(sviews(r@) =~= key_views(v@).take(i + 1));
        i += 1;
    }
    assert(key_views(v@).take(v.len() as int) =~= key_views(v@));
    r
}

proof fn lemma_relocate_none(ex: Seq<Seq<char>>, mv: Seq<(Seq<char>, Seq<char>)>, j: int)
    requires
        0 <= j <= ex.len(),
        relocate_all(ex.take(j), mv) is None,
    ensures
        relocate_all(ex, mv) is None,
    decreases ex.len() - j,
{
    if j < ex.len() {
        assert(ex.take(j + 1).drop_last() =~= ex.take(j));
        lemma_relocate_none(ex, mv, j + 1);
    } else {
        assert(ex.take(j) =~= ex);
    }
}

proof fn lemma_key_views_map_pairs(v: Seq<(String, String)>)
    requires
        keys_sorted(v),
    ensures
        key_views(v) == sorted_list(map_of(v).dom()),
{
    lemma_pair_views_map_pairs(v);
    let l = sorted_list(map_of(v).dom());
    assert(pair_views(v).len() == l.len());
    assert forall|i: int| 0 <= i < l.len() implies key_views(v)[i] == l[i] by {
        assert(pair_views(v)[i] == map_pairs(map_of(v))[i]);
    }
    assert(key_views(v) =~= l);
}


proof fn lemma_relocate_len(ex: Seq<Seq<char>>, mv: Seq<(Seq<char>, Seq<char>)>)
    requires
        relocate_all(ex, mv) is Some,
    ensures
        relocate_all(ex, mv)->Some_0.len() == ex.len(),
    decreases ex.len(),
{
    if ex.len() > 0 {
        lemma_relocate_len(ex.drop_last(), mv);
    }
}

/// The steps that replay `changes` onto an index holding the notes `existing` (see
/// `replay_plan`), or `None` where a full rebuild is due.
pub fn plan_watch_replay(existing: &Vec<String>, changes: &Vec<VaultWatchChange>) -> (r: Option<Vec<WatchStep>>)
    ensures
        match replay_plan(sviews(existing@), change_views(changes@)) {
            None => r is None,
            Some(s) => r matches Some(v) && step_views(v@) == s,
        },
{
    let g = gather(changes);
    let ghost b = g.model();
    let ghost ex = sviews(existing@);
    if g.rescan {
        return None;
    }
    proof {
        lemma_moves_of_sorted(g.note_moves@);
        lemma_moves_of_sorted(g.folder_moves@);
    }
    let no = match collapse_move_pairs(g.note_moves.as_slice()) {
        Some(o) => o,
        None => {
            return None;
        },
    };
    let fo = match collapse_move_pairs(g.folder_moves.as_slice()) {
        Some(o) => o,
        None => {
            return None;
        },
    };
    let ghost fm = collapsed(b.folder_moves);
    let fkeys = keys_of(&fo);
    proof {
        lemma_key_views_map_pairs(fo@);
        lemma_sorted_is_sorted_list(g.folder_removed@);
        lemma_sorted_is_sorted_list(g.removed@);
        lemma_sorted_is_sorted_list(g.changed@);
        lemma_pair_views_map_pairs(no@);
    }
    let relevant_move = any_under_exec(existing, &fkeys);
    let relevant_remove = any_under_exec(existing, &g.folder_removed);
    let mut targets: Vec<String> = Vec::new();
    if relevant_move {
        let ordered = order_longest_first(&fo);
        let ghost mv = pair_views(ordered@);
        assert(mv == prefix_order(fm));
        assert(relocate_all(ex, mv) is None ==> replay_plan(ex, change_views(changes@)) is None);
        let mut i: usize = 0;
        assert(ex.take(0) =~= Seq::<Seq<char>>::empty());
        while i < existing.len()
            invariant
                relocate_all(ex, mv) is None ==> replay_plan(ex, change_views(changes@)) is None,
                i <= existing.len(),
                ex == sviews(existing@),
                mv == pair_views(ordered@),
                targets.len() == i,
                relocate_all(ex.take(i as int), mv) == Some(sviews(targets@)),
            decreases existing.len() - i,
        {
            assert(ex.take(i + 1).drop_last() =~= ex.take(i as int));
            assert(ex.take(i + 1).last() == existing@[i as int]@);
            match rewrite_note_path_with_folder_moves(&existing[i], &ordered) {
                None => {
                    proof {
                        lemma_relocate_none(ex, mv, i + 1);
                    }
                    return None;
                },
                Some(q) => {
                    let ghost before = sviews(targets@);
                    targets.push(q);
                    assert(sviews(targets@) =~= before.push(targets@[i as int]@));
                },
            }
            i += 1;
        }
        assert(ex.take(existing.len() as int) =~= ex);
    }
    let ghost t = if relevant_move {
        sviews(targets@)
    } else {
        ex
    };
    let ghost fr = sviews(g.folder_removed@);
    let mut steps: Vec<WatchStep> = Vec::new();
    assert(step_views(steps@) =~= Seq::<StepModel>::empty());
    if relevant_move || relevant_remove {
        let mut i: usize = 0;
        while i < existing.len()
            invariant
                i <= existing.len(),
                ex == sviews(existing@),
                fr == sviews(g.folder_removed@),
                t.len() == ex.len(),
                relevant_move ==> sviews(targets@) == t,
                !relevant_move ==> t == ex,
                step_views(steps@) == folder_steps(ex, t, fr, i as nat),
            decreases existing.len() - i,
        {
            let q: &String = if relevant_move {
                &targets[i]
            } else {
                &existing[i]
            };
            assert(q@ == t[i as int]);
            assert(existing@[i as int]@ == ex[i as int]);
            let ghost before = step_views(steps@);
            if under_any(q, &g.folder_removed) {
                steps.push(WatchStep::Remove(existing[i].clone()));
                assert(step_views(steps@) =~= before.push(StepModel::Remove(ex[i as int])));
            } else if !string_eq(q, &existing[i]) {
                steps.push(WatchStep::Relocate { from: existing[i].clone(), to: q.clone() });
                assert(step_views(steps@) =~= before.push(StepModel::Relocate(ex[i as int], t[i as int])));
            }
            i += 1;
        }
    }
    let ghost fs = step_views(steps@);
    let mut i: usize = 0;
    while i < g.removed.len()
        invariant
            i <= g.removed.len(),
            step_views(steps@) == fs + remove_steps(sviews(g.removed@).take(i as int)),
        decreases g.removed.len() - i,
    {
        let ghost before = step_views(steps@);
        steps.push(WatchStep::Remove(g.removed[i].clone()));
        assert(remove_steps(sviews(g.removed@).take(i + 1)) =~= remove_steps(sviews(g.removed@).take(i as int)).push(StepModel::Remove(g.removed@[i as int]@)));
        assert(step_views(steps@) =~= before.push(StepModel::Remove(g.removed@[i as int]@)));
        i += 1;
    }
    assert(sviews(g.removed@).take(g.removed.len() as int) =~= sviews(g.removed@));
    let ghost fs2 = step_views(steps@);
    let mut i: usize = 0;
    while i < no.len()
        invariant
            i <= no.len(),
            step_views(steps@) == fs2 + move_steps(pair_views(no@).take(i as int)),
        decreases no.len() - i,
    {
        let ghost before = step_views(steps@);
        steps.push(WatchStep::MoveNote { from: no[i].0.clone(), to: no[i].1.clone() });
        assert(move_steps(pair_views(no@).take(i + 1)) =~= move_steps(pair_views(no@).take(i as int)).push(StepModel::MoveNote(no@[i as int].0@, no@[i as int].1@)));
        assert(step_views(steps@) =~= before.push(StepModel::MoveNote(no@[i as int].0@, no@[i as int].1@)));
        i += 1;
    }
    assert(pair_views(no@).take(no.len() as int) =~= pair_views(no@));
    let ghost fs3 = step_views(steps@);
    let mut i: usize = 0;
    while i < g.changed.len()
        invariant
            i <= g.changed.len(),
            step_views(steps@) == fs3 + refresh_steps(sviews(g.changed@).take(i as int)),
        decreases g.changed.len() - i,
    {
        let ghost before = step_views(steps@);
        steps.push(WatchStep::Refresh(g.changed[i].clone()));
        assert(refresh_steps(sviews(g.changed@).take(i + 1)) =~= refresh_steps(sviews(g.changed@).take(i as int)).push(StepModel::Refresh(g.changed@[i as int]@)));
        assert(step_views(steps@) =~= before.push(StepModel::Refresh(g.changed@[i as int]@)));
        i += 1;
    }
    assert(sviews(g.changed@).take(g.changed.len() as int) =~= sviews(g.changed@));
    proof {
        if relevant_move {
            lemma_relocate_len(ex, prefix_order(fm));
        }
    }
    Some(steps)
}


// ---------------------------------------------------------------------------
// Applying the steps
// ---------------------------------------------------------------------------
/// What a replay did to the index.
#[derive(Clone, Copy, Debug, PartialEq, Eq, Structural)]
pub struct WatchApplyBenchmarkStats {
    pub note_upsert_count: usize,
    pub note_remove_count: usize,
    pub note_move_count: usize,
    pub rebuild_count: usize,
}

impl Default for WatchApplyBenchmarkStats {
    fn default() -> (s: WatchApplyBenchmarkStats)
        ensures
            s.note_upsert_count == 0 && s.note_remove_count == 0 && s.note_move_count == 0 && s.rebuild_count == 0,
    {
        WatchApplyBenchmarkStats { note_upsert_count: 0, note_remove_count: 0, note_move_count: 0, rebuild_count: 0 }
    }
}

/// The path a step drops from the index first, if any.
pub open spec fn step_source(s: StepModel) -> Option<Seq<char>> {
    match s {
        StepModel::Remove(p) => Some(p),
        StepModel::Relocate(f, _) => Some(f),
        StepModel::MoveNote(f, _) => Some(f),
        StepModel::Refresh(_) => None,
    }
}

/// The path a step reads and indexes, if any.
pub open spec fn step_target(s: StepModel) -> Option<Seq<char>> {
    match s {
        StepModel::Remove(_) => None,
        StepModel::Relocate(_, t) => Some(t),
        StepModel::MoveNote(_, t) => Some(t),
        StepModel::Refresh(p) => Some(p),
    }
}

/// Whether a step counts as a move, given whether its target could be read.
pub open spec fn counts_move(s: StepModel, readable: bool) -> bool {
    match s {
        StepModel::MoveNote(_, _) => true,
        StepModel::Relocate(_, _) => readable,
        _ => false,
    }
}

pub open spec fn one(b: bool) -> int {
    if b {
        1
    } else {
        0
    }
}

/// The notes as `remove_note(p)` leaves them.
pub open spec fn removed_at(ns: Seq<NoteModel>, p: Seq<char>) -> Seq<NoteModel> {
    match spec_normalize_vault_rel_path(p) {
        Ok(q) => without_note(ns, q),
        Err(_) => ns,
    }
}

/// The notes after a step has dropped its source.
pub open spec fn after_source(ns: Seq<NoteModel>, s: StepModel) -> Seq<NoteModel> {
    match step_source(s) {
        Some(p) => removed_at(ns, p),
        None => ns,
    }
}

fn step_target_exec(step: &WatchStep) -> (r: Option<&String>)
    ensures
        match step_target(step@) {
            Some(t) => r matches Some(x) && x@ == t,
            None => r is None,
        },
{
    match step {
        WatchStep::Remove(_) => None,
        WatchStep::Relocate { to, .. } => Some(to),
        WatchStep::MoveNote { to, .. } => Some(to),
        WatchStep::Refresh(p) => Some(p),
    }
}

/// Applies one step, given `content`: what was read at the step's target path (`None`
/// where it could not be read). The source path is dropped; a readable target is indexed
/// with that content. Fails only on a target path that is no valid vault path.
pub fn apply_watch_step(
    index: &mut KnowledgeIndex,
    step: &WatchStep,
    content: Option<String>,
    stats: &mut WatchApplyBenchmarkStats,
) -> (r: Result<(), PathError>)
    requires
        old(index).wf(),
        old(stats).note_upsert_count < usize::MAX,
        old(stats).note_remove_count < usize::MAX,
        old(stats).note_move_count < usize::MAX,
    ensures
        final(index).wf(),
        (content is None || step_target(step@) is None) ==> r is Ok && final(index).notes()
            == after_source(old(index).notes(), step@),
        match (content, step_target(step@)) {
            (Some(c), Some(t)) => match spec_normalize_vault_rel_path(t) {
                Err(e) => r == Err::<(), PathError>(e) && final(index).notes() == after_source(old(index).notes(), step@),
                Ok(q) => r is Ok && upserted(after_source(old(index).notes(), step@), final(index).notes(), q, c@),
            },
            _ => true,
        },
        r is Ok ==> final(stats).note_remove_count == old(stats).note_remove_count + one(step_source(step@) is Some),
        r is Ok ==> final(stats).note_upsert_count == old(stats).note_upsert_count + one(content is Some && step_target(step@) is Some),
        r is Ok ==> final(stats).note_move_count == old(stats).note_move_count + one(counts_move(step@, content is Some)),
        final(stats).rebuild_count == old(stats).rebuild_count,
{
    match step {
        WatchStep::Remove(p) => {
            index.remove_note(p.as_str());
            stats.note_remove_count = stats.note_remove_count + 1;
        },
        WatchStep::Relocate { from, to } => {
            index.remove_note(from.as_str());
            if let Some(c) = content {
                index.upsert_note(to.as_str(), c.as_str())?;
                stats.note_upsert_count = stats.note_upsert_count + 1;
                stats.note_move_count = stats.note_move_count + 1;
            }
            stats.note_remove_count = stats.note_remove_count + 1;
        },
        WatchStep::MoveNote { from, to } => {
            index.remove_note(from.as_str());
            if let Some(c) = content {
                index.upsert_note(to.as_str(), c.as_str())?;
                stats.note_upsert_count = stats.note_upsert_count + 1;
            }
            stats.note_remove_count = stats.note_remove_count + 1;
            stats.note_move_count = stats.note_move_count + 1;
        },
        WatchStep::Refresh(p) => {
            if let Some(c) = content {
                index.upsert_note(p.as_str(), c.as_str())?;
                stats.note_upsert_count = stats.note_upsert_count + 1;
            }
        },
    }
    Ok(())
}

/// How many steps drop a note.
pub open spec fn source_count(steps: Seq<StepModel>) -> int
    decreases steps.len(),
{
    if steps.len() == 0 {
        0
    } else {
        source_count(steps.drop_last()) + one(step_source(steps.last()) is Some)
    }
}

/// How many steps read a note.
pub open spec fn target_count(steps: Seq<StepModel>) -> int
    decreases steps.len(),
{
    if steps.len() == 0 {
        0
    } else {
        target_count(steps.drop_last()) + one(step_target(steps.last()) is Some)
    }
}

/// How many steps count as a move whatever was read, and how many only where it was read.
pub open spec fn move_bounds(steps: Seq<StepModel>) -> (int, int)
    decreases steps.len(),
{
    if steps.len() == 0 {
        (0, 0)
    } else {
        let (lo, hi) = move_bounds(steps.drop_last());
        (lo + one(counts_move(steps.last(), false)), hi + one(counts_move(steps.last(), true)))
    }
}

/// The notes after one step, where `content` is what was read at its target: the source is
/// dropped, then a readable target with a valid path is indexed with that content.
pub open spec fn step_notes(ns: Seq<NoteModel>, s: StepModel, content: Option<Seq<char>>, new: Seq<NoteModel>) -> bool {
    let mid = after_source(ns, s);
    match (content, step_target(s)) {
        (Some(c), Some(t)) => match spec_normalize_vault_rel_path(t) {
            Ok(q) => upserted(mid, new, q, c),
            Err(_) => new == mid,
        },
        _ => new == mid,
    }
}

/// The notes `fin` follow from `ns` by the steps, one after another, with the contents read
/// for them.
pub open spec fn replayed(ns: Seq<NoteModel>, steps: Seq<StepModel>, contents: Seq<Option<Seq<char>>>, fin: Seq<NoteModel>) -> bool
    decreases steps.len(),
{
    if steps.len() == 0 {
        fin == ns
    } else {
        exists|mid: Seq<NoteModel>|
            replayed(ns, steps.drop_last(), contents.drop_last(), mid) && #[trigger] step_notes(mid, steps.last(), contents.last(), fin)
    }
}

/// How many steps indexed a note, given the contents read.
pub open spec fn read_count(steps: Seq<StepModel>, contents: Seq<Option<Seq<char>>>) -> int
    decreases steps.len(),
{
    if steps.len() == 0 {
        0
    } else {
        read_count(steps.drop_last(), contents.drop_last()) + one(contents.last() is Some && step_target(steps.last()) is Some)
    }
}

/// How many steps counted as a move, given the contents read.
pub open spec fn moved_count(steps: Seq<StepModel>, contents: Seq<Option<Seq<char>>>) -> int
    decreases steps.len(),
{
    if steps.len() == 0 {
        0
    } else {
        moved_count(steps.drop_last(), contents.drop_last()) + one(counts_move(steps.last(), contents.last() is Some))
    }
}

pub open spec fn opt_view(o: Option<String>) -> Option<Seq<char>> {
    match o {
        Some(s) => Some(s@),
        None => None,
    }
}

/// How a replay ended: a full rebuild is due (the index was left as it was), or the steps
/// were applied.
#[derive(Clone, Copy, Debug, PartialEq, Eq)]
pub enum WatchReplay {
    Rebuild,
    Applied(WatchApplyBenchmarkStats),
}

/// Replays `changes` onto `index`, reading notes from `source`: where `replay_plan` calls
/// for a rebuild the index is left alone and `Rebuild` comes back; else each step is
/// applied in order with the content read for it, and the counts come back. Fails, with
/// the steps before it applied, on a step whose target is no valid vault path.
pub fn apply_watch_changes_benchmark<S: NoteSource>(
    index: &mut KnowledgeIndex,
    source: &S,
    changes: Vec<VaultWatchChange>,
) -> (r: Result<WatchReplay, PathError>)
    requires
        old(index).wf(),
    ensures
        final(index).wf(),
        match replay_plan(note_paths_of(old(index).notes()), change_views(changes@)) {
            None => r == Ok::<WatchReplay, PathError>(WatchReplay::Rebuild) && final(index).notes() == old(index).notes(),
            Some(steps) => match r {
                Ok(WatchReplay::Applied(st)) => {
                    &&& st.rebuild_count == 0
                    &&& st.note_remove_count == source_count(steps)
                    &&& st.note_upsert_count <= target_count(steps)
                    &&& move_bounds(steps).0 <= st.note_move_count <= move_bounds(steps).1
                    &&& exists|contents: Seq<Option<Seq<char>>>| {
                        &&& contents.len() == steps.len()
                        &&& forall|k: int| 0 <= k < steps.len() ==> (match step_target(#[trigger] steps[k]) {
                            Some(t) => source.reads(t, contents[k]),
                            None => contents[k] is None,
                        })
                        &&& replayed(old(index).notes(), steps, contents, final(index).notes())
                        &&& st.note_upsert_count == read_count(steps, contents)
                        &&& st.note_move_count == moved_count(steps, contents)
                    }
                },
                Ok(WatchReplay::Rebuild) => false,
                Err(e) => exists|i: int| 0 <= i < steps.len() && #[trigger] step_target(steps[i]) is Some
                    && spec_normalize_vault_rel_path(step_target(steps[i])->Some_0) == Err::<Seq<char>, PathError>(e),
            },
        },
{
    let existing = index.all_paths_sorted();
    let steps = match plan_watch_replay(&existing, &changes) {
        Some(s) => s,
        None => {
            return Ok(WatchReplay::Rebuild);
        },
    };
    let ghost sv = step_views(steps@);
    let ghost plan = replay_plan(note_paths_of(old(index).notes()), change_views(changes@));
    assert(plan == Some(sv));
    let mut stats = WatchApplyBenchmarkStats::default();
    let mut i: usize = 0;
    let ghost mut cs: Seq<Option<Seq<char>>> = Seq::empty();
    assert(sv.take(0) =~= Seq::<StepModel>::empty());
    while i < steps.len()
        invariant
            i <= steps.len(),
            sv == step_views(steps@),
            plan == Some(sv),
            plan == replay_plan(note_paths_of(old(index).notes()), change_views(changes@)),
            index.wf(),
            stats.rebuild_count == 0,
            stats.note_remove_count <= i,
            stats.note_upsert_count <= i,
            stats.note_move_count <= i,
            stats.note_remove_count == source_count(sv.take(i as int)),
            stats.note_upsert_count <= target_count(sv.take(i as int)),
            move_bounds(sv.take(i as int)).0 <= stats.note_move_count <= move_bounds(sv.take(i as int)).1,
            cs.len() == i,
            forall|k: int| 0 <= k < i ==> (match step_target(#[trigger] sv[k]) {
                Some(t) => source.reads(t, cs[k]),
                None => cs[k] is None,
            }),
            replayed(old(index).notes(), sv.take(i as int), cs, index.notes()),
            stats.note_upsert_count == read_count(sv.take(i as int), cs),
            stats.note_move_count == moved_count(sv.take(i as int), cs),
        decreases steps.len() - i,
    {
        assert(sv.take(i + 1).drop_last() =~= sv.take(i as int));
        assert(sv.take(i + 1).last() == steps@[i as int]@);
        let content = match step_target_exec(&steps[i]) {
            Some(t) => source.note_content(t.as_str()),
            None => None,
        };
        let ghost cv = opt_view(content);
        let ghost before = index.notes();
        match apply_watch_step(index, &steps[i], content, &mut stats) {
            Ok(()) => {
                proof {
                    let cs2 = cs.push(cv);
                    assert(cs2.drop_last() =~= cs);
                    assert(forall|k: int| 0 <= k < i ==> cs2[k] == cs[k]);
                    assert(step_notes(before, sv[i as int], cv, index.notes()));
                    assert(replayed(old(index).notes(), sv.take(i + 1).drop_last(), cs2.drop_last(), before));
                    assert(step_notes(before, sv.take(i + 1).last(), cs2.last(), index.notes()));
                    assert(replayed(old(index).notes(), sv.take(i + 1), cs2, index.notes()));
                    cs = cs2;
                }
            },
            Err(e) => {
                let ghost ps = replay_plan(note_paths_of(old(index).notes()), change_views(changes@))->Some_0;
                assert(ps == sv);
                assert(step_target(ps[i as int]) is Some);
                assert(spec_normalize_vault_rel_path(step_target(ps[i as int])->Some_0) == Err::<Seq<char>, PathError>(e));
                return Err(e);
            },
        }
        i += 1;
    }
    assert(sv.take(steps.len() as int) =~= sv);
    assert(cs.len() == sv.len() && replayed(old(index).notes(), sv, cs, index.notes())
        && stats.note_upsert_count == read_count(sv, cs) && stats.note_move_count == moved_count(sv, cs));
    Ok(WatchReplay::Applied(stats))
}


// ---------------------------------------------------------------------------
// Laws of the replay
// ---------------------------------------------------------------------------
proof fn lemma_batch_rescan(cs: Seq<ChangeModel>)
    ensures
        replay_batch(cs).rescan <==> exists|i: int| 0 <= i < cs.len() && #[trigger] cs[i] is RescanRequired,
    decreases cs.len(),
{
    if cs.len() > 0 {
        let u = cs.drop_last();
        lemma_batch_rescan(u);
        if exists|i: int| 0 <= i < u.len() && #[trigger] u[i] is RescanRequired {
            let i = choose|i: int| 0 <= i < u.len() && #[trigger] u[i] is RescanRequired;
            assert(cs[i] is RescanRequired);
        }
        if exists|i: int| 0 <= i < cs.len() && #[trigger] cs[i] is RescanRequired {
            let i = choose|i: int| 0 <= i < cs.len() && #[trigger] cs[i] is RescanRequired;
            if i < u.len() {
                assert(u[i] is RescanRequired);
            }
        }
    }
}

/// A batch that asks for a rescan anywhere is never replayed step by step: it always
/// calls for a full rebuild.
pub proof fn law_rescan_forces_rebuild(existing: Seq<Seq<char>>, cs: Seq<ChangeModel>, i: int)
    requires
        0 <= i < cs.len(),
        cs[i] is RescanRequired,
    ensures
        replay_plan(existing, cs) is None,
{
    lemma_batch_rescan(cs);
}

proof fn lemma_sorted_list_empty()
    ensures
        sorted_list(Set::<Seq<char>>::empty()) == Seq::<Seq<char>>::empty(),
{
    let e = Seq::<Seq<char>>::empty();
    assert(strictly_sorted(e) && forall|y: Seq<char>| e.contains(y) <==> Set::<Seq<char>>::empty().contains(y));
    let l = sorted_list(Set::<Seq<char>>::empty());
    crate::sorted::lemma_sorted_unique(l, e);
}

proof fn lemma_note_changes_batch(cs: Seq<ChangeModel>)
    requires
        forall|i: int| 0 <= i < cs.len() ==> #[trigger] cs[i] is NoteChanged,
    ensures
        !replay_batch(cs).rescan,
        replay_batch(cs).removed == Set::<Seq<char>>::empty(),
        replay_batch(cs).folder_removed == Set::<Seq<char>>::empty(),
        replay_batch(cs).note_moves == Map::<Seq<char>, Seq<char>>::empty(),
        replay_batch(cs).folder_moves == Map::<Seq<char>, Seq<char>>::empty(),
        forall|p: Seq<char>| replay_batch(cs).changed.contains(p) <==> exists|i: int| 0 <= i < cs.len() && #[trigger] cs[i] == ChangeModel::NoteChanged(p),
    decreases cs.len(),
{
    if cs.len() > 0 {
        let u = cs.drop_last();
        assert forall|i: int| 0 <= i < u.len() implies #[trigger] u[i] is NoteChanged by {
            assert(u[i] == cs[i]);
        }
        lemma_note_changes_batch(u);
        assert(cs[cs.len() - 1] is NoteChanged);
        assert forall|p: Seq<char>| replay_batch(cs).changed.contains(p) <==> exists|i: int| 0 <= i < cs.len() && #[trigger] cs[i] == ChangeModel::NoteChanged(p) by {
            if replay_batch(u).changed.contains(p) {
                let i = choose|i: int| 0 <= i < u.len() && #[trigger] u[i] == ChangeModel::NoteChanged(p);
                assert(cs[i] == u[i]);
            }
            if exists|i: int| 0 <= i < cs.len() && #[trigger] cs[i] == ChangeModel::NoteChanged(p) {
                let i = choose|i: int| 0 <= i < cs.len() && #[trigger] cs[i] == ChangeModel::NoteChanged(p);
                if i < u.len() {
                    assert(u[i] == cs[i]);
                }
            }
        }
    }
}

/// A batch of note content changes alone never calls for a rebuild: it replays as one
/// refresh per changed note, in path order, each note once.
pub proof fn law_note_changes_stay_incremental(existing: Seq<Seq<char>>, cs: Seq<ChangeModel>)
    requires
        forall|i: int| 0 <= i < cs.len() ==> #[trigger] cs[i] is NoteChanged,
    ensures
        replay_plan(existing, cs) == Some(refresh_steps(sorted_list(replay_batch(cs).changed))),
        forall|p: Seq<char>| replay_batch(cs).changed.contains(p) <==> exists|i: int| 0 <= i < cs.len() && #[trigger] cs[i] == ChangeModel::NoteChanged(p),
{
    lemma_note_changes_batch(cs);
    let b = replay_batch(cs);
    let em = Map::<Seq<char>, Seq<char>>::empty();
    assert(chains_end(em));
    assert(collapsed(em) =~= em);
    assert(em.dom() =~= Set::<Seq<char>>::empty());
    lemma_sorted_list_empty();
    assert(map_pairs(em) =~= Seq::<(Seq<char>, Seq<char>)>::empty());
    assert(!any_under(existing, Seq::<Seq<char>>::empty()));
    assert(remove_steps(Seq::<Seq<char>>::empty()) =~= Seq::<StepModel>::empty());
    assert(move_steps(Seq::<(Seq<char>, Seq<char>)>::empty()) =~= Seq::<StepModel>::empty());
    let r = refresh_steps(sorted_list(b.changed));
    assert(Seq::<StepModel>::empty() + Seq::<StepModel>::empty() + Seq::<StepModel>::empty() + r =~= r);
}

} // verus!
