//! Vault change events: coalescing a burst of file-system changes into one ordered batch,
//! and rewriting note paths under note and folder moves.
use vstd::prelude::*;
use crate::sorted::{lemma_lex_total, lemma_lex_transitive, string_less, sorted_list, strictly_sorted, sviews, set_of, lemma_sorted_unique, lemma_sorted_is_sorted_list, set_insert, set_remove, set_contains, map_remove_where, map_has_value, keys_sorted, key_views, map_of, key_index, lex_lt, lemma_lex_irreflexive, lemma_map_of_at, lemma_map_of_has, map_find, map_insert, string_eq};
use crate::text::{chars_of, string_of, has_prefix, has_char, starts_with, push_all, slice_of, rfind_char, str_len_bytes};
use crate::editor::byte_len;

verus! {

/// One change in the vault, with vault-relative POSIX paths.
#[derive(Clone, Debug, PartialEq, Eq)]
pub enum VaultWatchChange {
    NoteChanged { path: String },
    NoteRemoved { path: String },
    NoteMoved { from: String, to: String },
    FolderCreated { path: String },
    FolderRemoved { path: String },
    FolderMoved { from: String, to: String },
    RescanRequired,
}

/// The failure of the change stream itself.
#[derive(Clone, Copy, Debug, PartialEq, Eq)]
pub enum WatchError {
    ReceiverClosed,
    ReceiverDisconnected,
}

/// A change with its paths taken as character sequences.
pub enum ChangeModel {
    NoteChanged(Seq<char>),
    NoteRemoved(Seq<char>),
    NoteMoved(Seq<char>, Seq<char>),
    FolderCreated(Seq<char>),
    FolderRemoved(Seq<char>),
    FolderMoved(Seq<char>, Seq<char>),
    RescanRequired,
}

impl View for VaultWatchChange {
    type V = ChangeModel;

    open spec fn view(&self) -> ChangeModel {
        match self {
            VaultWatchChange::NoteChanged { path } => ChangeModel::NoteChanged(path@),
            VaultWatchChange::NoteRemoved { path } => ChangeModel::NoteRemoved(path@),
            VaultWatchChange::NoteMoved { from, to } => ChangeModel::NoteMoved(from@, to@),
            VaultWatchChange::FolderCreated { path } => ChangeModel::FolderCreated(path@),
            VaultWatchChange::FolderRemoved { path } => ChangeModel::FolderRemoved(path@),
            VaultWatchChange::FolderMoved { from, to } => ChangeModel::FolderMoved(from@, to@),
            VaultWatchChange::RescanRequired => ChangeModel::RescanRequired,
        }
    }
}

pub open spec fn change_views(v: Seq<VaultWatchChange>) -> Seq<ChangeModel> {
    v.map_values(|c: VaultWatchChange| c@)
}

pub open spec fn pair_views(v: Seq<(String, String)>) -> Seq<(Seq<char>, Seq<char>)> {
    v.map_values(|p: (String, String)| (p.0@, p.1@))
}

// ---------------------------------------------------------------------------
// Path prefixes
// ---------------------------------------------------------------------------
/// `note` is the folder itself or lies beneath it (the prefix ends at a `/`).
pub open spec fn under_folder(note: Seq<char>, folder: Seq<char>) -> bool {
    note == folder || (has_prefix(note, folder) && note.len() > folder.len() && note[folder.len() as int]
        == '/')
}

pub fn note_path_has_folder_prefix(note_path: &str, folder_prefix: &str) -> (b: bool)
    ensures
        b == under_folder(note_path@, folder_prefix@),
{
    let n = chars_of(note_path);
    let f = chars_of(folder_prefix);
    if crate::text::seq_eq(&n, &f) {
        return true;
    }
    starts_with(&n, &f) && n.len() > f.len() && n[f.len()] == '/'
}

/// `path` with `old_prefix` replaced by `new_prefix`, when it starts with `old_prefix`.
pub open spec fn rewrite_prefix(path: Seq<char>, old_prefix: Seq<char>, new_prefix: Seq<char>) -> Option<
    Seq<char>,
> {
    if has_prefix(path, old_prefix) {
        Some(new_prefix + path.skip(old_prefix.len() as int))
    } else {
        None
    }
}

fn rewrite_chars(path: &[char], old_prefix: &[char], new_prefix: &[char]) -> (r: Option<Vec<char>>)
    ensures
        r matches Some(v) ==> rewrite_prefix(path@, old_prefix@, new_prefix@) == Some(v@),
        r is None ==> rewrite_prefix(path@, old_prefix@, new_prefix@) is None,
{
    if !starts_with(path, old_prefix) {
        return None;
    }
    let mut out: Vec<char> = Vec::new();
    push_all(&mut out, new_prefix);
    let rest = crate::text::slice_of(path, old_prefix.len(), path.len());
    push_all(&mut out, &rest);
    assert(rest@ == path@.skip(old_prefix@.len() as int));
    Some(out)
}

pub fn rewrite_path_with_prefix(path: &str, old_prefix: &str, new_prefix: &str) -> (r: Option<String>)
    ensures
        r matches Some(s) ==> rewrite_prefix(path@, old_prefix@, new_prefix@) == Some(s@),
        r is None ==> rewrite_prefix(path@, old_prefix@, new_prefix@) is None,
{
    let p = chars_of(path);
    let o = chars_of(old_prefix);
    let n = chars_of(new_prefix);
    match rewrite_chars(&p, &o, &n) {
        Some(v) => Some(string_of(&v)),
        None => None,
    }
}

// ---------------------------------------------------------------------------
// Move chains
// ---------------------------------------------------------------------------
/// Where `x` ends up after at most `n` moves of `m` (it stays once it is no source).
pub open spec fn follow(m: Map<Seq<char>, Seq<char>>, x: Seq<char>, n: nat) -> Seq<char>
    decreases n,
{
    if n == 0 || !m.contains_key(x) {
        x
    } else {
        follow(m, m[x], (n - 1) as nat)
    }
}

/// Every chain of moves ends, within as many moves as there are sources, at a path that is
/// moved no further (no source lies on a cycle or leads into one).
pub open spec fn chains_end(m: Map<Seq<char>, Seq<char>>) -> bool {
    forall|k: Seq<char>| #[trigger] m.contains_key(k) ==> !m.contains_key(follow(m, k, m.dom().len()))
}

/// Each source moved straight to the end of its chain.
pub open spec fn collapsed(m: Map<Seq<char>, Seq<char>>) -> Map<Seq<char>, Seq<char>> {
    Map::new(|k: Seq<char>| m.contains_key(k), |k: Seq<char>| follow(m, k, m.dom().len()))
}

/// After collapsing, no target is itself moved again: every move lands where it ends.
pub proof fn law_collapsed_moves_are_final(m: Map<Seq<char>, Seq<char>>, k: Seq<char>)
    requires
        chains_end(m),
        collapsed(m).contains_key(k),
    ensures
        !collapsed(m).contains_key(collapsed(m)[k]),
        collapsed(m)[k] != k,
{
}

pub open spec fn collapsed_or_empty(m: Map<Seq<char>, Seq<char>>) -> Map<Seq<char>, Seq<char>> {
    if chains_end(m) {
        collapsed(m)
    } else {
        Map::empty()
    }
}

proof fn lemma_follow_succ(m: Map<Seq<char>, Seq<char>>, x: Seq<char>, n: nat)
    ensures
        follow(m, x, n + 1) == (if m.contains_key(follow(m, x, n)) {
            m[follow(m, x, n)]
        } else {
            follow(m, x, n)
        }),
    decreases n,
{
    if n > 0 && m.contains_key(x) {
        lemma_follow_succ(m, m[x], (n - 1) as nat);
    } else if n == 0 && m.contains_key(x) {
        assert(follow(m, m[x], 0) == m[x]);
    }
}

proof fn lemma_follow_stays(m: Map<Seq<char>, Seq<char>>, x: Seq<char>, n: nat, n2: nat)
    requires
        n <= n2,
        !m.contains_key(follow(m, x, n)),
    ensures
        follow(m, x, n2) == follow(m, x, n),
    decreases n2 - n,
{
    if n < n2 {
        lemma_follow_succ(m, x, n);
        lemma_follow_stays(m, x, n + 1, n2);
    }
}

/// A key-sorted vector has as many entries as its map has keys.
pub proof fn lemma_map_of_len(v: Seq<(String, String)>)
    requires
        keys_sorted(v),
    ensures
        map_of(v).dom().len() == v.len(),
        map_of(v).dom().finite(),
{
    let kv = key_views(v);
    assert forall|i: int, j: int| 0 <= i < kv.len() && 0 <= j < kv.len() && i != j implies kv[i]
        != kv[j] by {
        if i < j {
            assert(lex_lt(kv[i], kv[j]));
        } else {
            assert(lex_lt(kv[j], kv[i]));
        }
        lemma_lex_irreflexive(kv[i]);
    }
    assert(kv.no_duplicates());
    kv.unique_seq_to_set();
    assert(map_of(v).dom() =~= kv.to_set());
}

/// Moves every source of `moved` straight to the end of its chain; `None` when a chain
/// does not end.
pub fn collapse_moved_map_checked(moved: &Vec<(String, String)>) -> (r: Option<Vec<(String, String)>>)
    requires
        keys_sorted(moved@),
    ensures
        r is Some <==> chains_end(map_of(moved@)),
        r matches Some(o) ==> keys_sorted(o@) && map_of(o@) == collapsed(map_of(moved@)),
{
    let ghost m = map_of(moved@);
    proof {
        lemma_map_of_len(moved@);
    }
    let n = moved.len();
    let mut out: Vec<(String, String)> = Vec::new();
    let mut i: usize = 0;
    while i < n
        invariant
            n == moved.len(),
            m == map_of(moved@),
            m.dom().len() == n,
            keys_sorted(moved@),
            i <= n,
            out.len() == i,
            forall|a: int| 0 <= a < i ==> (#[trigger] out@[a]).0@ == moved@[a].0@ && out@[a].1@
                == follow(m, moved@[a].0@, n as nat),
            forall|a: int| 0 <= a < i ==> !m.contains_key(follow(m, #[trigger] moved@[a].0@, n as nat)),
        decreases n - i,
    {
        proof {
            lemma_map_of_at(moved@, i as int);
        }
        let ghost k = moved@[i as int].0@;
        assert(follow(m, m[k], 0) == m[k]);
        let mut current = moved[i].1.clone();
        let mut steps: usize = 1;
        let mut done = false;
        while !done && steps < n
            invariant
                n == moved.len(),
                m == map_of(moved@),
                keys_sorted(moved@),
                1 <= steps <= n,
                current@ == follow(m, k, steps as nat),
                done ==> !m.contains_key(current@),
                m.contains_key(k),
            decreases (n - steps) + (if done { 0int } else { 1int }),
        {
            match map_find(moved, &current) {
                Some(j) => {
                    proof {
                        lemma_follow_succ(m, k, steps as nat);
                    }
                    current = moved[j].1.clone();
                    steps += 1;
                },
                None => {
                    done = true;
                },
            }
        }
        proof {
            if done {
                lemma_follow_stays(m, k, steps as nat, n as nat);
            }
        }
        if map_find(moved, &current).is_some() {
            proof {
                assert(!chains_end(m));
            }
            return None;
        }
        let key = moved[i].0.clone();
        out.push((key, current));
        i += 1;
    }
    proof {
        assert(key_views(out@) =~= key_views(moved@));
        assert forall|k: Seq<char>| #[trigger] m.contains_key(k) implies !m.contains_key(
            follow(m, k, m.dom().len()),
        ) by {
            lemma_map_of_has(moved@, k);
        }
        assert forall|k: Seq<char>| #[trigger] map_of(out@).contains_key(k) implies map_of(out@)[k]
            == collapsed(m)[k] by {
            lemma_map_of_has(out@, k);
            let a = key_index(out@, k);
            lemma_map_of_at(out@, a);
        }
        assert(map_of(out@) =~= collapsed(m));
    }
    Some(out)
}

/// The move map collapsed to chain ends, or empty where a chain does not end.
pub fn collapse_moved_map(moved: &Vec<(String, String)>) -> (r: Vec<(String, String)>)
    requires
        keys_sorted(moved@),
    ensures
        keys_sorted(r@),
        map_of(r@) == collapsed_or_empty(map_of(moved@)),
{
    match collapse_moved_map_checked(moved) {
        Some(o) => o,
        None => {
            let o: Vec<(String, String)> = Vec::new();
            assert(map_of(o@) =~= Map::empty());
            o
        },
    }
}

/// The moves that a list of (from, to) pairs states: pairs that stay in place are skipped,
/// a source given twice must name the same target (else `None`).
pub open spec fn moves_of(p: Seq<(Seq<char>, Seq<char>)>) -> Option<Map<Seq<char>, Seq<char>>>
    decreases p.len(),
{
    if p.len() == 0 {
        Some(Map::empty())
    } else {
        match moves_of(p.drop_last()) {
            None => None,
            Some(m) => {
                let (f, t) = p.last();
                if f == t {
                    Some(m)
                } else if m.contains_key(f) {
                    if m[f] == t {
                        Some(m)
                    } else {
                        None
                    }
                } else {
                    Some(m.insert(f, t))
                }
            },
        }
    }
}

proof fn lemma_moves_none(p: Seq<(Seq<char>, Seq<char>)>, j: int)
    requires
        0 <= j <= p.len(),
        moves_of(p.take(j)) is None,
    ensures
        moves_of(p) is None,
    decreases p.len() - j,
{
    if j < p.len() {
        assert(p.take(j + 1).drop_last() =~= p.take(j));
        lemma_moves_none(p, j + 1);
    } else {
        assert(p.take(j) =~= p);
    }
}

fn build_moves(pairs: &[(String, String)]) -> (r: Option<Vec<(String, String)>>)
    ensures
        r is Some <==> moves_of(pair_views(pairs@)) is Some,
        r matches Some(v) ==> keys_sorted(v@) && moves_of(pair_views(pairs@)) == Some(map_of(v@)),
{
    let mut m: Vec<(String, String)> = Vec::new();
    let mut i: usize = 0;
    assert(pair_views(pairs@).take(0) =~= Seq::<(Seq<char>, Seq<char>)>::empty());
    assert(map_of(m@) =~= Map::empty());
    while i < pairs.len()
        invariant
            i <= pairs.len(),
            keys_sorted(m@),
            moves_of(pair_views(pairs@).take(i as int)) == Some(map_of(m@)),
        decreases pairs.len() - i,
    {
        let ghost pv = pair_views(pairs@);
        assert(pv.take(i + 1).drop_last() =~= pv.take(i as int));
        assert(pv.take(i + 1).last() == (pairs@[i as int].0@, pairs@[i as int].1@));
        let from = &pairs[i].0;
        let to = &pairs[i].1;
        if !string_eq(from, to) {
            match map_find(&m, from) {
                Some(j) => {
                    if !string_eq(&m[j].1, to) {
                        proof {
                            lemma_moves_none(pair_views(pairs@), i + 1);
                        }
                        return None;
                    }
                },
                None => {
                    map_insert(&mut m, from.clone(), to.clone());
                },
            }
        }
        i += 1;
    }
    assert(pair_views(pairs@).take(pairs.len() as int) =~= pair_views(pairs@));
    Some(m)
}

/// Collapses a list of moves: every source is moved straight to the end of its chain.
/// `None` on a source with two targets or a chain that does not end. The pairs come sorted.
pub fn collapse_move_pairs(moved_pairs: &[(String, String)]) -> (r: Option<Vec<(String, String)>>)
    ensures
        r is Some <==> (moves_of(pair_views(moved_pairs@)) matches Some(m) && chains_end(m)),
        r matches Some(o) ==> keys_sorted(o@) && map_of(o@) == collapsed(
            moves_of(pair_views(moved_pairs@))->Some_0,
        ),
{
    match build_moves(moved_pairs) {
        None => None,
        Some(m) => collapse_moved_map_checked(&m),
    }
}

// ---------------------------------------------------------------------------
// Coalescing a batch of changes
// ---------------------------------------------------------------------------
/// What a batch of changes has established so far.
pub struct WatchModel {
    pub removed: Set<Seq<char>>,
    pub changed: Set<Seq<char>>,
    pub moved: Map<Seq<char>, Seq<char>>,
    pub folder_created: Set<Seq<char>>,
    pub folder_removed: Set<Seq<char>>,
    pub folder_moved: Map<Seq<char>, Seq<char>>,
    pub rescan: bool,
}

pub open spec fn empty_model() -> WatchModel {
    WatchModel {
        removed: Set::empty(),
        changed: Set::empty(),
        moved: Map::empty(),
        folder_created: Set::empty(),
        folder_removed: Set::empty(),
        folder_moved: Map::empty(),
        rescan: false,
    }
}

/// `m` without the moves from `p` and the moves to `p`.
pub open spec fn without_path(m: Map<Seq<char>, Seq<char>>, p: Seq<char>) -> Map<Seq<char>, Seq<char>> {
    Map::new(|k: Seq<char>| m.contains_key(k) && k != p && m[k] != p, |k: Seq<char>| m[k])
}

pub open spec fn has_target(m: Map<Seq<char>, Seq<char>>, p: Seq<char>) -> bool {
    exists|k: Seq<char>| #[trigger] m.contains_key(k) && m[k] == p
}

/// A move drops what was known of both ends; a removal drops the moves to or from the
/// path; a change counts only for a path that was not removed or moved.
pub open spec fn model_step(s: WatchModel, c: ChangeModel) -> WatchModel {
    match c {
        ChangeModel::RescanRequired => WatchModel { rescan: true, ..s },
        ChangeModel::NoteMoved(f, t) => if f == t {
            s
        } else {
            WatchModel {
                changed: s.changed.remove(f).remove(t),
                removed: s.removed.remove(f).remove(t),
                moved: s.moved.insert(f, t),
                ..s
            }
        },
        ChangeModel::NoteRemoved(p) => WatchModel {
            changed: s.changed.remove(p),
            moved: without_path(s.moved, p),
            removed: s.removed.insert(p),
            ..s
        },
        ChangeModel::NoteChanged(p) => if !s.removed.contains(p) && !s.moved.contains_key(p)
            && !has_target(s.moved, p) {
            WatchModel { changed: s.changed.insert(p), ..s }
        } else {
            s
        },
        ChangeModel::FolderMoved(f, t) => if f == t {
            s
        } else {
            WatchModel {
                folder_created: s.folder_created.remove(f).remove(t),
                folder_removed: s.folder_removed.remove(f).remove(t),
                folder_moved: s.folder_moved.insert(f, t),
                ..s
            }
        },
        ChangeModel::FolderRemoved(p) => WatchModel {
            folder_created: s.folder_created.remove(p),
            folder_moved: without_path(s.folder_moved, p),
            folder_removed: s.folder_removed.insert(p),
            ..s
        },
        ChangeModel::FolderCreated(p) => if !s.folder_removed.contains(p)
            && !s.folder_moved.contains_key(p) && !has_target(s.folder_moved, p) {
            WatchModel { folder_created: s.folder_created.insert(p), ..s }
        } else {
            s
        },
    }
}

pub open spec fn model_of(cs: Seq<ChangeModel>) -> WatchModel
    decreases cs.len(),
{
    if cs.len() == 0 {
        empty_model()
    } else {
        model_step(model_of(cs.drop_last()), cs.last())
    }
}

pub open spec fn note_moves(m: Map<Seq<char>, Seq<char>>) -> Seq<ChangeModel> {
    sorted_list(m.dom()).map_values(|k: Seq<char>| ChangeModel::NoteMoved(k, m[k]))
}

pub open spec fn folder_moves(m: Map<Seq<char>, Seq<char>>) -> Seq<ChangeModel> {
    sorted_list(m.dom()).map_values(|k: Seq<char>| ChangeModel::FolderMoved(k, m[k]))
}

/// The kinds of change that name one path.
#[derive(Clone, Copy, Debug, PartialEq, Eq)]
pub enum PathChangeKind {
    NoteChanged,
    NoteRemoved,
    FolderCreated,
    FolderRemoved,
}

pub open spec fn path_change(kind: PathChangeKind, p: Seq<char>) -> ChangeModel {
    match kind {
        PathChangeKind::NoteChanged => ChangeModel::NoteChanged(p),
        PathChangeKind::NoteRemoved => ChangeModel::NoteRemoved(p),
        PathChangeKind::FolderCreated => ChangeModel::FolderCreated(p),
        PathChangeKind::FolderRemoved => ChangeModel::FolderRemoved(p),
    }
}

pub open spec fn path_changes(kind: PathChangeKind, s: Set<Seq<char>>) -> Seq<ChangeModel> {
    sorted_list(s).map_values(|p: Seq<char>| path_change(kind, p))
}

/// The coalesced batch: a lone rescan if one was asked for; else the collapsed note moves,
/// changed notes, removed notes, collapsed folder moves, created and removed folders, each
/// group sorted by path.
pub open spec fn coalesced(s: WatchModel) -> Seq<ChangeModel> {
    if s.rescan {
        seq![ChangeModel::RescanRequired]
    } else {
        note_moves(collapsed_or_empty(s.moved)) + path_changes(PathChangeKind::NoteChanged, s.changed)
            + path_changes(PathChangeKind::NoteRemoved, s.removed) + folder_moves(
            collapsed_or_empty(s.folder_moved),
        ) + path_changes(PathChangeKind::FolderCreated, s.folder_created) + path_changes(
            PathChangeKind::FolderRemoved,
            s.folder_removed,
        )
    }
}

proof fn lemma_rescan_kept(cs: Seq<ChangeModel>, i: int)
    requires
        0 <= i < cs.len(),
        cs[i] == ChangeModel::RescanRequired,
    ensures
        model_of(cs).rescan,
    decreases cs.len(),
{
    if i < cs.len() - 1 {
        assert(cs.drop_last()[i] == cs[i]);
        lemma_rescan_kept(cs.drop_last(), i);
    }
    assert(model_of(cs) == model_step(model_of(cs.drop_last()), cs.last()));
}

/// One rescan request anywhere in a batch makes the coalesced batch that request alone.
pub proof fn law_rescan_is_the_only_signal(cs: Seq<ChangeModel>, i: int)
    requires
        0 <= i < cs.len(),
        cs[i] == ChangeModel::RescanRequired,
    ensures
        coalesced(model_of(cs)) == seq![ChangeModel::RescanRequired],
{
    lemma_rescan_kept(cs, i);
}

/// A note removed in a batch, and not moved from or to afterwards, stays removed: the
/// batch reports it removed, neither changed nor moved, whatever changes to it follow.
pub proof fn law_removal_outlasts_later_changes(cs: Seq<ChangeModel>, i: int, p: Seq<char>)
    requires
        0 <= i < cs.len(),
        cs[i] == ChangeModel::NoteRemoved(p),
        forall|j: int| i < j < cs.len() ==> !(#[trigger] cs[j] matches ChangeModel::NoteMoved(f, t) && f != t && (f == p || t == p)),
    ensures
        model_of(cs).removed.contains(p),
        !model_of(cs).changed.contains(p),
        !model_of(cs).moved.contains_key(p),
        !has_target(model_of(cs).moved, p),
    decreases cs.len(),
{
    let s = model_of(cs.drop_last());
    assert(model_of(cs) == model_step(s, cs.last()));
    if i == cs.len() - 1 {
        assert(cs.last() == ChangeModel::NoteRemoved(p));
        assert(!has_target(model_of(cs).moved, p)) by {
            if has_target(model_of(cs).moved, p) {
                let k = choose|k: Seq<char>| #[trigger] model_of(cs).moved.contains_key(k) && model_of(cs).moved[k] == p;
                assert(without_path(s.moved, p).contains_key(k));
            }
        }
    } else {
        assert forall|j: int| i < j < cs.drop_last().len() implies !(#[trigger] cs.drop_last()[j] matches ChangeModel::NoteMoved(f, t) && f != t && (f
            == p || t == p)) by {
            assert(cs.drop_last()[j] == cs[j]);
        }
        assert(cs.drop_last()[i] == cs[i]);
        law_removal_outlasts_later_changes(cs.drop_last(), i, p);
        let c = cs.last();
        assert(c == cs[cs.len() - 1]);
        match c {
            ChangeModel::NoteMoved(f, t) => {
                if f != t {
                    assert(f != p && t != p);
                    assert(!has_target(model_of(cs).moved, p)) by {
                        if has_target(model_of(cs).moved, p) {
                            let k = choose|k: Seq<char>| #[trigger] model_of(cs).moved.contains_key(k) && model_of(cs).moved[k] == p;
                            if k != f {
                                assert(s.moved.contains_key(k) && s.moved[k] == p);
                            }
                        }
                    }
                }
            },
            ChangeModel::NoteRemoved(q) => {
                assert(!has_target(model_of(cs).moved, p)) by {
                    if has_target(model_of(cs).moved, p) {
                        let k = choose|k: Seq<char>| #[trigger] model_of(cs).moved.contains_key(k) && model_of(cs).moved[k] == p;
                        assert(s.moved.contains_key(k) && s.moved[k] == p);
                    }
                }
            },
            _ => {},
        }
    }
}

/// The key column of a key-sorted vector is the sorted listing of its map's keys.
pub proof fn lemma_keys_sorted_list(v: Seq<(String, String)>)
    requires
        keys_sorted(v),
    ensures
        key_views(v) == sorted_list(map_of(v).dom()),
{
    let l = key_views(v);
    assert(strictly_sorted(l) && forall|y: Seq<char>| l.contains(y) <==> map_of(v).dom().contains(y));
    lemma_sorted_unique(l, sorted_list(map_of(v).dom()));
}

fn make_path_change(kind: PathChangeKind, p: String) -> (c: VaultWatchChange)
    ensures
        c@ == path_change(kind, p@),
{
    match kind {
        PathChangeKind::NoteChanged => VaultWatchChange::NoteChanged { path: p },
        PathChangeKind::NoteRemoved => VaultWatchChange::NoteRemoved { path: p },
        PathChangeKind::FolderCreated => VaultWatchChange::FolderCreated { path: p },
        PathChangeKind::FolderRemoved => VaultWatchChange::FolderRemoved { path: p },
    }
}

fn push_path_changes(out: &mut Vec<VaultWatchChange>, kind: PathChangeKind, v: &Vec<String>)
    requires
        strictly_sorted(sviews(v@)),
    ensures
        change_views(final(out)@) == change_views(old(out)@) + path_changes(kind, set_of(v@)),
{
    proof {
        lemma_sorted_is_sorted_list(v@);
    }
    let ghost target = path_changes(kind, set_of(v@));
    let mut i: usize = 0;
    while i < v.len()
        invariant
            i <= v.len(),
            target == sviews(v@).map_values(|p: Seq<char>| path_change(kind, p)),
            change_views(out@) == change_views(old(out)@) + target.take(i as int),
        decreases v.len() - i,
    {
        let c = make_path_change(kind, v[i].clone());
        let ghost before = out@;
        out.push(c);
        assert(target[i as int] == path_change(kind, v@[i as int]@));
        assert(change_views(out@) =~= change_views(before).push(c@));
        assert(target.take(i + 1) =~= target.take(i as int).push(target[i as int]));
        assert(change_views(out@) =~= change_views(old(out)@) + target.take(i + 1));
        i += 1;
    }
    assert(target.take(v.len() as int) =~= target);
}

fn push_moves(out: &mut Vec<VaultWatchChange>, note: bool, v: &Vec<(String, String)>)
    requires
        keys_sorted(v@),
    ensures
        change_views(final(out)@) == change_views(old(out)@) + (if note {
            note_moves(map_of(v@))
        } else {
            folder_moves(map_of(v@))
        }),
{
    proof {
        lemma_keys_sorted_list(v@);
    }
    let ghost m = map_of(v@);
    let ghost target = if note {
        note_moves(m)
    } else {
        folder_moves(m)
    };
    let mut i: usize = 0;
    while i < v.len()
        invariant
            i <= v.len(),
            keys_sorted(v@),
            m == map_of(v@),
            key_views(v@) == sorted_list(m.dom()),
            target == (if note {
                note_moves(m)
            } else {
                folder_moves(m)
            }),
            change_views(out@) == change_views(old(out)@) + target.take(i as int),
        decreases v.len() - i,
    {
        proof {
            lemma_map_of_at(v@, i as int);
            assert(key_views(v@)[i as int] == v@[i as int].0@);
        }
        let from = v[i].0.clone();
        let to = v[i].1.clone();
        let ghost before = out@;
        assert(target.take(i + 1) =~= target.take(i as int).push(target[i as int]));
        if note {
            out.push(VaultWatchChange::NoteMoved { from, to });
        } else {
            out.push(VaultWatchChange::FolderMoved { from, to });
        }
        assert(change_views(out@) =~= change_views(before).push(out@.last()@));
        assert(change_views(out@) =~= change_views(old(out)@) + target.take(i + 1));
        i += 1;
    }
    assert(target.take(v.len() as int) =~= target);
}

fn remove_moves_of_path(m: &mut Vec<(String, String)>, p: &String)
    requires
        keys_sorted(old(m)@),
    ensures
        keys_sorted(final(m)@),
        map_of(final(m)@) == without_path(map_of(old(m)@), p@),
{
    let ghost before = map_of(m@);
    map_remove_where(m, Some(p), Some(p));
    assert(map_of(m@) =~= without_path(before, p@));
}

fn is_move_target(m: &Vec<(String, String)>, p: &String) -> (b: bool)
    requires
        keys_sorted(m@),
    ensures
        b == has_target(map_of(m@), p@),
{
    map_has_value(m, p)
}

/// Coalesces a batch of changes (see `coalesced`); the stream itself cannot fail here.
pub fn dedup_changes(changes: Vec<VaultWatchChange>) -> (r: Result<Vec<VaultWatchChange>, WatchError>)
    ensures
        r matches Ok(v) && change_views(v@) == coalesced(model_of(change_views(changes@))),
{
    let mut removed: Vec<String> = Vec::new();
    let mut changed: Vec<String> = Vec::new();
    let mut moved: Vec<(String, String)> = Vec::new();
    let mut folder_created: Vec<String> = Vec::new();
    let mut folder_removed: Vec<String> = Vec::new();
    let mut folder_moved: Vec<(String, String)> = Vec::new();
    let mut rescan = false;
    let ghost cv = change_views(changes@);
    proof {
        assert(cv.take(0) =~= Seq::<ChangeModel>::empty());
        assert(set_of(removed@) =~= Set::empty());
        assert(map_of(moved@) =~= Map::empty());
    }
    let mut i: usize = 0;
    while i < changes.len()
        invariant
            i <= changes.len(),
            cv == change_views(changes@),
            strictly_sorted(sviews(removed@)),
            strictly_sorted(sviews(changed@)),
            keys_sorted(moved@),
            strictly_sorted(sviews(folder_created@)),
            strictly_sorted(sviews(folder_removed@)),
            keys_sorted(folder_moved@),
            model_of(cv.take(i as int)) == (WatchModel {
                removed: set_of(removed@),
                changed: set_of(changed@),
                moved: map_of(moved@),
                folder_created: set_of(folder_created@),
                folder_removed: set_of(folder_removed@),
                folder_moved: map_of(folder_moved@),
                rescan,
            }),
        decreases changes.len() - i,
    {
        proof {
            assert(cv.take(i + 1).drop_last() =~= cv.take(i as int));
            assert(cv.take(i + 1).last() == changes@[i as int]@);
        }
        match &changes[i] {
            VaultWatchChange::RescanRequired => {
                rescan = true;
            },
            VaultWatchChange::NoteMoved { from, to } => {
                if !string_eq(from, to) {
                    set_remove(&mut changed, from);
                    set_remove(&mut changed, to);
                    set_remove(&mut removed, from);
                    set_remove(&mut removed, to);
                    map_insert(&mut moved, from.clone(), to.clone());
                }
            },
            VaultWatchChange::NoteRemoved { path } => {
                set_remove(&mut changed, path);
                remove_moves_of_path(&mut moved, path);
                set_insert(&mut removed, path.clone());
            },
            VaultWatchChange::NoteChanged { path } => {
                if !set_contains(&removed, path) && map_find(&moved, path).is_none()
                    && !is_move_target(&moved, path) {
                    set_insert(&mut changed, path.clone());
                }
            },
            VaultWatchChange::FolderMoved { from, to } => {
                if !string_eq(from, to) {
                    set_remove(&mut folder_created, from);
                    set_remove(&mut folder_created, to);
                    set_remove(&mut folder_removed, from);
                    set_remove(&mut folder_removed, to);
                    map_insert(&mut folder_moved, from.clone(), to.clone());
                }
            },
            VaultWatchChange::FolderRemoved { path } => {
                set_remove(&mut folder_created, path);
                remove_moves_of_path(&mut folder_moved, path);
                set_insert(&mut folder_removed, path.clone());
            },
            VaultWatchChange::FolderCreated { path } => {
                if !set_contains(&folder_removed, path) && map_find(&folder_moved, path).is_none()
                    && !is_move_target(&folder_moved, path) {
                    set_insert(&mut folder_created, path.clone());
                }
            },
        }
        i += 1;
    }
    proof {
        assert(cv.take(changes.len() as int) =~= cv);
    }
    let mut out: Vec<VaultWatchChange> = Vec::new();
    if rescan {
        out.push(VaultWatchChange::RescanRequired);
        assert(change_views(out@) =~= seq![ChangeModel::RescanRequired]);
        return Ok(out);
    }
    let note_moved = collapse_moved_map(&moved);
    let folder_moved_c = collapse_moved_map(&folder_moved);
    assert(change_views(out@) =~= Seq::<ChangeModel>::empty());
    push_moves(&mut out, true, &note_moved);
    push_path_changes(&mut out, PathChangeKind::NoteChanged, &changed);
    push_path_changes(&mut out, PathChangeKind::NoteRemoved, &removed);
    push_moves(&mut out, false, &folder_moved_c);
    push_path_changes(&mut out, PathChangeKind::FolderCreated, &folder_created);
    push_path_changes(&mut out, PathChangeKind::FolderRemoved, &folder_removed);
    proof {
        let m = model_of(cv);
        assert(change_views(out@) =~= coalesced(m));
    }
    Ok(out)
}

// ---------------------------------------------------------------------------
// Ordering pairs by their first path
// ---------------------------------------------------------------------------
/// Longer first (in bytes), then in lexicographic order.
pub open spec fn longer_first(a: Seq<char>, b: Seq<char>) -> bool {
    byte_len(a) > byte_len(b) || (byte_len(a) == byte_len(b) && lex_lt(a, b))
}

pub open spec fn key_lt(by_len: bool, a: Seq<char>, b: Seq<char>) -> bool {
    if by_len {
        longer_first(a, b)
    } else {
        lex_lt(a, b)
    }
}

proof fn lemma_key_lt_order(by_len: bool, a: Seq<char>, b: Seq<char>, c: Seq<char>)
    ensures
        key_lt(by_len, a, b) && key_lt(by_len, b, c) ==> key_lt(by_len, a, c),
        !(key_lt(by_len, a, b) && key_lt(by_len, b, a)),
{
    lemma_lex_total(a, b);
    if lex_lt(a, b) && lex_lt(b, c) {
        lemma_lex_transitive(a, b, c);
    }
}

/// No two pairs share their first path.
pub open spec fn distinct_keys(s: Seq<(Seq<char>, Seq<char>)>) -> bool {
    forall|i: int, j: int| 0 <= i < s.len() && 0 <= j < s.len() && i != j ==> #[trigger] s[i].0 != #[trigger] s[j].0
}

proof fn lemma_key_lt_total(by_len: bool, a: Seq<char>, b: Seq<char>)
    requires
        a != b,
    ensures
        key_lt(by_len, a, b) || key_lt(by_len, b, a),
{
    lemma_lex_total(a, b);
}

/// Two sequences of pairs, each sorted with distinct first paths, holding the same pairs,
/// are equal.
pub proof fn lemma_sorted_pairs_unique(
    by_len: bool,
    a: Seq<(Seq<char>, Seq<char>)>,
    b: Seq<(Seq<char>, Seq<char>)>,
)
    requires
        pairs_sorted(by_len, a),
        pairs_sorted(by_len, b),
        distinct_keys(a),
        distinct_keys(b),
        a.to_multiset() == b.to_multiset(),
    ensures
        a == b,
    decreases a.len(),
{
    vstd::seq_lib::to_multiset_len(a);
    vstd::seq_lib::to_multiset_len(b);
    if a.len() == 0 {
        assert(a =~= b);
    } else {
        vstd::seq_lib::to_multiset_contains(a, a[0]);
        vstd::seq_lib::to_multiset_contains(b, a[0]);
        assert(a.contains(a[0]));
        let j = choose|j: int| 0 <= j < b.len() && b[j] == a[0];
        vstd::seq_lib::to_multiset_contains(b, b[0]);
        vstd::seq_lib::to_multiset_contains(a, b[0]);
        assert(b.contains(b[0]));
        let i = choose|i: int| 0 <= i < a.len() && a[i] == b[0];
        if i != 0 && j != 0 {
            assert(a[0].0 != a[i].0);
            lemma_key_lt_total(by_len, a[0].0, a[i].0);
            assert(!key_lt(by_len, a[i].0, a[0].0));
            assert(!key_lt(by_len, b[j].0, b[0].0));
        }
        assert(a[0] == b[0]);
        vstd::seq_lib::to_multiset_remove(a, 0);
        vstd::seq_lib::to_multiset_remove(b, 0);
        assert(a.remove(0) =~= a.drop_first());
        assert(b.remove(0) =~= b.drop_first());
        lemma_sorted_pairs_unique(by_len, a.drop_first(), b.drop_first());
        assert(a =~= seq![a[0]] + a.drop_first());
        assert(b =~= seq![b[0]] + b.drop_first());
    }
}

/// No pair comes after a pair whose first path orders after its own.
pub open spec fn pairs_sorted(by_len: bool, s: Seq<(Seq<char>, Seq<char>)>) -> bool {
    forall|i: int, j: int| 0 <= i < j < s.len() ==> !key_lt(by_len, #[trigger] s[j].0, #[trigger] s[i].0)
}

fn key_less(by_len: bool, a: &String, b: &String) -> (r: bool)
    ensures
        r == key_lt(by_len, a@, b@),
{
    if by_len {
        let la = str_len_bytes(a.as_str());
        let lb = str_len_bytes(b.as_str());
        la > lb || (la == lb && string_less(a, b))
    } else {
        string_less(a, b)
    }
}

/// A stable sort of pairs by their first path.
fn sort_pairs(by_len: bool, v: &Vec<(String, String)>) -> (out: Vec<(String, String)>)
    ensures
        pairs_sorted(by_len, pair_views(out@)),
        pair_views(out@).to_multiset() == pair_views(v@).to_multiset(),
        distinct_keys(pair_views(v@)) ==> distinct_keys(pair_views(out@)),
{
    let mut out: Vec<(String, String)> = Vec::new();
    let mut i: usize = 0;
    assert(pair_views(v@.take(0)) =~= Seq::<(Seq<char>, Seq<char>)>::empty());
    assert(pair_views(out@) =~= Seq::<(Seq<char>, Seq<char>)>::empty());
    while i < v.len()
        invariant
            i <= v.len(),
            pairs_sorted(by_len, pair_views(out@)),
            pair_views(out@).to_multiset() == pair_views(v@.take(i as int)).to_multiset(),
            forall|x: int| 0 <= x < out.len() ==> exists|k: int| 0 <= k < i && #[trigger] pair_views(out@)[x] == pair_views(v@)[k],
            distinct_keys(pair_views(v@)) ==> distinct_keys(pair_views(out@)),
        decreases v.len() - i,
    {
        let e = (v[i].0.clone(), v[i].1.clone());
        let mut p: usize = 0;
        while p < out.len() && !key_less(by_len, &e.0, &out[p].0)
            invariant
                p <= out.len(),
                forall|k: int| 0 <= k < p ==> !key_lt(by_len, e.0@, #[trigger] out@[k].0@),
            decreases out.len() - p,
        {
            p += 1;
        }
        let ghost old_out = pair_views(out@);
        let ghost ev = (e.0@, e.1@);
        out.insert(p, e);
        proof {
            let nv = pair_views(out@);
            assert(nv =~= old_out.insert(p as int, ev));
            assert forall|a: int, b: int| 0 <= a < b < nv.len() implies !key_lt(
                by_len,
                #[trigger] nv[b].0,
                #[trigger] nv[a].0,
            ) by {
                if b < p {
                    assert(nv[a] == old_out[a] && nv[b] == old_out[b]);
                } else if b == p {
                    assert(nv[a] == old_out[a]);
                    assert(out@[a].0@ == old_out[a].0);
                } else if a == p {
                    assert(nv[b] == old_out[b - 1]);
                    assert(key_lt(by_len, ev.0, old_out[p as int].0));
                    lemma_key_lt_order(by_len, old_out[b - 1].0, ev.0, old_out[p as int].0);
                    lemma_key_lt_order(by_len, ev.0, old_out[p as int].0, ev.0);
                } else if a < p {
                    assert(nv[a] == old_out[a] && nv[b] == old_out[b - 1]);
                } else {
                    assert(nv[a] == old_out[a - 1] && nv[b] == old_out[b - 1]);
                }
            }
            assert(ev == pair_views(v@)[i as int]);
            assert forall|x: int| 0 <= x < out.len() implies exists|k: int| 0 <= k < i + 1 && #[trigger] pair_views(out@)[x] == pair_views(v@)[k] by {
                if x < p {
                    assert(nv[x] == old_out[x]);
                } else if x > p {
                    assert(nv[x] == old_out[x - 1]);
                } else {
                    assert(nv[x] == pair_views(v@)[i as int]);
                }
            }
            if distinct_keys(pair_views(v@)) {
                assert forall|x: int, y: int| 0 <= x < nv.len() && 0 <= y < nv.len() && x != y implies #[trigger] nv[x].0 != #[trigger] nv[y].0 by {
                    if x != p && y != p {
                        let xo = if x < p { x } else { x - 1 };
                        let yo = if y < p { y } else { y - 1 };
                        assert(nv[x] == old_out[xo] && nv[y] == old_out[yo]);
                    } else if x == p {
                        let yo = if y < p { y } else { y - 1 };
                        assert(nv[y] == old_out[yo]);
                        let k = choose|k: int| 0 <= k < i && #[trigger] pair_views(out@)[y] == pair_views(v@)[k];
                        assert(pair_views(v@)[k].0 != pair_views(v@)[i as int].0);
                    } else {
                        let xo = if x < p { x } else { x - 1 };
                        assert(nv[x] == old_out[xo]);
                        let k = choose|k: int| 0 <= k < i && #[trigger] pair_views(out@)[x] == pair_views(v@)[k];
                        assert(pair_views(v@)[k].0 != pair_views(v@)[i as int].0);
                    }
                }
            }
            vstd::seq_lib::to_multiset_insert(old_out, p as int, ev);
            assert(pair_views(v@.take(i + 1)) =~= pair_views(v@.take(i as int)).push(ev));
            vstd::seq_lib::to_multiset_build(pair_views(v@.take(i as int)), ev);
        }
        i += 1;
    }
    assert(v@.take(v.len() as int) =~= v@);
    out
}

// ---------------------------------------------------------------------------
// Folder moves derived from note moves
// ---------------------------------------------------------------------------
/// The index of the last `/` in `p` (meaningful when there is one).
pub open spec fn last_slash(p: Seq<char>) -> int {
    choose|i: int| 0 <= i < p.len() && p[i] == '/' && forall|j: int| i < j < p.len() ==> p[j] != '/'
}

/// What precedes the last `/` of `p` (`str::rsplit_once('/')`), if it has one.
pub open spec fn parent_of(p: Seq<char>) -> Option<Seq<char>> {
    if has_char(p, '/') {
        Some(p.take(last_slash(p)))
    } else {
        None
    }
}

fn parent_chars(p: &[char]) -> (r: Option<Vec<char>>)
    ensures
        r matches Some(x) ==> parent_of(p@) == Some(x@),
        r is None ==> parent_of(p@) is None,
{
    match rfind_char(p, '/') {
        Some(i) => {
            proof {
                assert(has_char(p@, '/'));
                let c = last_slash(p@);
                assert(0 <= c < p@.len() && p@[c] == '/' && forall|j: int| c < j < p@.len() ==> p@[j] != '/');
                assert(c == i);
            }
            Some(slice_of(p, 0, i))
        },
        None => {
            assert(!has_char(p@, '/'));
            None
        },
    }
}

/// The folder move that a note move implies: both parents present, non-empty and distinct,
/// each given with a trailing `/`.
pub open spec fn prefix_pair(f: Seq<char>, t: Seq<char>) -> Option<(Seq<char>, Seq<char>)> {
    match (parent_of(f), parent_of(t)) {
        (Some(a), Some(b)) => if a.len() > 0 && b.len() > 0 && a != b {
            Some((a.push('/'), b.push('/')))
        } else {
            None
        },
        _ => None,
    }
}

/// One note move's contribution to the folder moves, forwards and backwards; `None` where a
/// folder would move to two places or two folders to one.
pub open spec fn prefix_step(
    ft: Map<Seq<char>, Seq<char>>,
    tf: Map<Seq<char>, Seq<char>>,
    f: Seq<char>,
    t: Seq<char>,
) -> Option<(Map<Seq<char>, Seq<char>>, Map<Seq<char>, Seq<char>>)> {
    match prefix_pair(f, t) {
        None => Some((ft, tf)),
        Some((a, b)) => if ft.contains_key(a) && ft[a] != b {
            None
        } else if tf.contains_key(b) && tf[b] != a {
            None
        } else {
            Some((ft.insert(a, b), tf.insert(b, a)))
        },
    }
}

/// The folder moves implied by a list of note moves.
pub open spec fn prefix_moves_of(p: Seq<(Seq<char>, Seq<char>)>) -> Option<
    (Map<Seq<char>, Seq<char>>, Map<Seq<char>, Seq<char>>),
>
    decreases p.len(),
{
    if p.len() == 0 {
        Some((Map::empty(), Map::empty()))
    } else {
        match prefix_moves_of(p.drop_last()) {
            None => None,
            Some((ft, tf)) => prefix_step(ft, tf, p.last().0, p.last().1),
        }
    }
}

pub open spec fn overlap(a: Seq<char>, b: Seq<char>) -> bool {
    has_prefix(a, b) || has_prefix(b, a)
}

/// Folders nested one in the other move to folders nested one in the other.
pub open spec fn prefixes_compatible(ft: Map<Seq<char>, Seq<char>>) -> bool {
    forall|a: Seq<char>, b: Seq<char>|
        #![trigger ft.contains_key(a), ft.contains_key(b)]
        ft.contains_key(a) && ft.contains_key(b) && overlap(a, b) ==> overlap(ft[a], ft[b])
}

/// The pairs of a map, in the order of their keys.
pub open spec fn map_pairs(m: Map<Seq<char>, Seq<char>>) -> Seq<(Seq<char>, Seq<char>)> {
    sorted_list(m.dom()).map_values(|k: Seq<char>| (k, m[k]))
}

pub proof fn lemma_pair_views_map_pairs(v: Seq<(String, String)>)
    requires
        keys_sorted(v),
    ensures
        pair_views(v) == map_pairs(map_of(v)),
{
    lemma_keys_sorted_list(v);
    assert forall|i: int| 0 <= i < v.len() implies #[trigger] pair_views(v)[i] == map_pairs(
        map_of(v),
    )[i] by {
        lemma_map_of_at(v, i);
        assert(key_views(v)[i] == v[i].0@);
    }
    assert(pair_views(v) =~= map_pairs(map_of(v)));
}

/// The pairs of `ft`, longest folder first.
pub open spec fn prefix_order(ft: Map<Seq<char>, Seq<char>>) -> Seq<(Seq<char>, Seq<char>)> {
    choose|pm: Seq<(Seq<char>, Seq<char>)>|
        pairs_sorted(true, pm) && distinct_keys(pm) && pm.to_multiset() == map_pairs(ft).to_multiset()
}

proof fn lemma_keys_sorted_distinct(v: Seq<(String, String)>)
    requires
        keys_sorted(v),
    ensures
        distinct_keys(pair_views(v)),
{
    assert forall|i: int, j: int| 0 <= i < v.len() && 0 <= j < v.len() && i != j implies #[trigger] pair_views(v)[i].0 != #[trigger] pair_views(v)[j].0 by {
        lemma_lex_irreflexive(v[i].0@);
        if i < j {
            assert(lex_lt(key_views(v)[i], key_views(v)[j]));
        } else {
            assert(lex_lt(key_views(v)[j], key_views(v)[i]));
        }
    }
}

/// Sorting the pairs of a key-sorted vector longest-first gives `prefix_order` of its map.
pub(crate) fn order_longest_first(v: &Vec<(String, String)>) -> (o: Vec<(String, String)>)
    requires
        keys_sorted(v@),
    ensures
        pair_views(o@) == prefix_order(map_of(v@)),
{
    let o = sort_pairs(true, v);
    proof {
        lemma_keys_sorted_distinct(v@);
        lemma_pair_views_map_pairs(v@);
        let ov = pair_views(o@);
        assert(pairs_sorted(true, ov) && distinct_keys(ov) && ov.to_multiset() == map_pairs(
            map_of(v@),
        ).to_multiset());
        let c = prefix_order(map_of(v@));
        lemma_sorted_pairs_unique(true, ov, c);
    }
    o
}

fn overlap_chars(a: &String, b: &String) -> (r: bool)
    ensures
        r == overlap(a@, b@),
{
    let x = chars_of(a.as_str());
    let y = chars_of(b.as_str());
    starts_with(&x, &y) || starts_with(&y, &x)
}

fn with_slash(a: Vec<char>) -> (s: String)
    ensures
        s@ == a@.push('/'),
{
    let mut a = a;
    a.push('/');
    string_of(&a)
}

fn add_prefix_move(
    ft: &mut Vec<(String, String)>,
    tf: &mut Vec<(String, String)>,
    from: &String,
    to: &String,
) -> (ok: bool)
    requires
        keys_sorted(old(ft)@),
        keys_sorted(old(tf)@),
    ensures
        keys_sorted(final(ft)@),
        keys_sorted(final(tf)@),
        ok ==> prefix_step(map_of(old(ft)@), map_of(old(tf)@), from@, to@) == Some(
            (map_of(final(ft)@), map_of(final(tf)@)),
        ),
        !ok ==> prefix_step(map_of(old(ft)@), map_of(old(tf)@), from@, to@) is None,
{
    let f = chars_of(from.as_str());
    let t = chars_of(to.as_str());
    match (parent_chars(&f), parent_chars(&t)) {
        (Some(a), Some(b)) => {
            if a.len() > 0 && b.len() > 0 && !crate::text::seq_eq(&a, &b) {
                let ap = with_slash(a);
                let bp = with_slash(b);
                match map_find(ft, &ap) {
                    Some(j) => {
                        if !string_eq(&ft[j].1, &bp) {
                            return false;
                        }
                    },
                    None => {},
                }
                match map_find(tf, &bp) {
                    Some(j) => {
                        if !string_eq(&tf[j].1, &ap) {
                            return false;
                        }
                    },
                    None => {},
                }
                map_insert(ft, ap.clone(), bp.clone());
                map_insert(tf, bp, ap);
            }
        },
        _ => {},
    }
    true
}

/// Derives folder moves (as `dir/` prefixes) from note moves; `None` on conflicting
/// moves or on nested folders that would move apart. Longest folders come first.
pub fn derive_prefix_moves_from_note_moves(moved_pairs: &[(String, String)]) -> (r: Option<
    Vec<(String, String)>,
>)
    ensures
        r is Some <==> (prefix_moves_of(pair_views(moved_pairs@)) matches Some(ms)
            && prefixes_compatible(ms.0)),
        r matches Some(o) ==> pair_views(o@) == prefix_order(
            prefix_moves_of(pair_views(moved_pairs@))->Some_0.0,
        ),
{
    let ghost pv = pair_views(moved_pairs@);
    let mut ft: Vec<(String, String)> = Vec::new();
    let mut tf: Vec<(String, String)> = Vec::new();
    assert(pv.take(0) =~= Seq::<(Seq<char>, Seq<char>)>::empty());
    assert(map_of(ft@) =~= Map::empty());
    let mut i: usize = 0;
    while i < moved_pairs.len()
        invariant
            i <= moved_pairs.len(),
            pv == pair_views(moved_pairs@),
            keys_sorted(ft@),
            keys_sorted(tf@),
            prefix_moves_of(pv.take(i as int)) == Some((map_of(ft@), map_of(tf@))),
        decreases moved_pairs.len() - i,
    {
        proof {
            assert(pv.take(i + 1).drop_last() =~= pv.take(i as int));
            assert(pv.take(i + 1).last() == (moved_pairs@[i as int].0@, moved_pairs@[i as int].1@));
        }
        if !add_prefix_move(&mut ft, &mut tf, &moved_pairs[i].0, &moved_pairs[i].1) {
            proof {
                lemma_prefix_moves_none(pv, i + 1);
            }
            return None;
        }
        i += 1;
    }
    proof {
        assert(pv.take(moved_pairs.len() as int) =~= pv);
    }
    let ghost m = map_of(ft@);
    let ghost mt = map_of(tf@);
    let n = ft.len();
    let mut a: usize = 0;
    while a < n
        invariant
            n == ft.len(),
            m == map_of(ft@),
            pv == pair_views(moved_pairs@),
            prefix_moves_of(pv) == Some((m, mt)),
            keys_sorted(ft@),
            a <= n,
            forall|x: int, y: int|
                0 <= x < a && x < y < n && overlap(ft@[x].0@, ft@[y].0@) ==> #[trigger] overlap(
                    ft@[x].1@,
                    #[trigger] ft@[y].1@,
                ),
        decreases n - a,
    {
        let mut b: usize = a + 1;
        while b < n
            invariant
                n == ft.len(),
                keys_sorted(ft@),
                m == map_of(ft@),
                pv == pair_views(moved_pairs@),
                prefix_moves_of(pv) == Some((m, mt)),
                a < n,
                a + 1 <= b <= n,
                forall|x: int, y: int|
                    0 <= x < a && x < y < n && overlap(ft@[x].0@, ft@[y].0@) ==> #[trigger] overlap(
                        ft@[x].1@,
                        #[trigger] ft@[y].1@,
                    ),
                forall|y: int|
                    a < y < b && overlap(ft@[a as int].0@, ft@[y].0@) ==> #[trigger] overlap(
                        ft@[a as int].1@,
                        ft@[y].1@,
                    ),
            decreases n - b,
        {
            if overlap_chars(&ft[a].0, &ft[b].0) && !overlap_chars(&ft[a].1, &ft[b].1) {
                proof {
                    lemma_map_of_at(ft@, a as int);
                    lemma_map_of_at(ft@, b as int);
                    assert(!prefixes_compatible(m));
                }
                return None;
            }
            b += 1;
        }
        a += 1;
    }
    proof {
        assert forall|x: Seq<char>, y: Seq<char>|
            #![trigger m.contains_key(x), m.contains_key(y)]
            m.contains_key(x) && m.contains_key(y) && overlap(x, y) implies overlap(m[x], m[y]) by {
            lemma_map_of_has(ft@, x);
            lemma_map_of_has(ft@, y);
            let ix = key_index(ft@, x);
            let iy = key_index(ft@, y);
            lemma_map_of_at(ft@, ix);
            lemma_map_of_at(ft@, iy);
            if ix == iy {
                assert(m[x].subrange(0, m[x].len() as int) =~= m[x]);
            } else if ix < iy {
                assert(overlap(ft@[ix].1@, ft@[iy].1@));
            } else {
                assert(overlap(ft@[iy].1@, ft@[ix].1@));
            }
        }
    }
    Some(order_longest_first(&ft))
}

proof fn lemma_prefix_moves_none(p: Seq<(Seq<char>, Seq<char>)>, j: int)
    requires
        0 <= j <= p.len(),
        prefix_moves_of(p.take(j)) is None,
    ensures
        prefix_moves_of(p) is None,
    decreases p.len() - j,
{
    if j < p.len() {
        assert(p.take(j + 1).drop_last() =~= p.take(j));
        lemma_prefix_moves_none(p, j + 1);
    } else {
        assert(p.take(j) =~= p);
    }
}

// ---------------------------------------------------------------------------
// Expanding moves to the notes they carry along
// ---------------------------------------------------------------------------
/// The rewrite of `p` by the first prefix move in `pm` whose old prefix starts `p`.
pub open spec fn first_rewrite(p: Seq<char>, pm: Seq<(Seq<char>, Seq<char>)>) -> Option<Seq<char>>
    decreases pm.len(),
{
    if pm.len() == 0 {
        None
    } else if has_prefix(p, pm[0].0) {
        Some(pm[0].1 + p.skip(pm[0].0.len() as int))
    } else {
        first_rewrite(p, pm.drop_first())
    }
}

/// `base`, plus for each existing path that it does not move, the move its first matching
/// prefix move gives it (when that changes the path).
pub open spec fn extend_moves(
    existing: Seq<Seq<char>>,
    base: Map<Seq<char>, Seq<char>>,
    pm: Seq<(Seq<char>, Seq<char>)>,
) -> Map<Seq<char>, Seq<char>>
    decreases existing.len(),
{
    if existing.len() == 0 {
        base
    } else {
        let m = extend_moves(existing.drop_last(), base, pm);
        let p = existing.last();
        if m.contains_key(p) {
            m
        } else {
            match first_rewrite(p, pm) {
                Some(t) => if t != p {
                    m.insert(p, t)
                } else {
                    m
                },
                None => m,
            }
        }
    }
}

/// The note moves collapse, and the folder moves they imply agree.
pub open spec fn note_expansion_ok(pv: Seq<(Seq<char>, Seq<char>)>) -> bool {
    match moves_of(pv) {
        Some(m) => chains_end(m) && match prefix_moves_of(map_pairs(collapsed(m))) {
            Some(ms) => prefixes_compatible(ms.0),
            None => false,
        },
        None => false,
    }
}

fn first_prefix_rewrite(p: &String, pm: &Vec<(String, String)>) -> (r: Option<String>)
    ensures
        r matches Some(t) ==> first_rewrite(p@, pair_views(pm@)) == Some(t@),
        r is None ==> first_rewrite(p@, pair_views(pm@)) is None,
{
    let pc = chars_of(p.as_str());
    let mut i: usize = 0;
    assert(pair_views(pm@).skip(0) =~= pair_views(pm@));
    while i < pm.len()
        invariant
            i <= pm.len(),
            pc@ == p@,
            first_rewrite(p@, pair_views(pm@)) == first_rewrite(p@, pair_views(pm@).skip(i as int)),
        decreases pm.len() - i,
    {
        let o = chars_of(pm[i].0.as_str());
        let n = chars_of(pm[i].1.as_str());
        proof {
            assert(pair_views(pm@).skip(i as int)[0] == (pm@[i as int].0@, pm@[i as int].1@));
            assert(pair_views(pm@).skip(i as int).drop_first() =~= pair_views(pm@).skip(i + 1));
        }
        match rewrite_chars(&pc, &o, &n) {
            Some(v) => {
                return Some(string_of(&v));
            },
            None => {},
        }
        i += 1;
    }
    None
}

/// Note moves, completed with the notes that the implied folder moves carry along.
/// `None` where the moves conflict (see `collapse_move_pairs` and
/// `derive_prefix_moves_from_note_moves`). The pairs come sorted.
pub fn expand_note_move_pairs_with_prefix(
    existing_paths: &[String],
    moved_pairs: &[(String, String)],
) -> (r: Option<Vec<(String, String)>>)
    ensures
        r is Some <==> note_expansion_ok(pair_views(moved_pairs@)),
        r matches Some(o) ==> keys_sorted(o@) && map_of(o@) == extend_moves(
            sviews(existing_paths@),
            collapsed(moves_of(pair_views(moved_pairs@))->Some_0),
            prefix_order(
                prefix_moves_of(
                    map_pairs(collapsed(moves_of(pair_views(moved_pairs@))->Some_0)),
                )->Some_0.0,
            ),
        ),
{
    let collapsed_v = match collapse_move_pairs(moved_pairs) {
        Some(c) => c,
        None => {
            return None;
        },
    };
    proof {
        lemma_pair_views_map_pairs(collapsed_v@);
    }
    let prefix = match derive_prefix_moves_from_note_moves(&collapsed_v) {
        Some(pm) => pm,
        None => {
            return None;
        },
    };
    let ghost base = map_of(collapsed_v@);
    let ghost pmv = pair_views(prefix@);
    let ghost ex = sviews(existing_paths@);
    let mut mm = collapsed_v;
    let mut i: usize = 0;
    assert(ex.take(0) =~= Seq::<Seq<char>>::empty());
    while i < existing_paths.len()
        invariant
            i <= existing_paths.len(),
            ex == sviews(existing_paths@),
            pmv == pair_views(prefix@),
            keys_sorted(mm@),
            map_of(mm@) == extend_moves(ex.take(i as int), base, pmv),
        decreases existing_paths.len() - i,
    {
        proof {
            assert(ex.take(i + 1).drop_last() =~= ex.take(i as int));
            assert(ex.take(i + 1).last() == existing_paths@[i as int]@);
        }
        let from = &existing_paths[i];
        if map_find(&mm, from).is_none() {
            match first_prefix_rewrite(from, &prefix) {
                Some(to) => {
                    if !string_eq(from, &to) {
                        map_insert(&mut mm, from.clone(), to);
                    }
                },
                None => {},
            }
        }
        i += 1;
    }
    assert(ex.take(existing_paths.len() as int) =~= ex);
    Some(mm)
}

/// The rewrite of `p` by the first folder move whose source is `p` or contains it.
pub open spec fn folder_step(p: Seq<char>, mv: Seq<(Seq<char>, Seq<char>)>) -> Option<Seq<char>>
    decreases mv.len(),
{
    if mv.len() == 0 {
        None
    } else if under_folder(p, mv[0].0) {
        Some(mv[0].1 + p.skip(mv[0].0.len() as int))
    } else {
        folder_step(p, mv.drop_first())
    }
}

/// Folder moves applied to `p` until none applies; `None` once more rewrites than there are
/// moves would be needed.
pub open spec fn rewrite_with_folders(p: Seq<char>, mv: Seq<(Seq<char>, Seq<char>)>, hops: nat) -> Option<
    Seq<char>,
>
    decreases mv.len() + 1 - hops,
{
    match folder_step(p, mv) {
        None => Some(p),
        Some(q) => if hops + 1 > mv.len() {
            None
        } else {
            rewrite_with_folders(q, mv, hops + 1)
        },
    }
}

fn under_folder_chars(n: &[char], f: &[char]) -> (b: bool)
    ensures
        b == under_folder(n@, f@),
{
    if crate::text::seq_eq(n, f) {
        return true;
    }
    starts_with(n, f) && n.len() > f.len() && n[f.len()] == '/'
}

fn folder_step_exec(p: &[char], mv: &Vec<(String, String)>) -> (r: Option<Vec<char>>)
    ensures
        r matches Some(q) ==> folder_step(p@, pair_views(mv@)) == Some(q@),
        r is None ==> folder_step(p@, pair_views(mv@)) is None,
{
    let mut i: usize = 0;
    assert(pair_views(mv@).skip(0) =~= pair_views(mv@));
    while i < mv.len()
        invariant
            i <= mv.len(),
            folder_step(p@, pair_views(mv@)) == folder_step(p@, pair_views(mv@).skip(i as int)),
        decreases mv.len() - i,
    {
        let f = chars_of(mv[i].0.as_str());
        proof {
            assert(pair_views(mv@).skip(i as int)[0] == (mv@[i as int].0@, mv@[i as int].1@));
            assert(pair_views(mv@).skip(i as int).drop_first() =~= pair_views(mv@).skip(i + 1));
        }
        if under_folder_chars(p, &f) {
            let mut out = chars_of(mv[i].1.as_str());
            let rest = slice_of(p, f.len(), p.len());
            push_all(&mut out, &rest);
            return Some(out);
        }
        i += 1;
    }
    None
}

/// `note_path` rewritten by the folder moves, taken in order, until none applies.
pub(crate) fn rewrite_note_path_with_folder_moves(note_path: &String, folder_moves: &Vec<(String, String)>) -> (r:
    Option<String>)
    ensures
        r matches Some(s) ==> rewrite_with_folders(note_path@, pair_views(folder_moves@), 0)
            == Some(s@),
        r is None ==> rewrite_with_folders(note_path@, pair_views(folder_moves@), 0) is None,
{
    let ghost mv = pair_views(folder_moves@);
    let mut current = chars_of(note_path.as_str());
    let mut hops: usize = 0;
    loop
        invariant
            mv == pair_views(folder_moves@),
            hops <= folder_moves.len(),
            rewrite_with_folders(note_path@, mv, 0) == rewrite_with_folders(current@, mv, hops as nat),
        decreases folder_moves.len() + 1 - hops,
    {
        match folder_step_exec(&current, folder_moves) {
            None => {
                return Some(string_of(&current));
            },
            Some(q) => {
                if hops >= folder_moves.len() {
                    return None;
                }
                hops = hops + 1;
                current = q;
            },
        }
    }
}

/// The folder-change spec of a list of notes: each note that the moves relocate, paired
/// with its new path, in the order of the list; `None` where a note would move endlessly.
pub open spec fn folder_note_moves(existing: Seq<Seq<char>>, mv: Seq<(Seq<char>, Seq<char>)>) -> Option<
    Seq<(Seq<char>, Seq<char>)>,
>
    decreases existing.len(),
{
    if existing.len() == 0 {
        Some(Seq::empty())
    } else {
        match folder_note_moves(existing.drop_last(), mv) {
            None => None,
            Some(acc) => match rewrite_with_folders(existing.last(), mv, 0) {
                None => None,
                Some(q) => if q != existing.last() {
                    Some(acc.push((existing.last(), q)))
                } else {
                    Some(acc)
                },
            },
        }
    }
}

proof fn lemma_folder_note_moves_none(ex: Seq<Seq<char>>, mv: Seq<(Seq<char>, Seq<char>)>, j: int)
    requires
        0 <= j <= ex.len(),
        folder_note_moves(ex.take(j), mv) is None,
    ensures
        folder_note_moves(ex, mv) is None,
    decreases ex.len() - j,
{
    if j < ex.len() {
        assert(ex.take(j + 1).drop_last() =~= ex.take(j));
        lemma_folder_note_moves_none(ex, mv, j + 1);
    } else {
        assert(ex.take(j) =~= ex);
    }
}

/// The note moves that folder moves imply for the existing notes: the folder moves are
/// collapsed, applied longest folder first, and the pairs come sorted by old path.
/// `None` where the folder moves conflict or a note would move endlessly.
pub fn expand_folder_move_pairs_to_note_moves(
    existing_note_paths: &[String],
    folder_moves: &[(String, String)],
) -> (r: Option<Vec<(String, String)>>)
    ensures
        r is Some <==> (moves_of(pair_views(folder_moves@)) matches Some(m) && chains_end(m)
            && folder_note_moves(sviews(existing_note_paths@), prefix_order(collapsed(m))) is Some),
        r matches Some(o) ==> pairs_sorted(false, pair_views(o@)) && pair_views(o@).to_multiset()
            == folder_note_moves(
            sviews(existing_note_paths@),
            prefix_order(collapsed(moves_of(pair_views(folder_moves@))->Some_0)),
        )->Some_0.to_multiset(),
{
    let collapsed_v = match collapse_move_pairs(folder_moves) {
        Some(c) => c,
        None => {
            return None;
        },
    };
    let ordered = order_longest_first(&collapsed_v);
    let ghost mv = pair_views(ordered@);
    let ghost ex = sviews(existing_note_paths@);
    let mut out: Vec<(String, String)> = Vec::new();
    let mut i: usize = 0;
    assert(ex.take(0) =~= Seq::<Seq<char>>::empty());
    assert(pair_views(out@) =~= Seq::<(Seq<char>, Seq<char>)>::empty());
    while i < existing_note_paths.len()
        invariant
            i <= existing_note_paths.len(),
            ex == sviews(existing_note_paths@),
            mv == pair_views(ordered@),
            moves_of(pair_views(folder_moves@)) matches Some(m) && chains_end(m) && mv
                == prefix_order(collapsed(m)),
            folder_note_moves(ex.take(i as int), mv) == Some(pair_views(out@)),
        decreases existing_note_paths.len() - i,
    {
        proof {
            assert(ex.take(i + 1).drop_last() =~= ex.take(i as int));
            assert(ex.take(i + 1).last() == existing_note_paths@[i as int]@);
        }
        let old_path = &existing_note_paths[i];
        match rewrite_note_path_with_folder_moves(old_path, &ordered) {
            None => {
                proof {
                    lemma_folder_note_moves_none(ex, mv, i + 1);
                }
                return None;
            },
            Some(rewritten) => {
                if !string_eq(old_path, &rewritten) {
                    out.push((old_path.clone(), rewritten));
                    assert(pair_views(out@) =~= pair_views(out@).drop_last().push(
                        (old_path@, out@.last().1@),
                    ));
                }
            },
        }
        i += 1;
    }
    assert(ex.take(existing_note_paths.len() as int) =~= ex);
    Some(sort_pairs(false, &out))
}


// ---------------------------------------------------------------------------
// A synthetic burst of changes, for replay benchmarks
// ---------------------------------------------------------------------------
/// `n` in decimal, zero-padded on the left to at least four digits (what `{:04}` prints).
pub open spec fn pad4(n: nat) -> Seq<char> {
    let d = crate::text::decimal(n);
    if d.len() < 4 {
        Seq::new((4 - d.len()) as nat, |_k: int| '0') + d
    } else {
        d
    }
}

/// The changes made for directory `i` of a replay burst: it is created, moved to a staging
/// folder, moved to its final folder, removed there for every sixth directory, and one of
/// the `n` sample notes (taken round-robin) changes.
pub open spec fn replay_block(notes: Seq<Seq<char>>, n: nat, i: nat) -> Seq<ChangeModel> {
    let source = "notes/__watch_txn_batch/d"@ + pad4(i);
    let stage = "notes/__watch_txn_batch_stage/d"@ + pad4(i);
    let target = "notes/__watch_txn_batch_final/d"@ + pad4(i);
    seq![
        ChangeModel::FolderCreated(source),
        ChangeModel::FolderMoved(source, stage),
        ChangeModel::FolderMoved(stage, target),
    ] + (if i % 6 == 0 {
        seq![ChangeModel::FolderRemoved(target)]
    } else {
        Seq::empty()
    }) + (if n > 0 {
        seq![ChangeModel::NoteChanged(notes[(i % n) as int])]
    } else {
        Seq::empty()
    })
}

/// The blocks of directories `0..k`, in order.
pub open spec fn replay_changes(notes: Seq<Seq<char>>, n: nat, k: nat) -> Seq<ChangeModel>
    decreases k,
{
    if k == 0 {
        Seq::empty()
    } else {
        replay_changes(notes, n, (k - 1) as nat) + replay_block(notes, n, (k - 1) as nat)
    }
}

fn pad4_chars(n: usize) -> (r: Vec<char>)
    ensures
        r@ == pad4(n as nat),
{
    let d = crate::text::decimal_chars(n as u128);
    let mut r: Vec<char> = Vec::new();
    let mut k: usize = d.len();
    while k < 4
        invariant
            d.len() <= k <= 4 || (d.len() > 4 && k == d.len()),
            r@ == Seq::new((k - d.len()) as nat, |_j: int| '0'),
        decreases 4 - k,
    {
        r.push('0');
        k += 1;
    }
    push_all(&mut r, &d);
    proof {
        if d@.len() >= 4 {
            assert(r@ =~= d@);
        } else {
            assert(r@ =~= Seq::new((4 - d@.len()) as nat, |_k: int| '0') + d@);
        }
    }
    r
}

fn prefixed_dir(base: &str, pad: &Vec<char>) -> (s: String)
    ensures
        s@ == base@ + pad@,
{
    let mut v = chars_of(base);
    push_all(&mut v, pad);
    string_of(&v)
}

/// A burst of at least 1024 directory creations, moves and removals, mixed with changes to
/// the given notes (at most the first 256 of them are used).
pub fn synthesize_watch_txn_replay_changes(existing_note_paths: &[String], batch_dirs: usize) -> (r: Vec<
    VaultWatchChange,
>)
    ensures
        change_views(r@) == replay_changes(
            sviews(existing_note_paths@),
            if existing_note_paths@.len() < 256 { existing_note_paths@.len() } else { 256 },
            if batch_dirs > 1024 { batch_dirs as nat } else { 1024 },
        ),
{
    let dir_count: usize = if batch_dirs > 1024 { batch_dirs } else { 1024 };
    let n: usize = if existing_note_paths.len() < 256 { existing_note_paths.len() } else { 256 };
    let ghost notes = sviews(existing_note_paths@);
    let mut changes: Vec<VaultWatchChange> = Vec::new();
    let mut i: usize = 0;
    while i < dir_count
        invariant
            i <= dir_count,
            n <= existing_note_paths@.len(),
            n == if existing_note_paths@.len() < 256 { existing_note_paths@.len() } else { 256 },
            notes == sviews(existing_note_paths@),
            change_views(changes@) == replay_changes(notes, n as nat, i as nat),
        decreases dir_count - i,
    {
        let ghost before = change_views(changes@);
        let pad = pad4_chars(i);
        let source = prefixed_dir("notes/__watch_txn_batch/d", &pad);
        let stage = prefixed_dir("notes/__watch_txn_batch_stage/d", &pad);
        let target = prefixed_dir("notes/__watch_txn_batch_final/d", &pad);
        changes.push(VaultWatchChange::FolderCreated { path: source.clone() });
        changes.push(VaultWatchChange::FolderMoved { from: source, to: stage.clone() });
        changes.push(VaultWatchChange::FolderMoved { from: stage, to: target.clone() });
        if i % 6 == 0 {
            changes.push(VaultWatchChange::FolderRemoved { path: target });
        }
        if n > 0 {
            changes.push(VaultWatchChange::NoteChanged { path: existing_note_paths[i % n].clone() });
        }
        proof {
            assert(change_views(changes@) =~= before + replay_block(notes, n as nat, i as nat));
        }
        i += 1;
    }
    changes
}


// ---------------------------------------------------------------------------
// File-system events
// ---------------------------------------------------------------------------
/// Which side of a rename an event reports.
#[derive(Clone, Copy, Debug, PartialEq, Eq, Structural)]
pub enum RenameSide {
    Any,
    To,
    From,
    Both,
    Other,
}

/// What happened to the paths of a file-system event.
#[derive(Clone, Copy, Debug, PartialEq, Eq, Structural)]
pub enum WatchEventKind {
    /// A folder was created.
    FolderCreated,
    /// A folder was removed.
    FolderRemoved,
    /// Something other than a folder was removed.
    Removed,
    /// A path was renamed.
    Renamed(RenameSide),
    /// A path was only read.
    Accessed,
    /// Anything else: created, written, or of unknown kind.
    Changed,
}

/// One path of an event, as the watcher saw it.
#[derive(Clone, Debug, PartialEq, Eq)]
pub struct WatchEventPath {
    /// The path relative to the vault root, with `/` separators; none when it lies outside
    /// the root or is not valid UTF-8.
    pub rel: Option<String>,
    /// Whether the path is, now, a directory.
    pub is_dir: bool,
}

/// One file-system event.
#[derive(Clone, Debug, PartialEq, Eq)]
pub struct WatchEvent {
    pub kind: WatchEventKind,
    pub paths: Vec<WatchEventPath>,
}

/// The note a path names: a `.md` file outside the `.xnote` folder.
pub open spec fn note_rel(p: WatchEventPath) -> Option<Seq<char>> {
    match p.rel {
        Some(r) => if crate::text::has_suffix(r@, ".md"@) && !has_prefix(r@, ".xnote/"@) {
            Some(r@)
        } else {
            None
        },
        None => None,
    }
}

/// The folder a path names: without trailing `/`, not the root, not in `.xnote`, and, when
/// `require_dir`, a directory now.
pub open spec fn folder_rel(p: WatchEventPath, require_dir: bool) -> Option<Seq<char>> {
    match p.rel {
        Some(r) => {
            let t = crate::text::trim_end_char(r@, '/');
            if t.len() == 0 || t == ".xnote"@ || has_prefix(t, ".xnote/"@) || (require_dir && !p.is_dir) {
                None
            } else {
                Some(t)
            }
        },
        None => None,
    }
}

/// The changes that one path of a non-rename event stands for.
pub open spec fn event_path_changes(kind: WatchEventKind, p: WatchEventPath) -> Seq<ChangeModel> {
    match kind {
        WatchEventKind::FolderCreated => match folder_rel(p, true) {
            Some(f) => seq![ChangeModel::FolderCreated(f)],
            None => Seq::empty(),
        },
        WatchEventKind::FolderRemoved => match folder_rel(p, false) {
            Some(f) => seq![ChangeModel::FolderRemoved(f)],
            None => Seq::empty(),
        },
        WatchEventKind::Removed => match note_rel(p) {
            Some(n) => seq![ChangeModel::NoteRemoved(n)],
            None => Seq::empty(),
        },
        WatchEventKind::Accessed => Seq::empty(),
        _ => match note_rel(p) {
            Some(n) => seq![ChangeModel::NoteChanged(n)],
            None => match folder_rel(p, true) {
                Some(f) => seq![ChangeModel::FolderCreated(f)],
                None => Seq::empty(),
            },
        },
    }
}

/// The changes of all paths, in order.
pub open spec fn paths_changes(kind: WatchEventKind, ps: Seq<WatchEventPath>) -> Seq<ChangeModel>
    decreases ps.len(),
{
    if ps.len() == 0 {
        Seq::empty()
    } else {
        paths_changes(kind, ps.drop_last()) + event_path_changes(kind, ps.last())
    }
}

/// A move between the first two paths: of a note when both name notes, else of a folder.
pub open spec fn move_change(ps: Seq<WatchEventPath>) -> Seq<ChangeModel> {
    if ps.len() < 2 {
        Seq::empty()
    } else {
        match (note_rel(ps[0]), note_rel(ps[1])) {
            (Some(a), Some(b)) => seq![ChangeModel::NoteMoved(a, b)],
            _ => match (folder_rel(ps[0], false), folder_rel(ps[1], true)) {
                (Some(a), Some(b)) => seq![ChangeModel::FolderMoved(a, b)],
                _ => Seq::empty(),
            },
        }
    }
}

/// The changes that a rename event stands for.
pub open spec fn rename_changes(side: RenameSide, ps: Seq<WatchEventPath>) -> Seq<ChangeModel> {
    match side {
        RenameSide::From => if ps.len() == 0 {
            Seq::empty()
        } else {
            match note_rel(ps[0]) {
                Some(n) => seq![ChangeModel::NoteRemoved(n)],
                None => match folder_rel(ps[0], false) {
                    Some(f) => seq![ChangeModel::FolderRemoved(f)],
                    None => Seq::empty(),
                },
            }
        },
        RenameSide::To => if ps.len() == 0 {
            Seq::empty()
        } else {
            match note_rel(ps[0]) {
                Some(n) => seq![ChangeModel::NoteChanged(n)],
                None => match folder_rel(ps[0], true) {
                    Some(f) => seq![ChangeModel::FolderCreated(f)],
                    None => Seq::empty(),
                },
            }
        },
        _ => move_change(ps),
    }
}

/// The changes an event stands for; a failed event asks for a rescan.
pub open spec fn event_changes(event: Option<WatchEvent>) -> Seq<ChangeModel> {
    match event {
        None => seq![ChangeModel::RescanRequired],
        Some(e) => match e.kind {
            WatchEventKind::Renamed(side) => rename_changes(side, e.paths@),
            _ => paths_changes(e.kind, e.paths@),
        },
    }
}

/// The note a watched path names.
pub fn note_rel_path(p: &WatchEventPath) -> (r: Option<String>)
    ensures
        match r {
            Some(s) => note_rel(*p) == Some(s@),
            None => note_rel(*p) is None,
        },
{
    match &p.rel {
        Some(r) => {
            let v = chars_of(r.as_str());
            if crate::text::ends_with_str(&v, ".md") && !crate::text::starts_with_str(&v, ".xnote/") {
                Some(r.clone())
            } else {
                None
            }
        },
        None => None,
    }
}

/// The folder a watched path names.
pub fn folder_rel_path(p: &WatchEventPath, require_dir: bool) -> (r: Option<String>)
    ensures
        match r {
            Some(s) => folder_rel(*p, require_dir) == Some(s@),
            None => folder_rel(*p, require_dir) is None,
        },
{
    match &p.rel {
        Some(r) => {
            let t = crate::text::trim_end_char_chars(&chars_of(r.as_str()), '/');
            let x = chars_of(".xnote");
            if t.len() == 0 || crate::text::seq_eq(&t, &x) || crate::text::starts_with_str(&t, ".xnote/")
                || (require_dir && !p.is_dir) {
                None
            } else {
                Some(string_of(&t))
            }
        },
        None => None,
    }
}

fn push_one(out: &mut Vec<VaultWatchChange>, c: VaultWatchChange)
    ensures
        change_views(final(out)@) == change_views(old(out)@).push(c@),
{
    out.push(c);
    assert(change_views(out@) =~= change_views(old(out)@).push(c@));
}

fn push_move(out: &mut Vec<VaultWatchChange>, ps: &Vec<WatchEventPath>)
    ensures
        change_views(final(out)@) == change_views(old(out)@) + move_change(ps@),
{
    if ps.len() < 2 {
        assert(change_views(out@) =~= change_views(out@) + Seq::<ChangeModel>::empty());
        return;
    }
    match (note_rel_path(&ps[0]), note_rel_path(&ps[1])) {
        (Some(from), Some(to)) => {
            push_one(out, VaultWatchChange::NoteMoved { from, to });
            return;
        },
        _ => {},
    }
    match (folder_rel_path(&ps[0], false), folder_rel_path(&ps[1], true)) {
        (Some(from), Some(to)) => {
            push_one(out, VaultWatchChange::FolderMoved { from, to });
        },
        _ => {
            assert(change_views(out@) =~= change_views(out@) + Seq::<ChangeModel>::empty());
        },
    }
}

/// The changes that a file-system event stands for (`None`: the watcher reported an error,
/// and only a rescan can tell what changed).
pub fn changes_of_event(event: Option<&WatchEvent>) -> (r: Vec<VaultWatchChange>)
    ensures
        change_views(r@) == event_changes(match event {
            Some(e) => Some(*e),
            None => None,
        }),
{
    let mut out: Vec<VaultWatchChange> = Vec::new();
    assert(change_views(out@) =~= Seq::<ChangeModel>::empty());
    let e = match event {
        None => {
            push_one(&mut out, VaultWatchChange::RescanRequired);
            assert(change_views(out@) =~= seq![ChangeModel::RescanRequired]);
            return out;
        },
        Some(e) => e,
    };
    match e.kind {
        WatchEventKind::Renamed(side) => {
            match side {
                RenameSide::From => {
                    if e.paths.len() > 0 {
                        match note_rel_path(&e.paths[0]) {
                            Some(path) => push_one(&mut out, VaultWatchChange::NoteRemoved { path }),
                            None => match folder_rel_path(&e.paths[0], false) {
                                Some(path) => push_one(&mut out, VaultWatchChange::FolderRemoved { path }),
                                None => {},
                            },
                        }
                    }
                },
                RenameSide::To => {
                    if e.paths.len() > 0 {
                        match note_rel_path(&e.paths[0]) {
                            Some(path) => push_one(&mut out, VaultWatchChange::NoteChanged { path }),
                            None => match folder_rel_path(&e.paths[0], true) {
                                Some(path) => push_one(&mut out, VaultWatchChange::FolderCreated { path }),
                                None => {},
                            },
                        }
                    }
                },
                _ => push_move(&mut out, &e.paths),
            }
            assert(change_views(out@) =~= rename_changes(side, e.paths@));
        },
        _ => {
            let mut i: usize = 0;
            while i < e.paths.len()
                invariant
                    i <= e.paths.len(),
                    change_views(out@) == paths_changes(e.kind, e.paths@.take(i as int)),
                decreases e.paths.len() - i,
            {
                let ghost before = change_views(out@);
                proof {
                    assert(e.paths@.take(i + 1).drop_last() =~= e.paths@.take(i as int));
                    assert(e.paths@.take(i + 1).last() == e.paths@[i as int]);
                }
                let p = &e.paths[i];
                match e.kind {
                    WatchEventKind::FolderCreated => match folder_rel_path(p, true) {
                        Some(path) => push_one(&mut out, VaultWatchChange::FolderCreated { path }),
                        None => {},
                    },
                    WatchEventKind::FolderRemoved => match folder_rel_path(p, false) {
                        Some(path) => push_one(&mut out, VaultWatchChange::FolderRemoved { path }),
                        None => {},
                    },
                    WatchEventKind::Removed => match note_rel_path(p) {
                        Some(path) => push_one(&mut out, VaultWatchChange::NoteRemoved { path }),
                        None => {},
                    },
                    WatchEventKind::Accessed => {},
                    _ => match note_rel_path(p) {
                        Some(path) => push_one(&mut out, VaultWatchChange::NoteChanged { path }),
                        None => match folder_rel_path(p, true) {
                            Some(path) => push_one(&mut out, VaultWatchChange::FolderCreated { path }),
                            None => {},
                        },
                    },
                }
                assert(change_views(out@) =~= before + event_path_changes(e.kind, e.paths@[i as int]));
                i += 1;
            }
            assert(e.paths@.take(e.paths.len() as int) =~= e.paths@);
        },
    }
    out
}

} // verus!
