//! What the vault benchmark computes between its timings: notes grouped by folder, the
//! folder tree above them, a folder's saved order applied to its notes, and the notes a
//! path filter matches.
use vstd::prelude::*;
use crate::sorted::{strictly_sorted, sviews, set_of, set_insert, set_contains, sorted_list, lemma_sorted_is_sorted_list, string_eq};
use crate::text::{chars_of, string_of, slice_of, rfind_char, has_char, contains, contains_seq, trim, trimmed, unicode_lower, to_lowercase};

verus! {

/// The index of the last `c` in `s` (meaningful when `has_char(s, c)`).
pub open spec fn last_index(s: Seq<char>, c: char) -> int {
    choose|i: int| 0 <= i < s.len() && s[i] == c && forall|j: int| i < j < s.len() ==> s[j] != c
}

proof fn lemma_last_index(s: Seq<char>, c: char, k: int)
    requires
        0 <= k < s.len(),
        s[k] == c,
        forall|j: int| k < j < s.len() ==> s[j] != c,
    ensures
        last_index(s, c) == k,
{
    let i = last_index(s, c);
    assert(0 <= i < s.len() && s[i] == c && forall|j: int| i < j < s.len() ==> s[j] != c);
}

/// The folder of a note path: what comes before its last `/`, or nothing.
pub open spec fn folder_of(p: Seq<char>) -> Seq<char> {
    if has_char(p, '/') {
        p.take(last_index(p, '/'))
    } else {
        Seq::empty()
    }
}

fn folder_chars(p: &[char]) -> (r: Vec<char>)
    ensures
        r@ == folder_of(p@),
{
    match rfind_char(p, '/') {
        Some(i) => {
            proof {
                lemma_last_index(p@, '/', i as int);
            }
            let r = slice_of(p, 0, i);
            assert(r@ =~= p@.take(i as int));
            r
        },
        None => {
            assert(!has_char(p@, '/'));
            Vec::new()
        },
    }
}

pub fn folder_of_path(path: &str) -> (r: String)
    ensures
        r@ == folder_of(path@),
{
    let p = chars_of(path);
    string_of(&folder_chars(&p))
}

pub open spec fn group_keys(g: Seq<(String, Vec<String>)>) -> Seq<Seq<char>> {
    g.map_values(|e: (String, Vec<String>)| e.0@)
}

/// The paths of `ps` whose folder is `f`.
pub open spec fn in_folder(ps: Seq<Seq<char>>, f: Seq<char>) -> Set<Seq<char>> {
    Set::new(|q: Seq<char>| ps.contains(q) && folder_of(q) == f)
}

/// The folders of `ps`.
pub open spec fn folders(ps: Seq<Seq<char>>) -> Set<Seq<char>> {
    Set::new(|f: Seq<char>| exists|i: int| 0 <= i < ps.len() && folder_of(#[trigger] ps[i]) == f)
}

fn folder_strings(paths: &Vec<String>) -> (r: Vec<String>)
    ensures
        r.len() == paths.len(),
        forall|i: int| 0 <= i < r.len() ==> #[trigger] r@[i]@ == folder_of(paths@[i]@),
{
    let mut r: Vec<String> = Vec::new();
    let mut i: usize = 0;
    while i < paths.len()
        invariant
            i <= paths.len(),
            r.len() == i,
            forall|k: int| 0 <= k < i ==> #[trigger] r@[k]@ == folder_of(paths@[k]@),
        decreases paths.len() - i,
    {
        r.push(folder_of_path(paths[i].as_str()));
        i += 1;
    }
    r
}

/// The notes grouped by folder: the folders in order, each once, each with its notes in
/// order, each once.
pub fn group_notes_by_folder(paths: &Vec<String>) -> (r: Vec<(String, Vec<String>)>)
    ensures
        strictly_sorted(group_keys(r@)),
        forall|f: Seq<char>| group_keys(r@).contains(f) <==> folders(sviews(paths@)).contains(f),
        forall|i: int| 0 <= i < r.len() ==> strictly_sorted(sviews((#[trigger] r@[i]).1@)) && set_of(r@[i].1@)
            == in_folder(sviews(paths@), r@[i].0@),
{
    let fs = folder_strings(paths);
    let ghost ps = sviews(paths@);
    let mut keys: Vec<String> = Vec::new();
    let mut i: usize = 0;
    while i < fs.len()
        invariant
            i <= fs.len(),
            fs.len() == paths.len(),
            ps == sviews(paths@),
            forall|k: int| 0 <= k < fs.len() ==> #[trigger] fs@[k]@ == folder_of(paths@[k]@),
            strictly_sorted(sviews(keys@)),
            forall|f: Seq<char>| sviews(keys@).contains(f) <==> exists|k: int| 0 <= k < i && folder_of(#[trigger] ps[k]) == f,
        decreases fs.len() - i,
    {
        assert(ps[i as int] == paths@[i as int]@);
        set_insert(&mut keys, fs[i].clone());
        proof {
            assert forall|f: Seq<char>| sviews(keys@).contains(f) <==> exists|k: int| 0 <= k < i + 1 && folder_of(#[trigger] ps[k]) == f by {
                if exists|k: int| 0 <= k < i + 1 && folder_of(#[trigger] ps[k]) == f {
                    let k = choose|k: int| 0 <= k < i + 1 && folder_of(#[trigger] ps[k]) == f;
                    if k < i {
                        assert(exists|k2: int| 0 <= k2 < i && folder_of(#[trigger] ps[k2]) == f);
                    }
                }
            }
        }
        i += 1;
    }
    let mut r: Vec<(String, Vec<String>)> = Vec::new();
    let mut j: usize = 0;
    while j < keys.len()
        invariant
            j <= keys.len(),
            fs.len() == paths.len(),
            ps == sviews(paths@),
            forall|k: int| 0 <= k < fs.len() ==> #[trigger] fs@[k]@ == folder_of(paths@[k]@),
            strictly_sorted(sviews(keys@)),
            r.len() == j,
            forall|a: int| 0 <= a < j ==> (#[trigger] r@[a]).0@ == keys@[a]@,
            forall|a: int| 0 <= a < j ==> strictly_sorted(sviews((#[trigger] r@[a]).1@)) && set_of(r@[a].1@) == in_folder(ps, r@[a].0@),
        decreases keys.len() - j,
    {
        let mut members: Vec<String> = Vec::new();
        let mut k: usize = 0;
        assert(set_of(members@) =~= Set::<Seq<char>>::empty());
        while k < paths.len()
            invariant
                k <= paths.len(),
                j < keys.len(),
                fs.len() == paths.len(),
                ps == sviews(paths@),
                forall|x: int| 0 <= x < fs.len() ==> #[trigger] fs@[x]@ == folder_of(paths@[x]@),
                strictly_sorted(sviews(members@)),
                set_of(members@) == Set::new(|q: Seq<char>| ps.take(k as int).contains(q) && folder_of(q) == keys@[j as int]@),
            decreases paths.len() - k,
        {
            let ghost before = set_of(members@);
            let hit = string_eq(&fs[k], &keys[j]);
            if hit {
                let x = paths[k].clone();
                assert(x@ == ps[k as int]);
                set_insert(&mut members, x);
                assert(set_of(members@) == before.insert(ps[k as int]));
            }
            proof {
                assert(fs@[k as int]@ == folder_of(ps[k as int]));
                assert(hit <==> folder_of(ps[k as int]) == keys@[j as int]@);
                assert(!hit ==> set_of(members@) == before);
                let key = keys@[j as int]@;
                assert(ps.take(k + 1) =~= ps.take(k as int).push(ps[k as int]));
                assert(ps[k as int] == paths@[k as int]@);
                assert forall|q: Seq<char>| ps.take(k + 1).contains(q) <==> (ps.take(k as int).contains(q) || q == ps[k as int]) by {
                    if ps.take(k + 1).contains(q) {
                        let x = choose|x: int| 0 <= x < ps.take(k + 1).len() && #[trigger] ps.take(k + 1)[x] == q;
                        if x < k {
                            assert(ps.take(k as int)[x] == q);
                        }
                    }
                    if ps.take(k as int).contains(q) {
                        let x = choose|x: int| 0 <= x < ps.take(k as int).len() && #[trigger] ps.take(k as int)[x] == q;
                        assert(ps.take(k + 1)[x] == q);
                    }
                    if q == ps[k as int] {
                        assert(ps.take(k + 1)[k as int] == q);
                    }
                }
                let target = Set::new(|q: Seq<char>| ps.take(k + 1).contains(q) && folder_of(q) == key);
                assert forall|q: Seq<char>| set_of(members@).contains(q) <==> target.contains(q) by {
                    assert(before.contains(q) <==> (ps.take(k as int).contains(q) && folder_of(q) == key));
                }
                assert(set_of(members@) =~= target);
            }
            k += 1;
        }
        proof {
            assert(ps.take(paths.len() as int) =~= ps);
            assert(set_of(members@) =~= in_folder(ps, keys@[j as int]@));
        }
        let ghost before = r@;
        r.push((keys[j].clone(), members));
        assert(r@[j as int].0@ == keys@[j as int]@);
        assert forall|a: int| 0 <= a < j + 1 implies strictly_sorted(sviews((#[trigger] r@[a]).1@)) && set_of(r@[a].1@) == in_folder(ps, r@[a].0@) by {
            if a < j {
                assert(r@[a] == before[a]);
            }
        }
        j += 1;
    }
    proof {
        assert(group_keys(r@) =~= sviews(keys@));
        assert forall|f: Seq<char>| group_keys(r@).contains(f) <==> folders(ps).contains(f) by {
            if folders(ps).contains(f) {
                let k = choose|k: int| 0 <= k < ps.len() && folder_of(#[trigger] ps[k]) == f;
                assert(exists|k2: int| 0 <= k2 < fs.len() && folder_of(#[trigger] ps[k2]) == f);
            }
        }
    }
    r
}


// ---------------------------------------------------------------------------
// The folder tree
// ---------------------------------------------------------------------------
proof fn lemma_has_char_last(s: Seq<char>, c: char)
    requires
        has_char(s, c),
    ensures
        0 <= last_index(s, c) < s.len(),
        s[last_index(s, c)] == c,
        forall|j: int| last_index(s, c) < j < s.len() ==> s[j] != c,
    decreases s.len(),
{
    if s.last() == c {
        lemma_last_index(s, c, s.len() - 1);
    } else {
        let u = s.drop_last();
        let k = choose|k: int| 0 <= k < s.len() && s[k] == c;
        assert(u[k] == c);
        lemma_has_char_last(u, c);
        let m = last_index(u, c);
        assert forall|j: int| m < j < s.len() implies s[j] != c by {
            if j < u.len() {
                assert(u[j] == s[j]);
            }
        }
        assert(s[m] == u[m]);
        lemma_last_index(s, c, m);
    }
}

/// The folders above `f`: the top folder (empty) and each prefix of `f` that ends before
/// one of its `/`.
pub open spec fn parents_of(f: Seq<char>) -> Set<Seq<char>> {
    Set::new(|p: Seq<char>| p.len() == 0 || exists|k: int| 0 <= k < f.len() && f[k] == '/' && p == #[trigger] f.take(k))
}

/// The folder tree above the non-empty folders among `fs`, with the top folder.
pub open spec fn tree_of(fs: Seq<Seq<char>>, n: int) -> Set<Seq<char>> {
    Set::new(|p: Seq<char>| p.len() == 0 || exists|i: int| 0 <= i < n && fs[i].len() > 0 && #[trigger] parents_of(fs[i]).contains(p))
}

proof fn lemma_parents_step(f: Seq<char>)
    ensures
        has_char(f, '/') ==> parents_of(f) == parents_of(folder_of(f)).insert(folder_of(f)),
        !has_char(f, '/') ==> parents_of(f) == Set::<Seq<char>>::empty().insert(Seq::<char>::empty()),
        has_char(f, '/') ==> folder_of(f).len() < f.len(),
{
    if has_char(f, '/') {
        lemma_has_char_last(f, '/');
        let l = last_index(f, '/');
        let g = f.take(l);
        assert forall|p: Seq<char>| parents_of(f).contains(p) <==> parents_of(g).insert(g).contains(p) by {
            if p.len() > 0 && parents_of(f).contains(p) {
                let k = choose|k: int| 0 <= k < f.len() && f[k] == '/' && p == #[trigger] f.take(k);
                if k < l {
                    assert(g[k] == '/');
                    assert(g.take(k) =~= f.take(k));
                }
            }
            if p.len() > 0 && parents_of(g).contains(p) {
                let k = choose|k: int| 0 <= k < g.len() && g[k] == '/' && p == #[trigger] g.take(k);
                assert(f[k] == '/');
                assert(g.take(k) =~= f.take(k));
            }
            if p == g && p.len() > 0 {
                assert(f[l] == '/');
            }
        }
        assert(parents_of(f) =~= parents_of(g).insert(g));
    } else {
        assert forall|p: Seq<char>| parents_of(f).contains(p) <==> p == Seq::<char>::empty() by {
            if p.len() == 0 {
                assert(p =~= Seq::<char>::empty());
            }
            if p.len() > 0 && parents_of(f).contains(p) {
                let k = choose|k: int| 0 <= k < f.len() && f[k] == '/' && p == #[trigger] f.take(k);
                assert(has_char(f, '/'));
            }
        }
        assert(parents_of(f) =~= Set::<Seq<char>>::empty().insert(Seq::<char>::empty()));
    }
}

/// The folder tree above `folders`: the top folder and every folder above a non-empty one,
/// in order, each once.
pub fn folder_tree(folders: &Vec<String>) -> (r: Vec<String>)
    ensures
        strictly_sorted(sviews(r@)),
        set_of(r@) == tree_of(sviews(folders@), folders.len() as int),
{
    let ghost fs = sviews(folders@);
    let mut set: Vec<String> = Vec::new();
    set_insert(&mut set, String::new());
    assert(set_of(set@) =~= tree_of(fs, 0)) by {
        assert(set_of(Seq::<String>::empty()) =~= Set::<Seq<char>>::empty());
        assert forall|p: Seq<char>| tree_of(fs, 0).contains(p) <==> p == Seq::<char>::empty() by {
            if p.len() == 0 {
                assert(p =~= Seq::<char>::empty());
            }
        }
    }
    let mut i: usize = 0;
    while i < folders.len()
        invariant
            i <= folders.len(),
            fs == sviews(folders@),
            strictly_sorted(sviews(set@)),
            set_of(set@) == tree_of(fs, i as int),
        decreases folders.len() - i,
    {
        let ghost before = set_of(set@);
        let ghost fi = fs[i as int];
        assert(folders@[i as int]@ == fi);
        let start = chars_of(folders[i].as_str());
        if start.len() > 0 {
            let mut full = start;
            loop
                invariant
                    strictly_sorted(sviews(set@)),
                    before.subset_of(set_of(set@)),
                    set_of(set@).subset_of(before.union(parents_of(fi))),
                    set_of(set@).union(parents_of(full@)) == before.union(parents_of(fi)),
                    set_of(set@).contains(Seq::<char>::empty()),
                ensures
                    strictly_sorted(sviews(set@)),
                    set_of(set@) == before.union(parents_of(fi)),
                decreases full.len(),
            {
                let parent = folder_chars(&full);
                proof {
                    lemma_parents_step(full@);
                }
                set_insert(&mut set, string_of(&parent));
                proof {
                    assert(parents_of(full@).contains(parent@)) by {
                        if !has_char(full@, '/') {
                            assert(parent@.len() == 0);
                        }
                    }
                    if has_char(full@, '/') {
                        assert(parents_of(parent@).subset_of(parents_of(full@)));
                    }
                    assert(set_of(set@).union(parents_of(parent@)) =~= before.union(parents_of(fi))) by {
                        if !has_char(full@, '/') {
                            assert(parents_of(parent@) =~= Set::<Seq<char>>::empty().insert(Seq::<char>::empty())) by {
                                lemma_parents_step(parent@);
                            }
                        }
                    }
                }
                if parent.len() == 0 {
                    proof {
                        lemma_parents_step(parent@);
                        assert(set_of(set@) =~= before.union(parents_of(fi)));
                    }
                    break;
                }
                full = parent;
            }
        }
        assert(start@ == fi);
        assert(start.len() == 0 ==> set_of(set@) == before);
        proof {
            assert forall|p: Seq<char>| set_of(set@).contains(p) <==> tree_of(fs, i + 1).contains(p) by {
                if tree_of(fs, i + 1).contains(p) && p.len() > 0 {
                    let k = choose|k: int| 0 <= k < i + 1 && fs[k].len() > 0 && #[trigger] parents_of(fs[k]).contains(p);
                    if k < i {
                        assert(tree_of(fs, i as int).contains(p));
                    }
                }
                if before.contains(p) && p.len() > 0 {
                    let k = choose|k: int| 0 <= k < i && fs[k].len() > 0 && #[trigger] parents_of(fs[k]).contains(p);
                    assert(tree_of(fs, i + 1).contains(p));
                }
                if fi.len() > 0 && parents_of(fi).contains(p) {
                    assert(tree_of(fs, i + 1).contains(p));
                }
            }
            assert(set_of(set@) =~= tree_of(fs, i + 1));
        }
        i += 1;
    }
    set
}

// ---------------------------------------------------------------------------
// A folder's saved order
// ---------------------------------------------------------------------------
/// The paths of `ps` that are `allowed` and not `seen`, each at its first occurrence.
pub open spec fn keep_new(ps: Seq<Seq<char>>, allowed: Set<Seq<char>>, seen: Set<Seq<char>>) -> Seq<Seq<char>>
    decreases ps.len(),
{
    if ps.len() == 0 {
        Seq::empty()
    } else {
        let acc = keep_new(ps.drop_last(), allowed, seen);
        let p = ps.last();
        if allowed.contains(p) && !seen.contains(p) && !acc.contains(p) {
            acc.push(p)
        } else {
            acc
        }
    }
}

/// A folder's notes in its saved order: the ordered paths that are among the notes, each
/// once, then the other notes in their own order, each once.
pub open spec fn ordered_notes(notes: Seq<Seq<char>>, order: Seq<Seq<char>>) -> Seq<Seq<char>> {
    let first = keep_new(order, notes.to_set(), Set::empty());
    first + keep_new(notes, notes.to_set(), first.to_set())
}

proof fn lemma_concat_to_set<A>(a: Seq<A>, b: Seq<A>)
    ensures
        (a + b).to_set() == a.to_set().union(b.to_set()),
{
    assert forall|x: A| (a + b).to_set().contains(x) <==> a.to_set().union(b.to_set()).contains(x) by {
        if (a + b).contains(x) {
            let i = choose|i: int| 0 <= i < (a + b).len() && (a + b)[i] == x;
            if i < a.len() {
                assert(a[i] == x);
            } else {
                assert(b[i - a.len()] == x);
            }
        }
        if a.contains(x) {
            let i = choose|i: int| 0 <= i < a.len() && a[i] == x;
            assert((a + b)[i] == x);
        }
        if b.contains(x) {
            let i = choose|i: int| 0 <= i < b.len() && b[i] == x;
            assert((a + b)[a.len() + i] == x);
        }
    }
    assert((a + b).to_set() =~= a.to_set().union(b.to_set()));
}

proof fn lemma_take_push<A>(s: Seq<A>, i: int)
    requires
        0 <= i < s.len(),
    ensures
        s.take(i + 1).drop_last() == s.take(i),
        s.take(i + 1).last() == s[i],
{
    assert(s.take(i + 1).drop_last() =~= s.take(i));
}

proof fn lemma_keep_new(ps: Seq<Seq<char>>, allowed: Set<Seq<char>>, seen: Set<Seq<char>>)
    ensures
        keep_new(ps, allowed, seen).no_duplicates(),
        forall|p: Seq<char>| keep_new(ps, allowed, seen).contains(p) <==> (ps.contains(p) && allowed.contains(p)
            && !seen.contains(p)),
    decreases ps.len(),
{
    if ps.len() > 0 {
        let u = ps.drop_last();
        lemma_keep_new(u, allowed, seen);
        let acc = keep_new(u, allowed, seen);
        let x = ps.last();
        assert forall|p: Seq<char>| keep_new(ps, allowed, seen).contains(p) <==> (ps.contains(p) && allowed.contains(p)
            && !seen.contains(p)) by {
            if ps.contains(p) {
                let i = choose|i: int| 0 <= i < ps.len() && ps[i] == p;
                if i < u.len() {
                    assert(u[i] == p);
                }
            }
            if u.contains(p) {
                let i = choose|i: int| 0 <= i < u.len() && u[i] == p;
                assert(ps[i] == p);
            }
            if allowed.contains(x) && !seen.contains(x) && !acc.contains(x) {
                assert(acc.push(x)[acc.len() as int] == x);
                if acc.push(x).contains(p) && p != x {
                    let i = choose|i: int| 0 <= i < acc.push(x).len() && acc.push(x)[i] == p;
                    assert(acc[i] == p);
                }
                if acc.contains(p) {
                    let i = choose|i: int| 0 <= i < acc.len() && acc[i] == p;
                    assert(acc.push(x)[i] == p);
                }
            }
        }
    }
}

/// Applying a saved order loses no note and adds none: the result holds each of the
/// folder's notes exactly once.
pub proof fn law_ordered_notes_keep_each_note_once(notes: Seq<Seq<char>>, order: Seq<Seq<char>>)
    ensures
        ordered_notes(notes, order).no_duplicates(),
        ordered_notes(notes, order).to_set() == notes.to_set(),
{
    let all = notes.to_set();
    let first = keep_new(order, all, Set::empty());
    let second = keep_new(notes, all, first.to_set());
    lemma_keep_new(order, all, Set::empty());
    lemma_keep_new(notes, all, first.to_set());
    let r = first + second;
    assert forall|i: int, j: int| 0 <= i < r.len() && 0 <= j < r.len() && i != j implies r[i] != r[j] by {
        let fl = first.len() as int;
        if i < fl && j < fl {
            assert(r[i] == first[i] && r[j] == first[j]);
        } else if i >= fl && j >= fl {
            assert(r[i] == second[i - fl] && r[j] == second[j - fl]);
        } else {
            let (a, b) = if i < fl { (i, j) } else { (j, i) };
            assert(r[a] == first[a]);
            assert(first.contains(r[a]));
            assert(r[b] == second[b - fl]);
            assert(second.contains(r[b]));
            assert(!first.to_set().contains(r[b]));
        }
    }
    lemma_concat_to_set(first, second);
    assert(r.to_set() =~= all);
}

pub fn apply_folder_order(default_paths: &Vec<String>, order: &Vec<String>) -> (r: Vec<String>)
    ensures
        sviews(r@) == ordered_notes(sviews(default_paths@), sviews(order@)),
{
    let ghost dv = sviews(default_paths@);
    let ghost ov = sviews(order@);
    let mut existing: Vec<String> = Vec::new();
    let mut i: usize = 0;
    assert(set_of(existing@) =~= Set::<Seq<char>>::empty());
    while i < default_paths.len()
        invariant
            i <= default_paths.len(),
            dv == sviews(default_paths@),
            strictly_sorted(sviews(existing@)),
            set_of(existing@) == dv.take(i as int).to_set(),
        decreases default_paths.len() - i,
    {
        set_insert(&mut existing, default_paths[i].clone());
        proof {
            lemma_take_push(dv, i as int);
            assert(dv.take(i + 1) =~= dv.take(i as int).push(dv[i as int]));
            assert(dv.take(i + 1).to_set() =~= dv.take(i as int).to_set().insert(dv[i as int]));
        }
        i += 1;
    }
    assert(dv.take(default_paths.len() as int) =~= dv);
    let ghost all = dv.to_set();
    let mut seen: Vec<String> = Vec::new();
    let mut out: Vec<String> = Vec::new();
    let mut i: usize = 0;
    assert(set_of(seen@) =~= Set::<Seq<char>>::empty());
    assert(sviews(out@) =~= Seq::<Seq<char>>::empty());
    assert(sviews(out@).to_set() =~= Set::<Seq<char>>::empty());
    while i < order.len()
        invariant
            i <= order.len(),
            ov == sviews(order@),
            all == dv.to_set(),
            set_of(existing@) == all,
            strictly_sorted(sviews(existing@)),
            strictly_sorted(sviews(seen@)),
            set_of(seen@) == sviews(out@).to_set(),
            sviews(out@) == keep_new(ov.take(i as int), all, Set::empty()),
        decreases order.len() - i,
    {
        proof {
            lemma_take_push(ov, i as int);
        }
        let p = &order[i];
        assert(p@ == ov[i as int]);
        let ghost acc = keep_new(ov.take(i as int), all, Set::empty());
        let c1 = set_contains(&existing, p);
        let c2 = set_contains(&seen, p);
        assert(c1 == all.contains(p@)) by {
            assert(set_of(existing@).contains(p@) == sviews(existing@).contains(p@));
        }
        assert(c2 == acc.contains(p@)) by {
            assert(set_of(seen@).contains(p@) == sviews(seen@).contains(p@));
            assert(sviews(out@).to_set().contains(p@) == sviews(out@).contains(p@));
        }
        assert(keep_new(ov.take(i + 1), all, Set::empty()) == if all.contains(p@) && !Set::<Seq<char>>::empty().contains(p@) && !acc.contains(p@) {
            acc.push(p@)
        } else {
            acc
        });
        if c1 && !c2 {
            let ghost before = sviews(out@);
            set_insert(&mut seen, p.clone());
            out.push(p.clone());
            assert(sviews(out@) =~= before.push(p@));
            proof {
                before.lemma_push_to_set_commute(p@);
            }
        }
        i += 1;
    }
    assert(ov.take(order.len() as int) =~= ov);
    let ghost first = sviews(out@);
    let mut i: usize = 0;
    assert(first + Seq::<Seq<char>>::empty() =~= first);
    while i < default_paths.len()
        invariant
            i <= default_paths.len(),
            dv == sviews(default_paths@),
            all == dv.to_set(),
            strictly_sorted(sviews(seen@)),
            set_of(seen@) == sviews(out@).to_set(),
            sviews(out@) == first + keep_new(dv.take(i as int), all, first.to_set()),
        decreases default_paths.len() - i,
    {
        proof {
            lemma_take_push(dv, i as int);
        }
        let p = &default_paths[i];
        assert(p@ == dv[i as int]);
        assert(all.contains(p@)) by {
            assert(dv.contains(dv[i as int]));
        }
        let ghost acc = keep_new(dv.take(i as int), all, first.to_set());
        assert(sviews(out@).to_set().contains(p@) <==> (first.to_set().contains(p@) || acc.contains(p@))) by {
            lemma_concat_to_set(first, acc);
        }
        if !set_contains(&seen, p) {
            let ghost before = sviews(out@);
            set_insert(&mut seen, p.clone());
            out.push(p.clone());
            assert(sviews(out@) =~= before.push(p@));
            proof {
                before.lemma_push_to_set_commute(p@);
            }
            assert(first + acc.push(p@) =~= (first + acc).push(p@));
        }
        i += 1;
    }
    assert(dv.take(default_paths.len() as int) =~= dv);
    out
}

// ---------------------------------------------------------------------------
// The path filter
// ---------------------------------------------------------------------------
/// How many of the paths contain `q`.
pub open spec fn match_count(ps: Seq<Seq<char>>, q: Seq<char>) -> int
    decreases ps.len(),
{
    if ps.len() == 0 {
        0
    } else {
        match_count(ps.drop_last(), q) + if contains_seq(ps.last(), q) {
            1int
        } else {
            0int
        }
    }
}

/// The query as the path filter takes it: trimmed, then lowercased.
pub fn filter_query(query: &str) -> (r: String)
    ensures
        r@ == unicode_lower(trim(query@)),
{
    let t = string_of(&trimmed(query));
    to_lowercase(t.as_str())
}

/// How many of the (lowercased) paths contain the (lowercased) query; none for an empty
/// query.
pub fn count_filter_matches(paths_lower: &Vec<String>, query_lower: &str) -> (n: usize)
    ensures
        n == if query_lower@.len() == 0 {
            0
        } else {
            match_count(sviews(paths_lower@), query_lower@)
        },
{
    let q = chars_of(query_lower);
    if q.len() == 0 {
        return 0;
    }
    let ghost ps = sviews(paths_lower@);
    let mut n: usize = 0;
    let mut i: usize = 0;
    while i < paths_lower.len()
        invariant
            i <= paths_lower.len(),
            ps == sviews(paths_lower@),
            q@ == query_lower@,
            n <= i,
            n == match_count(ps.take(i as int), q@),
        decreases paths_lower.len() - i,
    {
        proof {
            lemma_take_push(ps, i as int);
        }
        let p = chars_of(paths_lower[i].as_str());
        if contains(&p, &q) {
            n = n + 1;
        }
        i += 1;
    }
    assert(ps.take(paths_lower.len() as int) =~= ps);
    n
}

} // verus!
