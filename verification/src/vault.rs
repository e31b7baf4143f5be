//! The vault's listing of notes and folders, and the `order.md` files that keep a folder's
//! manual note order.
use vstd::prelude::*;
use crate::paths::{normalize_vault_rel_path, spec_normalize_vault_rel_path, result_view, PathError};
use crate::sorted::{strictly_sorted, sviews, set_of, set_insert, lemma_sorted_is_sorted_list, sorted_list};
use crate::text::{to_lowercase, unicode_lower, chars_of, string_of, push_str, push_all, trim, trim_chars, trimmed, slice_of, lines_of, lines, views, has_prefix, has_suffix, starts_with_str, ends_with_str, trim_end_char, trim_end_char_chars, eq_str, is_ws, trim_start, trim_end, split_on, strip_cr, lemma_split_concat, lemma_split_no_char, lemma_split_line, lemma_trim_fixed, lemma_trimmed_ends, lemma_trim_start_is_skip, lemma_trim_end_is_take, lemma_trim_end_char_take};

verus! {

/// A note of the vault.
#[derive(Debug, Clone, PartialEq, Eq)]
pub struct NoteEntry {
    /// Vault-relative POSIX path, e.g. `notes/Intro.md`
    pub path: String,
}

/// The notes and folders of a vault, each sorted by path.
#[derive(Debug, Clone, PartialEq, Eq)]
pub struct VaultScan {
    pub notes: Vec<NoteEntry>,
    pub folders: Vec<String>,
}

pub open spec fn note_paths(v: Seq<NoteEntry>) -> Seq<Seq<char>> {
    v.map_values(|n: NoteEntry| n.path@)
}

/// Inside the vault's own metadata folder.
pub open spec fn is_internal(p: Seq<char>) -> bool {
    p == ".xnote"@ || has_prefix(p, ".xnote/"@)
}

/// The folder paths that a listing keeps: outside `.xnote`, without trailing `/`.
pub open spec fn kept_folders(dirs: Seq<Seq<char>>) -> Set<Seq<char>> {
    Set::new(|f: Seq<char>| exists|i: int| 0 <= i < dirs.len() && !is_internal(#[trigger] dirs[i]) && trim_end_char(dirs[i], '/') == f)
}

/// What follows the last `c` in `p`; all of `p` where there is none.
pub open spec fn after_last(p: Seq<char>, c: char) -> Seq<char>
    decreases p.len(),
{
    if p.len() == 0 {
        p
    } else if p.last() == c {
        Seq::empty()
    } else {
        after_last(p.drop_last(), c).push(p.last())
    }
}

/// A markdown file: the file name (what follows the last `/`) has an extension (what follows
/// its last `.`, where that `.` is not the name's first character) that lower-cases to `md`.
pub open spec fn is_markdown_file(p: Seq<char>) -> bool {
    let name = after_last(p, '/');
    let ext = after_last(name, '.');
    ext.len() + 2 <= name.len() && unicode_lower(ext) == "md"@
}

/// The note paths that a listing keeps: markdown files outside `.xnote/`.
pub open spec fn kept_notes(files: Seq<Seq<char>>) -> Set<Seq<char>> {
    Set::new(|f: Seq<char>| exists|i: int| 0 <= i < files.len() && is_kept_note(#[trigger] files[i]) && files[i] == f)
}

pub open spec fn is_kept_note(p: Seq<char>) -> bool {
    !has_prefix(p, ".xnote/"@) && is_markdown_file(p)
}

proof fn lemma_after_last_concat(a: Seq<char>, b: Seq<char>, c: char)
    requires
        !b.contains(c),
    ensures
        after_last(a + b, c) == after_last(a, c) + b,
    decreases b.len(),
{
    if b.len() == 0 {
        assert(a + b =~= a);
        assert(after_last(a, c) + b =~= after_last(a, c));
    } else {
        assert((a + b).last() == b.last());
        assert((a + b).drop_last() =~= a + b.drop_last());
        assert(!b.drop_last().contains(c)) by {
            if b.drop_last().contains(c) {
                let k = choose|k: int| 0 <= k < b.drop_last().len() && b.drop_last()[k] == c;
                assert(b[k] == c);
            }
        }
        assert(b.last() != c) by {
            assert(b[b.len() - 1] == b.last());
        }
        lemma_after_last_concat(a, b.drop_last(), c);
        assert(after_last(a, c) + b =~= (after_last(a, c) + b.drop_last()).push(b.last()));
    }
}

/// Where what follows the last `c` in `p` begins: just past that `c`, or 0 where there is none.
fn after_last_start(p: &[char], c: char) -> (i: usize)
    ensures
        i <= p.len(),
        after_last(p@, c) == p@.skip(i as int),
{
    let mut i: usize = p.len();
    while i > 0 && p[i - 1] != c
        invariant
            i <= p.len(),
            forall|k: int| i <= k < p.len() ==> p@[k] != c,
        decreases i,
    {
        i -= 1;
    }
    proof {
        assert(p@ =~= p@.take(i as int) + p@.skip(i as int));
        assert(!p@.skip(i as int).contains(c)) by {
            if p@.skip(i as int).contains(c) {
                let k = choose|k: int| 0 <= k < p@.skip(i as int).len() && p@.skip(i as int)[k] == c;
                assert(p@[i + k] == c);
            }
        }
        lemma_after_last_concat(p@.take(i as int), p@.skip(i as int), c);
        if i > 0 {
            assert(p@.take(i as int).last() == c);
        } else {
            assert(p@.take(0) =~= Seq::<char>::empty());
        }
        assert(after_last(p@.take(i as int), c) =~= Seq::<char>::empty());
        assert(Seq::<char>::empty() + p@.skip(i as int) =~= p@.skip(i as int));
    }
    i
}

/// Whether `p` names a markdown file (see `is_markdown_file`).
pub fn is_markdown_file_exec(p: &[char]) -> (b: bool)
    ensures
        b == is_markdown_file(p@),
{
    let s = after_last_start(p, '/');
    let name = slice_of(p, s, p.len());
    assert(name@ == after_last(p@, '/'));
    let d = after_last_start(&name, '.');
    if d < 2 {
        return false;
    }
    let ext = slice_of(&name, d, name.len());
    let lower = to_lowercase(string_of(&ext).as_str());
    let lc = chars_of(lower.as_str());
    eq_str(&lc, "md")
}

fn is_internal_exec(p: &[char]) -> (b: bool)
    ensures
        b == is_internal(p@),
{
    eq_str(p, ".xnote") || starts_with_str(p, ".xnote/")
}

/// A scan from the vault-relative POSIX paths of the folders and the markdown files that a
/// walk found: the vault's own metadata is left out, folder paths lose trailing `/`, and
/// both lists come sorted, each path once.
pub fn assemble_scan(folder_paths: &Vec<String>, note_file_paths: &Vec<String>) -> (r: VaultScan)
    ensures
        sviews(r.folders@) == sorted_list(kept_folders(sviews(folder_paths@))),
        note_paths(r.notes@) == sorted_list(kept_notes(sviews(note_file_paths@))),
{
    let mut folders: Vec<String> = Vec::new();
    let ghost dv = sviews(folder_paths@);
    let mut i: usize = 0;
    while i < folder_paths.len()
        invariant
            i <= folder_paths.len(),
            dv == sviews(folder_paths@),
            strictly_sorted(sviews(folders@)),
            forall|f: Seq<char>| sviews(folders@).contains(f) <==> exists|k: int| 0 <= k < i && !is_internal(#[trigger] dv[k]) && trim_end_char(dv[k], '/') == f,
        decreases folder_paths.len() - i,
    {
        let p = chars_of(folder_paths[i].as_str());
        assert(dv[i as int] == p@);
        if !is_internal_exec(&p) {
            let t = trim_end_char_chars(&p, '/');
            set_insert(&mut folders, string_of(&t));
        }
        proof {
            assert forall|f: Seq<char>| sviews(folders@).contains(f) <==> exists|k: int| 0 <= k < i + 1 && !is_internal(#[trigger] dv[k]) && trim_end_char(dv[k], '/') == f by {
                if exists|k: int| 0 <= k < i + 1 && !is_internal(#[trigger] dv[k]) && trim_end_char(dv[k], '/') == f {
                    let k = choose|k: int| 0 <= k < i + 1 && !is_internal(#[trigger] dv[k]) && trim_end_char(dv[k], '/') == f;
                    if k < i {
                        assert(exists|k2: int| 0 <= k2 < i && !is_internal(#[trigger] dv[k2]) && trim_end_char(dv[k2], '/') == f);
                    }
                }
            }
        }
        i += 1;
    }
    let mut notes_set: Vec<String> = Vec::new();
    let ghost nv = sviews(note_file_paths@);
    let mut j: usize = 0;
    while j < note_file_paths.len()
        invariant
            j <= note_file_paths.len(),
            nv == sviews(note_file_paths@),
            strictly_sorted(sviews(notes_set@)),
            forall|f: Seq<char>| sviews(notes_set@).contains(f) <==> exists|k: int| 0 <= k < j && is_kept_note(#[trigger] nv[k]) && nv[k] == f,
        decreases note_file_paths.len() - j,
    {
        let p = chars_of(note_file_paths[j].as_str());
        assert(nv[j as int] == p@);
        if !starts_with_str(&p, ".xnote/") && is_markdown_file_exec(&p) {
            set_insert(&mut notes_set, note_file_paths[j].clone());
        }
        proof {
            assert forall|f: Seq<char>| sviews(notes_set@).contains(f) <==> exists|k: int| 0 <= k < j + 1 && is_kept_note(#[trigger] nv[k]) && nv[k] == f by {
                if exists|k: int| 0 <= k < j + 1 && is_kept_note(#[trigger] nv[k]) && nv[k] == f {
                    let k = choose|k: int| 0 <= k < j + 1 && is_kept_note(#[trigger] nv[k]) && nv[k] == f;
                    if k < j {
                        assert(exists|k2: int| 0 <= k2 < j && is_kept_note(#[trigger] nv[k2]) && nv[k2] == f);
                    }
                }
            }
        }
        j += 1;
    }
    let mut notes: Vec<NoteEntry> = Vec::new();
    let mut k: usize = 0;
    while k < notes_set.len()
        invariant
            k <= notes_set.len(),
            note_paths(notes@) == sviews(notes_set@).take(k as int),
        decreases notes_set.len() - k,
    {
        let ghost before = notes@;
        notes.push(NoteEntry { path: notes_set[k].clone() });
        assert(note_paths(notes@) =~= note_paths(before).push(notes_set@[k as int]@));
        assert(sviews(notes_set@).take(k + 1) =~= sviews(notes_set@).take(k as int).push(notes_set@[k as int]@));
        k += 1;
    }
    proof {
        assert(sviews(notes_set@).take(notes_set.len() as int) =~= sviews(notes_set@));
        lemma_sorted_is_sorted_list(folders@);
        lemma_sorted_is_sorted_list(notes_set@);
        assert(set_of(folders@) =~= kept_folders(dv));
        assert(set_of(notes_set@) =~= kept_notes(nv));
    }
    VaultScan { notes, folders }
}

// ---------------------------------------------------------------------------
// Folder order files
// ---------------------------------------------------------------------------
/// The note path that one line of an order file lists: `- [[path:<path>]]`, the path
/// normalized; `None` for other lines and invalid paths.
pub open spec fn order_line_path(line: Seq<char>) -> Option<Seq<char>> {
    let t = trim(line);
    if !has_prefix(t, "- [["@) {
        None
    } else {
        let inner = t.skip(4);
        if !has_suffix(inner, "]]"@) {
            None
        } else {
            let inner = trim(inner.take(inner.len() - 2));
            if !has_prefix(inner, "path:"@) {
                None
            } else {
                match spec_normalize_vault_rel_path(inner.skip(5)) {
                    Ok(p) => Some(p),
                    Err(_) => None,
                }
            }
        }
    }
}

/// The paths that the lines list, in order.
pub open spec fn order_paths(ls: Seq<Seq<char>>) -> Seq<Seq<char>>
    decreases ls.len(),
{
    if ls.len() == 0 {
        Seq::empty()
    } else {
        match order_line_path(ls.last()) {
            Some(p) => order_paths(ls.drop_last()).push(p),
            None => order_paths(ls.drop_last()),
        }
    }
}

fn order_line_path_exec(line: &[char]) -> (r: Option<String>)
    ensures
        match order_line_path(line@) {
            Some(p) => r matches Some(s) && s@ == p,
            None => r is None,
        },
{
    proof {
        reveal_strlit("- [[");
        reveal_strlit("]]");
        reveal_strlit("path:");
    }
    let t = trim_chars(line);
    if !starts_with_str(&t, "- [[") {
        return None;
    }
    let inner = slice_of(&t, 4, t.len());
    assert(inner@ =~= t@.skip(4));
    if !ends_with_str(&inner, "]]") {
        return None;
    }
    let inner2 = slice_of(&inner, 0, inner.len() - 2);
    assert(inner2@ =~= inner@.take(inner@.len() - 2));
    let inner3 = trim_chars(&inner2);
    if !starts_with_str(&inner3, "path:") {
        return None;
    }
    let p = slice_of(&inner3, 5, inner3.len());
    assert(p@ =~= inner3@.skip(5));
    let ps = string_of(&p);
    match normalize_vault_rel_path(ps.as_str()) {
        Ok(n) => Some(n),
        Err(_) => None,
    }
}

/// The note paths that an order file lists, in order.
pub fn parse_order_md(content: &str) -> (r: Vec<String>)
    ensures
        sviews(r@) == order_paths(lines_of(content@)),
{
    let chars = chars_of(content);
    let ls = lines(&chars);
    let ghost lv = views(ls@);
    let mut out: Vec<String> = Vec::new();
    let mut i: usize = 0;
    assert(lv.take(0) =~= Seq::<Seq<char>>::empty());
    assert(sviews(out@) =~= Seq::<Seq<char>>::empty());
    while i < ls.len()
        invariant
            i <= ls.len(),
            lv == views(ls@),
            sviews(out@) == order_paths(lv.take(i as int)),
        decreases ls.len() - i,
    {
        proof {
            assert(lv.take(i + 1).drop_last() =~= lv.take(i as int));
            assert(lv.take(i + 1).last() == ls@[i as int]@);
        }
        match order_line_path_exec(&ls[i]) {
            Some(p) => {
                let ghost before = out@;
                out.push(p);
                assert(sviews(out@) =~= sviews(before).push(out@.last()@));
            },
            None => {},
        }
        i += 1;
    }
    assert(lv.take(ls.len() as int) =~= lv);
    out
}

/// The order file of a folder: a heading naming the folder (trimmed, with one trailing
/// `/`), then one `- [[path:<path>]]` line per path.
pub open spec fn order_file_text(folder: Seq<char>, paths: Seq<Seq<char>>) -> Seq<char>
    decreases paths.len(),
{
    if paths.len() == 0 {
        "# Order for "@ + trim_end_char(trim(folder), '/') + "/\n"@
    } else {
        order_file_text(folder, paths.drop_last()) + "- [[path:"@ + paths.last() + "]]\n"@
    }
}

pub fn format_order_md(folder: &str, ordered_paths: &[String]) -> (r: String)
    ensures
        r@ == order_file_text(folder@, sviews(ordered_paths@)),
{
    let f = trimmed(folder);
    let f = trim_end_char_chars(&f, '/');
    let mut s = chars_of("# Order for ");
    push_all(&mut s, &f);
    push_str(&mut s, "/\n");
    let ghost pv = sviews(ordered_paths@);
    let mut i: usize = 0;
    assert(pv.take(0) =~= Seq::<Seq<char>>::empty());
    while i < ordered_paths.len()
        invariant
            i <= ordered_paths.len(),
            pv == sviews(ordered_paths@),
            s@ == order_file_text(folder@, pv.take(i as int)),
        decreases ordered_paths.len() - i,
    {
        proof {
            assert(pv.take(i + 1).drop_last() =~= pv.take(i as int));
            assert(pv.take(i + 1).last() == ordered_paths@[i as int]@);
        }
        push_str(&mut s, "- [[path:");
        push_str(&mut s, ordered_paths[i].as_str());
        push_str(&mut s, "]]\n");
        i += 1;
    }
    assert(pv.take(ordered_paths.len() as int) =~= pv);
    string_of(&s)
}


// ---------------------------------------------------------------------------
// Order files read back
// ---------------------------------------------------------------------------
/// The line an order file lists `p` on.
pub open spec fn order_line(p: Seq<char>) -> Seq<char> {
    "- [[path:"@ + p + "]]"@
}

/// The heading line of a folder's order file.
pub open spec fn order_heading(folder: Seq<char>) -> Seq<char> {
    "# Order for "@ + trim_end_char(trim(folder), '/') + "/"@
}





proof fn lemma_line_path(p: Seq<char>)
    requires
        spec_normalize_vault_rel_path(p) == Ok::<Seq<char>, PathError>(p),
        trim(p) == p,
    ensures
        order_line_path(order_line(p)) == Some(p),
{
    reveal_strlit("- [[path:");
    reveal_strlit("]]");
    reveal_strlit("- [[");
    reveal_strlit("path:");
    let l = order_line(p);
    assert(l[0] == '-');
    assert(l.last() == ']');
    lemma_trim_fixed(l);
    assert(has_prefix(l, "- [["@)) by {
        assert(l.subrange(0, 4) =~= "- [["@);
    }
    let inner = l.skip(4);
    assert(inner =~= "path:"@ + p + "]]"@);
    assert(has_suffix(inner, "]]"@)) by {
        assert(inner.subrange(inner.len() - 2, inner.len() as int) =~= "]]"@);
    }
    let body = inner.take(inner.len() - 2);
    assert(body =~= "path:"@ + p);
    assert(p.len() > 0);
    lemma_trimmed_ends(p);
    assert(body[0] == 'p');
    assert(body.last() == p.last());
    lemma_trim_fixed(body);
    assert(has_prefix(body, "path:"@)) by {
        assert(body.subrange(0, 5) =~= "path:"@);
    }
    assert(body.skip(5) =~= p);
}




/// The heading of an order file has no line break when the folder name has none.
proof fn lemma_heading_one_line(folder: Seq<char>)
    requires
        !folder.contains('\n'),
    ensures
        !order_heading(folder).contains('\n'),
        order_heading(folder).len() > 0,
        order_heading(folder)[0] == '#',
        order_heading(folder).last() == '/',
{
    reveal_strlit("# Order for ");
    reveal_strlit("/");
    let d = lemma_trim_start_is_skip(folder);
    let ts = trim_start(folder);
    let e = lemma_trim_end_is_take(ts);
    let t = trim(folder);
    let e2 = lemma_trim_end_char_take(t, '/');
    let f = trim_end_char(t, '/');
    let h = order_heading(folder);
    assert(h =~= "# Order for "@ + f + "/"@);
    if h.contains('\n') {
        let k = choose|k: int| 0 <= k < h.len() && h[k] == '\n';
        assert(12 <= k < 12 + f.len());
        assert(f[k - 12] == t[k - 12]);
        assert(t[k - 12] == ts[k - 12]);
        assert(ts[k - 12] == folder[d + k - 12]);
        assert(folder.contains('\n'));
    }
}

proof fn lemma_order_text_ends(folder: Seq<char>, paths: Seq<Seq<char>>)
    ensures
        order_file_text(folder, paths).len() > 0,
        order_file_text(folder, paths).last() == '\n',
    decreases paths.len(),
{
    reveal_strlit("/\n");
    reveal_strlit("]]\n");
}

/// The pieces of an order file's text: the heading, each path's line, and the empty piece
/// after the last line break.
proof fn lemma_order_split(folder: Seq<char>, paths: Seq<Seq<char>>)
    requires
        !folder.contains('\n'),
        forall|i: int| 0 <= i < paths.len() ==> !(#[trigger] paths[i]).contains('\n'),
    ensures
        split_on(order_file_text(folder, paths), '\n') == seq![order_heading(folder)] + paths.map_values(
            |p: Seq<char>| order_line(p),
        ) + seq![Seq::<char>::empty()],
    decreases paths.len(),
{
    reveal_strlit("/\n");
    reveal_strlit("/");
    reveal_strlit("]]\n");
    reveal_strlit("]]");
    lemma_heading_one_line(folder);
    let h = order_heading(folder);
    if paths.len() == 0 {
        assert(order_file_text(folder, paths) =~= h.push('\n'));
        lemma_split_line(h, '\n');
        assert(paths.map_values(|p: Seq<char>| order_line(p)) =~= Seq::<Seq<char>>::empty());
        assert(seq![h] + Seq::<Seq<char>>::empty() + seq![Seq::<char>::empty()] =~= seq![h, Seq::<char>::empty()]);
    } else {
        let rest = paths.drop_last();
        let prev = order_file_text(folder, rest);
        let p = paths.last();
        let l = order_line(p);
        assert forall|i: int| 0 <= i < rest.len() implies !(#[trigger] rest[i]).contains('\n') by {
            assert(rest[i] == paths[i]);
        }
        lemma_order_split(folder, rest);
        assert(order_file_text(folder, paths) =~= prev + l.push('\n'));
        lemma_order_text_ends(folder, rest);
        lemma_split_concat(prev, l.push('\n'), '\n');
        assert(!l.contains('\n')) by {
            assert(!paths[paths.len() - 1].contains('\n'));
            if l.contains('\n') {
                let k = choose|k: int| 0 <= k < l.len() && l[k] == '\n';
                reveal_strlit("- [[path:");
                assert(9 <= k < 9 + p.len());
                assert(p[k - 9] == '\n');
                assert(p.contains('\n'));
            }
        }
        lemma_split_line(l, '\n');
        let lines = rest.map_values(|q: Seq<char>| order_line(q));
        let before = seq![h] + lines;
        assert((before + seq![Seq::<char>::empty()]).drop_last() =~= before);
        assert(paths.map_values(|q: Seq<char>| order_line(q)) =~= lines.push(l));
        assert(before + seq![l, Seq::<char>::empty()] =~= seq![h] + lines.push(l) + seq![Seq::<char>::empty()]);
    }
}

proof fn lemma_order_paths_lines(folder: Seq<char>, paths: Seq<Seq<char>>)
    requires
        !folder.contains('\n'),
        forall|i: int|
            0 <= i < paths.len() ==> spec_normalize_vault_rel_path(#[trigger] paths[i]) == Ok::<Seq<char>, PathError>(paths[i])
                && trim(paths[i]) == paths[i],
    ensures
        order_paths(seq![order_heading(folder)] + paths.map_values(|p: Seq<char>| order_line(p))) == paths,
    decreases paths.len(),
{
    reveal_strlit("- [[");
    reveal_strlit("# Order for ");
    let h = order_heading(folder);
    lemma_heading_one_line(folder);
    if paths.len() == 0 {
        lemma_trim_fixed(h);
        assert(h.len() >= 4);
        assert(!has_prefix(h, "- [["@)) by {
            assert(h.subrange(0, 4)[0] == '#');
            assert("- [["@[0] == '-');
        }
        assert(order_line_path(h) is None);
        let ls = seq![h] + paths.map_values(|p: Seq<char>| order_line(p));
        assert(ls =~= seq![h]);
        assert(ls.last() == h);
        assert(ls.drop_last() =~= Seq::<Seq<char>>::empty());
        assert(order_paths(Seq::<Seq<char>>::empty()) =~= Seq::<Seq<char>>::empty());
        assert(order_line_path(ls.last()) is None);
        assert(order_paths(ls) == order_paths(ls.drop_last()));
        assert(order_paths(ls) =~= paths);
    } else {
        let rest = paths.drop_last();
        assert forall|i: int| 0 <= i < rest.len() implies spec_normalize_vault_rel_path(#[trigger] rest[i]) == Ok::<
            Seq<char>,
            PathError,
        >(rest[i]) && trim(rest[i]) == rest[i] by {
            assert(rest[i] == paths[i]);
        }
        lemma_order_paths_lines(folder, rest);
        let p = paths.last();
        assert(spec_normalize_vault_rel_path(paths[paths.len() - 1]) == Ok::<Seq<char>, PathError>(paths[paths.len() - 1]));
        lemma_line_path(p);
        let ls = seq![h] + paths.map_values(|q: Seq<char>| order_line(q));
        assert(ls.drop_last() =~= seq![h] + rest.map_values(|q: Seq<char>| order_line(q)));
        assert(ls.last() == order_line(p));
        assert(rest.push(p) =~= paths);
    }
}

/// Reading an order file back gives the paths it was written with, when the paths are
/// already in normal form (trimmed, without line breaks) and the folder name has no line
/// break.
pub proof fn law_order_file_roundtrip(folder: Seq<char>, paths: Seq<Seq<char>>)
    requires
        !folder.contains('\n'),
        forall|i: int|
            0 <= i < paths.len() ==> spec_normalize_vault_rel_path(#[trigger] paths[i]) == Ok::<Seq<char>, PathError>(paths[i])
                && trim(paths[i]) == paths[i] && !paths[i].contains('\n'),
    ensures
        order_paths(lines_of(order_file_text(folder, paths))) == paths,
{
    reveal_strlit("]]");
    lemma_order_split(folder, paths);
    lemma_heading_one_line(folder);
    let h = order_heading(folder);
    let body = seq![h] + paths.map_values(|p: Seq<char>| order_line(p));
    let parts = split_on(order_file_text(folder, paths), '\n');
    assert(parts.drop_last() =~= body);
    assert(parts.last() =~= Seq::<char>::empty());
    assert forall|k: int| 0 <= k < body.len() implies strip_cr(#[trigger] body[k]) == body[k] by {
        if k > 0 {
            assert(body[k] == order_line(paths[k - 1]));
            assert(body[k].last() == ']');
        }
    }
    assert(lines_of(order_file_text(folder, paths)) =~= body);
    lemma_order_paths_lines(folder, paths);
}

} // verus!
