//! Note identifiers and the `id:` line of a note's YAML front matter.
use vstd::prelude::*;
use crate::text::{chars_of, string_of, push_str, push_all, trim, trim_chars, trimmed, slice_of, find_char, lines_of, lines, views, lower_seq, lower_ascii, eq_str, trim_start_char, trim_end_char, trim_start_char_chars, trim_end_char_chars, contains_seq, contains, decimal, decimal_chars, is_ws, split_on, strip_cr, first_index, lemma_first_index, lemma_trim_fixed, lemma_split_concat, lemma_split_line, lemma_split_no_char, trim_start, trim_end};

verus! {

/// The version of the note metadata format written here.
pub const NOTE_META_VERSION_V1: u32 = 1;

/// Pinned items of a note.
#[derive(Clone, Debug, PartialEq, Eq)]
pub struct NoteMetaPins {
    pub resources: Vec<String>,
    pub infos: Vec<String>,
    pub notes: Vec<String>,
}

impl Default for NoteMetaPins {
    fn default() -> (p: NoteMetaPins)
        ensures
            p.resources@.len() == 0 && p.infos@.len() == 0 && p.notes@.len() == 0,
    {
        NoteMetaPins { resources: Vec::new(), infos: Vec::new(), notes: Vec::new() }
    }
}

pub open spec fn is_id_char(c: char) -> bool {
    ('a' <= c && c <= 'z') || ('A' <= c && c <= 'Z') || ('0' <= c && c <= '9') || c == '-' || c == '_'
}

/// A note id: the input without surrounding whitespace, non-empty, made of ASCII letters,
/// digits, `-` and `_`.
pub open spec fn note_id_result(input: Seq<char>) -> Result<Seq<char>, Seq<char>> {
    let id = trim(input);
    if id.len() == 0 {
        Err("note id cannot be empty"@)
    } else if exists|i: int| 0 <= i < id.len() && !is_id_char(#[trigger] id[i]) {
        Err("note id must contain only [A-Za-z0-9_-], got: "@ + id)
    } else {
        Ok(id)
    }
}

fn note_id_chars(input: &[char]) -> (r: Result<Vec<char>, Vec<char>>)
    ensures
        match note_id_result(input@) {
            Ok(id) => r matches Ok(v) && v@ == id,
            Err(m) => r matches Err(v) && v@ == m,
        },
{
    let id = trim_chars(input);
    if id.len() == 0 {
        return Err(chars_of("note id cannot be empty"));
    }
    let mut i: usize = 0;
    while i < id.len()
        invariant
            i <= id.len(),
            id@ == trim(input@),
            id@.len() > 0,
            forall|k: int| 0 <= k < i ==> is_id_char(#[trigger] id@[k]),
        decreases id.len() - i,
    {
        let c = id[i];
        if !(('a' <= c && c <= 'z') || ('A' <= c && c <= 'Z') || ('0' <= c && c <= '9') || c == '-' || c == '_') {
            let mut m = chars_of("note id must contain only [A-Za-z0-9_-], got: ");
            push_all(&mut m, &id);
            assert(!is_id_char(id@[i as int]));
            assert(exists|j: int| 0 <= j < id@.len() && !is_id_char(#[trigger] id@[j]));
            return Err(m);
        }
        i += 1;
    }
    Ok(id)
}

pub fn normalize_note_id(note_id: &str) -> (r: Result<String, String>)
    ensures
        match note_id_result(note_id@) {
            Ok(id) => r matches Ok(s) && s@ == id,
            Err(m) => r matches Err(e) && e@ == m,
        },
{
    let v = chars_of(note_id);
    match note_id_chars(&v) {
        Ok(id) => Ok(string_of(&id)),
        Err(m) => Err(string_of(&m)),
    }
}

/// The kinds of target a relation may point at.
pub open spec fn is_target_kind(k: Seq<char>) -> bool {
    k == "knowledge"@ || k == "resource"@ || k == "info"@
}

/// Why note metadata with this version, id and relations (type, target kind, target id)
/// is invalid, if it is.
pub open spec fn relations_error(rel: Seq<(Seq<char>, Seq<char>, Seq<char>)>) -> Option<Seq<char>>
    decreases rel.len(),
{
    if rel.len() == 0 {
        None
    } else if trim(rel[0].0).len() == 0 {
        Some("note meta relation type is empty"@)
    } else if !is_target_kind(trim(rel[0].1)) {
        Some("unsupported note meta target kind: "@ + trim(rel[0].1))
    } else if trim(rel[0].2).len() == 0 {
        Some("note meta relation target id is empty"@)
    } else {
        relations_error(rel.drop_first())
    }
}

pub open spec fn meta_error(version: u32, id: Seq<char>, rel: Seq<(Seq<char>, Seq<char>, Seq<char>)>) -> Option<Seq<char>> {
    if version != NOTE_META_VERSION_V1 {
        Some("unsupported note meta version: "@ + decimal(version as nat))
    } else {
        match note_id_result(id) {
            Err(m) => Some(m),
            Ok(_) => relations_error(rel),
        }
    }
}

pub open spec fn relation_views(v: Seq<(String, String, String)>) -> Seq<(Seq<char>, Seq<char>, Seq<char>)> {
    v.map_values(|r: (String, String, String)| (r.0@, r.1@, r.2@))
}

/// Checks note metadata: its version, its id, and each relation's type, target kind and
/// target id (given as triples).
pub fn validate_note_meta(version: u32, id: &str, relations: &Vec<(String, String, String)>) -> (r: Result<(), String>)
    ensures
        match meta_error(version, id@, relation_views(relations@)) {
            Some(m) => r matches Err(e) && e@ == m,
            None => r is Ok,
        },
{
    if version != NOTE_META_VERSION_V1 {
        let mut m = chars_of("unsupported note meta version: ");
        let d = decimal_chars(version as u128);
        push_all(&mut m, &d);
        return Err(string_of(&m));
    }
    match normalize_note_id(id) {
        Err(e) => {
            return Err(e);
        },
        Ok(_) => {},
    }
    let ghost rv = relation_views(relations@);
    let mut i: usize = 0;
    assert(rv.skip(0) =~= rv);
    while i < relations.len()
        invariant
            i <= relations.len(),
            rv == relation_views(relations@),
            meta_error(version, id@, rv) == relations_error(rv.skip(i as int)),
        decreases relations.len() - i,
    {
        proof {
            assert(rv.skip(i as int)[0] == rv[i as int]);
            assert(rv.skip(i as int).drop_first() =~= rv.skip(i + 1));
        }
        let (ty, kind, target) = (&relations[i].0, &relations[i].1, &relations[i].2);
        let t = trimmed(ty.as_str());
        if t.len() == 0 {
            return Err(string_of(&chars_of("note meta relation type is empty")));
        }
        let k = trimmed(kind.as_str());
        if !(eq_str(&k, "knowledge") || eq_str(&k, "resource") || eq_str(&k, "info")) {
            let mut m = chars_of("unsupported note meta target kind: ");
            push_all(&mut m, &k);
            return Err(string_of(&m));
        }
        let g = trimmed(target.as_str());
        if g.len() == 0 {
            return Err(string_of(&chars_of("note meta relation target id is empty")));
        }
        i += 1;
    }
    Ok(())
}

// ---------------------------------------------------------------------------
// Front matter
// ---------------------------------------------------------------------------
/// The index of the first `'\n'` at or after `from`, or the length.
pub open spec fn next_newline(s: Seq<char>, from: int) -> int
    decreases s.len() - from,
{
    if from >= s.len() {
        s.len() as int
    } else if s[from] == '\n' {
        from
    } else {
        next_newline(s, from + 1)
    }
}

/// A line that closes (or opens) front matter: `---`, trailing `\r` aside.
pub open spec fn is_fence_line(line: Seq<char>) -> bool {
    trim_end_char(line, '\r') == "---"@
}

/// Where the front matter closes, scanning the lines that start at `cursor`.
pub open spec fn closing_from(s: Seq<char>, cursor: int) -> Option<int>
    decreases s.len() - cursor,
{
    if cursor < 0 || cursor > s.len() {
        None
    } else {
        let le = next_newline(s, cursor);
        if is_fence_line(s.subrange(cursor, le)) {
            Some(cursor)
        } else if le >= s.len() || le < cursor {
            None
        } else {
            closing_from(s, le + 1)
        }
    }
}

/// The front matter of `s`: it opens with a first line `---` and closes at a later line
/// `---`; the result is (start of its body, start of the closing line), character indices.
pub open spec fn frontmatter(s: Seq<char>) -> Option<(int, int)> {
    let fle = next_newline(s, 0);
    if fle >= s.len() || !is_fence_line(s.take(fle)) {
        None
    } else {
        match closing_from(s, fle + 1) {
            Some(c) => Some((fle + 1, c)),
            None => None,
        }
    }
}

proof fn lemma_next_newline(s: Seq<char>, from: int, i: int)
    requires
        0 <= from <= i <= s.len(),
        forall|j: int| from <= j < i ==> s[j] != '\n',
        i == s.len() || s[i] == '\n',
    ensures
        next_newline(s, from) == i,
    decreases i - from,
{
    if from < i {
        lemma_next_newline(s, from + 1, i);
    }
}

fn next_newline_exec(s: &[char], from: usize) -> (r: usize)
    requires
        from <= s.len(),
    ensures
        r == next_newline(s@, from as int),
        from <= r <= s.len(),
{
    match find_char(s, '\n', from) {
        Some(i) => {
            proof {
                lemma_next_newline(s@, from as int, i as int);
            }
            i
        },
        None => {
            proof {
                lemma_next_newline(s@, from as int, s.len() as int);
            }
            s.len()
        },
    }
}

fn is_fence_line_exec(line: &[char]) -> (b: bool)
    ensures
        b == is_fence_line(line@),
{
    let t = trim_end_char_chars(line, '\r');
    eq_str(&t, "---")
}

fn frontmatter_bounds(s: &[char]) -> (r: Option<(usize, usize)>)
    ensures
        match frontmatter(s@) {
            Some((a, b)) => r matches Some(p) && p.0 == a && p.1 == b,
            None => r is None,
        },
        r matches Some(p) ==> p.0 <= p.1 <= s.len(),
{
    let fle = next_newline_exec(s, 0);
    if fle >= s.len() {
        return None;
    }
    let first = slice_of(s, 0, fle);
    assert(first@ =~= s@.take(fle as int));
    if !is_fence_line_exec(&first) {
        return None;
    }
    let body_start = fle + 1;
    let mut cursor = body_start;
    loop
        invariant
            body_start <= cursor <= s.len(),
            body_start == fle + 1,
            frontmatter(s@) == match closing_from(s@, cursor as int) {
                Some(c) => Some((body_start as int, c)),
                None => None::<(int, int)>,
            },
        decreases s.len() - cursor,
    {
        let le = next_newline_exec(s, cursor);
        let line = slice_of(s, cursor, le);
        if is_fence_line_exec(&line) {
            return Some((body_start, cursor));
        }
        if le >= s.len() {
            return None;
        }
        cursor = le + 1;
    }
}

/// The value of a front matter line `id: value` (key in any case, the value unquoted),
/// where it is a valid note id.
pub open spec fn id_of_line(line: Seq<char>) -> Option<Seq<char>> {
    let t = trim(line);
    if exists|i: int| 0 <= i < t.len() && t[i] == ':' {
        let c = crate::text::first_index(t, ':');
        let key = trim(t.take(c));
        let value = t.skip(c + 1);
        let unquoted = trim(trim_end_char(trim_start_char(trim_end_char(trim_start_char(trim(value), '"'), '"'), '\''), '\''));
        if lower_seq(key) == "id"@ {
            match note_id_result(unquoted) {
                Ok(id) => Some(id),
                Err(_) => None,
            }
        } else {
            None
        }
    } else {
        None
    }
}

/// The first front matter line that gives a valid id.
pub open spec fn first_id(ls: Seq<Seq<char>>) -> Option<Seq<char>>
    decreases ls.len(),
{
    if ls.len() == 0 {
        None
    } else {
        match id_of_line(ls[0]) {
            Some(id) => Some(id),
            None => first_id(ls.drop_first()),
        }
    }
}

/// The note id that the front matter of `s` gives, if any.
pub open spec fn frontmatter_id(s: Seq<char>) -> Option<Seq<char>> {
    match frontmatter(s) {
        Some((a, b)) => first_id(lines_of(s.subrange(a, b))),
        None => None,
    }
}

fn id_of_line_exec(line: &[char]) -> (r: Option<Vec<char>>)
    ensures
        match id_of_line(line@) {
            Some(id) => r matches Some(v) && v@ == id,
            None => r is None,
        },
{
    let t = trim_chars(line);
    match find_char(&t, ':', 0) {
        None => {
            assert(!exists|i: int| 0 <= i < t@.len() && t@[i] == ':');
            None
        },
        Some(c) => {
            proof {
                assert(t@[c as int] == ':');
                assert(crate::text::has_char(t@, ':'));
                crate::text::lemma_first_index(t@, ':', c as int);
            }
            let key0 = slice_of(&t, 0, c);
            let key = trim_chars(&key0);
            let value = slice_of(&t, c + 1, t.len());
            assert(key0@ =~= t@.take(c as int));
            assert(value@ =~= t@.skip(c + 1));
            let v1 = trim_chars(&value);
            let v2 = trim_start_char_chars(&v1, '"');
            let v3 = trim_end_char_chars(&v2, '"');
            let v4 = trim_start_char_chars(&v3, '\'');
            let v5 = trim_end_char_chars(&v4, '\'');
            let v6 = trim_chars(&v5);
            let lk = lower_ascii(&key);
            if !eq_str(&lk, "id") {
                return None;
            }
            match note_id_chars(&v6) {
                Ok(id) => Some(id),
                Err(_) => None,
            }
        },
    }
}

fn extract_id_chars(s: &[char]) -> (r: Option<Vec<char>>)
    ensures
        match frontmatter_id(s@) {
            Some(id) => r matches Some(v) && v@ == id,
            None => r is None,
        },
{
    let (a, b) = match frontmatter_bounds(s) {
        Some(p) => p,
        None => {
            return None;
        },
    };
    let body = slice_of(s, a, b);
    let ls = lines(&body);
    let ghost lv = views(ls@);
    let mut i: usize = 0;
    assert(lv.skip(0) =~= lv);
    while i < ls.len()
        invariant
            i <= ls.len(),
            lv == views(ls@),
            lv == lines_of(body@),
            body@ == s@.subrange(a as int, b as int),
            frontmatter(s@) == Some((a as int, b as int)),
            first_id(lv) == first_id(lv.skip(i as int)),
        decreases ls.len() - i,
    {
        proof {
            assert(lv.skip(i as int)[0] == ls@[i as int]@);
            assert(lv.skip(i as int).drop_first() =~= lv.skip(i + 1));
        }
        match id_of_line_exec(&ls[i]) {
            Some(id) => {
                return Some(id);
            },
            None => {},
        }
        i += 1;
    }
    None
}

/// The note id that the front matter of `content` gives, if any.
pub fn extract_note_id_from_frontmatter(content: &str) -> (r: Option<String>)
    ensures
        match frontmatter_id(content@) {
            Some(id) => r matches Some(v) && v@ == id,
            None => r is None,
        },
{
    let s = chars_of(content);
    match extract_id_chars(&s) {
        Some(v) => Some(string_of(&v)),
        None => None,
    }
}

/// The line ending a document uses: `\r\n` if it has one anywhere, else `\n`.
pub open spec fn line_ending(s: Seq<char>) -> Seq<char> {
    if contains_seq(s, seq!['\r', '\n']) {
        seq!['\r', '\n']
    } else {
        seq!['\n']
    }
}

/// The content with a note id in its front matter: unchanged with the id it already
/// gives; else with `id: <candidate>` added as the last front matter line, or with a new
/// front matter holding it. Fails on an invalid candidate.
pub open spec fn ensured_id(content: Seq<char>, candidate: Seq<char>) -> Result<(Seq<char>, Seq<char>, bool), Seq<char>> {
    match frontmatter_id(content) {
        Some(id) => Ok((content, id, false)),
        None => match note_id_result(candidate) {
            Err(m) => Err(m),
            Ok(id) => {
                let nl = line_ending(content);
                let line = "id: "@ + id + nl;
                match frontmatter(content) {
                    Some((_a, b)) => Ok((content.take(b) + line + content.skip(b), id, true)),
                    None => Ok(("---"@ + nl + line + "---"@ + nl + content, id, true)),
                }
            },
        },
    }
}

pub fn ensure_frontmatter_note_id(content: &str, candidate_id: &str) -> (r: Result<(String, String, bool), String>)
    ensures
        match ensured_id(content@, candidate_id@) {
            Ok((c, id, changed)) => r matches Ok(t) && t.0@ == c && t.1@ == id && t.2 == changed,
            Err(m) => r matches Err(e) && e@ == m,
        },
{
    let s = chars_of(content);
    match extract_id_chars(&s) {
        Some(id) => {
            return Ok((string_of(&s), string_of(&id), false));
        },
        None => {},
    }
    let cand = chars_of(candidate_id);
    let id = match note_id_chars(&cand) {
        Ok(id) => id,
        Err(m) => {
            return Err(string_of(&m));
        },
    };
    let crlf: Vec<char> = vec!['\r', '\n'];
    let nl: Vec<char> = if contains(&s, &crlf) {
        vec!['\r', '\n']
    } else {
        vec!['\n']
    };
    let mut line = chars_of("id: ");
    push_all(&mut line, &id);
    push_all(&mut line, &nl);
    match frontmatter_bounds(&s) {
        Some((_a, b)) => {
            let mut out = slice_of(&s, 0, b);
            push_all(&mut out, &line);
            let rest = slice_of(&s, b, s.len());
            push_all(&mut out, &rest);
            assert(out@ =~= s@.take(b as int) + line@ + s@.skip(b as int));
            Ok((string_of(&out), string_of(&id), true))
        },
        None => {
            let mut out = chars_of("---");
            push_all(&mut out, &nl);
            push_all(&mut out, &line);
            push_str(&mut out, "---");
            push_all(&mut out, &nl);
            push_all(&mut out, &s);
            Ok((string_of(&out), string_of(&id), true))
        },
    }
}


// ---------------------------------------------------------------------------
// Reading back the id that was written
// ---------------------------------------------------------------------------
/// A valid note id: non-empty, trimmed, of id characters.
proof fn lemma_valid_id(candidate: Seq<char>, id: Seq<char>)
    requires
        note_id_result(candidate) == Ok::<Seq<char>, Seq<char>>(id),
    ensures
        id.len() > 0,
        forall|i: int| 0 <= i < id.len() ==> is_id_char(#[trigger] id[i]),
{
}

proof fn lemma_id_chars_not_ws(id: Seq<char>, i: int)
    requires
        0 <= i < id.len(),
        is_id_char(id[i]),
    ensures
        !is_ws(id[i]),
        id[i] != '"',
        id[i] != '\'',
        id[i] != ':',
        id[i] != '\n',
        id[i] != '\r',
{
}

proof fn lemma_trim_id(id: Seq<char>)
    requires
        id.len() > 0,
        forall|i: int| 0 <= i < id.len() ==> is_id_char(#[trigger] id[i]),
    ensures
        trim(id) == id,
        trim_start_char(id, '"') == id,
        trim_end_char(id, '"') == id,
        trim_start_char(id, '\'') == id,
        trim_end_char(id, '\'') == id,
        note_id_result(id) == Ok::<Seq<char>, Seq<char>>(id),
{
    lemma_id_chars_not_ws(id, 0);
    lemma_id_chars_not_ws(id, id.len() - 1);
    lemma_trim_fixed(id);
    assert(!(exists|i: int| 0 <= i < id.len() && !is_id_char(#[trigger] id[i])));
}

/// The front matter line `id: <id>` gives the id.
proof fn lemma_id_line(id: Seq<char>)
    requires
        id.len() > 0,
        forall|i: int| 0 <= i < id.len() ==> is_id_char(#[trigger] id[i]),
    ensures
        id_of_line("id: "@ + id) == Some(id),
{
    reveal_strlit("id: ");
    reveal_strlit("id");
    let l = "id: "@ + id;
    lemma_trim_id(id);
    lemma_id_chars_not_ws(id, id.len() - 1);
    assert(l[0] == 'i');
    assert(l.last() == id.last());
    lemma_trim_fixed(l);
    let t = trim(l);
    assert(t[2] == ':');
    assert(exists|i: int| 0 <= i < t.len() && t[i] == ':');
    lemma_first_index(t, ':', 2);
    assert(t.take(2) =~= "id"@);
    assert(!is_ws('i') && !is_ws('d'));
    lemma_trim_fixed("id"@);
    assert(lower_seq("id"@) =~= "id"@);
    let value = t.skip(3);
    assert(value =~= seq![' '] + id);
    assert(trim_start(value) == trim_start(id)) by {
        assert(value.drop_first() =~= id);
    }
    assert(trim_start(id) == id);
    assert(trim(value) == trim_end(id));
    assert(trim_end(id) == id);
}

/// The line scan of a text that agrees with another up to `b`, where the other's scan
/// from `cursor` closes at `b`.
proof fn lemma_closing_from_le(s: Seq<char>, cursor: int, x: int)
    requires
        closing_from(s, cursor) == Some(x),
    ensures
        0 <= cursor <= x <= s.len(),
    decreases s.len() - cursor,
{
    if 0 <= cursor <= s.len() {
        let le = next_newline(s, cursor);
        lemma_next_newline_range(s, cursor);
        if !is_fence_line(s.subrange(cursor, le)) {
            lemma_closing_from_le(s, le + 1, x);
        }
    }
}

proof fn lemma_next_newline_range(s: Seq<char>, from: int)
    requires
        0 <= from <= s.len(),
    ensures
        from <= next_newline(s, from) <= s.len(),
        next_newline(s, from) < s.len() ==> s[next_newline(s, from)] == '\n',
        forall|j: int| from <= j < next_newline(s, from) ==> s[j] != '\n',
    decreases s.len() - from,
{
    if from < s.len() && s[from] != '\n' {
        lemma_next_newline_range(s, from + 1);
    }
}

/// A scan that closes at `x` after a line break closes on a line start: `x` follows a
/// line break.
proof fn lemma_closing_after_break(s: Seq<char>, cursor: int, x: int)
    requires
        closing_from(s, cursor) == Some(x),
        1 <= cursor,
        s[cursor - 1] == '\n',
    ensures
        1 <= x,
        s[x - 1] == '\n',
    decreases s.len() - cursor,
{
    lemma_closing_from_le(s, cursor, x);
    let le = next_newline(s, cursor);
    lemma_next_newline_range(s, cursor);
    if !is_fence_line(s.subrange(cursor, le)) {
        lemma_closing_after_break(s, le + 1, x);
    }
}

/// Inserting `line` (which ends in a line break and is no fence) at the closing line
/// start `b` moves the close past it.
proof fn lemma_closing_shift(s: Seq<char>, line: Seq<char>, b: int, cursor: int)
    requires
        closing_from(s, cursor) == Some(b),
        1 <= cursor,
        s[cursor - 1] == '\n',
        line.len() > 0,
        line.last() == '\n',
        forall|j: int| 0 <= j < line.len() - 1 ==> line[j] != '\n',
        !is_fence_line(line.drop_last()),
    ensures
        closing_from(s.take(b) + line + s.skip(b), cursor) == Some(b + line.len()),
    decreases b - cursor,
{
    lemma_closing_from_le(s, cursor, b);
    let c = s.take(b) + line + s.skip(b);
    let n = line.len() as int;
    assert(c.len() == s.len() + n);
    let le = next_newline(s, cursor);
    lemma_next_newline_range(s, cursor);
    if cursor == b {
        // The inserted line comes first, then the closing line, shifted.
        assert(next_newline(c, b) == b + n - 1) by {
            assert forall|j: int| b <= j < b + n - 1 implies c[j] != '\n' by {
                assert(c[j] == line[j - b]);
            }
            assert(c[b + n - 1] == line[n - 1]);
            lemma_next_newline(c, b, b + n - 1);
        }
        assert(c.subrange(b, b + n - 1) =~= line.drop_last());
        let le2 = next_newline(s, b);
        if !is_fence_line(s.subrange(b, le2)) {
            lemma_closing_from_le(s, le2 + 1, b);
        }
        assert(is_fence_line(s.subrange(b, le2)));
        lemma_next_newline_range(s, b);
        assert(next_newline(c, b + n) == le2 + n) by {
            assert forall|j: int| b + n <= j < le2 + n implies c[j] != '\n' by {
                assert(c[j] == s[j - n]);
            }
            if le2 < s.len() {
                assert(c[le2 + n] == s[le2]);
            }
            lemma_next_newline(c, b + n, le2 + n);
        }
        assert(c.subrange(b + n, le2 + n) =~= s.subrange(b, le2));
        assert(closing_from(c, b + n) == Some(b + n));
    } else {
        assert(!is_fence_line(s.subrange(cursor, le)));
        assert(le < s.len());
        assert(closing_from(s, le + 1) == Some(b));
        lemma_closing_from_le(s, le + 1, b);
        assert(next_newline(c, cursor) == le) by {
            assert forall|j: int| cursor <= j < le implies c[j] != '\n' by {
                assert(c[j] == s[j]);
            }
            assert(c[le] == s[le]);
            lemma_next_newline(c, cursor, le);
        }
        assert(c.subrange(cursor, le) =~= s.subrange(cursor, le));
        assert(s[le] == '\n');
        lemma_closing_shift(s, line, b, le + 1);
    }
}

proof fn lemma_first_id_push(a: Seq<Seq<char>>, x: Seq<char>)
    requires
        first_id(a) is None,
    ensures
        first_id(a.push(x)) == id_of_line(x),
    decreases a.len(),
{
    if a.len() == 0 {
        assert(a.push(x).drop_first() =~= Seq::<Seq<char>>::empty());
        assert(a.push(x)[0] == x);
        assert(first_id(Seq::<Seq<char>>::empty()) is None);
    } else {
        assert(a.push(x)[0] == a[0]);
        assert(id_of_line(a[0]) is None);
        assert(a.push(x).drop_first() =~= a.drop_first().push(x));
        lemma_first_id_push(a.drop_first(), x);
    }
}

/// The lines of a body that ends in a line break (or is empty), followed by one more line.
proof fn lemma_lines_push(body: Seq<char>, l: Seq<char>, nl: Seq<char>)
    requires
        body.len() == 0 || body.last() == '\n',
        !l.contains('\n'),
        !l.contains('\r'),
        nl == seq!['\n'] || nl == seq!['\r', '\n'],
    ensures
        lines_of(body + l + nl) == lines_of(body).push(l),
{
    let piece = l + nl.drop_last();
    assert(l + nl =~= piece.push('\n'));
    assert(!piece.contains('\n')) by {
        if piece.contains('\n') {
            let k = choose|k: int| 0 <= k < piece.len() && piece[k] == '\n';
            if k < l.len() {
                assert(l[k] == '\n');
            }
        }
    }
    lemma_split_line(piece, '\n');
    assert(strip_cr(piece) == l) by {
        if nl == seq!['\r', '\n'] {
            assert(piece =~= l.push('\r'));
        } else {
            assert(piece =~= l);
            if l.len() > 0 && l.last() == '\r' {
                assert(l.contains('\r'));
            }
        }
    }
    if body.len() == 0 {
        assert(body + l + nl =~= piece.push('\n'));
        assert(lines_of(body) == Seq::<Seq<char>>::empty()) by {
            lemma_split_no_char(body, '\n');
        }
        assert(lines_of(piece.push('\n')) =~= seq![strip_cr(piece)]);
    } else {
        lemma_split_concat(body, piece.push('\n'), '\n');
        assert(body + l + nl =~= body + piece.push('\n'));
        lemma_split_concat(body, Seq::<char>::empty(), '\n');
        lemma_split_no_char(Seq::<char>::empty(), '\n');
        assert(body + Seq::<char>::empty() =~= body);
        let sb = split_on(body, '\n');
        assert(sb == sb.drop_last() + seq![Seq::<char>::empty()]);
        assert(sb.last() == Seq::<char>::empty());
        let all = sb.drop_last() + seq![piece, Seq::<char>::empty()];
        assert(all.drop_last() =~= sb.drop_last().push(piece));
        assert(all.drop_last().map_values(|p: Seq<char>| strip_cr(p)) =~= sb.drop_last().map_values(
            |p: Seq<char>| strip_cr(p),
        ).push(strip_cr(piece)));
    }
}


/// A line that starts with `i` is no fence.
proof fn lemma_not_fence(x: Seq<char>)
    requires
        x.len() > 0,
        x[0] == 'i',
    ensures
        !is_fence_line(x),
{
    reveal_strlit("---");
    let e = crate::text::lemma_trim_end_char_take(x, '\r');
    if is_fence_line(x) {
        assert(x.take(e) == "---"@);
        assert(x.take(e)[0] == x[0]);
    }
}

/// `---` ended by a line break is a fence line.
proof fn lemma_fence(nl: Seq<char>)
    requires
        nl == seq!['\n'] || nl == seq!['\r', '\n'],
    ensures
        is_fence_line(("---"@ + nl).drop_last()),
{
    reveal_strlit("---");
    let x = ("---"@ + nl).drop_last();
    assert(trim_end_char("---"@, '\r') == "---"@);
    if nl == seq!['\n'] {
        assert(x =~= "---"@);
    } else {
        assert(x =~= "---"@.push('\r'));
        assert(x.drop_last() =~= "---"@);
    }
}

/// The shape of the line `id: <id>` ended by `nl`.
proof fn lemma_id_line_shape(id: Seq<char>, nl: Seq<char>)
    requires
        id.len() > 0,
        forall|i: int| 0 <= i < id.len() ==> is_id_char(#[trigger] id[i]),
        nl == seq!['\n'] || nl == seq!['\r', '\n'],
    ensures
        !("id: "@ + id).contains('\n'),
        !("id: "@ + id).contains('\r'),
        ("id: "@ + id + nl).len() > 0,
        ("id: "@ + id + nl).last() == '\n',
        forall|j: int| 0 <= j < ("id: "@ + id + nl).len() - 1 ==> ("id: "@ + id + nl)[j] != '\n',
        !is_fence_line(("id: "@ + id + nl).drop_last()),
{
    reveal_strlit("id: ");
    let l = "id: "@ + id;
    let line = l + nl;
    assert forall|j: int| 0 <= j < l.len() implies l[j] != '\n' && l[j] != '\r' by {
        if j >= 4 {
            assert(l[j] == id[j - 4]);
            lemma_id_chars_not_ws(id, j - 4);
        }
    }
    if l.contains('\n') {
        let k = choose|k: int| 0 <= k < l.len() && l[k] == '\n';
        assert(l[k] != '\n');
    }
    if l.contains('\r') {
        let k = choose|k: int| 0 <= k < l.len() && l[k] == '\r';
        assert(l[k] != '\r');
    }
    assert forall|j: int| 0 <= j < line.len() - 1 implies line[j] != '\n' by {
        if j < l.len() {
            assert(line[j] == l[j]);
        } else {
            assert(line[j] == nl[j - l.len()]);
        }
    }
    assert(line.drop_last()[0] == 'i');
    lemma_not_fence(line.drop_last());
}

/// A new front matter holding only `id: <id>`, put before the content, gives that id.
proof fn lemma_new_frontmatter(content: Seq<char>, id: Seq<char>, nl: Seq<char>)
    requires
        id.len() > 0,
        forall|i: int| 0 <= i < id.len() ==> is_id_char(#[trigger] id[i]),
        nl == seq!['\n'] || nl == seq!['\r', '\n'],
    ensures
        frontmatter_id("---"@ + nl + ("id: "@ + id + nl) + "---"@ + nl + content) == Some(id),
{
    reveal_strlit("---");
    let f = "---"@ + nl;
    let l = "id: "@ + id;
    let line = l + nl;
    let c = f + line + "---"@ + nl + content;
    assert(c =~= f + line + (f + content));
    let a = f.len() as int;
    let n = line.len() as int;
    let b = a + n;
    lemma_id_line_shape(id, nl);
    lemma_fence(nl);
    assert forall|j: int| 0 <= j < a - 1 implies c[j] != '\n' by {
        assert(c[j] == f[j]);
    }
    assert(c[a - 1] == f[a - 1]);
    lemma_next_newline(c, 0, a - 1);
    assert(c.take(a - 1) =~= f.drop_last());
    assert forall|j: int| a <= j < b - 1 implies c[j] != '\n' by {
        assert(c[j] == line[j - a]);
    }
    assert(c[b - 1] == line[n - 1]);
    lemma_next_newline(c, a, b - 1);
    assert(c.subrange(a, b - 1) =~= line.drop_last());
    assert forall|j: int| b <= j < b + a - 1 implies c[j] != '\n' by {
        assert(c[j] == f[j - b]);
    }
    assert(c[b + a - 1] == f[a - 1]);
    lemma_next_newline(c, b, b + a - 1);
    assert(c.subrange(b, b + a - 1) =~= f.drop_last());
    assert(closing_from(c, b) == Some(b));
    assert(closing_from(c, a) == Some(b));
    assert(frontmatter(c) == Some((a, b)));
    assert(c.subrange(a, b) =~= Seq::<char>::empty() + l + nl);
    lemma_lines_push(Seq::<char>::empty(), l, nl);
    assert(lines_of(Seq::<char>::empty()) =~= Seq::<Seq<char>>::empty()) by {
        lemma_split_no_char(Seq::<char>::empty(), '\n');
    }
    lemma_first_id_push(Seq::<Seq<char>>::empty(), l);
    lemma_id_line(id);
}

/// Inserting `id: <id>` as the last line of a front matter that gives no id makes it
/// give that id.
proof fn lemma_inserted_line(content: Seq<char>, id: Seq<char>, nl: Seq<char>, a: int, b: int)
    requires
        frontmatter(content) == Some((a, b)),
        first_id(lines_of(content.subrange(a, b))) is None,
        id.len() > 0,
        forall|i: int| 0 <= i < id.len() ==> is_id_char(#[trigger] id[i]),
        nl == seq!['\n'] || nl == seq!['\r', '\n'],
    ensures
        frontmatter_id(content.take(b) + ("id: "@ + id + nl) + content.skip(b)) == Some(id),
{
    let l = "id: "@ + id;
    let line = l + nl;
    let n = line.len() as int;
    let c = content.take(b) + line + content.skip(b);
    let fle = next_newline(content, 0);
    lemma_next_newline_range(content, 0);
    assert(a == fle + 1);
    lemma_closing_from_le(content, fle + 1, b);
    lemma_id_line_shape(id, nl);
    assert forall|j: int| 0 <= j < fle implies c[j] != '\n' by {
        assert(c[j] == content[j]);
    }
    assert(c[fle] == content[fle]);
    lemma_next_newline(c, 0, fle);
    assert(c.take(fle) =~= content.take(fle));
    lemma_closing_shift(content, line, b, fle + 1);
    assert(frontmatter(c) == Some((a, b + n)));
    let body = content.subrange(a, b);
    lemma_closing_after_break(content, fle + 1, b);
    if b > a {
        assert(body.last() == content[b - 1]);
    }
    assert(c.subrange(a, b + n) =~= body + l + nl);
    lemma_lines_push(body, l, nl);
    lemma_first_id_push(lines_of(body), l);
    lemma_id_line(id);
}

/// The content that `ensure_frontmatter_note_id` hands back reads back: its front matter
/// gives the id reported, and a second call leaves it unchanged.
pub proof fn law_note_id_reads_back(content: Seq<char>, candidate: Seq<char>, again: Seq<char>)
    ensures
        ensured_id(content, candidate) matches Ok((c, id, _)) ==> {
            &&& frontmatter_id(c) == Some(id)
            &&& ensured_id(c, again) == Ok::<(Seq<char>, Seq<char>, bool), Seq<char>>((c, id, false))
        },
{
    if frontmatter_id(content) is None {
        if let Ok(id) = note_id_result(candidate) {
            lemma_valid_id(candidate, id);
            let nl = line_ending(content);
            match frontmatter(content) {
                Some((a, b)) => {
                    lemma_inserted_line(content, id, nl, a, b);
                },
                None => {
                    lemma_new_frontmatter(content, id, nl);
                },
            }
        }
    }
}

} // verus!
