//! Vault-relative path normalization: every accepted path is a non-empty `/`-separated
//! sequence of segments, none of them empty, `.` or `..`.
use crate::text::{
    has_char, first_index, lemma_first_index, trim_start, trim_end,
    replace_char, replace_char_seq, slice_of, split_char, split_on, string_of, trim, trim_end_char,
    trim_end_char_chars, trim_start_char, trim_start_char_chars, trimmed, views,
};
use vstd::prelude::*;

verus! {

/// Why a path was refused.
#[derive(Clone, Copy, Debug, PartialEq, Eq)]
pub enum PathError {
    /// A note path normalized to nothing.
    PathRequired,
    /// A folder path normalized to nothing.
    FolderPathRequired,
    /// A segment is empty, `.` or `..`.
    InvalidPath,
    /// The OS path is not valid UTF-8.
    NotUtf8,
}

impl PathError {
    pub open spec fn spec_message(self) -> Seq<char> {
        match self {
            PathError::PathRequired => "path is required"@,
            PathError::FolderPathRequired => "folder path is required"@,
            PathError::InvalidPath => "invalid path"@,
            PathError::NotUtf8 => "path is not valid UTF-8"@,
        }
    }

    pub fn message(&self) -> (s: String)
        ensures
            s@ == self.spec_message(),
    {
        match self {
            PathError::PathRequired => String::from_str("path is required"),
            PathError::FolderPathRequired => String::from_str("folder path is required"),
            PathError::InvalidPath => String::from_str("invalid path"),
            PathError::NotUtf8 => String::from_str("path is not valid UTF-8"),
        }
    }
}

/// Repeatedly removes a leading `./`.
pub open spec fn strip_dot_slash(s: Seq<char>) -> Seq<char>
    decreases s.len(),
{
    if s.len() >= 2 && s[0] == '.' && s[1] == '/' {
        strip_dot_slash(s.skip(2))
    } else {
        s
    }
}

/// A segment that a relative path may hold.
pub open spec fn valid_segment(p: Seq<char>) -> bool {
    p.len() > 0 && p != seq!['.'] && p != seq!['.', '.']
}

/// No segment is empty, `.` or `..`.
pub open spec fn valid_rel_path(s: Seq<char>) -> bool {
    forall|i: int| 0 <= i < split_on(s, '/').len() ==> valid_segment(#[trigger] split_on(s, '/')[i])
}

/// The candidate that note-path normalization checks.
pub open spec fn note_path_candidate(s: Seq<char>) -> Seq<char> {
    strip_dot_slash(trim_start_char(replace_char_seq(trim(s), '\\', '/'), '/'))
}

/// The candidate that folder-path normalization checks.
pub open spec fn folder_path_candidate(s: Seq<char>) -> Seq<char> {
    trim_end_char(note_path_candidate(s), '/')
}

pub open spec fn spec_normalize_vault_rel_path(s: Seq<char>) -> Result<Seq<char>, PathError> {
    let t = note_path_candidate(s);
    if t.len() == 0 {
        Err(PathError::PathRequired)
    } else if !valid_rel_path(t) {
        Err(PathError::InvalidPath)
    } else {
        Ok(t)
    }
}

proof fn lemma_trim_start_char_keeps(s: Seq<char>, c: char, x: char)
    requires
        trim_start_char(s, c).contains(x),
    ensures
        s.contains(x),
    decreases s.len(),
{
    if s.len() > 0 && s[0] == c {
        lemma_trim_start_char_keeps(s.drop_first(), c, x);
        let k = choose|k: int| 0 <= k < s.drop_first().len() && s.drop_first()[k] == x;
        assert(s[k + 1] == x);
    }
}

proof fn lemma_strip_keeps(s: Seq<char>, x: char)
    requires
        strip_dot_slash(s).contains(x),
    ensures
        s.contains(x),
    decreases s.len(),
{
    if s.len() >= 2 && s[0] == '.' && s[1] == '/' {
        lemma_strip_keeps(s.skip(2), x);
        let k = choose|k: int| 0 <= k < s.skip(2).len() && s.skip(2)[k] == x;
        assert(s[k + 2] == x);
    }
}

proof fn lemma_strip_done(s: Seq<char>)
    ensures
        strip_dot_slash(strip_dot_slash(s)) == strip_dot_slash(s),
    decreases s.len(),
{
    if s.len() >= 2 && s[0] == '.' && s[1] == '/' {
        lemma_strip_done(s.skip(2));
    }
}

/// Normalizing a normalized note path gives it back, when it has no whitespace at either
/// end (such whitespace, exposed by dropping a leading `./`, is trimmed the second time).
pub proof fn law_normalized_path_is_fixed(s: Seq<char>, t: Seq<char>)
    requires
        spec_normalize_vault_rel_path(s) == Ok::<Seq<char>, PathError>(t),
        trim(t) == t,
    ensures
        spec_normalize_vault_rel_path(t) == Ok::<Seq<char>, PathError>(t),
{
    let r = replace_char_seq(trim(s), '\\', '/');
    let u = trim_start_char(r, '/');
    assert(t == strip_dot_slash(u));
    assert forall|x: char| t.contains(x) implies x != '\\' by {
        lemma_strip_keeps(u, x);
        lemma_trim_start_char_keeps(r, '/', x);
        let k = choose|k: int| 0 <= k < r.len() && r[k] == x;
        assert(r[k] == if trim(s)[k] == '\\' { '/' } else { trim(s)[k] });
    }
    assert(replace_char_seq(t, '\\', '/') =~= t) by {
        assert forall|k: int| 0 <= k < t.len() implies t[k] != '\\' by {
            assert(t.contains(t[k]));
        }
    }
    assert(t.len() > 0);
    assert(t[0] != '/') by {
        if t[0] == '/' {
            assert(has_char(t, '/'));
            lemma_first_index(t, '/', 0);
            assert(split_on(t, '/') == seq![t.take(0)] + split_on(t.skip(1), '/')) by {
                reveal(split_on);
            }
            assert((seq![t.take(0)] + split_on(t.skip(1), '/'))[0] == t.take(0));
            assert(split_on(t, '/').len() > 0);
            assert(!valid_segment(split_on(t, '/')[0]));
        }
    }
    assert(trim_start_char(t, '/') == t);
    lemma_strip_done(u);
    assert(strip_dot_slash(t) == t);
    assert(note_path_candidate(t) == t);
}

pub open spec fn spec_normalize_folder_rel_path(s: Seq<char>) -> Result<Seq<char>, PathError> {
    let t = folder_path_candidate(s);
    if t.len() == 0 {
        Err(PathError::FolderPathRequired)
    } else if !valid_rel_path(t) {
        Err(PathError::InvalidPath)
    } else {
        Ok(t)
    }
}

pub open spec fn result_view(r: Result<String, PathError>) -> Result<Seq<char>, PathError> {
    match r {
        Ok(s) => Ok(s@),
        Err(e) => Err(e),
    }
}

fn strip_leading_dot_slash(s: Vec<char>) -> (r: Vec<char>)
    ensures
        r@ == strip_dot_slash(s@),
{
    let mut i: usize = 0;
    assert(s@.skip(0) == s@);
    while s.len() >= 2 && i <= s.len() - 2 && s[i] == '.' && s[i + 1] == '/'
        invariant
            i <= s.len(),
            strip_dot_slash(s@.skip(i as int)) == strip_dot_slash(s@),
        decreases s.len() - i,
    {
        assert(s@.skip(i as int).skip(2) == s@.skip(i + 2));
        i += 2;
    }
    assert(s@.skip(i as int) == s@.subrange(i as int, s.len() as int));
    slice_of(&s, i, s.len())
}

/// Checks every segment; `Err(InvalidPath)` on the first bad one.
fn validate_rel_path(posix: &[char]) -> (r: Result<(), PathError>)
    ensures
        r is Ok <==> valid_rel_path(posix@),
        r matches Err(e) ==> e == PathError::InvalidPath,
{
    let parts = split_char(posix, '/');
    let mut i: usize = 0;
    while i < parts.len()
        invariant
            i <= parts.len(),
            views(parts@) == split_on(posix@, '/'),
            forall|k: int| 0 <= k < i ==> valid_segment(#[trigger] split_on(posix@, '/')[k]),
        decreases parts.len() - i,
    {
        let p = &parts[i];
        assert(p@ == split_on(posix@, '/')[i as int]);
        let dot = p.len() == 1 && p[0] == '.';
        let dotdot = p.len() == 2 && p[0] == '.' && p[1] == '.';
        if p.len() == 0 || dot || dotdot {
            proof {
                if dot {
                    assert(p@ == seq!['.']);
                }
                if dotdot {
                    assert(p@ == seq!['.', '.']);
                }
            }
            return Err(PathError::InvalidPath);
        }
        proof {
            if p@ == seq!['.'] {
                assert(p@[0] == '.');
            }
            if p@ == seq!['.', '.'] {
                assert(p@[0] == '.' && p@[1] == '.');
            }
        }
        i += 1;
    }
    Ok(())
}

fn note_candidate(input: &str) -> (r: Vec<char>)
    ensures
        r@ == note_path_candidate(input@),
{
    let t = trimmed(input);
    let t = replace_char(&t, '\\', '/');
    let t = trim_start_char_chars(&t, '/');
    strip_leading_dot_slash(t)
}

/// Normalizes a vault-relative note path: trims, turns `\` into `/`, drops leading `/` and
/// `./`, and refuses an empty result or one with an empty, `.` or `..` segment.
pub fn normalize_vault_rel_path(input: &str) -> (r: Result<String, PathError>)
    ensures
        result_view(r) == spec_normalize_vault_rel_path(input@),
{
    let t = note_candidate(input);
    if t.len() == 0 {
        return Err(PathError::PathRequired);
    }
    match validate_rel_path(&t) {
        Ok(()) => Ok(string_of(&t)),
        Err(e) => Err(e),
    }
}

/// As `normalize_vault_rel_path`, and also drops trailing `/`.
pub fn normalize_folder_rel_path(input: &str) -> (r: Result<String, PathError>)
    ensures
        result_view(r) == spec_normalize_folder_rel_path(input@),
{
    let t = note_candidate(input);
    let t = trim_end_char_chars(&t, '/');
    if t.len() == 0 {
        return Err(PathError::FolderPathRequired);
    }
    match validate_rel_path(&t) {
        Ok(()) => Ok(string_of(&t)),
        Err(e) => Err(e),
    }
}


/// The POSIX form of an OS path's text: `\` becomes `/`; a path without UTF-8 text (`None`)
/// is refused.
pub fn posix_text(os_text: Option<&str>) -> (r: Result<String, PathError>)
    ensures
        match os_text {
            Some(t) => r matches Ok(s) && s@ == replace_char_seq(t@, '\\', '/'),
            None => r == Err::<String, PathError>(PathError::NotUtf8),
        },
{
    match os_text {
        Some(t) => {
            let v = replace_char(&crate::text::chars_of(t), '\\', '/');
            Ok(string_of(&v))
        },
        None => Err(PathError::NotUtf8),
    }
}

/// The segments of a relative path, in order, once every segment is checked: `Err` when one
/// is empty, `.` or `..` (what joining the path under a root walks through).
pub fn rel_segments(rel_posix: &str) -> (r: Result<Vec<String>, PathError>)
    ensures
        valid_rel_path(rel_posix@) ==> (r matches Ok(v) && crate::sorted::sviews(v@) == split_on(rel_posix@, '/')),
        !valid_rel_path(rel_posix@) ==> r == Err::<Vec<String>, PathError>(PathError::InvalidPath),
{
    let chars = crate::text::chars_of(rel_posix);
    match validate_rel_path(&chars) {
        Err(e) => Err(e),
        Ok(()) => {
            let parts = split_char(&chars, '/');
            let mut out: Vec<String> = Vec::new();
            let mut i: usize = 0;
            while i < parts.len()
                invariant
                    i <= parts.len(),
                    crate::sorted::sviews(out@) == views(parts@).take(i as int),
                decreases parts.len() - i,
            {
                let ghost before = out@;
                out.push(string_of(&parts[i]));
                proof {
                    assert(crate::sorted::sviews(out@) =~= crate::sorted::sviews(before).push(parts@[i as int]@));
                    assert(views(parts@).take(i + 1) =~= views(parts@).take(i as int).push(parts@[i as int]@));
                }
                i += 1;
            }
            assert(views(parts@).take(parts.len() as int) =~= views(parts@));
            Ok(out)
        },
    }
}

} // verus!
