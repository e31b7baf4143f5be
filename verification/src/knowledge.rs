//! The knowledge index of a vault: note metadata (title, front matter, wiki links, tags),
//! tokens, fuzzy matching and ranking, link resolution, backlinks, search and quick open.
use vstd::prelude::*;
use crate::paths::{normalize_vault_rel_path, spec_normalize_vault_rel_path, PathError};
use crate::sorted::{key_views, key_index, lemma_map_of_at, lemma_map_of_has};
use crate::sorted::{strictly_sorted, sviews, set_of, set_insert, set_contains, sorted_list, lemma_sorted_is_sorted_list, keys_sorted, map_of, map_insert, string_eq, string_less, lex_lt, lemma_lex_total, lemma_lex_transitive, lemma_lex_irreflexive};
use crate::editor::byte_len;
use crate::host::{instant_now, millis_since};
use crate::text::{str_len_bytes, chars_of, string_of, push_str, push_all, trim, trim_chars, trimmed, slice_of, lines_of, lines, views, has_prefix, has_suffix, contains_seq, contains, starts_with, ends_with, starts_with_str, ends_with_str, eq_str, seq_eq, is_ws, is_whitespace, ascii_lower, to_lower_ascii_char, unicode_lower, unicode_alphanumeric, to_lowercase, is_alphanumeric, find_char, rfind_char, find_from, find_str_from, first_occurrence_from, occurs_at, has_char, first_index};

verus! {

// ---------------------------------------------------------------------------
// Tokens
// ---------------------------------------------------------------------------
/// A character that belongs to a token.
pub open spec fn word_char(c: char) -> bool {
    unicode_alphanumeric(c) || c == '_' || c == '-'
}

/// Tokens so far and the token being read.
pub open spec fn token_fold(s: Seq<char>) -> (Seq<Seq<char>>, Seq<char>)
    decreases s.len(),
{
    if s.len() == 0 {
        (Seq::empty(), Seq::empty())
    } else {
        let (out, cur) = token_fold(s.drop_last());
        let c = s.last();
        if word_char(c) {
            (out, cur.push(ascii_lower(c)))
        } else if cur.len() > 0 {
            (out.push(cur), Seq::empty())
        } else {
            (out, cur)
        }
    }
}

/// The maximal runs of token characters of `s`, ASCII lower-cased.
pub open spec fn tokens_of(s: Seq<char>) -> Seq<Seq<char>> {
    let (out, cur) = token_fold(s);
    if cur.len() > 0 {
        out.push(cur)
    } else {
        out
    }
}

fn is_word_char(c: char) -> (b: bool)
    ensures
        b == word_char(c),
{
    is_alphanumeric(c) || c == '_' || c == '-'
}

fn tokenize_chars(s: &[char]) -> (r: Vec<Vec<char>>)
    ensures
        views(r@) == tokens_of(s@),
{
    let mut out: Vec<Vec<char>> = Vec::new();
    let mut cur: Vec<char> = Vec::new();
    let mut i: usize = 0;
    assert(s@.take(0) =~= Seq::<char>::empty());
    assert(views(out@) =~= Seq::<Seq<char>>::empty());
    while i < s.len()
        invariant
            i <= s.len(),
            token_fold(s@.take(i as int)) == (views(out@), cur@),
        decreases s.len() - i,
    {
        proof {
            assert(s@.take(i + 1).drop_last() =~= s@.take(i as int));
            assert(s@.take(i + 1).last() == s@[i as int]);
        }
        let c = s[i];
        if is_word_char(c) {
            cur.push(to_lower_ascii_char(c));
        } else if cur.len() > 0 {
            let ghost before = views(out@);
            let done = cur;
            let ghost dv = done@;
            out.push(done);
            assert(views(out@) =~= before.push(dv));
            cur = Vec::new();
        }
        i += 1;
    }
    assert(s@.take(s.len() as int) =~= s@);
    if cur.len() > 0 {
        let ghost before = views(out@);
        let ghost cv = cur@;
        out.push(cur);
        assert(views(out@) =~= before.push(cv));
    }
    out
}

pub open spec fn string_views(v: Seq<String>) -> Seq<Seq<char>> {
    v.map_values(|s: String| s@)
}

fn strings_of(v: &Vec<Vec<char>>) -> (r: Vec<String>)
    ensures
        string_views(r@) == views(v@),
{
    let mut r: Vec<String> = Vec::new();
    let mut i: usize = 0;
    while i < v.len()
        invariant
            i <= v.len(),
            string_views(r@) == views(v@).take(i as int),
        decreases v.len() - i,
    {
        let ghost before = r@;
        r.push(string_of(&v[i]));
        assert(string_views(r@) =~= string_views(before).push(v@[i as int]@));
        assert(views(v@).take(i + 1) =~= views(v@).take(i as int).push(v@[i as int]@));
        i += 1;
    }
    assert(views(v@).take(v.len() as int) =~= views(v@));
    r
}

/// The tokens of `text`: runs of letters, digits, `_` and `-`, ASCII lower-cased.
pub fn tokenize(text: &str) -> (r: Vec<String>)
    ensures
        string_views(r@) == tokens_of(text@),
{
    let s = chars_of(text);
    let t = tokenize_chars(&s);
    strings_of(&t)
}

// ---------------------------------------------------------------------------
// Fuzzy matching
// ---------------------------------------------------------------------------
pub open spec fn sat(x: int) -> int {
    if x > usize::MAX {
        usize::MAX as int
    } else {
        x
    }
}

/// The first index at or after `from` where `c` occurs in `h`.
pub open spec fn index_from(h: Seq<char>, c: char, from: int) -> Option<int>
    decreases h.len() - from,
{
    if from < 0 || from >= h.len() {
        None
    } else if h[from] == c {
        Some(from)
    } else {
        index_from(h, c, from + 1)
    }
}

/// A match at `j` starts a word: at the start, or after a character that is not a letter
/// or digit.
pub open spec fn word_start(h: Seq<char>, j: int) -> bool {
    j == 0 || !unicode_alphanumeric(h[j - 1])
}

pub open spec fn gap_bonus(gap: int) -> int {
    if gap == 0 {
        16
    } else if gap <= 2 {
        9
    } else if gap <= 5 {
        4
    } else {
        1
    }
}

pub struct SubseqState {
    pub score: int,
    pub start: int,
    pub first: Option<int>,
    pub prev: Option<int>,
}

pub open spec fn subseq_step(st: SubseqState, h: Seq<char>, j: int) -> SubseqState {
    let s1 = if st.first is None { sat(st.score + 12) } else { st.score };
    let s2 = match st.prev {
        Some(p) => sat(s1 + gap_bonus(j - p - 1)),
        None => s1,
    };
    let s3 = if word_start(h, j) { sat(s2 + 7) } else { s2 };
    SubseqState {
        score: s3,
        start: j + 1,
        first: if st.first is None { Some(j) } else { st.first },
        prev: Some(j),
    }
}

/// Matches the query's characters one by one, each at its first occurrence after the
/// previous match.
pub open spec fn subseq_fold(h: Seq<char>, q: Seq<char>) -> Option<SubseqState>
    decreases q.len(),
{
    if q.len() == 0 {
        Some(SubseqState { score: 0, start: 0, first: None, prev: None })
    } else {
        match subseq_fold(h, q.drop_last()) {
            None => None,
            Some(st) => match index_from(h, q.last(), st.start) {
                None => None,
                Some(j) => Some(subseq_step(st, h, j)),
            },
        }
    }
}

/// How well `q` matches `h` as a subsequence (`None`: it does not): points for each match,
/// for matches close to the previous one and at word starts, for a tight span, and for
/// the query's length.
pub open spec fn subsequence(h: Seq<char>, q: Seq<char>) -> Option<int> {
    if q.len() == 0 {
        Some(0)
    } else {
        match subseq_fold(h, q) {
            None => None,
            Some(st) => {
                let first = match st.first {
                    Some(f) => f,
                    None => 0,
                };
                let span = st.start - first;
                let b: int = if span == q.len() {
                    20
                } else if span <= q.len() + 2 {
                    10
                } else {
                    2
                };
                let ql4: int = if q.len() * 4 > usize::MAX { usize::MAX as int } else { (q.len() * 4) as int };
                Some(sat(sat(st.score + b) + ql4))
            },
        }
    }
}

proof fn lemma_index_from(h: Seq<char>, c: char, from: int, i: int)
    requires
        0 <= from <= i <= h.len(),
        forall|j: int| from <= j < i ==> h[j] != c,
        i == h.len() || h[i] == c,
    ensures
        index_from(h, c, from) == (if i == h.len() { None } else { Some(i) }),
    decreases i - from,
{
    if from < i {
        lemma_index_from(h, c, from + 1, i);
    }
}

proof fn lemma_subseq_bounds(h: Seq<char>, q: Seq<char>)
    ensures
        subseq_fold(h, q) matches Some(st) ==> 0 <= st.score <= usize::MAX && 0 <= st.start <= h.len()
            && (q.len() > 0 ==> (st.first is Some && 0 <= st.first->Some_0 < st.start && st.prev is Some && st.prev->Some_0 + 1 == st.start))
            && (q.len() == 0 ==> st.first is None && st.prev is None && st.start == 0),
    decreases q.len(),
{
    if q.len() > 0 {
        lemma_subseq_bounds(h, q.drop_last());
        match subseq_fold(h, q.drop_last()) {
            None => {},
            Some(st) => {
                lemma_index_from_range(h, q.last(), st.start);
            },
        }
    }
}

proof fn lemma_index_from_range(h: Seq<char>, c: char, from: int)
    ensures
        index_from(h, c, from) matches Some(j) ==> from <= j < h.len() && h[j] == c,
    decreases h.len() - from,
{
    if 0 <= from < h.len() && h[from] != c {
        lemma_index_from_range(h, c, from + 1);
    }
}

fn sat_add(a: usize, b: usize) -> (r: usize)
    ensures
        r == sat(a + b),
{
    a.saturating_add(b)
}

/// The fuzzy subsequence score of `query` in `haystack` (see `subsequence`).
pub fn subsequence_score(haystack: &[char], query: &[char]) -> (r: Option<usize>)
    ensures
        match subsequence(haystack@, query@) {
            Some(v) => r == Some(v as usize) && 0 <= v <= usize::MAX,
            None => r is None,
        },
{
    if query.len() == 0 {
        return Some(0);
    }
    let mut score: usize = 0;
    let mut start: usize = 0;
    let mut first: Option<usize> = None;
    let mut prev: Option<usize> = None;
    let mut i: usize = 0;
    assert(query@.take(0) =~= Seq::<char>::empty());
    while i < query.len()
        invariant
            i <= query.len(),
            start <= haystack.len(),
            subseq_fold(haystack@, query@.take(i as int)) == Some(SubseqState {
                score: score as int,
                start: start as int,
                first: match first {
                    Some(f) => Some(f as int),
                    None => None,
                },
                prev: match prev {
                    Some(p) => Some(p as int),
                    None => None,
                },
            }),
        decreases query.len() - i,
    {
        proof {
            assert(query@.take(i + 1).drop_last() =~= query@.take(i as int));
            assert(query@.take(i + 1).last() == query@[i as int]);
            lemma_subseq_bounds(haystack@, query@.take(i as int));
        }
        let qc = query[i];
        let j = match find_char(haystack, qc, start) {
            Some(j) => {
                proof {
                    lemma_index_from(haystack@, qc, start as int, j as int);
                }
                j
            },
            None => {
                proof {
                    lemma_index_from(haystack@, qc, start as int, haystack.len() as int);
                    lemma_subseq_none(haystack@, query@, i + 1);
                }
                return None;
            },
        };
        if first.is_none() {
            first = Some(j);
            score = sat_add(score, 12);
        }
        match prev {
            Some(p) => {
                let gap = j - p - 1;
                let bonus: usize = if gap == 0 {
                    16
                } else if gap <= 2 {
                    9
                } else if gap <= 5 {
                    4
                } else {
                    1
                };
                score = sat_add(score, bonus);
            },
            None => {},
        }
        if j == 0 || !is_alphanumeric(haystack[j - 1]) {
            score = sat_add(score, 7);
        }
        prev = Some(j);
        start = j + 1;
        i += 1;
    }
    assert(query@.take(query.len() as int) =~= query@);
    proof {
        lemma_subseq_bounds(haystack@, query@);
    }
    let f = match first {
        Some(f) => f,
        None => 0,
    };
    let span = start - f;
    let qlen = query.len();
    let b: usize = if span == qlen {
        20
    } else if span <= qlen || span - qlen <= 2 {
        10
    } else {
        2
    };
    score = sat_add(score, b);
    let ql4: usize = if qlen <= usize::MAX / 4 {
        qlen * 4
    } else {
        usize::MAX
    };
    score = sat_add(score, ql4);
    Some(score)
}

proof fn lemma_subseq_none(h: Seq<char>, q: Seq<char>, j: int)
    requires
        0 < j <= q.len(),
        subseq_fold(h, q.take(j)) is None,
    ensures
        subseq_fold(h, q) is None,
    decreases q.len() - j,
{
    if j < q.len() {
        assert(q.take(j + 1).drop_last() =~= q.take(j));
        lemma_subseq_none(h, q, j + 1);
    } else {
        assert(q.take(j) =~= q);
    }
}

// ---------------------------------------------------------------------------
// Note metadata
// ---------------------------------------------------------------------------
/// What a note declares of itself: its title, front matter, wiki links and tags.
#[derive(Clone, Debug, PartialEq, Eq)]
pub struct NoteMetadata {
    pub title: String,
    /// Front matter entries, sorted by key, each key once.
    pub frontmatter: Vec<(String, String)>,
    pub links: Vec<String>,
    pub tags: Vec<String>,
}

/// The text of the first `# ` heading line with a non-blank title.
pub open spec fn title_of(ls: Seq<Seq<char>>) -> Option<Seq<char>>
    decreases ls.len(),
{
    if ls.len() == 0 {
        None
    } else {
        let t = trim(ls[0]);
        if has_prefix(t, "# "@) && trim(t.skip(2)).len() > 0 {
            Some(trim(t.skip(2)))
        } else {
            title_of(ls.drop_first())
        }
    }
}

/// `s` with `suf` removed from its end as often as it ends with it.
pub open spec fn trim_suffix_all(s: Seq<char>, suf: Seq<char>) -> Seq<char>
    decreases s.len(),
{
    if suf.len() > 0 && has_suffix(s, suf) {
        trim_suffix_all(s.take(s.len() - suf.len()), suf)
    } else {
        s
    }
}

/// What follows the last `/` of `p` (all of `p` without one).
pub open spec fn last_segment(p: Seq<char>) -> Seq<char> {
    if has_char(p, '/') {
        p.skip(crate::watch::last_slash(p) + 1)
    } else {
        p
    }
}

/// A note's name from its path: the last segment without `.md`.
pub open spec fn file_name_of(path: Seq<char>) -> Seq<char> {
    trim_suffix_all(last_segment(path), ".md"@)
}

fn trim_suffix_all_exec(s: &[char], suf: &str) -> (r: Vec<char>)
    ensures
        r@ == trim_suffix_all(s@, suf@),
{
    let sv = chars_of(suf);
    let mut end: usize = s.len();
    assert(s@.take(end as int) =~= s@);
    while sv.len() > 0 && end >= sv.len() && ends_with(&slice_of(s, 0, end), &sv)
        invariant
            end <= s.len(),
            sv@ == suf@,
            trim_suffix_all(s@, suf@) == trim_suffix_all(s@.take(end as int), suf@),
        decreases end,
    {
        assert(s@.take(end as int).take(end - sv.len()) =~= s@.take(end - sv.len()));
        end = end - sv.len();
    }
    let r = slice_of(s, 0, end);
    proof {
        assert(r@ =~= s@.take(end as int));
        if sv.len() > 0 && end < sv.len() {
            assert(!has_suffix(s@.take(end as int), suf@));
        }
    }
    r
}

fn last_segment_exec(p: &[char]) -> (r: Vec<char>)
    ensures
        r@ == last_segment(p@),
{
    match rfind_char(p, '/') {
        Some(i) => {
            proof {
                assert(has_char(p@, '/'));
                let c = crate::watch::last_slash(p@);
                assert(0 <= c < p@.len() && p@[c] == '/' && forall|j: int| c < j < p@.len() ==> p@[j] != '/');
                assert(c == i);
            }
            let r = slice_of(p, i + 1, p.len());
            assert(r@ =~= p@.skip(i + 1));
            r
        },
        None => {
            assert(!has_char(p@, '/'));
            slice_of(p, 0, p.len())
        },
    }
}

fn file_name_from_path(path: &[char]) -> (r: Vec<char>)
    ensures
        r@ == file_name_of(path@),
{
    let seg = last_segment_exec(path);
    trim_suffix_all_exec(&seg, ".md")
}

fn extract_title(ls: &Vec<Vec<char>>) -> (r: Option<Vec<char>>)
    ensures
        match title_of(views(ls@)) {
            Some(t) => r matches Some(v) && v@ == t,
            None => r is None,
        },
{
    let ghost lv = views(ls@);
    let mut i: usize = 0;
    assert(lv.skip(0) =~= lv);
    while i < ls.len()
        invariant
            i <= ls.len(),
            lv == views(ls@),
            title_of(lv) == title_of(lv.skip(i as int)),
        decreases ls.len() - i,
    {
        proof {
            assert(lv.skip(i as int)[0] == ls@[i as int]@);
            assert(lv.skip(i as int).drop_first() =~= lv.skip(i + 1));
            reveal_strlit("# ");
        }
        let t = trim_chars(&ls[i]);
        if starts_with_str(&t, "# ") {
            let rest = slice_of(&t, 2, t.len());
            assert(rest@ =~= t@.skip(2));
            let title = trim_chars(&rest);
            if title.len() > 0 {
                return Some(title);
            }
        }
        i += 1;
    }
    None
}

/// Front matter entries (`key: value` between a first line `---` and the next `---`),
/// later entries winning; the flag says the closing line was reached.
pub open spec fn fm_fold(ls: Seq<Seq<char>>) -> (Map<Seq<char>, Seq<char>>, bool)
    decreases ls.len(),
{
    if ls.len() == 0 {
        (Map::empty(), false)
    } else {
        let (m, done) = fm_fold(ls.drop_last());
        let t = trim(ls.last());
        if done {
            (m, done)
        } else if t == "---"@ {
            (m, true)
        } else if has_char(t, ':') {
            let c = first_index(t, ':');
            let key = trim(t.take(c));
            let value = trim(t.skip(c + 1));
            if key.len() > 0 {
                (m.insert(key, value), false)
            } else {
                (m, false)
            }
        } else {
            (m, false)
        }
    }
}

pub open spec fn frontmatter_map(ls: Seq<Seq<char>>) -> Map<Seq<char>, Seq<char>> {
    if ls.len() == 0 || trim(ls[0]) != "---"@ {
        Map::empty()
    } else {
        fm_fold(ls.drop_first()).0
    }
}

/// The key that a `key: value` line gives: the trimmed text before its first `:`.
pub open spec fn line_key(l: Seq<char>) -> Seq<char> {
    let t = trim(l);
    trim(t.take(first_index(t, ':')))
}

proof fn lemma_fm_fold_open(y: Seq<Seq<char>>)
    ensures
        !fm_fold(y).1 ==> forall|i: int| 0 <= i < y.len() ==> trim(#[trigger] y[i]) != "---"@,
        y.len() > 0 && trim(y.last()) == "---"@ ==> fm_fold(y).1,
    decreases y.len(),
{
    if y.len() > 0 {
        lemma_fm_fold_open(y.drop_last());
        if !fm_fold(y).1 {
            assert forall|i: int| 0 <= i < y.len() implies trim(#[trigger] y[i]) != "---"@ by {
                if i < y.len() - 1 {
                    assert(y[i] == y.drop_last()[i]);
                }
            }
        }
    }
}

proof fn lemma_fm_fold_sticky(x: Seq<Seq<char>>, z: Seq<Seq<char>>)
    requires
        fm_fold(x).1,
    ensures
        fm_fold(x + z) == fm_fold(x),
    decreases z.len(),
{
    if z.len() == 0 {
        assert(x + z =~= x);
    } else {
        lemma_fm_fold_sticky(x, z.drop_last());
        assert((x + z).drop_last() =~= x + z.drop_last());
    }
}

proof fn lemma_fm_fold_keys(y: Seq<Seq<char>>)
    ensures
        forall|k: Seq<char>|
            #[trigger] fm_fold(y).0.contains_key(k) ==> exists|j: int|
                #![trigger y[j]]
                0 <= j < y.len() && has_char(trim(y[j]), ':') && line_key(y[j]) == k && k.len() > 0 && fm_fold(y).0[k]
                    == line_value(y[j]) && forall|i: int| 0 <= i <= j ==> trim(#[trigger] y[i]) != "---"@,
    decreases y.len(),
{
    if y.len() > 0 {
        let p = y.drop_last();
        lemma_fm_fold_keys(p);
        lemma_fm_fold_open(p);
        let last = y.len() - 1;
        assert(y[last] == y.last());
        assert forall|k: Seq<char>| #[trigger] fm_fold(y).0.contains_key(k) implies exists|j: int|
            #![trigger y[j]]
            0 <= j < y.len() && has_char(trim(y[j]), ':') && line_key(y[j]) == k && k.len() > 0 && fm_fold(y).0[k]
                == line_value(y[j]) && forall|i: int| 0 <= i <= j ==> trim(#[trigger] y[i]) != "---"@ by {
            if !fm_fold(p).1 && trim(y[last]) != "---"@ && has_char(trim(y[last]), ':') && line_key(y[last]).len() > 0
                && line_key(y[last]) == k {
                assert forall|i: int| 0 <= i <= last implies trim(#[trigger] y[i]) != "---"@ by {
                    if i < last {
                        assert(y[i] == p[i]);
                    }
                }
            } else {
                assert(fm_fold(p).0.contains_key(k));
                assert(fm_fold(y).0[k] == fm_fold(p).0[k]);
                let j = choose|j: int|
                    #![trigger p[j]]
                    0 <= j < p.len() && has_char(trim(p[j]), ':') && line_key(p[j]) == k && k.len() > 0 && fm_fold(p).0[k]
                        == line_value(p[j]) && forall|i: int| 0 <= i <= j ==> trim(#[trigger] p[i]) != "---"@;
                assert(y[j] == p[j]);
                assert forall|i: int| 0 <= i <= j implies trim(#[trigger] y[i]) != "---"@ by {
                    assert(y[i] == p[i]);
                }
            }
        }
    }
}

/// Front matter ends at its closing `---` line: what follows that line adds no key and
/// changes no value, and every key is non-empty and comes, with its value, from a
/// `key: value` line between the opening `---` and the first closing one.
pub proof fn law_frontmatter_ends_at_closing_line(head: Seq<Seq<char>>, rest: Seq<Seq<char>>)
    requires
        head.len() >= 2,
        trim(head[0]) == "---"@,
        trim(head.last()) == "---"@,
    ensures
        frontmatter_map(head + rest) == frontmatter_map(head),
        forall|k: Seq<char>|
            #[trigger] frontmatter_map(head + rest).contains_key(k) ==> exists|j: int|
                #![trigger head[j]]
                1 <= j < head.len() - 1 && has_char(trim(head[j]), ':') && line_key(head[j]) == k && k.len() > 0
                    && frontmatter_map(head + rest)[k] == line_value(head[j]) && forall|i: int|
                    1 <= i <= j ==> trim(#[trigger] head[i]) != "---"@,
{
    let y = head.drop_first();
    assert((head + rest)[0] == head[0]);
    assert((head + rest).drop_first() =~= y + rest);
    assert(y.last() == head.last());
    lemma_fm_fold_open(y);
    lemma_fm_fold_sticky(y, rest);
    lemma_fm_fold_keys(y);
    assert forall|k: Seq<char>| #[trigger] frontmatter_map(head + rest).contains_key(k) implies exists|j: int|
        #![trigger head[j]]
        1 <= j < head.len() - 1 && has_char(trim(head[j]), ':') && line_key(head[j]) == k && k.len() > 0
            && frontmatter_map(head + rest)[k] == line_value(head[j]) && forall|i: int|
            1 <= i <= j ==> trim(#[trigger] head[i]) != "---"@ by {
        assert(fm_fold(y).0.contains_key(k));
        let j = choose|j: int|
            #![trigger y[j]]
            0 <= j < y.len() && has_char(trim(y[j]), ':') && line_key(y[j]) == k && k.len() > 0 && fm_fold(y).0[k]
                == line_value(y[j]) && forall|i: int| 0 <= i <= j ==> trim(#[trigger] y[i]) != "---"@;
        assert(y[y.len() - 1] == y.last());
        assert(j != y.len() - 1);
        assert(head[j + 1] == y[j]);
        assert forall|i: int| 1 <= i <= j + 1 implies trim(#[trigger] head[i]) != "---"@ by {
            assert(head[i] == y[i - 1]);
        }
    }
}

/// Without a first line that is `---` once trimmed, a note has no front matter.
pub proof fn law_frontmatter_needs_opening_line(ls: Seq<Seq<char>>)
    requires
        ls.len() == 0 || trim(ls[0]) != "---"@,
    ensures
        frontmatter_map(ls) == Map::<Seq<char>, Seq<char>>::empty(),
{
}

/// The value that a `key: value` line gives: the trimmed text after its first `:`.
pub open spec fn line_value(l: Seq<char>) -> Seq<char> {
    let t = trim(l);
    trim(t.skip(first_index(t, ':') + 1))
}

proof fn lemma_fm_fold_closed_by_line(y: Seq<Seq<char>>)
    ensures
        fm_fold(y).1 ==> exists|i: int| 0 <= i < y.len() && trim(#[trigger] y[i]) == "---"@,
    decreases y.len(),
{
    if y.len() > 0 {
        let p = y.drop_last();
        lemma_fm_fold_closed_by_line(p);
        if fm_fold(y).1 {
            if fm_fold(p).1 {
                let i = choose|i: int| 0 <= i < p.len() && trim(#[trigger] p[i]) == "---"@;
                assert(y[i] == p[i]);
            } else {
                assert(y[y.len() - 1] == y.last());
            }
        }
    }
}

proof fn lemma_fm_fold_entry(y: Seq<Seq<char>>, j: int)
    requires
        0 <= j < y.len(),
        forall|m: int| 0 <= m <= j ==> trim(#[trigger] y[m]) != "---"@,
        has_char(trim(y[j]), ':'),
        line_key(y[j]).len() > 0,
        forall|i: int|
            j < i < y.len() && (forall|m: int| 0 <= m <= i ==> trim(#[trigger] y[m]) != "---"@) && has_char(trim(#[trigger] y[i]), ':')
                ==> line_key(y[i]) != line_key(y[j]),
    ensures
        fm_fold(y).0.contains_key(line_key(y[j])),
        fm_fold(y).0[line_key(y[j])] == line_value(y[j]),
    decreases y.len(),
{
    let p = y.drop_last();
    let last = y.len() - 1;
    assert(y[last] == y.last());
    lemma_fm_fold_open(p);
    lemma_fm_fold_closed_by_line(p);
    if j == last {
        if fm_fold(p).1 {
            let i = choose|i: int| 0 <= i < p.len() && trim(#[trigger] p[i]) == "---"@;
            assert(y[i] == p[i]);
        }
    } else {
        assert(y[j] == p[j]);
        assert forall|i: int|
            j < i < p.len() && (forall|m: int| 0 <= m <= i ==> trim(#[trigger] p[m]) != "---"@) && has_char(trim(#[trigger] p[i]), ':')
                implies line_key(p[i]) != line_key(p[j]) by {
            assert(y[i] == p[i]);
            assert forall|m: int| 0 <= m <= i implies trim(#[trigger] y[m]) != "---"@ by {
                assert(y[m] == p[m]);
            }
        }
        assert forall|m: int| 0 <= m <= j implies trim(#[trigger] p[m]) != "---"@ by {
            assert(y[m] == p[m]);
        }
        lemma_fm_fold_entry(p, j);
        if !fm_fold(p).1 && trim(y[last]) != "---"@ && has_char(trim(y[last]), ':') {
            assert forall|m: int| 0 <= m <= last implies trim(#[trigger] y[m]) != "---"@ by {
                if m < last {
                    assert(y[m] == p[m]);
                }
            }
            assert(line_key(y[last]) != line_key(y[j]));
        }
    }
}

/// Each `key: value` line of the front matter (after the opening `---`, before any closing
/// one) sets its key to its value, unless a later such line sets the same key: the last
/// entry wins.
pub proof fn law_frontmatter_last_entry_wins(ls: Seq<Seq<char>>, j: int)
    requires
        trim(ls[0]) == "---"@,
        1 <= j < ls.len(),
        forall|m: int| 1 <= m <= j ==> trim(#[trigger] ls[m]) != "---"@,
        has_char(trim(ls[j]), ':'),
        line_key(ls[j]).len() > 0,
        forall|i: int|
            j < i < ls.len() && (forall|m: int| 1 <= m <= i ==> trim(#[trigger] ls[m]) != "---"@) && has_char(trim(#[trigger] ls[i]), ':')
                ==> line_key(ls[i]) != line_key(ls[j]),
    ensures
        frontmatter_map(ls).contains_key(line_key(ls[j])),
        frontmatter_map(ls)[line_key(ls[j])] == line_value(ls[j]),
{
    let y = ls.drop_first();
    assert(y[j - 1] == ls[j]);
    assert forall|m: int| 0 <= m <= j - 1 implies trim(#[trigger] y[m]) != "---"@ by {
        assert(y[m] == ls[m + 1]);
    }
    assert forall|i: int|
        j - 1 < i < y.len() && (forall|m: int| 0 <= m <= i ==> trim(#[trigger] y[m]) != "---"@) && has_char(trim(#[trigger] y[i]), ':')
            implies line_key(y[i]) != line_key(y[j - 1]) by {
        assert(y[i] == ls[i + 1]);
        assert forall|m: int| 1 <= m <= i + 1 implies trim(#[trigger] ls[m]) != "---"@ by {
            assert(ls[m] == y[m - 1]);
        }
    }
    lemma_fm_fold_entry(y, j - 1);
}

fn extract_frontmatter(ls: &Vec<Vec<char>>) -> (r: Vec<(String, String)>)
    ensures
        keys_sorted(r@),
        map_of(r@) == frontmatter_map(views(ls@)),
{
    let mut out: Vec<(String, String)> = Vec::new();
    assert(map_of(out@) =~= Map::empty());
    if ls.len() == 0 {
        return out;
    }
    let first = trim_chars(&ls[0]);
    assert(views(ls@)[0] == ls@[0]@);
    if !eq_str(&first, "---") {
        return out;
    }
    let ghost lv = views(ls@).drop_first();
    let mut i: usize = 1;
    let mut done = false;
    assert(lv.take(0) =~= Seq::<Seq<char>>::empty());
    while i < ls.len()
        invariant
            1 <= i <= ls.len(),
            lv == views(ls@).drop_first(),
            keys_sorted(out@),
            fm_fold(lv.take(i - 1)) == (map_of(out@), done),
        decreases ls.len() - i,
    {
        proof {
            assert(lv.take(i as int).drop_last() =~= lv.take(i - 1));
            assert(lv.take(i as int).last() == ls@[i as int]@);
        }
        if !done {
            let t = trim_chars(&ls[i]);
            if eq_str(&t, "---") {
                done = true;
            } else {
                match find_char(&t, ':', 0) {
                    Some(c) => {
                        proof {
                            crate::text::lemma_first_index(t@, ':', c as int);
                        }
                        let k0 = slice_of(&t, 0, c);
                        let key = trim_chars(&k0);
                        let v0 = slice_of(&t, c + 1, t.len());
                        let value = trim_chars(&v0);
                        assert(k0@ =~= t@.take(c as int));
                        assert(v0@ =~= t@.skip(c + 1));
                        if key.len() > 0 {
                            map_insert(&mut out, string_of(&key), string_of(&value));
                        }
                    },
                    None => {
                        assert(!has_char(t@, ':'));
                    },
                }
            }
        }
        i += 1;
    }
    assert(lv.take(ls.len() - 1) =~= lv);
    out
}

/// The wiki links of `s`: the trimmed, non-blank texts between `[[` and the next `]]`.
#[verifier::opaque]
pub open spec fn links_in(s: Seq<char>) -> Seq<Seq<char>>
    decreases s.len(),
{
    match first_occurrence_from(s, "[["@, 0) {
        None => Seq::empty(),
        Some(st) => if st < 0 || st + 2 > s.len() {
            Seq::empty()
        } else {
            let after = s.skip(st + 2);
            match first_occurrence_from(after, "]]"@, 0) {
                None => Seq::empty(),
                Some(e) => if e < 0 || e + 2 > after.len() {
                    Seq::empty()
                } else {
                    let raw = trim(after.take(e));
                    (if raw.len() > 0 { seq![raw] } else { Seq::empty() }) + links_in(after.skip(e + 2))
                },
            }
        },
    }
}

proof fn lemma_first_occ(s: Seq<char>, p: Seq<char>, k: int)
    requires
        0 <= k,
        occurs_at(s, p, k),
        forall|m: int| 0 <= m < k ==> !#[trigger] occurs_at(s, p, m),
    ensures
        first_occurrence_from(s, p, 0) == Some(k),
{
    assert(exists|j: int| 0 <= j && #[trigger] occurs_at(s, p, j));
    let c = choose|j: int|
        0 <= j && #[trigger] occurs_at(s, p, j) && forall|m: int| 0 <= m < j ==> !#[trigger] occurs_at(s, p, m);
    if c < k {
        assert(!occurs_at(s, p, c));
    } else if c > k {
        assert(!occurs_at(s, p, k));
    }
}

proof fn lemma_links_none_open(s: Seq<char>)
    requires
        first_occurrence_from(s, "[["@, 0) is None,
    ensures
        links_in(s) == Seq::<Seq<char>>::empty(),
{
    reveal(links_in);
}

proof fn lemma_links_none_close(s: Seq<char>, st: int)
    requires
        0 <= st,
        st + 2 <= s.len(),
        first_occurrence_from(s, "[["@, 0) == Some(st),
        first_occurrence_from(s.skip(st + 2), "]]"@, 0) is None,
    ensures
        links_in(s) == Seq::<Seq<char>>::empty(),
{
    reveal(links_in);
}

proof fn lemma_links_step(s: Seq<char>, st: int, e: int)
    requires
        0 <= st,
        st + 2 <= s.len(),
        first_occurrence_from(s, "[["@, 0) == Some(st),
        0 <= e,
        e + 2 <= s.skip(st + 2).len(),
        first_occurrence_from(s.skip(st + 2), "]]"@, 0) == Some(e),
    ensures
        links_in(s) == (if trim(s.skip(st + 2).take(e)).len() > 0 {
            seq![trim(s.skip(st + 2).take(e))]
        } else {
            Seq::<Seq<char>>::empty()
        }) + links_in(s.skip(st + 2).skip(e + 2)),
{
    reveal(links_in);
}

fn extract_wikilinks(content: &[char]) -> (r: Vec<String>)
    ensures
        string_views(r@) == links_in(content@),
{
    proof {
        reveal_strlit("[[");
        reveal_strlit("]]");
    }
    let open = chars_of("[[");
    let close = chars_of("]]");
    let mut out: Vec<String> = Vec::new();
    let mut remain = slice_of(content, 0, content.len());
    assert(remain@ =~= content@);
    assert(string_views(out@) =~= Seq::<Seq<char>>::empty());
    loop
        invariant
            open@ == "[["@,
            close@ == "]]"@,
            open@.len() == 2,
            close@.len() == 2,
            string_views(out@) + links_in(remain@) == links_in(content@),
        decreases remain.len(),
    {
        let ghost before = string_views(out@);
        let st = match find_from(&remain, &open, 0) {
            Some(i) => i,
            None => {
                proof {
                    lemma_links_none_open(remain@);
                    assert(before + Seq::<Seq<char>>::empty() =~= before);
                }
                return out;
            },
        };
        proof {
            lemma_first_occ(remain@, "[["@, st as int);
        }
        let after = slice_of(&remain, st + 2, remain.len());
        let e = match find_from(&after, &close, 0) {
            Some(e) => e,
            None => {
                proof {
                    assert(after@ =~= remain@.skip(st + 2));
                    lemma_links_none_close(remain@, st as int);
                    assert(before + Seq::<Seq<char>>::empty() =~= before);
                }
                return out;
            },
        };
        proof {
            assert(after@ =~= remain@.skip(st + 2));
            lemma_first_occ(after@, "]]"@, e as int);
            lemma_links_step(remain@, st as int, e as int);
        }
        let inner = slice_of(&after, 0, e);
        let raw = trim_chars(&inner);
        let next = slice_of(&after, e + 2, after.len());
        proof {
            assert(inner@ =~= after@.take(e as int));
            assert(next@ =~= after@.skip(e + 2));
        }
        if raw.len() > 0 {
            out.push(string_of(&raw));
            assert(string_views(out@) =~= before.push(raw@));
            assert(before + links_in(remain@) =~= string_views(out@) + links_in(next@));
        } else {
            assert(before + links_in(remain@) =~= string_views(out@) + links_in(next@));
        }
        remain = next;
    }
}

/// The maximal runs of non-whitespace characters (`str::split_whitespace`).
pub open spec fn word_fold(s: Seq<char>) -> (Seq<Seq<char>>, Seq<char>)
    decreases s.len(),
{
    if s.len() == 0 {
        (Seq::empty(), Seq::empty())
    } else {
        let (out, cur) = word_fold(s.drop_last());
        let c = s.last();
        if !is_ws(c) {
            (out, cur.push(c))
        } else if cur.len() > 0 {
            (out.push(cur), Seq::empty())
        } else {
            (out, cur)
        }
    }
}

pub open spec fn words_of(s: Seq<char>) -> Seq<Seq<char>> {
    let (out, cur) = word_fold(s);
    if cur.len() > 0 {
        out.push(cur)
    } else {
        out
    }
}

pub open spec fn trim_start_nonword(s: Seq<char>) -> Seq<char>
    decreases s.len(),
{
    if s.len() > 0 && !word_char(s[0]) {
        trim_start_nonword(s.drop_first())
    } else {
        s
    }
}

pub open spec fn trim_end_nonword(s: Seq<char>) -> Seq<char>
    decreases s.len(),
{
    if s.len() > 0 && !word_char(s.last()) {
        trim_end_nonword(s.drop_last())
    } else {
        s
    }
}

/// The tag a word gives: a word `#tag`, with characters that are not letters, digits, `_`
/// or `-` trimmed from both ends of the tag.
pub open spec fn tag_of(w: Seq<char>) -> Option<Seq<char>> {
    if w.len() > 0 && w[0] == '#' {
        let clean = trim_end_nonword(trim_start_nonword(w.drop_first()));
        if clean.len() > 0 {
            Some(clean)
        } else {
            None
        }
    } else {
        None
    }
}

pub open spec fn tag_set(s: Seq<char>) -> Set<Seq<char>> {
    Set::new(|t: Seq<char>| exists|i: int| 0 <= i < words_of(s).len() && tag_of(#[trigger] words_of(s)[i]) == Some(t))
}

fn words_chars(s: &[char]) -> (r: Vec<Vec<char>>)
    ensures
        views(r@) == words_of(s@),
{
    let mut out: Vec<Vec<char>> = Vec::new();
    let mut cur: Vec<char> = Vec::new();
    let mut i: usize = 0;
    assert(s@.take(0) =~= Seq::<char>::empty());
    assert(views(out@) =~= Seq::<Seq<char>>::empty());
    while i < s.len()
        invariant
            i <= s.len(),
            word_fold(s@.take(i as int)) == (views(out@), cur@),
        decreases s.len() - i,
    {
        proof {
            assert(s@.take(i + 1).drop_last() =~= s@.take(i as int));
            assert(s@.take(i + 1).last() == s@[i as int]);
        }
        let c = s[i];
        if !is_whitespace(c) {
            cur.push(c);
        } else if cur.len() > 0 {
            let ghost before = views(out@);
            let done = cur;
            let ghost dv = done@;
            out.push(done);
            assert(views(out@) =~= before.push(dv));
            cur = Vec::new();
        }
        i += 1;
    }
    assert(s@.take(s.len() as int) =~= s@);
    if cur.len() > 0 {
        let ghost before = views(out@);
        let ghost cv = cur@;
        out.push(cur);
        assert(views(out@) =~= before.push(cv));
    }
    out
}

fn tag_of_exec(w: &[char]) -> (r: Option<Vec<char>>)
    ensures
        match tag_of(w@) {
            Some(t) => r matches Some(v) && v@ == t,
            None => r is None,
        },
{
    if w.len() == 0 || w[0] != '#' {
        return None;
    }
    let mut a: usize = 1;
    assert(w@.skip(1) =~= w@.drop_first());
    while a < w.len() && !is_word_char(w[a])
        invariant
            1 <= a <= w.len(),
            trim_start_nonword(w@.drop_first()) == trim_start_nonword(w@.skip(a as int)),
        decreases w.len() - a,
    {
        assert(w@.skip(a as int).drop_first() =~= w@.skip(a + 1));
        a += 1;
    }
    let mut b: usize = w.len();
    let ghost ts = w@.skip(a as int);
    assert(ts.take(ts.len() as int) =~= ts);
    while b > a && !is_word_char(w[b - 1])
        invariant
            a <= b <= w.len(),
            ts == w@.skip(a as int),
            trim_end_nonword(ts) == trim_end_nonword(w@.subrange(a as int, b as int)),
        decreases b,
    {
        assert(w@.subrange(a as int, b as int).drop_last() =~= w@.subrange(a as int, b - 1));
        b -= 1;
    }
    proof {
        if a < w.len() {
            assert(w@.skip(a as int)[0] == w@[a as int]);
        }
        if b > a {
            assert(w@.subrange(a as int, b as int).last() == w@[b - 1]);
        }
        assert(w@.skip(a as int) =~= w@.subrange(a as int, w.len() as int));
    }
    let clean = slice_of(w, a, b);
    if clean.len() > 0 {
        Some(clean)
    } else {
        None
    }
}

fn extract_tags(content: &[char]) -> (r: Vec<String>)
    ensures
        sviews(r@) == sorted_list(tag_set(content@)),
{
    let ws = words_chars(content);
    let ghost wv = views(ws@);
    let mut tags: Vec<String> = Vec::new();
    let mut i: usize = 0;
    while i < ws.len()
        invariant
            i <= ws.len(),
            wv == views(ws@),
            wv == words_of(content@),
            strictly_sorted(sviews(tags@)),
            forall|t: Seq<char>| sviews(tags@).contains(t) <==> exists|k: int| 0 <= k < i && tag_of(#[trigger] wv[k]) == Some(t),
        decreases ws.len() - i,
    {
        let ghost old_tags = sviews(tags@);
        assert(wv[i as int] == ws@[i as int]@);
        match tag_of_exec(&ws[i]) {
            Some(t) => {
                set_insert(&mut tags, string_of(&t));
            },
            None => {},
        }
        proof {
            assert forall|t: Seq<char>| sviews(tags@).contains(t) <==> exists|k: int| 0 <= k < i + 1 && tag_of(#[trigger] wv[k]) == Some(t) by {
                if exists|k: int| 0 <= k < i + 1 && tag_of(#[trigger] wv[k]) == Some(t) {
                    let k = choose|k: int| 0 <= k < i + 1 && tag_of(#[trigger] wv[k]) == Some(t);
                    if k < i {
                        assert(exists|k2: int| 0 <= k2 < i && tag_of(#[trigger] wv[k2]) == Some(t));
                    }
                }
            }
        }
        i += 1;
    }
    proof {
        lemma_sorted_is_sorted_list(tags@);
        assert(set_of(tags@) =~= tag_set(content@));
    }
    tags
}

/// The metadata of a note: its first `# ` title (else its file name), front matter,
/// wiki links and tags (sorted, each once).
pub open spec fn metadata_holds(m: NoteMetadata, content: Seq<char>, fallback_path: Seq<char>) -> bool {
    m.title@ == (match title_of(lines_of(content)) {
        Some(t) => t,
        None => file_name_of(fallback_path),
    }) && keys_sorted(m.frontmatter@) && map_of(m.frontmatter@) == frontmatter_map(lines_of(content))
        && string_views(m.links@) == links_in(content) && sviews(m.tags@) == sorted_list(tag_set(content))
}

pub fn parse_note_metadata(content: &str, fallback_path: &str) -> (m: NoteMetadata)
    ensures
        metadata_holds(m, content@, fallback_path@),
{
    let chars = chars_of(content);
    let ls = lines(&chars);
    let title = match extract_title(&ls) {
        Some(t) => string_of(&t),
        None => {
            let p = chars_of(fallback_path);
            let f = file_name_from_path(&p);
            string_of(&f)
        },
    };
    let frontmatter = extract_frontmatter(&ls);
    let links = extract_wikilinks(&chars);
    let tags = extract_tags(&chars);
    NoteMetadata { title, frontmatter, links, tags }
}

// ---------------------------------------------------------------------------
// The index
// ---------------------------------------------------------------------------
#[derive(Clone, Debug, PartialEq, Eq)]
pub struct SearchOptions {
    pub max_files_with_matches: usize,
    pub max_match_rows: usize,
    pub max_preview_matches_per_file: usize,
    pub max_matches_to_count_per_file: usize,
}

impl Default for SearchOptions {
    fn default() -> (o: SearchOptions)
        ensures
            o.max_files_with_matches == 30 && o.max_match_rows == 200
                && o.max_preview_matches_per_file == 3 && o.max_matches_to_count_per_file == 50,
    {
        SearchOptions {
            max_files_with_matches: 30,
            max_match_rows: 200,
            max_preview_matches_per_file: 3,
            max_matches_to_count_per_file: 50,
        }
    }
}

#[derive(Clone, Debug, PartialEq, Eq)]
pub struct SearchPreviewMatch {
    pub line: usize,
    pub preview: String,
}

#[derive(Clone, Debug, PartialEq, Eq)]
pub struct SearchHit {
    pub path: String,
    pub match_count: usize,
    pub previews: Vec<SearchPreviewMatch>,
}

#[derive(Clone, Debug, PartialEq, Eq)]
pub struct SearchOutcome {
    pub query: String,
    pub elapsed_ms: u128,
    pub hits: Vec<SearchHit>,
}

#[derive(Clone, Debug, PartialEq, Eq)]
pub struct NoteSummary {
    pub path: String,
    pub title: String,
    pub links: Vec<String>,
    pub tags: Vec<String>,
}

/// A note as the index keeps it: its texts, their lower-case forms, and its tokens.
#[derive(Clone, Debug)]
pub struct IndexedNote {
    pub path: String,
    pub path_lower: String,
    pub title: String,
    pub title_lower: String,
    pub tags: Vec<String>,
    pub tags_lower: Vec<String>,
    pub links: Vec<String>,
    pub links_lower: Vec<String>,
    /// Sorted, each token once.
    pub token_set: Vec<String>,
}

pub struct NoteModel {
    pub path: Seq<char>,
    pub path_lower: Seq<char>,
    pub title: Seq<char>,
    pub title_lower: Seq<char>,
    pub tags: Seq<Seq<char>>,
    pub tags_lower: Seq<Seq<char>>,
    pub links: Seq<Seq<char>>,
    pub links_lower: Seq<Seq<char>>,
    pub tokens: Set<Seq<char>>,
}

impl View for IndexedNote {
    type V = NoteModel;

    open spec fn view(&self) -> NoteModel {
        NoteModel {
            path: self.path@,
            path_lower: self.path_lower@,
            title: self.title@,
            title_lower: self.title_lower@,
            tags: sviews(self.tags@),
            tags_lower: sviews(self.tags_lower@),
            links: sviews(self.links@),
            links_lower: sviews(self.links_lower@),
            tokens: set_of(self.token_set@),
        }
    }
}

pub open spec fn note_views(v: Seq<IndexedNote>) -> Seq<NoteModel> {
    v.map_values(|n: IndexedNote| n@)
}

pub open spec fn lower_all(v: Seq<Seq<char>>) -> Seq<Seq<char>> {
    v.map_values(|s: Seq<char>| unicode_lower(s))
}

/// The tokens of a note: those of its lower-cased path, title, tags, links, front matter
/// values and lines.
pub open spec fn note_tokens(
    path_lower: Seq<char>,
    title_lower: Seq<char>,
    tags_lower: Seq<Seq<char>>,
    links_lower: Seq<Seq<char>>,
    values: Seq<Seq<char>>,
    ls: Seq<Seq<char>>,
) -> Set<Seq<char>> {
    Set::new(
        |t: Seq<char>|
            tokens_of(path_lower).contains(t) || tokens_of(title_lower).contains(t) || (exists|i: int|
                0 <= i < tags_lower.len() && #[trigger] tokens_of(tags_lower[i]).contains(t)) || (exists|i: int|
                0 <= i < links_lower.len() && #[trigger] tokens_of(links_lower[i]).contains(t)) || (exists|i: int|
                0 <= i < values.len() && #[trigger] tokens_of(unicode_lower(values[i])).contains(t)) || (exists|i: int|
                0 <= i < ls.len() && #[trigger] tokens_of(unicode_lower(ls[i])).contains(t)),
    )
}

/// How the index keeps the note at `path` with `content`.
pub open spec fn indexed(n: NoteModel, path: Seq<char>, content: Seq<char>) -> bool {
    let meta_title = match title_of(lines_of(content)) {
        Some(t) => t,
        None => file_name_of(path),
    };
    let tags = sorted_list(tag_set(content));
    let links = links_in(content);
    let fm = frontmatter_map(lines_of(content));
    n.path == path && n.path_lower == unicode_lower(path) && n.title == meta_title && n.title_lower
        == unicode_lower(meta_title) && n.tags == tags && n.tags_lower == lower_all(tags) && n.links
        == links && n.links_lower == lower_all(links) && exists|values: Seq<Seq<char>>|
        (forall|v: Seq<char>| values.contains(v) <==> exists|k: Seq<char>| #[trigger] fm.contains_key(k) && fm[k] == v)
            && n.tokens == note_tokens(n.path_lower, n.title_lower, n.tags_lower, n.links_lower, values, lines_of(content))
}

/// The notes of a vault, kept in path order, with what searching them needs.
pub struct KnowledgeIndex {
    notes: Vec<IndexedNote>,
}

pub open spec fn note_paths_of(v: Seq<NoteModel>) -> Seq<Seq<char>> {
    v.map_values(|n: NoteModel| n.path)
}

/// Each string lowercased.
pub fn lower_strings(v: &Vec<String>) -> (r: Vec<String>)
    ensures
        sviews(r@) == lower_all(sviews(v@)),
{
    let mut r: Vec<String> = Vec::new();
    let mut i: usize = 0;
    while i < v.len()
        invariant
            i <= v.len(),
            sviews(r@) == lower_all(sviews(v@)).take(i as int),
        decreases v.len() - i,
    {
        let ghost before = r@;
        r.push(to_lowercase(v[i].as_str()));
        assert(sviews(r@) =~= sviews(before).push(unicode_lower(v@[i as int]@)));
        assert(lower_all(sviews(v@)).take(i + 1) =~= lower_all(sviews(v@)).take(i as int).push(unicode_lower(v@[i as int]@)));
        i += 1;
    }
    assert(lower_all(sviews(v@)).take(v.len() as int) =~= lower_all(sviews(v@)));
    r
}

fn copy_strings(v: &Vec<String>) -> (r: Vec<String>)
    ensures
        r@ == v@,
{
    let mut r: Vec<String> = Vec::new();
    let mut i: usize = 0;
    while i < v.len()
        invariant
            i <= v.len(),
            r@ == v@.take(i as int),
        decreases v.len() - i,
    {
        r.push(v[i].clone());
        assert(v@.take(i + 1) =~= v@.take(i as int).push(v@[i as int]));
        i += 1;
    }
    assert(v@.take(v.len() as int) =~= v@);
    r
}

/// Adds the tokens of `text` to the sorted set `set`.
fn add_tokens(set: &mut Vec<String>, text: &str)
    requires
        strictly_sorted(sviews(old(set)@)),
    ensures
        strictly_sorted(sviews(final(set)@)),
        forall|t: Seq<char>| #[trigger] sviews(final(set)@).contains(t) <==> (sviews(old(set)@).contains(t) || tokens_of(text@).contains(t)),
{
    let toks = tokenize(text);
    let ghost tv = string_views(toks@);
    let mut i: usize = 0;
    while i < toks.len()
        invariant
            i <= toks.len(),
            tv == string_views(toks@),
            tv == tokens_of(text@),
            strictly_sorted(sviews(set@)),
            forall|t: Seq<char>| sviews(set@).contains(t) <==> (sviews(old(set)@).contains(t) || tv.take(i as int).contains(t)),
        decreases toks.len() - i,
    {
        set_insert(set, toks[i].clone());
        proof {
            assert(tv.take(i + 1) =~= tv.take(i as int).push(toks@[i as int]@));
            assert forall|t: Seq<char>| sviews(set@).contains(t) <==> (sviews(old(set)@).contains(t) || tv.take(i + 1).contains(t)) by {
                if tv.take(i + 1).contains(t) && t != toks@[i as int]@ {
                    let k = choose|k: int| 0 <= k < i + 1 && #[trigger] tv.take(i + 1)[k] == t;
                    assert(tv.take(i as int)[k] == t);
                }
                if tv.take(i as int).contains(t) {
                    let k = choose|k: int| 0 <= k < i && #[trigger] tv.take(i as int)[k] == t;
                    assert(tv.take(i + 1)[k] == t);
                }
                if t == toks@[i as int]@ {
                    assert(tv.take(i + 1)[i as int] == t);
                }
            }
        }
        i += 1;
    }
    assert(tv.take(toks.len() as int) =~= tv);
}

pub open spec fn value_views(v: Seq<(String, String)>) -> Seq<Seq<char>> {
    v.map_values(|p: (String, String)| p.1@)
}

proof fn lemma_values_of_map(v: Seq<(String, String)>)
    requires
        keys_sorted(v),
    ensures
        forall|x: Seq<char>| value_views(v).contains(x) <==> exists|k: Seq<char>| #[trigger] map_of(v).contains_key(k) && map_of(v)[k] == x,
{
    assert forall|x: Seq<char>| value_views(v).contains(x) <==> exists|k: Seq<char>| #[trigger] map_of(v).contains_key(k) && map_of(v)[k] == x by {
        if value_views(v).contains(x) {
            let i = choose|i: int| 0 <= i < v.len() && value_views(v)[i] == x;
            lemma_map_of_at(v, i);
        }
        if exists|k: Seq<char>| #[trigger] map_of(v).contains_key(k) && map_of(v)[k] == x {
            let kk = choose|k: Seq<char>| #[trigger] map_of(v).contains_key(k) && map_of(v)[k] == x;
            lemma_map_of_has(v, kk);
            let i = key_index(v, kk);
            lemma_map_of_at(v, i);
            assert(value_views(v)[i] == x);
        }
    }
}

pub open spec fn maybe_lower(lower: bool, s: Seq<char>) -> Seq<char> {
    if lower {
        unicode_lower(s)
    } else {
        s
    }
}

/// Adds the tokens of each text of `texts`, lower-cased first when `lower` is set.
fn add_tokens_all(set: &mut Vec<String>, texts: &Vec<String>, lower: bool)
    requires
        strictly_sorted(sviews(old(set)@)),
    ensures
        strictly_sorted(sviews(final(set)@)),
        forall|t: Seq<char>| #[trigger] sviews(final(set)@).contains(t) <==> (sviews(old(set)@).contains(t) || exists|i: int|
            0 <= i < texts.len() && #[trigger] tokens_of(maybe_lower(lower, texts@[i]@)).contains(t)),
{
    let mut i: usize = 0;
    while i < texts.len()
        invariant
            i <= texts.len(),
            strictly_sorted(sviews(set@)),
            forall|t: Seq<char>| sviews(set@).contains(t) <==> (sviews(old(set)@).contains(t) || exists|k: int|
                0 <= k < i && #[trigger] tokens_of(maybe_lower(lower, texts@[k]@)).contains(t)),
        decreases texts.len() - i,
    {
        let ghost prev = sviews(set@);
        let ghost cur_text = maybe_lower(lower, texts@[i as int]@);
        if lower {
            let l = to_lowercase(texts[i].as_str());
            add_tokens(set, l.as_str());
        } else {
            add_tokens(set, texts[i].as_str());
        }
        proof {
            assert forall|t: Seq<char>| sviews(set@).contains(t) <==> (sviews(old(set)@).contains(t) || exists|k: int|
                0 <= k < i + 1 && #[trigger] tokens_of(maybe_lower(lower, texts@[k]@)).contains(t)) by {
                if tokens_of(cur_text).contains(t) {
                    assert(tokens_of(maybe_lower(lower, texts@[i as int]@)).contains(t));
                }
                if exists|k: int| 0 <= k < i + 1 && #[trigger] tokens_of(maybe_lower(lower, texts@[k]@)).contains(t) {
                    let k = choose|k: int| 0 <= k < i + 1 && #[trigger] tokens_of(maybe_lower(lower, texts@[k]@)).contains(t);
                    if k < i {
                        assert(exists|k2: int| 0 <= k2 < i && #[trigger] tokens_of(maybe_lower(lower, texts@[k2]@)).contains(t));
                    }
                }
            }
        }
        i += 1;
    }
}

proof fn lemma_bridge(texts: Seq<String>, vs: Seq<Seq<char>>, lower: bool, t: Seq<char>)
    requires
        sviews(texts) == vs,
    ensures
        (exists|i: int| 0 <= i < texts.len() && #[trigger] tokens_of(maybe_lower(lower, texts[i]@)).contains(t))
            == (if lower {
            exists|i: int| 0 <= i < vs.len() && #[trigger] tokens_of(unicode_lower(vs[i])).contains(t)
        } else {
            exists|i: int| 0 <= i < vs.len() && #[trigger] tokens_of(vs[i]).contains(t)
        }),
{
    if exists|i: int| 0 <= i < texts.len() && #[trigger] tokens_of(maybe_lower(lower, texts[i]@)).contains(t) {
        let i = choose|i: int| 0 <= i < texts.len() && #[trigger] tokens_of(maybe_lower(lower, texts[i]@)).contains(t);
        assert(vs[i] == texts[i]@);
        if lower {
            assert(tokens_of(unicode_lower(vs[i])).contains(t));
        } else {
            assert(tokens_of(vs[i]).contains(t));
        }
    }
    if lower {
        if exists|i: int| 0 <= i < vs.len() && #[trigger] tokens_of(unicode_lower(vs[i])).contains(t) {
            let i = choose|i: int| 0 <= i < vs.len() && #[trigger] tokens_of(unicode_lower(vs[i])).contains(t);
            assert(vs[i] == texts[i]@);
            assert(tokens_of(maybe_lower(lower, texts[i]@)).contains(t));
        }
    } else {
        if exists|i: int| 0 <= i < vs.len() && #[trigger] tokens_of(vs[i]).contains(t) {
            let i = choose|i: int| 0 <= i < vs.len() && #[trigger] tokens_of(vs[i]).contains(t);
            assert(vs[i] == texts[i]@);
            assert(tokens_of(maybe_lower(lower, texts[i]@)).contains(t));
        }
    }
}

fn values_of(v: &Vec<(String, String)>) -> (r: Vec<String>)
    ensures
        sviews(r@) == value_views(v@),
{
    let mut r: Vec<String> = Vec::new();
    let mut i: usize = 0;
    while i < v.len()
        invariant
            i <= v.len(),
            sviews(r@) == value_views(v@).take(i as int),
        decreases v.len() - i,
    {
        let ghost before = r@;
        r.push(v[i].1.clone());
        assert(sviews(r@) =~= sviews(before).push(v@[i as int].1@));
        assert(value_views(v@).take(i + 1) =~= value_views(v@).take(i as int).push(v@[i as int].1@));
        i += 1;
    }
    assert(value_views(v@).take(v.len() as int) =~= value_views(v@));
    r
}

fn line_strings(content: &str) -> (r: Vec<String>)
    ensures
        sviews(r@) == lines_of(content@),
{
    let chars = chars_of(content);
    let ls = lines(&chars);
    let r = strings_of(&ls);
    assert(sviews(r@) =~= string_views(r@));
    r
}

/// What the index keeps of the note at `path` with `content`.
pub fn index_note(path: String, content: &str) -> (n: IndexedNote)
    ensures
        indexed(n@, path@, content@),
        strictly_sorted(sviews(n.token_set@)),
{
    let meta = parse_note_metadata(content, path.as_str());
    let path_lower = to_lowercase(path.as_str());
    let title_lower = to_lowercase(meta.title.as_str());
    let tags_lower = lower_strings(&meta.tags);
    let links_lower = lower_strings(&meta.links);
    let values = values_of(&meta.frontmatter);
    let ls = line_strings(content);
    let mut tokens: Vec<String> = Vec::new();
    let ghost s0 = sviews(tokens@);
    assert(s0 =~= Seq::<Seq<char>>::empty());
    add_tokens(&mut tokens, path_lower.as_str());
    let ghost s1 = sviews(tokens@);
    add_tokens(&mut tokens, title_lower.as_str());
    let ghost s2 = sviews(tokens@);

    add_tokens_all(&mut tokens, &tags_lower, false);
    let ghost s3 = sviews(tokens@);
    add_tokens_all(&mut tokens, &links_lower, false);
    let ghost s4 = sviews(tokens@);
    add_tokens_all(&mut tokens, &values, true);
    let ghost s5 = sviews(tokens@);
    add_tokens_all(&mut tokens, &ls, true);
    let n = IndexedNote {
        path,
        path_lower,
        title: meta.title.clone(),
        title_lower,
        tags: copy_strings(&meta.tags),
        tags_lower,
        links: copy_strings(&meta.links),
        links_lower,
        token_set: tokens,
    };
    proof {
        let vw = value_views(meta.frontmatter@);
        lemma_values_of_map(meta.frontmatter@);
        assert(sviews(meta.links@) =~= string_views(meta.links@));
        assert forall|t: Seq<char>| set_of(n.token_set@).contains(t) == note_tokens(n@.path_lower, n@.title_lower, n@.tags_lower, n@.links_lower, vw, lines_of(content@)).contains(t) by {
            lemma_bridge(n.tags_lower@, n@.tags_lower, false, t);
            lemma_bridge(n.links_lower@, n@.links_lower, false, t);
            lemma_bridge(values@, vw, true, t);
            lemma_bridge(ls@, lines_of(content@), true, t);
            assert(!s0.contains(t));
            assert(s1.contains(t) == tokens_of(n@.path_lower).contains(t));
            assert(s2.contains(t) == (s1.contains(t) || tokens_of(n@.title_lower).contains(t)));
            assert(set_of(n.token_set@).contains(t) == sviews(n.token_set@).contains(t));
        }
        assert(set_of(n.token_set@) =~= note_tokens(n@.path_lower, n@.title_lower, n@.tags_lower, n@.links_lower, vw, lines_of(content@)));
        assert(forall|v: Seq<char>| vw.contains(v) <==> exists|k: Seq<char>| #[trigger] frontmatter_map(lines_of(content@)).contains_key(k) && frontmatter_map(lines_of(content@))[k] == v);
    }
    n
}

/// The position of the note at `p`, if there is one.
pub open spec fn position_of(ns: Seq<NoteModel>, p: Seq<char>) -> Option<int> {
    if exists|i: int| 0 <= i < ns.len() && #[trigger] ns[i].path == p {
        Some(choose|i: int| 0 <= i < ns.len() && #[trigger] ns[i].path == p)
    } else {
        None
    }
}

/// The notes after indexing the note at `p` with `content`: the old note at `p` gives way
/// to the new one, in path order.
pub open spec fn upserted(old_notes: Seq<NoteModel>, new_notes: Seq<NoteModel>, p: Seq<char>, content: Seq<char>) -> bool {
    exists|k: int, n: NoteModel|
        0 <= k <= without_note(old_notes, p).len() && indexed(n, p, content) && new_notes
            == #[trigger] without_note(old_notes, p).insert(k, n)
}

/// The notes without the one at `p`.
pub open spec fn without_note(ns: Seq<NoteModel>, p: Seq<char>) -> Seq<NoteModel> {
    match position_of(ns, p) {
        Some(i) => ns.remove(i),
        None => ns,
    }
}

proof fn lemma_position_unique(ns: Seq<NoteModel>, i: int)
    requires
        strictly_sorted(note_paths_of(ns)),
        0 <= i < ns.len(),
    ensures
        position_of(ns, ns[i].path) == Some(i),
{
    let p = ns[i].path;
    assert(ns[i].path == p);
    let j = choose|j: int| 0 <= j < ns.len() && #[trigger] ns[j].path == p;
    if j != i {
        lemma_lex_irreflexive(p);
        assert(note_paths_of(ns)[i] == p && note_paths_of(ns)[j] == p);
        if j < i {
            assert(lex_lt(note_paths_of(ns)[j], note_paths_of(ns)[i]));
        } else {
            assert(lex_lt(note_paths_of(ns)[i], note_paths_of(ns)[j]));
        }
    }
}

impl KnowledgeIndex {
    pub closed spec fn notes(&self) -> Seq<NoteModel> {
        note_views(self.notes@)
    }

    /// Each note keeps its tokens sorted, each once.
    pub closed spec fn sets_sorted(&self) -> bool {
        forall|i: int| 0 <= i < self.notes@.len() ==> strictly_sorted(sviews(#[trigger] self.notes@[i].token_set@))
    }

    /// Notes are kept in path order, one per path.
    pub open spec fn wf(&self) -> bool {
        strictly_sorted(note_paths_of(self.notes())) && self.sets_sorted()
    }

    pub fn empty() -> (r: KnowledgeIndex)
        ensures
            r.notes().len() == 0,
            r.wf(),
    {
        let r = KnowledgeIndex { notes: Vec::new() };
        assert(note_paths_of(r.notes()) =~= Seq::<Seq<char>>::empty());
        assert(r.sets_sorted());
        r
    }

    /// A copy of the index, for a measurement that must not disturb this one.
    pub fn snapshot(&self) -> (r: KnowledgeIndex)
        requires
            self.wf(),
        ensures
            r.wf(),
            r.notes() == self.notes(),
    {
        let mut notes: Vec<IndexedNote> = Vec::new();
        let mut i: usize = 0;
        while i < self.notes.len()
            invariant
                i <= self.notes.len(),
                notes.len() == i,
                note_views(notes@) == note_views(self.notes@.take(i as int)),
                forall|k: int| 0 <= k < i ==> sviews((#[trigger] notes@[k]).token_set@) == sviews(self.notes@[k].token_set@),
            decreases self.notes.len() - i,
        {
            let n = &self.notes[i];
            let c = IndexedNote {
                path: n.path.clone(),
                path_lower: n.path_lower.clone(),
                title: n.title.clone(),
                title_lower: n.title_lower.clone(),
                tags: copy_strings(&n.tags),
                tags_lower: copy_strings(&n.tags_lower),
                links: copy_strings(&n.links),
                links_lower: copy_strings(&n.links_lower),
                token_set: copy_strings(&n.token_set),
            };
            assert(c@ == self.notes@[i as int]@);
            let ghost before = notes@;
            notes.push(c);
            assert(note_views(notes@) =~= note_views(before).push(self.notes@[i as int]@));
            assert(note_views(self.notes@.take(i + 1)) =~= note_views(self.notes@.take(i as int)).push(self.notes@[i as int]@));
            i += 1;
        }
        assert(self.notes@.take(self.notes.len() as int) =~= self.notes@);
        let r = KnowledgeIndex { notes };
        assert(r.sets_sorted());
        r
    }

    pub fn note_count(&self) -> (n: usize)
        ensures
            n == self.notes().len(),
    {
        self.notes.len()
    }

    pub fn all_paths_sorted(&self) -> (r: Vec<String>)
        ensures
            sviews(r@) == note_paths_of(self.notes()),
    {
        let mut r: Vec<String> = Vec::new();
        let mut i: usize = 0;
        while i < self.notes.len()
            invariant
                i <= self.notes.len(),
                sviews(r@) == note_paths_of(self.notes()).take(i as int),
            decreases self.notes.len() - i,
        {
            let ghost before = r@;
            r.push(self.notes[i].path.clone());
            assert(sviews(r@) =~= sviews(before).push(self.notes@[i as int].path@));
            assert(note_paths_of(self.notes()).take(i + 1) =~= note_paths_of(self.notes()).take(i as int).push(self.notes@[i as int].path@));
            i += 1;
        }
        assert(note_paths_of(self.notes()).take(self.notes.len() as int) =~= note_paths_of(self.notes()));
        r
    }

    fn find(&self, path: &String) -> (r: Option<usize>)
        requires
            self.wf(),
        ensures
            r matches Some(i) ==> i < self.notes().len() && position_of(self.notes(), path@) == Some(i as int),
            r is None ==> position_of(self.notes(), path@) is None,
    {
        let mut i: usize = 0;
        while i < self.notes.len()
            invariant
                i <= self.notes.len(),
                self.wf(),
                forall|k: int| 0 <= k < i ==> self.notes@[k].path@ != path@,
            decreases self.notes.len() - i,
        {
            if string_eq(&self.notes[i].path, path) {
                proof {
                    assert(self.notes()[i as int] == self.notes@[i as int]@);
                    assert(self.notes()[i as int].path == path@);
                    lemma_position_unique(self.notes(), i as int);
                }
                return Some(i);
            }
            i += 1;
        }
        proof {
            if exists|k: int| 0 <= k < self.notes().len() && #[trigger] self.notes()[k].path == path@ {
                let k = choose|k: int| 0 <= k < self.notes().len() && #[trigger] self.notes()[k].path == path@;
                assert(self.notes()[k] == self.notes@[k]@);
                assert(self.notes@[k].path@ == path@);
            }
        }
        None
    }

    /// The path, title, links and tags of the note at `note_path` (normalized).
    pub fn note_summary(&self, note_path: &str) -> (r: Option<NoteSummary>)
        requires
            self.wf(),
        ensures
            match spec_normalize_vault_rel_path(note_path@) {
                Err(_) => r is None,
                Ok(p) => match position_of(self.notes(), p) {
                    None => r is None,
                    Some(i) => r matches Some(s) && s.path@ == self.notes()[i].path && s.title@
                        == self.notes()[i].title && sviews(s.links@) == self.notes()[i].links
                        && sviews(s.tags@) == self.notes()[i].tags,
                },
            },
    {
        let path = match normalize_vault_rel_path(note_path) {
            Ok(p) => p,
            Err(_) => {
                return None;
            },
        };
        match self.find(&path) {
            None => None,
            Some(i) => {
                let n = &self.notes[i];
                Some(NoteSummary {
                    path: n.path.clone(),
                    title: n.title.clone(),
                    links: copy_strings(&n.links),
                    tags: copy_strings(&n.tags),
                })
            },
        }
    }

    /// Drops the note at `note_path` (normalized), if there is one.
    pub fn remove_note(&mut self, note_path: &str)
        requires
            old(self).wf(),
        ensures
            final(self).wf(),
            final(self).notes() == match spec_normalize_vault_rel_path(note_path@) {
                Ok(p) => without_note(old(self).notes(), p),
                Err(_) => old(self).notes(),
            },
    {
        let path = match normalize_vault_rel_path(note_path) {
            Ok(p) => p,
            Err(_) => {
                return;
            },
        };
        self.remove_path(&path);
    }

    #[verifier::spinoff_prover]
    fn remove_path(&mut self, path: &String)
        requires
            old(self).wf(),
        ensures
            final(self).wf(),
            final(self).notes() == without_note(old(self).notes(), path@),
    {
        match self.find(path) {
            None => {},
            Some(i) => {
                let ghost before = self.notes();
                let ghost before_raw = self.notes@;
                self.notes.remove(i);
                proof {
                    assert(self.notes@ =~= before_raw.remove(i as int));
                    assert forall|k: int| 0 <= k < self.notes@.len() implies strictly_sorted(sviews(#[trigger] self.notes@[k].token_set@)) by {
                        if k < i {
                            assert(self.notes@[k] == before_raw[k]);
                        } else {
                            assert(self.notes@[k] == before_raw[k + 1]);
                        }
                    }
                    assert(self.notes() =~= before.remove(i as int));
                    let np = note_paths_of(self.notes());
                    let op = note_paths_of(before);
                    assert(np =~= op.remove(i as int));
                    assert forall|a: int, b: int| 0 <= a < b < np.len() implies lex_lt(#[trigger] np[a], #[trigger] np[b]) by {
                        if b < i {
                            assert(lex_lt(op[a], op[b]));
                        } else if a < i {
                            assert(lex_lt(op[a], op[b + 1]));
                        } else {
                            assert(lex_lt(op[a + 1], op[b + 1]));
                        }
                    }
                }
            },
        }
    }

    /// Indexes the note at `note_path` as `source` gives it: a path that normalization
    /// refuses, or a note the source cannot give, leaves the index unchanged and says why;
    /// else the note is indexed as `upsert_note` does.
    pub fn upsert_note_from<S: NoteSource>(&mut self, source: &S, note_path: &str) -> (r: Result<(), UpsertError>)
        requires
            old(self).wf(),
        ensures
            final(self).wf(),
            match spec_normalize_vault_rel_path(note_path@) {
                Err(e) => r == Err::<(), UpsertError>(UpsertError::Path(e)) && final(self).notes() == old(self).notes(),
                Ok(p) => read_and_indexed(*source, old(self).notes(), final(self).notes(), p, r),
            },
    {
        let path = match normalize_vault_rel_path(note_path) {
            Ok(p) => p,
            Err(e) => {
                return Err(UpsertError::Path(e));
            },
        };
        let got = source.note_content(path.as_str());
        let ghost g = match got {
            Some(ref c) => Some(c@),
            None => None::<Seq<char>>,
        };
        assert(source.reads(path@, g));
        assert(spec_normalize_vault_rel_path(note_path@) == Ok::<Seq<char>, PathError>(path@));
        let ghost pv = path@;
        let r = match got {
            None => Err(UpsertError::Unreadable),
            Some(content) => {
                self.index_at(path, content.as_str());
                Ok(())
            },
        };
        assert(read_and_indexed(*source, old(self).notes(), self.notes(), pv, r) && g == g);
        r
    }

    /// Indexes the note at `note_path` (normalized) with `content`, replacing what was
    /// known of it. Fails only on an invalid path.
    pub fn upsert_note(&mut self, note_path: &str, content: &str) -> (r: Result<(), PathError>)
        requires
            old(self).wf(),
        ensures
            final(self).wf(),
            spec_normalize_vault_rel_path(note_path@) matches Err(e) ==> r == Err::<(), PathError>(e) && final(self).notes() == old(self).notes(),
            spec_normalize_vault_rel_path(note_path@) matches Ok(p) ==> r is Ok,
            spec_normalize_vault_rel_path(note_path@) is Ok ==> upserted(old(self).notes(), final(self).notes(), spec_normalize_vault_rel_path(note_path@)->Ok_0, content@),
    {
        let path = match normalize_vault_rel_path(note_path) {
            Ok(p) => p,
            Err(e) => {
                return Err(e);
            },
        };
        self.index_at(path, content);
        Ok(())
    }

    /// Indexes `content` as the note at the (normalized) `path`, in place of any note there.
    #[verifier::spinoff_prover]
    fn index_at(&mut self, path: String, content: &str)
        requires
            old(self).wf(),
        ensures
            final(self).wf(),
            upserted(old(self).notes(), final(self).notes(), path@, content@),
    {
        self.remove_path(&path);
        let ghost base = self.notes();
        let mut k: usize = 0;
        while k < self.notes.len() && string_less(&self.notes[k].path, &path)
            invariant
                k <= self.notes.len(),
                self.notes() == base,
                self.wf(),
                forall|j: int| 0 <= j < k ==> lex_lt(#[trigger] self.notes()[j].path, path@),
            decreases self.notes.len() - k,
        {
            k += 1;
        }
        proof {
            lemma_without_note_absent(old(self).notes(), path@);
        }
        let ghost pv = path@;
        let n = index_note(path, content);
        let ghost nv = n@;
        let ghost raw = self.notes@;
        let ghost nraw = n;
        self.notes.insert(k, n);
        proof {
            assert(self.notes@ =~= raw.insert(k as int, nraw));
            assert forall|j: int| 0 <= j < self.notes@.len() implies strictly_sorted(sviews(#[trigger] self.notes@[j].token_set@)) by {
                if j < k {
                    assert(self.notes@[j] == raw[j]);
                } else if j > k {
                    assert(self.notes@[j] == raw[j - 1]);
                }
            }
            let ns = self.notes();
            assert(ns =~= base.insert(k as int, nv));
            let np = note_paths_of(ns);
            let op = note_paths_of(base);
            assert(np =~= op.insert(k as int, nv.path));
            if k < base.len() {
                lemma_lex_total(nv.path, op[k as int]);
                assert(base[k as int].path != nv.path);
            }
            assert forall|a: int, b: int| 0 <= a < b < np.len() implies lex_lt(#[trigger] np[a], #[trigger] np[b]) by {
                if b < k {
                    assert(lex_lt(op[a], op[b]));
                } else if b == k {
                    assert(op[a] == base[a].path);
                } else if a == k {
                    if b - 1 > k {
                        assert(lex_lt(op[k as int], op[b - 1]));
                        lemma_lex_transitive(nv.path, op[k as int], op[b - 1]);
                    }
                } else if a < k {
                    assert(op[a] == base[a].path);
                    if b - 1 > k {
                        assert(lex_lt(op[k as int], op[b - 1]));
                        lemma_lex_transitive(nv.path, op[k as int], op[b - 1]);
                    }
                    lemma_lex_transitive(op[a], nv.path, op[b - 1]);
                } else {
                    assert(lex_lt(op[a - 1], op[b - 1]));
                }
            }
            assert(indexed(nv, pv, content@));
            assert(base == without_note(old(self).notes(), pv));
            assert(0 <= k <= without_note(old(self).notes(), pv).len() && indexed(nv, pv, content@) && self.notes() == without_note(old(self).notes(), pv).insert(k as int, nv));
            assert(upserted(old(self).notes(), self.notes(), pv, content@));
        }
    }

    /// The index of the given notes (path and content each); notes with invalid paths are
    /// left out, and where two entries name one path the later one is kept.
    pub fn build_from_entries(entries: &[(String, String)]) -> (r: Result<KnowledgeIndex, PathError>)
        ensures
            r matches Ok(ix) && ix.wf() && holds_entries(ix.notes(), entry_views(entries@)),
    {
        let ghost ev = entry_views(entries@);
        let mut index = KnowledgeIndex::empty();
        let mut i: usize = 0;
        assert(ev.take(0) =~= Seq::<(Seq<char>, Seq<char>)>::empty());
        while i < entries.len()
            invariant
                i <= entries.len(),
                ev == entry_views(entries@),
                index.wf(),
                holds_entries(index.notes(), ev.take(i as int)),
            decreases entries.len() - i,
        {
            let ghost before = index.notes();
            let _ = index.upsert_note(entries[i].0.as_str(), entries[i].1.as_str());
            proof {
                assert(ev.take(i + 1) =~= ev.take(i as int).push((entries@[i as int].0@, entries@[i as int].1@)));
                lemma_holds_step(before, index.notes(), ev.take(i as int), entries@[i as int].0@, entries@[i as int].1@);
            }
            i += 1;
        }
        assert(ev.take(entries.len() as int) =~= ev);
        Ok(index)
    }
}

pub open spec fn entry_views(v: Seq<(String, String)>) -> Seq<(Seq<char>, Seq<char>)> {
    v.map_values(|e: (String, String)| (e.0@, e.1@))
}

/// The content of the last entry whose path, normalized, is `q`.
pub open spec fn last_content(es: Seq<(Seq<char>, Seq<char>)>, q: Seq<char>) -> Option<Seq<char>>
    decreases es.len(),
{
    if es.len() == 0 {
        None
    } else if spec_normalize_vault_rel_path(es.last().0) == Ok::<Seq<char>, PathError>(q) {
        Some(es.last().1)
    } else {
        last_content(es.drop_last(), q)
    }
}

/// The note `n` is what indexing `content` at its path gives.
#[verifier::opaque]
pub open spec fn indexed_as(n: NoteModel, content: Seq<char>) -> bool {
    indexed(n, n.path, content)
}

/// The notes hold one note for each path that an entry gives (normalized), indexed with
/// the content of the last entry that gives it, and no other.
pub open spec fn holds_entries(ns: Seq<NoteModel>, es: Seq<(Seq<char>, Seq<char>)>) -> bool {
    &&& forall|q: Seq<char>| #[trigger] last_content(es, q) is Some <==> exists|j: int| 0 <= j < ns.len() && ns[j].path == q
    &&& forall|j: int| 0 <= j < ns.len() ==> (last_content(es, #[trigger] ns[j].path) matches Some(c) && indexed_as(ns[j], c))
}

proof fn lemma_indexed_as(n: NoteModel, p: Seq<char>, c: Seq<char>)
    requires
        indexed(n, p, c),
    ensures
        n.path == p,
        indexed_as(n, c),
{
    reveal(indexed_as);
}

proof fn lemma_without_note_members(ns: Seq<NoteModel>, p: Seq<char>)
    requires
        strictly_sorted(note_paths_of(ns)),
    ensures
        forall|j: int| 0 <= j < without_note(ns, p).len() ==> (#[trigger] without_note(ns, p)[j]).path != p
            && exists|i: int| 0 <= i < ns.len() && ns[i] == without_note(ns, p)[j],
        forall|i: int| 0 <= i < ns.len() && (#[trigger] ns[i]).path != p ==> exists|j: int| 0 <= j < without_note(ns, p).len() && without_note(ns, p)[j] == ns[i],
{
    lemma_without_note_absent(ns, p);
    let w = without_note(ns, p);
    match position_of(ns, p) {
        None => {
            assert forall|j: int| 0 <= j < w.len() implies (#[trigger] w[j]).path != p && exists|i: int| 0 <= i < ns.len() && ns[i] == w[j] by {
                assert(ns[j] == w[j]);
            }
            assert forall|i: int| 0 <= i < ns.len() && (#[trigger] ns[i]).path != p implies exists|j: int| 0 <= j < w.len() && w[j] == ns[i] by {
                assert(w[i] == ns[i]);
            }
        },
        Some(i0) => {
            assert(0 <= i0 < ns.len() && ns[i0].path == p);
            assert forall|j: int| 0 <= j < w.len() implies (#[trigger] w[j]).path != p && exists|i: int| 0 <= i < ns.len() && ns[i] == w[j] by {
                if j < i0 {
                    assert(ns[j] == w[j]);
                } else {
                    assert(ns[j + 1] == w[j]);
                }
            }
            assert forall|i: int| 0 <= i < ns.len() && (#[trigger] ns[i]).path != p implies exists|j: int| 0 <= j < w.len() && w[j] == ns[i] by {
                if i < i0 {
                    assert(w[i] == ns[i]);
                } else {
                    assert(i != i0);
                    assert(w[i - 1] == ns[i]);
                }
            }
        },
    }
}

/// Inserting `n` at `k` into notes `w`: where each note of the result comes from.
proof fn lemma_insert_members(w: Seq<NoteModel>, k: int, n: NoteModel, j: int)
    requires
        0 <= k <= w.len(),
        0 <= j < w.len() + 1,
    ensures
        j == k ==> w.insert(k, n)[j] == n,
        j < k ==> w.insert(k, n)[j] == w[j],
        j > k ==> w.insert(k, n)[j] == w[j - 1],
{
}

proof fn lemma_last_content_push(es: Seq<(Seq<char>, Seq<char>)>, raw: Seq<char>, c: Seq<char>, q: Seq<char>)
    ensures
        last_content(es.push((raw, c)), q) == if spec_normalize_vault_rel_path(raw) == Ok::<Seq<char>, PathError>(q) {
            Some(c)
        } else {
            last_content(es, q)
        },
{
    assert(es.push((raw, c)).drop_last() =~= es);
}

#[verifier::spinoff_prover]
proof fn lemma_holds_upsert_paths(ns: Seq<NoteModel>, es: Seq<(Seq<char>, Seq<char>)>, raw: Seq<char>, c: Seq<char>, p: Seq<char>, k: int, n: NoteModel)
    requires
        holds_entries(ns, es),
        strictly_sorted(note_paths_of(ns)),
        spec_normalize_vault_rel_path(raw) == Ok::<Seq<char>, PathError>(p),
        0 <= k <= without_note(ns, p).len(),
        n.path == p,
    ensures
        forall|q: Seq<char>| #[trigger] last_content(es.push((raw, c)), q) is Some <==> exists|j: int|
            0 <= j < without_note(ns, p).insert(k, n).len() && without_note(ns, p).insert(k, n)[j].path == q,
{
    let es2 = es.push((raw, c));
    let w = without_note(ns, p);
    let new = w.insert(k, n);
    lemma_without_note_members(ns, p);
    assert forall|q: Seq<char>| #[trigger] last_content(es2, q) is Some <==> exists|j: int| 0 <= j < new.len() && new[j].path == q by {
        lemma_last_content_push(es, raw, c, q);
        if q == p {
            lemma_insert_members(w, k, n, k);
        } else {
            if last_content(es, q) is Some {
                let i = choose|i: int| 0 <= i < ns.len() && ns[i].path == q;
                let j = choose|j: int| 0 <= j < w.len() && w[j] == ns[i];
                let jj = if j < k { j } else { j + 1 };
                lemma_insert_members(w, k, n, jj);
                assert(new[jj].path == q);
            }
            if exists|j: int| 0 <= j < new.len() && new[j].path == q {
                let j = choose|j: int| 0 <= j < new.len() && new[j].path == q;
                lemma_insert_members(w, k, n, j);
                let jw = if j < k { j } else { j - 1 };
                assert(w[jw].path != p);
                let i = choose|i: int| 0 <= i < ns.len() && ns[i] == w[jw];
                assert(ns[i].path == q);
            }
        }
    }
}

#[verifier::spinoff_prover]
proof fn lemma_holds_upsert_notes(ns: Seq<NoteModel>, es: Seq<(Seq<char>, Seq<char>)>, raw: Seq<char>, c: Seq<char>, p: Seq<char>, k: int, n: NoteModel)
    requires
        holds_entries(ns, es),
        strictly_sorted(note_paths_of(ns)),
        spec_normalize_vault_rel_path(raw) == Ok::<Seq<char>, PathError>(p),
        0 <= k <= without_note(ns, p).len(),
        n.path == p,
        indexed_as(n, c),
    ensures
        forall|j: int| 0 <= j < without_note(ns, p).insert(k, n).len() ==> (last_content(es.push((raw, c)), #[trigger] without_note(ns, p).insert(k, n)[j].path) matches Some(cc)
            && indexed_as(without_note(ns, p).insert(k, n)[j], cc)),
{
    let es2 = es.push((raw, c));
    let w = without_note(ns, p);
    let new = w.insert(k, n);
    lemma_without_note_members(ns, p);
    assert forall|j: int| 0 <= j < new.len() implies (last_content(es2, #[trigger] new[j].path) matches Some(cc) && indexed_as(new[j], cc)) by {
        lemma_insert_members(w, k, n, j);
        lemma_last_content_push(es, raw, c, new[j].path);
        if j != k {
            let jw = if j < k { j } else { j - 1 };
            assert(w[jw].path != p);
            let i = choose|i: int| 0 <= i < ns.len() && ns[i] == w[jw];
            assert(last_content(es, ns[i].path) matches Some(cc) && indexed_as(ns[i], cc));
        }
    }
}

proof fn lemma_holds_upsert(ns: Seq<NoteModel>, es: Seq<(Seq<char>, Seq<char>)>, raw: Seq<char>, c: Seq<char>, p: Seq<char>, k: int, n: NoteModel)
    requires
        holds_entries(ns, es),
        strictly_sorted(note_paths_of(ns)),
        spec_normalize_vault_rel_path(raw) == Ok::<Seq<char>, PathError>(p),
        0 <= k <= without_note(ns, p).len(),
        n.path == p,
        indexed_as(n, c),
    ensures
        holds_entries(without_note(ns, p).insert(k, n), es.push((raw, c))),
{
    lemma_holds_upsert_paths(ns, es, raw, c, p, k, n);
    lemma_holds_upsert_notes(ns, es, raw, c, p, k, n);
}

proof fn lemma_holds_step(ns: Seq<NoteModel>, new: Seq<NoteModel>, es: Seq<(Seq<char>, Seq<char>)>, raw: Seq<char>, c: Seq<char>)
    requires
        holds_entries(ns, es),
        strictly_sorted(note_paths_of(ns)),
        spec_normalize_vault_rel_path(raw) is Err ==> new == ns,
        spec_normalize_vault_rel_path(raw) is Ok ==> upserted(ns, new, spec_normalize_vault_rel_path(raw)->Ok_0, c),
    ensures
        holds_entries(new, es.push((raw, c))),
{
    match spec_normalize_vault_rel_path(raw) {
        Err(_) => {
            assert forall|q: Seq<char>| #[trigger] last_content(es.push((raw, c)), q) == last_content(es, q) by {
                lemma_last_content_push(es, raw, c, q);
            }
        },
        Ok(p) => {
            let (k, n) = choose|k: int, n: NoteModel|
                0 <= k <= without_note(ns, p).len() && indexed(n, p, c) && new == #[trigger] without_note(ns, p).insert(k, n);
            lemma_indexed_as(n, p, c);
            lemma_holds_upsert(ns, es, raw, c, p, k, n);
        },
    }
}

proof fn lemma_without_note_absent(ns: Seq<NoteModel>, p: Seq<char>)
    requires
        strictly_sorted(note_paths_of(ns)),
    ensures
        forall|j: int| 0 <= j < without_note(ns, p).len() ==> #[trigger] without_note(ns, p)[j].path != p,
{
    match position_of(ns, p) {
        None => {},
        Some(i) => {
            assert(0 <= i < ns.len() && ns[i].path == p);
            assert forall|j: int| 0 <= j < without_note(ns, p).len() implies #[trigger] without_note(ns, p)[j].path != p by {
                let jj = if j < i { j } else { j + 1 };
                assert(without_note(ns, p)[j] == ns[jj]);
                if ns[jj].path == p {
                    lemma_position_unique(ns, jj);
                }
            }
        },
    }
}

// ---------------------------------------------------------------------------
// Ranking
// ---------------------------------------------------------------------------
/// `acc` plus each of `terms` in turn, saturating at the largest `usize`.
pub open spec fn add_sat_all(acc: int, terms: Seq<int>) -> int
    decreases terms.len(),
{
    if terms.len() == 0 {
        acc
    } else {
        sat(add_sat_all(acc, terms.drop_last()) + terms.last())
    }
}

pub open spec fn fuzzy_term(h: Seq<char>, q: Seq<char>, weight: int) -> int {
    match subsequence(h, q) {
        Some(f) => sat(f * weight),
        None => 0,
    }
}

/// The points a note's own texts earn for a query: exact, prefix and substring matches of
/// title, path, file name and stem, and fuzzy matches.
pub open spec fn base_total(n: NoteModel, q: Seq<char>) -> int {
    let fname = last_segment(n.path_lower);
    base_total_of(n.title_lower, n.path_lower, fname, trim_suffix_all(fname, ".md"@), q)
}

pub open spec fn base_total_of(tl: Seq<char>, pl: Seq<char>, fname: Seq<char>, stem: Seq<char>, q: Seq<char>) -> int {
    let a0 = if tl == q { 220int } else { 0 };
    let a1 = sat(a0 + if pl == q { 180int } else { 0 });
    let a2 = sat(a1 + if has_prefix(tl, q) { 130int } else { 0 });
    let a3 = sat(a2 + if has_prefix(pl, q) { 110int } else { 0 });
    let a4 = sat(a3 + if contains_seq(tl, q) { 70int } else { 0 });
    let a5 = sat(a4 + if contains_seq(pl, q) { 50int } else { 0 });
    let a6 = sat(a5 + if stem == q { 260int } else { 0 });
    let a7 = sat(a6 + if fname == q || (!has_suffix(q, ".md"@) && has_prefix(fname, q) && has_suffix(fname, ".md"@) && fname.len() == q.len() + 3) { 180int } else { 0 });
    let a8 = sat(a7 + if has_prefix(stem, q) { 160int } else { 0 });
    let a9 = sat(a8 + if has_prefix(fname, q) { 120int } else { 0 });
    let a10 = sat(a9 + if contains_seq(stem, q) { 90int } else { 0 });
    let a11 = sat(a10 + fuzzy_term(stem, q, 6));
    let a12 = sat(a11 + fuzzy_term(tl, q, 3));
    sat(a12 + fuzzy_term(pl, q, 1))
}

pub open spec fn tag_term(t: Seq<char>, q: Seq<char>) -> int {
    if t == q { 40 } else if contains_seq(t, q) { 24 } else { 0 }
}

pub open spec fn link_term(l: Seq<char>, q: Seq<char>) -> int {
    if l == q { 24 } else if contains_seq(l, q) { 12 } else { 0 }
}

/// The score of a note for a query and its tokens.
pub open spec fn note_score(n: NoteModel, q: Seq<char>, qt: Seq<Seq<char>>) -> int {
    add_sat_all(
        base_total(n, q),
        n.tags_lower.map_values(|t: Seq<char>| tag_term(t, q)) + n.links_lower.map_values(
            |l: Seq<char>| link_term(l, q),
        ) + qt.map_values(|t: Seq<char>| if n.tokens.contains(t) { 8int } else { 0int }),
    )
}

fn fuzzy_term_exec(h: &[char], q: &[char], weight: usize) -> (r: usize)
    ensures
        r == fuzzy_term(h@, q@, weight as int),
{
    match subsequence_score(h, q) {
        Some(f) => {
            if weight == 0 || f <= usize::MAX / weight {
                proof {
                    assert(f * weight <= usize::MAX) by (nonlinear_arith)
                        requires weight == 0 || f <= usize::MAX / weight, weight >= 0, f >= 0;
                }
                f * weight
            } else {
                proof {
                    assert(f * weight > usize::MAX) by (nonlinear_arith)
                        requires f > usize::MAX / weight, weight > 0;
                }
                usize::MAX
            }
        },
        None => 0,
    }
}

fn add_term(score: &mut usize, acc: Ghost<int>, terms: Ghost<Seq<int>>, t: usize) -> (out: Ghost<Seq<int>>)
    requires
        *old(score) == add_sat_all(acc@, terms@),
    ensures
        out@ == terms@.push(t as int),
        *final(score) == add_sat_all(acc@, out@),
{
    proof {
        assert(terms@.push(t as int).drop_last() =~= terms@);
    }
    *score = score.saturating_add(t);
    Ghost(terms@.push(t as int))
}

fn file_part(path_lower: &[char]) -> (r: Vec<char>)
    ensures
        r@ == last_segment(path_lower@),
{
    last_segment_exec(path_lower)
}

fn eq_term(a: &[char], q: &[char], pts: usize) -> (r: usize)
    ensures
        r == if a@ == q@ { pts } else { 0 },
{
    if seq_eq(a, q) { pts } else { 0 }
}

fn prefix_term(a: &[char], q: &[char], pts: usize) -> (r: usize)
    ensures
        r == if has_prefix(a@, q@) { pts } else { 0 },
{
    if starts_with(a, q) { pts } else { 0 }
}

fn contains_term(a: &[char], q: &[char], pts: usize) -> (r: usize)
    ensures
        r == if contains_seq(a@, q@) { pts } else { 0 },
{
    if contains(a, q) { pts } else { 0 }
}

fn file_term(fname: &[char], q: &[char]) -> (r: usize)
    ensures
        r == if fname@ == q@ || (!has_suffix(q@, ".md"@) && has_prefix(fname@, q@) && has_suffix(fname@, ".md"@) && fname@.len() == q@.len() + 3) { 180usize } else { 0 },
{
    if seq_eq(fname, q) || (!ends_with_str(q, ".md") && starts_with(fname, q) && ends_with_str(fname, ".md") && fname.len() >= 3 && fname.len() - 3 == q.len()) {
        180
    } else {
        0
    }
}

#[verifier::spinoff_prover]
fn base_score(n: &IndexedNote, q: &[char]) -> (r: usize)
    ensures
        r == base_total(n@, q@),
{
    proof {
        reveal_strlit(".md");
    }
    let pl = chars_of(n.path_lower.as_str());
    let tl = chars_of(n.title_lower.as_str());
    let fname = file_part(&pl);
    let stem = trim_suffix_all_exec(&fname, ".md");
    let mut score: usize = eq_term(&tl, q, 220);
    score = score.saturating_add(eq_term(&pl, q, 180));
    score = score.saturating_add(prefix_term(&tl, q, 130));
    score = score.saturating_add(prefix_term(&pl, q, 110));
    score = score.saturating_add(contains_term(&tl, q, 70));
    score = score.saturating_add(contains_term(&pl, q, 50));
    score = score.saturating_add(eq_term(&stem, q, 260));
    score = score.saturating_add(file_term(&fname, q));
    score = score.saturating_add(prefix_term(&stem, q, 160));
    score = score.saturating_add(prefix_term(&fname, q, 120));
    score = score.saturating_add(contains_term(&stem, q, 90));
    score = score.saturating_add(fuzzy_term_exec(&stem, q, 6));
    score = score.saturating_add(fuzzy_term_exec(&tl, q, 3));
    score = score.saturating_add(fuzzy_term_exec(&pl, q, 1));
    score
}

fn add_text_terms(score: &mut usize, acc: Ghost<int>, g: Ghost<Seq<int>>, texts: &Vec<String>, q: &[char], tags: bool) -> (out: Ghost<Seq<int>>)
    requires
        *old(score) == add_sat_all(acc@, g@),
    ensures
        out@ == g@ + sviews(texts@).map_values(|t: Seq<char>| if tags { tag_term(t, q@) } else { link_term(t, q@) }),
        *final(score) == add_sat_all(acc@, out@),
{
    let ghost terms = sviews(texts@).map_values(|t: Seq<char>| if tags { tag_term(t, q@) } else { link_term(t, q@) });
    let mut g = g;
    let ghost g0 = g@;
    let mut i: usize = 0;
    assert(terms.take(0) =~= Seq::<int>::empty());
    assert(g@ =~= g0 + terms.take(0));
    while i < texts.len()
        invariant
            i <= texts.len(),
            terms == sviews(texts@).map_values(|t: Seq<char>| if tags { tag_term(t, q@) } else { link_term(t, q@) }),
            g@ == g0 + terms.take(i as int),
            *score == add_sat_all(acc@, g@),
        decreases texts.len() - i,
    {
        let t = chars_of(texts[i].as_str());
        let v: usize = if tags {
            if seq_eq(&t, q) { 40 } else if contains(&t, q) { 24 } else { 0 }
        } else {
            if seq_eq(&t, q) { 24 } else if contains(&t, q) { 12 } else { 0 }
        };
        assert(terms[i as int] == v as int);
        g = add_term(score, acc, g, v);
        assert(terms.take(i + 1) =~= terms.take(i as int).push(v as int));
        i += 1;
    }
    assert(terms.take(texts.len() as int) =~= terms);
    g
}

fn add_token_terms(score: &mut usize, acc: Ghost<int>, g: Ghost<Seq<int>>, n: &IndexedNote, qt: &Vec<String>) -> (out: Ghost<Seq<int>>)
    requires
        *old(score) == add_sat_all(acc@, g@),
        strictly_sorted(sviews(n.token_set@)),
    ensures
        out@ == g@ + sviews(qt@).map_values(|t: Seq<char>| if n@.tokens.contains(t) { 8int } else { 0int }),
        *final(score) == add_sat_all(acc@, out@),
{
    let ghost terms = sviews(qt@).map_values(|t: Seq<char>| if n@.tokens.contains(t) { 8int } else { 0int });
    let mut g = g;
    let ghost g0 = g@;
    let mut k: usize = 0;
    assert(g@ =~= g0 + terms.take(0));
    while k < qt.len()
        invariant
            k <= qt.len(),
            strictly_sorted(sviews(n.token_set@)),
            terms == sviews(qt@).map_values(|t: Seq<char>| if n@.tokens.contains(t) { 8int } else { 0int }),
            g@ == g0 + terms.take(k as int),
            *score == add_sat_all(acc@, g@),
        decreases qt.len() - k,
    {
        let has = set_contains(&n.token_set, &qt[k]);
        let v: usize = if has { 8 } else { 0 };
        assert(terms[k as int] == v as int);
        g = add_term(score, acc, g, v);
        assert(terms.take(k + 1) =~= terms.take(k as int).push(v as int));
        k += 1;
    }
    assert(terms.take(qt.len() as int) =~= terms);
    g
}

/// The score of `n` for the lower-cased query `q` with tokens `qt` (see `note_score`).
pub fn score_note_for_query(n: &IndexedNote, q: &[char], qt: &Vec<String>) -> (r: usize)
    requires
        strictly_sorted(sviews(n.token_set@)),
    ensures
        r == note_score(n@, q@, sviews(qt@)),
{
    let mut score = base_score(n, q);
    let acc: Ghost<int> = Ghost(score as int);
    let g: Ghost<Seq<int>> = Ghost(Seq::empty());
    let g = add_text_terms(&mut score, acc, g, &n.tags_lower, q, true);
    let g = add_text_terms(&mut score, acc, g, &n.links_lower, q, false);
    let g = add_token_terms(&mut score, acc, g, n, qt);
    proof {
        assert(sviews(n.tags_lower@).map_values(|t: Seq<char>| if true { tag_term(t, q@) } else { link_term(t, q@) })
            =~= n@.tags_lower.map_values(|t: Seq<char>| tag_term(t, q@)));
        assert(sviews(n.links_lower@).map_values(|t: Seq<char>| if false { tag_term(t, q@) } else { link_term(t, q@) })
            =~= n@.links_lower.map_values(|l: Seq<char>| link_term(l, q@)));
        assert(g@ =~= n@.tags_lower.map_values(|t: Seq<char>| tag_term(t, q@)) + n@.links_lower.map_values(
            |l: Seq<char>| link_term(l, q@),
        ) + sviews(qt@).map_values(|t: Seq<char>| if n@.tokens.contains(t) { 8int } else { 0int }));
    }
    score
}

/// A fallback match for quick open: the query is empty, or occurs in the path or title, or
/// (from two characters on) fuzzily matches the file stem, (from three) the title, or
/// (from four) the path.
pub open spec fn fallback_match(n: NoteModel, q: Seq<char>) -> bool {
    let stem = trim_suffix_all(last_segment(n.path_lower), ".md"@);
    if q.len() == 0 {
        true
    } else if contains_seq(n.path_lower, q) || contains_seq(n.title_lower, q) {
        true
    } else if q.len() <= 1 {
        false
    } else {
        subsequence(stem, q) is Some || (q.len() >= 3 && subsequence(n.title_lower, q) is Some) || (q.len() >= 4
            && subsequence(n.path_lower, q) is Some)
    }
}

fn fallback_match_exec(n: &IndexedNote, q: &[char]) -> (b: bool)
    ensures
        b == fallback_match(n@, q@),
{
    if q.len() == 0 {
        return true;
    }
    let pl = chars_of(n.path_lower.as_str());
    let tl = chars_of(n.title_lower.as_str());
    if contains(&pl, q) || contains(&tl, q) {
        return true;
    }
    if q.len() <= 1 {
        return false;
    }
    let fname = file_part(&pl);
    let stem = trim_suffix_all_exec(&fname, ".md");
    subsequence_score(&stem, q).is_some() || (q.len() >= 3 && subsequence_score(&tl, q).is_some()) || (q.len() >= 4
        && subsequence_score(&pl, q).is_some())
}

/// Some note has token `t`.
pub open spec fn present(ns: Seq<NoteModel>, t: Seq<char>) -> bool {
    exists|i: int| 0 <= i < ns.len() && #[trigger] ns[i].tokens.contains(t)
}

/// Whether a note is a candidate for a query: with no query tokens, the query occurs in its
/// path or title; when no query token is indexed at all, that or a fallback match; else it
/// has every query token that is indexed.
pub open spec fn is_candidate(ns: Seq<NoteModel>, n: NoteModel, q: Seq<char>, qt: Seq<Seq<char>>) -> bool {
    if qt.len() == 0 {
        contains_seq(n.path_lower, q) || contains_seq(n.title_lower, q)
    } else if !(exists|j: int| 0 <= j < qt.len() && present(ns, #[trigger] qt[j])) {
        contains_seq(n.path_lower, q) || contains_seq(n.title_lower, q) || fallback_match(n, q)
    } else {
        forall|j: int| 0 <= j < qt.len() && present(ns, #[trigger] qt[j]) ==> n.tokens.contains(qt[j])
    }
}

/// The candidate notes, in path order.
pub open spec fn candidates(ns: Seq<NoteModel>, q: Seq<char>, qt: Seq<Seq<char>>) -> Seq<NoteModel> {
    ns.filter(|n: NoteModel| is_candidate(ns, n, q, qt))
}

pub open spec fn cand_pred(ns: Seq<NoteModel>, q: Seq<char>, qt: Seq<Seq<char>>) -> spec_fn(NoteModel) -> bool {
    |n: NoteModel| is_candidate(ns, n, q, qt)
}

pub open spec fn pick(ns: Seq<NoteModel>, idx: Seq<usize>) -> Seq<NoteModel> {
    idx.map_values(|i: usize| ns[i as int])
}

pub open spec fn increasing_below(idx: Seq<usize>, n: int) -> bool {
    (forall|a: int| 0 <= a < idx.len() ==> #[trigger] idx[a] < n) && (forall|a: int, b: int|
        0 <= a < b < idx.len() ==> #[trigger] idx[a] < #[trigger] idx[b])
}

impl KnowledgeIndex {
    fn is_present(&self, t: &String) -> (b: bool)
        requires
            forall|i: int| 0 <= i < self.notes@.len() ==> strictly_sorted(sviews(#[trigger] self.notes@[i].token_set@)),
        ensures
            b == present(self.notes(), t@),
    {
        let mut i: usize = 0;
        while i < self.notes.len()
            invariant
                i <= self.notes.len(),
                forall|k: int| 0 <= k < self.notes@.len() ==> strictly_sorted(sviews(#[trigger] self.notes@[k].token_set@)),
                forall|k: int| 0 <= k < i ==> !(#[trigger] self.notes()[k]).tokens.contains(t@),
            decreases self.notes.len() - i,
        {
            assert(strictly_sorted(sviews(self.notes@[i as int].token_set@)));
            if set_contains(&self.notes[i].token_set, t) {
                assert(self.notes()[i as int].tokens.contains(t@));
                return true;
            }
            assert(self.notes()[i as int] == self.notes@[i as int]@);
            i += 1;
        }
        false
    }

    /// The indices of the candidate notes for the lower-cased query `q` with tokens `qt`.
    fn collect_candidates(&self, q: &[char], qt: &Vec<String>) -> (r: Vec<usize>)
        requires
            forall|i: int| 0 <= i < self.notes@.len() ==> strictly_sorted(sviews(#[trigger] self.notes@[i].token_set@)),
        ensures
            increasing_below(r@, self.notes().len() as int),
            pick(self.notes(), r@) == candidates(self.notes(), q@, sviews(qt@)),
    {
        let ghost ns = self.notes();
        let ghost qv = sviews(qt@);
        let mut flags: Vec<bool> = Vec::new();
        let mut any = false;
        let mut j: usize = 0;
        while j < qt.len()
            invariant
                j <= qt.len(),
                ns == self.notes(),
                qv == sviews(qt@),
                forall|i: int| 0 <= i < self.notes@.len() ==> strictly_sorted(sviews(#[trigger] self.notes@[i].token_set@)),
                flags.len() == j,
                forall|k: int| 0 <= k < j ==> flags@[k] == present(ns, #[trigger] qv[k]),
                any == exists|k: int| 0 <= k < j && present(ns, #[trigger] qv[k]),
            decreases qt.len() - j,
        {
            let p = self.is_present(&qt[j]);
            flags.push(p);
            proof {
                if p {
                    assert(present(ns, qv[j as int]));
                }
            }
            any = any || p;
            j += 1;
        }
        let mut out: Vec<usize> = Vec::new();
        let mut i: usize = 0;
        let ghost pred = cand_pred(ns, q@, qv);
        assert(ns.take(0) =~= Seq::<NoteModel>::empty());
        assert(pick(ns, out@) =~= Seq::<NoteModel>::empty());
        proof {
            reveal(Seq::filter);
        }
        while i < self.notes.len()
            invariant
                i <= self.notes.len(),
                ns == self.notes(),
                qv == sviews(qt@),
                pred == cand_pred(ns, q@, qv),
                forall|m: int| 0 <= m < self.notes@.len() ==> strictly_sorted(sviews(#[trigger] self.notes@[m].token_set@)),
                flags.len() == qt.len(),
                forall|k: int| 0 <= k < qt.len() ==> flags@[k] == present(ns, #[trigger] qv[k]),
                any == exists|k: int| 0 <= k < qt.len() && present(ns, #[trigger] qv[k]),
                increasing_below(out@, i as int),
                pick(ns, out@) == ns.take(i as int).filter(pred),
            decreases self.notes.len() - i,
        {
            let n = &self.notes[i];
            assert(ns[i as int] == n@);
            let keep = if qt.len() == 0 {
                let pl = chars_of(n.path_lower.as_str());
                let tl = chars_of(n.title_lower.as_str());
                contains(&pl, q) || contains(&tl, q)
            } else if !any {
                let pl = chars_of(n.path_lower.as_str());
                let tl = chars_of(n.title_lower.as_str());
                contains(&pl, q) || contains(&tl, q) || fallback_match_exec(n, q)
            } else {
                let mut all = true;
                let mut k: usize = 0;
                while k < qt.len()
                    invariant
                        k <= qt.len(),
                        ns == self.notes(),
                        ns[i as int] == n@,
                        *n == self.notes@[i as int],
                        i < self.notes.len(),
                        qv == sviews(qt@),
                        flags.len() == qt.len(),
                        forall|m: int| 0 <= m < self.notes@.len() ==> strictly_sorted(sviews(#[trigger] self.notes@[m].token_set@)),
                        forall|m: int| 0 <= m < qt.len() ==> flags@[m] == present(ns, #[trigger] qv[m]),
                        all == forall|m: int| 0 <= m < k && present(ns, #[trigger] qv[m]) ==> n@.tokens.contains(qv[m]),
                    decreases qt.len() - k,
                {
                    if flags[k] {
                        assert(strictly_sorted(sviews(self.notes@[i as int].token_set@)));
                        let found = set_contains(&n.token_set, &qt[k]);
                        if found == false {
                            all = false;
                        }
                    }
                    proof {
                        if flags@[k as int] && !n@.tokens.contains(qv[k as int]) {
                            assert(!all);
                        }
                    }
                    k += 1;
                }
                all
            };
            assert(keep == is_candidate(ns, n@, q@, qv));
            proof {
                assert(ns.take(i + 1).drop_last() =~= ns.take(i as int));
                assert(ns.take(i + 1).last() == ns[i as int]);
                reveal(Seq::filter);
                assert(pred(ns[i as int]) == keep);
            }
            if keep {
                let ghost before = out@;
                out.push(i);
                assert(pick(ns, out@) =~= pick(ns, before).push(ns[i as int]));
            }
            i += 1;
        }
        assert(ns.take(self.notes.len() as int) =~= ns);
        out
    }
}

/// Ranking order: higher score first, then (with `by_len`) shorter path in bytes, then path
/// order.
pub open spec fn rank_lt(by_len: bool, a: (int, Seq<char>), b: (int, Seq<char>)) -> bool {
    a.0 > b.0 || (a.0 == b.0 && (if by_len {
        byte_len(a.1) < byte_len(b.1) || (byte_len(a.1) == byte_len(b.1) && lex_lt(a.1, b.1))
    } else {
        lex_lt(a.1, b.1)
    }))
}

pub open spec fn rank_sorted(by_len: bool, s: Seq<(int, Seq<char>)>) -> bool {
    forall|i: int, j: int| 0 <= i < j < s.len() ==> !rank_lt(by_len, #[trigger] s[j], #[trigger] s[i])
}

proof fn lemma_rank_lt_order(by_len: bool, a: (int, Seq<char>), b: (int, Seq<char>), c: (int, Seq<char>))
    ensures
        rank_lt(by_len, a, b) && rank_lt(by_len, b, c) ==> rank_lt(by_len, a, c),
        !(rank_lt(by_len, a, b) && rank_lt(by_len, b, a)),
{
    lemma_lex_total(a.1, b.1);
    if lex_lt(a.1, b.1) && lex_lt(b.1, c.1) {
        lemma_lex_transitive(a.1, b.1, c.1);
    }
}

pub open spec fn ranked_views(v: Seq<(usize, String)>) -> Seq<(int, Seq<char>)> {
    v.map_values(|e: (usize, String)| (e.0 as int, e.1@))
}

fn rank_less(by_len: bool, a: &(usize, String), b: &(usize, String)) -> (r: bool)
    ensures
        r == rank_lt(by_len, (a.0 as int, a.1@), (b.0 as int, b.1@)),
{
    if a.0 != b.0 {
        return a.0 > b.0;
    }
    if by_len {
        let la = str_len_bytes(a.1.as_str());
        let lb = str_len_bytes(b.1.as_str());
        if la != lb {
            return la < lb;
        }
    }
    string_less(&a.1, &b.1)
}

/// A stable sort into ranking order.
fn sort_ranked(v: Vec<(usize, String)>, by_len: bool) -> (out: Vec<(usize, String)>)
    ensures
        rank_sorted(by_len, ranked_views(out@)),
        ranked_views(out@).to_multiset() == ranked_views(v@).to_multiset(),
{
    let mut pending = v;
    let ghost orig = ranked_views(pending@);
    let mut out: Vec<(usize, String)> = Vec::new();
    let ghost mut i: int = 0;
    assert(orig.take(0) =~= Seq::<(int, Seq<char>)>::empty());
    assert(ranked_views(out@) =~= Seq::<(int, Seq<char>)>::empty());
    while pending.len() > 0
        invariant
            0 <= i <= orig.len(),
            ranked_views(pending@) == orig.skip(i),
            rank_sorted(by_len, ranked_views(out@)),
            ranked_views(out@).to_multiset() == orig.take(i).to_multiset(),
        decreases pending.len(),
    {
        let ghost before = pending@;
        proof {
            assert(ranked_views(before).len() == before.len());
        }
        let e = pending.remove(0);
        let ghost ev = (e.0 as int, e.1@);
        proof {
            assert(ev == ranked_views(before)[0]);
            assert(ranked_views(pending@) =~= ranked_views(before).drop_first());
            assert(orig.skip(i).drop_first() =~= orig.skip(i + 1));
        }
        let mut p: usize = 0;
        while p < out.len() && !rank_less(by_len, &e, &out[p])
            invariant
                p <= out.len(),
                ev == (e.0 as int, e.1@),
                forall|k: int| 0 <= k < p ==> !rank_lt(by_len, ev, #[trigger] ranked_views(out@)[k]),
            decreases out.len() - p,
        {
            p += 1;
        }
        let ghost old_out = ranked_views(out@);
        out.insert(p, e);
        proof {
            let nv = ranked_views(out@);
            assert(nv =~= old_out.insert(p as int, ev));
            assert forall|a: int, b: int| 0 <= a < b < nv.len() implies !rank_lt(by_len, #[trigger] nv[b], #[trigger] nv[a]) by {
                if b < p {
                    assert(nv[a] == old_out[a] && nv[b] == old_out[b]);
                } else if b == p {
                    assert(nv[a] == old_out[a]);
                } else if a == p {
                    assert(nv[b] == old_out[b - 1]);
                    assert(rank_lt(by_len, ev, old_out[p as int]));
                    lemma_rank_lt_order(by_len, old_out[b - 1], ev, old_out[p as int]);
                    lemma_rank_lt_order(by_len, ev, old_out[p as int], ev);
                } else if a < p {
                    assert(nv[a] == old_out[a] && nv[b] == old_out[b - 1]);
                } else {
                    assert(nv[a] == old_out[a - 1] && nv[b] == old_out[b - 1]);
                }
            }
            vstd::seq_lib::to_multiset_insert(old_out, p as int, ev);
            assert(ev == orig[i]);
            assert(orig.take(i + 1) =~= orig.take(i).push(ev));
            vstd::seq_lib::to_multiset_build(orig.take(i), ev);
            i = i + 1;
        }
    }
    proof {
        assert(orig.take(i) =~= orig);
    }
    out
}

/// Quick open's list: the candidates, then (up to `limit` in all) the other notes that
/// match as a fallback, in path order.
pub open spec fn expand_fold(ns: Seq<NoteModel>, base: Seq<usize>, q: Seq<char>, limit: int, i: nat) -> Seq<usize>
    decreases i,
{
    if i == 0 {
        base
    } else {
        let prev = expand_fold(ns, base, q, limit, (i - 1) as nat);
        let j = (i - 1) as usize;
        if prev.len() >= limit || prev.contains(j) || !fallback_match(ns[i - 1], q) {
            prev
        } else {
            prev.push(j)
        }
    }
}

/// The scored entries of the listed notes that score above zero.
pub open spec fn ranked_of(ns: Seq<NoteModel>, lst: Seq<usize>, q: Seq<char>, qt: Seq<Seq<char>>) -> Seq<(int, Seq<char>)>
    decreases lst.len(),
{
    if lst.len() == 0 {
        Seq::empty()
    } else {
        let prev = ranked_of(ns, lst.drop_last(), q, qt);
        let n = ns[lst.last() as int];
        let sc = note_score(n, q, qt);
        if sc > 0 {
            prev.push((sc, n.path))
        } else {
            prev
        }
    }
}

/// The size of the quick-open list: sixteen per result, between 256 and 4096.
pub open spec fn expansion_limit(max_results: usize) -> int {
    let m = sat(max_results * 16);
    if m < 256 { 256 } else if m > 4096 { 4096 } else { m }
}

/// The quick-open answer: `max_results` of the `ranked` entries in ranking order (with
/// shorter paths first on equal scores).
pub open spec fn top_paths(ranked: Seq<(int, Seq<char>)>, max_results: usize, r: Seq<Seq<char>>) -> bool {
    exists|s: Seq<(int, Seq<char>)>|
        rank_sorted(true, s) && s.to_multiset() == ranked.to_multiset() && r == s.take(
            if s.len() < max_results { s.len() as int } else { max_results as int },
        ).map_values(|e: (int, Seq<char>)| e.1)
}

proof fn lemma_expand_fold_distinct(ns: Seq<NoteModel>, base: Seq<usize>, q: Seq<char>, limit: int, i: nat)
    requires
        increasing_below(base, ns.len() as int),
    ensures
        forall|a: int, b: int|
            0 <= a < b < expand_fold(ns, base, q, limit, i).len() ==> #[trigger] expand_fold(ns, base, q, limit, i)[a]
                != #[trigger] expand_fold(ns, base, q, limit, i)[b],
    decreases i,
{
    if i > 0 {
        lemma_expand_fold_distinct(ns, base, q, limit, (i - 1) as nat);
        let prev = expand_fold(ns, base, q, limit, (i - 1) as nat);
        let e = expand_fold(ns, base, q, limit, i);
        assert forall|a: int, b: int| 0 <= a < b < e.len() implies #[trigger] e[a] != #[trigger] e[b] by {
            if b == prev.len() && e.len() == prev.len() + 1 {
                assert(e[a] == prev[a]);
                assert(prev.contains(prev[a]));
            } else {
                assert(e[a] == prev[a] && e[b] == prev[b]);
            }
        }
    }
}

/// The score of the note at path `p` for a query and its tokens (0 where no note has that path).
pub open spec fn path_score(ns: Seq<NoteModel>, p: Seq<char>, q: Seq<char>, qt: Seq<Seq<char>>) -> int {
    match position_of(ns, p) {
        Some(i) => note_score(ns[i], q, qt),
        None => 0,
    }
}

proof fn lemma_path_score_at(ns: Seq<NoteModel>, i: int, q: Seq<char>, qt: Seq<Seq<char>>)
    requires
        strictly_sorted(note_paths_of(ns)),
        0 <= i < ns.len(),
    ensures
        path_score(ns, ns[i].path, q, qt) == note_score(ns[i], q, qt),
{
    assert(ns[i].path == ns[i].path);
    let j = choose|j: int| 0 <= j < ns.len() && #[trigger] ns[j].path == ns[i].path;
    lemma_distinct_paths(ns, i, j);
}

proof fn lemma_ranked_of_entry(ns: Seq<NoteModel>, lst: Seq<usize>, q: Seq<char>, qt: Seq<Seq<char>>, e: (int, Seq<char>))
    requires
        ranked_of(ns, lst, q, qt).contains(e),
    ensures
        exists|a: int| #![trigger lst[a]] 0 <= a < lst.len() && e == (note_score(ns[lst[a] as int], q, qt), ns[lst[a] as int].path),
    decreases lst.len(),
{
    let prev = ranked_of(ns, lst.drop_last(), q, qt);
    let r = ranked_of(ns, lst, q, qt);
    let m = choose|m: int| 0 <= m < r.len() && r[m] == e;
    assert(lst.last() == lst[lst.len() - 1]);
    if m < prev.len() {
        assert(r[m] == prev[m]);
        assert(prev.contains(e));
        lemma_ranked_of_entry(ns, lst.drop_last(), q, qt, e);
        let a = choose|a: int| #![trigger lst.drop_last()[a]] 0 <= a < lst.drop_last().len() && e == (note_score(ns[lst.drop_last()[a] as int], q, qt), ns[lst.drop_last()[a] as int].path);
        assert(lst.drop_last()[a] == lst[a]);
    }
}

/// Quick open lists the best first: of two listed paths the earlier never scores lower (on
/// equal scores it is no longer in bytes, and on equal lengths it comes first in path order),
/// no scored entry scores above the first listed path, and an entry left out scores no higher
/// than any listed path.
pub proof fn law_quick_open_best_first(
    ns: Seq<NoteModel>,
    lst: Seq<usize>,
    q: Seq<char>,
    qt: Seq<Seq<char>>,
    max_results: usize,
    r: Seq<Seq<char>>,
)
    requires
        strictly_sorted(note_paths_of(ns)),
        forall|a: int| 0 <= a < lst.len() ==> #[trigger] lst[a] < ns.len(),
        top_paths(ranked_of(ns, lst, q, qt), max_results, r),
    ensures
        forall|a: int, b: int| 0 <= a < b < r.len() ==> path_score(ns, #[trigger] r[a], q, qt) >= path_score(ns, #[trigger] r[b], q, qt),
        forall|a: int, b: int|
            0 <= a < b < r.len() && path_score(ns, #[trigger] r[a], q, qt) == path_score(ns, #[trigger] r[b], q, qt) ==> byte_len(r[a])
                <= byte_len(r[b]) && (byte_len(r[a]) == byte_len(r[b]) ==> !lex_lt(r[b], r[a])),
        forall|e: (int, Seq<char>)|
            r.len() > 0 && #[trigger] ranked_of(ns, lst, q, qt).contains(e) ==> e.0 <= path_score(ns, r[0], q, qt),
        forall|e: (int, Seq<char>), a: int|
            #![trigger ranked_of(ns, lst, q, qt).contains(e), r[a]]
            ranked_of(ns, lst, q, qt).contains(e) && !r.contains(e.1) && 0 <= a < r.len() ==> e.0 <= path_score(ns, r[a], q, qt),
{
    let cands = ranked_of(ns, lst, q, qt);
    let s = choose|s: Seq<(int, Seq<char>)>|
        rank_sorted(true, s) && s.to_multiset() == cands.to_multiset() && r == s.take(
            if s.len() < max_results { s.len() as int } else { max_results as int },
        ).map_values(|e: (int, Seq<char>)| e.1);
    s.to_multiset_ensures();
    cands.to_multiset_ensures();
    assert forall|a: int| 0 <= a < r.len() implies #[trigger] r[a] == s[a].1 && path_score(ns, r[a], q, qt) == s[a].0 by {
        assert(s.contains(s[a]));
        assert(s.to_multiset().count(s[a]) > 0);
        assert(cands.contains(s[a]));
        lemma_ranked_of_entry(ns, lst, q, qt, s[a]);
        let k = choose|k: int| #![trigger lst[k]] 0 <= k < lst.len() && s[a] == (note_score(ns[lst[k] as int], q, qt), ns[lst[k] as int].path);
        lemma_path_score_at(ns, lst[k] as int, q, qt);
    }
    assert forall|a: int, b: int| 0 <= a < b < r.len() implies path_score(ns, #[trigger] r[a], q, qt) >= path_score(ns, #[trigger] r[b], q, qt) by {
        assert(!rank_lt(true, s[b], s[a]));
    }
    assert forall|a: int, b: int|
        0 <= a < b < r.len() && path_score(ns, #[trigger] r[a], q, qt) == path_score(ns, #[trigger] r[b], q, qt) implies byte_len(r[a])
            <= byte_len(r[b]) && (byte_len(r[a]) == byte_len(r[b]) ==> !lex_lt(r[b], r[a])) by {
        assert(!rank_lt(true, s[b], s[a]));
    }
    assert forall|e: (int, Seq<char>), a: int|
        #![trigger cands.contains(e), r[a]]
        cands.contains(e) && 0 <= a < r.len() && (a == 0 || !r.contains(e.1)) implies e.0 <= path_score(ns, r[a], q, qt) by {
        assert(cands.to_multiset().count(e) > 0);
        assert(s.contains(e));
        let m = choose|m: int| 0 <= m < s.len() && s[m] == e;
        if m < r.len() {
            assert(r[m] == e.1);
            if a != 0 {
                assert(r.contains(e.1));
            }
        }
        if m != a {
            assert(!rank_lt(true, s[m], s[a]));
        }
    }
    assert forall|e: (int, Seq<char>)| r.len() > 0 && #[trigger] cands.contains(e) implies e.0 <= path_score(ns, r[0], q, qt) by {
        assert(r[0] == r[0]);
    }
}

proof fn lemma_quick_open_best_first_strings(
    ns: Seq<NoteModel>,
    lst: Seq<usize>,
    q: Seq<char>,
    qt: Seq<Seq<char>>,
    max_results: usize,
    r: Seq<String>,
)
    requires
        strictly_sorted(note_paths_of(ns)),
        forall|a: int| 0 <= a < lst.len() ==> #[trigger] lst[a] < ns.len(),
        top_paths(ranked_of(ns, lst, q, qt), max_results, sviews(r)),
    ensures
        forall|a: int, b: int| 0 <= a < b < r.len() ==> path_score(ns, #[trigger] r[a]@, q, qt) >= path_score(ns, #[trigger] r[b]@, q, qt),
        forall|a: int, b: int|
            0 <= a < b < r.len() && path_score(ns, #[trigger] r[a]@, q, qt) == path_score(ns, #[trigger] r[b]@, q, qt) ==> byte_len(r[a]@)
                <= byte_len(r[b]@) && (byte_len(r[a]@) == byte_len(r[b]@) ==> !lex_lt(r[b]@, r[a]@)),
        forall|e: (int, Seq<char>)|
            r.len() > 0 && #[trigger] ranked_of(ns, lst, q, qt).contains(e) ==> e.0 <= path_score(ns, r[0]@, q, qt),
        forall|e: (int, Seq<char>), a: int|
            #![trigger ranked_of(ns, lst, q, qt).contains(e), r[a]]
            ranked_of(ns, lst, q, qt).contains(e) && !sviews(r).contains(e.1) && 0 <= a < r.len() ==> e.0 <= path_score(ns, r[a]@, q, qt),
{
    let rv = sviews(r);
    law_quick_open_best_first(ns, lst, q, qt, max_results, rv);
    assert forall|a: int| 0 <= a < r.len() implies #[trigger] rv[a] == r[a]@ by {}
    assert forall|a: int, b: int| 0 <= a < b < r.len() implies path_score(ns, #[trigger] r[a]@, q, qt) >= path_score(ns, #[trigger] r[b]@, q, qt) by {
        assert(rv[a] == r[a]@ && rv[b] == r[b]@);
    }
    assert forall|a: int, b: int|
        0 <= a < b < r.len() && path_score(ns, #[trigger] r[a]@, q, qt) == path_score(ns, #[trigger] r[b]@, q, qt) implies byte_len(r[a]@)
            <= byte_len(r[b]@) && (byte_len(r[a]@) == byte_len(r[b]@) ==> !lex_lt(r[b]@, r[a]@)) by {
        assert(rv[a] == r[a]@ && rv[b] == r[b]@);
    }
    assert forall|e: (int, Seq<char>), a: int|
        #![trigger ranked_of(ns, lst, q, qt).contains(e), r[a]]
        ranked_of(ns, lst, q, qt).contains(e) && !rv.contains(e.1) && 0 <= a < r.len() implies e.0 <= path_score(ns, r[a]@, q, qt) by {
        assert(rv[a] == r[a]@);
    }
    assert forall|e: (int, Seq<char>)| r.len() > 0 && #[trigger] ranked_of(ns, lst, q, qt).contains(e) implies e.0 <= path_score(ns, r[0]@, q, qt) by {
        assert(rv[0] == r[0]@);
    }
}

impl KnowledgeIndex {
    fn expand_candidates(&self, base: Vec<usize>, q: &[char], limit: usize) -> (r: Vec<usize>)
        requires
            self.wf(),
            increasing_below(base@, self.notes().len() as int),
        ensures
            r@ == expand_fold(self.notes(), base@, q@, limit as int, self.notes().len() as nat),
            forall|a: int| 0 <= a < r@.len() ==> #[trigger] r@[a] < self.notes().len(),
    {
        let ghost ns = self.notes();
        let mut lst = base;
        let mut in_list: Vec<bool> = Vec::new();
        let mut k: usize = 0;
        while k < self.notes.len()
            invariant
                k <= self.notes.len(),
                in_list.len() == k,
                forall|m: int| 0 <= m < k ==> in_list@[m] == false,
            decreases self.notes.len() - k,
        {
            in_list.push(false);
            k += 1;
        }
        let mut a: usize = 0;
        while a < lst.len()
            invariant
                a <= lst.len(),
                lst@ == base@,
                in_list.len() == self.notes.len(),
                increasing_below(base@, self.notes().len() as int),
                forall|m: int| 0 <= m < self.notes.len() ==> in_list@[m] == lst@.take(a as int).contains(m as usize),
            decreases lst.len() - a,
        {
            let ghost before = in_list@;
            let idx = lst[a];
            in_list.set(idx, true);
            proof {
                assert forall|m: int| 0 <= m < self.notes.len() implies in_list@[m] == lst@.take(a + 1).contains(m as usize) by {
                    assert(lst@.take(a + 1) =~= lst@.take(a as int).push(idx));
                    if m != idx {
                        assert(in_list@[m] == before[m]);
                        if lst@.take(a + 1).contains(m as usize) {
                            let t = choose|t: int| 0 <= t < a + 1 && #[trigger] lst@.take(a + 1)[t] == m as usize;
                            assert(lst@.take(a as int)[t] == m as usize);
                        }
                        if lst@.take(a as int).contains(m as usize) {
                            let t = choose|t: int| 0 <= t < a && #[trigger] lst@.take(a as int)[t] == m as usize;
                            assert(lst@.take(a + 1)[t] == m as usize);
                        }
                    } else {
                        assert(lst@.take(a + 1)[a as int] == m as usize);
                    }
                }
            }
            a += 1;
        }
        assert(lst@.take(lst.len() as int) =~= lst@);
        let mut i: usize = 0;
        while i < self.notes.len()
            invariant
                i <= self.notes.len(),
                ns == self.notes(),
                in_list.len() == self.notes.len(),
                forall|m: int| 0 <= m < self.notes.len() ==> in_list@[m] == lst@.contains(m as usize),
                forall|a: int| 0 <= a < lst@.len() ==> #[trigger] lst@[a] < self.notes().len(),
                lst@ == expand_fold(ns, base@, q@, limit as int, i as nat),
            decreases self.notes.len() - i,
        {
            let ghost prev = lst@;
            if lst.len() < limit && !in_list[i] && fallback_match_exec(&self.notes[i], q) {
                lst.push(i);
                in_list.set(i, true);
                proof {
                    assert forall|m: int| 0 <= m < self.notes.len() implies in_list@[m] == lst@.contains(m as usize) by {
                        if m == i {
                            assert(lst@[prev.len() as int] == i);
                        } else {
                            if lst@.contains(m as usize) {
                                let a = choose|a: int| 0 <= a < lst@.len() && lst@[a] == m as usize;
                                assert(a < prev.len());
                                assert(prev[a] == m as usize);
                            }
                            if prev.contains(m as usize) {
                                let a = choose|a: int| 0 <= a < prev.len() && prev[a] == m as usize;
                                assert(lst@[a] == m as usize);
                            }
                        }
                    }
                }
            }
            assert(ns[i as int] == self.notes@[i as int]@);
            i += 1;
        }
        lst
    }

    /// The paths that quick open offers for `query`: without a query the first paths in
    /// order; else the candidates and fallback matches (see `expand_fold`), scored, in ranking
    /// order, at most `max_results`.
    pub fn quick_open_paths(&self, query: &str, max_results: usize) -> (r: Vec<String>)
        requires
            self.wf(),
        ensures
            max_results == 0 ==> r@.len() == 0,
            max_results > 0 && trim(query@).len() == 0 ==> sviews(r@) == note_paths_of(self.notes()).take(
                if self.notes().len() < max_results { self.notes().len() as int } else { max_results as int },
            ),
            max_results > 0 && trim(query@).len() > 0 ==> ({
                let ql = unicode_lower(trim(query@));
                let qt = tokens_of(ql);
                let ns = self.notes();
                exists|base: Seq<usize>|
                    pick(ns, base) == candidates(ns, ql, qt) && increasing_below(base, ns.len() as int) && top_paths(
                        ranked_of(ns, expand_fold(ns, base, ql, expansion_limit(max_results), ns.len() as nat), ql, qt),
                        max_results,
                        sviews(r@),
                    ) && (forall|e: (int, Seq<char>)|
                        r@.len() > 0 && #[trigger] ranked_of(ns, expand_fold(ns, base, ql, expansion_limit(max_results), ns.len() as nat), ql, qt).contains(e)
                            ==> e.0 <= path_score(ns, r@[0]@, ql, qt)) && (forall|e: (int, Seq<char>), a: int|
                        #![trigger ranked_of(ns, expand_fold(ns, base, ql, expansion_limit(max_results), ns.len() as nat), ql, qt).contains(e), r@[a]]
                        ranked_of(ns, expand_fold(ns, base, ql, expansion_limit(max_results), ns.len() as nat), ql, qt).contains(e)
                            && !sviews(r@).contains(e.1) && 0 <= a < r@.len() ==> e.0 <= path_score(ns, r@[a]@, ql, qt))
            }),
            max_results > 0 && trim(query@).len() > 0 ==> ({
                let ql = unicode_lower(trim(query@));
                let qt = tokens_of(ql);
                forall|a: int, b: int|
                    0 <= a < b < r@.len() ==> path_score(self.notes(), #[trigger] r@[a]@, ql, qt) >= path_score(self.notes(), #[trigger] r@[b]@, ql, qt)
                        && (path_score(self.notes(), r@[a]@, ql, qt) == path_score(self.notes(), r@[b]@, ql, qt) ==> byte_len(r@[a]@)
                        <= byte_len(r@[b]@) && (byte_len(r@[a]@) == byte_len(r@[b]@) ==> !lex_lt(r@[b]@, r@[a]@)))
            }),
            r@.len() <= max_results,
            forall|a: int, b: int| 0 <= a < b < r@.len() ==> #[trigger] r@[a]@ != #[trigger] r@[b]@,
            forall|a: int| 0 <= a < r@.len() ==> note_paths_of(self.notes()).contains(#[trigger] r@[a]@),
    {
        if max_results == 0 {
            return Vec::new();
        }
        let q = trimmed(query);
        if q.len() == 0 {
            let all = self.all_paths_sorted();
            let n = if all.len() < max_results { all.len() } else { max_results };
            let mut r: Vec<String> = Vec::new();
            let mut i: usize = 0;
            while i < n
                invariant
                    i <= n <= all.len(),
                    n <= max_results,
                    sviews(all@) == note_paths_of(self.notes()),
                    self.wf(),
                    sviews(r@) == sviews(all@).take(i as int),
                decreases n - i,
            {
                let ghost before = r@;
                r.push(all[i].clone());
                assert(sviews(r@) =~= sviews(before).push(all@[i as int]@));
                assert(sviews(all@).take(i + 1) =~= sviews(all@).take(i as int).push(all@[i as int]@));
                i += 1;
            }
            proof {
                assert forall|a: int, b: int| 0 <= a < b < r@.len() implies #[trigger] r@[a]@ != #[trigger] r@[b]@ by {
                    assert(r@[a]@ == sviews(r@)[a] && r@[b]@ == sviews(r@)[b]);
                    assert(lex_lt(note_paths_of(self.notes())[a], note_paths_of(self.notes())[b]));
                    lemma_lex_irreflexive(r@[a]@);
                }
                assert forall|a: int| 0 <= a < r@.len() implies note_paths_of(self.notes()).contains(#[trigger] r@[a]@) by {
                    assert(r@[a]@ == sviews(r@)[a]);
                    assert(note_paths_of(self.notes())[a] == r@[a]@);
                }
            }
            return r;
        }
        let qs = string_of(&q);
        let ql_s = to_lowercase(qs.as_str());
        let ql = chars_of(ql_s.as_str());
        let qt = tokenize(ql_s.as_str());
        assert(sviews(qt@) =~= string_views(qt@));
        let base = self.collect_candidates(&ql, &qt);
        let ghost gbase = base@;

        let m16: usize = if max_results <= usize::MAX / 16 { max_results * 16 } else { usize::MAX };
        let limit: usize = if m16 < 256 { 256 } else if m16 > 4096 { 4096 } else { m16 };
        let lst = self.expand_candidates(base, &ql, limit);
        proof {
            lemma_expand_fold_distinct(self.notes(), gbase, ql@, limit as int, self.notes().len() as nat);
        }
        let mut ranked: Vec<(usize, String)> = Vec::new();
        let mut i: usize = 0;
        let ghost ns = self.notes();
        assert(lst@.take(0) =~= Seq::<usize>::empty());
        assert(ranked_views(ranked@) =~= Seq::<(int, Seq<char>)>::empty());
        while i < lst.len()
            invariant
                i <= lst.len(),
                ns == self.notes(),
                self.wf(),
                forall|a: int| 0 <= a < lst@.len() ==> #[trigger] lst@[a] < self.notes().len(),
                forall|a: int, b: int| 0 <= a < b < lst@.len() ==> #[trigger] lst@[a] != #[trigger] lst@[b],
                ranked_views(ranked@) == ranked_of(ns, lst@.take(i as int), ql@, sviews(qt@)),
                forall|m: int| 0 <= m < ranked@.len() ==> exists|a: int| 0 <= a < i && #[trigger] ranked@[m].1@ == ns[lst@[a] as int].path,
                forall|m1: int, m2: int| 0 <= m1 < m2 < ranked@.len() ==> #[trigger] ranked@[m1].1@ != #[trigger] ranked@[m2].1@,
            decreases lst.len() - i,
        {
            proof {
                assert(lst@.take(i + 1).drop_last() =~= lst@.take(i as int));
                assert(lst@.take(i + 1).last() == lst@[i as int]);
            }
            let j = lst[i];
            let n = &self.notes[j];
            assert(ns[j as int] == n@);
            assert(strictly_sorted(sviews(self.notes@[j as int].token_set@)));
            let sc = score_note_for_query(n, &ql, &qt);
            if sc > 0 {
                let ghost before = ranked_views(ranked@);
                let ghost braw = ranked@;
                ranked.push((sc, n.path.clone()));
                assert(ranked_views(ranked@) =~= before.push((sc as int, n@.path)));
                proof {
                    assert forall|m: int| 0 <= m < ranked@.len() implies exists|a: int| 0 <= a < i + 1 && #[trigger] ranked@[m].1@ == ns[lst@[a] as int].path by {
                        if m < braw.len() {
                            assert(ranked@[m] == braw[m]);
                            let a = choose|a: int| 0 <= a < i && #[trigger] braw[m].1@ == ns[lst@[a] as int].path;
                        } else {
                            assert(ranked@[m].1@ == ns[lst@[i as int] as int].path);
                        }
                    }
                    assert forall|m1: int, m2: int| 0 <= m1 < m2 < ranked@.len() implies #[trigger] ranked@[m1].1@ != #[trigger] ranked@[m2].1@ by {
                        assert(ranked@[m1] == braw[m1]);
                        if m2 < braw.len() {
                            assert(ranked@[m2] == braw[m2]);
                        } else {
                            let a = choose|a: int| 0 <= a < i && #[trigger] braw[m1].1@ == ns[lst@[a] as int].path;
                            assert(lst@[a] != lst@[i as int]);
                            if ns[lst@[a] as int].path == ns[lst@[i as int] as int].path {
                                lemma_distinct_paths(ns, lst@[a] as int, lst@[i as int] as int);
                            }
                        }
                    }
                }
            }
            i += 1;
        }
        assert(lst@.take(lst.len() as int) =~= lst@);
        proof {
            assert forall|a: int, b: int| 0 <= a < b < ranked_views(ranked@).len() implies #[trigger] ranked_views(ranked@)[a].1 != #[trigger] ranked_views(ranked@)[b].1 by {
                assert(ranked@[a].1@ != ranked@[b].1@);
            }
        }
        let ghost rv = ranked_views(ranked@);
        let ghost raw = ranked@;
        let sorted = sort_ranked(ranked, true);
        proof {
            lemma_perm_keeps_distinct_paths(rv, ranked_views(sorted@));
            assert forall|x: (int, Seq<char>)| ranked_views(sorted@).contains(x) implies note_paths_of(ns).contains(x.1) by {
                ranked_views(sorted@).to_multiset_ensures();
                rv.to_multiset_ensures();
                assert(ranked_views(sorted@).to_multiset().count(x) > 0);
                assert(rv.contains(x));
                let m = choose|m: int| 0 <= m < rv.len() && rv[m] == x;
                assert(rv[m].1 == raw[m].1@);
                let a = choose|a: int| 0 <= a < lst@.len() && #[trigger] raw[m].1@ == ns[lst@[a] as int].path;
                assert(note_paths_of(ns)[lst@[a] as int] == x.1);
            }
        }
        let n = if sorted.len() < max_results { sorted.len() } else { max_results };
        let mut r: Vec<String> = Vec::new();
        let mut k: usize = 0;
        let ghost sv = ranked_views(sorted@);
        while k < n
            invariant
                k <= n <= sorted.len(),
                sv == ranked_views(sorted@),
                sviews(r@) == sv.take(k as int).map_values(|e: (int, Seq<char>)| e.1),
            decreases n - k,
        {
            let ghost before = r@;
            r.push(sorted[k].1.clone());
            assert(sviews(r@) =~= sviews(before).push(sorted@[k as int].1@));
            assert(sv.take(k + 1).map_values(|e: (int, Seq<char>)| e.1) =~= sv.take(k as int).map_values(|e: (int, Seq<char>)| e.1).push(sv[k as int].1));
            k += 1;
        }
        proof {
            assert(limit as int == expansion_limit(max_results));
            assert(ql@ == unicode_lower(trim(query@)));
            assert forall|a: int| 0 <= a < r@.len() implies #[trigger] r@[a]@ == sv[a].1 by {
                assert(sviews(r@)[a] == r@[a]@);
            }
            assert forall|a: int, b: int| 0 <= a < b < r@.len() implies #[trigger] r@[a]@ != #[trigger] r@[b]@ by {
                assert(r@[a]@ == sv[a].1 && r@[b]@ == sv[b].1);
            }
            assert forall|a: int| 0 <= a < r@.len() implies note_paths_of(self.notes()).contains(#[trigger] r@[a]@) by {
                assert(r@[a]@ == sv[a].1);
                assert(sv.contains(sv[a]));
            }
            let gql = unicode_lower(trim(query@));
            let gqt = tokens_of(gql);
            assert(sviews(qt@) == gqt);
            assert(top_paths(ranked_of(ns, lst@, gql, gqt), max_results, sviews(r@)));
            lemma_quick_open_best_first_strings(ns, lst@, gql, gqt, max_results, r@);
            assert(lst@ == expand_fold(ns, gbase, gql, expansion_limit(max_results), ns.len() as nat));
        }
        r
    }
}

// ---------------------------------------------------------------------------
// Links
// ---------------------------------------------------------------------------
/// The names a link may mean, in the order they are tried: the link, with `.md` added, its
/// last segment, and that without `.md`.
pub open spec fn link_candidates(q: Seq<char>) -> Seq<Seq<char>> {
    let fname = last_segment(q);
    seq![q] + (if !has_suffix(q, ".md"@) { seq![q + ".md"@] } else { Seq::empty() }) + seq![fname] + (if has_suffix(
        fname,
        ".md"@,
    ) {
        seq![fname.take(fname.len() - 3)]
    } else {
        Seq::empty()
    })
}

/// A note that a link name `c` may mean: by path, path ending, title, file name or stem.
pub open spec fn link_matches(n: NoteModel, c: Seq<char>) -> bool {
    n.path_lower == c || has_suffix(n.path_lower, "/"@ + c) || n.title_lower == c || (has_char(n.path_lower, '/')
        && (last_segment(n.path_lower) == c || trim_suffix_all(last_segment(n.path_lower), ".md"@) == c))
}

pub open spec fn first_match(ns: Seq<NoteModel>, c: Seq<char>) -> Option<int>
    decreases ns.len(),
{
    if ns.len() == 0 {
        None
    } else if link_matches(ns[0], c) {
        Some(0)
    } else {
        match first_match(ns.drop_first(), c) {
            Some(i) => Some(i + 1),
            None => None,
        }
    }
}

/// The note the first name that means one refers to: a note at exactly that (normalized)
/// path, else the first note in path order that the name matches.
pub open spec fn resolve_in(ns: Seq<NoteModel>, cands: Seq<Seq<char>>) -> Option<Seq<char>>
    decreases cands.len(),
{
    if cands.len() == 0 {
        None
    } else {
        match resolve_one(ns, cands[0]) {
            Some(p) => Some(p),
            None => resolve_in(ns, cands.drop_first()),
        }
    }
}

/// The note one name refers to, if any.
pub open spec fn resolve_one(ns: Seq<NoteModel>, c: Seq<char>) -> Option<Seq<char>> {
    let exact = match spec_normalize_vault_rel_path(c) {
        Ok(p) => if position_of(ns, p) is Some { Some(p) } else { None },
        Err(_) => None,
    };
    match exact {
        Some(p) => Some(p),
        None => match first_match(ns, c) {
            Some(i) => Some(ns[i].path),
            None => None,
        },
    }
}

proof fn lemma_first_match_range(ns: Seq<NoteModel>, c: Seq<char>)
    ensures
        first_match(ns, c) matches Some(i) ==> 0 <= i < ns.len(),
    decreases ns.len(),
{
    if ns.len() > 0 {
        lemma_first_match_range(ns.drop_first(), c);
    }
}

impl KnowledgeIndex {
    fn link_matches_exec(n: &IndexedNote, c: &[char]) -> (b: bool)
        ensures
            b == link_matches(n@, c@),
    {
        proof {
            reveal_strlit("/");
        }
        let pl = chars_of(n.path_lower.as_str());
        let tl = chars_of(n.title_lower.as_str());
        if seq_eq(&pl, c) {
            return true;
        }
        let mut slash_c = chars_of("/");
        push_all(&mut slash_c, c);
        if ends_with(&pl, &slash_c) {
            return true;
        }
        if seq_eq(&tl, c) {
            return true;
        }
        match rfind_char(&pl, '/') {
            None => {
                assert(!has_char(pl@, '/'));
                false
            },
            Some(_) => {
                let file = last_segment_exec(&pl);
                let stem = trim_suffix_all_exec(&file, ".md");
                seq_eq(&file, c) || seq_eq(&stem, c)
            },
        }
    }

    fn first_match_exec(&self, c: &[char]) -> (r: Option<usize>)
        ensures
            r matches Some(i) ==> i < self.notes().len() && first_match(self.notes(), c@) == Some(i as int),
            r is None ==> first_match(self.notes(), c@) is None,
    {
        let ghost ns = self.notes();
        let mut i: usize = 0;
        assert(ns.skip(0) =~= ns);
        while i < self.notes.len()
            invariant
                i <= self.notes.len(),
                ns == self.notes(),
                first_match(ns, c@) == match first_match(ns.skip(i as int), c@) {
                    Some(k) => Some(k + i),
                    None => None::<int>,
                },
            decreases self.notes.len() - i,
        {
            proof {
                assert(ns.skip(i as int)[0] == ns[i as int]);
                assert(ns.skip(i as int).drop_first() =~= ns.skip(i + 1));
                assert(ns[i as int] == self.notes@[i as int]@);
            }
            if KnowledgeIndex::link_matches_exec(&self.notes[i], c) {
                return Some(i);
            }
            i += 1;
        }
        None
    }

    #[verifier::spinoff_prover]
    fn resolve_one_exec(&self, c: &Vec<char>) -> (r: Option<String>)
        requires
            self.wf(),
        ensures
            match resolve_one(self.notes(), c@) {
                Some(p) => r matches Some(s) && s@ == p,
                None => r is None,
            },
    {
        let cs = string_of(c);
        let ghost ns = self.notes();
        let ghost exact = match spec_normalize_vault_rel_path(c@) {
            Ok(p) => if position_of(ns, p) is Some { Some(p) } else { None },
            Err(_) => None,
        };
        match normalize_vault_rel_path(cs.as_str()) {
            Ok(p) => {
                match self.find(&p) {
                    Some(_) => {
                        assert(exact == Some(p@));
                        return Some(p);
                    },
                    None => {
                        assert(exact is None);
                    },
                }
            },
            Err(_) => {
                assert(exact is None);
            },
        }
        proof {
            lemma_first_match_range(self.notes(), c@);
        }
        match self.first_match_exec(c) {
            Some(k) => {
                assert(self.notes()[k as int] == self.notes@[k as int]@);
                assert(first_match(ns, c@) == Some(k as int));
                assert(resolve_one(ns, c@) == Some(ns[k as int].path));
                Some(self.notes[k].path.clone())
            },
            None => {
                assert(first_match(ns, c@) is None);
                None
            },
        }
    }

    /// The path of the note a wiki link refers to (see `resolve_in` and `link_candidates`),
    /// compared in lower case.
    #[verifier::spinoff_prover]
    pub fn resolve_link_target(&self, raw_link: &str) -> (r: Option<String>)
        requires
            self.wf(),
        ensures
            trim(raw_link@).len() == 0 ==> r is None,
            trim(raw_link@).len() > 0 ==> match resolve_in(self.notes(), link_candidates(unicode_lower(trim(raw_link@)))) {
                Some(p) => r matches Some(s) && s@ == p,
                None => r is None,
            },
    {
        proof {
            reveal_strlit(".md");
        }
        let q = trimmed(raw_link);
        if q.len() == 0 {
            return None;
        }
        let qs = string_of(&q);
        let ql_s = to_lowercase(qs.as_str());
        let ql = chars_of(ql_s.as_str());
        let mut cands: Vec<Vec<char>> = Vec::new();
        let c0 = slice_of(&ql, 0, ql.len());
        assert(c0@ =~= ql@);
        cands.push(c0);
        let ghost a = if !has_suffix(ql@, ".md"@) { seq![ql@ + ".md"@] } else { Seq::<Seq<char>>::empty() };
        assert(views(cands@) =~= seq![ql@]);
        if !ends_with_str(&ql, ".md") {
            let mut c = slice_of(&ql, 0, ql.len());
            push_str(&mut c, ".md");
            let ghost before = views(cands@);
            cands.push(c);
            assert(views(cands@) =~= before.push(ql@ + ".md"@));
        }
        assert(views(cands@) =~= seq![ql@] + a);
        let fname = last_segment_exec(&ql);
        let ghost before2 = views(cands@);
        let f0 = slice_of(&fname, 0, fname.len());
        assert(f0@ =~= fname@);
        cands.push(f0);
        assert(views(cands@) =~= before2.push(fname@));
        let ghost b = if has_suffix(fname@, ".md"@) { seq![fname@.take(fname@.len() - 3)] } else { Seq::<Seq<char>>::empty() };
        let ghost before3 = views(cands@);
        if ends_with_str(&fname, ".md") {
            cands.push(slice_of(&fname, 0, fname.len() - 3));
            assert(views(cands@) =~= before3.push(fname@.take(fname@.len() - 3)));
        }
        let ghost cv = views(cands@);
        assert(cv =~= seq![ql@] + a + seq![fname@] + b);
        assert(cv =~= link_candidates(ql@));
        let mut i: usize = 0;
        assert(cv.skip(0) =~= cv);
        while i < cands.len()
            invariant
                i <= cands.len(),
                cv == views(cands@),
                self.wf(),
                trim(raw_link@).len() > 0,
                cv == link_candidates(unicode_lower(trim(raw_link@))),
                resolve_in(self.notes(), cv) == resolve_in(self.notes(), cv.skip(i as int)),
            decreases cands.len() - i,
        {
            proof {
                assert(cv.skip(i as int)[0] == cands@[i as int]@);
                assert(cv.skip(i as int).drop_first() =~= cv.skip(i + 1));
            }
            match self.resolve_one_exec(&cands[i]) {
                Some(p) => {
                    return Some(p);
                },
                None => {},
            }
            i += 1;
        }
        None
    }
}

/// The names by which other notes may link to `t`: its lower-case path, file name, stem and
/// title.
pub open spec fn link_targets(t: NoteModel) -> Set<Seq<char>> {
    let fname = last_segment(t.path_lower);
    set![t.path_lower, fname, trim_suffix_all(fname, ".md"@), t.title_lower]
}

pub open spec fn link_hits(ts: Set<Seq<char>>, l: Seq<char>) -> bool {
    let lt = trim(l);
    ts.contains(lt) || ts.contains(trim_suffix_all(lt, ".md"@)) || ts.contains(last_segment(lt))
}

/// `n` is another note with a link to `t`.
pub open spec fn links_to(n: NoteModel, t: NoteModel) -> bool {
    n.path != t.path && exists|i: int| 0 <= i < n.links_lower.len() && link_hits(link_targets(t), #[trigger] n.links_lower[i])
}

pub open spec fn backlink_pred(t: NoteModel) -> spec_fn(NoteModel) -> bool {
    |n: NoteModel| links_to(n, t)
}

proof fn lemma_last_segment_after_slash(pre: Seq<char>, name: Seq<char>)
    requires
        !has_char(name, '/'),
    ensures
        last_segment(pre + seq!['/'] + name) == name,
{
    let l = pre + seq!['/'] + name;
    let p = pre.len() as int;
    assert(l[p] == '/');
    assert(has_char(l, '/'));
    assert forall|j: int| p < j < l.len() implies l[j] != '/' by {
        assert(l[j] == name[j - p - 1]);
    }
    let s = crate::watch::last_slash(l);
    assert(0 <= s < l.len() && l[s] == '/' && forall|j: int| s < j < l.len() ==> l[j] != '/');
    if s > p {
        assert(l[s] == name[s - p - 1]);
    }
    assert(s == p);
    assert(l.skip(p + 1) =~= name);
}

/// A note links to a target when one of its links, trimmed, ends in `/` and the target's file
/// name, stem or lower-case title (with no `/` in it): the link is matched by its last path
/// segment. Such a note is among the target's backlinks, and it is listed whenever the
/// backlinks fit in the cap.
#[verifier::spinoff_prover]
pub proof fn law_backlink_by_last_segment(
    ns: Seq<NoteModel>,
    ti: int,
    j: int,
    k: int,
    pre: Seq<char>,
    name: Seq<char>,
    cap: int,
)
    requires
        0 <= ti < ns.len(),
        0 <= j < ns.len(),
        ns[j].path != ns[ti].path,
        0 <= k < ns[j].links_lower.len(),
        name == last_segment(ns[ti].path_lower) || name == trim_suffix_all(last_segment(ns[ti].path_lower), ".md"@)
            || name == ns[ti].title_lower,
        !has_char(name, '/'),
        trim(ns[j].links_lower[k]) == pre + seq!['/'] + name,
    ensures
        links_to(ns[j], ns[ti]),
        ns.filter(backlink_pred(ns[ti])).contains(ns[j]),
        ns.filter(backlink_pred(ns[ti])).len() <= cap ==> note_paths_of(
            ns.filter(backlink_pred(ns[ti])).take(
                if ns.filter(backlink_pred(ns[ti])).len() < cap { ns.filter(backlink_pred(ns[ti])).len() as int } else { cap },
            ),
        ).contains(ns[j].path),
{
    let t = ns[ti];
    let l = ns[j].links_lower[k];
    assert(link_hits(link_targets(t), l)) by {
        lemma_last_segment_after_slash(pre, name);
        assert(link_targets(t).contains(name));
    }
    assert(links_to(ns[j], t));
    let pred = backlink_pred(t);
    assert(pred(ns[j]));
    ns.lemma_filter_contains(pred, j);
    let hits = ns.filter(pred);
    if hits.len() <= cap {
        let m = choose|m: int| 0 <= m < hits.len() && hits[m] == ns[j];
        assert(hits.take(hits.len() as int) =~= hits);
        assert(note_paths_of(hits)[m] == ns[j].path);
    }
}

/// A note links to a target when one of its links, trimmed (or trimmed and without its
/// trailing `.md`), is the target's lower-case path, file name, stem or lower-case title.
pub proof fn law_backlink_by_name(ns: Seq<NoteModel>, ti: int, j: int, k: int, name: Seq<char>)
    requires
        0 <= ti < ns.len(),
        0 <= j < ns.len(),
        ns[j].path != ns[ti].path,
        0 <= k < ns[j].links_lower.len(),
        name == ns[ti].path_lower || name == last_segment(ns[ti].path_lower) || name == trim_suffix_all(
            last_segment(ns[ti].path_lower),
            ".md"@,
        ) || name == ns[ti].title_lower,
        trim(ns[j].links_lower[k]) == name || trim_suffix_all(trim(ns[j].links_lower[k]), ".md"@) == name,
    ensures
        links_to(ns[j], ns[ti]),
        ns.filter(backlink_pred(ns[ti])).contains(ns[j]),
{
    assert(link_targets(ns[ti]).contains(name));
    assert(link_hits(link_targets(ns[ti]), ns[j].links_lower[k]));
    let pred = backlink_pred(ns[ti]);
    assert(pred(ns[j]));
    ns.lemma_filter_contains(pred, j);
}

/// A note is never among its own backlinks: every backlink of `t` is a note at another path
/// that has a link.
pub proof fn law_backlinks_exclude_target(ns: Seq<NoteModel>, t: NoteModel)
    ensures
        forall|m: int|
            0 <= m < ns.filter(backlink_pred(t)).len() ==> (#[trigger] ns.filter(backlink_pred(t))[m]).path != t.path
                && ns.filter(backlink_pred(t))[m].links_lower.len() > 0,
{
    let pred = backlink_pred(t);
    assert forall|m: int| 0 <= m < ns.filter(pred).len() implies (#[trigger] ns.filter(pred)[m]).path != t.path
        && ns.filter(pred)[m].links_lower.len() > 0 by {
        ns.lemma_filter_pred(pred, m);
    }
}

impl KnowledgeIndex {
    fn is_target(t: &Vec<Vec<char>>, x: &[char]) -> (b: bool)
        requires
            t.len() == 4,
        ensures
            b == (x@ == t@[0]@ || x@ == t@[1]@ || x@ == t@[2]@ || x@ == t@[3]@),
    {
        seq_eq(x, &t[0]) || seq_eq(x, &t[1]) || seq_eq(x, &t[2]) || seq_eq(x, &t[3])
    }

    fn links_to_exec(n: &IndexedNote, target: &IndexedNote, ts: &Vec<Vec<char>>) -> (b: bool)
        requires
            ts.len() == 4,
            link_targets(target@) == set![ts@[0]@, ts@[1]@, ts@[2]@, ts@[3]@],
        ensures
            b == links_to(n@, target@),
    {
        proof {
            reveal_strlit(".md");
        }
        if string_eq(&n.path, &target.path) {
            return false;
        }
        let ghost tset = link_targets(target@);
        let mut i: usize = 0;
        while i < n.links_lower.len()
            invariant
                i <= n.links_lower.len(),
                ts.len() == 4,
                tset == set![ts@[0]@, ts@[1]@, ts@[2]@, ts@[3]@],
                tset == link_targets(target@),
                n@.path != target@.path,
                forall|k: int| 0 <= k < i ==> !link_hits(tset, #[trigger] n@.links_lower[k]),
            decreases n.links_lower.len() - i,
        {
            let l = chars_of(n.links_lower[i].as_str());
            let lt = trim_chars(&l);
            let st = trim_suffix_all_exec(&lt, ".md");
            let seg = last_segment_exec(&lt);
            assert(n@.links_lower[i as int] == l@);
            let b1 = KnowledgeIndex::is_target(ts, &lt);
            let b2 = KnowledgeIndex::is_target(ts, &st);
            let b3 = KnowledgeIndex::is_target(ts, &seg);
            assert(b1 == tset.contains(lt@));
            assert(b2 == tset.contains(st@));
            assert(b3 == tset.contains(seg@));
            if b1 || b2 || b3 {
                assert(link_hits(tset, n@.links_lower[i as int]));
                return true;
            }
            i += 1;
        }
        false
    }

    /// The notes (at most `max_items`, at least one) that link to the note at `note_path`,
    /// in path order.
    #[verifier::spinoff_prover]
    pub fn backlinks_for(&self, note_path: &str, max_items: usize) -> (r: Vec<String>)
        requires
            self.wf(),
        ensures
            match spec_normalize_vault_rel_path(note_path@) {
                Err(_) => r@.len() == 0,
                Ok(p) => match position_of(self.notes(), p) {
                    None => r@.len() == 0,
                    Some(i) => {
                        let hits = self.notes().filter(backlink_pred(self.notes()[i]));
                        let cap: int = if max_items >= 1 { max_items as int } else { 1 };
                        sviews(r@) == note_paths_of(hits.take(if hits.len() < cap { hits.len() as int } else { cap }))
                    },
                },
            },
    {
        proof {
            reveal_strlit(".md");
        }
        let path = match normalize_vault_rel_path(note_path) {
            Ok(p) => p,
            Err(_) => {
                return Vec::new();
            },
        };
        let ti = match self.find(&path) {
            Some(i) => i,
            None => {
                return Vec::new();
            },
        };
        let ghost ns = self.notes();
        let target = &self.notes[ti];
        assert(ns[ti as int] == target@);
        let pl = chars_of(target.path_lower.as_str());
        let fname = last_segment_exec(&pl);
        let stem = trim_suffix_all_exec(&fname, ".md");
        let tl = chars_of(target.title_lower.as_str());
        let mut ts: Vec<Vec<char>> = Vec::new();
        ts.push(pl);
        ts.push(fname);
        ts.push(stem);
        ts.push(tl);
        assert(link_targets(target@) =~= set![ts@[0]@, ts@[1]@, ts@[2]@, ts@[3]@]);
        let cap: usize = if max_items >= 1 { max_items } else { 1 };
        let ghost pred = backlink_pred(target@);
        let mut out: Vec<String> = Vec::new();
        let mut i: usize = 0;
        assert(ns.take(0) =~= Seq::<NoteModel>::empty());
        assert(sviews(out@) =~= Seq::<Seq<char>>::empty());
        proof {
            reveal(Seq::filter);
        }
        while i < self.notes.len()
            invariant
                i <= self.notes.len(),
                ns == self.notes(),
                ts.len() == 4,
                link_targets(target@) == set![ts@[0]@, ts@[1]@, ts@[2]@, ts@[3]@],
                pred == backlink_pred(target@),
                ti < self.notes.len(),
                target@ == ns[ti as int],
                spec_normalize_vault_rel_path(note_path@) == Ok::<Seq<char>, PathError>(path@),
                position_of(ns, path@) == Some(ti as int),
                cap == (if max_items >= 1 { max_items } else { 1 }),
                cap >= 1,
                out@.len() < cap,
                sviews(out@) == note_paths_of(ns.take(i as int).filter(pred)),
            decreases self.notes.len() - i,
        {
            proof {
                assert(ns.take(i + 1).drop_last() =~= ns.take(i as int));
                assert(ns.take(i + 1).last() == ns[i as int]);
                assert(ns[i as int] == self.notes@[i as int]@);
                reveal(Seq::filter);
            }
            let hit = KnowledgeIndex::links_to_exec(&self.notes[i], target, &ts);
            if hit {
                let ghost before = sviews(out@);
                out.push(self.notes[i].path.clone());
                assert(sviews(out@) =~= before.push(ns[i as int].path));
                assert(ns.take(i + 1).filter(pred) == ns.take(i as int).filter(pred).push(ns[i as int]));
                assert(note_paths_of(ns.take(i + 1).filter(pred)) =~= note_paths_of(ns.take(i as int).filter(pred)).push(ns[i as int].path));
                if out.len() >= cap {
                    proof {
                        lemma_filter_prefix_take(ns, pred, i + 1, cap as int);
                    }
                    return out;
                }
            } else {
                assert(ns.take(i + 1).filter(pred) == ns.take(i as int).filter(pred));
            }
            i += 1;
        }
        assert(ns.take(self.notes.len() as int) =~= ns);
        assert(ns.filter(pred).take(ns.filter(pred).len() as int) =~= ns.filter(pred));
        out
    }
}

/// Once a prefix's filtered list reaches `cap`, the first `cap` of the whole filtered list
/// are the prefix's.
proof fn lemma_filter_prefix_take(ns: Seq<NoteModel>, pred: spec_fn(NoteModel) -> bool, j: int, cap: int)
    requires
        0 <= j <= ns.len(),
        ns.take(j).filter(pred).len() == cap,
    ensures
        ns.filter(pred).take(cap) == ns.take(j).filter(pred),
        cap <= ns.filter(pred).len(),
    decreases ns.len() - j,
{
    lemma_filter_prefix(ns, pred, j);
    if j < ns.len() {
        assert(ns.take(j + 1).drop_last() =~= ns.take(j));
        reveal(Seq::filter);
        let f = ns.take(j).filter(pred);
        let g = ns.take(j + 1).filter(pred);
        if pred(ns[j]) {
            assert(g == f.push(ns[j]));
        } else {
            assert(g == f);
        }
        lemma_filter_prefix_take_gen(ns, pred, j, cap);
    } else {
        assert(ns.take(j) =~= ns);
        assert(ns.filter(pred).take(cap) =~= ns.filter(pred));
    }
}

/// The filtered list of a prefix is a prefix of the filtered list.
proof fn lemma_filter_prefix_take_gen(ns: Seq<NoteModel>, pred: spec_fn(NoteModel) -> bool, j: int, cap: int)
    requires
        0 <= j <= ns.len(),
        ns.take(j).filter(pred).len() == cap,
    ensures
        ns.filter(pred).take(cap) == ns.take(j).filter(pred),
    decreases ns.len() - j,
{
    lemma_filter_prefix(ns, pred, j);
    let f = ns.take(j).filter(pred);
    assert(ns.filter(pred).take(cap) =~= f);
}

proof fn lemma_filter_prefix(ns: Seq<NoteModel>, pred: spec_fn(NoteModel) -> bool, j: int)
    requires
        0 <= j <= ns.len(),
    ensures
        ns.take(j).filter(pred).len() <= ns.filter(pred).len(),
        forall|k: int| 0 <= k < ns.take(j).filter(pred).len() ==> #[trigger] ns.filter(pred)[k] == ns.take(j).filter(pred)[k],
    decreases ns.len() - j,
{
    reveal(Seq::filter);
    if j < ns.len() {
        lemma_filter_prefix(ns, pred, j + 1);
        assert(ns.take(j + 1).drop_last() =~= ns.take(j));
        let f = ns.take(j).filter(pred);
        let g = ns.take(j + 1).filter(pred);
        if pred(ns[j]) {
            assert(g == f.push(ns[j]));
            assert forall|k: int| 0 <= k < f.len() implies #[trigger] ns.filter(pred)[k] == f[k] by {
                assert(g[k] == f[k]);
            }
        } else {
            assert(g == f);
        }
    } else {
        assert(ns.take(j) =~= ns);
    }
}

// ---------------------------------------------------------------------------
// Search
// ---------------------------------------------------------------------------
/// Where the index reads a note's current content from.
pub trait NoteSource {
    /// What reading `path` may give: anything, unless the source says more.
    open spec fn reads(&self, path: Seq<char>, content: Option<Seq<char>>) -> bool {
        true
    }

    fn note_content(&self, path: &str) -> (r: Option<String>)
        ensures
            self.reads(path@, match r {
                Some(c) => Some(c@),
                None => None,
            }),
    ;
}

/// Matching lines of one note: counts matches up to the limit, keeps previews (line number
/// and trimmed line) while both the per-file and the overall row limits allow.
pub open spec fn hit_fold(ls: Seq<Seq<char>>, q: Seq<char>, o: SearchOptions, rows0: int) -> (int, Seq<(int, Seq<char>)>, int)
    decreases ls.len(),
{
    if ls.len() == 0 {
        (0, Seq::empty(), rows0)
    } else {
        let (count, previews, rows) = hit_fold(ls.drop_last(), q, o, rows0);
        if count >= o.max_matches_to_count_per_file || !contains_seq(unicode_lower(ls.last()), q) {
            (count, previews, rows)
        } else if previews.len() < o.max_preview_matches_per_file && rows < o.max_match_rows {
            (count + 1, previews.push((ls.len() as int, trim(ls.last()))), rows + 1)
        } else {
            (count + 1, previews, rows)
        }
    }
}

pub open spec fn preview_views(v: Seq<SearchPreviewMatch>) -> Seq<(int, Seq<char>)> {
    v.map_values(|p: SearchPreviewMatch| (p.line as int, p.preview@))
}

/// The rows a fold of lines uses are its previews.
proof fn lemma_hit_fold_rows(ls: Seq<Seq<char>>, q: Seq<char>, o: SearchOptions, rows0: int)
    ensures
        hit_fold(ls, q, o, rows0).2 == rows0 + hit_fold(ls, q, o, rows0).1.len(),
        hit_fold(ls, q, o, rows0).1.len() <= hit_fold(ls, q, o, rows0).0,
        hit_fold(ls, q, o, rows0).0 >= 0,
    decreases ls.len(),
{
    if ls.len() > 0 {
        lemma_hit_fold_rows(ls.drop_last(), q, o, rows0);
    }
}

/// Reordering entries with distinct paths keeps their paths distinct.
proof fn lemma_perm_keeps_distinct_paths(a: Seq<(int, Seq<char>)>, b: Seq<(int, Seq<char>)>)
    requires
        a.to_multiset() == b.to_multiset(),
        forall|i: int, j: int| 0 <= i < j < a.len() ==> #[trigger] a[i].1 != #[trigger] a[j].1,
    ensures
        forall|i: int, j: int| 0 <= i < j < b.len() ==> #[trigger] b[i].1 != #[trigger] b[j].1,
{
    assert(a.no_duplicates()) by {
        assert forall|i: int, j: int| 0 <= i < a.len() && 0 <= j < a.len() && i != j implies a[i] != a[j] by {
            if i < j {
                assert(a[i].1 != a[j].1);
            } else {
                assert(a[j].1 != a[i].1);
            }
        }
    }
    a.lemma_multiset_has_no_duplicates();
    b.lemma_multiset_has_no_duplicates_conv();
    a.to_multiset_ensures();
    b.to_multiset_ensures();
    assert forall|i: int, j: int| 0 <= i < j < b.len() implies #[trigger] b[i].1 != #[trigger] b[j].1 by {
        if b[i].1 == b[j].1 {
            assert(b.contains(b[i]));
            assert(b.contains(b[j]));
            assert(b.to_multiset().count(b[i]) > 0);
            assert(b.to_multiset().count(b[j]) > 0);
            assert(a.to_multiset().count(b[i]) > 0);
            assert(a.to_multiset().count(b[j]) > 0);
            assert(a.contains(b[i]));
            assert(a.contains(b[j]));
            let i1 = choose|x: int| 0 <= x < a.len() && a[x] == b[i];
            let i2 = choose|x: int| 0 <= x < a.len() && a[x] == b[j];
            if i1 < i2 {
                assert(a[i1].1 != a[i2].1);
            } else if i2 < i1 {
                assert(a[i2].1 != a[i1].1);
            }
            assert(b[i] == b[j]);
        }
    }
}

proof fn lemma_hit_fold_shape(ls: Seq<Seq<char>>, q: Seq<char>, o: SearchOptions, rows0: int)
    ensures
        ({
            let (count, previews, _) = hit_fold(ls, q, o, rows0);
            &&& 0 <= count <= ls.len()
            &&& (o.max_matches_to_count_per_file > 0 ==> count <= o.max_matches_to_count_per_file)
            &&& (o.max_matches_to_count_per_file == 0 ==> count == 0)
            &&& previews.len() <= o.max_preview_matches_per_file
            &&& forall|k: int| 0 <= k < previews.len() ==> 1 <= #[trigger] previews[k].0 <= ls.len() && previews[k].1 == trim(
                ls[previews[k].0 - 1],
            ) && contains_seq(unicode_lower(ls[previews[k].0 - 1]), q)
        }),
    decreases ls.len(),
{
    if ls.len() > 0 {
        lemma_hit_fold_shape(ls.drop_last(), q, o, rows0);
        let (count, previews, rows) = hit_fold(ls.drop_last(), q, o, rows0);
        assert forall|k: int| 0 <= k < previews.len() implies ls[previews[k].0 - 1] == ls.drop_last()[previews[k].0 - 1] by {}
        assert(ls.last() == ls[ls.len() - 1]);
    }
}

/// The 1-based numbers of the lines of `ls` that hold `q` once lower-cased, in order.
pub open spec fn matching_positions(ls: Seq<Seq<char>>, q: Seq<char>) -> Seq<int>
    decreases ls.len(),
{
    if ls.len() == 0 {
        Seq::empty()
    } else if contains_seq(unicode_lower(ls.last()), q) {
        matching_positions(ls.drop_last(), q).push(ls.len() as int)
    } else {
        matching_positions(ls.drop_last(), q)
    }
}

/// The smaller of `a` and `b`.
pub open spec fn min_int(a: int, b: int) -> int {
    if a <= b { a } else { b }
}

/// A file's previews are its first matching lines, in line order: as many as the per-file
/// preview limit, the rows left and the per-file count limit allow.
pub proof fn law_search_previews_are_first_matches(ls: Seq<Seq<char>>, q: Seq<char>, o: SearchOptions, rows0: int)
    requires
        0 <= rows0 <= o.max_match_rows,
    ensures
        hit_fold(ls, q, o, rows0).1.len() == min_int(
            min_int(o.max_preview_matches_per_file as int, o.max_match_rows - rows0),
            min_int(matching_positions(ls, q).len() as int, o.max_matches_to_count_per_file as int),
        ),
        forall|k: int| 0 <= k < hit_fold(ls, q, o, rows0).1.len() ==> #[trigger] hit_fold(ls, q, o, rows0).1[k].0 == matching_positions(ls, q)[k],
        hit_fold(ls, q, o, rows0).0 == min_int(matching_positions(ls, q).len() as int, o.max_matches_to_count_per_file as int),
    decreases ls.len(),
{
    lemma_hit_fold_rows(ls, q, o, rows0);
    if ls.len() > 0 {
        let p = ls.drop_last();
        law_search_previews_are_first_matches(p, q, o, rows0);
        lemma_hit_fold_rows(p, q, o, rows0);
        let (count, previews, rows) = hit_fold(p, q, o, rows0);
        let lp = matching_positions(p, q);
        let l = matching_positions(ls, q);
        let h = hit_fold(ls, q, o, rows0);
        if count < o.max_matches_to_count_per_file && contains_seq(unicode_lower(ls.last()), q) {
            assert(l == lp.push(ls.len() as int));
            assert forall|k: int| 0 <= k < h.1.len() implies #[trigger] h.1[k].0 == l[k] by {
                if k < previews.len() {
                    assert(h.1[k] == previews[k]);
                }
            }
        } else {
            assert forall|k: int| 0 <= k < h.1.len() implies #[trigger] h.1[k].0 == l[k] by {
                assert(h.1[k] == previews[k]);
                if contains_seq(unicode_lower(ls.last()), q) {
                    assert(l == lp.push(ls.len() as int));
                    assert(l[k] == lp[k]);
                }
            }
        }
    }
}

/// Each hit of a search is a note of the index counted once at least and at most the per-file
/// count (or once, where that count is 0), with at most the per-file previews; each preview is
/// a line of the note's content, as the source gave it, by its 1-based number, trimmed, that
/// holds the lower-cased query once lower-cased itself.
pub proof fn law_search_hit_shape<S: NoteSource>(ns: Seq<NoteModel>, source: S, q: Seq<char>, o: SearchOptions, h: SearchHit)
    requires
        found_hit(ns, source, q, o, h),
    ensures
        1 <= h.match_count,
        h.match_count <= if o.max_matches_to_count_per_file > 0 { o.max_matches_to_count_per_file as int } else { 1 },
        h.previews@.len() <= o.max_preview_matches_per_file,
        exists|i: int, c: Seq<char>|
            #![trigger ns[i], lines_of(c)]
            0 <= i < ns.len() && ns[i].path == h.path@ && source.reads(ns[i].path, Some(c)) && h.match_count == ({
                let m = min_nat(matching_lines(lines_of(c), q), o.max_matches_to_count_per_file as nat);
                if m == 0 { 1 } else { m }
            }) && forall|k: int|
                0 <= k < h.previews@.len() ==> 1 <= #[trigger] h.previews@[k].line <= lines_of(c).len() && h.previews@[k].preview@ == trim(
                    lines_of(c)[h.previews@[k].line - 1],
                ) && contains_seq(unicode_lower(lines_of(c)[h.previews@[k].line - 1]), q),
{
    reveal(found_hit);
    let (i, c, rows0) = choose|i: int, c: Seq<char>, rows0: int|
        #![trigger ns[i], hit_fold(lines_of(c), q, o, rows0)]
        0 <= i < ns.len() && ns[i].path == h.path@ && source.reads(ns[i].path, Some(c)) && 0 <= rows0 <= o.max_match_rows && ({
            let (count, previews, _) = hit_fold(lines_of(c), q, o, rows0);
            h.match_count == (if count == 0 { 1 } else { count }) && preview_views(h.previews@) == previews && (count > 0
                || contains_seq(ns[i].path_lower, q) || contains_seq(ns[i].title_lower, q))
        });
    lemma_hit_fold_shape(lines_of(c), q, o, rows0);
    law_match_count_counts_matching_lines(lines_of(c), q, o, rows0);
    let (count, previews, _) = hit_fold(lines_of(c), q, o, rows0);
    assert(previews.len() == h.previews@.len());
    assert forall|k: int| 0 <= k < h.previews@.len() implies 1 <= #[trigger] h.previews@[k].line <= lines_of(c).len() && h.previews@[k].preview@ == trim(
        lines_of(c)[h.previews@[k].line - 1],
    ) && contains_seq(unicode_lower(lines_of(c)[h.previews@[k].line - 1]), q) by {
        assert(preview_views(h.previews@)[k] == (h.previews@[k].line as int, h.previews@[k].preview@));
        assert(previews[k] == preview_views(h.previews@)[k]);
        let ln = previews[k].0;
        assert(1 <= ln <= lines_of(c).len() && previews[k].1 == trim(lines_of(c)[ln - 1]) && contains_seq(unicode_lower(lines_of(c)[ln - 1]), q));
        assert(ln == h.previews@[k].line as int);
    }
}

/// A hit as a value: its path, its match count and its previews.
pub open spec fn hit_view(h: SearchHit) -> (Seq<char>, int, Seq<(int, Seq<char>)>) {
    (h.path@, h.match_count as int, preview_views(h.previews@))
}

pub open spec fn hit_views(v: Seq<SearchHit>) -> Seq<(Seq<char>, int, Seq<(int, Seq<char>)>)> {
    v.map_values(|h: SearchHit| hit_view(h))
}

pub open spec fn opt_view(o: Option<String>) -> Option<Seq<char>> {
    match o {
        Some(t) => Some(t@),
        None => None,
    }
}

/// The hits, and the preview rows used, after going through the first `k` ranked paths `s`
/// with the contents `cs` read for them: once the file or row limit is reached nothing more
/// is read; a path that cannot be read, or that the index does not hold, is passed over; a
/// note counts when its lines (see `hit_fold`), its path or its title match.
pub open spec fn search_fold(
    ns: Seq<NoteModel>,
    s: Seq<(int, Seq<char>)>,
    cs: Seq<Option<Seq<char>>>,
    q: Seq<char>,
    o: SearchOptions,
    k: nat,
) -> (Seq<(Seq<char>, int, Seq<(int, Seq<char>)>)>, int)
    decreases k,
{
    if k == 0 {
        (Seq::empty(), 0)
    } else {
        let (hs, rows) = search_fold(ns, s, cs, q, o, (k - 1) as nat);
        if hs.len() >= o.max_files_with_matches || rows >= o.max_match_rows {
            (hs, rows)
        } else {
            match cs[k - 1] {
                None => (hs, rows),
                Some(c) => match position_of(ns, s[k - 1].1) {
                    None => (hs, rows),
                    Some(i) => {
                        let (count, previews, rows2) = hit_fold(lines_of(c), q, o, rows);
                        if count == 0 && !(contains_seq(ns[i].path_lower, q) || contains_seq(ns[i].title_lower, q)) {
                            (hs, rows2)
                        } else {
                            (hs.push((ns[i].path, if count == 0 { 1 } else { count }, previews)), rows2)
                        }
                    },
                },
            }
        }
    }
}

/// Whether the search still reads after the first `k` ranked paths.
pub open spec fn open_at(ns: Seq<NoteModel>, s: Seq<(int, Seq<char>)>, cs: Seq<Option<Seq<char>>>, q: Seq<char>, o: SearchOptions, k: int) -> bool {
    let (hs, rows) = search_fold(ns, s, cs, q, o, k as nat);
    hs.len() < o.max_files_with_matches && rows < o.max_match_rows
}

/// `cs` holds, for each ranked path that the search reads, what the source gave for it.
pub open spec fn read_as_searched<S: NoteSource>(
    ns: Seq<NoteModel>,
    source: S,
    s: Seq<(int, Seq<char>)>,
    cs: Seq<Option<Seq<char>>>,
    q: Seq<char>,
    o: SearchOptions,
) -> bool {
    cs.len() == s.len() && forall|j: int| 0 <= j < s.len() && #[trigger] open_at(ns, s, cs, q, o, j) ==> source.reads(s[j].1, cs[j])
}

proof fn lemma_search_fold_prefix(
    ns: Seq<NoteModel>,
    s: Seq<(int, Seq<char>)>,
    cs1: Seq<Option<Seq<char>>>,
    cs2: Seq<Option<Seq<char>>>,
    q: Seq<char>,
    o: SearchOptions,
    k: nat,
)
    requires
        k <= cs1.len(),
        k <= cs2.len(),
        forall|j: int| 0 <= j < k ==> cs1[j] == cs2[j],
    ensures
        search_fold(ns, s, cs1, q, o, k) == search_fold(ns, s, cs2, q, o, k),
    decreases k,
{
    if k > 0 {
        lemma_search_fold_prefix(ns, s, cs1, cs2, q, o, (k - 1) as nat);
        assert(cs1[k - 1] == cs2[k - 1]);
    }
}

proof fn lemma_search_fold_stays(
    ns: Seq<NoteModel>,
    s: Seq<(int, Seq<char>)>,
    cs: Seq<Option<Seq<char>>>,
    q: Seq<char>,
    o: SearchOptions,
    k: nat,
    m: nat,
)
    requires
        k <= m,
        !open_at(ns, s, cs, q, o, k as int),
    ensures
        search_fold(ns, s, cs, q, o, m) == search_fold(ns, s, cs, q, o, k),
    decreases m - k,
{
    if k < m {
        lemma_search_fold_stays(ns, s, cs, q, o, k, (m - 1) as nat);
    }
}

/// The previews that the hits show, all together.
pub open spec fn total_previews(hs: Seq<SearchHit>) -> int
    decreases hs.len(),
{
    if hs.len() == 0 {
        0
    } else {
        total_previews(hs.drop_last()) + hs.last().previews@.len()
    }
}

/// A hit as searching with the lower-cased query `q` gives it: for a note of the index whose
/// content, as the source gives it, matches on some lines (the count capped and the previews
/// kept as `hit_fold` says, from some number of rows already shown), or whose path or title
/// matches (counted once).
#[verifier::opaque]
pub open spec fn found_hit<S: NoteSource>(ns: Seq<NoteModel>, source: S, q: Seq<char>, o: SearchOptions, h: SearchHit) -> bool {
    exists|i: int, c: Seq<char>, rows0: int|
        #![trigger ns[i], hit_fold(lines_of(c), q, o, rows0)]
        0 <= i < ns.len() && ns[i].path == h.path@ && source.reads(ns[i].path, Some(c)) && 0 <= rows0
            <= o.max_match_rows && ({
            let (count, previews, _) = hit_fold(lines_of(c), q, o, rows0);
            h.match_count == (if count == 0 { 1 } else { count }) && preview_views(h.previews@) == previews && (count > 0
                || contains_seq(ns[i].path_lower, q) || contains_seq(ns[i].title_lower, q))
        })
}

/// How many of the lines `ls` hold `q` once lower-cased.
pub open spec fn matching_lines(ls: Seq<Seq<char>>, q: Seq<char>) -> nat {
    ls.filter(|l: Seq<char>| contains_seq(unicode_lower(l), q)).len()
}

/// The smaller of `a` and `b`.
pub open spec fn min_nat(a: nat, b: nat) -> nat {
    if a <= b { a } else { b }
}

/// A file's match count is the number of its lines that hold the query, up to the per-file
/// count limit, whatever the preview and row limits keep.
pub proof fn law_match_count_counts_matching_lines(ls: Seq<Seq<char>>, q: Seq<char>, o: SearchOptions, rows0: int)
    ensures
        hit_fold(ls, q, o, rows0).0 == min_nat(matching_lines(ls, q), o.max_matches_to_count_per_file as nat),
    decreases ls.len(),
{
    if ls.len() > 0 {
        law_match_count_counts_matching_lines(ls.drop_last(), q, o, rows0);
        reveal(Seq::filter);
    }
}

/// The hit for one note with `content`, and the rows used after it: `None` when neither a
/// line nor the path or title matches.
pub fn file_hit(note: &IndexedNote, content: &str, q: &[char], options: &SearchOptions, rows: usize) -> (r: (Option<SearchHit>, usize))
    requires
        rows <= options.max_match_rows,
    ensures
        ({
            let (count, previews, rows2) = hit_fold(lines_of(content@), q@, *options, rows as int);
            if count == 0 && !(contains_seq(note@.path_lower, q@) || contains_seq(note@.title_lower, q@)) {
                r.0 is None && r.1 == rows2
            } else {
                r.0 matches Some(h) && h.path@ == note@.path && h.match_count == (if count == 0 { 1 } else { count })
                    && preview_views(h.previews@) == previews && r.1 == rows2
            }
        }),
        r.1 <= options.max_match_rows,
        r.0 matches Some(h) ==> h.match_count == ({
            let c = min_nat(matching_lines(lines_of(content@), q@), options.max_matches_to_count_per_file as nat);
            if c == 0 { 1 } else { c }
        }),
        r.0 matches Some(h) ==> h.previews@.len() == min_int(
            min_int(options.max_preview_matches_per_file as int, options.max_match_rows - rows),
            min_int(matching_positions(lines_of(content@), q@).len() as int, options.max_matches_to_count_per_file as int),
        ) && forall|k: int| 0 <= k < h.previews@.len() ==> #[trigger] h.previews@[k].line == matching_positions(lines_of(content@), q@)[k],
{
    proof {
        law_match_count_counts_matching_lines(lines_of(content@), q@, *options, rows as int);
        law_search_previews_are_first_matches(lines_of(content@), q@, *options, rows as int);
    }
    let chars = chars_of(content);
    let ls = lines(&chars);
    let ghost lv = views(ls@);
    let mut count: usize = 0;
    let mut previews: Vec<SearchPreviewMatch> = Vec::new();
    let mut rows = rows;
    let ghost rows0 = rows as int;
    let mut i: usize = 0;
    assert(lv.take(0) =~= Seq::<Seq<char>>::empty());
    assert(preview_views(previews@) =~= Seq::<(int, Seq<char>)>::empty());
    while i < ls.len()
        invariant
            i <= ls.len(),
            lv == views(ls@),
            lv == lines_of(content@),
            count <= i,
            rows <= options.max_match_rows,
            hit_fold(lv.take(i as int), q@, *options, rows0) == (count as int, preview_views(previews@), rows as int),
        decreases ls.len() - i,
    {
        proof {
            assert(lv.take(i + 1).drop_last() =~= lv.take(i as int));
            assert(lv.take(i + 1).last() == ls@[i as int]@);
        }
        if count < options.max_matches_to_count_per_file {
            let ls_i = string_of(&ls[i]);
            let lower = to_lowercase(ls_i.as_str());
            let lc = chars_of(lower.as_str());
            if contains(&lc, q) {
                count = count + 1;
                if previews.len() < options.max_preview_matches_per_file && rows < options.max_match_rows {
                    let t = trim_chars(&ls[i]);
                    let ghost before = preview_views(previews@);
                    previews.push(SearchPreviewMatch { line: i + 1, preview: string_of(&t) });
                    assert(preview_views(previews@) =~= before.push(((i + 1) as int, t@)));
                    rows = rows + 1;
                }
            }
        }
        i += 1;
    }
    assert(lv.take(ls.len() as int) =~= lv);
    if count == 0 {
        let pl = chars_of(note.path_lower.as_str());
        let tl = chars_of(note.title_lower.as_str());
        if contains(&pl, q) || contains(&tl, q) {
            count = 1;
        } else {
            return (None, rows);
        }
    }
    proof {
        assert(preview_views(previews@).len() == previews@.len());
        assert forall|k: int| 0 <= k < previews@.len() implies #[trigger] previews@[k].line == preview_views(previews@)[k].0 by {}
    }
    (Some(SearchHit { path: note.path.clone(), match_count: count, previews }), rows)
}

impl KnowledgeIndex {
    /// Searches the notes for `query`: candidates scored above zero, best first (then by
    /// path), each read from `source` and turned into a hit (see `file_hit`), within the
    /// file and row limits of `options`.
    pub fn search<S: NoteSource>(&self, source: &S, query: &str, options: SearchOptions) -> (r: SearchOutcome)
        requires
            self.wf(),
        ensures
            r.query@ == trim(query@),
            trim(query@).len() == 0 ==> r.hits@.len() == 0 && r.elapsed_ms == 0,
            r.hits@.len() <= options.max_files_with_matches,
            total_previews(r.hits@) <= options.max_match_rows,
            forall|k: int| 0 <= k < r.hits@.len() ==> found_hit(self.notes(), *source, unicode_lower(trim(query@)), options, #[trigger] r.hits@[k]),
            forall|k: int, m: int| 0 <= k < m < r.hits@.len() ==> #[trigger] r.hits@[k].path@ != #[trigger] r.hits@[m].path@,
            trim(query@).len() > 0 ==> ({
                let ql = unicode_lower(trim(query@));
                let ns = self.notes();
                exists|base: Seq<usize>, s: Seq<(int, Seq<char>)>, cs: Seq<Option<Seq<char>>>|
                    #![trigger pick(ns, base), search_fold(ns, s, cs, ql, options, s.len() as nat)]
                    pick(ns, base) == candidates(ns, ql, tokens_of(ql)) && increasing_below(base, ns.len() as int) && rank_sorted(false, s)
                        && s.to_multiset() == ranked_of(ns, base, ql, tokens_of(ql)).to_multiset() && read_as_searched(ns, *source, s, cs, ql, options)
                        && hit_views(r.hits@) == search_fold(ns, s, cs, ql, options, s.len() as nat).0
            }),
    {
        let started_at = instant_now();
        let q = trimmed(query);
        if q.len() == 0 {
            return SearchOutcome { query: string_of(&q), elapsed_ms: 0, hits: Vec::new() };
        }
        let qs = string_of(&q);
        let ql_s = to_lowercase(qs.as_str());
        let ql = chars_of(ql_s.as_str());
        let qt = tokenize(ql_s.as_str());
        let cands = self.collect_candidates(&ql, &qt);
        let mut ranked: Vec<(usize, String)> = Vec::new();
        let mut i: usize = 0;
        while i < cands.len()
            invariant
                i <= cands.len(),
                self.wf(),
                increasing_below(cands@, self.notes().len() as int),
                ranked_views(ranked@) == ranked_of(self.notes(), cands@.take(i as int), ql@, sviews(qt@)),
                forall|m: int| 0 <= m < ranked@.len() ==> exists|a: int| 0 <= a < i && #[trigger] ranked@[m].1@ == self.notes()[cands@[a] as int].path,
                forall|m1: int, m2: int| 0 <= m1 < m2 < ranked@.len() ==> lex_lt(#[trigger] ranked@[m1].1@, #[trigger] ranked@[m2].1@),
            decreases cands.len() - i,
        {
            proof {
                assert(cands@.take(i + 1).drop_last() =~= cands@.take(i as int));
                assert(cands@.take(i + 1).last() == cands@[i as int]);
            }
            let j = cands[i];
            assert(self.notes()[j as int] == self.notes@[j as int]@);
            assert(strictly_sorted(sviews(self.notes@[j as int].token_set@)));
            let sc = score_note_for_query(&self.notes[j], &ql, &qt);
            if sc > 0 {
                let ghost before = ranked@;
                let ghost bviews = ranked_views(ranked@);
                let pth = self.notes[j].path.clone();
                assert(pth@ == self.notes()[j as int].path);
                proof {
                    assert forall|m: int| 0 <= m < before.len() implies lex_lt(#[trigger] before[m].1@, pth@) by {
                        let a = choose|a: int| 0 <= a < i && #[trigger] before[m].1@ == self.notes()[cands@[a] as int].path;
                        assert(cands@[a] < cands@[i as int]);
                        assert(note_paths_of(self.notes())[cands@[a] as int] == self.notes()[cands@[a] as int].path);
                        assert(note_paths_of(self.notes())[cands@[i as int] as int] == self.notes()[cands@[i as int] as int].path);
                    }
                }
                ranked.push((sc, pth));
                proof {
                    assert(ranked_views(ranked@) =~= bviews.push((sc as int, self.notes()[j as int].path)));
                    assert forall|m: int| 0 <= m < ranked@.len() implies exists|a: int| 0 <= a < i + 1 && #[trigger] ranked@[m].1@ == self.notes()[cands@[a] as int].path by {
                        if m < before.len() {
                            assert(ranked@[m] == before[m]);
                            let a = choose|a: int| 0 <= a < i && #[trigger] before[m].1@ == self.notes()[cands@[a] as int].path;
                        } else {
                            assert(ranked@[m].1@ == self.notes()[cands@[i as int] as int].path);
                        }
                    }
                    assert forall|m1: int, m2: int| 0 <= m1 < m2 < ranked@.len() implies lex_lt(#[trigger] ranked@[m1].1@, #[trigger] ranked@[m2].1@) by {
                        assert(ranked@[m1] == before[m1]);
                        if m2 < before.len() {
                            assert(ranked@[m2] == before[m2]);
                        }
                    }
                }
            }
            i += 1;
        }
        proof {
            assert forall|a: int, b: int| 0 <= a < b < ranked_views(ranked@).len() implies #[trigger] ranked_views(ranked@)[a].1 != #[trigger] ranked_views(ranked@)[b].1 by {
                assert(lex_lt(ranked@[a].1@, ranked@[b].1@));
                lemma_lex_irreflexive(ranked@[a].1@);
            }
        }
        assert(cands@.take(cands.len() as int) =~= cands@);
        assert(sviews(qt@) =~= string_views(qt@));
        let ghost rv = ranked_views(ranked@);
        let sorted = sort_ranked(ranked, false);
        proof {
            lemma_perm_keeps_distinct_paths(rv, ranked_views(sorted@));
        }
        let hits = self.collect_hits(source, &sorted, &ql, &options, Ghost(unicode_lower(trim(query@))));
        SearchOutcome { query: string_of(&q), elapsed_ms: millis_since(&started_at), hits }
    }

    /// Reads the ranked paths in order while the file and row limits allow, turning each note
    /// that matches into a hit (see `search_fold`).
    fn collect_hits<S: NoteSource>(
        &self,
        source: &S,
        sorted: &Vec<(usize, String)>,
        ql: &Vec<char>,
        options: &SearchOptions,
        Ghost(q): Ghost<Seq<char>>,
    ) -> (hits: Vec<SearchHit>)
        requires
            self.wf(),
            ql@ == q,
            forall|a: int, b: int| 0 <= a < b < ranked_views(sorted@).len() ==> #[trigger] ranked_views(sorted@)[a].1 != #[trigger] ranked_views(sorted@)[b].1,
        ensures
            hits@.len() <= options.max_files_with_matches,
            total_previews(hits@) <= options.max_match_rows,
            forall|m: int| 0 <= m < hits@.len() ==> found_hit(self.notes(), *source, q, *options, #[trigger] hits@[m]),
            forall|k: int, m: int| 0 <= k < m < hits@.len() ==> #[trigger] hits@[k].path@ != #[trigger] hits@[m].path@,
            exists|cs: Seq<Option<Seq<char>>>|
                #![trigger search_fold(self.notes(), ranked_views(sorted@), cs, q, *options, sorted@.len() as nat)]
                read_as_searched(self.notes(), *source, ranked_views(sorted@), cs, q, *options) && hit_views(hits@)
                    == search_fold(self.notes(), ranked_views(sorted@), cs, q, *options, sorted@.len() as nat).0,
    {
        let ghost sv = ranked_views(sorted@);
        let ghost mut cs: Seq<Option<Seq<char>>> = Seq::new(sv.len(), |j: int| None::<Seq<char>>);
        let mut hits: Vec<SearchHit> = Vec::new();
        let mut files: usize = 0;
        let mut rows: usize = 0;
        let mut k: usize = 0;
        while k < sorted.len()
            invariant
                k <= sorted.len(),
                self.wf(),
                files == hits.len(),
                files <= options.max_files_with_matches,
                rows <= options.max_match_rows,
                total_previews(hits@) == rows,
                ql@ == q,
                sv == ranked_views(sorted@),
                cs.len() == sv.len(),
                hit_views(hits@) == search_fold(self.notes(), sv, cs, q, *options, k as nat).0,
                rows == search_fold(self.notes(), sv, cs, q, *options, k as nat).1,
                forall|j: int| 0 <= j < k && #[trigger] open_at(self.notes(), sv, cs, q, *options, j) ==> source.reads(sv[j].1, cs[j]),
                forall|a: int, b: int| 0 <= a < b < ranked_views(sorted@).len() ==> #[trigger] ranked_views(sorted@)[a].1 != #[trigger] ranked_views(sorted@)[b].1,
                forall|m: int| 0 <= m < hits@.len() ==> exists|kk: int| 0 <= kk < k && #[trigger] hits@[m].path@ == sorted@[kk].1@,
                forall|m1: int, m2: int| 0 <= m1 < m2 < hits@.len() ==> #[trigger] hits@[m1].path@ != #[trigger] hits@[m2].path@,
                forall|m: int| 0 <= m < hits@.len() ==> found_hit(self.notes(), *source, ql@, *options, #[trigger] hits@[m]),
            ensures
                k == sorted.len() || !open_at(self.notes(), sv, cs, q, *options, k as int),
            decreases sorted.len() - k,
        {
            if files >= options.max_files_with_matches || rows >= options.max_match_rows {
                break;
            }
            let path = &sorted[k].1;
            let got = source.note_content(path.as_str());
            let ghost cs0 = cs;
            proof {
                assert(source.reads(path@, opt_view(got)));
                cs = cs.update(k as int, opt_view(got));
                lemma_search_fold_prefix(self.notes(), sv, cs0, cs, q, *options, k as nat);
                assert(sv[k as int].1 == path@);
                assert(source.reads(sv[k as int].1, cs[k as int]));
                assert(open_at(self.notes(), sv, cs, q, *options, k as int));
            }
            let ghost hits0 = hits@;
            match got {
                None => {},
                Some(content) => {
                    match self.find(path) {
                        Some(ni) => {
                            let ghost rows0 = rows as int;
                            let (hit, rows2) = file_hit(&self.notes[ni], content.as_str(), ql, options, rows);
                            proof {
                                lemma_hit_fold_rows(lines_of(content@), ql@, *options, rows0);
                                assert(self.notes()[ni as int] == self.notes@[ni as int]@);
                            }
                            rows = rows2;
                            match hit {
                                Some(h) => {
                                    let ghost before = hits@;
                                    proof {
                                        assert(found_hit(self.notes(), *source, ql@, *options, h)) by {
                                            reveal(found_hit);
                                            let (count, previews, r2) = hit_fold(lines_of(content@), ql@, *options, rows0);
                                            assert(self.notes()[ni as int].path == h.path@);
                                        }
                                    }
                                    proof {
                                        assert(h.path@ == sorted@[k as int].1@);
                                        assert forall|m: int| 0 <= m < before.len() implies #[trigger] before[m].path@ != h.path@ by {
                                            let kk = choose|kk: int| 0 <= kk < k && #[trigger] before[m].path@ == sorted@[kk].1@;
                                            assert(ranked_views(sorted@)[kk].1 == sorted@[kk].1@);
                                            assert(ranked_views(sorted@)[k as int].1 == sorted@[k as int].1@);
                                        }
                                    }
                                    hits.push(h);
                                    files = files + 1;
                                    proof {
                                        assert(hits@.drop_last() =~= before);
                                        assert forall|m: int| 0 <= m < hits@.len() implies exists|kk: int| 0 <= kk < k + 1 && #[trigger] hits@[m].path@ == sorted@[kk].1@ by {
                                            if m < before.len() {
                                                assert(hits@[m] == before[m]);
                                                let kk = choose|kk: int| 0 <= kk < k && #[trigger] before[m].path@ == sorted@[kk].1@;
                                            } else {
                                                assert(hits@[m].path@ == sorted@[k as int].1@);
                                            }
                                        }
                                        assert forall|m1: int, m2: int| 0 <= m1 < m2 < hits@.len() implies #[trigger] hits@[m1].path@ != #[trigger] hits@[m2].path@ by {
                                            assert(hits@[m1] == before[m1]);
                                            if m2 < before.len() {
                                                assert(hits@[m2] == before[m2]);
                                            }
                                        }
                                        assert forall|m: int| 0 <= m < hits@.len() implies found_hit(self.notes(), *source, ql@, *options, #[trigger] hits@[m]) by {
                                            if m < before.len() {
                                                assert(hits@[m] == before[m]);
                                            }
                                        }
                                    }
                                },
                                None => {},
                            }
                        },
                        None => {},
                    }
                },
            }
            proof {
                assert forall|j: int| 0 <= j < k + 1 && #[trigger] open_at(self.notes(), sv, cs, q, *options, j) implies source.reads(sv[j].1, cs[j]) by {
                    if j < k {
                        lemma_search_fold_prefix(self.notes(), sv, cs0, cs, q, *options, j as nat);
                        assert(cs[j] == cs0[j]);
                        assert(open_at(self.notes(), sv, cs0, q, *options, j));
                    }
                }
                let (fh, fr) = search_fold(self.notes(), sv, cs, q, *options, k as nat);
                if let Some(c) = cs[k as int] {
                    if let Some(i) = position_of(self.notes(), sv[k as int].1) {
                        lemma_hit_fold_rows(lines_of(c), q, *options, fr);
                    }
                }
                assert(hit_views(hits@) =~= search_fold(self.notes(), sv, cs, q, *options, (k + 1) as nat).0);
            }
            k += 1;
        }
        proof {
            if k < sorted.len() {
                lemma_search_fold_stays(self.notes(), sv, cs, q, *options, k as nat, sorted@.len() as nat);
                assert forall|j: int| k <= j < sv.len() implies !#[trigger] open_at(self.notes(), sv, cs, q, *options, j) by {
                    lemma_search_fold_stays(self.notes(), sv, cs, q, *options, k as nat, j as nat);
                }
            }
            assert forall|j: int| 0 <= j < sv.len() && #[trigger] open_at(self.notes(), sv, cs, q, *options, j) implies source.reads(sv[j].1, cs[j]) by {
                if j >= k {
                    assert(!open_at(self.notes(), sv, cs, q, *options, j));
                }
            }
            assert(read_as_searched(self.notes(), *source, sv, cs, q, *options));
        }
        hits
    }
}

/// What indexing the note at `p` from `source` came to: the source gave something for `p`;
/// nothing, and the notes stay as they were and the answer says so; or a text, indexed as
/// the note at `p`.
pub open spec fn read_and_indexed<S: NoteSource>(
    source: S,
    old_notes: Seq<NoteModel>,
    new_notes: Seq<NoteModel>,
    p: Seq<char>,
    r: Result<(), UpsertError>,
) -> bool {
    exists|got: Option<Seq<char>>|
        #![trigger source.reads(p, got)]
        source.reads(p, got) && match got {
            None => r == Err::<(), UpsertError>(UpsertError::Unreadable) && new_notes == old_notes,
            Some(c) => r is Ok && upserted(old_notes, new_notes, p, c),
        }
}

/// Why a note could not be indexed from its source.
#[derive(Clone, Copy, Debug, PartialEq, Eq)]
pub enum UpsertError {
    /// The path is not a valid vault-relative note path.
    Path(PathError),
    /// The source has no readable text for the note.
    Unreadable,
}

// ---------------------------------------------------------------------------
// What removing and indexing a note do to the others
// ---------------------------------------------------------------------------
proof fn lemma_distinct_paths(ns: Seq<NoteModel>, i: int, j: int)
    requires
        strictly_sorted(note_paths_of(ns)),
        0 <= i < ns.len(),
        0 <= j < ns.len(),
        ns[i].path == ns[j].path,
    ensures
        i == j,
{
    if i < j {
        assert(lex_lt(note_paths_of(ns)[i], note_paths_of(ns)[j]));
        lemma_lex_irreflexive(ns[i].path);
    } else if j < i {
        assert(lex_lt(note_paths_of(ns)[j], note_paths_of(ns)[i]));
        lemma_lex_irreflexive(ns[i].path);
    }
}

/// Removing the note at `p` from notes with distinct paths forgets that note and only it:
/// no note has path `p` afterwards, one note fewer remains exactly when there was one, and
/// every other path still leads to the very note it led to.
pub proof fn law_remove_forgets_only_that_note(ns: Seq<NoteModel>, p: Seq<char>)
    requires
        strictly_sorted(note_paths_of(ns)),
    ensures
        position_of(without_note(ns, p), p) is None,
        without_note(ns, p).len() == if position_of(ns, p) is Some { ns.len() - 1 } else { ns.len() as int },
        forall|q: Seq<char>| q != p ==> (position_of(without_note(ns, p), q) is Some <==> position_of(ns, q) is Some),
        forall|i: int| 0 <= i < ns.len() && #[trigger] ns[i].path != p ==> (position_of(without_note(ns, p), ns[i].path) matches Some(j)
            && without_note(ns, p)[j] == ns[i]),
{
    let w = without_note(ns, p);
    match position_of(ns, p) {
        None => {
            assert(w == ns);
        },
        Some(i0) => {
            assert(0 <= i0 < ns.len() && ns[i0].path == p);
            assert(w == ns.remove(i0));
            assert forall|k: int| 0 <= k < w.len() implies #[trigger] w[k] == ns[if k < i0 { k } else { k + 1 }] && w[k].path != p by {
                let m = if k < i0 { k } else { k + 1 };
                if ns[m].path == p {
                    lemma_distinct_paths(ns, m, i0);
                }
            }
            assert forall|q: Seq<char>| q != p implies (position_of(w, q) is Some <==> position_of(ns, q) is Some) by {
                if position_of(ns, q) is Some {
                    let i = choose|i: int| 0 <= i < ns.len() && #[trigger] ns[i].path == q;
                    let j = if i < i0 { i } else { i - 1 };
                    assert(i != i0);
                    assert(w[j] == ns[i]);
                }
                if position_of(w, q) is Some {
                    let j = choose|j: int| 0 <= j < w.len() && #[trigger] w[j].path == q;
                    let m = if j < i0 { j } else { j + 1 };
                    assert(ns[m].path == q);
                }
            }
        },
    }
    assert forall|i: int| 0 <= i < ns.len() && #[trigger] ns[i].path != p implies (position_of(w, ns[i].path) matches Some(j) && w[j] == ns[i]) by {
        let q = ns[i].path;
        assert(position_of(ns, q) is Some);
        assert(position_of(w, q) is Some);
        let j = position_of(w, q)->Some_0;
        match position_of(ns, p) {
            None => {
                lemma_distinct_paths(ns, i, j);
            },
            Some(i0) => {
                let m = if j < i0 { j } else { j + 1 };
                assert(w[j] == ns[m]);
                lemma_distinct_paths(ns, i, m);
            },
        }
    }
}

/// Once the note at `p` is removed, no search over what remains can report it.
pub proof fn law_removed_note_is_not_found<S: NoteSource>(
    ns: Seq<NoteModel>,
    p: Seq<char>,
    source: S,
    q: Seq<char>,
    o: SearchOptions,
    h: SearchHit,
)
    requires
        strictly_sorted(note_paths_of(ns)),
        found_hit(without_note(ns, p), source, q, o, h),
    ensures
        h.path@ != p,
{
    law_remove_forgets_only_that_note(ns, p);
    reveal(found_hit);
    let w = without_note(ns, p);
    let (i, c, rows0) = choose|i: int, c: Seq<char>, rows0: int|
        #![trigger w[i], hit_fold(lines_of(c), q, o, rows0)]
        0 <= i < w.len() && w[i].path == h.path@ && source.reads(w[i].path, Some(c)) && 0 <= rows0 <= o.max_match_rows && ({
            let (count, previews, _) = hit_fold(lines_of(c), q, o, rows0);
            h.match_count == (if count == 0 { 1 } else { count }) && preview_views(h.previews@) == previews && (count > 0
                || contains_seq(w[i].path_lower, q) || contains_seq(w[i].title_lower, q))
        });
    if h.path@ == p {
        assert(exists|j: int| 0 <= j < w.len() && #[trigger] w[j].path == p);
    }
}

/// Indexing the note at `p` with `content`, into notes with distinct paths, gives the note at
/// `p` indexed from `content`, one note more exactly when there was none at `p`, and leaves
/// every other path leading to the very note it led to.
pub proof fn law_upsert_replaces_only_that_note(old_notes: Seq<NoteModel>, new_notes: Seq<NoteModel>, p: Seq<char>, content: Seq<char>)
    requires
        strictly_sorted(note_paths_of(old_notes)),
        strictly_sorted(note_paths_of(new_notes)),
        upserted(old_notes, new_notes, p, content),
    ensures
        position_of(new_notes, p) matches Some(j) && indexed(new_notes[j], p, content),
        new_notes.len() == if position_of(old_notes, p) is Some { old_notes.len() as int } else { old_notes.len() + 1int },
        forall|q: Seq<char>| q != p ==> (position_of(new_notes, q) is Some <==> position_of(old_notes, q) is Some),
        forall|i: int| 0 <= i < old_notes.len() && #[trigger] old_notes[i].path != p ==> (position_of(new_notes, old_notes[i].path) matches Some(
            j,
        ) && new_notes[j] == old_notes[i]),
{
    law_remove_forgets_only_that_note(old_notes, p);
    let w = without_note(old_notes, p);
    let (k, n) = choose|k: int, n: NoteModel|
        0 <= k <= w.len() && indexed(n, p, content) && new_notes == #[trigger] w.insert(k, n);
    assert(new_notes[k] == n && n.path == p);
    let jp = choose|j: int| 0 <= j < new_notes.len() && #[trigger] new_notes[j].path == p;
    lemma_distinct_paths(new_notes, jp, k);
    assert forall|q: Seq<char>| q != p implies (position_of(new_notes, q) is Some <==> position_of(w, q) is Some) by {
        if position_of(w, q) is Some {
            let j = choose|j: int| 0 <= j < w.len() && #[trigger] w[j].path == q;
            let m = if j < k { j } else { j + 1 };
            assert(new_notes[m] == w[j]);
        }
        if position_of(new_notes, q) is Some {
            let j = choose|j: int| 0 <= j < new_notes.len() && #[trigger] new_notes[j].path == q;
            assert(j != k);
            let m = if j < k { j } else { j - 1 };
            assert(new_notes[j] == w[m]);
        }
    }
    assert forall|i: int| 0 <= i < old_notes.len() && #[trigger] old_notes[i].path != p implies (position_of(new_notes, old_notes[i].path) matches Some(
        j,
    ) && new_notes[j] == old_notes[i]) by {
        let q = old_notes[i].path;
        assert(position_of(w, q) matches Some(jw) && w[jw] == old_notes[i]);
        let jw = position_of(w, q)->Some_0;
        let m = if jw < k { jw } else { jw + 1 };
        assert(new_notes[m] == w[jw]);
        assert(position_of(new_notes, q) is Some);
        let j = position_of(new_notes, q)->Some_0;
        lemma_distinct_paths(new_notes, j, m);
    }
}

} // verus!
