//! Character-level text primitives shared by the library: whitespace, trimming,
//! prefix/suffix tests, searching and splitting, all over `Seq<char>` models.
use vstd::prelude::*;

verus! {

/// Unicode `White_Space` (what `char::is_whitespace` tests).
pub open spec fn is_ws(c: char) -> bool {
    let u = c as u32;
    (0x9 <= u && u <= 0xD) || u == 0x20 || u == 0x85 || u == 0xA0 || u == 0x1680 || (0x2000 <= u
        && u <= 0x200A) || u == 0x2028 || u == 0x2029 || u == 0x202F || u == 0x205F || u == 0x3000
}

pub fn is_whitespace(c: char) -> (b: bool)
    ensures
        b == is_ws(c),
{
    let u = c as u32;
    (0x9 <= u && u <= 0xD) || u == 0x20 || u == 0x85 || u == 0xA0 || u == 0x1680 || (0x2000 <= u
        && u <= 0x200A) || u == 0x2028 || u == 0x2029 || u == 0x202F || u == 0x205F || u == 0x3000
}

pub open spec fn trim_start(s: Seq<char>) -> Seq<char>
    decreases s.len(),
{
    if s.len() > 0 && is_ws(s[0]) {
        trim_start(s.drop_first())
    } else {
        s
    }
}

pub open spec fn trim_end(s: Seq<char>) -> Seq<char>
    decreases s.len(),
{
    if s.len() > 0 && is_ws(s.last()) {
        trim_end(s.drop_last())
    } else {
        s
    }
}

/// What `str::trim` leaves of `s`.
pub open spec fn trim(s: Seq<char>) -> Seq<char> {
    trim_end(trim_start(s))
}

pub open spec fn has_prefix(s: Seq<char>, p: Seq<char>) -> bool {
    p.len() <= s.len() && s.subrange(0, p.len() as int) == p
}

pub open spec fn has_suffix(s: Seq<char>, p: Seq<char>) -> bool {
    p.len() <= s.len() && s.subrange(s.len() - p.len(), s.len() as int) == p
}

/// `p` occurs in `s` starting at index `i`.
pub open spec fn occurs_at(s: Seq<char>, p: Seq<char>, i: int) -> bool {
    0 <= i && i + p.len() <= s.len() && s.subrange(i, i + p.len()) == p
}

pub open spec fn contains_seq(s: Seq<char>, p: Seq<char>) -> bool {
    exists|i: int| occurs_at(s, p, i)
}

pub open spec fn ascii_lower(c: char) -> char {
    if 'A' <= c && c <= 'Z' {
        ((c as u32) + 32) as char
    } else {
        c
    }
}

pub open spec fn lower_seq(s: Seq<char>) -> Seq<char> {
    s.map_values(|c: char| ascii_lower(c))
}

/// The characters of `s`, in order.
pub fn chars_of(s: &str) -> (v: Vec<char>)
    ensures
        v@ == s@,
{
    let mut v: Vec<char> = Vec::new();
    for c in it: s.chars()
        invariant
            v@ == it.seq().take(it.index() as int),
            it.seq() == s@,
    {
        v.push(c);
    }
    v
}

/// `str::len`: the length of `s` in bytes, that is of its UTF-8 encoding.
#[verifier::external_body]
pub fn str_len_bytes(s: &str) -> (n: usize)
    ensures
        n == crate::editor::byte_len(s@),
{
    s.len()
}

/// A `String` holding exactly the characters of `v` (`Iterator::collect` into a `String`).
#[verifier::external_body]
pub fn string_of(v: &[char]) -> (s: String)
    ensures
        s@ == v@,
{
    v.iter().collect()
}

pub fn to_lower_ascii_char(c: char) -> (r: char)
    ensures
        r == ascii_lower(c),
{
    if 'A' <= c && c <= 'Z' {
        let u = (c as u32) + 32;
        assert(0x61 <= u <= 0x7a);
        char_from_ascii(u)
    } else {
        c
    }
}

/// The `char` of a code point known to be ASCII.
#[verifier::external_body]
pub(crate) fn char_from_ascii(u: u32) -> (c: char)
    requires
        u < 128,
    ensures
        c == u as char,
{
    char::from_u32(u).unwrap()
}

pub fn lower_ascii(s: &[char]) -> (r: Vec<char>)
    ensures
        r@ == lower_seq(s@),
{
    let mut r: Vec<char> = Vec::new();
    let mut i: usize = 0;
    while i < s.len()
        invariant
            i <= s.len(),
            r@ == lower_seq(s@.subrange(0, i as int)),
        decreases s.len() - i,
    {
        r.push(to_lower_ascii_char(s[i]));
        assert(s@.subrange(0, i + 1) == s@.subrange(0, i as int).push(s@[i as int]));
        i += 1;
    }
    assert(s@.subrange(0, s.len() as int) == s@);
    r
}

/// `v@.subrange(start, end)` as a new vector.
pub fn slice_of(v: &[char], start: usize, end: usize) -> (r: Vec<char>)
    requires
        start <= end <= v.len(),
    ensures
        r@ == v@.subrange(start as int, end as int),
{
    let mut r: Vec<char> = Vec::new();
    let mut i = start;
    while i < end
        invariant
            start <= i <= end <= v.len(),
            r@ == v@.subrange(start as int, i as int),
        decreases end - i,
    {
        r.push(v[i]);
        assert(v@.subrange(start as int, i + 1) == v@.subrange(start as int, i as int).push(
            v@[i as int],
        ));
        i += 1;
    }
    r
}

/// Appends `s` to `out`.
pub fn push_all(out: &mut Vec<char>, s: &[char])
    ensures
        final(out)@ == old(out)@ + s@,
{
    let mut i: usize = 0;
    while i < s.len()
        invariant
            i <= s.len(),
            out@ == old(out)@ + s@.subrange(0, i as int),
        decreases s.len() - i,
    {
        out.push(s[i]);
        assert(s@.subrange(0, i + 1) == s@.subrange(0, i as int).push(s@[i as int]));
        i += 1;
    }
    assert(s@.subrange(0, s.len() as int) == s@);
}

/// Appends the characters of `s` to `out`.
pub fn push_str(out: &mut Vec<char>, s: &str)
    ensures
        final(out)@ == old(out)@ + s@,
{
    let v = chars_of(s);
    push_all(out, &v);
}

pub fn seq_eq(a: &[char], b: &[char]) -> (r: bool)
    ensures
        r == (a@ == b@),
{
    if a.len() != b.len() {
        return false;
    }
    let mut i: usize = 0;
    while i < a.len()
        invariant
            a.len() == b.len(),
            i <= a.len(),
            a@.subrange(0, i as int) == b@.subrange(0, i as int),
        decreases a.len() - i,
    {
        if a[i] != b[i] {
            assert(a@[i as int] != b@[i as int]);
            return false;
        }
        assert(a@.subrange(0, i + 1) == a@.subrange(0, i as int).push(a@[i as int]));
        assert(b@.subrange(0, i + 1) == b@.subrange(0, i as int).push(b@[i as int]));
        i += 1;
    }
    assert(a@.subrange(0, a.len() as int) == a@);
    assert(b@.subrange(0, b.len() as int) == b@);
    true
}

pub fn eq_str(a: &[char], b: &str) -> (r: bool)
    ensures
        r == (a@ == b@),
{
    let bv = chars_of(b);
    seq_eq(a, &bv)
}

/// Whether `p` occurs in `s` at index `i` (bounds checked).
pub fn matches_at(s: &[char], p: &[char], i: usize) -> (r: bool)
    ensures
        r == occurs_at(s@, p@, i as int),
{
    if i > s.len() || p.len() > s.len() - i {
        return false;
    }
    let mut k: usize = 0;
    while k < p.len()
        invariant
            i + p.len() <= s.len(),
            k <= p.len(),
            s@.subrange(i as int, i + k) == p@.subrange(0, k as int),
        decreases p.len() - k,
    {
        if s[i + k] != p[k] {
            assert(s@.subrange(i as int, i + p.len())[k as int] != p@[k as int]);
            return false;
        }
        assert(s@.subrange(i as int, i + k + 1) == s@.subrange(i as int, i + k).push(
            s@[i + k],
        ));
        assert(p@.subrange(0, k + 1) == p@.subrange(0, k as int).push(p@[k as int]));
        k += 1;
    }
    assert(p@.subrange(0, p.len() as int) == p@);
    true
}

pub fn starts_with(s: &[char], p: &[char]) -> (r: bool)
    ensures
        r == has_prefix(s@, p@),
{
    let r = matches_at(s, p, 0);
    r
}

pub fn ends_with(s: &[char], p: &[char]) -> (r: bool)
    ensures
        r == has_suffix(s@, p@),
{
    if p.len() > s.len() {
        return false;
    }
    matches_at(s, p, s.len() - p.len())
}

pub fn starts_with_str(s: &[char], p: &str) -> (r: bool)
    ensures
        r == has_prefix(s@, p@),
{
    let pv = chars_of(p);
    starts_with(s, &pv)
}

pub fn ends_with_str(s: &[char], p: &str) -> (r: bool)
    ensures
        r == has_suffix(s@, p@),
{
    let pv = chars_of(p);
    ends_with(s, &pv)
}

/// The first index `>= from` where `p` occurs in `s`.
pub open spec fn first_occurrence_from(s: Seq<char>, p: Seq<char>, from: int) -> Option<int> {
    if exists|i: int| from <= i && occurs_at(s, p, i) {
        Some(
            choose|i: int|
                from <= i && occurs_at(s, p, i) && forall|j: int|
                    from <= j < i ==> !occurs_at(s, p, j),
        )
    } else {
        None
    }
}

/// Searches `s` for `p` from index `from` (what `str::find` does on the tail, in chars).
pub fn find_from(s: &[char], p: &[char], from: usize) -> (r: Option<usize>)
    ensures
        match r {
            Some(i) => from <= i && occurs_at(s@, p@, i as int) && forall|j: int|
                from <= j < i ==> !occurs_at(s@, p@, j),
            None => forall|j: int| from <= j ==> !occurs_at(s@, p@, j),
        },
{
    if from > s.len() {
        return None;
    }
    let mut i = from;
    while i < s.len()
        invariant
            from <= i <= s.len(),
            forall|j: int| from <= j < i ==> !occurs_at(s@, p@, j),
        decreases s.len() - i,
    {
        if matches_at(s, p, i) {
            return Some(i);
        }
        i += 1;
    }
    if matches_at(s, p, i) {
        return Some(i);
    }
    None
}

pub fn find_str_from(s: &[char], p: &str, from: usize) -> (r: Option<usize>)
    ensures
        match r {
            Some(i) => from <= i && occurs_at(s@, p@, i as int) && forall|j: int|
                from <= j < i ==> !occurs_at(s@, p@, j),
            None => forall|j: int| from <= j ==> !occurs_at(s@, p@, j),
        },
{
    let pv = chars_of(p);
    find_from(s, &pv, from)
}

pub fn contains(s: &[char], p: &[char]) -> (r: bool)
    ensures
        r == contains_seq(s@, p@),
{
    match find_from(s, p, 0) {
        Some(_) => true,
        None => false,
    }
}

/// The first index of `c` in `s` at or after `from`.
pub fn find_char(s: &[char], c: char, from: usize) -> (r: Option<usize>)
    ensures
        match r {
            Some(i) => from <= i < s.len() && s@[i as int] == c && forall|j: int|
                from <= j < i ==> s@[j] != c,
            None => forall|j: int| from <= j < s.len() ==> s@[j] != c,
        },
{
    let mut i = from;
    while i < s.len()
        invariant
            from <= i,
            forall|j: int| from <= j < i ==> s@[j] != c,
        decreases s.len() - i,
    {
        if s[i] == c {
            return Some(i);
        }
        i += 1;
    }
    None
}

/// The last index of `c` in `s`.
pub fn rfind_char(s: &[char], c: char) -> (r: Option<usize>)
    ensures
        match r {
            Some(i) => i < s.len() && s@[i as int] == c && forall|j: int|
                i < j < s.len() ==> s@[j] != c,
            None => forall|j: int| 0 <= j < s.len() ==> s@[j] != c,
        },
{
    let mut i = s.len();
    while i > 0
        invariant
            i <= s.len(),
            forall|j: int| i <= j < s.len() ==> s@[j] != c,
        decreases i,
    {
        if s[i - 1] == c {
            return Some(i - 1);
        }
        i -= 1;
    }
    None
}

proof fn lemma_trim_start_skip(s: Seq<char>, i: int)
    requires
        0 <= i < s.len(),
        is_ws(s[i]),
    ensures
        trim_start(s.skip(i)) == trim_start(s.skip(i + 1)),
{
    assert(s.skip(i).drop_first() == s.skip(i + 1));
}

proof fn lemma_trim_end_take(s: Seq<char>, j: int)
    requires
        0 < j <= s.len(),
        is_ws(s[j - 1]),
    ensures
        trim_end(s.take(j)) == trim_end(s.take(j - 1)),
{
    assert(s.take(j).drop_last() == s.take(j - 1));
}

/// The index of the first non-whitespace character (or the length).
pub fn trim_start_index(s: &[char]) -> (i: usize)
    ensures
        i <= s.len(),
        s@.skip(i as int) == trim_start(s@),
{
    let mut i: usize = 0;
    assert(s@.skip(0) == s@);
    while i < s.len() && is_whitespace(s[i])
        invariant
            i <= s.len(),
            trim_start(s@.skip(i as int)) == trim_start(s@),
        decreases s.len() - i,
    {
        proof {
            lemma_trim_start_skip(s@, i as int);
        }
        i += 1;
    }
    i
}

/// The index just past the last non-whitespace character of `s[..hi]`, at least `lo`.
pub fn trim_end_index(s: &[char], lo: usize, hi: usize) -> (j: usize)
    requires
        lo <= hi <= s.len(),
    ensures
        lo <= j <= hi,
        s@.subrange(lo as int, j as int) == trim_end(s@.subrange(lo as int, hi as int)),
{
    let ghost t = s@.subrange(lo as int, hi as int);
    let mut j = hi;
    assert(t.take((hi - lo) as int) == t);
    while j > lo && is_whitespace(s[j - 1])
        invariant
            lo <= j <= hi,
            hi <= s.len(),
            t == s@.subrange(lo as int, hi as int),
            trim_end(t.take(j - lo)) == trim_end(t),
        decreases j,
    {
        proof {
            lemma_trim_end_take(t, j - lo);
        }
        j -= 1;
    }
    proof {
        let k = j - lo;
        if k > 0 {
            assert(!is_ws(t.take(k).last()));
        }
        assert(t.take(k) == s@.subrange(lo as int, j as int));
    }
    j
}

/// `(start, end)` with `s@.subrange(start, end) == trim(s@)`.
pub fn trim_bounds(s: &[char]) -> (r: (usize, usize))
    ensures
        r.0 <= r.1 <= s.len(),
        s@.subrange(r.0 as int, r.1 as int) == trim(s@),
{
    let i = trim_start_index(s);
    let j = trim_end_index(s, i, s.len());
    assert(s@.subrange(i as int, s.len() as int) == s@.skip(i as int));
    (i, j)
}

/// `str::trim` on a character vector.
pub fn trim_chars(s: &[char]) -> (r: Vec<char>)
    ensures
        r@ == trim(s@),
{
    let (i, j) = trim_bounds(s);
    slice_of(s, i, j)
}

/// The trimmed characters of `s`.
pub fn trimmed(s: &str) -> (r: Vec<char>)
    ensures
        r@ == trim(s@),
{
    let v = chars_of(s);
    trim_chars(&v)
}

pub fn is_blank(s: &str) -> (b: bool)
    ensures
        b == (trim(s@).len() == 0),
{
    let t = trimmed(s);
    t.len() == 0
}

/// Whether `c` occurs in `s`.
pub open spec fn has_char(s: Seq<char>, c: char) -> bool {
    exists|i: int| 0 <= i < s.len() && s[i] == c
}

/// The index of the first `c` in `s` (meaningful when `has_char(s, c)`).
pub open spec fn first_index(s: Seq<char>, c: char) -> int {
    choose|i: int| 0 <= i < s.len() && s[i] == c && forall|j: int| 0 <= j < i ==> s[j] != c
}

pub proof fn lemma_first_index(s: Seq<char>, c: char, k: int)
    requires
        0 <= k < s.len(),
        s[k] == c,
        forall|j: int| 0 <= j < k ==> s[j] != c,
    ensures
        first_index(s, c) == k,
        has_char(s, c),
{
    let i = first_index(s, c);
    assert(0 <= i < s.len() && s[i] == c && forall|j: int| 0 <= j < i ==> s[j] != c);
}

proof fn lemma_has_char_first(s: Seq<char>, c: char)
    requires
        has_char(s, c),
    ensures
        0 <= first_index(s, c) < s.len(),
        s[first_index(s, c)] == c,
        forall|j: int| 0 <= j < first_index(s, c) ==> s[j] != c,
    decreases s.len(),
{
    let k = choose|k: int| 0 <= k < s.len() && s[k] == c;
    if exists|j: int| 0 <= j < k && s[j] == c {
        let j = choose|j: int| 0 <= j < k && s[j] == c;
        assert(has_char(s.take(k), c)) by {
            assert(s.take(k)[j] == c);
        }
        lemma_has_char_first(s.take(k), c);
        let m = first_index(s.take(k), c);
        assert forall|x: int| 0 <= x < m implies s[x] != c by {
            assert(s.take(k)[x] == s[x]);
        }
        assert(s[m] == c) by {
            assert(s.take(k)[m] == s[m]);
        }
        lemma_first_index(s, c, m);
    } else {
        lemma_first_index(s, c, k);
    }
}

/// What `str::split(c)` yields on `s`.
#[verifier::opaque]
pub open spec fn split_on(s: Seq<char>, c: char) -> Seq<Seq<char>>
    decreases s.len(),
{
    if has_char(s, c) {
        let i = first_index(s, c);
        if 0 <= i < s.len() {
            seq![s.take(i)] + split_on(s.skip(i + 1), c)
        } else {
            seq![s]
        }
    } else {
        seq![s]
    }
}

/// A piece without `c` splits into itself.
pub proof fn lemma_split_no_char(s: Seq<char>, c: char)
    requires
        !s.contains(c),
    ensures
        split_on(s, c) == seq![s],
{
    reveal(split_on);
    if has_char(s, c) {
        let k = choose|k: int| 0 <= k < s.len() && s[k] == c;
        assert(s.contains(c));
    }
}

/// Splitting text that ends in `c` and goes on: the pieces before the end, then the pieces
/// of the rest.
pub proof fn lemma_split_concat(a: Seq<char>, b: Seq<char>, c: char)
    requires
        a.len() > 0,
        a.last() == c,
    ensures
        split_on(a + b, c) == split_on(a, c).drop_last() + split_on(b, c),
    decreases a.len(),
{
    assert(has_char(a, c)) by {
        assert(a[a.len() - 1] == c);
    }
    lemma_has_char_first(a, c);
    let i = first_index(a, c);
    let ab = a + b;
    assert forall|j: int| 0 <= j < i implies ab[j] != c by {
        assert(ab[j] == a[j]);
    }
    lemma_split_on_step(ab, c, i);
    lemma_split_on_step(a, c, i);
    assert(ab.take(i) == a.take(i));
    assert(ab.skip(i + 1) == a.skip(i + 1) + b);
    if i == a.len() - 1 {
        assert(a.skip(i + 1) =~= Seq::<char>::empty());
        assert(a.skip(i + 1) + b =~= b);
        lemma_split_no_char(Seq::<char>::empty(), c);
        assert(split_on(a, c) == seq![a.take(i)] + seq![Seq::<char>::empty()]);
        assert(split_on(a, c).drop_last() =~= seq![a.take(i)]);
    } else {
        let rest = a.skip(i + 1);
        assert(rest.last() == c);
        lemma_split_concat(rest, b, c);
        assert(split_on(rest + b, c) == split_on(rest, c).drop_last() + split_on(b, c));
        let sr = split_on(rest, c);
        assert(sr.len() > 0) by {
            reveal(split_on);
        }
        assert((seq![a.take(i)] + sr).drop_last() =~= seq![a.take(i)] + sr.drop_last());
        assert(seq![a.take(i)] + (sr.drop_last() + split_on(b, c)) =~= (seq![a.take(i)] + sr.drop_last()) + split_on(b, c));
    }
}

/// A line without `c`, ended by `c`, splits into the line and an empty piece.
pub proof fn lemma_split_line(h: Seq<char>, c: char)
    requires
        !h.contains(c),
    ensures
        split_on(h.push(c), c) == seq![h, Seq::<char>::empty()],
{
    let s = h.push(c);
    assert forall|j: int| 0 <= j < h.len() implies s[j] != c by {
        assert(s[j] == h[j]);
        if s[j] == c {
            assert(h.contains(c));
        }
    }
    lemma_split_on_step(s, c, h.len() as int);
    assert(s.take(h.len() as int) =~= h);
    assert(s.skip(h.len() as int + 1) =~= Seq::<char>::empty());
    lemma_split_no_char(Seq::<char>::empty(), c);
}

pub open spec fn views(v: Seq<Vec<char>>) -> Seq<Seq<char>> {
    v.map_values(|x: Vec<char>| x@)
}

proof fn lemma_split_on_step(s: Seq<char>, c: char, k: int)
    requires
        0 <= k < s.len(),
        s[k] == c,
        forall|j: int| 0 <= j < k ==> s[j] != c,
    ensures
        split_on(s, c) == seq![s.take(k)] + split_on(s.skip(k + 1), c),
{
    lemma_first_index(s, c, k);
    reveal(split_on);
}

proof fn lemma_split_next(s: Seq<char>, c: char, start: int, i: int)
    requires
        0 <= start <= i < s.len(),
        s[i] == c,
        forall|j: int| start <= j < i ==> s[j] != c,
    ensures
        split_on(s.skip(start), c) == seq![s.subrange(start, i)] + split_on(s.skip(i + 1), c),
{
    let t = s.skip(start);
    assert forall|j: int| 0 <= j < i - start implies t[j] != c by {
        assert(t[j] == s[start + j]);
    }
    lemma_split_on_step(t, c, i - start);
    assert(t.take(i - start) == s.subrange(start, i));
    assert(t.skip(i - start + 1) == s.skip(i + 1));
}

proof fn lemma_split_last(s: Seq<char>, c: char, start: int)
    requires
        0 <= start <= s.len(),
        forall|j: int| start <= j < s.len() ==> s[j] != c,
    ensures
        split_on(s.skip(start), c) == seq![s.subrange(start, s.len() as int)],
{
    let t = s.skip(start);
    assert(!has_char(t, c)) by {
        if has_char(t, c) {
            let j = choose|j: int| 0 <= j < t.len() && t[j] == c;
            assert(s[start + j] == c);
        }
    }
    assert(t == s.subrange(start, s.len() as int));
    reveal(split_on);
}

proof fn lemma_views_push(v: Seq<Vec<char>>, x: Vec<char>)
    ensures
        views(v.push(x)) == views(v).push(x@),
{
    assert(views(v.push(x)) =~= views(v).push(x@));
}

/// `str::split(c)` on a character slice.
pub fn split_char(s: &[char], c: char) -> (r: Vec<Vec<char>>)
    ensures
        views(r@) == split_on(s@, c),
        r@.len() >= 1,
{
    let mut out: Vec<Vec<char>> = Vec::new();
    let mut start: usize = 0;
    assert(s@.skip(0) == s@);
    loop
        invariant
            start <= s.len(),
            views(out@) + split_on(s@.skip(start as int), c) == split_on(s@, c),
        decreases s.len() - start,
    {
        match find_char(s, c, start) {
            Some(i) => {
                let part = slice_of(s, start, i);
                proof {
                    lemma_split_next(s@, c, start as int, i as int);
                    lemma_views_push(out@, part);
                    assert(views(out@.push(part)) + split_on(s@.skip(i + 1), c) == views(out@) + (
                    seq![part@] + split_on(s@.skip(i + 1), c)));
                }
                out.push(part);
                start = i + 1;
            },
            None => {
                let part = slice_of(s, start, s.len());
                proof {
                    lemma_split_last(s@, c, start as int);
                    lemma_views_push(out@, part);
                }
                out.push(part);
                return out;
            },
        }
    }
}

/// Drops one trailing `'\r'`.
pub open spec fn strip_cr(s: Seq<char>) -> Seq<char> {
    if s.len() > 0 && s.last() == '\r' {
        s.drop_last()
    } else {
        s
    }
}

/// What `str::lines` yields: pieces split at `'\n'`; a piece that a `'\n'` ended loses one
/// trailing `'\r'`; an empty last piece is dropped.
pub open spec fn lines_of(s: Seq<char>) -> Seq<Seq<char>> {
    let parts = split_on(s, '\n');
    let ended = parts.drop_last().map_values(|p: Seq<char>| strip_cr(p));
    if parts.last().len() == 0 {
        ended
    } else {
        ended.push(parts.last())
    }
}

pub fn strip_cr_chars(v: Vec<char>) -> (r: Vec<char>)
    ensures
        r@ == strip_cr(v@),
{
    let mut v = v;
    if v.len() > 0 && v[v.len() - 1] == '\r' {
        v.pop();
    }
    v
}

/// `str::lines` on a character slice.
pub fn lines(s: &[char]) -> (r: Vec<Vec<char>>)
    ensures
        views(r@) == lines_of(s@),
{
    let parts = split_char(s, '\n');
    let n = parts.len();
    let mut out: Vec<Vec<char>> = Vec::new();
    let mut i: usize = 0;
    let ghost pv = views(parts@);
    while i + 1 < n
        invariant
            n == parts.len(),
            n >= 1,
            i + 1 <= n,
            pv == views(parts@),
            views(out@) == pv.drop_last().take(i as int).map_values(|p: Seq<char>| strip_cr(p)),
        decreases n - i,
    {
        let piece = strip_cr_chars(parts[i].clone());
        proof {
            lemma_views_push(out@, piece);
            assert(pv.drop_last().take(i + 1) == pv.drop_last().take(i as int).push(pv[i as int]));
        }
        out.push(piece);
        i += 1;
    }
    proof {
        assert(pv.drop_last().take(i as int) == pv.drop_last());
    }
    let last = parts[n - 1].clone();
    if last.len() != 0 {
        proof {
            lemma_views_push(out@, last);
        }
        out.push(last);
    }
    out
}

pub open spec fn replace_char_seq(s: Seq<char>, a: char, b: char) -> Seq<char> {
    s.map_values(|x: char| if x == a { b } else { x })
}

/// `str::replace` of one character by another.
pub fn replace_char(s: &[char], a: char, b: char) -> (r: Vec<char>)
    ensures
        r@ == replace_char_seq(s@, a, b),
{
    let mut r: Vec<char> = Vec::new();
    let mut i: usize = 0;
    while i < s.len()
        invariant
            i <= s.len(),
            r@ == replace_char_seq(s@.subrange(0, i as int), a, b),
        decreases s.len() - i,
    {
        if s[i] == a {
            r.push(b);
        } else {
            r.push(s[i]);
        }
        assert(s@.subrange(0, i + 1) == s@.subrange(0, i as int).push(s@[i as int]));
        i += 1;
    }
    assert(s@.subrange(0, s.len() as int) == s@);
    r
}

/// What `trim_start_matches(c)` leaves.
pub open spec fn trim_start_char(s: Seq<char>, c: char) -> Seq<char>
    decreases s.len(),
{
    if s.len() > 0 && s[0] == c {
        trim_start_char(s.drop_first(), c)
    } else {
        s
    }
}

/// What `trim_end_matches(c)` leaves.
pub open spec fn trim_end_char(s: Seq<char>, c: char) -> Seq<char>
    decreases s.len(),
{
    if s.len() > 0 && s.last() == c {
        trim_end_char(s.drop_last(), c)
    } else {
        s
    }
}

pub fn trim_start_char_chars(s: &[char], c: char) -> (r: Vec<char>)
    ensures
        r@ == trim_start_char(s@, c),
{
    let mut i: usize = 0;
    assert(s@.skip(0) == s@);
    while i < s.len() && s[i] == c
        invariant
            i <= s.len(),
            trim_start_char(s@.skip(i as int), c) == trim_start_char(s@, c),
        decreases s.len() - i,
    {
        assert(s@.skip(i as int).drop_first() == s@.skip(i + 1));
        i += 1;
    }
    assert(s@.skip(i as int) == s@.subrange(i as int, s.len() as int));
    slice_of(s, i, s.len())
}

pub fn trim_end_char_chars(s: &[char], c: char) -> (r: Vec<char>)
    ensures
        r@ == trim_end_char(s@, c),
{
    let mut j: usize = s.len();
    assert(s@.take(s.len() as int) == s@);
    while j > 0 && s[j - 1] == c
        invariant
            j <= s.len(),
            trim_end_char(s@.take(j as int), c) == trim_end_char(s@, c),
        decreases j,
    {
        assert(s@.take(j as int).drop_last() == s@.take(j - 1));
        j -= 1;
    }
    assert(s@.take(j as int) == s@.subrange(0, j as int));
    slice_of(s, 0, j)
}

/// The ASCII digit for `d < 10`.
pub open spec fn digit_char(d: nat) -> char {
    ((48 + d) as u32) as char
}

/// The decimal numeral of `n`, without leading zeros (what `Display` prints for an integer).
pub open spec fn decimal(n: nat) -> Seq<char>
    decreases n,
{
    if n < 10 {
        seq![digit_char(n)]
    } else {
        decimal(n / 10).push(digit_char(n % 10))
    }
}

pub fn decimal_chars(n: u128) -> (r: Vec<char>)
    ensures
        r@ == decimal(n as nat),
{
    let mut m: u128 = n;
    let mut acc: Vec<char> = Vec::new();
    while m >= 10
        invariant
            decimal(n as nat) == decimal(m as nat) + acc@,
        decreases m,
    {
        let d: u128 = m % 10;
        let c = char_from_ascii(48 + (d as u32));
        let ghost before = acc@;
        acc.insert(0, c);
        proof {
            assert(acc@ =~= seq![digit_char((m % 10) as nat)] + before);
            assert(decimal(m as nat) == decimal((m / 10) as nat).push(digit_char((m % 10) as nat)));
            assert(decimal((m / 10) as nat).push(digit_char((m % 10) as nat)) + before =~= decimal(
                (m / 10) as nat,
            ) + acc@);
        }
        m = m / 10;
    }
    let c = char_from_ascii(48 + (m as u32));
    acc.insert(0, c);
    acc
}

/// The decimal numeral of `n` as a `String`.
pub fn decimal_string(n: u128) -> (s: String)
    ensures
        s@ == decimal(n as nat),
{
    let v = decimal_chars(n);
    string_of(&v)
}

/// An owned copy of `s`.
pub fn owned(s: &str) -> (r: String)
    ensures
        r@ == s@,
{
    let v = chars_of(s);
    string_of(&v)
}

/// `a` followed by `b`, as a new `String`.
pub fn concat_str(a: &str, b: &str) -> (r: String)
    ensures
        r@ == a@ + b@,
{
    let mut v = chars_of(a);
    push_str(&mut v, b);
    string_of(&v)
}

/// What `str::split(p)` yields on `s` for a non-empty pattern `p`: matches are taken from
/// the left, without overlap.
pub open spec fn split_seq(s: Seq<char>, p: Seq<char>) -> Seq<Seq<char>>
    decreases s.len(),
{
    if p.len() == 0 {
        seq![s]
    } else {
        match first_occurrence_from(s, p, 0) {
            Some(i) => if 0 <= i && i + p.len() <= s.len() {
                seq![s.take(i)] + split_seq(s.skip(i + p.len()), p)
            } else {
                seq![s]
            },
            None => seq![s],
        }
    }
}

pub proof fn lemma_occurs_skip(s: Seq<char>, p: Seq<char>, start: int, j: int)
    requires
        0 <= start <= s.len(),
        0 <= j,
    ensures
        occurs_at(s.skip(start), p, j) == occurs_at(s, p, start + j),
{
    if occurs_at(s, p, start + j) {
        assert(s.skip(start).subrange(j, j + p.len()) =~= s.subrange(start + j, start + j + p.len()));
    }
    if occurs_at(s.skip(start), p, j) {
        assert(s.skip(start).subrange(j, j + p.len()) =~= s.subrange(start + j, start + j + p.len()));
    }
}

proof fn lemma_first_occurrence(t: Seq<char>, p: Seq<char>, k: int)
    requires
        0 <= k,
        occurs_at(t, p, k),
        forall|m: int| 0 <= m < k ==> !#[trigger] occurs_at(t, p, m),
    ensures
        first_occurrence_from(t, p, 0) == Some(k),
{
    assert(exists|j: int| 0 <= j && #[trigger] occurs_at(t, p, j));
    let c = choose|j: int|
        0 <= j && #[trigger] occurs_at(t, p, j) && forall|m: int| 0 <= m < j ==> !#[trigger] occurs_at(t, p, m);
    if c < k {
        assert(!occurs_at(t, p, c));
    } else if c > k {
        assert(!occurs_at(t, p, k));
    }
}

proof fn lemma_split_seq_next(s: Seq<char>, p: Seq<char>, start: int, i: int)
    requires
        p.len() > 0,
        0 <= start <= i,
        occurs_at(s, p, i),
        forall|j: int| start <= j < i ==> !#[trigger] occurs_at(s, p, j),
    ensures
        split_seq(s.skip(start), p) == seq![s.subrange(start, i)] + split_seq(s.skip(i + p.len()), p),
{
    let t = s.skip(start);
    lemma_occurs_skip(s, p, start, i - start);
    assert forall|m: int| 0 <= m < i - start implies !#[trigger] occurs_at(t, p, m) by {
        lemma_occurs_skip(s, p, start, m);
        assert(!occurs_at(s, p, start + m));
    }
    lemma_first_occurrence(t, p, i - start);
    assert(t.take(i - start) =~= s.subrange(start, i));
    assert(t.skip(i - start + p.len()) =~= s.skip(i + p.len()));
    reveal(split_seq);
}

proof fn lemma_split_seq_last(s: Seq<char>, p: Seq<char>, start: int)
    requires
        p.len() > 0,
        0 <= start <= s.len(),
        forall|j: int| start <= j ==> !occurs_at(s, p, j),
    ensures
        split_seq(s.skip(start), p) == seq![s.skip(start)],
{
    let t = s.skip(start);
    assert forall|j: int| 0 <= j implies !occurs_at(t, p, j) by {
        lemma_occurs_skip(s, p, start, j);
    }
    assert(first_occurrence_from(t, p, 0) is None);
    reveal(split_seq);
}

proof fn lemma_push_concat(a: Seq<Seq<char>>, x: Seq<char>, b: Seq<Seq<char>>)
    ensures
        a.push(x) + b == a + (seq![x] + b),
{
    assert(a.push(x) + b =~= a + (seq![x] + b));
}

proof fn lemma_split_str_step(prev: Seq<Seq<char>>, s: Seq<char>, p: Seq<char>, start: int, i: int, part: Seq<char>)
    requires
        p.len() > 0,
        0 <= start <= i,
        occurs_at(s, p, i),
        forall|j: int| start <= j < i ==> !#[trigger] occurs_at(s, p, j),
        part == s.subrange(start, i),
        prev + split_seq(s.skip(start), p) == split_seq(s, p),
    ensures
        prev.push(part) + split_seq(s.skip(i + p.len()), p) == split_seq(s, p),
{
    lemma_split_seq_next(s, p, start, i);
    let rest = split_seq(s.skip(i + p.len()), p);
    lemma_push_concat(prev, part, rest);
}

proof fn lemma_split_str_last(prev: Seq<Seq<char>>, s: Seq<char>, p: Seq<char>, start: int, part: Seq<char>)
    requires
        p.len() > 0,
        0 <= start <= s.len(),
        forall|j: int| start <= j ==> !#[trigger] occurs_at(s, p, j),
        part == s.subrange(start, s.len() as int),
        prev + split_seq(s.skip(start), p) == split_seq(s, p),
    ensures
        prev.push(part) == split_seq(s, p),
{
    lemma_split_seq_last(s, p, start);
    assert(part =~= s.skip(start));
    assert(prev.push(part) =~= prev + seq![s.skip(start)]);
}

/// `str::split(p)` on a character slice, for a non-empty pattern.
pub fn split_str(s: &[char], p: &[char]) -> (r: Vec<Vec<char>>)
    requires
        p.len() > 0,
    ensures
        views(r@) == split_seq(s@, p@),
{
    let mut out: Vec<Vec<char>> = Vec::new();
    let mut start: usize = 0;
    assert(s@.skip(0) == s@);
    assert(views(out@) =~= Seq::<Seq<char>>::empty());
    loop
        invariant
            start <= s.len(),
            p.len() > 0,
            views(out@) + split_seq(s@.skip(start as int), p@) == split_seq(s@, p@),
        decreases s.len() - start,
    {
        match find_from(s, p, start) {
            Some(i) => {
                let part = slice_of(s, start, i);
                proof {
                    lemma_split_str_step(views(out@), s@, p@, start as int, i as int, part@);
                    lemma_views_push(out@, part);
                }
                out.push(part);
                start = i + p.len();
            },
            None => {
                let part = slice_of(s, start, s.len());
                proof {
                    lemma_split_str_last(views(out@), s@, p@, start as int, part@);
                    lemma_views_push(out@, part);
                }
                out.push(part);
                return out;
            },
        }
    }
}

/// What `str::to_lowercase` gives for `s` (Unicode lower-case mapping).
pub uninterp spec fn unicode_lower(s: Seq<char>) -> Seq<char>;

/// What `char::is_alphanumeric` answers for `c` (Unicode alphabetic or numeric).
pub uninterp spec fn unicode_alphanumeric(c: char) -> bool;

/// `str::to_lowercase`.
#[verifier::external_body]
pub fn to_lowercase(s: &str) -> (r: String)
    ensures
        r@ == unicode_lower(s@),
{
    s.to_lowercase()
}

/// `char::is_alphanumeric`: among ASCII characters, exactly the letters and digits.
#[verifier::external_body]
pub fn is_alphanumeric(c: char) -> (b: bool)
    ensures
        b == unicode_alphanumeric(c),
        (c as u32) < 128 ==> (b == (('a' <= c && c <= 'z') || ('A' <= c && c <= 'Z') || ('0' <= c && c <= '9'))),
{
    c.is_alphanumeric()
}

/// `s` with each occurrence of the non-empty pattern `p`, scanning from the left without
/// overlap, replaced by `r` (`str::replace`).
pub open spec fn replace_seq(s: Seq<char>, p: Seq<char>, r: Seq<char>) -> Seq<char>
    decreases s.len(),
{
    if s.len() == 0 || p.len() == 0 {
        s
    } else if has_prefix(s, p) {
        r + replace_seq(s.skip(p.len() as int), p, r)
    } else {
        seq![s[0]] + replace_seq(s.drop_first(), p, r)
    }
}

pub fn replace_str(s: &[char], p: &str, r: &str) -> (out: Vec<char>)
    ensures
        out@ == replace_seq(s@, p@, r@),
{
    let pv = chars_of(p);
    let rv = chars_of(r);
    let mut out: Vec<char> = Vec::new();
    if pv.len() == 0 {
        push_all(&mut out, s);
        return out;
    }
    let mut i: usize = 0;
    assert(s@.skip(0) =~= s@);
    while i < s.len()
        invariant
            i <= s.len(),
            pv@ == p@,
            rv@ == r@,
            pv@.len() > 0,
            out@ + replace_seq(s@.skip(i as int), p@, r@) == replace_seq(s@, p@, r@),
        decreases s.len() - i,
    {
        let ghost before = out@;
        let hit = matches_at(s, &pv, i);
        proof {
            let t = s@.skip(i as int);
            if hit {
                assert(t.subrange(0, p@.len() as int) =~= s@.subrange(i as int, i + p@.len()));
            } else if p@.len() <= t.len() {
                assert(t.subrange(0, p@.len() as int) =~= s@.subrange(i as int, i + p@.len()));
            }
        }
        if hit {
            push_all(&mut out, &rv);
            proof {
                assert(s@.skip(i as int).skip(p@.len() as int) =~= s@.skip(i + p@.len()));
                assert(out@ + replace_seq(s@.skip(i + pv@.len()), p@, r@) =~= before + (r@ + replace_seq(s@.skip(i + pv@.len()), p@, r@)));
            }
            i = i + pv.len();
        } else {
            out.push(s[i]);
            proof {
                assert(s@.skip(i as int).drop_first() =~= s@.skip(i + 1));
                assert(out@ + replace_seq(s@.skip(i + 1), p@, r@) =~= before + (seq![s@[i as int]] + replace_seq(s@.skip(i + 1), p@, r@)));
            }
            i += 1;
        }
    }
    assert(out@ + replace_seq(s@.skip(i as int), p@, r@) =~= out@);
    out
}

pub proof fn lemma_trim_start_len(s: Seq<char>)
    ensures
        trim_start(s).len() <= s.len(),
    decreases s.len(),
{
    if s.len() > 0 && is_ws(s[0]) {
        lemma_trim_start_len(s.drop_first());
    }
}

pub proof fn lemma_trim_end_len(s: Seq<char>)
    ensures
        trim_end(s).len() <= s.len(),
    decreases s.len(),
{
    if s.len() > 0 && is_ws(s.last()) {
        lemma_trim_end_len(s.drop_last());
    }
}

/// A text that trimming leaves alone neither starts nor ends with whitespace.
pub proof fn lemma_trimmed_ends(p: Seq<char>)
    requires
        p.len() > 0,
        trim(p) == p,
    ensures
        !is_ws(p[0]),
        !is_ws(p.last()),
{
    if is_ws(p[0]) {
        lemma_trim_start_len(p.drop_first());
        lemma_trim_end_len(trim_start(p));
    }
    assert(trim_start(p) == p);
    if is_ws(p.last()) {
        lemma_trim_end_len(p.drop_last());
    }
}

/// Trimming leaves alone a text that neither starts nor ends with whitespace.
pub proof fn lemma_trim_fixed(s: Seq<char>)
    requires
        s.len() > 0,
        !is_ws(s[0]),
        !is_ws(s.last()),
    ensures
        trim(s) == s,
{
    assert(trim_start(s) == s);
    assert(trim_end(s) == s);
}

pub proof fn lemma_trim_start_is_skip(s: Seq<char>) -> (d: int)
    ensures
        0 <= d <= s.len(),
        trim_start(s) == s.skip(d),
    decreases s.len(),
{
    if s.len() > 0 && is_ws(s[0]) {
        let d = lemma_trim_start_is_skip(s.drop_first());
        assert(s.drop_first().skip(d) =~= s.skip(d + 1));
        d + 1
    } else {
        assert(s.skip(0) =~= s);
        0
    }
}

pub proof fn lemma_trim_end_is_take(s: Seq<char>) -> (e: int)
    ensures
        0 <= e <= s.len(),
        trim_end(s) == s.take(e),
    decreases s.len(),
{
    if s.len() > 0 && is_ws(s.last()) {
        let e = lemma_trim_end_is_take(s.drop_last());
        assert(s.drop_last().take(e) =~= s.take(e));
        e
    } else {
        assert(s.take(s.len() as int) =~= s);
        s.len() as int
    }
}

pub proof fn lemma_trim_end_char_take(s: Seq<char>, c: char) -> (e: int)
    ensures
        0 <= e <= s.len(),
        trim_end_char(s, c) == s.take(e),
    decreases s.len(),
{
    if s.len() > 0 && s.last() == c {
        let e = lemma_trim_end_char_take(s.drop_last(), c);
        assert(s.drop_last().take(e) =~= s.take(e));
        e
    } else {
        assert(s.take(s.len() as int) =~= s);
        s.len() as int
    }
}

/// What trimming leaves, when anything, starts and ends with non-whitespace.
pub proof fn lemma_trim_ends(x: Seq<char>)
    requires
        trim(x).len() > 0,
    ensures
        !is_ws(trim(x)[0]),
        !is_ws(trim(x).last()),
{
    let d = lemma_trim_start_is_skip(x);
    let y = trim_start(x);
    lemma_trim_start_first(x);
    let e = lemma_trim_end_is_take(y);
    lemma_trim_end_last(y);
    assert(trim(x) == y.take(e));
    assert(trim(x)[0] == y[0]);
}

proof fn lemma_trim_start_first(x: Seq<char>)
    ensures
        trim_start(x).len() > 0 ==> !is_ws(trim_start(x)[0]),
    decreases x.len(),
{
    if x.len() > 0 && is_ws(x[0]) {
        lemma_trim_start_first(x.drop_first());
    }
}

proof fn lemma_trim_end_last(x: Seq<char>)
    ensures
        trim_end(x).len() > 0 ==> !is_ws(trim_end(x).last()),
    decreases x.len(),
{
    if x.len() > 0 && is_ws(x.last()) {
        lemma_trim_end_last(x.drop_last());
    }
}

/// What trimming leaves is a stretch of the text.
pub proof fn lemma_trim_sub(x: Seq<char>) -> (r: (int, int))
    ensures
        0 <= r.0 <= r.1 <= x.len(),
        trim(x) == x.subrange(r.0, r.1),
{
    let d = lemma_trim_start_is_skip(x);
    let y = trim_start(x);
    let e = lemma_trim_end_is_take(y);
    assert(y.take(e) =~= x.subrange(d, d + e));
    (d, d + e)
}

/// No piece of a split holds the separator.
pub proof fn lemma_split_pieces(s: Seq<char>, c: char)
    ensures
        forall|i: int| 0 <= i < split_on(s, c).len() ==> !(#[trigger] split_on(s, c)[i]).contains(c),
    decreases s.len(),
{
    reveal(split_on);
    if has_char(s, c) {
        lemma_has_char_first(s, c);
        let i = first_index(s, c);
        lemma_split_pieces(s.skip(i + 1), c);
        let first = s.take(i);
        assert(!first.contains(c)) by {
            if first.contains(c) {
                let k = choose|k: int| 0 <= k < first.len() && first[k] == c;
                assert(s[k] == c);
            }
        }
        let rest = split_on(s.skip(i + 1), c);
        assert forall|j: int| 0 <= j < split_on(s, c).len() implies !(#[trigger] split_on(s, c)[j]).contains(c) by {
            if j > 0 {
                assert(split_on(s, c)[j] == rest[j - 1]);
            }
        }
    } else {
        assert forall|j: int| 0 <= j < split_on(s, c).len() implies !(#[trigger] split_on(s, c)[j]).contains(c) by {
            assert(split_on(s, c)[j] == s);
            if s.contains(c) {
                let k = choose|k: int| 0 <= k < s.len() && s[k] == c;
                assert(has_char(s, c));
            }
        }
    }
}

} // verus!
