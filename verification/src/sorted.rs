//! Lexicographic order on character sequences (the order of `String`'s `Ord`, since UTF-8
//! keeps code point order) and strictly sorted vectors used as sets and maps of strings.
use vstd::prelude::*;

verus! {

/// `a` sorts strictly before `b`.
pub open spec fn lex_lt(a: Seq<char>, b: Seq<char>) -> bool
    decreases a.len(),
{
    if a.len() == 0 {
        b.len() > 0
    } else if b.len() == 0 {
        false
    } else if a[0] < b[0] {
        true
    } else if a[0] > b[0] {
        false
    } else {
        lex_lt(a.drop_first(), b.drop_first())
    }
}

pub proof fn lemma_lex_irreflexive(a: Seq<char>)
    ensures
        !lex_lt(a, a),
    decreases a.len(),
{
    if a.len() > 0 {
        lemma_lex_irreflexive(a.drop_first());
    }
}

pub proof fn lemma_lex_total(a: Seq<char>, b: Seq<char>)
    ensures
        a == b || lex_lt(a, b) || lex_lt(b, a),
        !(lex_lt(a, b) && lex_lt(b, a)),
    decreases a.len(),
{
    if a.len() > 0 && b.len() > 0 {
        lemma_lex_total(a.drop_first(), b.drop_first());
        if a[0] == b[0] && a.drop_first() == b.drop_first() {
            assert(a == seq![a[0]] + a.drop_first());
            assert(b == seq![b[0]] + b.drop_first());
        }
    } else if a.len() == 0 && b.len() == 0 {
        assert(a == b);
    }
}

pub proof fn lemma_lex_transitive(a: Seq<char>, b: Seq<char>, c: Seq<char>)
    requires
        lex_lt(a, b),
        lex_lt(b, c),
    ensures
        lex_lt(a, c),
    decreases a.len(),
{
    if a.len() > 0 && b.len() > 0 && c.len() > 0 {
        if a[0] == b[0] && b[0] == c[0] {
            lemma_lex_transitive(a.drop_first(), b.drop_first(), c.drop_first());
        }
    }
}

/// Every element sorts strictly before every later one.
pub open spec fn strictly_sorted(s: Seq<Seq<char>>) -> bool {
    forall|i: int, j: int| 0 <= i < j < s.len() ==> lex_lt(#[trigger] s[i], #[trigger] s[j])
}

pub open spec fn sviews(v: Seq<String>) -> Seq<Seq<char>> {
    v.map_values(|x: String| x@)
}

pub open spec fn key_views(v: Seq<(String, String)>) -> Seq<Seq<char>> {
    v.map_values(|x: (String, String)| x.0@)
}

/// The map that a key-sorted vector of pairs stands for.
pub open spec fn pair_map(v: Seq<(String, String)>) -> Map<Seq<char>, Seq<char>> {
    Map::new(
        |k: Seq<char>| key_views(v).contains(k),
        |k: Seq<char>| v[key_views(v).index_of(k)].1@,
    )
}

/// `a` sorts strictly before `b` (what `<` on `String` computes).
pub fn lex_less(a: &[char], b: &[char]) -> (r: bool)
    ensures
        r == lex_lt(a@, b@),
{
    let mut i: usize = 0;
    assert(a@.skip(0) == a@);
    assert(b@.skip(0) == b@);
    while i < a.len() && i < b.len()
        invariant
            i <= a.len(),
            i <= b.len(),
            lex_lt(a@, b@) == lex_lt(a@.skip(i as int), b@.skip(i as int)),
        decreases a.len() - i,
    {
        let x = a[i];
        let y = b[i];
        if x < y {
            return true;
        }
        if x > y {
            return false;
        }
        assert(a@.skip(i as int).drop_first() == a@.skip(i + 1));
        assert(b@.skip(i as int).drop_first() == b@.skip(i + 1));
        i += 1;
    }
    i == a.len() && i < b.len()
}

pub fn string_less(a: &String, b: &String) -> (r: bool)
    ensures
        r == lex_lt(a@, b@),
{
    let av = crate::text::chars_of(a.as_str());
    let bv = crate::text::chars_of(b.as_str());
    lex_less(&av, &bv)
}

pub fn string_eq(a: &String, b: &String) -> (r: bool)
    ensures
        r == (a@ == b@),
{
    a.eq(b)
}

/// The index where `x` belongs in sorted `v`: everything before sorts before `x`.
pub fn lower_bound(v: &Vec<String>, x: &String) -> (p: usize)
    requires
        strictly_sorted(sviews(v@)),
    ensures
        p <= v.len(),
        forall|i: int| 0 <= i < p ==> lex_lt(#[trigger] v@[i]@, x@),
        p < v.len() ==> !lex_lt(v@[p as int]@, x@),
        forall|i: int| p < i < v.len() ==> lex_lt(x@, #[trigger] v@[i]@),
{
    let mut p: usize = 0;
    while p < v.len() && string_less(&v[p], x)
        invariant
            p <= v.len(),
            forall|i: int| 0 <= i < p ==> lex_lt(#[trigger] v@[i]@, x@),
        decreases v.len() - p,
    {
        p += 1;
    }
    proof {
        if p < v.len() {
            assert forall|i: int| p < i < v.len() implies lex_lt(x@, #[trigger] v@[i]@) by {
                assert(lex_lt(sviews(v@)[p as int], sviews(v@)[i]));
                lemma_lex_total(x@, v@[p as int]@);
                if x@ != v@[p as int]@ {
                    lemma_lex_transitive(x@, v@[p as int]@, v@[i]@);
                }
            }
        }
    }
    p
}

proof fn lemma_sviews_index(v: Seq<String>, i: int)
    requires
        0 <= i < v.len(),
    ensures
        sviews(v)[i] == v[i]@,
{
}

/// Whether sorted `v` holds a string equal to `x`.
pub fn set_contains(v: &Vec<String>, x: &String) -> (r: bool)
    requires
        strictly_sorted(sviews(v@)),
    ensures
        r == sviews(v@).contains(x@),
{
    let p = lower_bound(v, x);
    let r = p < v.len() && string_eq(&v[p], x);
    proof {
        if sviews(v@).contains(x@) && !r {
            let i = choose|i: int| 0 <= i < v.len() && sviews(v@)[i] == x@;
            lemma_lex_irreflexive(x@);
            if i == p {
                lemma_lex_total(x@, v@[p as int]@);
            }
        }
        if r {
            assert(sviews(v@)[p as int] == x@);
        }
    }
    r
}

/// Adds `x` to the sorted set `v`.
pub fn set_insert(v: &mut Vec<String>, x: String)
    requires
        strictly_sorted(sviews(old(v)@)),
    ensures
        strictly_sorted(sviews(final(v)@)),
        forall|y: Seq<char>|
            sviews(final(v)@).contains(y) <==> (sviews(old(v)@).contains(y) || y == x@),
        set_of(final(v)@) == set_of(old(v)@).insert(x@),
{
    let p = lower_bound(v, &x);
    if p < v.len() && string_eq(&v[p], &x) {
        proof {
            assert(sviews(v@)[p as int] == x@);
            assert(set_of(v@) =~= set_of(v@).insert(x@));
        }
        return;
    }
    let ghost old_v = v@;
    proof {
        if p < v.len() {
            lemma_lex_total(x@, v@[p as int]@);
        }
    }
    v.insert(p, x);
    proof {
        let nv = v@;
        assert(sviews(nv) == sviews(old_v).insert(p as int, x@));
        assert forall|i: int, j: int| 0 <= i < j < nv.len() implies lex_lt(
            #[trigger] sviews(nv)[i],
            #[trigger] sviews(nv)[j],
        ) by {
            if j < p {
                assert(lex_lt(sviews(old_v)[i], sviews(old_v)[j]));
            } else if j == p {
            } else if i == p {
            } else if i < p {
                assert(lex_lt(old_v[i]@, x@));
                assert(lex_lt(x@, old_v[j - 1]@));
                lemma_lex_transitive(old_v[i]@, x@, old_v[j - 1]@);
            } else {
                assert(lex_lt(sviews(old_v)[i - 1], sviews(old_v)[j - 1]));
            }
        }
        assert forall|y: Seq<char>| sviews(nv).contains(y) <==> (sviews(old_v).contains(y)
            || y == x@) by {
            if sviews(old_v).contains(y) {
                let i = choose|i: int| 0 <= i < old_v.len() && sviews(old_v)[i] == y;
                if i < p {
                    assert(sviews(nv)[i] == y);
                } else {
                    assert(sviews(nv)[i + 1] == y);
                }
            }
            if y == x@ {
                assert(sviews(nv)[p as int] == y);
            }
            if sviews(nv).contains(y) {
                let i = choose|i: int| 0 <= i < nv.len() && sviews(nv)[i] == y;
                if i < p {
                    assert(sviews(old_v)[i] == y);
                } else if i > p {
                    assert(sviews(old_v)[i - 1] == y);
                }
            }
        }
        assert(set_of(nv) =~= set_of(old_v).insert(x@));
    }
}

/// Removes `x` from the sorted set `v`.
pub fn set_remove(v: &mut Vec<String>, x: &String)
    requires
        strictly_sorted(sviews(old(v)@)),
    ensures
        strictly_sorted(sviews(final(v)@)),
        forall|y: Seq<char>|
            sviews(final(v)@).contains(y) <==> (sviews(old(v)@).contains(y) && y != x@),
        set_of(final(v)@) == set_of(old(v)@).remove(x@),
{
    let p = lower_bound(v, x);
    if !(p < v.len() && string_eq(&v[p], x)) {
        proof {
            assert forall|y: Seq<char>| sviews(v@).contains(y) implies y != x@ by {
                if y == x@ {
                    let i = choose|i: int| 0 <= i < v.len() && sviews(v@)[i] == y;
                    lemma_lex_irreflexive(x@);
                    if i == p {
                        lemma_lex_total(x@, v@[p as int]@);
                    }
                }
            }
            assert(set_of(v@) =~= set_of(v@).remove(x@));
        }
        return;
    }
    let ghost old_v = v@;
    v.remove(p);
    proof {
        let nv = v@;
        assert(sviews(nv) == sviews(old_v).remove(p as int));
        assert forall|i: int, j: int| 0 <= i < j < nv.len() implies lex_lt(
            #[trigger] sviews(nv)[i],
            #[trigger] sviews(nv)[j],
        ) by {
            if j < p {
                assert(lex_lt(sviews(old_v)[i], sviews(old_v)[j]));
            } else if i < p {
                assert(lex_lt(sviews(old_v)[i], sviews(old_v)[j + 1]));
            } else {
                assert(lex_lt(sviews(old_v)[i + 1], sviews(old_v)[j + 1]));
            }
        }
        assert forall|y: Seq<char>| sviews(nv).contains(y) <==> (sviews(old_v).contains(y) && y
            != x@) by {
            if sviews(old_v).contains(y) && y != x@ {
                let i = choose|i: int| 0 <= i < old_v.len() && sviews(old_v)[i] == y;
                if i < p {
                    assert(sviews(nv)[i] == y);
                } else {
                    assert(i != p);
                    assert(sviews(nv)[i - 1] == y);
                }
            }
            if sviews(nv).contains(y) {
                let i = choose|i: int| 0 <= i < nv.len() && sviews(nv)[i] == y;
                if i < p {
                    assert(sviews(old_v)[i] == y);
                    assert(lex_lt(sviews(old_v)[i], sviews(old_v)[p as int]));
                    lemma_lex_irreflexive(y);
                } else {
                    assert(sviews(old_v)[i + 1] == y);
                    assert(lex_lt(sviews(old_v)[p as int], sviews(old_v)[i + 1]));
                    lemma_lex_irreflexive(y);
                }
            }
        }
        assert(set_of(nv) =~= set_of(old_v).remove(x@));
    }
}

/// The set of strings that `v` holds.
pub open spec fn set_of(v: Seq<String>) -> Set<Seq<char>> {
    Set::new(|y: Seq<char>| sviews(v).contains(y))
}

/// The strictly sorted listing of a finite set.
pub open spec fn sorted_list(s: Set<Seq<char>>) -> Seq<Seq<char>> {
    choose|l: Seq<Seq<char>>| strictly_sorted(l) && forall|y: Seq<char>| l.contains(y) <==> s.contains(y)
}

proof fn lemma_sorted_min(l: Seq<Seq<char>>, y: Seq<char>)
    requires
        strictly_sorted(l),
        l.contains(y),
        l.len() > 0,
        y != l[0],
    ensures
        lex_lt(l[0], y),
{
    let i = choose|i: int| 0 <= i < l.len() && l[i] == y;
    assert(i != 0);
}

/// Two strictly sorted sequences with the same elements are equal.
pub proof fn lemma_sorted_unique(a: Seq<Seq<char>>, b: Seq<Seq<char>>)
    requires
        strictly_sorted(a),
        strictly_sorted(b),
        forall|y: Seq<char>| a.contains(y) <==> b.contains(y),
    ensures
        a == b,
    decreases a.len(),
{
    if a.len() == 0 {
        if b.len() > 0 {
            assert(b.contains(b[0]));
        }
    } else {
        assert(a.contains(a[0]));
        assert(b.len() > 0);
        assert(b.contains(b[0]));
        if a[0] != b[0] {
            lemma_sorted_min(a, b[0]);
            lemma_sorted_min(b, a[0]);
            lemma_lex_total(a[0], b[0]);
        }
        assert forall|y: Seq<char>| a.drop_first().contains(y) <==> b.drop_first().contains(y) by {
            if a.drop_first().contains(y) {
                let i = choose|i: int| 0 <= i < a.len() - 1 && a.drop_first()[i] == y;
                assert(a[i + 1] == y);
                assert(lex_lt(a[0], a[i + 1]));
                lemma_lex_irreflexive(y);
                assert(b.contains(y));
                let j = choose|j: int| 0 <= j < b.len() && b[j] == y;
                assert(j != 0);
                assert(b.drop_first()[j - 1] == y);
            }
            if b.drop_first().contains(y) {
                let i = choose|i: int| 0 <= i < b.len() - 1 && b.drop_first()[i] == y;
                assert(b[i + 1] == y);
                assert(lex_lt(b[0], b[i + 1]));
                lemma_lex_irreflexive(y);
                assert(a.contains(y));
                let j = choose|j: int| 0 <= j < a.len() && a[j] == y;
                assert(j != 0);
                assert(a.drop_first()[j - 1] == y);
            }
        }
        lemma_sorted_unique(a.drop_first(), b.drop_first());
        assert(a == seq![a[0]] + a.drop_first());
        assert(b == seq![b[0]] + b.drop_first());
    }
}

/// A strictly sorted vector lists exactly the sorted listing of its set.
pub proof fn lemma_sorted_is_sorted_list(v: Seq<String>)
    requires
        strictly_sorted(sviews(v)),
    ensures
        sviews(v) == sorted_list(set_of(v)),
{
    let l = sviews(v);
    assert(strictly_sorted(l) && forall|y: Seq<char>| l.contains(y) <==> set_of(v).contains(y));
    let c = sorted_list(set_of(v));
    lemma_sorted_unique(l, c);
}

/// Keys are strictly sorted, so each key appears once.
pub open spec fn keys_sorted(v: Seq<(String, String)>) -> bool {
    strictly_sorted(key_views(v))
}

/// The position of key `k` in `v`.
pub open spec fn key_index(v: Seq<(String, String)>, k: Seq<char>) -> int {
    choose|i: int| 0 <= i < v.len() && v[i].0@ == k
}

/// The map that a key-sorted vector of pairs stands for.
pub open spec fn map_of(v: Seq<(String, String)>) -> Map<Seq<char>, Seq<char>> {
    Map::new(|k: Seq<char>| key_views(v).contains(k), |k: Seq<char>| v[key_index(v, k)].1@)
}

pub proof fn lemma_map_of_at(v: Seq<(String, String)>, i: int)
    requires
        keys_sorted(v),
        0 <= i < v.len(),
    ensures
        map_of(v).contains_key(v[i].0@),
        map_of(v)[v[i].0@] == v[i].1@,
        key_index(v, v[i].0@) == i,
{
    assert(key_views(v)[i] == v[i].0@);
    let j = key_index(v, v[i].0@);
    assert(0 <= j < v.len() && v[j].0@ == v[i].0@);
    if j != i {
        lemma_lex_irreflexive(v[i].0@);
        if j < i {
            assert(lex_lt(key_views(v)[j], key_views(v)[i]));
        } else {
            assert(lex_lt(key_views(v)[i], key_views(v)[j]));
        }
    }
}

pub proof fn lemma_map_of_has(v: Seq<(String, String)>, k: Seq<char>)
    requires
        keys_sorted(v),
        map_of(v).contains_key(k),
    ensures
        0 <= key_index(v, k) < v.len(),
        v[key_index(v, k)].0@ == k,
{
    let i = choose|i: int| 0 <= i < key_views(v).len() && key_views(v)[i] == k;
    assert(v[i].0@ == k);
}

/// The index where key `k` belongs in key-sorted `v`.
pub fn key_lower_bound(v: &Vec<(String, String)>, k: &String) -> (p: usize)
    requires
        keys_sorted(v@),
    ensures
        p <= v.len(),
        forall|i: int| 0 <= i < p ==> lex_lt(#[trigger] v@[i].0@, k@),
        p < v.len() ==> !lex_lt(v@[p as int].0@, k@),
        forall|i: int| p < i < v.len() ==> lex_lt(k@, #[trigger] v@[i].0@),
{
    let mut p: usize = 0;
    while p < v.len() && string_less(&v[p].0, k)
        invariant
            p <= v.len(),
            forall|i: int| 0 <= i < p ==> lex_lt(#[trigger] v@[i].0@, k@),
        decreases v.len() - p,
    {
        p += 1;
    }
    proof {
        if p < v.len() {
            assert forall|i: int| p < i < v.len() implies lex_lt(k@, #[trigger] v@[i].0@) by {
                assert(lex_lt(key_views(v@)[p as int], key_views(v@)[i]));
                lemma_lex_total(k@, v@[p as int].0@);
                if k@ != v@[p as int].0@ {
                    lemma_lex_transitive(k@, v@[p as int].0@, v@[i].0@);
                }
            }
        }
    }
    p
}

/// The index of key `k`, if present.
pub fn map_find(v: &Vec<(String, String)>, k: &String) -> (r: Option<usize>)
    requires
        keys_sorted(v@),
    ensures
        r is Some <==> map_of(v@).contains_key(k@),
        r matches Some(i) ==> i < v.len() && v@[i as int].0@ == k@ && map_of(v@)[k@]
            == v@[i as int].1@,
{
    let p = key_lower_bound(v, k);
    if p < v.len() && string_eq(&v[p].0, k) {
        proof {
            lemma_map_of_at(v@, p as int);
        }
        Some(p)
    } else {
        proof {
            if map_of(v@).contains_key(k@) {
                lemma_map_of_has(v@, k@);
                let i = key_index(v@, k@);
                lemma_lex_irreflexive(k@);
                if i == p {
                    lemma_lex_total(k@, v@[p as int].0@);
                }
            }
        }
        None
    }
}

/// Sets key `k` to `val`.
pub fn map_insert(v: &mut Vec<(String, String)>, k: String, val: String)
    requires
        keys_sorted(old(v)@),
    ensures
        keys_sorted(final(v)@),
        map_of(final(v)@) == map_of(old(v)@).insert(k@, val@),
{
    let ghost old_v = v@;
    let p = key_lower_bound(v, &k);
    if p < v.len() && string_eq(&v[p].0, &k) {
        v.set(p, (k, val));
        proof {
            let nv = v@;
            assert(key_views(nv) == key_views(old_v));
            assert forall|kk: Seq<char>| #![auto] map_of(nv).contains_key(kk)
                == map_of(old_v).insert(nv[p as int].0@, nv[p as int].1@).contains_key(kk) by {
                if kk == nv[p as int].0@ {
                    lemma_map_of_at(old_v, p as int);
                }
            }
            assert forall|kk: Seq<char>| #![auto] map_of(nv).contains_key(kk) implies map_of(nv)[kk]
                == map_of(old_v).insert(nv[p as int].0@, nv[p as int].1@)[kk] by {
                lemma_map_of_has(nv, kk);
                let i = key_index(nv, kk);
                lemma_map_of_at(nv, i);
                if i != p {
                    lemma_map_of_at(old_v, i);
                }
            }
            assert(map_of(nv) =~= map_of(old_v).insert(nv[p as int].0@, nv[p as int].1@));
        }
        return;
    }
    proof {
        if p < v.len() {
            lemma_lex_total(k@, v@[p as int].0@);
        }
    }
    v.insert(p, (k, val));
    proof {
        let nv = v@;
        let kv = nv[p as int];
        assert(key_views(nv) == key_views(old_v).insert(p as int, kv.0@));
        assert forall|i: int, j: int| 0 <= i < j < nv.len() implies lex_lt(
            #[trigger] key_views(nv)[i],
            #[trigger] key_views(nv)[j],
        ) by {
            if j < p {
                assert(lex_lt(key_views(old_v)[i], key_views(old_v)[j]));
            } else if j == p {
            } else if i == p {
            } else if i < p {
                lemma_lex_transitive(old_v[i].0@, kv.0@, old_v[j - 1].0@);
            } else {
                assert(lex_lt(key_views(old_v)[i - 1], key_views(old_v)[j - 1]));
            }
        }
        assert forall|kk: Seq<char>| #![auto] map_of(nv).contains_key(kk)
            == map_of(old_v).insert(kv.0@, kv.1@).contains_key(kk) by {
            if map_of(old_v).contains_key(kk) {
                lemma_map_of_has(old_v, kk);
                let i = key_index(old_v, kk);
                if i < p {
                    assert(key_views(nv)[i] == kk);
                } else {
                    assert(key_views(nv)[i + 1] == kk);
                }
            }
            if kk == kv.0@ {
                assert(key_views(nv)[p as int] == kk);
            }
            if map_of(nv).contains_key(kk) {
                lemma_map_of_has(nv, kk);
                let i = key_index(nv, kk);
                if i < p {
                    assert(key_views(old_v)[i] == kk);
                } else if i > p {
                    assert(key_views(old_v)[i - 1] == kk);
                }
            }
        }
        assert forall|kk: Seq<char>| #![auto] map_of(nv).contains_key(kk) implies map_of(nv)[kk]
            == map_of(old_v).insert(kv.0@, kv.1@)[kk] by {
            lemma_map_of_has(nv, kk);
            let i = key_index(nv, kk);
            lemma_map_of_at(nv, i);
            lemma_lex_irreflexive(kk);
            if i < p {
                assert(nv[i] == old_v[i]);
                assert(lex_lt(key_views(nv)[i], key_views(nv)[p as int]));
                lemma_map_of_at(old_v, i);
            } else if i > p {
                assert(nv[i] == old_v[i - 1]);
                assert(lex_lt(key_views(nv)[p as int], key_views(nv)[i]));
                lemma_map_of_at(old_v, i - 1);
            }
        }
        assert(map_of(nv) =~= map_of(old_v).insert(kv.0@, kv.1@));
    }
}

/// Keeps the entries whose key satisfies `keep` (by index), preserving order.
proof fn lemma_filter_keys_sorted(v: Seq<(String, String)>, w: Seq<(String, String)>, idx: Seq<int>)
    requires
        keys_sorted(v),
        w.len() == idx.len(),
        forall|a: int| 0 <= a < idx.len() ==> 0 <= #[trigger] idx[a] < v.len() && w[a] == v[idx[a]],
        forall|a: int, b: int| 0 <= a < b < idx.len() ==> #[trigger] idx[a] < #[trigger] idx[b],
    ensures
        keys_sorted(w),
{
    assert forall|a: int, b: int| 0 <= a < b < w.len() implies lex_lt(
        #[trigger] key_views(w)[a],
        #[trigger] key_views(w)[b],
    ) by {
        assert(idx[a] < idx[b]);
        assert(lex_lt(key_views(v)[idx[a]], key_views(v)[idx[b]]));
    }
}

pub open spec fn in_index(idx: Seq<int>, j: int) -> bool {
    exists|a: int| 0 <= a < idx.len() && idx[a] == j
}

pub open spec fn keeps_entry(
    e: (String, String),
    k: Option<&String>,
    drop_value: Option<&String>,
) -> bool {
    !(k matches Some(x) && x@ == e.0@) && !(drop_value matches Some(d) && e.1@ == d@)
}

/// Drops the entries for which `drop_value` holds of the value, or whose key is `k`.
pub fn map_remove_where(
    v: &mut Vec<(String, String)>,
    k: Option<&String>,
    drop_value: Option<&String>,
)
    requires
        keys_sorted(old(v)@),
    ensures
        keys_sorted(final(v)@),
        forall|kk: Seq<char>| #[trigger]
            map_of(final(v)@).contains_key(kk) <==> (map_of(old(v)@).contains_key(kk) && !(k
                matches Some(x) && x@ == kk) && !(drop_value matches Some(d) && map_of(
                old(v)@,
            )[kk] == d@)),
        forall|kk: Seq<char>| #[trigger]
            map_of(final(v)@).contains_key(kk) ==> map_of(final(v)@)[kk] == map_of(old(v)@)[kk],
{
    let ghost old_v = v@;
    let mut out: Vec<(String, String)> = Vec::new();
    let ghost mut idx: Seq<int> = Seq::empty();
    let mut i: usize = 0;
    while i < v.len()
        invariant
            i <= v.len(),
            v@ == old_v,
            keys_sorted(old_v),
            out@.len() == idx.len(),
            forall|a: int| 0 <= a < idx.len() ==> 0 <= #[trigger] idx[a] < i && out@[a] == old_v[idx[a]],
            forall|a: int, b: int| 0 <= a < b < idx.len() ==> #[trigger] idx[a] < #[trigger] idx[b],
            forall|j: int| 0 <= j < i ==> (#[trigger] in_index(idx, j) <==> keeps_entry(old_v[j], k, drop_value)),
        decreases v.len() - i,
    {
        let key_hit = match k {
            Some(x) => string_eq(&v[i].0, x),
            None => false,
        };
        let val_hit = match drop_value {
            Some(d) => string_eq(&v[i].1, d),
            None => false,
        };
        let ghost prev = idx;
        if !key_hit && !val_hit {
            let e = (v[i].0.clone(), v[i].1.clone());
            out.push(e);
            proof {
                idx = idx.push(i as int);
            }
        }
        proof {
            assert forall|j: int| 0 <= j < i + 1 implies (#[trigger] in_index(idx, j) <==> keeps_entry(old_v[j], k, drop_value)) by {
                if j < i {
                    assert(in_index(prev, j) <==> keeps_entry(old_v[j], k, drop_value));
                    if in_index(prev, j) {
                        let a = choose|a: int| 0 <= a < prev.len() && prev[a] == j;
                        assert(idx[a] == j);
                    }
                    if in_index(idx, j) {
                        let a = choose|a: int| 0 <= a < idx.len() && idx[a] == j;
                        if a < prev.len() {
                            assert(prev[a] == j);
                        }
                    }
                } else {
                    if !key_hit && !val_hit {
                        assert(idx[idx.len() - 1] == j);
                    } else {
                        if in_index(idx, j) {
                            let a = choose|a: int| 0 <= a < idx.len() && idx[a] == j;
                            assert(prev[a] < i);
                        }
                    }
                }
            }
        }
        i += 1;
    }
    proof {
        lemma_filter_keys_sorted(old_v, out@, idx);
        let nv = out@;
        assert forall|kk: Seq<char>| #[trigger] map_of(nv).contains_key(kk) <==> (map_of(old_v).contains_key(kk)
            && !(k matches Some(x) && x@ == kk) && !(drop_value matches Some(d) && map_of(old_v)[kk]
            == d@)) by {
            if map_of(nv).contains_key(kk) {
                lemma_map_of_has(nv, kk);
                let a = key_index(nv, kk);
                lemma_map_of_at(old_v, idx[a]);
                assert(in_index(idx, idx[a]));
                assert(keeps_entry(old_v[idx[a]], k, drop_value));
            }
            if map_of(old_v).contains_key(kk) && !(k matches Some(x) && x@ == kk) && !(drop_value
                matches Some(d) && map_of(old_v)[kk] == d@) {
                lemma_map_of_has(old_v, kk);
                let j = key_index(old_v, kk);
                lemma_map_of_at(old_v, j);
                assert(keeps_entry(old_v[j], k, drop_value));
                assert(in_index(idx, j));
                let a = choose|a: int| 0 <= a < idx.len() && idx[a] == j;
                assert(key_views(nv)[a] == kk);
            }
        }
        assert forall|kk: Seq<char>| #[trigger] map_of(nv).contains_key(kk) implies map_of(nv)[kk]
            == map_of(old_v)[kk] by {
            lemma_map_of_has(nv, kk);
            let a = key_index(nv, kk);
            lemma_map_of_at(nv, a);
            lemma_map_of_at(old_v, idx[a]);
        }
    }
    *v = out;
}

/// Whether some entry has value `val`.
pub fn map_has_value(v: &Vec<(String, String)>, val: &String) -> (r: bool)
    requires
        keys_sorted(v@),
    ensures
        r == exists|kk: Seq<char>| #[trigger] map_of(v@).contains_key(kk) && map_of(v@)[kk] == val@,
{
    let mut i: usize = 0;
    while i < v.len()
        invariant
            i <= v.len(),
            keys_sorted(v@),
            forall|j: int| 0 <= j < i ==> v@[j].1@ != val@,
        decreases v.len() - i,
    {
        if string_eq(&v[i].1, val) {
            proof {
                lemma_map_of_at(v@, i as int);
            }
            return true;
        }
        i += 1;
    }
    proof {
        if exists|kk: Seq<char>| #[trigger] map_of(v@).contains_key(kk) && map_of(v@)[kk] == val@ {
            let kk = choose|kk: Seq<char>| #[trigger] map_of(v@).contains_key(kk) && map_of(v@)[kk] == val@;
            lemma_map_of_has(v@, kk);
        }
    }
    false
}

} // verus!
