//! A seeded generator of test vaults: the folder chain, where each note goes, what it is
//! named and what it holds, and which notes of a folder get a saved order. Every choice is
//! drawn from one splitmix64 sequence, so a seed always gives the same vault.
use vstd::prelude::*;
use crate::sorted::sviews;
use crate::text::{chars_of, string_of, push_all, push_str, decimal, decimal_chars, char_from_ascii};

verus! {

/// One splitmix64 draw from `state`: the next state and the value drawn.
pub open spec fn splitmix(state: u64) -> (u64, u64) {
    let s = state.wrapping_add(0x9E3779B97F4A7C15u64);
    let z1 = (s ^ (s >> 30u64)).wrapping_mul(0xBF58476D1CE4E5B9u64);
    let z2 = (z1 ^ (z1 >> 27u64)).wrapping_mul(0x94D049BB133111EBu64);
    (s, z2 ^ (z2 >> 31u64))
}

/// A draw of 32 bits: the high half of a 64-bit draw.
pub open spec fn draw_u32(state: u64) -> (u64, u32) {
    (splitmix(state).0, (splitmix(state).1 >> 32u64) as u32)
}

/// A draw below `max` (no draw, and 0, for `max` 0).
pub open spec fn draw_range(state: u64, max: usize) -> (u64, usize) {
    if max == 0 {
        (state, 0)
    } else {
        (splitmix(state).0, ((splitmix(state).1 as usize) % max) as usize)
    }
}

/// A draw that is true `percent` times in a hundred.
pub open spec fn draw_percent(state: u64, percent: u32) -> (u64, bool) {
    (draw_u32(state).0, draw_u32(state).1 % 100 < percent)
}

/// A seeded splitmix64 generator.
pub struct Rng {
    state: u64,
}

impl Rng {
    pub closed spec fn state(&self) -> u64 {
        self.state
    }

    pub fn new(seed: u64) -> (r: Rng)
        ensures
            r.state() == seed,
    {
        Rng { state: seed }
    }

    pub fn next_u64(&mut self) -> (v: u64)
        ensures
            final(self).state() == splitmix(old(self).state()).0,
            v == splitmix(old(self).state()).1,
    {
        self.state = self.state.wrapping_add(0x9E3779B97F4A7C15u64);
        let mut z = self.state;
        z = (z ^ (z >> 30u64)).wrapping_mul(0xBF58476D1CE4E5B9u64);
        z = (z ^ (z >> 27u64)).wrapping_mul(0x94D049BB133111EBu64);
        z ^ (z >> 31u64)
    }

    pub fn next_u32(&mut self) -> (v: u32)
        ensures
            (final(self).state(), v) == draw_u32(old(self).state()),
    {
        (self.next_u64() >> 32u64) as u32
    }

    pub fn gen_range_usize(&mut self, max_exclusive: usize) -> (v: usize)
        ensures
            (final(self).state(), v) == draw_range(old(self).state(), max_exclusive),
    {
        if max_exclusive == 0 {
            return 0;
        }
        (self.next_u64() as usize) % max_exclusive
    }

    pub fn gen_bool_percent(&mut self, percent: u32) -> (b: bool)
        ensures
            (final(self).state(), b) == draw_percent(old(self).state(), percent),
    {
        (self.next_u32() % 100) < percent
    }
}

/// The depth of a note's folder: one more level for each draw whose low three bits are
/// all zero, up to `max`, so shallow folders get most notes.
pub open spec fn depth_draw(state: u64, depth: nat, max: nat) -> (u64, nat)
    decreases max - depth,
{
    if depth >= max {
        (state, depth)
    } else {
        let (s, v) = draw_u32(state);
        if v & 7u32 == 0 {
            depth_draw(s, depth + 1, max)
        } else {
            (s, depth)
        }
    }
}

pub fn gen_depth(rng: &mut Rng, max_depth: usize) -> (d: usize)
    ensures
        (final(rng).state(), d as nat) == depth_draw(old(rng).state(), 0, max_depth as nat),
        d <= max_depth,
{
    let mut depth: usize = 0;
    while depth < max_depth
        invariant
            depth <= max_depth,
            depth_draw(old(rng).state(), 0, max_depth as nat) == depth_draw(rng.state(), depth as nat, max_depth as nat),
        decreases max_depth - depth,
    {
        if (rng.next_u32() & 7u32) != 0 {
            return depth;
        }
        depth += 1;
    }
    depth
}

/// `n` in decimal, zero-padded on the left to at least `width` digits.
pub open spec fn padded(n: nat, width: nat) -> Seq<char> {
    let d = decimal(n);
    if d.len() < width {
        Seq::new((width - d.len()) as nat, |_k: int| '0') + d
    } else {
        d
    }
}

fn padded_chars(n: u128, width: usize) -> (r: Vec<char>)
    ensures
        r@ == padded(n as nat, width as nat),
{
    let d = decimal_chars(n);
    let mut r: Vec<char> = Vec::new();
    let mut k: usize = d.len();
    while k < width
        invariant
            d.len() <= k <= width || (d.len() > width && k == d.len()),
            r@ == Seq::new((k - d.len()) as nat, |_j: int| '0'),
        decreases width - k,
    {
        r.push('0');
        k += 1;
    }
    push_all(&mut r, &d);
    proof {
        if d@.len() >= width {
            assert(r@ =~= d@);
        } else {
            assert(r@ =~= Seq::new((width - d@.len()) as nat, |_k: int| '0') + d@);
        }
    }
    r
}

/// The letters and digits a random name is made of: `a`..`z`, then `0`..`9`.
pub open spec fn alphabet_char(ix: nat) -> char {
    if ix < 26 {
        (97 + ix) as char
    } else {
        (48 + ix - 26) as char
    }
}

/// `len` characters drawn from the alphabet, left to right.
pub open spec fn ascii_draw(state: u64, len: nat) -> (u64, Seq<char>)
    decreases len,
{
    if len == 0 {
        (state, Seq::empty())
    } else {
        let (s, prefix) = ascii_draw(state, (len - 1) as nat);
        let (s2, ix) = draw_range(s, 36);
        (s2, prefix.push(alphabet_char(ix as nat)))
    }
}

pub fn rand_ascii(rng: &mut Rng, len: usize) -> (r: String)
    ensures
        (final(rng).state(), r@) == ascii_draw(old(rng).state(), len as nat),
{
    let mut out: Vec<char> = Vec::new();
    let mut k: usize = 0;
    while k < len
        invariant
            k <= len,
            (rng.state(), out@) == ascii_draw(old(rng).state(), k as nat),
        decreases len - k,
    {
        let ix = rng.gen_range_usize(36);
        let c = if ix < 26 {
            char_from_ascii((97 + ix) as u32)
        } else {
            char_from_ascii((48 + ix - 26) as u32)
        };
        out.push(c);
        k += 1;
    }
    string_of(&out)
}

/// A note's name: `n`, its number in six digits, `_`, then ten drawn characters.
pub open spec fn name_draw(state: u64, ix: nat) -> (u64, Seq<char>) {
    let (s, tail) = ascii_draw(state, 10);
    (s, "n"@ + padded(ix, 6) + "_"@ + tail)
}

pub fn gen_note_name(rng: &mut Rng, ix: usize) -> (r: String)
    ensures
        (final(rng).state(), r@) == name_draw(old(rng).state(), ix as nat),
{
    let mut s: Vec<char> = vec!['n'];
    let p = padded_chars(ix as u128, 6);
    push_all(&mut s, &p);
    s.push('_');
    let tail = rand_ascii(rng, 10);
    let t = chars_of(tail.as_str());
    push_all(&mut s, &t);
    proof {
        reveal_strlit("n");
        reveal_strlit("_");
        assert(s@ =~= "n"@ + padded(ix as nat, 6) + "_"@ + tail@);
    }
    string_of(&s)
}

/// The text that pads a note out: a paragraph and a list.
pub open spec fn filler() -> Seq<char> {
    "Lorem ipsum dolor sit amet, consectetur adipiscing elit.\n"@ + "- Item A\n- Item B\n- Item C\n\n"@
}

/// `s` followed by as many copies of `block` as it takes to reach `target` characters.
pub open spec fn fill_to(s: Seq<char>, block: Seq<char>, target: nat) -> Seq<char>
    decreases (if s.len() >= target {
        0
    } else {
        target - s.len()
    }),
{
    if s.len() >= target || block.len() == 0 {
        s
    } else {
        fill_to(s + block, block, target)
    }
}

/// A note's text: its title, where `with_link` (and there are notes) a link to a drawn
/// note, then filler, cut to `target` characters, and a closing line break.
pub open spec fn markdown_draw(state: u64, ix: nat, total: usize, target: nat, with_link: bool) -> (u64, Seq<char>) {
    let header = "# Note "@ + padded(ix, 6) + "\n\n"@;
    let (s, base) = if with_link && total > 0 {
        let (s1, t) = draw_range(state, total);
        (s1, header + "[[Note "@ + padded(t as nat, 6) + "]]\n\n"@)
    } else {
        (state, header)
    };
    (s, fill_to(base, filler(), target).take(target as int).push('\n'))
}

pub fn gen_markdown_content(rng: &mut Rng, ix: usize, total: usize, target_bytes: usize, with_link: bool) -> (r: String)
    ensures
        (final(rng).state(), r@) == markdown_draw(old(rng).state(), ix as nat, total, target_bytes as nat, with_link),
{
    let mut s = chars_of("# Note ");
    let p = padded_chars(ix as u128, 6);
    push_all(&mut s, &p);
    push_str(&mut s, "\n\n");
    if with_link && total > 0 {
        let target = rng.gen_range_usize(total);
        push_str(&mut s, "[[Note ");
        let q = padded_chars(target as u128, 6);
        push_all(&mut s, &q);
        push_str(&mut s, "]]\n\n");
    }
    let block = chars_of("Lorem ipsum dolor sit amet, consectetur adipiscing elit.\n- Item A\n- Item B\n- Item C\n\n");
    proof {
        reveal_strlit("Lorem ipsum dolor sit amet, consectetur adipiscing elit.\n- Item A\n- Item B\n- Item C\n\n");
        reveal_strlit("Lorem ipsum dolor sit amet, consectetur adipiscing elit.\n");
        reveal_strlit("- Item A\n- Item B\n- Item C\n\n");
        assert(block@ =~= filler());
    }
    let ghost base = s@;
    while s.len() < target_bytes
        invariant
            fill_to(base, filler(), target_bytes as nat) == fill_to(s@, filler(), target_bytes as nat),
            block@ == filler(),
            block@.len() > 0,
        decreases (if s.len() >= target_bytes {
            0
        } else {
            target_bytes - s.len()
        }),
    {
        push_all(&mut s, &block);
    }
    let mut out = crate::text::slice_of(&s, 0, target_bytes);
    out.push('\n');
    proof {
        assert(out@ =~= s@.take(target_bytes as int).push('\n'));
    }
    string_of(&out)
}


/// The folder at `depth`: `notes`, then one level `d000`, `d001`, ... per depth.
pub open spec fn vault_folder(depth: nat) -> Seq<char>
    decreases depth,
{
    if depth == 0 {
        "notes"@
    } else {
        vault_folder((depth - 1) as nat) + "/d"@ + padded((depth - 1) as nat, 3)
    }
}

/// The vault-relative folders for depths `0..=max_depth`.
pub fn vault_folders(max_depth: usize) -> (r: Vec<String>)
    requires
        max_depth < usize::MAX,
    ensures
        r.len() == max_depth + 1,
        forall|d: int| 0 <= d < r.len() ==> #[trigger] r@[d]@ == vault_folder(d as nat),
{
    let mut rel = chars_of("notes");
    let mut r: Vec<String> = Vec::new();
    r.push(string_of(&rel));
    let mut depth: usize = 1;
    while depth <= max_depth
        invariant
            1 <= depth <= max_depth + 1,
            max_depth < usize::MAX,
            r.len() == depth,
            rel@ == vault_folder((depth - 1) as nat),
            forall|d: int| 0 <= d < r.len() ==> #[trigger] r@[d]@ == vault_folder(d as nat),
        decreases max_depth + 1 - depth,
    {
        push_str(&mut rel, "/d");
        let p = padded_chars((depth - 1) as u128, 3);
        push_all(&mut rel, &p);
        r.push(string_of(&rel));
        depth += 1;
    }
    r
}

/// Where one generated note goes and what it holds.
pub struct NotePlan {
    pub depth: usize,
    pub file_name: String,
    pub content: String,
}

/// The draws for note `ix` of `total`: its depth, its name, its size (between `min` and
/// `max` characters), whether it links to another note, and its text.
pub open spec fn note_draw(state: u64, ix: nat, total: usize, max_depth: nat, min: usize, max: usize, link_percent: u32) -> (u64, nat, Seq<char>, Seq<char>) {
    let (s1, depth) = depth_draw(state, 0, max_depth);
    let (s2, name) = name_draw(s1, ix);
    let (s3, size) = if max <= min {
        (s2, min as nat)
    } else {
        let (s, extra) = draw_range(s2, (max - min + 1) as usize);
        (s, (min + extra) as nat)
    };
    let (s4, with_link) = draw_percent(s3, link_percent);
    let (s5, content) = markdown_draw(s4, ix, total, size, with_link);
    (s5, depth, name + ".md"@, content)
}

pub fn plan_note(
    rng: &mut Rng,
    ix: usize,
    total: usize,
    max_depth: usize,
    content_min_bytes: usize,
    content_max_bytes: usize,
    link_percent: u32,
) -> (r: NotePlan)
    requires
        content_max_bytes - content_min_bytes < usize::MAX,
    ensures
        (final(rng).state(), r.depth as nat, r.file_name@, r.content@) == note_draw(
            old(rng).state(),
            ix as nat,
            total,
            max_depth as nat,
            content_min_bytes,
            content_max_bytes,
            link_percent,
        ),
        r.depth <= max_depth,
{
    let depth = gen_depth(rng, max_depth);
    let name = gen_note_name(rng, ix);
    let mut file_name = chars_of(name.as_str());
    push_str(&mut file_name, ".md");
    let size = if content_max_bytes <= content_min_bytes {
        content_min_bytes
    } else {
        content_min_bytes + rng.gen_range_usize(content_max_bytes - content_min_bytes + 1)
    };
    let with_link = rng.gen_bool_percent(link_percent);
    let content = gen_markdown_content(rng, ix, total, size, with_link);
    NotePlan { depth, file_name: string_of(&file_name), content }
}

/// `v` with the items at `i` and `j` exchanged.
pub open spec fn swapped<A>(v: Seq<A>, i: int, j: int) -> Seq<A> {
    v.update(i, v[j]).update(j, v[i])
}

/// A Fisher-Yates shuffle of `v` from index `i` down to 1: each item in turn is exchanged
/// with one drawn at or below it.
pub open spec fn shuffle_draw(state: u64, v: Seq<Seq<char>>, i: nat) -> (u64, Seq<Seq<char>>)
    decreases i,
{
    if i == 0 || i >= v.len() || i + 1 > usize::MAX {
        (state, v)
    } else {
        let (s, j) = draw_range(state, (i + 1) as usize);
        shuffle_draw(s, swapped(v, i as int, j as int), (i - 1) as nat)
    }
}

pub fn shuffle(rng: &mut Rng, items: &mut Vec<String>)
    ensures
        (final(rng).state(), sviews(final(items)@)) == (if old(items).len() == 0 {
            (old(rng).state(), sviews(old(items)@))
        } else {
            shuffle_draw(old(rng).state(), sviews(old(items)@), (old(items).len() - 1) as nat)
        }),
{
    let n = items.len();
    if n == 0 {
        return;
    }
    let mut i: usize = n - 1;
    loop
        invariant
            i < n,
            items.len() == n,
            shuffle_draw(old(rng).state(), sviews(old(items)@), (n - 1) as nat) == shuffle_draw(rng.state(), sviews(items@), i as nat),
            old(items).len() == n,
        ensures
            shuffle_draw(old(rng).state(), sviews(old(items)@), (n - 1) as nat) == (rng.state(), sviews(items@)),
        decreases i,
    {
        if i == 0 {
            break;
        }
        let j = rng.gen_range_usize(i + 1);
        let a = items[i].clone();
        let b = items[j].clone();
        let ghost before = sviews(items@);
        items.set(i, b);
        items.set(j, a);
        assert(sviews(items@) =~= swapped(before, i as int, j as int));
        i -= 1;
    }
}

/// The notes of a folder that get a saved order, in their drawn order: the first
/// `order_take` of them, shuffled; none for a folder with fewer than two notes or where
/// fewer than two would be taken.
pub open spec fn order_draw(state: u64, notes: Seq<Seq<char>>, order_take: nat) -> (u64, Option<Seq<Seq<char>>>) {
    let take = if order_take < notes.len() {
        order_take
    } else {
        notes.len()
    };
    if notes.len() < 2 || take < 2 {
        (state, None)
    } else {
        let (s, v) = shuffle_draw(state, notes.take(take as int), (take - 1) as nat);
        (s, Some(v))
    }
}

pub fn order_sample(rng: &mut Rng, note_paths: &Vec<String>, order_take: usize) -> (r: Option<Vec<String>>)
    ensures
        (final(rng).state(), match r {
            Some(v) => Some(sviews(v@)),
            None => None,
        }) == order_draw(old(rng).state(), sviews(note_paths@), order_take as nat),
{
    if note_paths.len() < 2 {
        return None;
    }
    let take = if order_take < note_paths.len() {
        order_take
    } else {
        note_paths.len()
    };
    if take < 2 {
        return None;
    }
    let mut ordered: Vec<String> = Vec::new();
    let mut k: usize = 0;
    while k < take
        invariant
            k <= take <= note_paths.len(),
            sviews(ordered@) == sviews(note_paths@).take(k as int),
        decreases take - k,
    {
        ordered.push(note_paths[k].clone());
        assert(sviews(note_paths@).take(k + 1) =~= sviews(note_paths@).take(k as int).push(note_paths@[k as int]@));
        assert(sviews(ordered@) =~= sviews(note_paths@).take(k + 1));
        k += 1;
    }
    shuffle(rng, &mut ordered);
    Some(ordered)
}


proof fn lemma_swapped_multiset<A>(v: Seq<A>, i: int, j: int)
    requires
        0 <= i < v.len(),
        0 <= j < v.len(),
    ensures
        swapped(v, i, j).to_multiset() == v.to_multiset(),
        swapped(v, i, j).len() == v.len(),
{
    broadcast use vstd::seq_lib::to_multiset_update;
    broadcast use vstd::multiset::group_multiset_axioms;
    let m = v.to_multiset();
    let v1 = v.update(i, v[j]);
    assert(v1[j] == v[j]);
    assert(v.contains(v[i]));
    vstd::seq_lib::to_multiset_contains(v, v[i]);
    let m2 = m.insert(v[j]).remove(v[i]).insert(v[i]).remove(v[j]);
    assert(m2 =~= m);
}

/// Shuffling keeps the items: the shuffled list holds each item as often as before.
pub proof fn law_shuffle_keeps_items(state: u64, v: Seq<Seq<char>>, i: nat)
    ensures
        shuffle_draw(state, v, i).1.to_multiset() == v.to_multiset(),
        shuffle_draw(state, v, i).1.len() == v.len(),
    decreases i,
{
    if !(i == 0 || i >= v.len() || i + 1 > usize::MAX) {
        let (s, j) = draw_range(state, (i + 1) as usize);
        lemma_swapped_multiset(v, i as int, j as int);
        law_shuffle_keeps_items(s, swapped(v, i as int, j as int), (i - 1) as nat);
    }
}

} // verus!
