//! A text buffer with byte-offset edits and an undo/redo history, kept in a `ropey::Rope`.
use std::ops::Range;
use vstd::prelude::*;
use crate::text::is_ws;

verus! {

#[verifier::external_type_specification]
#[verifier::external_body]
pub struct ExRope(ropey::Rope);

/// The characters that a rope holds.
pub uninterp spec fn rope_text(r: ropey::Rope) -> Seq<char>;

/// A character that ropey (with its default line-break features) takes as a line break: LF,
/// CR, VT, FF, NEL, LINE SEPARATOR and PARAGRAPH SEPARATOR.
pub open spec fn is_line_break(c: char) -> bool {
    c == '\n' || c == '\r' || c == '\u{b}' || c == '\u{c}' || c == '\u{85}' || c == '\u{2028}' || c == '\u{2029}'
}

/// The line breaks in `s`, a CR followed by an LF counting once.
pub open spec fn line_breaks(s: Seq<char>) -> nat
    decreases s.len(),
{
    if s.len() == 0 {
        0
    } else if s.len() >= 2 && s.last() == '\n' && s[s.len() - 2] == '\r' {
        1 + line_breaks(s.take(s.len() - 2))
    } else if is_line_break(s.last()) {
        1 + line_breaks(s.drop_last())
    } else {
        line_breaks(s.drop_last())
    }
}

/// What `Rope::len_lines` returns for a rope holding `text`: one more than its line breaks.
pub open spec fn rope_line_count(text: Seq<char>) -> nat {
    line_breaks(text) + 1
}

/// Bytes that UTF-8 spends on `c`.
pub open spec fn char_width(c: char) -> nat {
    let u = c as u32;
    if u < 0x80 {
        1
    } else if u < 0x800 {
        2
    } else if u < 0x10000 {
        3
    } else {
        4
    }
}

/// Length in bytes of the UTF-8 encoding of `s`.
pub open spec fn byte_len(s: Seq<char>) -> nat
    decreases s.len(),
{
    if s.len() == 0 {
        0
    } else {
        char_width(s[0]) + byte_len(s.drop_first())
    }
}

/// Index of the character that byte offset `b` falls in (`s.len()` at the end).
pub open spec fn char_at_byte(s: Seq<char>, b: int) -> int
    decreases s.len(),
{
    if s.len() == 0 || b < char_width(s[0]) {
        0
    } else {
        1 + char_at_byte(s.drop_first(), b - char_width(s[0]))
    }
}

/// Byte offset `b` lies on a character boundary of `s`.
pub open spec fn is_boundary(s: Seq<char>, b: int) -> bool {
    0 <= b <= byte_len(s) && byte_len(s.take(char_at_byte(s, b))) == b
}

/// Rope wrappers: each makes one `ropey::Rope` call.
/// `Rope::from_str`: the rope holds exactly the characters of `text`.
#[verifier::external_body]
fn rope_from_str(text: &str) -> (r: ropey::Rope)
    ensures
        rope_text(r) == text@,
{
    ropey::Rope::from_str(text)
}

/// `Rope::len_bytes`: the UTF-8 length of the held text.
#[verifier::external_body]
fn rope_len_bytes(r: &ropey::Rope) -> (n: usize)
    ensures
        n == byte_len(rope_text(*r)),
{
    r.len_bytes()
}

/// `Rope::len_lines`: one more than the line breaks, so at least 1.
#[verifier::external_body]
fn rope_len_lines(r: &ropey::Rope) -> (n: usize)
    ensures
        n == rope_line_count(rope_text(*r)),
        n >= 1,
{
    r.len_lines()
}

/// `Rope::try_byte_to_char`: in range, the index of the character holding byte `b`; past the
/// end, an error (mapped to `None`).
#[verifier::external_body]
fn rope_try_byte_to_char(r: &ropey::Rope, b: usize) -> (c: Option<usize>)
    ensures
        b <= byte_len(rope_text(*r)) ==> c == Some(char_at_byte(rope_text(*r), b as int) as usize),
        b > byte_len(rope_text(*r)) ==> c is None,
{
    r.try_byte_to_char(b).ok()
}

/// `Rope::try_char_to_byte`: in range, the byte offset where character `c` starts; past the
/// end, an error (mapped to `None`).
#[verifier::external_body]
fn rope_try_char_to_byte(r: &ropey::Rope, c: usize) -> (b: Option<usize>)
    ensures
        c <= rope_text(*r).len() ==> b == Some(byte_len(rope_text(*r).take(c as int)) as usize),
        c > rope_text(*r).len() ==> b is None,
{
    r.try_char_to_byte(c).ok()
}

/// `Rope::remove` of the character range `start..end`.
#[verifier::external_body]
fn rope_remove(r: &mut ropey::Rope, start: usize, end: usize)
    requires
        start <= end <= rope_text(*old(r)).len(),
    ensures
        rope_text(*final(r)) == rope_text(*old(r)).take(start as int) + rope_text(*old(r)).skip(
            end as int,
        ),
{
    r.remove(start..end)
}

/// `Rope::insert` of `text` at character index `at`.
#[verifier::external_body]
fn rope_insert(r: &mut ropey::Rope, at: usize, text: &str)
    requires
        at <= rope_text(*old(r)).len(),
    ensures
        rope_text(*final(r)) == rope_text(*old(r)).take(at as int) + text@ + rope_text(
            *old(r),
        ).skip(at as int),
{
    r.insert(at, text)
}

/// `Rope::slice` of the character range `start..end`, rendered to a `String`.
#[verifier::external_body]
fn rope_slice_string(r: &ropey::Rope, start: usize, end: usize) -> (s: String)
    requires
        start <= end <= rope_text(*r).len(),
    ensures
        s@ == rope_text(*r).subrange(start as int, end as int),
{
    r.slice(start..end).to_string()
}

/// The whole rope rendered to a `String`.
#[verifier::external_body]
fn rope_to_string(r: &ropey::Rope) -> (s: String)
    ensures
        s@ == rope_text(*r),
{
    r.to_string()
}

pub proof fn lemma_byte_len_concat(a: Seq<char>, b: Seq<char>)
    ensures
        byte_len(a + b) == byte_len(a) + byte_len(b),
    decreases a.len(),
{
    if a.len() > 0 {
        assert((a + b).drop_first() == a.drop_first() + b);
        lemma_byte_len_concat(a.drop_first(), b);
    } else {
        assert(a + b == b);
    }
}

/// Character `k` starts at byte `byte_len(s.take(k))`, and that offset maps back to `k`.
pub proof fn lemma_char_at_start(s: Seq<char>, k: int)
    requires
        0 <= k <= s.len(),
    ensures
        char_at_byte(s, byte_len(s.take(k)) as int) == k,
    decreases k,
{
    if k > 0 {
        assert(s.take(k).drop_first() == s.drop_first().take(k - 1));
        assert(s.take(k)[0] == s[0]);
        lemma_char_at_start(s.drop_first(), k - 1);
    } else {
        assert(s.take(0).len() == 0);
    }
}

proof fn lemma_len_le_byte_len(s: Seq<char>)
    ensures
        s.len() <= byte_len(s),
    decreases s.len(),
{
    if s.len() > 0 {
        lemma_len_le_byte_len(s.drop_first());
    }
}

proof fn lemma_take_byte_le(s: Seq<char>, k: int)
    requires
        0 <= k <= s.len(),
    ensures
        byte_len(s.take(k)) <= byte_len(s),
{
    lemma_byte_len_concat(s.take(k), s.skip(k));
    assert(s.take(k) + s.skip(k) == s);
}

pub proof fn lemma_take_full(s: Seq<char>)
    ensures
        s.take(s.len() as int) == s,
{
    assert(s.take(s.len() as int) =~= s);
}

/// An edit replaces the byte range `range` by `replacement`.
#[derive(Debug, PartialEq, Eq)]
pub struct EditTransaction {
    pub range: Range<usize>,
    pub replacement: String,
}

impl EditTransaction {
    pub fn insert(offset: usize, text: &str) -> (t: Self)
        ensures
            t.range.start == offset,
            t.range.end == offset,
            t.replacement@ == text@,
    {
        Self { range: offset..offset, replacement: String::from_str(text) }
    }

    pub fn delete(range: Range<usize>) -> (t: Self)
        ensures
            t.range == range,
            t.replacement@ == Seq::<char>::empty(),
    {
        Self { range, replacement: String::new() }
    }

    pub fn replace(range: Range<usize>, replacement: &str) -> (t: Self)
        ensures
            t.range == range,
            t.replacement@ == replacement@,
    {
        Self { range, replacement: String::from_str(replacement) }
    }
}

/// An applied edit: `after` is what was applied, `before` what undoes it.
#[derive(Debug, PartialEq, Eq)]
pub struct EditRecord {
    pub before: EditTransaction,
    pub after: EditTransaction,
}

impl Clone for EditTransaction {
    fn clone(&self) -> (r: Self)
        ensures
            r == *self,
    {
        EditTransaction {
            range: self.range.start..self.range.end,
            replacement: self.replacement.clone(),
        }
    }
}

impl Clone for EditRecord {
    fn clone(&self) -> (r: Self)
        ensures
            r == *self,
    {
        EditRecord { before: self.before.clone(), after: self.after.clone() }
    }
}

/// `Rope::clone`: the copy holds the same characters.
pub assume_specification[ <ropey::Rope as Clone>::clone ](r: &ropey::Rope) -> (c: ropey::Rope)
    ensures
        rope_text(c) == rope_text(*r),
;

#[derive(Clone, Copy, Debug, Default, PartialEq, Eq)]
pub struct EditorStats {
    pub chars: usize,
    pub lines: usize,
    pub words: usize,
}

#[derive(Debug, Clone, Copy, PartialEq, Eq)]
pub enum EditorError {
    InvalidUtf8Boundary,
    OutOfBounds,
}

/// `tx` can be applied to `t`: its range is ordered, in bounds and on character boundaries.
pub open spec fn edit_ok(t: Seq<char>, tx: EditTransaction) -> bool {
    tx.range.start <= tx.range.end && tx.range.end <= byte_len(t) && is_boundary(
        t,
        tx.range.start as int,
    ) && is_boundary(t, tx.range.end as int)
}

/// The error that an edit of the byte range `start..end` of `t` meets, if any.
pub open spec fn range_error(t: Seq<char>, start: int, end: int) -> Option<EditorError> {
    if start > end || end > byte_len(t) {
        Some(EditorError::OutOfBounds)
    } else if !is_boundary(t, start) || !is_boundary(t, end) {
        Some(EditorError::InvalidUtf8Boundary)
    } else {
        None
    }
}

/// The error that applying `tx` to `t` meets, if any.
pub open spec fn edit_error(t: Seq<char>, tx: EditTransaction) -> Option<EditorError> {
    range_error(t, tx.range.start as int, tx.range.end as int)
}

/// `t` with the byte range of `tx` replaced.
pub open spec fn apply_edit(t: Seq<char>, tx: EditTransaction) -> Seq<char> {
    let cs = char_at_byte(t, tx.range.start as int);
    let ce = char_at_byte(t, tx.range.end as int);
    t.take(cs) + tx.replacement@ + t.skip(ce)
}

/// The characters that `tx` removes from `t`.
pub open spec fn removed_by(t: Seq<char>, tx: EditTransaction) -> Seq<char> {
    t.subrange(char_at_byte(t, tx.range.start as int), char_at_byte(t, tx.range.end as int))
}

/// `r` undoes and redoes cleanly on `t`, the text after `r.after` was applied.
pub open spec fn record_ok(t: Seq<char>, r: EditRecord) -> bool {
    &&& edit_ok(t, r.before)
    &&& edit_ok(apply_edit(t, r.before), r.after)
    &&& apply_edit(apply_edit(t, r.before), r.after) == t
}

/// Each record on the undo stack, popped in turn, undoes cleanly.
pub open spec fn undo_chain_ok(t: Seq<char>, stack: Seq<EditRecord>) -> bool
    decreases stack.len(),
{
    stack.len() == 0 || (record_ok(t, stack.last()) && undo_chain_ok(
        apply_edit(t, stack.last().before),
        stack.drop_last(),
    ))
}

/// Each record on the redo stack, popped in turn, redoes cleanly.
pub open spec fn redo_chain_ok(t: Seq<char>, stack: Seq<EditRecord>) -> bool
    decreases stack.len(),
{
    stack.len() == 0 || ({
        let r = stack.last();
        &&& edit_ok(t, r.after)
        &&& edit_ok(apply_edit(t, r.after), r.before)
        &&& apply_edit(apply_edit(t, r.after), r.before) == t
        &&& redo_chain_ok(apply_edit(t, r.after), stack.drop_last())
    })
}

/// Maximal runs of non-whitespace characters (what `split_whitespace` counts).
pub open spec fn word_count(s: Seq<char>) -> nat
    decreases s.len(),
{
    if s.len() == 0 {
        0
    } else {
        let starts = !is_ws(s.last()) && (s.len() == 1 || is_ws(s[s.len() - 2]));
        word_count(s.drop_last()) + if starts {
            1nat
        } else {
            0nat
        }
    }
}

/// `u` is the record that undoes applying `tx` to `t`.
pub open spec fn undoes(u: EditTransaction, t: Seq<char>, tx: EditTransaction) -> bool {
    &&& u.range.start == tx.range.start
    &&& u.range.end == tx.range.start + byte_len(tx.replacement@)
    &&& u.replacement@ == removed_by(t, tx)
}

/// Undoing an applied edit gives back the text it was applied to, and redoing it gives back
/// the edited text: for every edit that applies to `t`, the record built from it undoes
/// cleanly on the edited text.
pub proof fn law_undo_restores(t: Seq<char>, tx: EditTransaction, u: EditTransaction)
    requires
        edit_ok(t, tx),
        undoes(u, t, tx),
    ensures
        edit_ok(apply_edit(t, tx), u),
        apply_edit(apply_edit(t, tx), u) == t,
        record_ok(apply_edit(t, tx), EditRecord { before: u, after: tx }),
{
    let cs = char_at_byte(t, tx.range.start as int);
    let ce = char_at_byte(t, tx.range.end as int);
    let r = tx.replacement@;
    let t2 = apply_edit(t, tx);
    lemma_char_at_bounds(t, tx.range.start as int);
    lemma_char_at_bounds(t, tx.range.end as int);
    assert(cs <= ce) by {
        lemma_char_at_monotone(t, tx.range.start as int, tx.range.end as int);
    }
    assert(t2.take(cs) == t.take(cs));
    assert(t2.take(cs + r.len()) == t.take(cs) + r);
    lemma_byte_len_concat(t.take(cs), r);
    lemma_char_at_start(t2, cs);
    lemma_char_at_start(t2, cs + r.len());
    assert(t2 == t.take(cs + r.len() - r.len()) + r + t.skip(ce));
    assert(t2 == (t.take(cs) + r) + t.skip(ce));
    lemma_byte_len_concat(t.take(cs) + r, t.skip(ce));
    lemma_byte_len_concat(t.take(ce), t.skip(ce));
    assert(t.take(ce) + t.skip(ce) == t);
    lemma_byte_len_concat(t.take(cs), t.subrange(cs, ce));
    assert(t.take(cs) + t.subrange(cs, ce) == t.take(ce));
    lemma_take_full(t2);
    assert(byte_len(t2.take(cs + r.len())) <= byte_len(t2));
    let back = apply_edit(t2, u);
    assert(back == t2.take(cs) + t.subrange(cs, ce) + t2.skip(cs + r.len()));
    assert(t2.skip(cs + r.len()) == t.skip(ce));
    assert(back =~= t);
    assert(apply_edit(back, tx) == t2);
}

proof fn lemma_char_at_bounds(s: Seq<char>, b: int)
    requires
        0 <= b <= byte_len(s),
    ensures
        0 <= char_at_byte(s, b) <= s.len(),
        byte_len(s.take(char_at_byte(s, b))) <= b,
    decreases s.len(),
{
    if s.len() == 0 || b < char_width(s[0]) {
        assert(s.take(0).len() == 0);
    } else {
        lemma_char_at_bounds(s.drop_first(), b - char_width(s[0]));
        let k = char_at_byte(s.drop_first(), b - char_width(s[0]));
        assert(s.take(k + 1).drop_first() == s.drop_first().take(k));
        assert(s.take(k + 1)[0] == s[0]);
    }
}

proof fn lemma_char_at_monotone(s: Seq<char>, a: int, b: int)
    requires
        a <= b,
    ensures
        char_at_byte(s, a) <= char_at_byte(s, b),
    decreases s.len(),
{
    if s.len() > 0 && a >= char_width(s[0]) {
        lemma_char_at_monotone(s.drop_first(), a - char_width(s[0]), b - char_width(s[0]));
    } else {
        lemma_char_at_nonneg(s, b);
    }
}

proof fn lemma_char_at_nonneg(s: Seq<char>, b: int)
    ensures
        char_at_byte(s, b) >= 0,
    decreases s.len(),
{
    if s.len() > 0 && b >= char_width(s[0]) {
        lemma_char_at_nonneg(s.drop_first(), b - char_width(s[0]));
    }
}

#[derive(Clone, Debug)]
pub struct EditorBuffer {
    rope: ropey::Rope,
    version: u64,
    undo_stack: Vec<EditRecord>,
    redo_stack: Vec<EditRecord>,
}

impl EditorBuffer {
    /// The buffer's text.
    pub closed spec fn text(&self) -> Seq<char> {
        rope_text(self.rope)
    }

    pub closed spec fn spec_version(&self) -> u64 {
        self.version
    }

    pub closed spec fn undo_records(&self) -> Seq<EditRecord> {
        self.undo_stack@
    }

    pub closed spec fn redo_records(&self) -> Seq<EditRecord> {
        self.redo_stack@
    }

    /// Every record on both stacks applies cleanly in turn.
    pub open spec fn wf(&self) -> bool {
        undo_chain_ok(self.text(), self.undo_records()) && redo_chain_ok(
            self.text(),
            self.redo_records(),
        )
    }

    pub fn new(text: &str) -> (b: Self)
        ensures
            b.text() == text@,
            b.spec_version() == 0,
            b.undo_records().len() == 0,
            b.redo_records().len() == 0,
            b.wf(),
    {
        Self {
            rope: rope_from_str(text),
            version: 0,
            undo_stack: Vec::new(),
            redo_stack: Vec::new(),
        }
    }

    pub fn version(&self) -> (v: u64)
        ensures
            v == self.spec_version(),
    {
        self.version
    }

    pub fn len_bytes(&self) -> (n: usize)
        ensures
            n == byte_len(self.text()),
    {
        rope_len_bytes(&self.rope)
    }

    pub fn is_empty(&self) -> (b: bool)
        ensures
            b == (byte_len(self.text()) == 0),
    {
        self.len_bytes() == 0
    }

    pub fn can_undo(&self) -> (b: bool)
        ensures
            b == (self.undo_records().len() > 0),
    {
        !self.undo_stack.is_empty()
    }

    pub fn can_redo(&self) -> (b: bool)
        ensures
            b == (self.redo_records().len() > 0),
    {
        !self.redo_stack.is_empty()
    }

    /// The buffer's text as a `String`.
    pub fn to_string(&self) -> (s: String)
        ensures
            s@ == self.text(),
    {
        rope_to_string(&self.rope)
    }

    /// Character, line and word counts of the text.
    pub fn stats(&self) -> (st: EditorStats)
        ensures
            st.chars == self.text().len(),
            st.lines == rope_line_count(self.text()),
            st.words == word_count(self.text()),
    {
        let text = rope_to_string(&self.rope);
        let v = crate::text::chars_of(text.as_str());
        let mut words: usize = 0;
        let mut i: usize = 0;
        while i < v.len()
            invariant
                i <= v.len(),
                words == word_count(v@.take(i as int)),
                words <= i,
            decreases v.len() - i,
        {
            let starts = !crate::text::is_whitespace(v[i]) && (i == 0
                || crate::text::is_whitespace(v[i - 1]));
            proof {
                let t = v@.take(i + 1);
                assert(t.drop_last() == v@.take(i as int));
                assert(t.last() == v@[i as int]);
                if i > 0 {
                    assert(t[t.len() - 2] == v@[i - 1]);
                }
            }
            if starts {
                words = words + 1;
            }
            i += 1;
        }
        proof {
            lemma_take_full(v@);
        }
        let lines = rope_len_lines(&self.rope);
        EditorStats { chars: v.len(), lines: if lines > 1 { lines } else { 1 }, words }
    }

    fn is_char_boundary(&self, offset: usize) -> (b: bool)
        ensures
            b == is_boundary(self.text(), offset as int),
    {
        let t = Ghost(self.text());
        if offset == self.len_bytes() {
            proof {
                lemma_take_full(t@);
                lemma_char_at_start(t@, t@.len() as int);
            }
            return true;
        }
        let n = self.len_bytes();
        let Some(char_idx) = rope_try_byte_to_char(&self.rope, offset) else {
            return false;
        };
        proof {
            lemma_char_at_bounds(t@, offset as int);
            lemma_len_le_byte_len(t@);
            lemma_take_byte_le(t@, char_idx as int);
        }
        match rope_try_char_to_byte(&self.rope, char_idx) {
            Some(byte_idx) => byte_idx == offset,
            None => false,
        }
    }

    fn validate_range(&self, range: Range<usize>) -> (r: Result<Range<usize>, EditorError>)
        ensures
            match r {
                Ok(rr) => rr == range && range_error(
                    self.text(),
                    range.start as int,
                    range.end as int,
                ) is None,
                Err(e) => range_error(self.text(), range.start as int, range.end as int) == Some(
                    e,
                ),
            },
    {
        if range.start > range.end || range.end > self.len_bytes() {
            return Err(EditorError::OutOfBounds);
        }
        if !self.is_char_boundary(range.start) || !self.is_char_boundary(range.end) {
            return Err(EditorError::InvalidUtf8Boundary);
        }
        Ok(range)
    }

    fn char_index(&self, offset: usize) -> (c: usize)
        requires
            is_boundary(self.text(), offset as int),
        ensures
            c == char_at_byte(self.text(), offset as int),
            c <= self.text().len(),
    {
        let n = self.len_bytes();
        proof {
            lemma_char_at_bounds(self.text(), offset as int);
            lemma_len_le_byte_len(self.text());
        }
        match rope_try_byte_to_char(&self.rope, offset) {
            Some(c) => c,
            None => 0,
        }
    }

    fn slice_string(&self, start: usize, end: usize) -> (r: Result<String, EditorError>)
        requires
            is_boundary(self.text(), start as int),
            is_boundary(self.text(), end as int),
            start <= end,
        ensures
            r matches Ok(s) && s@ == self.text().subrange(
                char_at_byte(self.text(), start as int),
                char_at_byte(self.text(), end as int),
            ),
    {
        let start_char = self.char_index(start);
        let end_char = self.char_index(end);
        proof {
            lemma_char_at_monotone(self.text(), start as int, end as int);
        }
        Ok(rope_slice_string(&self.rope, start_char, end_char))
    }

    fn remove_range(&mut self, start: usize, end: usize) -> (r: Result<(), EditorError>)
        requires
            is_boundary(old(self).text(), start as int),
            is_boundary(old(self).text(), end as int),
            start <= end,
        ensures
            r is Ok,
            final(self).text() == old(self).text().take(char_at_byte(old(self).text(), start as int))
                + old(self).text().skip(char_at_byte(old(self).text(), end as int)),
            final(self).spec_version() == old(self).spec_version(),
            final(self).undo_records() == old(self).undo_records(),
            final(self).redo_records() == old(self).redo_records(),
    {
        let start_char = self.char_index(start);
        let end_char = self.char_index(end);
        proof {
            lemma_char_at_monotone(self.text(), start as int, end as int);
        }
        rope_remove(&mut self.rope, start_char, end_char);
        Ok(())
    }

    fn insert_string(&mut self, at_char: usize, text: &str) -> (r: Result<(), EditorError>)
        requires
            at_char <= old(self).text().len(),
        ensures
            r is Ok,
            final(self).text() == old(self).text().take(at_char as int) + text@ + old(
                self,
            ).text().skip(at_char as int),
            final(self).spec_version() == old(self).spec_version(),
            final(self).undo_records() == old(self).undo_records(),
            final(self).redo_records() == old(self).redo_records(),
    {
        rope_insert(&mut self.rope, at_char, text);
        Ok(())
    }

    /// Replaces the byte range of `tx` by its text, with no change to the history.
    fn apply_without_history(&mut self, tx: &EditTransaction) -> (r: Result<(), EditorError>)
        requires
            edit_ok(old(self).text(), *tx),
        ensures
            r is Ok,
            final(self).text() == apply_edit(old(self).text(), *tx),
            final(self).spec_version() == old(self).spec_version(),
            final(self).undo_records() == old(self).undo_records(),
            final(self).redo_records() == old(self).redo_records(),
    {
        let ghost t = self.text();
        let cs = self.char_index(tx.range.start);
        proof {
            lemma_char_at_monotone(t, tx.range.start as int, tx.range.end as int);
            lemma_char_at_bounds(t, tx.range.end as int);
        }
        let _ = self.remove_range(tx.range.start, tx.range.end);
        proof {
            assert((t.take(cs as int) + t.skip(char_at_byte(t, tx.range.end as int))).take(
                cs as int,
            ) == t.take(cs as int));
            assert((t.take(cs as int) + t.skip(char_at_byte(t, tx.range.end as int))).skip(
                cs as int,
            ) == t.skip(char_at_byte(t, tx.range.end as int)));
        }
        let _ = self.insert_string(cs, tx.replacement.as_str());
        Ok(())
    }

    /// Applies `tx`, records it for undo and clears the redo history.
    pub fn apply(&mut self, tx: EditTransaction) -> (r: Result<EditRecord, EditorError>)
        requires
            old(self).wf(),
        ensures
            final(self).wf(),
            match edit_error(old(self).text(), tx) {
                Some(e) => r == Err::<EditRecord, EditorError>(e) && *final(self) == *old(self),
                None => r matches Ok(rec) && {
                    &&& rec.after == tx
                    &&& undoes(rec.before, old(self).text(), tx)
                    &&& final(self).text() == apply_edit(old(self).text(), tx)
                    &&& final(self).undo_records() == old(self).undo_records().push(rec)
                    &&& final(self).redo_records().len() == 0
                    &&& final(self).spec_version() == old(self).spec_version().wrapping_add(1)
                },
            },
    {
        let ghost t = self.text();
        let range = match self.validate_range(tx.range.start..tx.range.end) {
            Ok(range) => range,
            Err(e) => return Err(e),
        };
        assert(edit_ok(t, tx));
        let removed = match self.slice_string(range.start, range.end) {
            Ok(s) => s,
            Err(e) => return Err(e),
        };
        let cs = self.char_index(range.start);
        let rchars = crate::text::chars_of(tx.replacement.as_str()).len();
        let _ = self.apply_without_history(&tx);
        proof {
            let r = tx.replacement@;
            lemma_char_at_bounds(t, tx.range.end as int);
            lemma_char_at_monotone(t, tx.range.start as int, tx.range.end as int);
            assert(self.text().take(cs + r.len()) == t.take(cs as int) + r);
            lemma_byte_len_concat(t.take(cs as int), r);
        }
        let n2 = self.len_bytes();
        proof {
            let t2 = self.text();
            lemma_len_le_byte_len(t2);
            lemma_take_byte_le(t2, cs + rchars);
            assert(t2.len() == cs + rchars + (t.len() - char_at_byte(t, tx.range.end as int)));
        }
        let end_byte = match rope_try_char_to_byte(&self.rope, cs + rchars) {
            Some(b) => b,
            None => range.start,
        };
        let before = EditTransaction {
            range: range.start..end_byte,
            replacement: removed,
        };
        let after = tx;
        let record = EditRecord { before, after };
        proof {
            law_undo_restores(t, record.after, record.before);
        }
        let ghost old_undo = self.undo_stack@;
        self.undo_stack.push(record.clone());
        self.redo_stack.clear();
        self.version = self.version.wrapping_add(1);
        proof {
            let st = self.undo_stack@;
            assert(st.drop_last() == old_undo);
            assert(st.last() == record);
            assert(apply_edit(self.text(), record.before) == t);
            assert(undo_chain_ok(self.text(), st));
        }
        Ok(record)
    }

    /// Undoes the latest applied edit: its `before` is applied and the record moves to the
    /// redo history. With nothing to undo, nothing changes.
    pub fn undo(&mut self) -> (r: Result<Option<EditRecord>, EditorError>)
        requires
            old(self).wf(),
        ensures
            final(self).wf(),
            old(self).undo_records().len() == 0 ==> r == Ok::<Option<EditRecord>, EditorError>(
                None,
            ) && *final(self) == *old(self),
            old(self).undo_records().len() > 0 ==> {
                let rec = old(self).undo_records().last();
                &&& r == Ok::<Option<EditRecord>, EditorError>(Some(rec))
                &&& final(self).text() == apply_edit(old(self).text(), rec.before)
                &&& final(self).undo_records() == old(self).undo_records().drop_last()
                &&& final(self).redo_records() == old(self).redo_records().push(rec)
                &&& final(self).spec_version() == old(self).spec_version().wrapping_add(1)
            },
    {
        let ghost t = self.text();
        let ghost old_redo = self.redo_stack@;
        if self.undo_stack.len() == 0 {
            return Ok(None);
        }
        let record = match self.undo_stack.pop() {
            Some(record) => record,
            None => return Ok(None),
        };
        let _ = self.apply_without_history(&record.before);
        self.redo_stack.push(record.clone());
        self.version = self.version.wrapping_add(1);
        proof {
            let st = self.redo_stack@;
            assert(st.drop_last() == old_redo);
            assert(st.last() == record);
        }
        Ok(Some(record))
    }

    /// Redoes the latest undone edit: its `after` is applied again and the record moves back
    /// to the undo history. With nothing to redo, nothing changes.
    pub fn redo(&mut self) -> (r: Result<Option<EditRecord>, EditorError>)
        requires
            old(self).wf(),
        ensures
            final(self).wf(),
            old(self).redo_records().len() == 0 ==> r == Ok::<Option<EditRecord>, EditorError>(
                None,
            ) && *final(self) == *old(self),
            old(self).redo_records().len() > 0 ==> {
                let rec = old(self).redo_records().last();
                &&& r == Ok::<Option<EditRecord>, EditorError>(Some(rec))
                &&& final(self).text() == apply_edit(old(self).text(), rec.after)
                &&& final(self).redo_records() == old(self).redo_records().drop_last()
                &&& final(self).undo_records() == old(self).undo_records().push(rec)
                &&& final(self).spec_version() == old(self).spec_version().wrapping_add(1)
            },
    {
        let ghost t = self.text();
        let ghost old_undo = self.undo_stack@;
        if self.redo_stack.len() == 0 {
            return Ok(None);
        }
        let record = match self.redo_stack.pop() {
            Some(record) => record,
            None => return Ok(None),
        };
        let _ = self.apply_without_history(&record.after);
        self.undo_stack.push(record.clone());
        self.version = self.version.wrapping_add(1);
        proof {
            let st = self.undo_stack@;
            assert(st.drop_last() == old_undo);
            assert(st.last() == record);
        }
        Ok(Some(record))
    }

    /// Replaces the whole text and forgets the history.
    pub fn replace_all(&mut self, text: &str)
        ensures
            final(self).text() == text@,
            final(self).undo_records().len() == 0,
            final(self).redo_records().len() == 0,
            final(self).spec_version() == old(self).spec_version().wrapping_add(1),
            final(self).wf(),
    {
        self.rope = rope_from_str(text);
        self.version = self.version.wrapping_add(1);
        self.undo_stack.clear();
        self.redo_stack.clear();
    }
}

} // verus!
