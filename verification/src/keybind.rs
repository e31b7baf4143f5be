//! Key chords, context conditions and the keymap that resolves a key press to a command.
use vstd::prelude::*;
use crate::command::{CommandId, command_name, command_named, command_specs, command_order, default_shortcut_of, spec_matches};
use crate::text::{chars_of, string_of, push_str, push_all, trim, trim_chars, trimmed, lower_ascii, lower_seq, eq_str, split_on, split_char, split_seq, split_str, views, seq_eq, owned, is_ws, ascii_lower, lemma_split_concat, lemma_split_line, lemma_split_no_char, lemma_split_pieces, lemma_trim_fixed, lemma_trim_ends, lemma_trim_sub};

verus! {

#[derive(Clone, Copy, Debug, PartialEq, Eq, Structural)]
pub struct KeyModifiers {
    pub ctrl: bool,
    pub alt: bool,
    pub shift: bool,
    pub meta: bool,
}

pub open spec fn no_mods() -> KeyModifiers {
    KeyModifiers { ctrl: false, alt: false, shift: false, meta: false }
}

impl Default for KeyModifiers {
    fn default() -> (m: KeyModifiers)
        ensures
            m == no_mods(),
    {
        KeyModifiers { ctrl: false, alt: false, shift: false, meta: false }
    }
}

/// A key with the modifiers held with it; the key is in ASCII lower case.
#[derive(Clone, Debug, PartialEq, Eq)]
pub struct KeyChord {
    pub mods: KeyModifiers,
    pub key: String,
}

/// The pieces of `parts`, trimmed, without the blank ones.
pub open spec fn nonblank_trimmed(parts: Seq<Seq<char>>) -> Seq<Seq<char>>
    decreases parts.len(),
{
    if parts.len() == 0 {
        Seq::empty()
    } else {
        let rest = nonblank_trimmed(parts.drop_last());
        let t = trim(parts.last());
        if t.len() == 0 {
            rest
        } else {
            rest.push(t)
        }
    }
}

/// Which modifier a lower-case token names: 0 ctrl, 1 alt, 2 shift, 3 meta; 4 none.
pub open spec fn modifier_slot(t: Seq<char>) -> u8 {
    if t == "ctrl"@ || t == "control"@ {
        0
    } else if t == "alt"@ || t == "option"@ {
        1
    } else if t == "shift"@ {
        2
    } else if t == "meta"@ || t == "cmd"@ || t == "command"@ || t == "super"@ || t == "win"@ {
        3
    } else {
        4
    }
}

pub open spec fn with_mod(m: KeyModifiers, slot: u8) -> KeyModifiers {
    if slot == 0 {
        KeyModifiers { ctrl: true, ..m }
    } else if slot == 1 {
        KeyModifiers { alt: true, ..m }
    } else if slot == 2 {
        KeyModifiers { shift: true, ..m }
    } else if slot == 3 {
        KeyModifiers { meta: true, ..m }
    } else {
        m
    }
}

/// Reads chord tokens in order: modifiers accumulate, one other token is the key, a second
/// key makes the chord invalid.
pub open spec fn chord_fold(tokens: Seq<Seq<char>>) -> Option<(KeyModifiers, Option<Seq<char>>)>
    decreases tokens.len(),
{
    if tokens.len() == 0 {
        Some((no_mods(), None))
    } else {
        match chord_fold(tokens.drop_last()) {
            None => None,
            Some((m, k)) => {
                let t = lower_seq(tokens.last());
                if modifier_slot(t) < 4 {
                    Some((with_mod(m, modifier_slot(t)), k))
                } else if k is Some {
                    None
                } else {
                    Some((m, Some(t)))
                }
            },
        }
    }
}

/// The chord that `input` denotes: `+`-separated tokens, case and surrounding whitespace
/// aside, exactly one of which is not a modifier.
pub open spec fn parse_chord(input: Seq<char>) -> Option<(KeyModifiers, Seq<char>)> {
    match chord_fold(nonblank_trimmed(split_on(trim(input), '+'))) {
        Some((m, Some(k))) => Some((m, k)),
        _ => None,
    }
}

/// How a chord is written: `Ctrl+Alt+Shift+Meta+key`, with the modifiers it has.
pub open spec fn chord_text(m: KeyModifiers, k: Seq<char>) -> Seq<char> {
    (if m.ctrl { "Ctrl+"@ } else { Seq::empty() }) + (if m.alt { "Alt+"@ } else { Seq::empty() })
        + (if m.shift { "Shift+"@ } else { Seq::empty() }) + (if m.meta { "Meta+"@ } else { Seq::empty() }) + k
}

fn modifier_slot_of(t: &[char]) -> (slot: u8)
    ensures
        slot == modifier_slot(t@),
{
    if eq_str(t, "ctrl") || eq_str(t, "control") {
        0
    } else if eq_str(t, "alt") || eq_str(t, "option") {
        1
    } else if eq_str(t, "shift") {
        2
    } else if eq_str(t, "meta") || eq_str(t, "cmd") || eq_str(t, "command") || eq_str(t, "super")
        || eq_str(t, "win") {
        3
    } else {
        4
    }
}

/// `parts`, trimmed, without the blank ones.
fn nonblank_trimmed_exec(parts: &Vec<Vec<char>>) -> (r: Vec<Vec<char>>)
    ensures
        views(r@) == nonblank_trimmed(views(parts@)),
{
    let mut r: Vec<Vec<char>> = Vec::new();
    let mut i: usize = 0;
    assert(views(parts@).take(0) =~= Seq::<Seq<char>>::empty());
    assert(views(r@) =~= Seq::<Seq<char>>::empty());
    while i < parts.len()
        invariant
            i <= parts.len(),
            views(r@) == nonblank_trimmed(views(parts@).take(i as int)),
        decreases parts.len() - i,
    {
        proof {
            assert(views(parts@).take(i + 1).drop_last() =~= views(parts@).take(i as int));
            assert(views(parts@).take(i + 1).last() == parts@[i as int]@);
        }
        let t = trim_chars(&parts[i]);
        if t.len() > 0 {
            let ghost before = r@;
            r.push(t);
            assert(views(r@) =~= views(before).push(t@));
        }
        i += 1;
    }
    assert(views(parts@).take(parts.len() as int) =~= views(parts@));
    r
}

impl KeyChord {
    pub fn parse(input: &str) -> (r: Option<KeyChord>)
        ensures
            match parse_chord(input@) {
                Some((m, k)) => r matches Some(c) && c.mods == m && c.key@ == k,
                None => r is None,
            },
    {
        let raw = trimmed(input);
        let parts = split_char(&raw, '+');
        let tokens = nonblank_trimmed_exec(&parts);
        let ghost tv = views(tokens@);
        let mut mods = KeyModifiers { ctrl: false, alt: false, shift: false, meta: false };
        let mut key: Option<Vec<char>> = None;
        let mut i: usize = 0;
        assert(tv.take(0) =~= Seq::<Seq<char>>::empty());
        while i < tokens.len()
            invariant
                i <= tokens.len(),
                tv == views(tokens@),
                tv == nonblank_trimmed(split_on(trim(input@), '+')),
                chord_fold(tv.take(i as int)) == Some(
                    (
                        mods,
                        match key {
                            Some(k) => Some(k@),
                            None => None::<Seq<char>>,
                        },
                    ),
                ),
            decreases tokens.len() - i,
        {
            proof {
                assert(tv.take(i + 1).drop_last() =~= tv.take(i as int));
                assert(tv.take(i + 1).last() == tokens@[i as int]@);
            }
            let token = lower_ascii(&tokens[i]);
            let slot = modifier_slot_of(&token);
            if slot == 0 {
                mods.ctrl = true;
            } else if slot == 1 {
                mods.alt = true;
            } else if slot == 2 {
                mods.shift = true;
            } else if slot == 3 {
                mods.meta = true;
            } else {
                if key.is_some() {
                    proof {
                        lemma_chord_fold_none(tv, i + 1);
                    }
                    return None;
                }
                key = Some(token);
            }
            i += 1;
        }
        assert(tv.take(tokens.len() as int) =~= tv);
        match key {
            Some(k) => Some(KeyChord { mods, key: string_of(&k) }),
            None => None,
        }
    }

    /// The chord written out (see `chord_text`).
    pub fn to_string(&self) -> (s: String)
        ensures
            s@ == chord_text(self.mods, self.key@),
    {
        let mut out: Vec<char> = Vec::new();
        if self.mods.ctrl {
            push_str(&mut out, "Ctrl+");
        }
        if self.mods.alt {
            push_str(&mut out, "Alt+");
        }
        if self.mods.shift {
            push_str(&mut out, "Shift+");
        }
        if self.mods.meta {
            push_str(&mut out, "Meta+");
        }
        push_str(&mut out, self.key.as_str());
        assert(out@ =~= chord_text(self.mods, self.key@));
        string_of(&out)
    }

    /// The canonical writing of the chord that `input` denotes.
    pub fn normalize_string(input: &str) -> (r: Option<String>)
        ensures
            match parse_chord(input@) {
                Some((m, k)) => r matches Some(s) && s@ == chord_text(m, k),
                None => r is None,
            },
    {
        match KeyChord::parse(input) {
            Some(c) => Some(c.to_string()),
            None => None,
        }
    }

    /// Whether a key press (key name in any ASCII case, and the modifiers held) is this chord.
    pub fn matches_event(
        &self,
        event_key: &str,
        control_or_platform: bool,
        alt: bool,
        shift: bool,
        meta: bool,
    ) -> (b: bool)
        ensures
            b == (self.mods == KeyModifiers { ctrl: control_or_platform, alt, shift, meta }
                && self.key@ == lower_seq(event_key@)),
    {
        if !(self.mods.ctrl == control_or_platform && self.mods.alt == alt && self.mods.shift == shift
            && self.mods.meta == meta) {
            return false;
        }
        let e = chars_of(event_key);
        let l = lower_ascii(&e);
        let k = chars_of(self.key.as_str());
        seq_eq(&k, &l)
    }
}

proof fn lemma_chord_fold_none(p: Seq<Seq<char>>, j: int)
    requires
        0 <= j <= p.len(),
        chord_fold(p.take(j)) is None,
    ensures
        chord_fold(p) is None,
    decreases p.len() - j,
{
    if j < p.len() {
        assert(p.take(j + 1).drop_last() =~= p.take(j));
        lemma_chord_fold_none(p, j + 1);
    } else {
        assert(p.take(j) =~= p);
    }
}

// ---------------------------------------------------------------------------
// Contexts and conditions
// ---------------------------------------------------------------------------
/// Named flags describing where the user is (in the editor, a panel open, ...); unset
/// flags are false.
#[derive(Clone, Debug, PartialEq, Eq)]
pub struct KeyContext {
    values: Vec<(String, bool)>,
}

/// The last value given to `k`, or false.
pub open spec fn flag_value(vs: Seq<(String, bool)>, k: Seq<char>) -> bool
    decreases vs.len(),
{
    if vs.len() == 0 {
        false
    } else if vs.last().0@ == k {
        vs.last().1
    } else {
        flag_value(vs.drop_last(), k)
    }
}

impl KeyContext {
    pub closed spec fn flag(&self, k: Seq<char>) -> bool {
        flag_value(self.values@, k)
    }

    pub fn new() -> (c: KeyContext)
        ensures
            forall|k: Seq<char>| !c.flag(k),
    {
        KeyContext { values: Vec::new() }
    }

    pub fn with(self, key: &str, value: bool) -> (c: KeyContext)
        ensures
            forall|k: Seq<char>| c.flag(k) == if k == key@ { value } else { self.flag(k) },
    {
        let mut c = self;
        c.set(key, value);
        c
    }

    pub fn set(&mut self, key: &str, value: bool)
        ensures
            forall|k: Seq<char>|
                final(self).flag(k) == if k == key@ { value } else { old(self).flag(k) },
    {
        let ghost before = self.values@;
        self.values.push((owned(key), value));
        assert(self.values@.drop_last() =~= before);
    }

    pub fn get(&self, key: &str) -> (b: bool)
        ensures
            b == self.flag(key@),
    {
        let mut i = self.values.len();
        assert(self.values@.take(i as int) =~= self.values@);
        while i > 0
            invariant
                i <= self.values.len(),
                flag_value(self.values@, key@) == flag_value(self.values@.take(i as int), key@),
            decreases i,
        {
            proof {
                assert(self.values@.take(i as int).drop_last() =~= self.values@.take(i - 1));
                assert(self.values@.take(i as int).last() == self.values@[i - 1]);
            }
            let k = chars_of(self.values[i - 1].0.as_str());
            if eq_str(&k, key) {
                return self.values[i - 1].1;
            }
            i -= 1;
        }
        assert(self.values@.take(0) =~= Seq::<(String, bool)>::empty());
        false
    }
}

impl Default for KeyContext {
    fn default() -> (c: KeyContext)
        ensures
            forall|k: Seq<char>| !c.flag(k),
    {
        KeyContext::new()
    }
}

/// A condition on the context: every listed flag has the listed value (none: always).
#[derive(Clone, Debug, PartialEq, Eq)]
pub struct ContextExpr {
    pub clauses: Vec<(String, bool)>,
}

pub open spec fn clause_views(v: Seq<(String, bool)>) -> Seq<(Seq<char>, bool)> {
    v.map_values(|c: (String, bool)| (c.0@, c.1))
}

pub open spec fn holds(clauses: Seq<(Seq<char>, bool)>, ctx: KeyContext) -> bool {
    forall|i: int| 0 <= i < clauses.len() ==> ctx.flag(#[trigger] clauses[i].0) == clauses[i].1
}

/// The clauses of `&&`-separated tokens: `!flag` asks for false, `flag` for true; a `!`
/// with nothing after it is invalid.
pub open spec fn when_clauses(tokens: Seq<Seq<char>>) -> Option<Seq<(Seq<char>, bool)>>
    decreases tokens.len(),
{
    if tokens.len() == 0 {
        Some(Seq::empty())
    } else {
        match when_clauses(tokens.drop_last()) {
            None => None,
            Some(cs) => {
                let t = tokens.last();
                if t.len() > 0 && t[0] == '!' {
                    let k = trim(t.drop_first());
                    if k.len() == 0 {
                        None
                    } else {
                        Some(cs.push((k, false)))
                    }
                } else {
                    Some(cs.push((t, true)))
                }
            },
        }
    }
}

/// The condition that a `when` text states; `Err` carries the complaint.
pub open spec fn parse_when(input: Option<Seq<char>>) -> Result<Seq<(Seq<char>, bool)>, Seq<char>> {
    match input {
        None => Ok(Seq::empty()),
        Some(raw) => {
            let t = trim(raw);
            if t.len() == 0 {
                Ok(Seq::empty())
            } else {
                match when_clauses(nonblank_trimmed(split_seq(t, "&&"@))) {
                    Some(cs) => Ok(cs),
                    None => Err("invalid context expression: "@ + t),
                }
            }
        },
    }
}

proof fn lemma_when_none(p: Seq<Seq<char>>, j: int)
    requires
        0 <= j <= p.len(),
        when_clauses(p.take(j)) is None,
    ensures
        when_clauses(p) is None,
    decreases p.len() - j,
{
    if j < p.len() {
        assert(p.take(j + 1).drop_last() =~= p.take(j));
        lemma_when_none(p, j + 1);
    } else {
        assert(p.take(j) =~= p);
    }
}

impl ContextExpr {
    pub fn evaluate(&self, context: &KeyContext) -> (b: bool)
        ensures
            b == holds(clause_views(self.clauses@), *context),
    {
        let mut i: usize = 0;
        while i < self.clauses.len()
            invariant
                i <= self.clauses.len(),
                forall|k: int| 0 <= k < i ==> context.flag(#[trigger] clause_views(self.clauses@)[k].0)
                    == clause_views(self.clauses@)[k].1,
            decreases self.clauses.len() - i,
        {
            if context.get(self.clauses[i].0.as_str()) != self.clauses[i].1 {
                assert(clause_views(self.clauses@)[i as int].0 == self.clauses@[i as int].0@);
                return false;
            }
            i += 1;
        }
        true
    }

    pub fn parse(input: Option<&str>) -> (r: Result<ContextExpr, String>)
        ensures
            match parse_when(
                match input {
                    Some(s) => Some(s@),
                    None => None,
                },
            ) {
                Ok(cs) => r matches Ok(e) && clause_views(e.clauses@) == cs,
                Err(msg) => r matches Err(m) && m@ == msg,
            },
    {
        let raw = match input {
            None => {
                let e = ContextExpr { clauses: Vec::new() };
                assert(clause_views(e.clauses@) =~= Seq::<(Seq<char>, bool)>::empty());
                return Ok(e);
            },
            Some(raw) => raw,
        };
        let t = trimmed(raw);
        if t.len() == 0 {
            let e = ContextExpr { clauses: Vec::new() };
            assert(clause_views(e.clauses@) =~= Seq::<(Seq<char>, bool)>::empty());
            return Ok(e);
        }
        let sep = chars_of("&&");
        proof {
            reveal_strlit("&&");
        }
        let parts = split_str(&t, &sep);
        let tokens = nonblank_trimmed_exec(&parts);
        match when_clauses_exec(&tokens) {
            Some(clauses) => Ok(ContextExpr { clauses }),
            None => {
                let mut msg = chars_of("invalid context expression: ");
                push_all(&mut msg, &t);
                Err(string_of(&msg))
            },
        }
    }
}

fn when_clauses_exec(tokens: &Vec<Vec<char>>) -> (r: Option<Vec<(String, bool)>>)
    ensures
        match when_clauses(views(tokens@)) {
            Some(cs) => r matches Some(v) && clause_views(v@) == cs,
            None => r is None,
        },
{
    let ghost tv = views(tokens@);
    let mut clauses: Vec<(String, bool)> = Vec::new();
    let mut i: usize = 0;
    assert(tv.take(0) =~= Seq::<Seq<char>>::empty());
    assert(clause_views(clauses@) =~= Seq::<(Seq<char>, bool)>::empty());
    while i < tokens.len()
        invariant
            i <= tokens.len(),
            tv == views(tokens@),
            when_clauses(tv.take(i as int)) == Some(clause_views(clauses@)),
        decreases tokens.len() - i,
    {
        proof {
            assert(tv.take(i + 1).drop_last() =~= tv.take(i as int));
            assert(tv.take(i + 1).last() == tokens@[i as int]@);
        }
        let tok = &tokens[i];
        let ghost before = clause_views(clauses@);
        if tok.len() > 0 && tok[0] == '!' {
            let rest = crate::text::slice_of(tok, 1, tok.len());
            let k = trim_chars(&rest);
            assert(rest@ =~= tok@.drop_first());
            if k.len() == 0 {
                proof {
                    lemma_when_none(tv, i + 1);
                }
                return None;
            }
            clauses.push((string_of(&k), false));
        } else {
            clauses.push((string_of(tok), true));
        }
        assert(clause_views(clauses@) =~= before.push(clause_views(clauses@).last()));
        i += 1;
    }
    assert(tv.take(tokens.len() as int) =~= tv);
    Some(clauses)
}


// ---------------------------------------------------------------------------
// The keymap
// ---------------------------------------------------------------------------
/// One binding of a chord to a command, under a condition, with the rank by which
/// competing bindings are decided (higher priority, then later order, wins).
#[derive(Clone, Debug)]
pub struct KeybindingEntry {
    pub command: CommandId,
    pub chord: KeyChord,
    pub chord_text: String,
    pub when: ContextExpr,
    pub when_text: String,
    pub source_priority: u8,
    pub source_order: usize,
}

pub struct EntryModel {
    pub command: CommandId,
    pub mods: KeyModifiers,
    pub key: Seq<char>,
    pub chord_text: Seq<char>,
    pub when: Seq<(Seq<char>, bool)>,
    pub when_text: Seq<char>,
    pub priority: u8,
    pub order: usize,
}

impl View for KeybindingEntry {
    type V = EntryModel;

    open spec fn view(&self) -> EntryModel {
        EntryModel {
            command: self.command,
            mods: self.chord.mods,
            key: self.chord.key@,
            chord_text: self.chord_text@,
            when: clause_views(self.when.clauses@),
            when_text: self.when_text@,
            priority: self.source_priority,
            order: self.source_order,
        }
    }
}

pub open spec fn entry_views(es: Seq<KeybindingEntry>) -> Seq<EntryModel> {
    es.map_values(|e: KeybindingEntry| e@)
}

/// `a` ranks at least as high as `b`.
pub open spec fn rank_ge(a: EntryModel, b: EntryModel) -> bool {
    a.priority > b.priority || (a.priority == b.priority && a.order >= b.order)
}

/// The index of the highest-ranked binding that satisfies `pred`; among equals, the last.
pub open spec fn best(es: Seq<EntryModel>, pred: spec_fn(EntryModel) -> bool) -> Option<int>
    decreases es.len(),
{
    if es.len() == 0 {
        None
    } else {
        let b = best(es.drop_last(), pred);
        if pred(es.last()) {
            match b {
                None => Some(es.len() - 1),
                Some(j) => if rank_ge(es.last(), es[j]) {
                    Some(es.len() - 1)
                } else {
                    Some(j)
                },
            }
        } else {
            b
        }
    }
}

/// No clause asks for a flag to be set: the condition holds in an empty context.
pub open spec fn holds_when_empty(cl: Seq<(Seq<char>, bool)>) -> bool {
    forall|i: int| 0 <= i < cl.len() ==> !(#[trigger] cl[i]).1
}

pub open spec fn by_text(t: Seq<char>) -> spec_fn(EntryModel) -> bool {
    |e: EntryModel| lower_seq(e.chord_text) == lower_seq(t) && holds_when_empty(e.when)
}

pub open spec fn by_event(key: Seq<char>, m: KeyModifiers, ctx: KeyContext) -> spec_fn(EntryModel) -> bool {
    |e: EntryModel| e.mods == m && e.key == lower_seq(key) && holds(e.when, ctx)
}

pub open spec fn by_event_empty(key: Seq<char>, m: KeyModifiers) -> spec_fn(EntryModel) -> bool {
    |e: EntryModel| e.mods == m && e.key == lower_seq(key) && holds_when_empty(e.when)
}

pub open spec fn by_command(c: CommandId) -> spec_fn(EntryModel) -> bool {
    |e: EntryModel| e.command == c
}

/// The bindings of other commands.
pub open spec fn without_command(es: Seq<EntryModel>, c: CommandId) -> Seq<EntryModel>
    decreases es.len(),
{
    if es.len() == 0 {
        es
    } else if es.last().command == c {
        without_command(es.drop_last(), c)
    } else {
        without_command(es.drop_last(), c).push(es.last())
    }
}

/// Binding `chord` to `command` under `when`: the chord is written canonically (and must
/// read back), the condition must parse; with `clear`, the command's other bindings go.
pub open spec fn bind_result(
    es: Seq<EntryModel>,
    chord: Seq<char>,
    command: CommandId,
    when: Option<Seq<char>>,
    priority: u8,
    order: usize,
    clear: bool,
) -> Result<Seq<EntryModel>, Seq<char>> {
    match parse_chord(chord) {
        None => Err("invalid key chord: "@ + chord),
        Some((m, k)) => match parse_chord(chord_text(m, k)) {
            None => Err("invalid key chord: "@ + chord),
            Some((m2, k2)) => match parse_when(when) {
                Err(msg) => Err(msg),
                Ok(cl) => Ok(
                    (if clear { without_command(es, command) } else { es }).push(
                        EntryModel {
                            command,
                            mods: m2,
                            key: k2,
                            chord_text: chord_text(m, k),
                            when: cl,
                            when_text: match when {
                                Some(w) => trim(w),
                                None => Seq::empty(),
                            },
                            priority,
                            order,
                        },
                    ),
                ),
            },
        },
    }
}

/// Binding, where a failed binding leaves the keymap as it was.
pub open spec fn bind_or_keep(
    es: Seq<EntryModel>,
    chord: Seq<char>,
    command: CommandId,
    priority: u8,
    order: usize,
) -> Seq<EntryModel> {
    match bind_result(es, chord, command, None, priority, order, true) {
        Ok(n) => n,
        Err(_) => es,
    }
}

/// The default keymap: each command's default shortcut in menu order, at priority 10.
pub open spec fn default_bindings(n: nat) -> Seq<EntryModel>
    decreases n,
{
    if n == 0 {
        Seq::empty()
    } else {
        let c = command_order()[n - 1];
        bind_or_keep(default_bindings((n - 1) as nat), default_shortcut_of(c), c, 10, (n - 1) as usize)
    }
}

/// Overrides taken in order, each at its index and at `priority`; the first failure stops
/// them, with the earlier ones applied.
#[verifier::opaque]
pub open spec fn overrides_result(
    es: Seq<EntryModel>,
    list: Seq<(Seq<char>, Seq<char>, Option<Seq<char>>)>,
    priority: u8,
    clear: bool,
) -> (Seq<EntryModel>, Option<Seq<char>>)
    decreases list.len(),
{
    if list.len() == 0 {
        (es, None)
    } else {
        let (prev, err) = overrides_result(es, list.drop_last(), priority, clear);
        if err is Some {
            (prev, err)
        } else {
            let (cid, chord, when) = list.last();
            match command_named(cid) {
                None => (prev, Some("unknown command id: "@ + cid)),
                Some(c) => match bind_result(prev, chord, c, when, priority, (list.len() - 1) as usize, clear) {
                    Ok(n) => (n, None),
                    Err(m) => (prev, Some(m)),
                },
            }
        }
    }
}

/// The key bindings of the editor.
pub struct Keymap {
    entries: Vec<KeybindingEntry>,
}

impl Default for Keymap {
    fn default() -> (k: Keymap)
        ensures
            k.bindings().len() == 0,
    {
        Keymap { entries: Vec::new() }
    }
}

proof fn lemma_best_step(es: Seq<EntryModel>, pred: spec_fn(EntryModel) -> bool, i: int)
    requires
        0 <= i < es.len(),
    ensures
        best(es.take(i + 1), pred) == (if pred(es[i]) {
            match best(es.take(i), pred) {
                None => Some(i),
                Some(j) => if rank_ge(es[i], es[j]) {
                    Some(i)
                } else {
                    Some(j)
                },
            }
        } else {
            best(es.take(i), pred)
        }),
{
    assert(es.take(i + 1).drop_last() =~= es.take(i));
    assert(es.take(i + 1).last() == es[i]);
    lemma_best_range(es.take(i), pred);
    match best(es.take(i), pred) {
        Some(j) => {
            assert(es.take(i + 1)[j] == es[j]);
        },
        None => {},
    }
}

proof fn lemma_best_range(es: Seq<EntryModel>, pred: spec_fn(EntryModel) -> bool)
    ensures
        best(es, pred) matches Some(j) ==> 0 <= j < es.len() && pred(es[j]),
    decreases es.len(),
{
    if es.len() > 0 {
        lemma_best_range(es.drop_last(), pred);
    }
}

proof fn lemma_holds_empty(cl: Seq<(Seq<char>, bool)>, ctx: KeyContext)
    requires
        forall|k: Seq<char>| !ctx.flag(k),
    ensures
        holds(cl, ctx) == holds_when_empty(cl),
{
    if holds(cl, ctx) {
        assert forall|i: int| 0 <= i < cl.len() implies !(#[trigger] cl[i]).1 by {
            assert(ctx.flag(cl[i].0) == cl[i].1);
        }
    }
    if holds_when_empty(cl) {
        assert forall|i: int| 0 <= i < cl.len() implies ctx.flag(#[trigger] cl[i].0) == cl[i].1 by {
            assert(!cl[i].1);
        }
    }
}

fn when_holds_empty(w: &ContextExpr) -> (b: bool)
    ensures
        b == holds_when_empty(clause_views(w.clauses@)),
{
    let ctx = KeyContext::new();
    let b = w.evaluate(&ctx);
    proof {
        lemma_holds_empty(clause_views(w.clauses@), ctx);
    }
    b
}

fn lower_eq(a: &String, b: &[char]) -> (r: bool)
    ensures
        r == (lower_seq(a@) == lower_seq(b@)),
{
    let x = chars_of(a.as_str());
    let lx = lower_ascii(&x);
    let ly = lower_ascii(b);
    seq_eq(&lx, &ly)
}

impl Keymap {
    pub closed spec fn bindings(&self) -> Seq<EntryModel> {
        entry_views(self.entries@)
    }

    fn best_by_text(&self, t: &[char]) -> (r: Option<usize>)
        ensures
            r == (match best(self.bindings(), by_text(t@)) {
                Some(j) => Some(j as usize),
                None => None::<usize>,
            }),
            r matches Some(j) ==> j < self.entries.len(),
    {
        let ghost es = self.bindings();
        let mut b: Option<usize> = None;
        let mut i: usize = 0;
        assert(es.take(0) =~= Seq::<EntryModel>::empty());
        while i < self.entries.len()
            invariant
                i <= self.entries.len(),
                es == self.bindings(),
                b == (match best(es.take(i as int), by_text(t@)) {
                    Some(j) => Some(j as usize),
                    None => None::<usize>,
                }),
                b matches Some(j) ==> j < i,
            decreases self.entries.len() - i,
        {
            proof {
                lemma_best_step(es, by_text(t@), i as int);
                lemma_best_range(es.take(i as int), by_text(t@));
            }
            let e = &self.entries[i];
            if lower_eq(&e.chord_text, t) && when_holds_empty(&e.when) {
                match b {
                    None => {
                        b = Some(i);
                    },
                    Some(j) => {
                        let f = &self.entries[j];
                        if e.source_priority > f.source_priority || (e.source_priority == f.source_priority
                            && e.source_order >= f.source_order) {
                            b = Some(i);
                        }
                    },
                }
            }
            i += 1;
        }
        assert(es.take(self.entries.len() as int) =~= es);
        b
    }

    fn best_by_event(&self, key: &str, m: KeyModifiers, ctx: &KeyContext) -> (r: Option<usize>)
        ensures
            r == (match best(self.bindings(), by_event(key@, m, *ctx)) {
                Some(j) => Some(j as usize),
                None => None::<usize>,
            }),
            r matches Some(j) ==> j < self.entries.len(),
    {
        let ghost es = self.bindings();
        let mut b: Option<usize> = None;
        let mut i: usize = 0;
        assert(es.take(0) =~= Seq::<EntryModel>::empty());
        while i < self.entries.len()
            invariant
                i <= self.entries.len(),
                es == self.bindings(),
                b == (match best(es.take(i as int), by_event(key@, m, *ctx)) {
                    Some(j) => Some(j as usize),
                    None => None::<usize>,
                }),
                b matches Some(j) ==> j < i,
            decreases self.entries.len() - i,
        {
            proof {
                lemma_best_step(es, by_event(key@, m, *ctx), i as int);
                lemma_best_range(es.take(i as int), by_event(key@, m, *ctx));
            }
            let e = &self.entries[i];
            if e.chord.matches_event(key, m.ctrl, m.alt, m.shift, m.meta) && e.when.evaluate(ctx) {
                match b {
                    None => {
                        b = Some(i);
                    },
                    Some(j) => {
                        let f = &self.entries[j];
                        if e.source_priority > f.source_priority || (e.source_priority == f.source_priority
                            && e.source_order >= f.source_order) {
                            b = Some(i);
                        }
                    },
                }
            }
            i += 1;
        }
        assert(es.take(self.entries.len() as int) =~= es);
        b
    }

    fn best_by_command(&self, c: CommandId) -> (r: Option<usize>)
        ensures
            r == (match best(self.bindings(), by_command(c)) {
                Some(j) => Some(j as usize),
                None => None::<usize>,
            }),
            r matches Some(j) ==> j < self.entries.len(),
    {
        let ghost es = self.bindings();
        let mut b: Option<usize> = None;
        let mut i: usize = 0;
        assert(es.take(0) =~= Seq::<EntryModel>::empty());
        while i < self.entries.len()
            invariant
                i <= self.entries.len(),
                es == self.bindings(),
                b == (match best(es.take(i as int), by_command(c)) {
                    Some(j) => Some(j as usize),
                    None => None::<usize>,
                }),
                b matches Some(j) ==> j < i,
            decreases self.entries.len() - i,
        {
            proof {
                lemma_best_step(es, by_command(c), i as int);
                lemma_best_range(es.take(i as int), by_command(c));
            }
            let e = &self.entries[i];
            if e.command == c {
                match b {
                    None => {
                        b = Some(i);
                    },
                    Some(j) => {
                        let f = &self.entries[j];
                        if e.source_priority > f.source_priority || (e.source_priority == f.source_priority
                            && e.source_order >= f.source_order) {
                            b = Some(i);
                        }
                    },
                }
            }
            i += 1;
        }
        assert(es.take(self.entries.len() as int) =~= es);
        b
    }

    /// The command bound to the chord written `chord` (in any case), among bindings whose
    /// condition holds in an empty context.
    pub fn resolve(&self, chord: &str) -> (r: Option<CommandId>)
        ensures
            r == (match parse_chord(chord@) {
                None => None,
                Some((m, k)) => match best(self.bindings(), by_text(chord_text(m, k))) {
                    Some(j) => Some(self.bindings()[j].command),
                    None => None,
                },
            }),
    {
        let normalized = match KeyChord::normalize_string(chord) {
            Some(n) => n,
            None => {
                return None;
            },
        };
        let t = chars_of(normalized.as_str());
        proof {
            lemma_best_range(self.bindings(), by_text(t@));
        }
        match self.best_by_text(&t) {
            Some(j) => Some(self.entries[j].command),
            None => None,
        }
    }

    pub fn resolve_event(
        &self,
        event_key: &str,
        control_or_platform: bool,
        alt: bool,
        shift: bool,
        meta: bool,
    ) -> (r: Option<CommandId>)
        ensures
            r == (match best(
                self.bindings(),
                by_event_empty(event_key@, KeyModifiers { ctrl: control_or_platform, alt, shift, meta }),
            ) {
                Some(j) => Some(self.bindings()[j].command),
                None => None,
            }),
    {
        let ctx = KeyContext::new();
        let r = self.resolve_event_in_context(event_key, control_or_platform, alt, shift, meta, &ctx);
        proof {
            let m = KeyModifiers { ctrl: control_or_platform, alt, shift, meta };
            lemma_empty_context_best(self.bindings(), event_key@, m, ctx);
        }
        r
    }

    /// The command bound to a key press in `context`: the highest-ranked binding whose chord
    /// is the press and whose condition holds.
    pub fn resolve_event_in_context(
        &self,
        event_key: &str,
        control_or_platform: bool,
        alt: bool,
        shift: bool,
        meta: bool,
        context: &KeyContext,
    ) -> (r: Option<CommandId>)
        ensures
            r == (match best(
                self.bindings(),
                by_event(event_key@, KeyModifiers { ctrl: control_or_platform, alt, shift, meta }, *context),
            ) {
                Some(j) => Some(self.bindings()[j].command),
                None => None,
            }),
    {
        let m = KeyModifiers { ctrl: control_or_platform, alt, shift, meta };
        proof {
            lemma_best_range(self.bindings(), by_event(event_key@, m, *context));
        }
        match self.best_by_event(event_key, m, context) {
            Some(j) => Some(self.entries[j].command),
            None => None,
        }
    }

    /// The chord of the highest-ranked binding of `command`.
    pub fn shortcut_for(&self, command: CommandId) -> (r: Option<&str>)
        ensures
            match best(self.bindings(), by_command(command)) {
                Some(j) => r matches Some(s) && s@ == self.bindings()[j].chord_text,
                None => r is None,
            },
    {
        proof {
            lemma_best_range(self.bindings(), by_command(command));
        }
        match self.best_by_command(command) {
            Some(j) => Some(self.entries[j].chord_text.as_str()),
            None => None,
        }
    }

    /// The condition of the highest-ranked binding of `command`.
    pub fn effective_when_for(&self, command: CommandId) -> (r: Option<&str>)
        ensures
            match best(self.bindings(), by_command(command)) {
                Some(j) => r matches Some(s) && s@ == self.bindings()[j].when_text,
                None => r is None,
            },
    {
        proof {
            lemma_best_range(self.bindings(), by_command(command));
        }
        match self.best_by_command(command) {
            Some(j) => Some(self.entries[j].when_text.as_str()),
            None => None,
        }
    }
}

impl Keymap {
    fn remove_command(&mut self, c: CommandId)
        ensures
            final(self).bindings() == without_command(old(self).bindings(), c),
    {
        let mut pending: Vec<KeybindingEntry> = Vec::new();
        std::mem::swap(&mut pending, &mut self.entries);
        let ghost orig = entry_views(pending@);
        let mut kept: Vec<KeybindingEntry> = Vec::new();
        let ghost mut i: int = 0;
        assert(orig.take(0) =~= Seq::<EntryModel>::empty());
        assert(entry_views(kept@) =~= Seq::<EntryModel>::empty());
        while pending.len() > 0
            invariant
                0 <= i <= orig.len(),
                entry_views(pending@) == orig.skip(i),
                entry_views(kept@) == without_command(orig.take(i), c),
            decreases pending.len(),
        {
            let ghost before = pending@;
            proof {
                assert(entry_views(before).len() == before.len());
                assert(i < orig.len());
            }
            let e = pending.remove(0);
            proof {
                assert(e@ == entry_views(before)[0]);
                assert(entry_views(before)[0] == orig.skip(i)[0]);
                assert(entry_views(pending@) =~= entry_views(before).drop_first());
                assert(orig.skip(i).drop_first() =~= orig.skip(i + 1));
                assert(orig.take(i + 1).drop_last() =~= orig.take(i));
                assert(orig.take(i + 1).last() == orig[i]);
            }
            if e.command != c {
                let ghost kb = kept@;
                kept.push(e);
                assert(entry_views(kept@) =~= entry_views(kb).push(e@));
            }
            proof {
                i = i + 1;
            }
        }
        proof {
            assert(orig.take(i) =~= orig);
        }
        self.entries = kept;
    }

    /// Binds `chord` to `command` (see `bind_result`); on failure nothing changes.
    pub fn bind_with_when(
        &mut self,
        chord: &str,
        command: CommandId,
        when: Option<&str>,
        source_priority: u8,
        source_order: usize,
        clear_existing_command: bool,
    ) -> (r: Result<(), String>)
        ensures
            match bind_result(
                old(self).bindings(),
                chord@,
                command,
                match when {
                    Some(w) => Some(w@),
                    None => None,
                },
                source_priority,
                source_order,
                clear_existing_command,
            ) {
                Ok(n) => r is Ok && final(self).bindings() == n,
                Err(msg) => (r matches Err(e) && e@ == msg) && final(self).bindings() == old(self).bindings(),
            },
    {
        let normalized = match KeyChord::normalize_string(chord) {
            Some(n) => n,
            None => {
                let mut m = chars_of("invalid key chord: ");
                push_str(&mut m, chord);
                return Err(string_of(&m));
            },
        };
        let parsed = match KeyChord::parse(normalized.as_str()) {
            Some(c) => c,
            None => {
                let mut m = chars_of("invalid key chord: ");
                push_str(&mut m, chord);
                return Err(string_of(&m));
            },
        };
        let when_expr = match ContextExpr::parse(when) {
            Ok(e) => e,
            Err(m) => {
                return Err(m);
            },
        };
        let when_text = match when {
            Some(w) => {
                let t = trimmed(w);
                string_of(&t)
            },
            None => {
                let e: Vec<char> = Vec::new();
                string_of(&e)
            },
        };
        if clear_existing_command {
            self.remove_command(command);
        }
        let ghost before = self.bindings();
        let entry = KeybindingEntry {
            command,
            chord: parsed,
            chord_text: normalized,
            when: when_expr,
            when_text,
            source_priority,
            source_order,
        };
        let ghost ev = entry@;
        self.entries.push(entry);
        assert(self.bindings() =~= before.push(ev));
        Ok(())
    }

    /// The default keymap: every command's default shortcut.
    pub fn default_keymap() -> (k: Keymap)
        ensures
            k.bindings() == default_bindings(command_order().len()),
    {
        let mut out = Keymap { entries: Vec::new() };
        let specs = command_specs();
        let mut i: usize = 0;
        assert(out.bindings() =~= Seq::<EntryModel>::empty());
        while i < specs.len()
            invariant
                i <= specs.len(),
                specs.len() == command_order().len(),
                forall|k: int| 0 <= k < specs.len() ==> spec_matches(#[trigger] specs@[k], command_order()[k]),
                out.bindings() == default_bindings(i as nat),
            decreases specs.len() - i,
        {
            let sp = specs[i];
            assert(spec_matches(specs@[i as int], command_order()[i as int]));
            let _ = out.bind_with_when(sp.default_shortcut, sp.id, None, 10, i, true);
            i += 1;
        }
        out
    }

    /// Binds `chord` to `command` above the defaults, replacing the command's other
    /// bindings; an invalid chord changes nothing.
    pub fn bind(&mut self, chord: &str, command: CommandId)
        ensures
            final(self).bindings() == bind_or_keep(old(self).bindings(), chord@, command, 100, old(self).bindings().len() as usize),
    {
        let n = self.entries.len();
        let _ = self.bind_with_when(chord, command, None, 100, n, true);
    }

    fn apply_list(
        &mut self,
        entries: &Vec<(&str, &str, Option<&str>)>,
        source_priority: u8,
        clear: bool,
    ) -> (r: Result<(), String>)
        ensures
            ({
                let (n, err) = overrides_result(old(self).bindings(), override_views(entries@), source_priority, clear);
                final(self).bindings() == n && match err {
                    None => r is Ok,
                    Some(msg) => r matches Err(e) && e@ == msg,
                }
            }),
    {
        let ghost orig = self.bindings();
        let ghost lv = override_views(entries@);
        let mut i: usize = 0;
        assert(lv.take(0) =~= Seq::<(Seq<char>, Seq<char>, Option<Seq<char>>)>::empty());
        proof {
            lemma_overrides_empty(orig, source_priority, clear);
        }
        while i < entries.len()
            invariant
                i <= entries.len(),
                lv == override_views(entries@),
                orig == old(self).bindings(),
                overrides_result(orig, lv.take(i as int), source_priority, clear) == (self.bindings(), None::<Seq<char>>),
            decreases entries.len() - i,
        {
            proof {
                lemma_overrides_step(orig, lv, i as int, source_priority, clear, self.bindings());
            }
            let (cid, chord, when) = entries[i];
            let ghost cur = self.bindings();
            assert(lv[i as int] == (cid@, chord@, match when {
                Some(w) => Some(w@),
                None => None::<Seq<char>>,
            }));
            let command = match CommandId::parse(cid) {
                Some(c) => c,
                None => {
                    let mut m = chars_of("unknown command id: ");
                    push_str(&mut m, cid);
                    proof {
                        lemma_overrides_stop(orig, lv, i + 1, source_priority, clear);
                    }
                    return Err(string_of(&m));
                },
            };
            match self.bind_with_when(chord, command, when, source_priority, i, clear) {
                Ok(()) => {},
                Err(e) => {
                    proof {
                        lemma_overrides_stop(orig, lv, i + 1, source_priority, clear);
                    }
                    return Err(e);
                },
            }
            i += 1;
        }
        assert(lv.take(entries.len() as int) =~= lv);
        Ok(())
    }

    /// Rebinds commands by name, in order, above the defaults; stops at the first unknown
    /// command or invalid chord, keeping the overrides before it.
    pub fn apply_overrides(&mut self, entries: Vec<(&str, &str)>) -> (r: Result<(), String>)
        ensures
            ({
                let (n, err) = overrides_result(
                    old(self).bindings(),
                    plain_override_views(entries@),
                    100,
                    true,
                );
                final(self).bindings() == n && match err {
                    None => r is Ok,
                    Some(msg) => r matches Err(e) && e@ == msg,
                }
            }),
    {
        let mut list: Vec<(&str, &str, Option<&str>)> = Vec::new();
        let mut i: usize = 0;
        assert(override_views(list@) =~= Seq::<(Seq<char>, Seq<char>, Option<Seq<char>>)>::empty());
        assert(entries@.take(0) =~= entries@.take(0));
        while i < entries.len()
            invariant
                i <= entries.len(),
                override_views(list@) == plain_override_views(entries@.take(i as int)),
            decreases entries.len() - i,
        {
            let (a, b) = entries[i];
            let ghost before = list@;
            list.push((a, b, None));
            assert(entries@.take(i + 1) =~= entries@.take(i as int).push(entries@[i as int]));
            assert(override_views(list@) =~= override_views(before).push((a@, b@, None::<Seq<char>>)));
            assert(plain_override_views(entries@.take(i + 1)) =~= plain_override_views(entries@.take(i as int)).push((a@, b@, None::<Seq<char>>)));
            i += 1;
        }
        assert(entries@.take(entries.len() as int) =~= entries@);
        self.apply_list(&list, 100, true)
    }

    /// Adds bindings by command name under conditions, at `source_priority`, keeping the
    /// commands' other bindings; stops at the first failure, keeping those before it.
    pub fn apply_contextual_overrides(
        &mut self,
        entries: Vec<(&str, &str, &str)>,
        source_priority: u8,
    ) -> (r: Result<(), String>)
        ensures
            ({
                let (n, err) = overrides_result(
                    old(self).bindings(),
                    contextual_override_views(entries@),
                    source_priority,
                    false,
                );
                final(self).bindings() == n && match err {
                    None => r is Ok,
                    Some(msg) => r matches Err(e) && e@ == msg,
                }
            }),
    {
        let mut list: Vec<(&str, &str, Option<&str>)> = Vec::new();
        let mut i: usize = 0;
        assert(override_views(list@) =~= Seq::<(Seq<char>, Seq<char>, Option<Seq<char>>)>::empty());
        assert(entries@.take(0) =~= entries@.take(0));
        while i < entries.len()
            invariant
                i <= entries.len(),
                override_views(list@) == contextual_override_views(entries@.take(i as int)),
            decreases entries.len() - i,
        {
            let (a, b, w) = entries[i];
            let ghost before = list@;
            list.push((a, b, Some(w)));
            assert(entries@.take(i + 1) =~= entries@.take(i as int).push(entries@[i as int]));
            assert(override_views(list@) =~= override_views(before).push((a@, b@, Some(w@))));
            assert(contextual_override_views(entries@.take(i + 1)) =~= contextual_override_views(entries@.take(i as int)).push((a@, b@, Some(w@))));
            i += 1;
        }
        assert(entries@.take(entries.len() as int) =~= entries@);
        self.apply_list(&list, source_priority, false)
    }
}

pub open spec fn plain_override_views(v: Seq<(&str, &str)>) -> Seq<(Seq<char>, Seq<char>, Option<Seq<char>>)> {
    v.map_values(|e: (&str, &str)| (e.0@, e.1@, None::<Seq<char>>))
}

pub open spec fn contextual_override_views(v: Seq<(&str, &str, &str)>) -> Seq<(Seq<char>, Seq<char>, Option<Seq<char>>)> {
    v.map_values(|e: (&str, &str, &str)| (e.0@, e.1@, Some(e.2@)))
}

pub open spec fn override_views(v: Seq<(&str, &str, Option<&str>)>) -> Seq<(Seq<char>, Seq<char>, Option<Seq<char>>)> {
    v.map_values(|e: (&str, &str, Option<&str>)| (e.0@, e.1@, match e.2 {
        Some(w) => Some(w@),
        None => None,
    }))
}

proof fn lemma_overrides_stop(
    es: Seq<EntryModel>,
    list: Seq<(Seq<char>, Seq<char>, Option<Seq<char>>)>,
    j: int,
    priority: u8,
    clear: bool,
)
    requires
        0 < j <= list.len(),
        overrides_result(es, list.take(j), priority, clear).1 is Some,
    ensures
        overrides_result(es, list, priority, clear) == overrides_result(es, list.take(j), priority, clear),
    decreases list.len() - j,
{
    if j < list.len() {
        assert(list.take(j + 1).drop_last() =~= list.take(j));
        reveal(overrides_result);
        lemma_overrides_stop(es, list, j + 1, priority, clear);
    } else {
        assert(list.take(j) =~= list);
    }
}

proof fn lemma_overrides_step(
    es: Seq<EntryModel>,
    list: Seq<(Seq<char>, Seq<char>, Option<Seq<char>>)>,
    i: int,
    priority: u8,
    clear: bool,
    cur: Seq<EntryModel>,
)
    requires
        0 <= i < list.len(),
        overrides_result(es, list.take(i), priority, clear) == (cur, None::<Seq<char>>),
    ensures
        overrides_result(es, list.take(i + 1), priority, clear) == (match command_named(list[i].0) {
            None => (cur, Some("unknown command id: "@ + list[i].0)),
            Some(c) => match bind_result(cur, list[i].1, c, list[i].2, priority, i as usize, clear) {
                Ok(n) => (n, None),
                Err(m) => (cur, Some(m)),
            },
        }),
{
    assert(list.take(i + 1).drop_last() =~= list.take(i));
    assert(list.take(i + 1).last() == list[i]);
    reveal(overrides_result);
}

proof fn lemma_overrides_empty(es: Seq<EntryModel>, priority: u8, clear: bool)
    ensures
        overrides_result(es, Seq::empty(), priority, clear) == (es, None::<Seq<char>>),
{
    reveal(overrides_result);
}

proof fn lemma_empty_context_best(es: Seq<EntryModel>, key: Seq<char>, m: KeyModifiers, a: KeyContext)
    requires
        forall|k: Seq<char>| !a.flag(k),
    ensures
        best(es, by_event(key, m, a)) == best(es, by_event_empty(key, m)),
    decreases es.len(),
{
    if es.len() > 0 {
        lemma_empty_context_best(es.drop_last(), key, m, a);
        lemma_holds_empty(es.last().when, a);
    }
}

/// Resolution picks a binding that qualifies and ranks at least as high as every other
/// qualifying binding: a higher priority (then a later order) always wins.
pub proof fn law_best_ranks_highest(es: Seq<EntryModel>, pred: spec_fn(EntryModel) -> bool, i: int)
    requires
        0 <= i < es.len(),
        pred(es[i]),
    ensures
        best(es, pred) matches Some(j) && 0 <= j < es.len() && pred(es[j]) && rank_ge(es[j], es[i]),
    decreases es.len(),
{
    lemma_best_range(es, pred);
    let n = es.len() - 1;
    if i == n {
        lemma_best_range(es.drop_last(), pred);
        match best(es.drop_last(), pred) {
            Some(j) => {
                assert(es.drop_last()[j] == es[j]);
            },
            None => {},
        }
    } else {
        law_best_ranks_highest(es.drop_last(), pred, i);
        let j = best(es.drop_last(), pred)->Some_0;
        assert(es.drop_last()[j] == es[j]);
        assert(es.drop_last()[i] == es[i]);
    }
}


// ---------------------------------------------------------------------------
// Writing a chord out and reading it back
// ---------------------------------------------------------------------------
/// A key as parsing yields it: non-empty, lower case, without `+`, not starting or ending
/// with whitespace, and not a modifier name.
pub open spec fn parsed_key(k: Seq<char>) -> bool {
    &&& k.len() > 0
    &&& !k.contains('+')
    &&& !is_ws(k[0])
    &&& !is_ws(k.last())
    &&& lower_seq(k) == k
    &&& modifier_slot(k) == 4
}

proof fn lemma_nonblank_items(parts: Seq<Seq<char>>)
    ensures
        forall|i: int|
            0 <= i < nonblank_trimmed(parts).len() ==> exists|j: int|
                0 <= j < parts.len() && #[trigger] nonblank_trimmed(parts)[i] == trim(parts[j]) && trim(
                    parts[j],
                ).len() > 0,
    decreases parts.len(),
{
    if parts.len() > 0 {
        let rest = parts.drop_last();
        lemma_nonblank_items(rest);
        assert forall|i: int| 0 <= i < nonblank_trimmed(parts).len() implies exists|j: int|
            0 <= j < parts.len() && #[trigger] nonblank_trimmed(parts)[i] == trim(parts[j]) && trim(parts[j]).len()
                > 0 by {
            if i < nonblank_trimmed(rest).len() {
                assert(nonblank_trimmed(parts)[i] == nonblank_trimmed(rest)[i]);
                let j = choose|j: int| 0 <= j < rest.len() && nonblank_trimmed(rest)[i] == trim(rest[j]) && trim(rest[j]).len() > 0;
                assert(rest[j] == parts[j]);
            } else {
                assert(nonblank_trimmed(parts)[i] == trim(parts[parts.len() - 1]));
            }
        }
    }
}

proof fn lemma_fold_key(tokens: Seq<Seq<char>>, m: KeyModifiers, k: Seq<char>)
    requires
        chord_fold(tokens) == Some((m, Some(k))),
    ensures
        exists|j: int| 0 <= j < tokens.len() && k == lower_seq(#[trigger] tokens[j]) && modifier_slot(k) == 4,
    decreases tokens.len(),
{
    if tokens.len() > 0 {
        match chord_fold(tokens.drop_last()) {
            Some((m0, k0)) => {
                let t = lower_seq(tokens.last());
                if modifier_slot(t) < 4 {
                    lemma_fold_key(tokens.drop_last(), m0, k);
                    let j = choose|j: int| 0 <= j < tokens.drop_last().len() && k == lower_seq(#[trigger] tokens.drop_last()[j]) && modifier_slot(k) == 4;
                    assert(tokens[j] == tokens.drop_last()[j]);
                } else {
                    assert(k == t);
                    assert(tokens[tokens.len() - 1] == tokens.last());
                }
            },
            None => {},
        }
    }
}

proof fn lemma_lower_idempotent(t: Seq<char>)
    ensures
        lower_seq(lower_seq(t)) == lower_seq(t),
{
    assert(lower_seq(lower_seq(t)) =~= lower_seq(t));
}

/// The key of a parsed chord is a key as parsing yields it.
proof fn lemma_parsed_key(input: Seq<char>, m: KeyModifiers, k: Seq<char>)
    requires
        parse_chord(input) == Some((m, k)),
    ensures
        parsed_key(k),
{
    let parts = split_on(trim(input), '+');
    let tokens = nonblank_trimmed(parts);
    let (m1, k1) = chord_fold(tokens)->0;
    assert(chord_fold(tokens) == Some((m, Some(k))));
    lemma_fold_key(tokens, m, k);
    let j = choose|j: int| 0 <= j < tokens.len() && k == lower_seq(#[trigger] tokens[j]) && modifier_slot(k) == 4;
    lemma_nonblank_items(parts);
    let q = choose|q: int| 0 <= q < parts.len() && tokens[j] == trim(parts[q]) && trim(parts[q]).len() > 0;
    let t = tokens[j];
    lemma_split_pieces(trim(input), '+');
    assert(!parts[q].contains('+'));
    let (a, b) = lemma_trim_sub(parts[q]);
    assert(!t.contains('+')) by {
        if t.contains('+') {
            let x = choose|x: int| 0 <= x < t.len() && t[x] == '+';
            assert(parts[q][a + x] == '+');
        }
    }
    lemma_trim_ends(parts[q]);
    lemma_lower_idempotent(t);
    assert(k.len() == t.len());
    assert(!k.contains('+')) by {
        if k.contains('+') {
            let x = choose|x: int| 0 <= x < k.len() && k[x] == '+';
            assert(k[x] == ascii_lower(t[x]));
            assert(t[x] == '+');
        }
    }
    assert(k[0] == ascii_lower(t[0]));
    assert(k.last() == ascii_lower(t.last()));
}

proof fn lemma_split_after_mod(name: Seq<char>, rest: Seq<char>)
    requires
        !name.contains('+'),
    ensures
        split_on(name + "+"@ + rest, '+') == seq![name] + split_on(rest, '+'),
{
    reveal_strlit("+");
    assert(name + "+"@ == name.push('+'));
    lemma_split_concat(name.push('+'), rest, '+');
    lemma_split_line(name, '+');
    assert(seq![name, Seq::<char>::empty()].drop_last() =~= seq![name]);
}

/// The modifier tokens a chord is written with, in order.
pub open spec fn mod_tokens(m: KeyModifiers) -> Seq<Seq<char>> {
    (if m.ctrl { seq!["Ctrl"@] } else { Seq::empty() }) + (if m.alt { seq!["Alt"@] } else { Seq::empty() }) + (
    if m.shift {
        seq!["Shift"@]
    } else {
        Seq::empty()
    }) + (if m.meta { seq!["Meta"@] } else { Seq::empty() })
}

proof fn lemma_nonblank_keeps(p: Seq<Seq<char>>)
    requires
        forall|i: int| 0 <= i < p.len() ==> (#[trigger] p[i]).len() > 0 && trim(p[i]) == p[i],
    ensures
        nonblank_trimmed(p) == p,
    decreases p.len(),
{
    if p.len() > 0 {
        assert forall|i: int| 0 <= i < p.drop_last().len() implies (#[trigger] p.drop_last()[i]).len() > 0 && trim(p.drop_last()[i])
            == p.drop_last()[i] by {
            assert(p.drop_last()[i] == p[i]);
        }
        lemma_nonblank_keeps(p.drop_last());
        assert(p[p.len() - 1] == p.last());
        assert(p.drop_last().push(p.last()) =~= p);
    }
}

proof fn lemma_fold_push_mod(a: Seq<Seq<char>>, m0: KeyModifiers, name: Seq<char>)
    requires
        chord_fold(a) == Some((m0, None::<Seq<char>>)),
        modifier_slot(lower_seq(name)) < 4,
    ensures
        chord_fold(a.push(name)) == Some((with_mod(m0, modifier_slot(lower_seq(name))), None::<Seq<char>>)),
{
    assert(a.push(name).drop_last() =~= a);
    assert(a.push(name).last() == name);
}

proof fn lemma_fold_mods(m: KeyModifiers)
    ensures
        chord_fold(mod_tokens(m)) == Some((m, None::<Seq<char>>)),
{
    reveal_strlit("Ctrl");
    reveal_strlit("Alt");
    reveal_strlit("Shift");
    reveal_strlit("Meta");
    reveal_strlit("ctrl");
    reveal_strlit("alt");
    reveal_strlit("shift");
    reveal_strlit("meta");
    reveal_strlit("control");
    reveal_strlit("option");
    reveal_strlit("cmd");
    reveal_strlit("command");
    reveal_strlit("super");
    reveal_strlit("win");
    assert(lower_seq("Ctrl"@) =~= "ctrl"@);
    assert(lower_seq("Alt"@) =~= "alt"@);
    assert(lower_seq("Shift"@) =~= "shift"@);
    assert(lower_seq("Meta"@) =~= "meta"@);
    assert(modifier_slot("ctrl"@) == 0);
    assert(modifier_slot("alt"@) == 1);
    assert(modifier_slot("shift"@) == 2);
    assert("meta"@[0] != "ctrl"@[0]);
    assert(modifier_slot("meta"@) == 3);
    let s1: Seq<Seq<char>> = if m.ctrl { seq!["Ctrl"@] } else { Seq::empty() };
    let s2: Seq<Seq<char>> = if m.alt { seq!["Alt"@] } else { Seq::empty() };
    let s3: Seq<Seq<char>> = if m.shift { seq!["Shift"@] } else { Seq::empty() };
    let s4: Seq<Seq<char>> = if m.meta { seq!["Meta"@] } else { Seq::empty() };
    let e = Seq::<Seq<char>>::empty();
    let a1 = s1;
    let a2 = s1 + s2;
    let a3 = s1 + s2 + s3;
    let a4 = s1 + s2 + s3 + s4;
    let m1 = KeyModifiers { ctrl: m.ctrl, ..no_mods() };
    let m2 = KeyModifiers { alt: m.alt, ..m1 };
    let m3 = KeyModifiers { shift: m.shift, ..m2 };
    assert(chord_fold(e) == Some((no_mods(), None::<Seq<char>>)));
    if m.ctrl {
        assert(a1 =~= e.push("Ctrl"@));
        lemma_fold_push_mod(e, no_mods(), "Ctrl"@);
    } else {
        assert(a1 =~= e);
    }
    assert(chord_fold(a1) == Some((m1, None::<Seq<char>>)));
    if m.alt {
        assert(a2 =~= a1.push("Alt"@));
        lemma_fold_push_mod(a1, m1, "Alt"@);
    } else {
        assert(a2 =~= a1);
    }
    assert(chord_fold(a2) == Some((m2, None::<Seq<char>>)));
    if m.shift {
        assert(a3 =~= a2.push("Shift"@));
        lemma_fold_push_mod(a2, m2, "Shift"@);
    } else {
        assert(a3 =~= a2);
    }
    assert(chord_fold(a3) == Some((m3, None::<Seq<char>>)));
    if m.meta {
        assert(a4 =~= a3.push("Meta"@));
        lemma_fold_push_mod(a3, m3, "Meta"@);
    } else {
        assert(a4 =~= a3);
    }
    assert(chord_fold(a4) == Some((m, None::<Seq<char>>)));
    assert(mod_tokens(m) =~= a4);
}

proof fn lemma_split_chord(m: KeyModifiers, k: Seq<char>)
    requires
        !k.contains('+'),
    ensures
        split_on(chord_text(m, k), '+') == mod_tokens(m).push(k),
{
    reveal_strlit("Ctrl+");
    reveal_strlit("Alt+");
    reveal_strlit("Shift+");
    reveal_strlit("Meta+");
    reveal_strlit("Ctrl");
    reveal_strlit("Alt");
    reveal_strlit("Shift");
    reveal_strlit("Meta");
    reveal_strlit("+");
    let c4: Seq<char> = if m.meta { "Meta+"@ } else { Seq::empty() };
    let c3: Seq<char> = if m.shift { "Shift+"@ } else { Seq::empty() };
    let c2: Seq<char> = if m.alt { "Alt+"@ } else { Seq::empty() };
    let c1: Seq<char> = if m.ctrl { "Ctrl+"@ } else { Seq::empty() };
    let r4 = c4 + k;
    let r3 = c3 + r4;
    let r2 = c2 + r3;
    let r1 = c1 + r2;
    assert(chord_text(m, k) =~= r1);
    lemma_split_no_char(k, '+');
    let s4: Seq<Seq<char>> = if m.meta { seq!["Meta"@] } else { Seq::empty() };
    let s3: Seq<Seq<char>> = if m.shift { seq!["Shift"@] } else { Seq::empty() };
    let s2: Seq<Seq<char>> = if m.alt { seq!["Alt"@] } else { Seq::empty() };
    let s1: Seq<Seq<char>> = if m.ctrl { seq!["Ctrl"@] } else { Seq::empty() };
    if m.meta {
        assert("Meta"@ + "+"@ + k =~= r4);
        lemma_split_after_mod("Meta"@, k);
    } else {
        assert(r4 =~= k);
    }
    assert(split_on(r4, '+') =~= s4 + seq![k]);
    if m.shift {
        assert("Shift"@ + "+"@ + r4 =~= r3);
        lemma_split_after_mod("Shift"@, r4);
    } else {
        assert(r3 =~= r4);
    }
    assert(split_on(r3, '+') =~= s3 + s4 + seq![k]);
    if m.alt {
        assert("Alt"@ + "+"@ + r3 =~= r2);
        lemma_split_after_mod("Alt"@, r3);
    } else {
        assert(r2 =~= r3);
    }
    assert(split_on(r2, '+') =~= s2 + s3 + s4 + seq![k]);
    if m.ctrl {
        assert("Ctrl"@ + "+"@ + r2 =~= r1);
        lemma_split_after_mod("Ctrl"@, r2);
    } else {
        assert(r1 =~= r2);
    }
    assert(split_on(r1, '+') =~= mod_tokens(m).push(k));
}

proof fn lemma_chord_text_trimmed(m: KeyModifiers, k: Seq<char>)
    requires
        parsed_key(k),
    ensures
        trim(chord_text(m, k)) == chord_text(m, k),
{
    reveal_strlit("Ctrl+");
    reveal_strlit("Alt+");
    reveal_strlit("Shift+");
    reveal_strlit("Meta+");
    let t = chord_text(m, k);
    assert(t.len() > 0);
    assert(t.last() == k.last());
    if m.ctrl {
        assert(t[0] == 'C');
    } else if m.alt {
        assert(t[0] == 'A');
    } else if m.shift {
        assert(t[0] == 'S');
    } else if m.meta {
        assert(t[0] == 'M');
    } else {
        assert(t =~= k);
    }
    lemma_trim_fixed(t);
}

proof fn lemma_tokens_kept(m: KeyModifiers, k: Seq<char>)
    requires
        parsed_key(k),
    ensures
        nonblank_trimmed(mod_tokens(m).push(k)) == mod_tokens(m).push(k),
{
    reveal_strlit("Ctrl");
    reveal_strlit("Alt");
    reveal_strlit("Shift");
    reveal_strlit("Meta");
    let all = mod_tokens(m).push(k);
    assert forall|i: int| 0 <= i < all.len() implies (#[trigger] all[i]).len() > 0 && trim(all[i]) == all[i] by {
        let x = all[i];
        if i == all.len() - 1 {
            lemma_trim_fixed(k);
        } else {
            assert(x == "Ctrl"@ || x == "Alt"@ || x == "Shift"@ || x == "Meta"@);
            assert(x.len() > 0 && !is_ws(x[0]) && !is_ws(x.last()));
            lemma_trim_fixed(x);
        }
    }
    lemma_nonblank_keeps(all);
}

/// Writing out the chord that parsing gave and parsing it again gives the same chord; so
/// normalizing a normalized chord changes nothing.
pub proof fn law_chord_text_parses_back(input: Seq<char>, m: KeyModifiers, k: Seq<char>)
    requires
        parse_chord(input) == Some((m, k)),
    ensures
        parse_chord(chord_text(m, k)) == Some((m, k)),
{
    lemma_parsed_key(input, m, k);
    lemma_chord_text_trimmed(m, k);
    lemma_split_chord(m, k);
    lemma_tokens_kept(m, k);
    lemma_fold_mods(m);
    let all = mod_tokens(m).push(k);
    assert(all.drop_last() =~= mod_tokens(m));
    assert(all.last() == k);
    assert(chord_fold(all) == Some((m, Some(k))));
}

} // verus!
