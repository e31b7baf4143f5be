//! AI assistance: rewrite proposals under a policy gate, template variables with scoped
//! disclosure, and the VCP tool protocol (tool request blocks, the tool registry and its
//! permission checks, tool descriptions, tool execution and the tool loop).
use vstd::prelude::*;
use serde_json::Value;
use crate::knowledge::{KnowledgeIndex, NoteSource, SearchOptions, SearchHit};
use crate::sorted::{keys_sorted, map_of, map_find, map_insert, lemma_map_of_at, lemma_map_of_has, key_index, string_eq, string_less, lex_lt, strictly_sorted, sviews, lemma_lex_total, lemma_lex_transitive, lemma_lex_irreflexive};
use crate::text::{lemma_occurs_skip, matches_at, chars_of, string_of, push_str, push_all, trim, trim_end, trim_chars, trimmed, trim_end_index, slice_of, lines_of, lines, views, has_prefix, has_suffix, starts_with_str, ends_with_str, eq_str, lower_seq, lower_ascii, owned, decimal, decimal_chars, find_char, find_from, find_str_from, first_occurrence_from, occurs_at, is_ws, is_whitespace, replace_char_seq, replace_char, trim_end_char, trim_end_char_chars};

verus! {

#[derive(Clone, Debug, PartialEq, Eq)]
pub struct AiRewriteRequest {
    pub note_path: String,
    pub selection: String,
    pub instruction: String,
}

#[derive(Clone, Debug, PartialEq, Eq)]
pub struct AiRewriteProposal {
    pub replacement: String,
    pub rationale: String,
    pub provider: String,
    pub model: String,
}

#[derive(Clone, Debug, PartialEq, Eq)]
pub struct AiExecutionResult {
    pub proposal: AiRewriteProposal,
    pub dry_run: bool,
    pub applied: bool,
}

#[derive(Clone, Debug, PartialEq, Eq)]
pub struct AiPolicy {
    pub allow_apply: bool,
    pub max_selection_chars: usize,
}

impl Default for AiPolicy {
    fn default() -> (p: AiPolicy)
        ensures
            !p.allow_apply && p.max_selection_chars == 20_000,
    {
        AiPolicy { allow_apply: false, max_selection_chars: 20_000 }
    }
}

#[derive(Clone, Copy, Debug, PartialEq, Eq, Structural)]
pub enum AiProviderKind {
    Mock,
    Vcp,
}

impl AiProviderKind {
    /// The provider kind a configured mode names: `vcp`, `vcp_compat` or `vcp_toolbox` (any
    /// ASCII case, whitespace aside) select VCP; anything else the mock.
    pub fn from_mode(mode: &str) -> (k: AiProviderKind)
        ensures
            k == (if lower_seq(trim(mode@)) == "vcp"@ || lower_seq(trim(mode@)) == "vcp_compat"@ || lower_seq(trim(mode@))
                == "vcp_toolbox"@ {
                AiProviderKind::Vcp
            } else {
                AiProviderKind::Mock
            }),
    {
        let t = trimmed(mode);
        let l = lower_ascii(&t);
        if eq_str(&l, "vcp") || eq_str(&l, "vcp_compat") || eq_str(&l, "vcp_toolbox") {
            AiProviderKind::Vcp
        } else {
            AiProviderKind::Mock
        }
    }
}

/// A model that proposes a rewrite of a selection.
pub trait AiProvider {
    /// The names the provider may give itself: any, unless it says more.
    open spec fn is_name(&self, name: Seq<char>) -> bool {
        true
    }

    /// The model names it may give: any, unless it says more.
    open spec fn is_model(&self, model: Seq<char>) -> bool {
        true
    }

    /// What it may answer to `request`: anything, unless it says more.
    open spec fn may_answer(&self, request: AiRewriteRequest, answer: Result<Seq<char>, Seq<char>>) -> bool {
        true
    }

    fn provider_kind(&self) -> AiProviderKind;

    fn provider_name(&self) -> (r: &'static str)
        ensures
            self.is_name(r@),
    ;

    fn model_name(&self) -> (r: &'static str)
        ensures
            self.is_model(r@),
    ;

    fn rewrite_selection(&self, request: &AiRewriteRequest) -> (r: Result<String, String>)
        ensures
            self.may_answer(*request, answer_view(r)),
    ;
}

pub open spec fn answer_view(r: Result<String, String>) -> Result<Seq<char>, Seq<char>> {
    match r {
        Ok(s) => Ok(s@),
        Err(e) => Err(e@),
    }
}

// ---------------------------------------------------------------------------
// The mock provider: formatting clean-up
// ---------------------------------------------------------------------------
/// `s` with each `\r\n` turned into `\n`.
pub open spec fn crlf_to_lf(s: Seq<char>) -> Seq<char>
    decreases s.len(),
{
    if s.len() == 0 {
        s
    } else if s.len() >= 2 && s[0] == '\r' && s[1] == '\n' {
        seq!['\n'] + crlf_to_lf(s.skip(2))
    } else {
        seq![s[0]] + crlf_to_lf(s.drop_first())
    }
}

/// `s` with each tab turned into four spaces.
pub open spec fn expand_tabs(s: Seq<char>) -> Seq<char>
    decreases s.len(),
{
    if s.len() == 0 {
        s
    } else {
        expand_tabs(s.drop_last()) + if s.last() == '\t' { seq![' ', ' ', ' ', ' '] } else { seq![s.last()] }
    }
}

/// Lines without trailing whitespace, tabs expanded, runs of blank lines cut to two, each
/// followed by `\n`; with the run of blank lines at the end.
pub open spec fn tidy_fold(ls: Seq<Seq<char>>) -> (Seq<char>, nat)
    decreases ls.len(),
{
    if ls.len() == 0 {
        (Seq::empty(), 0)
    } else {
        let (out, blank) = tidy_fold(ls.drop_last());
        let t = trim_end(ls.last());
        if t.len() == 0 {
            if blank + 1 > 2 {
                (out, blank + 1)
            } else {
                (out + seq!['\n'], blank + 1)
            }
        } else {
            (out + expand_tabs(t) + seq!['\n'], 0)
        }
    }
}

/// What the mock provider proposes for `selection`.
pub open spec fn tidied(selection: Seq<char>) -> Seq<char> {
    let n = crlf_to_lf(selection);
    let out = tidy_fold(lines_of(n)).0;
    if !has_suffix(n, seq!['\n']) && out.len() > 0 {
        out.drop_last()
    } else {
        out
    }
}

fn crlf_to_lf_exec(s: &[char]) -> (r: Vec<char>)
    ensures
        r@ == crlf_to_lf(s@),
{
    let mut out: Vec<char> = Vec::new();
    let mut i: usize = 0;
    assert(s@.skip(0) =~= s@);
    while i < s.len()
        invariant
            i <= s.len(),
            out@ + crlf_to_lf(s@.skip(i as int)) == crlf_to_lf(s@),
        decreases s.len() - i,
    {
        let ghost before = out@;
        if i + 1 < s.len() && s[i] == '\r' && s[i + 1] == '\n' {
            out.push('\n');
            proof {
                assert(s@.skip(i as int).skip(2) =~= s@.skip(i + 2));
                assert(out@ + crlf_to_lf(s@.skip(i + 2)) =~= before + (seq!['\n'] + crlf_to_lf(s@.skip(i + 2))));
            }
            i += 2;
        } else {
            out.push(s[i]);
            proof {
                assert(s@.skip(i as int).drop_first() =~= s@.skip(i + 1));
                assert(out@ + crlf_to_lf(s@.skip(i + 1)) =~= before + (seq![s@[i as int]] + crlf_to_lf(s@.skip(i + 1))));
            }
            i += 1;
        }
    }
    assert(out@ + crlf_to_lf(s@.skip(i as int)) =~= out@);
    out
}

fn push_expanded(out: &mut Vec<char>, t: &[char])
    ensures
        final(out)@ == old(out)@ + expand_tabs(t@),
{
    let mut i: usize = 0;
    assert(t@.take(0) =~= Seq::<char>::empty());
    assert(out@ =~= old(out)@ + expand_tabs(t@.take(0)));
    while i < t.len()
        invariant
            i <= t.len(),
            out@ == old(out)@ + expand_tabs(t@.take(i as int)),
        decreases t.len() - i,
    {
        proof {
            assert(t@.take(i + 1).drop_last() =~= t@.take(i as int));
            assert(t@.take(i + 1).last() == t@[i as int]);
        }
        let ghost before = out@;
        if t[i] == '\t' {
            out.push(' ');
            out.push(' ');
            out.push(' ');
            out.push(' ');
            assert(out@ =~= before + seq![' ', ' ', ' ', ' ']);
        } else {
            out.push(t[i]);
            assert(out@ =~= before + seq![t@[i as int]]);
        }
        i += 1;
    }
    assert(t@.take(t.len() as int) =~= t@);
}

/// A provider that only tidies formatting, for trying the flow without a model.
#[derive(Clone, Debug)]
pub struct MockAiProvider;

impl MockAiProvider {
    /// The tidied selection (see `tidied`).
    pub fn tidy(&self, request: &AiRewriteRequest) -> (r: String)
        ensures
            r@ == tidied(request.selection@),
    {
        let s = chars_of(request.selection.as_str());
        let n = crlf_to_lf_exec(&s);
        let ls = lines(&n);
        let ghost lv = views(ls@);
        let mut out: Vec<char> = Vec::new();
        let mut blank: usize = 0;
        let mut i: usize = 0;
        assert(lv.take(0) =~= Seq::<Seq<char>>::empty());
        while i < ls.len()
            invariant
                i <= ls.len(),
                lv == views(ls@),
                lv == lines_of(n@),
                blank <= i,
                tidy_fold(lv.take(i as int)) == (out@, blank as nat),
            decreases ls.len() - i,
        {
            proof {
                assert(lv.take(i + 1).drop_last() =~= lv.take(i as int));
                assert(lv.take(i + 1).last() == ls@[i as int]@);
            }
            let line = &ls[i];
            let j = trim_end_index(line, 0, line.len());
            assert(line@.subrange(0, line@.len() as int) =~= line@);
            let t = slice_of(line, 0, j);
            if t.len() == 0 {
                blank = blank + 1;
                if blank <= 2 {
                    out.push('\n');
                }
            } else {
                blank = 0;
                push_expanded(&mut out, &t);
                out.push('\n');
            }
            i += 1;
        }
        assert(lv.take(ls.len() as int) =~= lv);
        let ends_nl = n.len() > 0 && n[n.len() - 1] == '\n';
        proof {
            assert(has_suffix(n@, seq!['\n']) == ends_nl) by {
                if n@.len() > 0 {
                    let last = n@[n@.len() - 1];
                    assert(n@.subrange(n@.len() - 1, n@.len() as int) =~= seq![last]);
                    if last == '\n' {
                        assert(seq![last] =~= seq!['\n']);
                    } else {
                        assert(seq![last][0] != seq!['\n'][0]);
                    }
                }
            }
        }
        if !ends_nl && out.len() > 0 {
            out.pop();
        }
        string_of(&out)
    }
}

impl AiProvider for MockAiProvider {
    open spec fn is_name(&self, name: Seq<char>) -> bool {
        name == "mock"@
    }

    open spec fn is_model(&self, model: Seq<char>) -> bool {
        model == "mock-draft-v1"@
    }

    /// The mock tidies the selection and never fails.
    open spec fn may_answer(&self, request: AiRewriteRequest, answer: Result<Seq<char>, Seq<char>>) -> bool {
        answer == Ok::<Seq<char>, Seq<char>>(tidied(request.selection@))
    }

    fn provider_kind(&self) -> AiProviderKind {
        AiProviderKind::Mock
    }

    fn provider_name(&self) -> &'static str {
        "mock"
    }

    fn model_name(&self) -> &'static str {
        "mock-draft-v1"
    }

    fn rewrite_selection(&self, request: &AiRewriteRequest) -> Result<String, String> {
        Ok(self.tidy(request))
    }
}

// ---------------------------------------------------------------------------
// The rewrite engine
// ---------------------------------------------------------------------------
/// Why a rewrite request is refused before the provider is asked, if it is.
pub open spec fn rewrite_request_error(r: AiRewriteRequest, p: AiPolicy, apply: bool) -> Option<Seq<char>> {
    if trim(r.note_path@).len() == 0 {
        Some("ai rewrite request missing note path"@)
    } else if trim(r.selection@).len() == 0 {
        Some("ai rewrite request selection is empty"@)
    } else if r.selection@.len() > p.max_selection_chars {
        Some("ai rewrite selection too large: "@ + decimal(r.selection@.len()) + " > "@ + decimal(p.max_selection_chars as nat) + " chars"@)
    } else if apply && !p.allow_apply {
        Some("ai write is blocked by policy gate; run dry-run proposal first"@)
    } else {
        None
    }
}

/// The rationale a proposal gives: the instruction, or a note that only formatting changed.
pub open spec fn rationale_for(instruction: Seq<char>) -> Seq<char> {
    if trim(instruction).len() == 0 {
        "normalized selection formatting"@
    } else {
        trim(instruction)
    }
}

/// Rewrites selections through a provider, under a policy.
pub struct AiEngine<P: AiProvider> {
    provider: P,
    policy: AiPolicy,
}

/// What the engine makes of the provider's `answer` to an accepted request, with the
/// provider and model names: the provider's error; an error for an empty answer; else a
/// proposal of the answer with the rationale, applied or a dry run.
pub open spec fn proposes(
    answer: Result<Seq<char>, Seq<char>>,
    request: AiRewriteRequest,
    provider: Seq<char>,
    model: Seq<char>,
    apply: bool,
    r: Result<AiExecutionResult, String>,
) -> bool {
    match answer {
        Err(e) => r matches Err(x) && x@ == e,
        Ok(t) => if t.len() == 0 {
            r matches Err(x) && x@ == "provider returned empty rewrite result"@
        } else {
            r matches Ok(x) && x.proposal.replacement@ == t && x.proposal.rationale@ == rationale_for(request.instruction@)
                && x.proposal.provider@ == provider && x.proposal.model@ == model && x.dry_run == !apply && x.applied == apply
        },
    }
}

/// The result for the provider's `answer` to an accepted request (see `proposes`).
pub fn proposal_from_answer(
    answer: Result<String, String>,
    request: &AiRewriteRequest,
    provider: &str,
    model: &str,
    apply: bool,
) -> (r: Result<AiExecutionResult, String>)
    ensures
        proposes(answer_view(answer), *request, provider@, model@, apply, r),
{
    let replacement = match answer {
        Ok(t) => t,
        Err(e) => {
            return Err(e);
        },
    };
    if string_is_empty(&replacement) {
        return Err(owned("provider returned empty rewrite result"));
    }
    let rationale = if is_blank_string(&request.instruction) {
        owned("normalized selection formatting")
    } else {
        let t = trimmed(request.instruction.as_str());
        string_of(&t)
    };
    Ok(AiExecutionResult {
        proposal: AiRewriteProposal { replacement, rationale, provider: owned(provider), model: owned(model) },
        dry_run: !apply,
        applied: apply,
    })
}

impl<P: AiProvider> AiEngine<P> {
    pub closed spec fn spec_policy(&self) -> AiPolicy {
        self.policy
    }

    pub closed spec fn spec_provider(&self) -> P {
        self.provider
    }

    pub fn new(provider: P, policy: AiPolicy) -> (e: AiEngine<P>)
        ensures
            e.spec_policy() == policy,
            e.spec_provider() == provider,
    {
        AiEngine { provider, policy }
    }

    fn validate_rewrite_request(&self, request: &AiRewriteRequest, apply: bool) -> (r: Result<(), String>)
        ensures
            match rewrite_request_error(*request, self.policy, apply) {
                Some(m) => r matches Err(e) && e@ == m,
                None => r is Ok,
            },
    {
        if is_blank_string(&request.note_path) {
            return Err(owned("ai rewrite request missing note path"));
        }
        if is_blank_string(&request.selection) {
            return Err(owned("ai rewrite request selection is empty"));
        }
        let n = chars_of(request.selection.as_str()).len();
        if n > self.policy.max_selection_chars {
            let mut m = chars_of("ai rewrite selection too large: ");
            let a = decimal_chars(n as u128);
            push_all(&mut m, &a);
            push_str(&mut m, " > ");
            let b = decimal_chars(self.policy.max_selection_chars as u128);
            push_all(&mut m, &b);
            push_str(&mut m, " chars");
            return Err(string_of(&m));
        }
        if apply && !self.policy.allow_apply {
            return Err(owned("ai write is blocked by policy gate; run dry-run proposal first"));
        }
        Ok(())
    }

    /// Asks the provider for a rewrite of the selection: refused requests (see
    /// `rewrite_request_error`) never reach it; an empty answer is an error; a proposal
    /// carries the rationale, and says whether it was applied or is a dry run.
    pub fn rewrite_selection(&self, request: &AiRewriteRequest, apply: bool) -> (r: Result<AiExecutionResult, String>)
        ensures
            rewrite_request_error(*request, self.spec_policy(), apply) matches Some(m) ==> (r matches Err(e) && e@ == m),
            r matches Ok(x) ==> rewrite_request_error(*request, self.spec_policy(), apply) is None && x.dry_run == !apply
                && x.applied == apply && x.proposal.replacement@.len() > 0 && x.proposal.rationale@ == rationale_for(
                request.instruction@,
            ),
            rewrite_request_error(*request, self.spec_policy(), apply) is None ==> exists|
                a: Result<Seq<char>, Seq<char>>,
                pn: Seq<char>,
                mn: Seq<char>,
            |
                self.spec_provider().may_answer(*request, a) && self.spec_provider().is_name(pn) && self.spec_provider().is_model(mn)
                    && #[trigger] proposes(a, *request, pn, mn, apply, r),
    {
        match self.validate_rewrite_request(request, apply) {
            Err(e) => {
                return Err(e);
            },
            Ok(()) => {},
        }
        let answer = self.provider.rewrite_selection(request);
        let provider = self.provider.provider_name();
        let model = self.provider.model_name();
        let ghost a = answer_view(answer);
        let r = proposal_from_answer(answer, request, provider, model, apply);
        assert(proposes(a, *request, provider@, model@, apply, r));
        r
    }
}

fn is_blank_string(s: &String) -> (b: bool)
    ensures
        b == (trim(s@).len() == 0),
{
    crate::text::is_blank(s.as_str())
}

pub fn string_is_empty(s: &String) -> (b: bool)
    ensures
        b == (s@.len() == 0),
{
    chars_of(s.as_str()).len() == 0
}

// ---------------------------------------------------------------------------
// Template variables
// ---------------------------------------------------------------------------
#[derive(Clone, Copy, Debug, PartialEq, Eq, Structural)]
pub enum AiVariableScope {
    Global,
    Knowledge,
}

#[derive(Clone, Debug, PartialEq, Eq)]
pub struct AiVariableEntry {
    pub name: String,
    pub value: String,
    pub scope: AiVariableScope,
}

/// A request in `request` scope may see a variable of `entry` scope: knowledge requests see
/// everything, global ones only global variables.
pub open spec fn scope_can_access(request: AiVariableScope, entry: AiVariableScope) -> bool {
    match (request, entry) {
        (AiVariableScope::Global, AiVariableScope::Global) => true,
        (AiVariableScope::Global, AiVariableScope::Knowledge) => false,
        (AiVariableScope::Knowledge, _) => true,
    }
}

fn scope_can_access_exec(request: AiVariableScope, entry: AiVariableScope) -> (b: bool)
    ensures
        b == scope_can_access(request, entry),
{
    match (request, entry) {
        (AiVariableScope::Global, AiVariableScope::Global) => true,
        (AiVariableScope::Global, AiVariableScope::Knowledge) => false,
        (AiVariableScope::Knowledge, _) => true,
    }
}

/// The key a variable name or placeholder stands for: trimmed, a surrounding `{{ }}`
/// removed (both or neither), trimmed again, in ASCII lower case.
pub open spec fn canonical_variable_name(raw: Seq<char>) -> Seq<char> {
    let t = trim(raw);
    let a = if has_prefix(t, "{{"@) { t.skip(2) } else { t };
    let b = if has_suffix(a, "}}"@) { a.take(a.len() - 2) } else { t };
    lower_seq(trim(b))
}

fn canonical_variable_name_exec(raw: &str) -> (r: Vec<char>)
    ensures
        r@ == canonical_variable_name(raw@),
{
    proof {
        reveal_strlit("{{");
        reveal_strlit("}}");
    }
    let t = trimmed(raw);
    let a = if starts_with_str(&t, "{{") {
        let x = slice_of(&t, 2, t.len());
        assert(x@ =~= t@.skip(2));
        x
    } else {
        slice_of(&t, 0, t.len())
    };
    assert(a@ =~= (if has_prefix(t@, "{{"@) { t@.skip(2) } else { t@ }));
    let b = if ends_with_str(&a, "}}") {
        let x = slice_of(&a, 0, a.len() - 2);
        assert(x@ =~= a@.take(a@.len() - 2));
        x
    } else {
        let x = slice_of(&t, 0, t.len());
        assert(x@ =~= t@);
        x
    };
    let c = trim_chars(&b);
    lower_ascii(&c)
}

/// A variable as the registry keeps it: name, value, scope.
pub open spec fn entry_view(e: AiVariableEntry) -> (Seq<char>, Seq<char>, AiVariableScope) {
    (e.name@, e.value@, e.scope)
}

/// The position of key `k`, if it is present.
pub open spec fn key_position(keys: Seq<Seq<char>>, k: Seq<char>) -> Option<int> {
    if keys.contains(k) {
        Some(choose|i: int| 0 <= i < keys.len() && keys[i] == k)
    } else {
        None
    }
}

/// Template variables, each under its canonical name, with the scope that may see it;
/// kept in key order.
#[derive(Clone, Debug, PartialEq, Eq)]
pub struct AiVariableRegistry {
    keys: Vec<String>,
    entries: Vec<AiVariableEntry>,
}

impl Default for AiVariableRegistry {
    fn default() -> (r: AiVariableRegistry)
        ensures
            r.wf(),
            r.key_seq().len() == 0,
    {
        AiVariableRegistry { keys: Vec::new(), entries: Vec::new() }
    }
}

proof fn lemma_sorted_position(keys: Seq<Seq<char>>, i: int)
    requires
        strictly_sorted(keys),
        0 <= i < keys.len(),
    ensures
        key_position(keys, keys[i]) == Some(i),
{
    assert(keys.contains(keys[i]));
    let j = choose|j: int| 0 <= j < keys.len() && keys[j] == keys[i];
    if j != i {
        lemma_lex_irreflexive(keys[i]);
        if j < i {
            assert(lex_lt(keys[j], keys[i]));
        } else {
            assert(lex_lt(keys[i], keys[j]));
        }
    }
}

/// What inserting `name` with `value` in `scope` leaves visible: the new value under its
/// name (in every scope that may see it), every other variable as it was.
pub open spec fn resolves_after_insert(
    before: AiVariableRegistry,
    after: AiVariableRegistry,
    scope: AiVariableScope,
    name: Seq<char>,
    value: Seq<char>,
) -> bool {
    &&& forall|s: AiVariableScope| #[trigger] after.resolved(name, s) == if scope_can_access(s, scope) {
        Some(value)
    } else {
        None::<Seq<char>>
    }
    &&& forall|p: Seq<char>, s: AiVariableScope|
        canonical_variable_name(p) != canonical_variable_name(name) ==> #[trigger] after.resolved(p, s)
            == before.resolved(p, s)
}

impl AiVariableRegistry {
    pub closed spec fn key_seq(&self) -> Seq<Seq<char>> {
        sviews(self.keys@)
    }

    pub closed spec fn entry_seq(&self) -> Seq<(Seq<char>, Seq<char>, AiVariableScope)> {
        self.entries@.map_values(|e: AiVariableEntry| entry_view(e))
    }

    /// One entry per key, keys in order, each key the canonical form of its entry's name.
    pub closed spec fn wf(&self) -> bool {
        self.keys.len() == self.entries.len() && strictly_sorted(self.key_seq()) && forall|i: int|
            0 <= i < self.keys.len() ==> #[trigger] self.key_seq()[i] == canonical_variable_name(self.entry_seq()[i].0)
    }

    fn position(&self, key: &String) -> (r: Result<usize, usize>)
        requires
            self.wf(),
        ensures
            r matches Ok(i) ==> i < self.keys.len() && key_position(self.key_seq(), key@) == Some(i as int),
            r matches Err(p) ==> p <= self.keys.len() && key_position(self.key_seq(), key@) is None
                && (forall|j: int| 0 <= j < p ==> lex_lt(#[trigger] self.key_seq()[j], key@))
                && (forall|j: int| p <= j < self.keys.len() ==> lex_lt(key@, #[trigger] self.key_seq()[j])),
    {
        let p = crate::sorted::lower_bound(&self.keys, key);
        if p < self.keys.len() && string_eq(&self.keys[p], key) {
            proof {
                assert(self.key_seq()[p as int] == key@);
                lemma_sorted_position(self.key_seq(), p as int);
            }
            return Ok(p);
        }
        proof {
            if p < self.keys.len() {
                lemma_lex_total(key@, self.keys@[p as int]@);
            }
            if self.key_seq().contains(key@) {
                let j = choose|j: int| 0 <= j < self.keys@.len() && self.key_seq()[j] == key@;
                lemma_lex_irreflexive(key@);
                assert(self.keys@[j]@ == key@);
            }
            assert forall|j: int| p <= j < self.keys.len() implies lex_lt(key@, #[trigger] self.key_seq()[j]) by {
                if j > p {
                    assert(self.key_seq()[j] == self.keys@[j]@);
                } else {
                    assert(self.key_seq()[j] == self.keys@[j]@);
                }
            }
        }
        Err(p)
    }

    /// Sets a variable under the canonical form of `name`, replacing one with the same key.
    pub fn insert(&mut self, scope: AiVariableScope, name: &str, value: &str)
        requires
            old(self).wf(),
        ensures
            final(self).wf(),
            resolves_after_insert(*old(self), *final(self), scope, name@, value@),
            match key_position(old(self).key_seq(), canonical_variable_name(name@)) {
                Some(i) => final(self).key_seq() == old(self).key_seq() && final(self).entry_seq()
                    == old(self).entry_seq().update(i, (name@, value@, scope)),
                None => exists|p: int|
                    0 <= p <= old(self).key_seq().len() && final(self).key_seq() == old(self).key_seq().insert(
                        p,
                        canonical_variable_name(name@),
                    ) && final(self).entry_seq() == #[trigger] old(self).entry_seq().insert(p, (name@, value@, scope)),
            },
    {
        let key = string_of(&canonical_variable_name_exec(name));
        let entry = AiVariableEntry { name: owned(name), value: owned(value), scope };
        let ghost ok = self.key_seq();
        let ghost oe = self.entry_seq();
        let ghost ev = entry_view(entry);
        match self.position(&key) {
            Ok(i) => {
                self.entries.set(i, entry);
                proof {
                    assert(self.entry_seq() =~= oe.update(i as int, ev));
                    assert(self.key_seq() == ok);
                    lemma_sorted_position(ok, i as int);
                    assert forall|q: Seq<char>, sc: AiVariableScope|
                        canonical_variable_name(q) != key@ implies #[trigger] self.resolved(q, sc) == old(self).resolved(q, sc) by {
                        let cq = canonical_variable_name(q);
                        if ok.contains(cq) {
                            let j = choose|j: int| 0 <= j < ok.len() && ok[j] == cq;
                            lemma_sorted_position(ok, j);
                            assert(j != i);
                        }
                    }
                }
            },
            Err(p) => {
                self.keys.insert(p, key);
                self.entries.insert(p, entry);
                proof {
                    let nk = self.key_seq();
                    assert(nk =~= ok.insert(p as int, key@));
                    assert(self.entry_seq() =~= oe.insert(p as int, ev));
                    assert forall|a: int, b: int| 0 <= a < b < nk.len() implies lex_lt(#[trigger] nk[a], #[trigger] nk[b]) by {
                        if b < p {
                            assert(lex_lt(ok[a], ok[b]));
                        } else if b == p {
                        } else if a == p {
                        } else if a < p {
                            lemma_lex_transitive(ok[a], key@, ok[b - 1]);
                        } else {
                            assert(lex_lt(ok[a - 1], ok[b - 1]));
                        }
                    }
                    assert forall|i: int| 0 <= i < self.keys.len() implies #[trigger] self.key_seq()[i] == canonical_variable_name(self.entry_seq()[i].0) by {
                        if i < p {
                            assert(self.key_seq()[i] == ok[i] && self.entry_seq()[i] == oe[i]);
                        } else if i > p {
                            assert(self.key_seq()[i] == ok[i - 1] && self.entry_seq()[i] == oe[i - 1]);
                        }
                    }
                    assert(old(self).entry_seq().insert(p as int, (name@, value@, scope)) == self.entry_seq());
                    lemma_sorted_position(nk, p as int);
                    assert(nk[p as int] == key@);
                    assert forall|q: Seq<char>, sc: AiVariableScope|
                        canonical_variable_name(q) != key@ implies #[trigger] self.resolved(q, sc) == old(self).resolved(q, sc) by {
                        let cq = canonical_variable_name(q);
                        if ok.contains(cq) {
                            let j = choose|j: int| 0 <= j < ok.len() && ok[j] == cq;
                            lemma_sorted_position(ok, j);
                            let j2 = if j < p { j } else { j + 1 };
                            assert(nk[j2] == cq);
                            lemma_sorted_position(nk, j2);
                            assert(self.entry_seq()[j2] == oe[j]);
                        } else {
                            if nk.contains(cq) {
                                let j = choose|j: int| 0 <= j < nk.len() && nk[j] == cq;
                                if j < p {
                                    assert(ok[j] == cq);
                                } else if j > p {
                                    assert(ok[j - 1] == cq);
                                }
                            }
                        }
                    }
                }
            },
        }
    }

    pub fn insert_global(&mut self, name: &str, value: &str)
        requires
            old(self).wf(),
        ensures
            final(self).wf(),
            resolves_after_insert(*old(self), *final(self), AiVariableScope::Global, name@, value@),
            match key_position(old(self).key_seq(), canonical_variable_name(name@)) {
                Some(i) => final(self).key_seq() == old(self).key_seq() && final(self).entry_seq()
                    == old(self).entry_seq().update(i, (name@, value@, AiVariableScope::Global)),
                None => exists|p: int|
                    0 <= p <= old(self).key_seq().len() && final(self).key_seq() == old(self).key_seq().insert(
                        p,
                        canonical_variable_name(name@),
                    ) && final(self).entry_seq() == #[trigger] old(self).entry_seq().insert(p, (name@, value@, AiVariableScope::Global)),
            },
    {
        self.insert(AiVariableScope::Global, name, value)
    }

    pub fn insert_knowledge(&mut self, name: &str, value: &str)
        requires
            old(self).wf(),
        ensures
            final(self).wf(),
            resolves_after_insert(*old(self), *final(self), AiVariableScope::Knowledge, name@, value@),
            match key_position(old(self).key_seq(), canonical_variable_name(name@)) {
                Some(i) => final(self).key_seq() == old(self).key_seq() && final(self).entry_seq()
                    == old(self).entry_seq().update(i, (name@, value@, AiVariableScope::Knowledge)),
                None => exists|p: int|
                    0 <= p <= old(self).key_seq().len() && final(self).key_seq() == old(self).key_seq().insert(
                        p,
                        canonical_variable_name(name@),
                    ) && final(self).entry_seq() == #[trigger] old(self).entry_seq().insert(p, (name@, value@, AiVariableScope::Knowledge)),
            },
    {
        self.insert(AiVariableScope::Knowledge, name, value)
    }

    /// The value a placeholder stands for in `scope`, if the variable exists and the scope
    /// may see it.
    pub open spec fn resolved(&self, placeholder: Seq<char>, scope: AiVariableScope) -> Option<Seq<char>> {
        match key_position(self.key_seq(), canonical_variable_name(placeholder)) {
            Some(i) => if scope_can_access(scope, self.entry_seq()[i].2) {
                Some(self.entry_seq()[i].1)
            } else {
                None
            },
            None => None,
        }
    }

    pub fn resolve(&self, placeholder: &str, scope: AiVariableScope) -> (r: Option<&str>)
        requires
            self.wf(),
        ensures
            match self.resolved(placeholder@, scope) {
                Some(v) => r matches Some(s) && s@ == v,
                None => r is None,
            },
    {
        let key = string_of(&canonical_variable_name_exec(placeholder));
        match self.position(&key) {
            Ok(i) => {
                assert(self.entry_seq()[i as int] == entry_view(self.entries@[i as int]));
                if scope_can_access_exec(scope, self.entries[i].scope) {
                    Some(self.entries[i].value.as_str())
                } else {
                    None
                }
            },
            Err(_) => None,
        }
    }

    /// The variables `scope` may see, as name ↦ value, sorted by name.
    pub fn progressive_snapshot(&self, scope: AiVariableScope) -> (r: Vec<(String, String)>)
        requires
            self.wf(),
        ensures
            keys_sorted(r@),
            map_of(r@) == snapshot_of(self.entry_seq(), scope),
    {
        let mut out: Vec<(String, String)> = Vec::new();
        let mut i: usize = 0;
        let ghost es = self.entry_seq();
        assert(es.take(0) =~= Seq::<(Seq<char>, Seq<char>, AiVariableScope)>::empty());
        assert(map_of(out@) =~= Map::empty());
        while i < self.entries.len()
            invariant
                i <= self.entries.len(),
                es == self.entry_seq(),
                keys_sorted(out@),
                map_of(out@) == snapshot_of(es.take(i as int), scope),
            decreases self.entries.len() - i,
        {
            proof {
                assert(es.take(i + 1).drop_last() =~= es.take(i as int));
                assert(es.take(i + 1).last() == entry_view(self.entries@[i as int]));
            }
            if scope_can_access_exec(scope, self.entries[i].scope) {
                map_insert(&mut out, self.entries[i].name.clone(), self.entries[i].value.clone());
            }
            i += 1;
        }
        assert(es.take(self.entries.len() as int) =~= es);
        out
    }

    /// `template` with each `{{placeholder}}` that resolves in `scope` replaced by its value
    /// (see `rendered`).
    pub fn render_template(&self, template: &str, scope: AiVariableScope) -> (r: String)
        requires
            self.wf(),
        ensures
            r@ == rendered(*self, template@, scope),
    {
        proof {
            reveal_strlit("{{");
            reveal_strlit("}}");
        }
        let open = chars_of("{{");
        let close = chars_of("}}");
        let mut out: Vec<char> = Vec::new();
        let mut remain = chars_of(template);
        assert(out@ + rendered(*self, remain@, scope) == rendered(*self, template@, scope));
        loop
            invariant
                self.wf(),
                open@ == "{{"@,
                close@ == "}}"@,
                open@.len() == 2,
                close@.len() == 2,
                out@ + rendered(*self, remain@, scope) == rendered(*self, template@, scope),
            decreases remain.len(),
        {
            let ghost before = out@;
            let st = match find_from(&remain, &open, 0) {
                Some(i) => i,
                None => {
                    proof {
                        lemma_rendered_no_open(*self, remain@, scope);
                    }
                    push_all(&mut out, &remain);
                    return string_of(&out);
                },
            };
            proof {
                lemma_first_occ_ai(remain@, "{{"@, st as int);
            }
            let after = slice_of(&remain, st + 2, remain.len());
            let e = match find_from(&after, &close, 0) {
                Some(e) => e,
                None => {
                    proof {
                        assert(after@ =~= remain@.skip(st + 2));
                        lemma_rendered_no_close(*self, remain@, scope, st as int);
                    }
                    push_all(&mut out, &remain);
                    return string_of(&out);
                },
            };
            proof {
                assert(after@ =~= remain@.skip(st + 2));
                lemma_first_occ_ai(after@, "}}"@, e as int);
                lemma_rendered_step(*self, remain@, scope, st as int, e as int);
            }
            let head = slice_of(&remain, 0, st);
            push_all(&mut out, &head);
            let ph = slice_of(&after, 0, e);
            let phs = string_of(&ph);
            match self.resolve(phs.as_str(), scope) {
                Some(v) => {
                    push_str(&mut out, v);
                },
                None => {
                    let tok = slice_of(&remain, st, st + 2 + e + 2);
                    push_all(&mut out, &tok);
                },
            }
            let next = slice_of(&after, e + 2, after.len());
            proof {
                assert(head@ =~= remain@.take(st as int));
                assert(ph@ =~= remain@.skip(st + 2).take(e as int));
                assert(next@ =~= remain@.skip(st + 2).skip(e + 2));
            }
            remain = next;
        }
    }
}

/// The variables `scope` may see, as name ↦ value.
pub open spec fn snapshot_of(es: Seq<(Seq<char>, Seq<char>, AiVariableScope)>, scope: AiVariableScope) -> Map<Seq<char>, Seq<char>>
    decreases es.len(),
{
    if es.len() == 0 {
        Map::empty()
    } else {
        let m = snapshot_of(es.drop_last(), scope);
        if scope_can_access(scope, es.last().2) {
            m.insert(es.last().0, es.last().1)
        } else {
            m
        }
    }
}

/// A template rendered in `scope`: each `{{p}}` whose placeholder resolves becomes the value;
/// an unresolved one stays; an unclosed `{{` and all after it stay.
#[verifier::opaque]
pub open spec fn rendered(reg: AiVariableRegistry, t: Seq<char>, scope: AiVariableScope) -> Seq<char>
    decreases t.len(),
{
    match first_occurrence_from(t, "{{"@, 0) {
        None => t,
        Some(st) => if st < 0 || st + 2 > t.len() {
            t
        } else {
            let after = t.skip(st + 2);
            match first_occurrence_from(after, "}}"@, 0) {
                None => t,
                Some(e) => if e < 0 || e + 2 > after.len() {
                    t
                } else {
                    let ph = after.take(e);
                    let piece = match reg.resolved(ph, scope) {
                        Some(v) => v,
                        None => t.subrange(st, st + 2 + e + 2),
                    };
                    t.take(st) + piece + rendered(reg, after.skip(e + 2), scope)
                },
            }
        },
    }
}

proof fn lemma_first_occ_ai(s: Seq<char>, p: Seq<char>, k: int)
    requires
        0 <= k,
        occurs_at(s, p, k),
        forall|m: int| 0 <= m < k ==> !#[trigger] occurs_at(s, p, m),
    ensures
        first_occurrence_from(s, p, 0) == Some(k),
{
    assert(exists|j: int| 0 <= j && #[trigger] occurs_at(s, p, j));
    let c = choose|j: int|
        0 <= j && #[trigger] occurs_at(s, p, j) && forall|m: int| 0 <= m < j ==> !#[trigger] occurs_at(s, p, m);
    if c < k {
        assert(!occurs_at(s, p, c));
    } else if c > k {
        assert(!occurs_at(s, p, k));
    }
}

proof fn lemma_rendered_no_open(reg: AiVariableRegistry, t: Seq<char>, scope: AiVariableScope)
    requires
        forall|j: int| 0 <= j ==> !#[trigger] occurs_at(t, "{{"@, j),
    ensures
        rendered(reg, t, scope) == t,
{
    assert(first_occurrence_from(t, "{{"@, 0) is None);
    reveal(rendered);
}

proof fn lemma_rendered_no_close(reg: AiVariableRegistry, t: Seq<char>, scope: AiVariableScope, st: int)
    requires
        0 <= st,
        st + 2 <= t.len(),
        first_occurrence_from(t, "{{"@, 0) == Some(st),
        forall|j: int| 0 <= j ==> !#[trigger] occurs_at(t.skip(st + 2), "}}"@, j),
    ensures
        rendered(reg, t, scope) == t,
{
    assert(first_occurrence_from(t.skip(st + 2), "}}"@, 0) is None);
    reveal(rendered);
}

proof fn lemma_rendered_step(reg: AiVariableRegistry, t: Seq<char>, scope: AiVariableScope, st: int, e: int)
    requires
        0 <= st,
        st + 2 <= t.len(),
        first_occurrence_from(t, "{{"@, 0) == Some(st),
        0 <= e,
        e + 2 <= t.skip(st + 2).len(),
        first_occurrence_from(t.skip(st + 2), "}}"@, 0) == Some(e),
    ensures
        rendered(reg, t, scope) == t.take(st) + (match reg.resolved(t.skip(st + 2).take(e), scope) {
            Some(v) => v,
            None => t.subrange(st, st + 2 + e + 2),
        }) + rendered(reg, t.skip(st + 2).skip(e + 2), scope),
{
    reveal(rendered);
}

// ---------------------------------------------------------------------------
// VCP tool requests
// ---------------------------------------------------------------------------
/// A tool call that a model asked for. `args` holds canonical argument names and values,
/// sorted by name.
#[derive(Clone, Debug, PartialEq, Eq)]
pub struct VcpToolRequest {
    pub tool_name: String,
    pub args: Vec<(String, String)>,
    pub no_reply: bool,
    pub mark_history: bool,
}

pub struct ToolRequestModel {
    pub tool_name: Seq<char>,
    pub args: Map<Seq<char>, Seq<char>>,
    pub no_reply: bool,
    pub mark_history: bool,
}

impl VcpToolRequest {
    pub open spec fn model(&self) -> ToolRequestModel {
        ToolRequestModel { tool_name: self.tool_name@, args: map_of(self.args@), no_reply: self.no_reply, mark_history: self.mark_history }
    }
}

pub const VCP_TOOL_REQUEST_START: &'static str = "<<<[TOOL_REQUEST]>>>";

pub const VCP_TOOL_REQUEST_END: &'static str = "<<<[END_TOOL_REQUEST]>>>";

/// The name of a tool or argument as compared: trimmed, in ASCII lower case.
pub open spec fn canonical_tool_name(raw: Seq<char>) -> Seq<char> {
    lower_seq(trim(raw))
}

/// An argument key as compared: trimmed, ASCII lower case, spaces and dashes made `_`.
pub open spec fn canonical_tool_key(raw: Seq<char>) -> Seq<char> {
    replace_char_seq(replace_char_seq(lower_seq(trim(raw)), ' ', '_'), '-', '_')
}

fn canonical_tool_name_exec(raw: &str) -> (r: Vec<char>)
    ensures
        r@ == canonical_tool_name(raw@),
{
    let t = trimmed(raw);
    lower_ascii(&t)
}

fn canonical_tool_key_exec(raw: &str) -> (r: Vec<char>)
    ensures
        r@ == canonical_tool_key(raw@),
{
    let t = trimmed(raw);
    let l = lower_ascii(&t);
    let a = replace_char(&l, ' ', '_');
    replace_char(&a, '-', '_')
}

/// Index of the first character at or after `c` that is not skipped by `commas`
/// (whitespace, and commas when `commas`).
pub open spec fn skip_from(b: Seq<char>, c: int, commas: bool) -> int
    decreases b.len() - c,
{
    if c < 0 || c >= b.len() {
        c
    } else if is_ws(b[c]) || (commas && b[c] == ',') {
        skip_from(b, c + 1, commas)
    } else {
        c
    }
}

fn skip_exec(b: &[char], c: usize, commas: bool) -> (r: usize)
    ensures
        r as int == skip_from(b@, c as int, commas),
        c <= r,
        c <= b.len() ==> r <= b.len(),
{
    let mut i = c;
    while i < b.len() && (is_whitespace(b[i]) || (commas && b[i] == ','))
        invariant
            c <= i,
            skip_from(b@, c as int, commas) == skip_from(b@, i as int, commas),
            c <= b.len() ==> i <= b.len(),
        decreases b.len() - i,
    {
        i += 1;
    }
    i
}

/// The value markers: opening and closing pairs.
#[verifier::opaque]
pub open spec fn wrapper(w: int) -> (Seq<char>, Seq<char>) {
    if w == 0 {
        (seq!['\u{300c}', '\u{59cb}', '\u{300d}'], seq!['\u{300c}', '\u{672b}', '\u{300d}'])
    } else if w == 1 {
        (seq!['\u{300e}', '\u{59cb}', '\u{300f}'], seq!['\u{300e}', '\u{672b}', '\u{300f}'])
    } else {
        (seq!['\u{3010}', '\u{59cb}', '\u{3011}'], seq!['\u{3010}', '\u{672b}', '\u{3011}'])
    }
}

/// The first wrapper whose opening marker starts at `c`.
#[verifier::opaque]
pub open spec fn wrapper_at(b: Seq<char>, c: int) -> Option<int> {
    if has_prefix(b.skip(c), wrapper(0).0) {
        Some(0)
    } else if has_prefix(b.skip(c), wrapper(1).0) {
        Some(1)
    } else if has_prefix(b.skip(c), wrapper(2).0) {
        Some(2)
    } else {
        None
    }
}

/// The first index at or after `c` holding a line break or comma (or the length).
pub open spec fn value_end(b: Seq<char>, c: int) -> int
    decreases b.len() - c,
{
    if c < 0 || c >= b.len() {
        c
    } else if b[c] == '\n' || b[c] == ',' {
        c
    } else {
        value_end(b, c + 1)
    }
}

/// A value starting at `c`: between a wrapper's markers (trimmed), else up to the next line
/// break or comma (trimmed); with where parsing goes on.
#[verifier::opaque]
pub open spec fn parse_value(b: Seq<char>, c: int) -> Result<(Seq<char>, int), Seq<char>> {
    match wrapper_at(b, c) {
        Some(w) => {
            let (open, close) = wrapper(w);
            let vs = c + 3;
            match first_occurrence_from(b.skip(vs), close, 0) {
                None => Err("vcp value started with `"@ + open + "` but no closing `"@ + close + "`"@),
                Some(er) => Ok((trim(b.subrange(vs, vs + er)), skip_from(b, vs + er + 3, true))),
            }
        },
        None => {
            let ec = value_end(b, c);
            Ok((trim(b.subrange(c, ec)), skip_from(b, ec, true)))
        },
    }
}

proof fn lemma_first_occ_skip(b: Seq<char>, p: Seq<char>, vs: int, i: int)
    requires
        0 <= vs <= i,
        vs <= b.len(),
        occurs_at(b, p, i),
        forall|j: int| vs <= j < i ==> !#[trigger] occurs_at(b, p, j),
    ensures
        first_occurrence_from(b.skip(vs), p, 0) == Some(i - vs),
{
    let t = b.skip(vs);
    lemma_occurs_skip(b, p, vs, i - vs);
    assert forall|m: int| 0 <= m < i - vs implies !#[trigger] occurs_at(t, p, m) by {
        lemma_occurs_skip(b, p, vs, m);
        assert(!occurs_at(b, p, vs + m));
    }
    lemma_first_occ_ai(t, p, i - vs);
}

proof fn lemma_no_occ_skip(b: Seq<char>, p: Seq<char>, vs: int)
    requires
        0 <= vs <= b.len(),
        forall|j: int| vs <= j ==> !#[trigger] occurs_at(b, p, j),
    ensures
        first_occurrence_from(b.skip(vs), p, 0) is None,
{
    let t = b.skip(vs);
    assert forall|m: int| 0 <= m implies !#[trigger] occurs_at(t, p, m) by {
        lemma_occurs_skip(b, p, vs, m);
        assert(!occurs_at(b, p, vs + m));
    }
}

proof fn lemma_prefix_skip(b: Seq<char>, p: Seq<char>, c: int)
    requires
        0 <= c <= b.len(),
    ensures
        has_prefix(b.skip(c), p) == occurs_at(b, p, c),
{
    if has_prefix(b.skip(c), p) {
        assert(b.skip(c).subrange(0, p.len() as int) =~= b.subrange(c, c + p.len()));
    }
    if occurs_at(b, p, c) {
        assert(b.skip(c).subrange(0, p.len() as int) =~= b.subrange(c, c + p.len()));
    }
}

fn wrapper_exec(w: usize) -> (r: (Vec<char>, Vec<char>))
    ensures
        r.0@ == wrapper(w as int).0,
        r.1@ == wrapper(w as int).1,
{
    let r = if w == 0 {
        (vec!['\u{300c}', '\u{59cb}', '\u{300d}'], vec!['\u{300c}', '\u{672b}', '\u{300d}'])
    } else if w == 1 {
        (vec!['\u{300e}', '\u{59cb}', '\u{300f}'], vec!['\u{300e}', '\u{672b}', '\u{300f}'])
    } else {
        (vec!['\u{3010}', '\u{59cb}', '\u{3011}'], vec!['\u{3010}', '\u{672b}', '\u{3011}'])
    };
    proof {
        reveal(wrapper);
    }
    assert(r.0@ =~= wrapper(w as int).0);
    assert(r.1@ =~= wrapper(w as int).1);
    r
}

fn value_end_exec(b: &[char], c: usize) -> (r: usize)
    requires
        c <= b.len(),
    ensures
        r as int == value_end(b@, c as int),
        c <= r <= b.len(),
{
    let mut i = c;
    while i < b.len() && b[i] != '\n' && b[i] != ','
        invariant
            c <= i <= b.len(),
            value_end(b@, c as int) == value_end(b@, i as int),
        decreases b.len() - i,
    {
        i += 1;
    }
    i
}

pub open spec fn wrapped_value(b: Seq<char>, c: int, w: int) -> Result<(Seq<char>, int), Seq<char>> {
    let (open, close) = wrapper(w);
    let vs = c + 3;
    match first_occurrence_from(b.skip(vs), close, 0) {
        None => Err("vcp value started with `"@ + open + "` but no closing `"@ + close + "`"@),
        Some(er) => Ok((trim(b.subrange(vs, vs + er)), skip_from(b, vs + er + 3, true))),
    }
}

proof fn lemma_parse_value_cases(b: Seq<char>, c: int)
    ensures
        parse_value(b, c) == match wrapper_at(b, c) {
            Some(w) => wrapped_value(b, c, w),
            None => Ok((trim(b.subrange(c, value_end(b, c))), skip_from(b, value_end(b, c), true))),
        },
{
    reveal(parse_value);
}

proof fn reveal_wrapper_len(w: int)
    ensures
        wrapper(w).0.len() == 3,
        wrapper(w).1.len() == 3,
{
    reveal(wrapper);
}

fn find_wrapper(b: &[char], c: usize) -> (r: Option<usize>)
    requires
        c <= b.len(),
    ensures
        r matches Some(w) ==> w < 3 && wrapper_at(b@, c as int) == Some(w as int),
        r is None ==> wrapper_at(b@, c as int) is None,
{
    let mut w: usize = 0;
    while w < 3
        invariant
            w <= 3,
            c <= b.len(),
            forall|k: int| 0 <= k < w ==> !has_prefix(b@.skip(c as int), #[trigger] wrapper(k).0),
        decreases 3 - w,
    {
        let (open, _close) = wrapper_exec(w);
        proof {
            lemma_prefix_skip(b@, open@, c as int);
        }
        if matches_at(b, &open, c) {
            proof {
                reveal(wrapper_at);
            }
            return Some(w);
        }
        w += 1;
    }
    proof {
        reveal(wrapper_at);
    }
    None
}

#[verifier::spinoff_prover]
fn parse_wrapped(b: &[char], c: usize, w: usize) -> (r: Result<(Vec<char>, usize), String>)
    requires
        c <= b.len(),
        w < 3,
        wrapper_at(b@, c as int) == Some(w as int),
    ensures
        match wrapped_value(b@, c as int, w as int) {
            Ok((v, n)) => r matches Ok(x) && x.0@ == v && x.1 as int == n,
            Err(m) => r matches Err(e) && e@ == m,
        },
        r matches Ok(x) ==> c <= x.1 <= b.len(),
{
    let (open, close) = wrapper_exec(w);
    proof {
        reveal(wrapper_at);
        lemma_prefix_skip(b@, open@, c as int);
        reveal_wrapper_len(w as int);
    }
    let vs = c + 3;
    match find_from(b, &close, vs) {
        None => {
            proof {
                lemma_no_occ_skip(b@, close@, vs as int);
            }
            let mut m = chars_of("vcp value started with `");
            push_all(&mut m, &open);
            push_str(&mut m, "` but no closing `");
            push_all(&mut m, &close);
            push_str(&mut m, "`");
            Err(string_of(&m))
        },
        Some(i) => {
            proof {
                lemma_first_occ_skip(b@, close@, vs as int, i as int);
            }
            let raw = slice_of(b, vs, i);
            let v = trim_chars(&raw);
            let n = skip_exec(b, i + 3, true);
            Ok((v, n))
        },
    }
}

fn parse_value_exec(b: &[char], c: usize) -> (r: Result<(Vec<char>, usize), String>)
    requires
        c <= b.len(),
    ensures
        match parse_value(b@, c as int) {
            Ok((v, n)) => r matches Ok(x) && x.0@ == v && x.1 as int == n,
            Err(m) => r matches Err(e) && e@ == m,
        },
        r matches Ok(x) ==> c <= x.1 <= b.len(),
{
    proof {
        lemma_parse_value_cases(b@, c as int);
    }
    match find_wrapper(b, c) {
        Some(w) => parse_wrapped(b, c, w),
        None => {
            let ec = value_end_exec(b, c);
            let raw = slice_of(b, c, ec);
            let v = trim_chars(&raw);
            let n = skip_exec(b, ec, true);
            Ok((v, n))
        },
    }
}

/// The first index at or after `c` where `ch` stands.
pub open spec fn char_from(b: Seq<char>, c: int, ch: char) -> Option<int>
    decreases b.len() - c,
{
    if c < 0 || c >= b.len() {
        None
    } else if b[c] == ch {
        Some(c)
    } else {
        char_from(b, c + 1, ch)
    }
}

proof fn lemma_char_from(b: Seq<char>, c: int, ch: char, i: int)
    requires
        0 <= c <= i <= b.len(),
        forall|j: int| c <= j < i ==> b[j] != ch,
        i == b.len() || b[i] == ch,
    ensures
        char_from(b, c, ch) == (if i == b.len() { None } else { Some(i) }),
    decreases i - c,
{
    if c < i {
        lemma_char_from(b, c + 1, ch, i);
    }
}

/// A key: the text before the colon, trimmed, trailing commas dropped, trimmed again.
pub open spec fn key_text(b: Seq<char>, c1: int, k: int) -> Seq<char> {
    trim(trim_end_char(trim(b.subrange(c1, k)), ','))
}

/// `key: value` pairs from `c` on, separated by whitespace and commas; a pair with an empty
/// key is dropped; parsing stops where no colon follows.
#[verifier::opaque]
pub open spec fn kv_from(b: Seq<char>, c: int) -> Result<Seq<(Seq<char>, Seq<char>)>, Seq<char>>
    decreases b.len() - c,
{
    if c < 0 || c >= b.len() {
        Ok(Seq::empty())
    } else {
        let c1 = skip_from(b, c, true);
        if c1 >= b.len() || c1 < c {
            Ok(Seq::empty())
        } else {
            match char_from(b, c1, ':') {
                None => Ok(Seq::empty()),
                Some(k) => if k < c1 {
                    Ok(Seq::empty())
                } else {
                    let key = key_text(b, c1, k);
                    let c2 = skip_from(b, k + 1, false);
                    match parse_value(b, c2) {
                        Err(m) => Err(m),
                        Ok((v, nx)) => if nx <= c || nx > b.len() {
                            Ok(Seq::empty())
                        } else {
                            match kv_from(b, nx) {
                                Err(m) => Err(m),
                                Ok(rest) => Ok((if key.len() > 0 { seq![(key, v)] } else { Seq::empty() }) + rest),
                            }
                        },
                    }
                },
            }
        }
    }
}

pub open spec fn with_prefix<T>(p: Seq<T>, r: Result<Seq<T>, Seq<char>>) -> Result<Seq<T>, Seq<char>> {
    match r {
        Ok(rest) => Ok(p + rest),
        Err(m) => Err(m),
    }
}

pub open spec fn pair_views(v: Seq<(String, String)>) -> Seq<(Seq<char>, Seq<char>)> {
    v.map_values(|p: (String, String)| (p.0@, p.1@))
}

proof fn lemma_kv_end(b: Seq<char>, c: int)
    requires
        c >= b.len() || (0 <= c && skip_from(b, c, true) >= b.len()) || (0 <= c < b.len() && skip_from(b, c, true) >= c && char_from(b, skip_from(b, c, true), ':') is None),
    ensures
        kv_from(b, c) == Ok::<Seq<(Seq<char>, Seq<char>)>, Seq<char>>(Seq::empty()),
{
    reveal(kv_from);
}

proof fn lemma_kv_step(b: Seq<char>, c: int, c1: int, k: int, c2: int)
    requires
        0 <= c < b.len(),
        c1 == skip_from(b, c, true),
        c <= c1 < b.len(),
        char_from(b, c1, ':') == Some(k),
        c1 <= k,
        c2 == skip_from(b, k + 1, false),
        parse_value(b, c2) matches Ok((v, nx)) ==> nx > c && nx <= b.len(),
    ensures
        kv_from(b, c) == match parse_value(b, c2) {
            Err(m) => Err(m),
            Ok((v, nx)) => with_prefix(
                if key_text(b, c1, k).len() > 0 { seq![(key_text(b, c1, k), v)] } else { Seq::empty() },
                kv_from(b, nx),
            ),
        },
{
    reveal(kv_from);
}

fn key_pairs(b: &[char]) -> (r: Result<Vec<(String, String)>, String>)
    ensures
        match kv_from(b@, 0) {
            Ok(ps) => r matches Ok(v) && pair_views(v@) == ps,
            Err(m) => r matches Err(e) && e@ == m,
        },
{
    let mut out: Vec<(String, String)> = Vec::new();
    let mut cursor: usize = 0;
    assert(pair_views(out@) =~= Seq::<(Seq<char>, Seq<char>)>::empty());
    assert(with_prefix(pair_views(out@), kv_from(b@, 0)) =~= kv_from(b@, 0)) by {
        match kv_from(b@, 0) {
            Ok(rest) => {
                assert(pair_views(out@) + rest =~= rest);
            },
            Err(_) => {},
        }
    }
    loop
        invariant
            cursor <= b.len(),
            with_prefix(pair_views(out@), kv_from(b@, cursor as int)) == kv_from(b@, 0),
        decreases b.len() - cursor,
    {
        let ghost pv = pair_views(out@);
        if cursor >= b.len() {
            proof {
                lemma_kv_end(b@, cursor as int);
                assert(pv + Seq::<(Seq<char>, Seq<char>)>::empty() =~= pv);
            }
            return Ok(out);
        }
        let c1 = skip_exec(b, cursor, true);
        if c1 >= b.len() {
            proof {
                lemma_kv_end(b@, cursor as int);
                assert(pv + Seq::<(Seq<char>, Seq<char>)>::empty() =~= pv);
            }
            return Ok(out);
        }
        let k = match find_char(b, ':', c1) {
            Some(k) => {
                proof {
                    lemma_char_from(b@, c1 as int, ':', k as int);
                }
                k
            },
            None => {
                proof {
                    lemma_char_from(b@, c1 as int, ':', b.len() as int);
                    lemma_kv_end(b@, cursor as int);
                    assert(pv + Seq::<(Seq<char>, Seq<char>)>::empty() =~= pv);
                }
                return Ok(out);
            },
        };
        let raw = slice_of(b, c1, k);
        let t1 = trim_chars(&raw);
        let t2 = trim_end_char_chars(&t1, ',');
        let key = trim_chars(&t2);
        let c2 = skip_exec(b, k + 1, false);
        let pv_res = parse_value_exec(b, c2);
        proof {
            lemma_kv_step(b@, cursor as int, c1 as int, k as int, c2 as int);
        }
        match pv_res {
            Err(m) => {
                return Err(m);
            },
            Ok((v, nx)) => {
                if key.len() > 0 {
                    out.push((string_of(&key), string_of(&v)));
                    proof {
                        assert(pair_views(out@) =~= pv.push((key@, v@)));
                        match kv_from(b@, nx as int) {
                            Ok(rest) => {
                                assert(pv + (seq![(key@, v@)] + rest) =~= pair_views(out@) + rest);
                            },
                            Err(_) => {},
                        }
                    }
                } else {
                    proof {
                        match kv_from(b@, nx as int) {
                            Ok(rest) => {
                                assert(pv + (Seq::<(Seq<char>, Seq<char>)>::empty() + rest) =~= pv + rest);
                            },
                            Err(_) => {},
                        }
                    }
                }
                cursor = nx;
            },
        }
    }
}

/// The fields of a tool block, read pair by pair: `tool_name`, `archery` (`no_reply`),
/// `ink` (`mark_history`), and arguments; a later pair wins.
pub open spec fn block_fold(ps: Seq<(Seq<char>, Seq<char>)>) -> (Option<Seq<char>>, Map<Seq<char>, Seq<char>>, bool, bool)
    decreases ps.len(),
{
    if ps.len() == 0 {
        (None, Map::empty(), false, false)
    } else {
        let (t, a, nr, mh) = block_fold(ps.drop_last());
        let key = canonical_tool_key(ps.last().0);
        let v = ps.last().1;
        if key == "tool_name"@ {
            (Some(trim(v)), a, nr, mh)
        } else if key == "archery"@ {
            (t, a, lower_seq(trim(v)) == "no_reply"@, mh)
        } else if key == "ink"@ {
            (t, a, nr, lower_seq(trim(v)) == "mark_history"@)
        } else {
            (t, a.insert(key, v), nr, mh)
        }
    }
}

/// The tool request a block states.
#[verifier::opaque]
pub open spec fn parse_block(b: Seq<char>) -> Result<ToolRequestModel, Seq<char>> {
    match kv_from(b, 0) {
        Err(m) => Err(m),
        Ok(ps) => {
            let (t, a, nr, mh) = block_fold(ps);
            match t {
                Some(n) => if trim(n).len() > 0 {
                    Ok(ToolRequestModel { tool_name: n, args: a, no_reply: nr, mark_history: mh })
                } else {
                    Err("vcp tool block missing tool_name"@)
                },
                None => Err("vcp tool block missing tool_name"@),
            }
        },
    }
}

fn parse_vcp_tool_block(block: &[char]) -> (r: Result<VcpToolRequest, String>)
    ensures
        match parse_block(block@) {
            Ok(m) => r matches Ok(q) && keys_sorted(q.args@) && q.model() == m,
            Err(e) => r matches Err(x) && x@ == e,
        },
{
    let pairs = match key_pairs(block) {
        Ok(p) => p,
        Err(e) => {
            proof {
                reveal(parse_block);
            }
            return Err(e);
        },
    };
    let ghost pv = pair_views(pairs@);
    let mut tool: Option<String> = None;
    let mut args: Vec<(String, String)> = Vec::new();
    let mut no_reply = false;
    let mut mark_history = false;
    let mut i: usize = 0;
    assert(pv.take(0) =~= Seq::<(Seq<char>, Seq<char>)>::empty());
    assert(map_of(args@) =~= Map::empty());
    while i < pairs.len()
        invariant
            i <= pairs.len(),
            pv == pair_views(pairs@),
            keys_sorted(args@),
            block_fold(pv.take(i as int)) == (match tool {
                Some(t) => Some(t@),
                None => None::<Seq<char>>,
            }, map_of(args@), no_reply, mark_history),
        decreases pairs.len() - i,
    {
        proof {
            assert(pv.take(i + 1).drop_last() =~= pv.take(i as int));
            assert(pv.take(i + 1).last() == (pairs@[i as int].0@, pairs@[i as int].1@));
        }
        let key = canonical_tool_key_exec(pairs[i].0.as_str());
        let v = &pairs[i].1;
        if eq_str(&key, "tool_name") {
            let t = trimmed(v.as_str());
            tool = Some(string_of(&t));
        } else if eq_str(&key, "archery") {
            let t = trimmed(v.as_str());
            let l = lower_ascii(&t);
            no_reply = eq_str(&l, "no_reply");
        } else if eq_str(&key, "ink") {
            let t = trimmed(v.as_str());
            let l = lower_ascii(&t);
            mark_history = eq_str(&l, "mark_history");
        } else {
            map_insert(&mut args, string_of(&key), v.clone());
        }
        i += 1;
    }
    assert(pv.take(pairs.len() as int) =~= pv);
    proof {
        reveal(parse_block);
    }
    match tool {
        Some(t) => {
            if crate::text::is_blank(t.as_str()) {
                Err(owned("vcp tool block missing tool_name"))
            } else {
                Ok(VcpToolRequest { tool_name: t, args, no_reply, mark_history })
            }
        },
        None => Err(owned("vcp tool block missing tool_name")),
    }
}

pub open spec fn request_models(v: Seq<VcpToolRequest>) -> Seq<ToolRequestModel> {
    v.map_values(|q: VcpToolRequest| q.model())
}

pub open spec fn args_sorted(v: Seq<VcpToolRequest>) -> bool {
    forall|i: int| 0 <= i < v.len() ==> keys_sorted(#[trigger] v[i].args@)
}

/// The tool requests of a model's answer: each block between the start and end markers,
/// in order. A start marker without an end marker, or a block that does not parse, fails.
#[verifier::opaque]
pub open spec fn blocks_from(t: Seq<char>) -> Result<Seq<ToolRequestModel>, Seq<char>>
    decreases t.len(),
{
    let start = "<<<[TOOL_REQUEST]>>>"@;
    let end = "<<<[END_TOOL_REQUEST]>>>"@;
    match first_occurrence_from(t, start, 0) {
        None => Ok(Seq::empty()),
        Some(s0) => if s0 < 0 || s0 + start.len() > t.len() {
            Ok(Seq::empty())
        } else {
            let rest = t.skip(s0 + start.len());
            match first_occurrence_from(rest, end, 0) {
                None => Err("vcp tool block is missing END marker"@),
                Some(er) => if er < 0 || er + end.len() > rest.len() || start.len() == 0 {
                    Ok(Seq::empty())
                } else {
                    match parse_block(rest.take(er)) {
                        Err(m) => Err(m),
                        Ok(q) => match blocks_from(rest.skip(er + end.len())) {
                            Err(m) => Err(m),
                            Ok(qs) => Ok(seq![q] + qs),
                        },
                    }
                },
            }
        },
    }
}

proof fn lemma_blocks_none(t: Seq<char>)
    requires
        first_occurrence_from(t, "<<<[TOOL_REQUEST]>>>"@, 0) is None,
    ensures
        blocks_from(t) == Ok::<Seq<ToolRequestModel>, Seq<char>>(Seq::empty()),
{
    reveal(blocks_from);
}

proof fn lemma_blocks_unclosed(t: Seq<char>, s0: int)
    requires
        first_occurrence_from(t, "<<<[TOOL_REQUEST]>>>"@, 0) == Some(s0),
        0 <= s0,
        s0 + 20 <= t.len(),
        "<<<[TOOL_REQUEST]>>>"@.len() == 20,
        first_occurrence_from(t.skip(s0 + 20), "<<<[END_TOOL_REQUEST]>>>"@, 0) is None,
    ensures
        blocks_from(t) == Err::<Seq<ToolRequestModel>, Seq<char>>("vcp tool block is missing END marker"@),
{
    reveal(blocks_from);
}

#[verifier::spinoff_prover]
#[verifier::rlimit(50)]
proof fn lemma_blocks_step(t: Seq<char>, s0: int, er: int)
    requires
        first_occurrence_from(t, "<<<[TOOL_REQUEST]>>>"@, 0) == Some(s0),
        0 <= s0,
        s0 + 20 <= t.len(),
        "<<<[TOOL_REQUEST]>>>"@.len() == 20,
        "<<<[END_TOOL_REQUEST]>>>"@.len() == 24,
        first_occurrence_from(t.skip(s0 + 20), "<<<[END_TOOL_REQUEST]>>>"@, 0) == Some(er),
        0 <= er,
        er + 24 <= t.skip(s0 + 20).len(),
    ensures
        blocks_from(t) == match parse_block(t.skip(s0 + 20).take(er)) {
            Err(m) => Err(m),
            Ok(q) => with_prefix(seq![q], blocks_from(t.skip(s0 + 20).skip(er + 24))),
        },
{
    reveal(blocks_from);
}

/// The unit that parses tool request blocks out of a model's answer.
#[derive(Clone, Debug)]
pub struct VcpToolRequestParser;

impl VcpToolRequestParser {
    #[verifier::spinoff_prover]
    #[verifier::rlimit(30)]
    pub fn parse_all(text: &str) -> (r: Result<Vec<VcpToolRequest>, String>)
        ensures
            match blocks_from(text@) {
                Ok(qs) => r matches Ok(v) && request_models(v@) == qs && args_sorted(v@),
                Err(m) => r matches Err(e) && e@ == m,
            },
    {
        proof {
            reveal_strlit("<<<[TOOL_REQUEST]>>>");
            reveal_strlit("<<<[END_TOOL_REQUEST]>>>");
        }
        let start = chars_of(VCP_TOOL_REQUEST_START);
        let end = chars_of(VCP_TOOL_REQUEST_END);
        let mut out: Vec<VcpToolRequest> = Vec::new();
        let mut remain = chars_of(text);
        assert(request_models(out@) =~= Seq::<ToolRequestModel>::empty());
        assert(with_prefix(request_models(out@), blocks_from(remain@)) =~= blocks_from(text@)) by {
            match blocks_from(text@) {
                Ok(qs) => {
                    assert(request_models(out@) + qs =~= qs);
                },
                Err(_) => {},
            }
        }
        loop
            invariant
                start@ == "<<<[TOOL_REQUEST]>>>"@,
                end@ == "<<<[END_TOOL_REQUEST]>>>"@,
                start@.len() == 20,
                end@.len() == 24,
                args_sorted(out@),
                with_prefix(request_models(out@), blocks_from(remain@)) == blocks_from(text@),
            decreases remain.len(),
        {
            let ghost before = request_models(out@);
            let s0 = match find_from(&remain, &start, 0) {
                Some(i) => i,
                None => {
                    proof {
                        assert(first_occurrence_from(remain@, "<<<[TOOL_REQUEST]>>>"@, 0) is None);
                        lemma_blocks_none(remain@);
                        assert(before + Seq::<ToolRequestModel>::empty() =~= before);
                    }
                    return Ok(out);
                },
            };
            proof {
                lemma_first_occ_ai(remain@, "<<<[TOOL_REQUEST]>>>"@, s0 as int);
            }
            let rest = slice_of(&remain, s0 + 20, remain.len());
            assert(rest@ =~= remain@.skip(s0 + 20));
            let er = match find_from(&rest, &end, 0) {
                Some(e) => e,
                None => {
                    proof {
                        assert(first_occurrence_from(rest@, "<<<[END_TOOL_REQUEST]>>>"@, 0) is None);
                        lemma_blocks_unclosed(remain@, s0 as int);
                    }
                    return Err(owned("vcp tool block is missing END marker"));
                },
            };
            proof {
                lemma_first_occ_ai(rest@, "<<<[END_TOOL_REQUEST]>>>"@, er as int);
                lemma_blocks_step(remain@, s0 as int, er as int);
            }
            let block = slice_of(&rest, 0, er);
            assert(block@ =~= rest@.take(er as int));
            let q = match parse_vcp_tool_block(&block) {
                Ok(q) => q,
                Err(e) => {
                    return Err(e);
                },
            };
            let next = slice_of(&rest, er + 24, rest.len());
            assert(next@ =~= rest@.skip(er + 24));
            let ghost qm = q.model();
            out.push(q);
            proof {
                assert(request_models(out@) =~= before.push(qm));
                match blocks_from(next@) {
                    Ok(qs) => {
                        assert(before + (seq![qm] + qs) =~= request_models(out@) + qs);
                    },
                    Err(_) => {},
                }
                assert forall|i: int| 0 <= i < out@.len() implies keys_sorted(#[trigger] out@[i].args@) by {
                    if i < out@.len() - 1 {
                        assert(out@[i] == out@.drop_last()[i]);
                    }
                }
            }
            remain = next;
        }
    }

    /// The first tool request of a model's answer, if any (failing as `parse_all` does).
    pub fn parse_first(text: &str) -> (r: Result<Option<VcpToolRequest>, String>)
        ensures
            match blocks_from(text@) {
                Ok(qs) => r matches Ok(o) && (if qs.len() == 0 {
                    o is None
                } else {
                    o matches Some(q) && q.model() == qs[0] && keys_sorted(q.args@)
                }),
                Err(m) => r matches Err(e) && e@ == m,
            },
    {
        match VcpToolRequestParser::parse_all(text) {
            Err(e) => Err(e),
            Ok(v) => {
                if v.len() == 0 {
                    Ok(None)
                } else {
                    let mut v = v;
                    let ghost vm = request_models(v@);
                    let q = v.remove(0);
                    assert(q.model() == vm[0]);
                    Ok(Some(q))
                }
            },
        }
    }
}

// ---------------------------------------------------------------------------
// The tool registry
// ---------------------------------------------------------------------------
#[derive(Clone, Copy, Debug, PartialEq, Eq, Structural)]
pub enum VcpToolRisk {
    ReadOnly,
    WriteSafe,
    Destructive,
}

/// How a risk is printed in descriptions.
pub open spec fn risk_name(r: VcpToolRisk) -> Seq<char> {
    match r {
        VcpToolRisk::ReadOnly => "ReadOnly"@,
        VcpToolRisk::WriteSafe => "WriteSafe"@,
        VcpToolRisk::Destructive => "Destructive"@,
    }
}

fn risk_name_exec(r: VcpToolRisk) -> (s: &'static str)
    ensures
        s@ == risk_name(r),
{
    match r {
        VcpToolRisk::ReadOnly => "ReadOnly",
        VcpToolRisk::WriteSafe => "WriteSafe",
        VcpToolRisk::Destructive => "Destructive",
    }
}

#[derive(Clone, Debug, PartialEq, Eq)]
pub struct VcpToolSpec {
    pub name: String,
    pub description: String,
    pub risk: VcpToolRisk,
    pub required_args: Vec<String>,
}

pub struct ToolSpecModel {
    pub name: Seq<char>,
    pub description: Seq<char>,
    pub risk: VcpToolRisk,
    pub required_args: Seq<Seq<char>>,
}

impl View for VcpToolSpec {
    type V = ToolSpecModel;

    open spec fn view(&self) -> ToolSpecModel {
        ToolSpecModel { name: self.name@, description: self.description@, risk: self.risk, required_args: sviews(self.required_args@) }
    }
}

/// What the host allows tools to do; `allowlist`, when given, names the tools allowed.
#[derive(Clone, Debug, PartialEq, Eq)]
pub struct VcpToolPolicy {
    pub allow_write: bool,
    pub allow_destructive: bool,
    pub allowlist: Option<Vec<String>>,
}

impl Default for VcpToolPolicy {
    fn default() -> (p: VcpToolPolicy)
        ensures
            !p.allow_write && !p.allow_destructive && p.allowlist is None,
    {
        VcpToolPolicy { allow_write: false, allow_destructive: false, allowlist: None }
    }
}

#[derive(Clone, Debug, PartialEq, Eq)]
pub struct VcpToolExecutionResult {
    pub tool_name: String,
    pub payload_markdown: String,
}

/// The tools the assistant may call, each under its canonical name, in key order.
#[derive(Clone, Debug)]
pub struct VcpToolRegistry {
    keys: Vec<String>,
    specs: Vec<VcpToolSpec>,
}

pub open spec fn spec_views(v: Seq<VcpToolSpec>) -> Seq<ToolSpecModel> {
    v.map_values(|t: VcpToolSpec| t@)
}

impl Default for VcpToolRegistry {
    fn default() -> (r: VcpToolRegistry)
        ensures
            r.wf(),
            r.key_seq().len() == 0,
    {
        VcpToolRegistry { keys: Vec::new(), specs: Vec::new() }
    }
}

fn copy_strings(v: &Vec<String>) -> (r: Vec<String>)
    ensures
        r@ == v@,
{
    let mut r: Vec<String> = Vec::new();
    let mut i: usize = 0;
    while i < v.len()
        invariant
            i <= v.len(),
            r@ == v@.take(i as int),
        decreases v.len() - i,
    {
        r.push(v[i].clone());
        assert(v@.take(i + 1) =~= v@.take(i as int).push(v@[i as int]));
        i += 1;
    }
    assert(v@.take(v.len() as int) =~= v@);
    r
}

fn tool_spec(name: &str, description: &str, risk: VcpToolRisk, args: Vec<&str>) -> (t: VcpToolSpec)
    ensures
        t@.name == name@,
        t@.description == description@,
        t@.risk == risk,
        t@.required_args == args@.map_values(|a: &str| a@),
{
    let mut req: Vec<String> = Vec::new();
    let mut i: usize = 0;
    while i < args.len()
        invariant
            i <= args.len(),
            sviews(req@) == args@.take(i as int).map_values(|a: &str| a@),
        decreases args.len() - i,
    {
        let ghost before = req@;
        req.push(owned(args[i]));
        assert(sviews(req@) =~= sviews(before).push(args@[i as int]@));
        assert(args@.take(i + 1).map_values(|a: &str| a@) =~= args@.take(i as int).map_values(|a: &str| a@).push(args@[i as int]@));
        i += 1;
    }
    assert(args@.take(args.len() as int) =~= args@);
    VcpToolSpec { name: owned(name), description: owned(description), risk, required_args: req }
}

impl VcpToolRegistry {
    pub closed spec fn key_seq(&self) -> Seq<Seq<char>> {
        sviews(self.keys@)
    }

    pub closed spec fn spec_seq(&self) -> Seq<ToolSpecModel> {
        spec_views(self.specs@)
    }

    /// One spec per key, keys in order, each key the canonical form of its spec's name.
    pub closed spec fn wf(&self) -> bool {
        self.keys.len() == self.specs.len() && strictly_sorted(self.key_seq()) && forall|i: int|
            0 <= i < self.keys.len() ==> #[trigger] self.key_seq()[i] == canonical_tool_name(self.spec_seq()[i].name)
    }

    /// The spec registered under the canonical form of `name`.
    pub open spec fn lookup(&self, name: Seq<char>) -> Option<ToolSpecModel> {
        match key_position(self.key_seq(), canonical_tool_name(name)) {
            Some(i) => Some(self.spec_seq()[i]),
            None => None,
        }
    }

    fn position(&self, key: &String) -> (r: Result<usize, usize>)
        requires
            self.wf(),
        ensures
            r matches Ok(i) ==> i < self.keys.len() && key_position(self.key_seq(), key@) == Some(i as int),
            r matches Err(p) ==> p <= self.keys.len() && key_position(self.key_seq(), key@) is None
                && (forall|j: int| 0 <= j < p ==> lex_lt(#[trigger] self.key_seq()[j], key@))
                && (forall|j: int| p <= j < self.keys.len() ==> lex_lt(key@, #[trigger] self.key_seq()[j])),
    {
        let p = crate::sorted::lower_bound(&self.keys, key);
        if p < self.keys.len() && string_eq(&self.keys[p], key) {
            proof {
                assert(self.key_seq()[p as int] == key@);
                lemma_sorted_position(self.key_seq(), p as int);
            }
            return Ok(p);
        }
        proof {
            if p < self.keys.len() {
                lemma_lex_total(key@, self.keys@[p as int]@);
            }
            if self.key_seq().contains(key@) {
                let j = choose|j: int| 0 <= j < self.keys@.len() && self.key_seq()[j] == key@;
                lemma_lex_irreflexive(key@);
                assert(self.keys@[j]@ == key@);
            }
            assert forall|j: int| p <= j < self.keys.len() implies lex_lt(key@, #[trigger] self.key_seq()[j]) by {
                assert(self.key_seq()[j] == self.keys@[j]@);
            }
        }
        Err(p)
    }

    /// Registers a tool under the canonical form of its name, replacing one with the same
    /// key.
    pub fn register(&mut self, spec: VcpToolSpec)
        requires
            old(self).wf(),
        ensures
            final(self).wf(),
            final(self).lookup(spec@.name) == Some(spec@),
            forall|n: Seq<char>| canonical_tool_name(n) != canonical_tool_name(spec@.name) ==> #[trigger] final(self).lookup(n) == old(self).lookup(n),
            final(self).key_seq().to_set() == old(self).key_seq().to_set().insert(canonical_tool_name(spec@.name)),
    {
        let key = string_of(&canonical_tool_name_exec(spec.name.as_str()));
        let ghost ok = self.key_seq();
        let ghost os = self.spec_seq();
        let ghost sv = spec@;
        let ghost old_reg = *self;
        match self.position(&key) {
            Ok(i) => {
                self.specs.set(i, spec);
                proof {
                    assert(self.spec_seq() =~= os.update(i as int, sv));
                    assert(self.key_seq() == ok);
                    assert forall|n: Seq<char>| canonical_tool_name(n) != key@ implies #[trigger] self.lookup(n) == old_reg.lookup(n) by {
                        match key_position(ok, canonical_tool_name(n)) {
                            Some(j) => {
                                assert(0 <= j < ok.len() && ok[j] == canonical_tool_name(n));
                                assert(j != i);
                            },
                            None => {},
                        }
                    }
                    assert(self.key_seq().to_set() =~= ok.to_set().insert(key@)) by {
                        assert(ok[i as int] == key@);
                    }
                }
            },
            Err(p) => {
                self.keys.insert(p, key);
                self.specs.insert(p, spec);
                proof {
                    let nk = self.key_seq();
                    assert(nk =~= ok.insert(p as int, key@));
                    assert(self.spec_seq() =~= os.insert(p as int, sv));
                    assert forall|a: int, b: int| 0 <= a < b < nk.len() implies lex_lt(#[trigger] nk[a], #[trigger] nk[b]) by {
                        if b < p {
                            assert(lex_lt(ok[a], ok[b]));
                        } else if b == p {
                        } else if a == p {
                        } else if a < p {
                            lemma_lex_transitive(ok[a], key@, ok[b - 1]);
                        } else {
                            assert(lex_lt(ok[a - 1], ok[b - 1]));
                        }
                    }
                    assert forall|i: int| 0 <= i < self.keys.len() implies #[trigger] self.key_seq()[i] == canonical_tool_name(self.spec_seq()[i].name) by {
                        if i < p {
                            assert(self.key_seq()[i] == ok[i] && self.spec_seq()[i] == os[i]);
                        } else if i > p {
                            assert(self.key_seq()[i] == ok[i - 1] && self.spec_seq()[i] == os[i - 1]);
                        }
                    }
                    lemma_sorted_position(nk, p as int);
                    assert forall|n: Seq<char>| canonical_tool_name(n) != key@ implies #[trigger] self.lookup(n) == old_reg.lookup(n) by {
                        let cn = canonical_tool_name(n);
                        match key_position(ok, cn) {
                            Some(j) => {
                                assert(0 <= j < ok.len() && ok[j] == cn);
                                let jj = if j < p { j } else { j + 1 };
                                assert(nk[jj] == cn);
                                lemma_sorted_position(nk, jj);
                                assert(self.spec_seq()[jj] == os[j]);
                            },
                            None => {
                                if nk.contains(cn) {
                                    let j = choose|j: int| 0 <= j < nk.len() && nk[j] == cn;
                                    if j < p {
                                        assert(ok[j] == cn);
                                    } else if j > p {
                                        assert(ok[j - 1] == cn);
                                    }
                                    assert(ok.contains(cn));
                                }
                            },
                        }
                    }
                    assert(nk.to_set() =~= ok.to_set().insert(key@)) by {
                        assert forall|x: Seq<char>| nk.contains(x) <==> (ok.contains(x) || x == key@) by {
                            if ok.contains(x) {
                                let j = choose|j: int| 0 <= j < ok.len() && ok[j] == x;
                                if j < p {
                                    assert(nk[j] == x);
                                } else {
                                    assert(nk[j + 1] == x);
                                }
                            }
                            if x == key@ {
                                assert(nk[p as int] == x);
                            }
                            if nk.contains(x) {
                                let j = choose|j: int| 0 <= j < nk.len() && nk[j] == x;
                                if j < p {
                                    assert(ok[j] == x);
                                } else if j > p {
                                    assert(ok[j - 1] == x);
                                }
                            }
                        }
                    }
                }
            },
        }
    }
}

/// A name that is already canonical: no surrounding whitespace, no ASCII capitals.
pub open spec fn plain_name(s: Seq<char>) -> bool {
    s.len() > 0 && !is_ws(s[0]) && !is_ws(s.last()) && forall|i: int| 0 <= i < s.len() ==> !('A' <= #[trigger] s[i] && s[i] <= 'Z')
}

proof fn lemma_plain_name(s: Seq<char>)
    requires
        plain_name(s),
    ensures
        canonical_tool_name(s) == s,
{
    assert(trim(s) == s) by {
        assert(crate::text::trim_start(s) == s);
        assert(crate::text::trim_end(s) == s);
    }
    assert(lower_seq(s) =~= s);
}

fn plain_name_exec(s: &str) -> (b: bool)
    ensures
        b == plain_name(s@),
{
    let v = chars_of(s);
    if v.len() == 0 || is_whitespace(v[0]) || is_whitespace(v[v.len() - 1]) {
        return false;
    }
    let mut i: usize = 0;
    while i < v.len()
        invariant
            i <= v.len(),
            v@ == s@,
            v@.len() > 0 && !is_ws(v@[0]) && !is_ws(v@.last()),
            forall|k: int| 0 <= k < i ==> !('A' <= #[trigger] v@[k] && v@[k] <= 'Z'),
        decreases v.len() - i,
    {
        if 'A' <= v[i] && v[i] <= 'Z' {
            assert(!plain_name(s@)) by {
                assert('A' <= s@[i as int] && s@[i as int] <= 'Z');
            }
            return false;
        }
        i += 1;
    }
    true
}

/// The editor's tool registered under canonical name `c`, if there is one.
pub open spec fn default_tool(c: Seq<char>) -> Option<ToolSpecModel> {
    if c == "xnote.vault.read_note"@ {
        Some(ToolSpecModel { name: "xnote.vault.read_note"@, description: "Read a markdown note from the current vault by relative note path."@, risk: VcpToolRisk::ReadOnly, required_args: seq!["note_path"@] })
    } else if c == "xnote.knowledge.search"@ {
        Some(ToolSpecModel { name: "xnote.knowledge.search"@, description: "Search indexed note contents by keyword query and return matched notes with previews."@, risk: VcpToolRisk::ReadOnly, required_args: seq!["query"@] })
    } else if c == "xnote.vault.write_note"@ {
        Some(ToolSpecModel { name: "xnote.vault.write_note"@, description: "Write markdown note content to a vault-relative note path."@, risk: VcpToolRisk::WriteSafe, required_args: seq!["note_path"@, "content"@] })
    } else if c == "xnote.vault.apply_patch"@ {
        Some(ToolSpecModel { name: "xnote.vault.apply_patch"@, description: "Apply a structured patch to vault files (reserved, destructive)."@, risk: VcpToolRisk::Destructive, required_args: seq!["path"@, "patch"@] })
    } else {
        None
    }
}

impl VcpToolRegistry {
    /// The tools of the editor: reading a note and searching the index (read-only), writing
    /// a note, and applying a patch (destructive, reserved).
    pub fn with_xnote_defaults() -> (r: VcpToolRegistry)
        ensures
            r.wf(),
            forall|n: Seq<char>| #[trigger] r.lookup(n) == default_tool(canonical_tool_name(n)),
            r.lookup("xnote.vault.read_note"@) == Some(ToolSpecModel { name: "xnote.vault.read_note"@, description: "Read a markdown note from the current vault by relative note path."@, risk: VcpToolRisk::ReadOnly, required_args: seq!["note_path"@] }),
            r.lookup("xnote.knowledge.search"@) == Some(ToolSpecModel { name: "xnote.knowledge.search"@, description: "Search indexed note contents by keyword query and return matched notes with previews."@, risk: VcpToolRisk::ReadOnly, required_args: seq!["query"@] }),
            r.lookup("xnote.vault.write_note"@) == Some(ToolSpecModel { name: "xnote.vault.write_note"@, description: "Write markdown note content to a vault-relative note path."@, risk: VcpToolRisk::WriteSafe, required_args: seq!["note_path"@, "content"@] }),
            r.lookup("xnote.vault.apply_patch"@) == Some(ToolSpecModel { name: "xnote.vault.apply_patch"@, description: "Apply a structured patch to vault files (reserved, destructive)."@, risk: VcpToolRisk::Destructive, required_args: seq!["path"@, "patch"@] }),
    {
        let mut registry = VcpToolRegistry::default();
        let ghost g0 = registry;
        assert forall|n: Seq<char>| #[trigger] g0.lookup(n) is None by {
            assert(!g0.key_seq().contains(canonical_tool_name(n)));
        }
        let t0 = tool_spec("xnote.vault.read_note", "Read a markdown note from the current vault by relative note path.", VcpToolRisk::ReadOnly, vec!["note_path"]);
        proof {
            reveal_strlit("xnote.vault.read_note");
            lemma_plain_name("xnote.vault.read_note"@);
            assert(t0@.required_args =~= seq!["note_path"@]);
        }
        registry.register(t0);
        let ghost g1 = registry;
        let t1 = tool_spec("xnote.knowledge.search", "Search indexed note contents by keyword query and return matched notes with previews.", VcpToolRisk::ReadOnly, vec!["query"]);
        proof {
            reveal_strlit("xnote.knowledge.search");
            lemma_plain_name("xnote.knowledge.search"@);
            assert(t1@.required_args =~= seq!["query"@]);
        }
        registry.register(t1);
        let ghost g2 = registry;
        let t2 = tool_spec("xnote.vault.write_note", "Write markdown note content to a vault-relative note path.", VcpToolRisk::WriteSafe, vec!["note_path", "content"]);
        proof {
            reveal_strlit("xnote.vault.write_note");
            lemma_plain_name("xnote.vault.write_note"@);
            assert(t2@.required_args =~= seq!["note_path"@, "content"@]);
        }
        registry.register(t2);
        let ghost g3 = registry;
        let t3 = tool_spec("xnote.vault.apply_patch", "Apply a structured patch to vault files (reserved, destructive).", VcpToolRisk::Destructive, vec!["path", "patch"]);
        proof {
            reveal_strlit("xnote.vault.apply_patch");
            lemma_plain_name("xnote.vault.apply_patch"@);
            assert(t3@.required_args =~= seq!["path"@, "patch"@]);
        }
        registry.register(t3);
        proof {
            let n0 = "xnote.vault.read_note"@;
            let n1 = "xnote.knowledge.search"@;
            let n2 = "xnote.vault.write_note"@;
            let n3 = "xnote.vault.apply_patch"@;
            assert(n0.len() != n1.len());
            assert(n0.len() != n2.len());
            assert(n0.len() != n3.len());
            assert(n1[6] != n2[6]);
            assert(n1.len() != n3.len());
            assert(n2.len() != n3.len());
            assert forall|n: Seq<char>| #[trigger] registry.lookup(n) == default_tool(canonical_tool_name(n)) by {
                let c = canonical_tool_name(n);
                if c == n3 {
                    assert(registry.lookup(n) == registry.lookup(n3));
                } else if c == n2 {
                    assert(registry.lookup(n) == g3.lookup(n));
                    assert(g3.lookup(n) == g3.lookup(n2));
                } else if c == n1 {
                    assert(g3.lookup(n) == g2.lookup(n));
                    assert(g2.lookup(n) == g2.lookup(n1));
                } else if c == n0 {
                    assert(g2.lookup(n) == g1.lookup(n));
                    assert(g1.lookup(n) == g1.lookup(n0));
                } else {
                    assert(g1.lookup(n) == g0.lookup(n));
                }
            }
        }
        registry
    }
}

/// Why `request` may not run under `policy`, if it may not: the tool must be registered,
/// allowed by the allowlist, within the write and destructive permissions, and given every
/// required argument (non-blank).
pub open spec fn request_error(reg: VcpToolRegistry, q: ToolRequestModel, p: PolicyModel) -> Option<Seq<char>> {
    request_error_for(reg.lookup(q.tool_name), q, p)
}

/// `request_error` where looking the tool up gave `found`.
pub open spec fn request_error_for(found: Option<ToolSpecModel>, q: ToolRequestModel, p: PolicyModel) -> Option<Seq<char>> {
    match found {
        None => Some("tool `"@ + q.tool_name + "` is not registered"@),
        Some(spec) => if p.allowlist matches Some(l) && !l.contains(canonical_tool_name(spec.name)) {
            Some("tool `"@ + spec.name + "` is blocked by allowlist"@)
        } else if spec.risk == VcpToolRisk::WriteSafe && !p.allow_write {
            Some("tool `"@ + spec.name + "` requires write permission"@)
        } else if spec.risk == VcpToolRisk::Destructive && !p.allow_destructive {
            Some("tool `"@ + spec.name + "` requires destructive permission"@)
        } else if spec.risk == VcpToolRisk::Destructive && !p.allow_write {
            Some("tool `"@ + spec.name + "` requires write permission"@)
        } else {
            missing_arg(spec.name, spec.required_args, q.args)
        },
    }
}

/// The complaint about the first required argument that is absent or blank.
pub open spec fn missing_arg(name: Seq<char>, req: Seq<Seq<char>>, args: Map<Seq<char>, Seq<char>>) -> Option<Seq<char>>
    decreases req.len(),
{
    if req.len() == 0 {
        None
    } else {
        let key = canonical_tool_key(req[0]);
        if !(args.contains_key(key) && trim(args[key]).len() > 0) {
            Some("tool `"@ + name + "` missing required argument `"@ + req[0] + "`"@)
        } else {
            missing_arg(name, req.drop_first(), args)
        }
    }
}

pub struct PolicyModel {
    pub allow_write: bool,
    pub allow_destructive: bool,
    pub allowlist: Option<Seq<Seq<char>>>,
}

impl VcpToolPolicy {
    pub open spec fn model(&self) -> PolicyModel {
        PolicyModel {
            allow_write: self.allow_write,
            allow_destructive: self.allow_destructive,
            allowlist: match self.allowlist {
                Some(l) => Some(sviews(l@)),
                None => None,
            },
        }
    }
}

fn tool_msg(a: &str, name: &[char], b: &str) -> (s: String)
    ensures
        s@ == a@ + name@ + b@,
{
    let mut m = chars_of(a);
    push_all(&mut m, name);
    push_str(&mut m, b);
    string_of(&m)
}

fn contains_chars(list: &Vec<String>, x: &[char]) -> (b: bool)
    ensures
        b == sviews(list@).contains(x@),
{
    let mut i: usize = 0;
    while i < list.len()
        invariant
            i <= list.len(),
            forall|k: int| 0 <= k < i ==> list@[k]@ != x@,
        decreases list.len() - i,
    {
        let c = chars_of(list[i].as_str());
        if crate::text::seq_eq(&c, x) {
            assert(sviews(list@)[i as int] == x@);
            return true;
        }
        i += 1;
    }
    proof {
        if sviews(list@).contains(x@) {
            let k = choose|k: int| 0 <= k < list@.len() && sviews(list@)[k] == x@;
        }
    }
    false
}

impl VcpToolRegistry {
    fn find_spec(&self, name: &str) -> (r: Option<usize>)
        requires
            self.wf(),
        ensures
            match self.lookup(name@) {
                Some(m) => r matches Some(i) && i < self.specs.len() && self.specs@[i as int]@ == m,
                None => r is None,
            },
    {
        let key = string_of(&canonical_tool_name_exec(name));
        match self.position(&key) {
            Ok(i) => {
                assert(self.spec_seq()[i as int] == self.specs@[i as int]@);
                Some(i)
            },
            Err(_) => None,
        }
    }

    /// Checks that `request` may run under `policy` (see `request_error`).
    pub fn validate_request(&self, request: &VcpToolRequest, policy: &VcpToolPolicy) -> (r: Result<(), String>)
        requires
            self.wf(),
            keys_sorted(request.args@),
        ensures
            match request_error(*self, request.model(), policy.model()) {
                Some(m) => r matches Err(e) && e@ == m,
                None => r is Ok,
            },
    {
        let tn = chars_of(request.tool_name.as_str());
        let i = match self.find_spec(request.tool_name.as_str()) {
            Some(i) => i,
            None => {
                return Err(tool_msg("tool `", &tn, "` is not registered"));
            },
        };
        let spec = &self.specs[i];
        let sn = chars_of(spec.name.as_str());
        match &policy.allowlist {
            Some(list) => {
                let cn = canonical_tool_name_exec(spec.name.as_str());
                if !contains_chars(list, &cn) {
                    return Err(tool_msg("tool `", &sn, "` is blocked by allowlist"));
                }
            },
            None => {},
        }
        match spec.risk {
            VcpToolRisk::ReadOnly => {},
            VcpToolRisk::WriteSafe => {
                if !policy.allow_write {
                    return Err(tool_msg("tool `", &sn, "` requires write permission"));
                }
            },
            VcpToolRisk::Destructive => {
                if !policy.allow_destructive {
                    return Err(tool_msg("tool `", &sn, "` requires destructive permission"));
                }
                if !policy.allow_write {
                    return Err(tool_msg("tool `", &sn, "` requires write permission"));
                }
            },
        }
        let req = &spec.required_args;
        let ghost rv = sviews(req@);
        let mut k: usize = 0;
        assert(rv.skip(0) =~= rv);
        while k < req.len()
            invariant
                k <= req.len(),
                rv == sviews(req@),
                sn@ == spec@.name,
                keys_sorted(request.args@),
                request_error(*self, request.model(), policy.model()) == missing_arg(spec@.name, rv.skip(k as int), map_of(request.args@)),
            decreases req.len() - k,
        {
            proof {
                assert(rv.skip(k as int)[0] == req@[k as int]@);
                assert(rv.skip(k as int).drop_first() =~= rv.skip(k + 1));
            }
            let key = string_of(&canonical_tool_key_exec(req[k].as_str()));
            let ok = match map_find(&request.args, &key) {
                Some(j) => !crate::text::is_blank(request.args[j].1.as_str()),
                None => false,
            };
            if !ok {
                proof {
                    let kk = canonical_tool_key(rv.skip(k as int)[0]);
                    assert(key@ == kk);
                    assert(!(map_of(request.args@).contains_key(kk) && trim(map_of(request.args@)[kk]).len() > 0));
                    assert(missing_arg(spec@.name, rv.skip(k as int), map_of(request.args@)) == Some("tool `"@ + spec@.name + "` missing required argument `"@ + rv.skip(k as int)[0] + "`"@));
                }
                let mut m = chars_of("tool `");
                push_all(&mut m, &sn);
                push_str(&mut m, "` missing required argument `");
                push_str(&mut m, req[k].as_str());
                push_str(&mut m, "`");
                return Err(string_of(&m));
            }
            k += 1;
        }
        Ok(())
    }
}

/// Parses the first tool request of a model's answer and, if there is one, checks it.
pub fn parse_and_validate_first_vcp_tool_request(
    response_text: &str,
    registry: &VcpToolRegistry,
    policy: &VcpToolPolicy,
) -> (r: Result<Option<VcpToolRequest>, String>)
    requires
        registry.wf(),
    ensures
        match blocks_from(response_text@) {
            Err(m) => r matches Err(e) && e@ == m,
            Ok(qs) => if qs.len() == 0 {
                r matches Ok(o) && o is None
            } else {
                match request_error(*registry, qs[0], policy.model()) {
                    Some(m) => r matches Err(e) && e@ == m,
                    None => r matches Ok(o) && o matches Some(q) && q.model() == qs[0] && keys_sorted(q.args@),
                }
            },
        },
{
    let request = match VcpToolRequestParser::parse_first(response_text) {
        Ok(o) => o,
        Err(e) => {
            return Err(e);
        },
    };
    match &request {
        Some(q) => {
            match registry.validate_request(q, policy) {
                Ok(()) => {},
                Err(e) => {
                    return Err(e);
                },
            }
        },
        None => {},
    }
    Ok(request)
}

// ---------------------------------------------------------------------------
// Tool descriptions
// ---------------------------------------------------------------------------
#[derive(Clone, Debug, PartialEq, Eq)]
pub struct VcpToolDescription {
    pub tool_name: String,
    pub invocation_snippet: String,
    pub markdown_description: String,
}

#[derive(Clone, Debug, PartialEq, Eq)]
pub struct McpToolDescription {
    pub name: String,
    pub description: String,
    pub input_schema_json: String,
}

#[derive(Clone, Debug, PartialEq, Eq)]
pub struct AiToolDescriptorBundle {
    pub schema_version: String,
    pub generated_at_epoch_ms: u128,
    pub registry_source: String,
    pub vcp: Vec<VcpToolDescription>,
    pub mcp: Vec<McpToolDescription>,
}

pub open spec fn ref_views(v: Seq<&VcpToolSpec>) -> Seq<ToolSpecModel> {
    v.map_values(|t: &VcpToolSpec| t@)
}

/// The tools' specs sorted by name (equal names keep key order).
pub open spec fn name_sorted(s: Seq<ToolSpecModel>) -> bool {
    forall|i: int, j: int| 0 <= i < j < s.len() ==> !lex_lt(#[trigger] s[j].name, #[trigger] s[i].name)
}

impl VcpToolRegistry {
    pub fn specs_sorted(&self) -> (r: Vec<&VcpToolSpec>)
        ensures
            name_sorted(ref_views(r@)),
            ref_views(r@).to_multiset() == self.spec_seq().to_multiset(),
    {
        let mut out: Vec<&VcpToolSpec> = Vec::new();
        let ghost orig = self.spec_seq();
        let mut i: usize = 0;
        assert(orig.take(0) =~= Seq::<ToolSpecModel>::empty());
        assert(ref_views(out@) =~= Seq::<ToolSpecModel>::empty());
        while i < self.specs.len()
            invariant
                i <= self.specs.len(),
                orig == self.spec_seq(),
                name_sorted(ref_views(out@)),
                ref_views(out@).to_multiset() == orig.take(i as int).to_multiset(),
            decreases self.specs.len() - i,
        {
            let e = &self.specs[i];
            let ghost ev = e@;
            let mut p: usize = 0;
            while p < out.len() && !string_less(&e.name, &out[p].name)
                invariant
                    p <= out.len(),
                    ev == e@,
                    forall|k: int| 0 <= k < p ==> !lex_lt(ev.name, #[trigger] ref_views(out@)[k].name),
                decreases out.len() - p,
            {
                p += 1;
            }
            let ghost old_out = ref_views(out@);
            out.insert(p, e);
            proof {
                let nv = ref_views(out@);
                assert(nv =~= old_out.insert(p as int, ev));
                assert forall|a: int, b: int| 0 <= a < b < nv.len() implies !lex_lt(#[trigger] nv[b].name, #[trigger] nv[a].name) by {
                    lemma_lex_total(ev.name, ev.name);
                    if b < p {
                        assert(nv[a] == old_out[a] && nv[b] == old_out[b]);
                    } else if b == p {
                        assert(nv[a] == old_out[a]);
                    } else if a == p {
                        assert(nv[b] == old_out[b - 1]);
                        assert(lex_lt(ev.name, old_out[p as int].name));
                        lemma_lex_total(old_out[b - 1].name, ev.name);
                        lemma_lex_total(ev.name, old_out[p as int].name);
                        if lex_lt(old_out[b - 1].name, ev.name) {
                            lemma_lex_transitive(old_out[b - 1].name, ev.name, old_out[p as int].name);
                        }
                    } else if a < p {
                        assert(nv[a] == old_out[a] && nv[b] == old_out[b - 1]);
                    } else {
                        assert(nv[a] == old_out[a - 1] && nv[b] == old_out[b - 1]);
                    }
                }
                vstd::seq_lib::to_multiset_insert(old_out, p as int, ev);
                assert(ev == orig[i as int]);
                assert(orig.take(i + 1) =~= orig.take(i as int).push(ev));
                vstd::seq_lib::to_multiset_build(orig.take(i as int), ev);
            }
            i += 1;
        }
        assert(orig.take(self.specs.len() as int) =~= orig);
        out
    }
}

/// Items joined with `sep` between them.
pub open spec fn join_with(items: Seq<Seq<char>>, sep: Seq<char>) -> Seq<char>
    decreases items.len(),
{
    if items.len() == 0 {
        Seq::empty()
    } else if items.len() == 1 {
        items[0]
    } else {
        join_with(items.drop_last(), sep) + sep + items.last()
    }
}

pub open spec fn begin_mark() -> Seq<char> {
    seq!['\u{300c}', '\u{59cb}', '\u{300d}']
}

pub open spec fn end_mark() -> Seq<char> {
    seq!['\u{300c}', '\u{672b}', '\u{300d}']
}

/// How a tool is invoked: a request block naming it, with a placeholder per argument.
pub open spec fn invocation_of(t: ToolSpecModel) -> Seq<char> {
    let lines = t.required_args.map_values(|a: Seq<char>| a + ":"@ + begin_mark() + "<"@ + a + ">"@ + end_mark());
    "<<<[TOOL_REQUEST]>>>\n"@ + "tool_name:"@ + begin_mark() + t.name + end_mark() + (if lines.len() > 0 {
        ",\n"@ + join_with(lines, ",\n"@)
    } else {
        Seq::empty()
    }) + "\n<<<[END_TOOL_REQUEST]>>>"@
}

pub open spec fn markdown_of(t: ToolSpecModel) -> Seq<char> {
    "- "@ + t.name + " ("@ + risk_name(t.risk) + ")\n  - "@ + t.description
}

fn push_marks(out: &mut Vec<char>, begin: bool)
    ensures
        final(out)@ == old(out)@ + if begin { begin_mark() } else { end_mark() },
{
    if begin {
        out.push('\u{300c}');
        out.push('\u{59cb}');
        out.push('\u{300d}');
    } else {
        out.push('\u{300c}');
        out.push('\u{672b}');
        out.push('\u{300d}');
    }
    assert(out@ =~= old(out)@ + if begin { begin_mark() } else { end_mark() });
}

fn vcp_description(t: &VcpToolSpec) -> (d: VcpToolDescription)
    ensures
        d.tool_name@ == t@.name,
        d.invocation_snippet@ == invocation_of(t@),
        d.markdown_description@ == markdown_of(t@),
{
    let mut inv = chars_of("<<<[TOOL_REQUEST]>>>\n");
    push_str(&mut inv, "tool_name:");
    push_marks(&mut inv, true);
    push_str(&mut inv, t.name.as_str());
    push_marks(&mut inv, false);
    let ghost lines = t@.required_args.map_values(|a: Seq<char>| a + ":"@ + begin_mark() + "<"@ + a + ">"@ + end_mark());
    let ghost head = inv@;
    if t.required_args.len() > 0 {
        push_str(&mut inv, ",\n");
        let mut i: usize = 0;
        let ghost h2 = inv@;
        assert(lines.take(0) =~= Seq::<Seq<char>>::empty());
        while i < t.required_args.len()
            invariant
                i <= t.required_args.len(),
                t.required_args.len() > 0,
                lines == t@.required_args.map_values(|a: Seq<char>| a + ":"@ + begin_mark() + "<"@ + a + ">"@ + end_mark()),
                inv@ == h2 + join_with(lines.take(i as int), ",\n"@),
            decreases t.required_args.len() - i,
        {
            let ghost before = inv@;
            if i > 0 {
                push_str(&mut inv, ",\n");
            }
            let a = t.required_args[i].as_str();
            push_str(&mut inv, a);
            push_str(&mut inv, ":");
            push_marks(&mut inv, true);
            push_str(&mut inv, "<");
            push_str(&mut inv, a);
            push_str(&mut inv, ">");
            push_marks(&mut inv, false);
            proof {
                assert(lines.take(i + 1).drop_last() =~= lines.take(i as int));
                assert(lines[i as int] == t@.required_args[i as int] + ":"@ + begin_mark() + "<"@ + t@.required_args[i as int] + ">"@ + end_mark());
                if i == 0 {
                    assert(inv@ =~= h2 + join_with(lines.take(1), ",\n"@));
                } else {
                    assert(inv@ =~= h2 + join_with(lines.take(i + 1), ",\n"@));
                }
            }
            i += 1;
        }
        assert(lines.take(t.required_args.len() as int) =~= lines);
    }
    push_str(&mut inv, "\n<<<[END_TOOL_REQUEST]>>>");
    assert(inv@ =~= invocation_of(t@));
    let mut md = chars_of("- ");
    push_str(&mut md, t.name.as_str());
    push_str(&mut md, " (");
    push_str(&mut md, risk_name_exec(t.risk));
    push_str(&mut md, ")\n  - ");
    push_str(&mut md, t.description.as_str());
    VcpToolDescription {
        tool_name: t.name.clone(),
        invocation_snippet: string_of(&inv),
        markdown_description: string_of(&md),
    }
}

/// The VCP descriptions of the registry's tools, in name order.
pub fn generate_vcp_tool_descriptions(registry: &VcpToolRegistry) -> (r: Vec<VcpToolDescription>)
    ensures
        exists|s: Seq<ToolSpecModel>|
            name_sorted(s) && s.to_multiset() == registry.spec_seq().to_multiset() && vcp_described(r@, s),
{
    let specs = registry.specs_sorted();
    vcp_descriptions_of(&specs)
}

/// The VCP descriptions of the tools `s`, one each, in order.
pub open spec fn vcp_described(r: Seq<VcpToolDescription>, s: Seq<ToolSpecModel>) -> bool {
    r.len() == s.len() && forall|i: int| 0 <= i < s.len() ==> (#[trigger] r[i]).tool_name@ == s[i].name
        && r[i].invocation_snippet@ == invocation_of(s[i]) && r[i].markdown_description@ == markdown_of(s[i])
}

/// The MCP descriptions of the tools `s`, one each, in order.
pub open spec fn mcp_described(r: Seq<McpToolDescription>, s: Seq<ToolSpecModel>) -> bool {
    r.len() == s.len() && forall|i: int| 0 <= i < s.len() ==> (#[trigger] r[i]).name@ == s[i].name
        && r[i].description@ == s[i].description + " (risk: "@ + risk_name(s[i].risk) + ")"@
        && r[i].input_schema_json@ == schema_json(schema_props(s[i]))
}

fn vcp_descriptions_of(specs: &Vec<&VcpToolSpec>) -> (r: Vec<VcpToolDescription>)
    ensures
        vcp_described(r@, ref_views(specs@)),
{
    let ghost sv = ref_views(specs@);
    let mut out: Vec<VcpToolDescription> = Vec::new();
    let mut i: usize = 0;
    while i < specs.len()
        invariant
            i <= specs.len(),
            sv == ref_views(specs@),
            out@.len() == i,
            forall|k: int| 0 <= k < i ==> (#[trigger] out@[k]).tool_name@ == sv[k].name && out@[k].invocation_snippet@ == invocation_of(sv[k])
                && out@[k].markdown_description@ == markdown_of(sv[k]),
        decreases specs.len() - i,
    {
        let d = vcp_description(specs[i]);
        out.push(d);
        i += 1;
    }
    out
}

/// A JSON value of serde_json, carried through opaquely.
#[verifier::external_type_specification]
#[verifier::external_body]
pub struct ExJsonValue(serde_json::Value);

/// `Value::from(&str)`: the JSON string `s`.
pub uninterp spec fn json_string(s: Seq<char>) -> Value;

/// `Value::from(bool)`: the JSON boolean `b`.
pub uninterp spec fn json_bool(b: bool) -> Value;

/// `Value::Array`: the JSON array of `items`, in order.
pub uninterp spec fn json_array(items: Seq<Value>) -> Value;

/// `Value::Object` of the serde_json map collected from `entries`.
pub uninterp spec fn json_object(entries: Seq<(Seq<char>, Value)>) -> Value;

/// The text that `serde_json::to_string_pretty` writes for `v`.
pub uninterp spec fn pretty_json(v: Value) -> Seq<char>;

/// `Value::from(&str)`; the result is named by `json_string`.
#[verifier::external_body]
fn string_value(s: &str) -> (v: Value)
    ensures
        v == json_string(s@),
{
    Value::from(s)
}

/// `Value::from(bool)`; the result is named by `json_bool`.
#[verifier::external_body]
fn bool_value(b: bool) -> (v: Value)
    ensures
        v == json_bool(b),
{
    Value::from(b)
}

/// `Value::Array(items)`; the result is named by `json_array`.
#[verifier::external_body]
fn array_value(items: Vec<Value>) -> (v: Value)
    ensures
        v == json_array(items@),
{
    Value::Array(items)
}

pub open spec fn entry_views(v: Seq<(String, Value)>) -> Seq<(Seq<char>, Value)> {
    v.map_values(|e: (String, Value)| (e.0@, e.1))
}

/// `Value::Object` of `serde_json::Map::from_iter(entries)`; the result is named by
/// `json_object`.
#[verifier::external_body]
fn object_value(entries: Vec<(String, Value)>) -> (v: Value)
    ensures
        v == json_object(entry_views(entries@)),
{
    Value::Object(entries.into_iter().collect())
}

/// `serde_json::to_string_pretty(v)`, with `{}` should it fail; what it writes is named by
/// `pretty_json`, failure included (for a value built from strings it does not fail).
#[verifier::external_body]
fn pretty_text(v: &Value) -> (s: String)
    ensures
        s@ == pretty_json(*v),
{
    serde_json::to_string_pretty(v).unwrap_or_else(|_| "{}".to_string())
}

/// The schema of one string property: its type and its description.
pub open spec fn property_schema(p: (Seq<char>, Seq<char>)) -> (Seq<char>, Value) {
    (p.0, json_object(seq![("type"@, json_string("string"@)), ("description"@, json_string(p.1))]))
}

/// The JSON schema of a tool's input: an object of the given string properties (name and
/// description), all required, no others.
pub open spec fn schema_value(props: Seq<(Seq<char>, Seq<char>)>) -> Value {
    json_object(seq![
        ("type"@, json_string("object"@)),
        ("properties"@, json_object(props.map_values(|p: (Seq<char>, Seq<char>)| property_schema(p)))),
        ("required"@, json_array(props.map_values(|p: (Seq<char>, Seq<char>)| json_string(p.0)))),
        ("additionalProperties"@, json_bool(false)),
    ])
}

/// The schema's pretty JSON text.
pub open spec fn schema_json(props: Seq<(Seq<char>, Seq<char>)>) -> Seq<char> {
    pretty_json(schema_value(props))
}

fn entry(key: &str, v: Value) -> (e: (String, Value))
    ensures
        e.0@ == key@,
        e.1 == v,
{
    (owned(key), v)
}

fn input_schema_json(props: &Vec<(String, String)>) -> (s: String)
    ensures
        s@ == schema_json(pair_views(props@)),
{
    let ghost pv = pair_views(props@);
    let mut properties: Vec<(String, Value)> = Vec::new();
    let mut required: Vec<Value> = Vec::new();
    let mut i: usize = 0;
    while i < props.len()
        invariant
            i <= props.len(),
            pv == pair_views(props@),
            entry_views(properties@) == pv.take(i as int).map_values(|p: (Seq<char>, Seq<char>)| property_schema(p)),
            required@ == pv.take(i as int).map_values(|p: (Seq<char>, Seq<char>)| json_string(p.0)),
        decreases props.len() - i,
    {
        let n = &props[i].0;
        let d = &props[i].1;
        let mut fields: Vec<(String, Value)> = Vec::new();
        fields.push(entry("type", string_value("string")));
        fields.push(entry("description", string_value(d.as_str())));
        assert(entry_views(fields@) =~= seq![("type"@, json_string("string"@)), ("description"@, json_string(pv[i as int].1))]);
        let prop = object_value(fields);
        let ghost before = entry_views(properties@);
        properties.push(entry(n.as_str(), prop));
        required.push(string_value(n.as_str()));
        proof {
            assert(entry_views(properties@) =~= before.push(property_schema(pv[i as int])));
            assert(pv.take(i + 1) =~= pv.take(i as int).push(pv[i as int]));
            assert(pv.take(i + 1).map_values(|p: (Seq<char>, Seq<char>)| property_schema(p))
                =~= pv.take(i as int).map_values(|p: (Seq<char>, Seq<char>)| property_schema(p)).push(property_schema(pv[i as int])));
            assert(pv.take(i + 1).map_values(|p: (Seq<char>, Seq<char>)| json_string(p.0))
                =~= pv.take(i as int).map_values(|p: (Seq<char>, Seq<char>)| json_string(p.0)).push(json_string(pv[i as int].0)));
        }
        i += 1;
    }
    assert(pv.take(props.len() as int) =~= pv);
    let mut top: Vec<(String, Value)> = Vec::new();
    top.push(entry("type", string_value("object")));
    top.push(entry("properties", object_value(properties)));
    top.push(entry("required", array_value(required)));
    top.push(entry("additionalProperties", bool_value(false)));
    assert(entry_views(top@) =~= seq![
        ("type"@, json_string("object"@)),
        ("properties"@, json_object(pv.map_values(|p: (Seq<char>, Seq<char>)| property_schema(p)))),
        ("required"@, json_array(pv.map_values(|p: (Seq<char>, Seq<char>)| json_string(p.0)))),
        ("additionalProperties"@, json_bool(false)),
    ]);
    let schema = object_value(top);
    pretty_text(&schema)
}

/// The schema properties of a tool: each required argument with its description.
pub open spec fn schema_props(t: ToolSpecModel) -> Seq<(Seq<char>, Seq<char>)> {
    t.required_args.map_values(|a: Seq<char>| (a, "Argument `"@ + a + "` for tool `"@ + t.name + "`"@))
}

fn mcp_description(t: &VcpToolSpec) -> (d: McpToolDescription)
    ensures
        d.name@ == t@.name,
        d.description@ == t@.description + " (risk: "@ + risk_name(t@.risk) + ")"@,
        d.input_schema_json@ == schema_json(schema_props(t@)),
{
    let mut props: Vec<(String, String)> = Vec::new();
    let mut i: usize = 0;
    let ghost want = schema_props(t@);
    while i < t.required_args.len()
        invariant
            i <= t.required_args.len(),
            want == schema_props(t@),
            pair_views(props@) == want.take(i as int),
        decreases t.required_args.len() - i,
    {
        let a = &t.required_args[i];
        let mut desc = chars_of("Argument `");
        push_str(&mut desc, a.as_str());
        push_str(&mut desc, "` for tool `");
        push_str(&mut desc, t.name.as_str());
        push_str(&mut desc, "`");
        let ghost before = pair_views(props@);
        props.push((a.clone(), string_of(&desc)));
        assert(pair_views(props@) =~= before.push((a@, desc@)));
        assert(want.take(i + 1) =~= want.take(i as int).push(want[i as int]));
        i += 1;
    }
    assert(want.take(t.required_args.len() as int) =~= want);
    let mut dd = chars_of(t.description.as_str());
    push_str(&mut dd, " (risk: ");
    push_str(&mut dd, risk_name_exec(t.risk));
    push_str(&mut dd, ")");
    McpToolDescription { name: t.name.clone(), description: string_of(&dd), input_schema_json: input_schema_json(&props) }
}

/// The MCP descriptions of the registry's tools, in name order.
pub fn generate_mcp_tool_descriptions(registry: &VcpToolRegistry) -> (r: Vec<McpToolDescription>)
    ensures
        exists|s: Seq<ToolSpecModel>|
            name_sorted(s) && s.to_multiset() == registry.spec_seq().to_multiset() && mcp_described(r@, s),
{
    let specs = registry.specs_sorted();
    mcp_descriptions_of(&specs)
}

fn mcp_descriptions_of(specs: &Vec<&VcpToolSpec>) -> (r: Vec<McpToolDescription>)
    ensures
        mcp_described(r@, ref_views(specs@)),
{
    let ghost sv = ref_views(specs@);
    let mut out: Vec<McpToolDescription> = Vec::new();
    let mut i: usize = 0;
    while i < specs.len()
        invariant
            i <= specs.len(),
            sv == ref_views(specs@),
            out@.len() == i,
            forall|k: int| 0 <= k < i ==> (#[trigger] out@[k]).name@ == sv[k].name && out@[k].description@ == sv[k].description
                + " (risk: "@ + risk_name(sv[k].risk) + ")"@ && out@[k].input_schema_json@ == schema_json(schema_props(sv[k])),
        decreases specs.len() - i,
    {
        let d = mcp_description(specs[i]);
        out.push(d);
        i += 1;
    }
    out
}

/// Both descriptions of the registry's tools, stamped with the current time.
/// The descriptions pair up: the VCP and MCP descriptions at one index describe one tool,
/// the tools in name order.
pub fn generate_ai_tool_descriptor_bundle(registry: &VcpToolRegistry) -> (b: AiToolDescriptorBundle)
    ensures
        b.schema_version@ == "xnote.ai.tools.v1"@,
        b.registry_source@ == "xnote_core::ai::VcpToolRegistry::with_xnote_defaults"@,
        b.vcp@.len() == registry.spec_seq().len(),
        b.mcp@.len() == registry.spec_seq().len(),
        exists|s: Seq<ToolSpecModel>|
            name_sorted(s) && s.to_multiset() == registry.spec_seq().to_multiset() && vcp_described(b.vcp@, s)
                && mcp_described(b.mcp@, s),
{
    let specs = registry.specs_sorted();
    let vcp = vcp_descriptions_of(&specs);
    let mcp = mcp_descriptions_of(&specs);
    proof {
        vstd::seq_lib::to_multiset_len(ref_views(specs@));
        vstd::seq_lib::to_multiset_len(registry.spec_seq());
    }
    AiToolDescriptorBundle {
        schema_version: owned("xnote.ai.tools.v1"),
        generated_at_epoch_ms: crate::host::epoch_millis(),
        registry_source: owned("xnote_core::ai::VcpToolRegistry::with_xnote_defaults"),
        vcp,
        mcp,
    }
}

pub fn generate_default_ai_tool_descriptor_bundle() -> (b: AiToolDescriptorBundle)
    ensures
        b.schema_version@ == "xnote.ai.tools.v1"@,
{
    let registry = VcpToolRegistry::with_xnote_defaults();
    generate_ai_tool_descriptor_bundle(&registry)
}

// ---------------------------------------------------------------------------
// Tool execution
// ---------------------------------------------------------------------------
/// The vault as the tools see it: notes to read and write, and the tool audit log.
pub trait VaultAccess {
    /// What reading the note at `path` may give: anything, unless the vault says more.
    open spec fn may_read(&self, path: Seq<char>, r: Result<Seq<char>, Seq<char>>) -> bool {
        true
    }

    /// What writing `content` to the note at `path` may give: anything, unless the vault says
    /// more.
    open spec fn may_write(&self, path: Seq<char>, content: Seq<char>, r: Result<(), Seq<char>>) -> bool {
        true
    }

    fn read_note(&self, path: &str) -> (r: Result<String, String>)
        ensures
            self.may_read(path@, answer_view(r)),
    ;

    /// Whether this vault keeps the log `notes_written` (a vault that does not say so promises
    /// nothing of that log).
    open spec fn keeps_write_log() -> bool {
        false
    }

    /// The notes written through this vault so far, in order: each one's path and content.
    open spec fn notes_written(&self) -> Seq<(Seq<char>, Seq<char>)> {
        Seq::empty()
    }

    /// Writes `content` to the note at `path`; a vault that keeps the log records a write
    /// that succeeds, and nothing else.
    fn write_note(&mut self, path: &str, content: &str) -> (r: Result<(), String>)
        ensures
            old(self).may_write(path@, content@, match r {
                Ok(()) => Ok(()),
                Err(e) => Err(e@),
            }),
            Self::keeps_write_log() ==> final(self).notes_written() == match r {
                Ok(()) => old(self).notes_written().push((path@, content@)),
                Err(_) => old(self).notes_written(),
            },
    ;

    /// Records that a tool ran (in round `round`, with its request, the payload it produced
    /// and the latencies measured) for the request `request_id` of `scenario`.
    fn record_tool_execution(
        &self,
        round: usize,
        request: &VcpToolRequest,
        payload_markdown: &str,
        request_id: Option<String>,
        scenario: Option<String>,
        model_latency_ms: u128,
        tool_latency_ms: u128,
    ) -> Result<(), String>;
}

/// What `usize::from_str` accepts: an optional `+` and decimal digits, within range.
pub open spec fn digits_value(s: Seq<char>) -> nat
    decreases s.len(),
{
    if s.len() == 0 {
        0
    } else {
        digits_value(s.drop_last()) * 10 + ((s.last() as u32) - 48) as nat
    }
}

pub open spec fn all_digits(s: Seq<char>) -> bool {
    forall|i: int| 0 <= i < s.len() ==> '0' <= #[trigger] s[i] && s[i] <= '9'
}

pub open spec fn parsed_usize(s: Seq<char>) -> Option<usize> {
    let d = if s.len() > 0 && s[0] == '+' { s.drop_first() } else { s };
    if d.len() > 0 && all_digits(d) && digits_value(d) <= usize::MAX {
        Some(digits_value(d) as usize)
    } else {
        None
    }
}

fn parse_usize(s: &[char]) -> (r: Option<usize>)
    ensures
        r == parsed_usize(s@),
{
    let start: usize = if s.len() > 0 && s[0] == '+' { 1 } else { 0 };
    let ghost d = if s@.len() > 0 && s@[0] == '+' { s@.drop_first() } else { s@ };
    assert(s@.skip(start as int) =~= d);
    if start >= s.len() {
        return None;
    }
    let mut v: usize = 0;
    let mut i: usize = start;
    assert(d.take(0) =~= Seq::<char>::empty());
    while i < s.len()
        invariant
            start <= i <= s.len(),
            start < s.len(),
            d == s@.skip(start as int),
            d == (if s@.len() > 0 && s@[0] == '+' { s@.drop_first() } else { s@ }),
            all_digits(d.take(i - start)),
            v as nat == digits_value(d.take(i - start)),
        decreases s.len() - i,
    {
        let c = s[i];
        proof {
            assert(d.take(i - start + 1).drop_last() =~= d.take(i - start));
            assert(d.take(i - start + 1).last() == c);
        }
        if !('0' <= c && c <= '9') {
            proof {
                assert(!all_digits(d)) by {
                    assert(d[i - start] == c);
                }
            }
            return None;
        }
        let digit = (c as u32 - 48) as usize;
        if v > (usize::MAX - digit) / 10 {
            proof {
                assert(v * 10 + digit > usize::MAX) by (nonlinear_arith)
                    requires v > (usize::MAX - digit) / 10, digit <= 9;
                lemma_digits_grow(d, i - start + 1);
            }
            return None;
        }
        proof {
            assert(v * 10 + digit <= usize::MAX) by (nonlinear_arith)
                requires v <= (usize::MAX - digit) / 10, digit <= 9;
        }
        v = v * 10 + digit;
        i += 1;
    }
    assert(d.take(s.len() - start) =~= d);
    Some(v)
}

proof fn lemma_digits_grow(d: Seq<char>, k: int)
    requires
        0 < k <= d.len(),
        all_digits(d.take(k)) ==> digits_value(d.take(k)) > usize::MAX,
    ensures
        !(d.len() > 0 && all_digits(d) && digits_value(d) <= usize::MAX),
    decreases d.len() - k,
{
    if all_digits(d) {
        assert(all_digits(d.take(k)));
        lemma_digits_mono(d, k);
    }
}

proof fn lemma_digits_mono(d: Seq<char>, k: int)
    requires
        0 <= k <= d.len(),
        all_digits(d),
    ensures
        digits_value(d.take(k)) <= digits_value(d),
    decreases d.len() - k,
{
    if k < d.len() {
        lemma_digits_mono(d, k + 1);
        assert(d.take(k + 1).drop_last() =~= d.take(k));
        assert('0' <= d.take(k + 1).last() && d.take(k + 1).last() <= '9');
    } else {
        assert(d.take(k) =~= d);
    }
}

/// `s` with each ``` turned into "` ` `", so that it cannot close a fence.
pub open spec fn sanitize_fences(s: Seq<char>) -> Seq<char>
    decreases s.len(),
{
    if s.len() >= 3 && s[0] == '`' && s[1] == '`' && s[2] == '`' {
        seq!['`', ' ', '`', ' ', '`'] + sanitize_fences(s.skip(3))
    } else if s.len() == 0 {
        s
    } else {
        seq![s[0]] + sanitize_fences(s.drop_first())
    }
}

fn sanitize_fence_body(s: &[char]) -> (r: Vec<char>)
    ensures
        r@ == sanitize_fences(s@),
{
    let mut out: Vec<char> = Vec::new();
    let mut i: usize = 0;
    assert(s@.skip(0) =~= s@);
    while i < s.len()
        invariant
            i <= s.len(),
            out@ + sanitize_fences(s@.skip(i as int)) == sanitize_fences(s@),
        decreases s.len() - i,
    {
        let ghost before = out@;
        if s.len() - i > 2 && s[i] == '`' && s[i + 1] == '`' && s[i + 2] == '`' {
            out.push('`');
            out.push(' ');
            out.push('`');
            out.push(' ');
            out.push('`');
            proof {
                assert(s@.skip(i as int).skip(3) =~= s@.skip(i + 3));
                assert(out@ + sanitize_fences(s@.skip(i + 3)) =~= before + (seq!['`', ' ', '`', ' ', '`'] + sanitize_fences(s@.skip(i + 3))));
            }
            i += 3;
        } else {
            out.push(s[i]);
            proof {
                assert(s@.skip(i as int).drop_first() =~= s@.skip(i + 1));
                assert(out@ + sanitize_fences(s@.skip(i + 1)) =~= before + (seq![s@[i as int]] + sanitize_fences(s@.skip(i + 1))));
            }
            i += 1;
        }
    }
    assert(out@ + sanitize_fences(s@.skip(i as int)) =~= out@);
    out
}

/// The value of argument `key` of a request, when present and not blank.
pub open spec fn required_arg(q: ToolRequestModel, key: Seq<char>) -> Option<Seq<char>> {
    let k = canonical_tool_key(key);
    if q.args.contains_key(k) && trim(q.args[k]).len() > 0 {
        Some(q.args[k])
    } else {
        None
    }
}

fn arg_required<'a>(request: &'a VcpToolRequest, key: &str) -> (r: Result<&'a str, String>)
    requires
        keys_sorted(request.args@),
    ensures
        match required_arg(request.model(), key@) {
            Some(v) => r matches Ok(s) && s@ == v,
            None => r matches Err(e) && e@ == "missing required argument `"@ + key@ + "`"@,
        },
{
    let k = string_of(&canonical_tool_key_exec(key));
    match map_find(&request.args, &k) {
        Some(j) => {
            if !crate::text::is_blank(request.args[j].1.as_str()) {
                return Ok(request.args[j].1.as_str());
            }
        },
        None => {},
    }
    let mut m = chars_of("missing required argument `");
    push_str(&mut m, key);
    push_str(&mut m, "`");
    Err(string_of(&m))
}

fn arg_optional_usize(request: &VcpToolRequest, key: &str) -> (r: Option<usize>)
    requires
        keys_sorted(request.args@),
    ensures
        r == (if request.model().args.contains_key(canonical_tool_key(key@)) {
            parsed_usize(trim(request.model().args[canonical_tool_key(key@)]))
        } else {
            None
        }),
{
    let k = string_of(&canonical_tool_key_exec(key));
    match map_find(&request.args, &k) {
        Some(j) => {
            let t = trimmed(request.args[j].1.as_str());
            parse_usize(&t)
        },
        None => None,
    }
}

fn push_decimal(out: &mut Vec<char>, n: u128)
    ensures
        final(out)@ == old(out)@ + decimal(n as nat),
{
    let d = decimal_chars(n);
    push_all(out, &d);
}

/// The payload of a note read.
pub open spec fn read_payload(path: Seq<char>, content: Seq<char>) -> Seq<char> {
    "## xnote.vault.read_note\n\n- `note_path`: `"@ + path + "`\n\n```markdown\n"@ + sanitize_fences(content) + "\n```"@
}

fn read_note_payload(path: &str, content: &str) -> (r: String)
    ensures
        r@ == read_payload(path@, content@),
{
    let mut m = chars_of("## xnote.vault.read_note\n\n- `note_path`: `");
    push_str(&mut m, path);
    push_str(&mut m, "`\n\n```markdown\n");
    let c = chars_of(content);
    let sc = sanitize_fence_body(&c);
    push_all(&mut m, &sc);
    push_str(&mut m, "\n```");
    string_of(&m)
}

pub open spec fn write_payload(path: Seq<char>) -> Seq<char> {
    "## xnote.vault.write_note\n\n- `note_path`: `"@ + path + "`\n- `result`: `ok`"@
}

/// The payload of a search: the query, time and hit count, then each of the first `limit`
/// hits with its match count and previews (line breaks in previews made spaces).
pub open spec fn search_payload(query: Seq<char>, elapsed: u128, hits: Seq<SearchHit>, limit: int) -> Seq<char> {
    "## xnote.knowledge.search\n\n- `query`: `"@ + query + "`\n- `elapsed_ms`: "@ + decimal(elapsed as nat) + "\n- `hits`: "@
        + decimal(hits.len()) + "\n"@ + hits_text(hits.take(if hits.len() < limit { hits.len() as int } else { limit }))
}

pub open spec fn hits_text(hits: Seq<SearchHit>) -> Seq<char>
    decreases hits.len(),
{
    if hits.len() == 0 {
        Seq::empty()
    } else {
        let h = hits.last();
        hits_text(hits.drop_last()) + "\n### "@ + h.path@ + "\n"@ + "- `match_count`: "@ + decimal(h.match_count as nat) + "\n"@
            + previews_text(h.previews@)
    }
}

pub open spec fn previews_text(ps: Seq<crate::knowledge::SearchPreviewMatch>) -> Seq<char>
    decreases ps.len(),
{
    if ps.len() == 0 {
        Seq::empty()
    } else {
        previews_text(ps.drop_last()) + "- L"@ + decimal(ps.last().line as nat) + ": "@ + replace_char_seq(ps.last().preview@, '\n', ' ')
            + "\n"@
    }
}

fn search_markdown(query: &str, outcome: &crate::knowledge::SearchOutcome, limit: usize) -> (r: String)
    ensures
        r@ == search_payload(query@, outcome.elapsed_ms, outcome.hits@, limit as int),
{
    let mut m = chars_of("## xnote.knowledge.search\n\n- `query`: `");
    push_str(&mut m, query);
    push_str(&mut m, "`\n- `elapsed_ms`: ");
    push_decimal(&mut m, outcome.elapsed_ms);
    push_str(&mut m, "\n- `hits`: ");
    push_decimal(&mut m, outcome.hits.len() as u128);
    push_str(&mut m, "\n");
    let ghost head = m@;
    let n = if outcome.hits.len() < limit { outcome.hits.len() } else { limit };
    let ghost hs = outcome.hits@;
    let mut i: usize = 0;
    assert(hs.take(0) =~= Seq::<SearchHit>::empty());
    while i < n
        invariant
            i <= n <= outcome.hits.len(),
            hs == outcome.hits@,
            m@ == head + hits_text(hs.take(i as int)),
        decreases n - i,
    {
        proof {
            assert(hs.take(i + 1).drop_last() =~= hs.take(i as int));
            assert(hs.take(i + 1).last() == hs[i as int]);
        }
        let h = &outcome.hits[i];
        push_str(&mut m, "\n### ");
        push_str(&mut m, h.path.as_str());
        push_str(&mut m, "\n");
        push_str(&mut m, "- `match_count`: ");
        push_decimal(&mut m, h.match_count as u128);
        push_str(&mut m, "\n");
        let ghost h2 = m@;
        let mut k: usize = 0;
        let ghost ps = h.previews@;
        assert(ps.take(0) =~= Seq::<crate::knowledge::SearchPreviewMatch>::empty());
        while k < h.previews.len()
            invariant
                k <= h.previews.len(),
                ps == h.previews@,
                m@ == h2 + previews_text(ps.take(k as int)),
            decreases h.previews.len() - k,
        {
            proof {
                assert(ps.take(k + 1).drop_last() =~= ps.take(k as int));
                assert(ps.take(k + 1).last() == ps[k as int]);
            }
            let pv = &h.previews[k];
            push_str(&mut m, "- L");
            push_decimal(&mut m, pv.line as u128);
            push_str(&mut m, ": ");
            let pc = chars_of(pv.preview.as_str());
            let rp = replace_char(&pc, '\n', ' ');
            push_all(&mut m, &rp);
            push_str(&mut m, "\n");
            k += 1;
        }
        assert(ps.take(h.previews.len() as int) =~= ps);
        i += 1;
    }
    string_of(&m)
}

/// What a tool request comes to before the vault is asked anything: refused with a
/// message, or reading a note, searching (a query and a file limit), or writing a note.
pub enum ToolPlan {
    Refused(Seq<char>),
    ReadNote(Seq<char>),
    Search(Seq<char>, int),
    WriteNote(Seq<char>, Seq<char>),
}

/// The files a search request may list: its `limit` argument, 20 by default, within 1..=200.
pub open spec fn search_limit(q: ToolRequestModel) -> int {
    let k = canonical_tool_key("limit"@);
    let requested = if q.args.contains_key(k) {
        match parsed_usize(trim(q.args[k])) {
            Some(n) => n as int,
            None => 20,
        }
    } else {
        20
    };
    if requested < 1 {
        1
    } else if requested > 200 {
        200
    } else {
        requested
    }
}

pub open spec fn missing_required(key: Seq<char>) -> Seq<char> {
    "missing required argument `"@ + key + "`"@
}

/// The plan for a request under the editor's tools and `p`, with or without an index: a
/// request the registry or the policy refuses (see `request_error`), a missing argument, a
/// search without an index and the reserved patch tool are refused.
pub open spec fn tool_plan(q: ToolRequestModel, p: PolicyModel, has_index: bool) -> ToolPlan {
    match request_error_for(default_tool(canonical_tool_name(q.tool_name)), q, p) {
        Some(m) => ToolPlan::Refused(m),
        None => {
            let tool = canonical_tool_name(q.tool_name);
            if tool == "xnote.vault.read_note"@ {
                match required_arg(q, "note_path"@) {
                    None => ToolPlan::Refused(missing_required("note_path"@)),
                    Some(path) => ToolPlan::ReadNote(path),
                }
            } else if tool == "xnote.knowledge.search"@ {
                if !has_index {
                    ToolPlan::Refused("tool `xnote.knowledge.search` requires a ready knowledge index"@)
                } else {
                    match required_arg(q, "query"@) {
                        None => ToolPlan::Refused(missing_required("query"@)),
                        Some(query) => ToolPlan::Search(query, search_limit(q)),
                    }
                }
            } else if tool == "xnote.vault.write_note"@ {
                match required_arg(q, "note_path"@) {
                    None => ToolPlan::Refused(missing_required("note_path"@)),
                    Some(path) => match required_arg(q, "content"@) {
                        None => ToolPlan::Refused(missing_required("content"@)),
                        Some(c) => ToolPlan::WriteNote(path, c),
                    },
                }
            } else if tool == "xnote.vault.apply_patch"@ {
                ToolPlan::Refused("tool `xnote.vault.apply_patch` is reserved for future patch pipeline"@)
            } else {
                ToolPlan::Refused("tool `"@ + q.tool_name + "` is not implemented"@)
            }
        },
    }
}

/// Runs a tool request that the default registry and the policy allow (see
/// `request_error`): reads a note, searches the index (up to `limit` files, 20 by default,
/// clamped to 1..=200), writes a note, or refuses the reserved patch tool; the payload is
/// markdown for the model. A refusal comes as `tool_plan` says; a search always runs; a
/// read or a write fails only where the vault does.
pub fn execute_vcp_tool_request<V: VaultAccess + NoteSource>(
    request: &VcpToolRequest,
    vault: &mut V,
    index: Option<&KnowledgeIndex>,
    policy: &VcpToolPolicy,
) -> (r: Result<VcpToolExecutionResult, String>)
    requires
        keys_sorted(request.args@),
        index matches Some(ix) ==> ix.wf(),
    ensures
        r matches Ok(x) ==> x.tool_name@ == request.tool_name@,
        canonical_tool_name(request.tool_name@) == "xnote.vault.apply_patch"@ ==> r is Err,
        match tool_plan(request.model(), policy.model(), index is Some) {
            ToolPlan::Refused(m) => r matches Err(e) && e@ == m,
            ToolPlan::ReadNote(path) => (r matches Ok(x) ==> exists|c: Seq<char>|
                old(vault).may_read(path, Ok::<Seq<char>, Seq<char>>(c)) && x.payload_markdown@ == read_payload(path, c))
                && (r matches Err(e) ==> old(vault).may_read(path, Err::<Seq<char>, Seq<char>>(e@))),
            ToolPlan::Search(query, limit) => r matches Ok(x) && exists|ms: u128, hits: Seq<SearchHit>|
                hits.len() <= limit && x.payload_markdown@ == search_payload(query, ms, hits, limit),
            ToolPlan::WriteNote(path, content) => (r matches Ok(x) ==> old(vault).may_write(path, content, Ok::<(), Seq<char>>(()))
                && x.payload_markdown@ == write_payload(path)) && (r matches Err(e) ==> old(vault).may_write(
                path,
                content,
                Err::<(), Seq<char>>(e@),
            )),
        },
        V::keeps_write_log() ==> final(vault).notes_written() == old(vault).notes_written() + if r is Ok {
            tool_writes(request.model(), policy.model(), index is Some)
        } else {
            Seq::empty()
        },
{
    proof {
        reveal_strlit("xnote.vault.read_note");
        reveal_strlit("xnote.knowledge.search");
        reveal_strlit("xnote.vault.write_note");
        reveal_strlit("xnote.vault.apply_patch");
    }
    let registry = VcpToolRegistry::with_xnote_defaults();
    match registry.validate_request(request, policy) {
        Err(e) => {
            return Err(e);
        },
        Ok(()) => {},
    }
    let ghost plan = tool_plan(request.model(), policy.model(), index is Some);
    let ghost mut wc: Seq<char> = Seq::empty();
    let ghost mut wms: u128 = 0;
    let ghost mut wh: Seq<SearchHit> = Seq::empty();
    let tool = canonical_tool_name_exec(request.tool_name.as_str());
    let payload = if eq_str(&tool, "xnote.vault.read_note") {
        let note_path = match arg_required(request, "note_path") {
            Ok(p) => p,
            Err(e) => {
                return Err(e);
            },
        };
        let content = match vault.read_note(note_path) {
            Ok(c) => c,
            Err(e) => {
                return Err(e);
            },
        };
        proof {
            wc = content@;
        }
        read_note_payload(note_path, content.as_str())
    } else if eq_str(&tool, "xnote.knowledge.search") {
        let ix = match index {
            Some(ix) => ix,
            None => {
                return Err(owned("tool `xnote.knowledge.search` requires a ready knowledge index"));
            },
        };
        let query = match arg_required(request, "query") {
            Ok(q) => q,
            Err(e) => {
                return Err(e);
            },
        };
        let requested = match arg_optional_usize(request, "limit") {
            Some(n) => n,
            None => 20,
        };
        let limit: usize = if requested < 1 { 1 } else if requested > 200 { 200 } else { requested };
        let mut options = SearchOptions::default();
        options.max_files_with_matches = limit;
        let outcome = ix.search(vault, query, options);
        proof {
            wms = outcome.elapsed_ms;
            wh = outcome.hits@;
        }
        search_markdown(query, &outcome, limit)
    } else if eq_str(&tool, "xnote.vault.write_note") {
        let note_path = match arg_required(request, "note_path") {
            Ok(p) => p,
            Err(e) => {
                return Err(e);
            },
        };
        let content = match arg_required(request, "content") {
            Ok(c) => c,
            Err(e) => {
                return Err(e);
            },
        };
        match vault.write_note(note_path, content) {
            Ok(()) => {},
            Err(e) => {
                return Err(e);
            },
        }
        let mut m = chars_of("## xnote.vault.write_note\n\n- `note_path`: `");
        push_str(&mut m, note_path);
        push_str(&mut m, "`\n- `result`: `ok`");
        string_of(&m)
    } else if eq_str(&tool, "xnote.vault.apply_patch") {
        return Err(owned("tool `xnote.vault.apply_patch` is reserved for future patch pipeline"));
    } else {
        let mut m = chars_of("tool `");
        push_str(&mut m, request.tool_name.as_str());
        push_str(&mut m, "` is not implemented");
        return Err(string_of(&m));
    };
    proof {
        match plan {
            ToolPlan::ReadNote(path) => {
                assert(payload@ == read_payload(path, wc));
            },
            ToolPlan::Search(q, l) => {
                assert(wh.len() <= l && payload@ == search_payload(q, wms, wh, l));
            },
            _ => {},
        }
    }
    Ok(VcpToolExecutionResult { tool_name: request.tool_name.clone(), payload_markdown: payload })
}

// ---------------------------------------------------------------------------
// The tool loop
// ---------------------------------------------------------------------------
#[derive(Clone, Debug, PartialEq, Eq)]
pub struct AiToolLoopResult {
    pub replacement: String,
    pub provider: String,
    pub model: String,
    pub tool_calls: Vec<VcpToolRequest>,
}

#[derive(Clone, Copy, Debug, PartialEq, Eq, Structural)]
pub enum AiToolLoopStopReason {
    FinalResponse,
    MaxRoundsReached,
}

#[derive(Clone, Debug, PartialEq, Eq)]
pub struct AiToolOrchestratorConfig {
    pub max_rounds: usize,
    pub request_id: Option<String>,
    pub scenario: String,
    pub final_response_instruction: String,
}

impl Default for AiToolOrchestratorConfig {
    fn default() -> (c: AiToolOrchestratorConfig)
        ensures
            c.max_rounds == 2,
            c.request_id is None,
            c.scenario@ == "rewrite"@,
            c.final_response_instruction@ == "Now return the final rewritten selection text only."@,
    {
        AiToolOrchestratorConfig {
            max_rounds: 2,
            request_id: None,
            scenario: owned("rewrite"),
            final_response_instruction: owned("Now return the final rewritten selection text only."),
        }
    }
}

#[derive(Clone, Debug, PartialEq, Eq)]
pub struct AiToolOrchestratorResult {
    pub final_response: String,
    pub tool_calls: Vec<VcpToolRequest>,
    pub rounds_executed: usize,
    pub stop_reason: AiToolLoopStopReason,
}

/// One line of the tool audit log.
#[derive(Clone, Debug, PartialEq, Eq)]
pub struct AiToolAuditEntry {
    pub timestamp_epoch_ms: u128,
    pub event: String,
    pub round: usize,
    pub tool_name: String,
    pub status: String,
    pub detail: String,
    pub request_id: Option<String>,
    pub scenario: Option<String>,
    pub model_latency_ms: Option<u128>,
    pub tool_latency_ms: Option<u128>,
    pub args_summary: Option<String>,
    pub outcome_category: Option<String>,
}

/// The instruction for the round after a tool ran: the original instruction, the tool's
/// result, and what to answer now.
pub open spec fn follow_up(original: Seq<char>, tool: Seq<char>, payload: Seq<char>, last: Seq<char>) -> Seq<char> {
    original + "\n\n[Tool "@ + tool + " result]\n"@ + payload + "\n\n"@ + last
}

pub fn build_tool_follow_up_instruction(
    original_instruction: &str,
    tool_name: &str,
    tool_payload_markdown: &str,
    final_response_instruction: &str,
) -> (r: String)
    ensures
        r@ == follow_up(original_instruction@, tool_name@, tool_payload_markdown@, final_response_instruction@),
{
    let mut m = chars_of(original_instruction);
    push_str(&mut m, "\n\n[Tool ");
    push_str(&mut m, tool_name);
    push_str(&mut m, " result]\n");
    push_str(&mut m, tool_payload_markdown);
    push_str(&mut m, "\n\n");
    push_str(&mut m, final_response_instruction);
    string_of(&m)
}

/// The number of model rounds a configuration allows: between 1 and 6.
pub open spec fn round_limit(max_rounds: usize) -> int {
    if max_rounds < 1 { 1 } else if max_rounds > 6 { 6 } else { max_rounds as int }
}

fn copy_opt(o: &Option<String>) -> (r: Option<String>)
    ensures
        r == *o,
{
    match o {
        Some(s) => Some(s.clone()),
        None => None,
    }
}

/// What running a tool request writes to the vault: the note of a write request, nothing
/// for any other.
pub open spec fn tool_writes(q: ToolRequestModel, p: PolicyModel, has_index: bool) -> Seq<(Seq<char>, Seq<char>)> {
    match tool_plan(q, p, has_index) {
        ToolPlan::WriteNote(path, content) => seq![(path, content)],
        _ => Seq::empty(),
    }
}

/// Only a request for `xnote.vault.write_note` that the policy lets write ever writes to the
/// vault, and then the one note it names, with the content it gives; every other request,
/// and every refused one, writes nothing.
pub proof fn law_only_write_note_writes(q: ToolRequestModel, p: PolicyModel, has_index: bool)
    ensures
        tool_writes(q, p, has_index).len() <= 1,
        tool_writes(q, p, has_index).len() == 1 ==> canonical_tool_name(q.tool_name) == "xnote.vault.write_note"@ && p.allow_write
            && request_error_for(default_tool(canonical_tool_name(q.tool_name)), q, p) is None && required_arg(q, "note_path"@)
            == Some(tool_writes(q, p, has_index)[0].0) && required_arg(q, "content"@) == Some(tool_writes(q, p, has_index)[0].1),
{
    reveal_strlit("xnote.vault.write_note");
    reveal_strlit("xnote.vault.read_note");
    reveal_strlit("xnote.knowledge.search");
    reveal_strlit("xnote.vault.apply_patch");
}

/// What a sequence of tool requests, all run, writes to the vault, in order.
pub open spec fn calls_writes(qs: Seq<ToolRequestModel>, p: PolicyModel, has_index: bool) -> Seq<(Seq<char>, Seq<char>)>
    decreases qs.len(),
{
    if qs.len() == 0 {
        Seq::empty()
    } else {
        calls_writes(qs.drop_last(), p, has_index) + tool_writes(qs.last(), p, has_index)
    }
}

/// A tool request that ran: neither the registry, the policy nor a missing argument or
/// index refused it.
pub open spec fn tool_call_ran(q: ToolRequestModel, p: PolicyModel, has_index: bool) -> bool {
    !(tool_plan(q, p, has_index) is Refused)
}

pub open spec fn policy_of(p: &VcpToolPolicy) -> PolicyModel {
    p.model()
}

/// What one answer of the model means for the tool loop.
pub enum ToolRound {
    /// The answer asks for no tool: it is the final response.
    Final(String),
    /// The answer's first tool request, checked against the registry and the policy.
    Call(VcpToolRequest),
}

/// Reads the provider's answer in a round of the tool loop: its failure, a malformed tool
/// block or a refused request ends the loop with that error; an answer without tool blocks
/// is final; else its first request is to be run.
pub fn tool_round(answer: Result<String, String>, registry: &VcpToolRegistry, policy: &VcpToolPolicy) -> (r: Result<ToolRound, String>)
    requires
        registry.wf(),
    ensures
        match answer {
            Err(e) => r matches Err(x) && x@ == e@,
            Ok(t) => match blocks_from(t@) {
                Err(m) => r matches Err(x) && x@ == m,
                Ok(qs) => if qs.len() == 0 {
                    r matches Ok(ToolRound::Final(f)) && f@ == t@
                } else {
                    match request_error(*registry, qs[0], policy.model()) {
                        Some(m) => r matches Err(x) && x@ == m,
                        None => r matches Ok(ToolRound::Call(q)) && q.model() == qs[0] && keys_sorted(q.args@),
                    }
                },
            },
        },
{
    let text = match answer {
        Ok(t) => t,
        Err(e) => {
            return Err(e);
        },
    };
    match parse_and_validate_first_vcp_tool_request(text.as_str(), registry, policy) {
        Err(e) => Err(e),
        Ok(None) => Ok(ToolRound::Final(text)),
        Ok(Some(q)) => Ok(ToolRound::Call(q)),
    }
}

/// The instruction the provider is given in round `k` of the tool loop: the request's own in
/// the first round, then the follow-up that hands over the previous round's tool result.
pub open spec fn round_instruction(
    request: AiRewriteRequest,
    calls: Seq<VcpToolRequest>,
    payloads: Seq<Seq<char>>,
    fin: Seq<char>,
    k: int,
) -> Seq<char> {
    if k == 0 {
        request.instruction@
    } else {
        follow_up(request.instruction@, calls[k - 1].tool_name@, payloads[k - 1], fin)
    }
}

/// The provider was asked, round after round, for the note and selection of `request` with
/// each round's instruction (see `round_instruction`), and answered `answers`.
pub open spec fn asked_in_rounds<P: AiProvider>(
    provider: P,
    request: AiRewriteRequest,
    reqs: Seq<AiRewriteRequest>,
    answers: Seq<Seq<char>>,
    calls: Seq<VcpToolRequest>,
    payloads: Seq<Seq<char>>,
    fin: Seq<char>,
) -> bool {
    &&& reqs.len() == answers.len()
    &&& forall|k: int|
        0 <= k < reqs.len() ==> (#[trigger] reqs[k]).note_path@ == request.note_path@ && reqs[k].selection@
            == request.selection@ && reqs[k].instruction@ == round_instruction(request, calls, payloads, fin, k)
            && provider.may_answer(reqs[k], Ok::<Seq<char>, Seq<char>>(answers[k]))
}

/// Lets the model call tools: each round asks the provider; an answer without a tool request
/// is final; otherwise the request is checked and run, recorded, and its result handed to
/// the next round. After the last round the provider answers once more.
pub fn execute_vcp_tool_orchestrator<P: AiProvider, V: VaultAccess + NoteSource>(
    request: &AiRewriteRequest,
    provider: &P,
    vault: &mut V,
    index: Option<&KnowledgeIndex>,
    tool_policy: &VcpToolPolicy,
    config: &AiToolOrchestratorConfig,
) -> (r: Result<AiToolOrchestratorResult, String>)
    requires
        index matches Some(ix) ==> ix.wf(),
    ensures
        r matches Ok(res) ==> (match res.stop_reason {
            AiToolLoopStopReason::FinalResponse => 1 <= res.rounds_executed <= round_limit(config.max_rounds)
                && res.tool_calls@.len() == res.rounds_executed - 1
                && blocks_from(res.final_response@) == Ok::<Seq<ToolRequestModel>, Seq<char>>(Seq::empty()),
            AiToolLoopStopReason::MaxRoundsReached => res.rounds_executed == round_limit(config.max_rounds)
                && res.tool_calls@.len() == res.rounds_executed,
        }),
        r matches Ok(res) ==> forall|k: int| 0 <= k < res.tool_calls@.len() ==> tool_call_ran(
            #[trigger] res.tool_calls@[k].model(),
            policy_of(tool_policy),
            index is Some,
        ),
        r matches Ok(res) ==> (V::keeps_write_log() ==> final(vault).notes_written() == old(vault).notes_written()
            + calls_writes(request_models(res.tool_calls@), policy_of(tool_policy), index is Some)),
        r matches Ok(res) ==> exists|reqs: Seq<AiRewriteRequest>, answers: Seq<Seq<char>>, payloads: Seq<Seq<char>>|
            #![trigger asked_in_rounds(*provider, *request, reqs, answers, res.tool_calls@, payloads, config.final_response_instruction@)]
            asked_in_rounds(*provider, *request, reqs, answers, res.tool_calls@, payloads, config.final_response_instruction@)
                && payloads.len() == res.tool_calls@.len() && answers.len() == (match res.stop_reason {
                AiToolLoopStopReason::FinalResponse => res.rounds_executed as int,
                AiToolLoopStopReason::MaxRoundsReached => res.rounds_executed + 1,
            }) && res.final_response@ == answers.last(),
{
    let rounds: usize = if config.max_rounds < 1 { 1 } else if config.max_rounds > 6 { 6 } else { config.max_rounds };
    let mut current = AiRewriteRequest {
        note_path: request.note_path.clone(),
        selection: request.selection.clone(),
        instruction: request.instruction.clone(),
    };
    let mut tool_calls: Vec<VcpToolRequest> = Vec::new();
    let mut round: usize = 0;
    let ghost mut reqs: Seq<AiRewriteRequest> = Seq::empty();
    let ghost mut answers: Seq<Seq<char>> = Seq::empty();
    let ghost mut payloads: Seq<Seq<char>> = Seq::empty();
    let ghost fin = config.final_response_instruction@;
    while round < rounds
        invariant
            round <= rounds,
            fin == config.final_response_instruction@,
            asked_in_rounds(*provider, *request, reqs, answers, tool_calls@, payloads, fin),
            reqs.len() == round,
            payloads.len() == round,
            current.note_path@ == request.note_path@,
            current.selection@ == request.selection@,
            current.instruction@ == round_instruction(*request, tool_calls@, payloads, fin, round as int),
            rounds as int == round_limit(config.max_rounds),
            tool_calls@.len() == round,
            index matches Some(ix) ==> ix.wf(),
            forall|k: int| 0 <= k < tool_calls@.len() ==> tool_call_ran(#[trigger] tool_calls@[k].model(), policy_of(tool_policy), index is Some),
            V::keeps_write_log() ==> vault.notes_written() == old(vault).notes_written() + calls_writes(request_models(tool_calls@), policy_of(tool_policy), index is Some),
        decreases rounds - round,
    {
        let model_started = crate::host::instant_now();
        let answer = provider.rewrite_selection(&current);
        let ghost asked = current;
        let model_ms = crate::host::millis_since(&model_started);
        let registry = VcpToolRegistry::with_xnote_defaults();
        let ghost answer_text = match answer_view(answer) {
            Ok(t) => t,
            Err(_) => Seq::<char>::empty(),
        };
        proof {
            if answer is Ok {
                let old_reqs = reqs;
                let old_answers = answers;
                reqs = reqs.push(asked);
                answers = answers.push(answer_text);
                assert forall|k: int| 0 <= k < reqs.len() implies (#[trigger] reqs[k]).note_path@ == request.note_path@ && reqs[k].selection@
                    == request.selection@ && reqs[k].instruction@ == round_instruction(*request, tool_calls@, payloads, fin, k)
                    && provider.may_answer(reqs[k], Ok::<Seq<char>, Seq<char>>(answers[k])) by {
                    if k < old_reqs.len() {
                        assert(reqs[k] == old_reqs[k] && answers[k] == old_answers[k]);
                    }
                }
            }
        }
        let step = match tool_round(answer, &registry, tool_policy) {
            Ok(s) => s,
            Err(e) => {
                return Err(e);
            },
        };
        let tool_request = match step {
            ToolRound::Call(q) => q,
            ToolRound::Final(response) => {
                proof {
                    if let Ok(qs) = blocks_from(response@) {
                        assert(qs =~= Seq::<ToolRequestModel>::empty());
                    }
                }
                let res = AiToolOrchestratorResult {
                    final_response: response,
                    tool_calls,
                    rounds_executed: round + 1,
                    stop_reason: AiToolLoopStopReason::FinalResponse,
                };
                assert(asked_in_rounds(*provider, *request, reqs, answers, res.tool_calls@, payloads, config.final_response_instruction@));
                return Ok(res);
            },
        };
        assert(keys_sorted(tool_request.args@));
        let tool_started = crate::host::instant_now();
        let execution = match execute_vcp_tool_request(&tool_request, vault, index, tool_policy) {
            Ok(x) => x,
            Err(e) => {
                return Err(e);
            },
        };
        let tool_ms = crate::host::millis_since(&tool_started);
        match vault.record_tool_execution(
            round,
            &tool_request,
            execution.payload_markdown.as_str(),
            copy_opt(&config.request_id),
            Some(config.scenario.clone()),
            model_ms,
            tool_ms,
        ) {
            Ok(()) => {},
            Err(e) => {
                return Err(e);
            },
        }
        let follow = build_tool_follow_up_instruction(
            request.instruction.as_str(),
            tool_request.tool_name.as_str(),
            execution.payload_markdown.as_str(),
            config.final_response_instruction.as_str(),
        );
        let ghost before = tool_calls@;
        let ghost old_payloads = payloads;
        assert(tool_call_ran(tool_request.model(), policy_of(tool_policy), index is Some));
        proof {
            payloads = payloads.push(execution.payload_markdown@);
        }
        let ghost tname = tool_request.tool_name@;
        tool_calls.push(tool_request);
        assert(forall|k: int| 0 <= k < before.len() ==> tool_calls@[k] == before[k]);
        proof {
            assert(request_models(tool_calls@).drop_last() =~= request_models(before));
            assert(request_models(tool_calls@).last() == tool_calls@.last().model());
        }
        current.instruction = follow;
        proof {
            assert forall|k: int| 0 <= k < reqs.len() implies round_instruction(*request, tool_calls@, payloads, fin, k)
                == round_instruction(*request, before, old_payloads, fin, k) by {
                if k > 0 {
                    assert(tool_calls@[k - 1] == before[k - 1]);
                    assert(payloads[k - 1] == old_payloads[k - 1]);
                }
            }
            assert(tool_calls@[round as int].tool_name@ == tname);
        }
        round += 1;
    }
    let answer = provider.rewrite_selection(&current);
    let fallback = match answer {
        Ok(t) => t,
        Err(e) => {
            return Err(e);
        },
    };
    proof {
        let old_reqs = reqs;
        let old_answers = answers;
        reqs = reqs.push(current);
        answers = answers.push(fallback@);
        assert forall|k: int| 0 <= k < reqs.len() implies (#[trigger] reqs[k]).note_path@ == request.note_path@ && reqs[k].selection@
            == request.selection@ && reqs[k].instruction@ == round_instruction(*request, tool_calls@, payloads, fin, k)
            && provider.may_answer(reqs[k], Ok::<Seq<char>, Seq<char>>(answers[k])) by {
            if k < old_reqs.len() {
                assert(reqs[k] == old_reqs[k] && answers[k] == old_answers[k]);
            }
        }
    }
    let res = AiToolOrchestratorResult {
        final_response: fallback,
        tool_calls,
        rounds_executed: rounds,
        stop_reason: AiToolLoopStopReason::MaxRoundsReached,
    };
    assert(asked_in_rounds(*provider, *request, reqs, answers, res.tool_calls@, payloads, config.final_response_instruction@));
    Ok(res)
}

} // verus!
