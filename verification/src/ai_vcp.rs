//! The VCP-compatible AI provider's own rules: which endpoint it posts to, how it reads the
//! completion out of an answer, and how tool runs are summarized for the audit log.
use vstd::prelude::*;
use crate::text::{chars_of, string_of, push_str, push_all, trim, trimmed, trim_chars, lower_seq, lower_ascii, eq_str, contains_seq, contains, replace_seq, replace_str, has_suffix, owned, replace_char, replace_char_seq};
use crate::editor::{byte_len, char_width, lemma_byte_len_concat};
use crate::vcp_admin::{JsonValue, member, get_member, parse_json, json_text_value};
use crate::ai::{VcpToolRequest, AiToolAuditEntry, AiRewriteRequest, AiVariableRegistry, AiVariableScope, VcpToolRegistry, VcpToolDescription, ToolSpecModel, canonical_variable_name, rendered, name_sorted, markdown_of, vcp_described, generate_vcp_tool_descriptions};
use crate::text::first_occurrence_from;

verus! {

// ---------------------------------------------------------------------------
// Rewrite prompts
// ---------------------------------------------------------------------------
/// The system prompt's template.
pub open spec fn rewrite_system_template() -> Seq<char> {
    "You are the XNote rewrite engine.\nKeep the user language and preserve semantic meaning.\nDo not add commentary, markdown fences, or explanations.\nReturn only the rewritten content body.\nWhen external data is required, call tools with VCP markers.\nAvailable tools:\n{{VcpToolList}}\nCurrent note: {{CurrentNotePath}}"@
}

/// The user prompt's template.
pub open spec fn rewrite_user_template() -> Seq<char> {
    "Rewrite instruction:\n{{Instruction}}\n\nSelected text:\n```text\n{{Selection}}\n```"@
}

/// The instruction given to the model: the request's, trimmed, or a default one where it is
/// blank.
pub open spec fn rewrite_instruction(instruction: Seq<char>) -> Seq<char> {
    if trim(instruction).len() == 0 {
        "Polish the selected text while keeping the original meaning and language."@
    } else {
        trim(instruction)
    }
}

/// The tools' markdown descriptions, one per line.
pub open spec fn tool_list(s: Seq<ToolSpecModel>) -> Seq<char>
    decreases s.len(),
{
    if s.len() == 0 {
        Seq::empty()
    } else if s.len() == 1 {
        markdown_of(s[0])
    } else {
        tool_list(s.drop_last()) + "\n"@ + markdown_of(s.last())
    }
}

/// What a placeholder of the rewrite prompts stands for: the tool list (where there are
/// tools), the selection, the instruction, the note path and the provider's name, each by
/// its variable name as the registry compares names.
pub open spec fn prompt_value(request: AiRewriteRequest, tools: Seq<char>, p: Seq<char>) -> Option<Seq<char>> {
    let c = canonical_variable_name(p);
    if tools.len() > 0 && c == canonical_variable_name("VcpToolList"@) {
        Some(tools)
    } else if c == canonical_variable_name("Selection"@) {
        Some(request.selection@)
    } else if c == canonical_variable_name("Instruction"@) {
        Some(rewrite_instruction(request.instruction@))
    } else if c == canonical_variable_name("CurrentNotePath"@) {
        Some(request.note_path@)
    } else if c == canonical_variable_name("AiProvider"@) {
        Some("vcp"@)
    } else {
        None
    }
}

/// `t` with each `{{name}}` replaced by what `lookup` gives for it; a placeholder that it
/// gives nothing for stays as written.
#[verifier::opaque]
pub open spec fn rendered_with(lookup: spec_fn(Seq<char>) -> Option<Seq<char>>, t: Seq<char>) -> Seq<char>
    decreases t.len(),
{
    match first_occurrence_from(t, "{{"@, 0) {
        None => t,
        Some(st) => if st < 0 || st + 2 > t.len() {
            t
        } else {
            let after = t.skip(st + 2);
            match first_occurrence_from(after, "}}"@, 0) {
                None => t,
                Some(e) => if e < 0 || e + 2 > after.len() {
                    t
                } else {
                    let ph = after.take(e);
                    let piece = match lookup(ph) {
                        Some(v) => v,
                        None => t.subrange(st, st + 2 + e + 2),
                    };
                    t.take(st) + piece + rendered_with(lookup, after.skip(e + 2))
                },
            }
        },
    }
}

/// Rendering with a registry is rendering with what it resolves in the scope.
pub proof fn lemma_rendered_with(reg: AiVariableRegistry, t: Seq<char>, scope: AiVariableScope)
    ensures
        rendered(reg, t, scope) == rendered_with(|p: Seq<char>| reg.resolved(p, scope), t),
    decreases t.len(),
{
    let lookup = |p: Seq<char>| reg.resolved(p, scope);
    match first_occurrence_from(t, "{{"@, 0) {
        None => {
            reveal(rendered);
            reveal(rendered_with);
        },
        Some(st) => if st < 0 || st + 2 > t.len() {
            reveal(rendered);
            reveal(rendered_with);
        } else {
            let after = t.skip(st + 2);
            match first_occurrence_from(after, "}}"@, 0) {
                None => {
                    reveal(rendered);
                    reveal(rendered_with);
                },
                Some(e) => if e < 0 || e + 2 > after.len() {
                    reveal(rendered);
                    reveal(rendered_with);
                } else {
                    let ph = after.take(e);
                    let rest = after.skip(e + 2);
                    let piece = match reg.resolved(ph, scope) {
                        Some(v) => v,
                        None => t.subrange(st, st + 2 + e + 2),
                    };
                    lemma_rendered_with(reg, rest, scope);
                    assert(rendered(reg, t, scope) == t.take(st) + piece + rendered(reg, rest, scope)) by {
                        reveal(rendered);
                    }
                    assert(rendered_with(lookup, t) == t.take(st) + piece + rendered_with(lookup, rest)) by {
                        reveal(rendered_with);
                    }
                },
            }
        },
    }
}

/// The tools' markdown descriptions joined by line breaks.
fn join_tool_markdown(descs: &Vec<VcpToolDescription>, Ghost(s): Ghost<Seq<ToolSpecModel>>) -> (r: String)
    requires
        vcp_described(descs@, s),
    ensures
        r@ == tool_list(s),
{
    let mut out: Vec<char> = Vec::new();
    let mut i: usize = 0;
    while i < descs.len()
        invariant
            i <= descs.len(),
            vcp_described(descs@, s),
            out@ == tool_list(s.take(i as int)),
        decreases descs.len() - i,
    {
        proof {
            let t = s.take(i + 1);
            assert(t.drop_last() =~= s.take(i as int));
            assert(t.last() == s[i as int]);
            assert(descs@[i as int].markdown_description@ == markdown_of(s[i as int]));
        }
        if i > 0 {
            out.push('\n');
        }
        push_str(&mut out, descs[i].markdown_description.as_str());
        proof {
            let t = s.take(i + 1);
            if i == 0 {
                assert(out@ =~= markdown_of(t[0]));
            } else {
                assert(out@ =~= tool_list(t.drop_last()) + "\n"@ + markdown_of(t.last())) by {
                    reveal_strlit("\n");
                }
            }
        }
        i += 1;
    }
    assert(s.take(descs.len() as int) =~= s);
    string_of(&out)
}

/// The system and user prompts for a rewrite with the tools of `tools` on offer: the
/// templates with the request's variables filled in (see `prompt_value`), the tools listed
/// in name order.
pub fn vcp_rewrite_prompts(request: &AiRewriteRequest, tools: &VcpToolRegistry) -> (r: (String, String))
    ensures
        exists|s: Seq<ToolSpecModel>|
            name_sorted(s) && s.to_multiset() == tools.spec_seq().to_multiset()
                && r.0@ == rendered_with(|p: Seq<char>| prompt_value(*request, tool_list(s), p), rewrite_system_template())
                && r.1@ == rendered_with(|p: Seq<char>| prompt_value(*request, tool_list(s), p), rewrite_user_template()),
{
    let instruction = if crate::text::is_blank(request.instruction.as_str()) {
        owned("Polish the selected text while keeping the original meaning and language.")
    } else {
        let t = trimmed(request.instruction.as_str());
        string_of(&t)
    };
    assert(instruction@ == rewrite_instruction(request.instruction@));
    let mut reg = AiVariableRegistry::default();
    let ghost r0 = reg;
    reg.insert_global("AiProvider", "vcp");
    let ghost r1 = reg;
    reg.insert_knowledge("CurrentNotePath", request.note_path.as_str());
    let ghost r2 = reg;
    reg.insert_knowledge("Instruction", instruction.as_str());
    let ghost r3 = reg;
    reg.insert_knowledge("Selection", request.selection.as_str());
    let ghost r4 = reg;
    let descs = generate_vcp_tool_descriptions(tools);
    let ghost s = choose|s: Seq<ToolSpecModel>| name_sorted(s) && s.to_multiset() == tools.spec_seq().to_multiset() && vcp_described(descs@, s);
    let list = join_tool_markdown(&descs, Ghost(s));
    if !crate::ai::string_is_empty(&list) {
        reg.insert_knowledge("VcpToolList", list.as_str());
    }
    let system = reg.render_template("You are the XNote rewrite engine.\nKeep the user language and preserve semantic meaning.\nDo not add commentary, markdown fences, or explanations.\nReturn only the rewritten content body.\nWhen external data is required, call tools with VCP markers.\nAvailable tools:\n{{VcpToolList}}\nCurrent note: {{CurrentNotePath}}", AiVariableScope::Knowledge);
    let user = reg.render_template("Rewrite instruction:\n{{Instruction}}\n\nSelected text:\n```text\n{{Selection}}\n```", AiVariableScope::Knowledge);
    let ghost lookup = |p: Seq<char>| prompt_value(*request, tool_list(s), p);
    proof {
        assert(list@ == tool_list(s));
        assert forall|p: Seq<char>| #[trigger] lookup(p) == reg.resolved(p, AiVariableScope::Knowledge) by {
            let c = canonical_variable_name(p);
            assert(r0.resolved(p, AiVariableScope::Knowledge) == None::<Seq<char>>);
            if c == canonical_variable_name("AiProvider"@) {
                assert(r1.resolved(p, AiVariableScope::Knowledge) == r1.resolved("AiProvider"@, AiVariableScope::Knowledge));
            }
            if c == canonical_variable_name("CurrentNotePath"@) {
                assert(r2.resolved(p, AiVariableScope::Knowledge) == r2.resolved("CurrentNotePath"@, AiVariableScope::Knowledge));
            }
            if c == canonical_variable_name("Instruction"@) {
                assert(r3.resolved(p, AiVariableScope::Knowledge) == r3.resolved("Instruction"@, AiVariableScope::Knowledge));
            }
            if c == canonical_variable_name("Selection"@) {
                assert(r4.resolved(p, AiVariableScope::Knowledge) == r4.resolved("Selection"@, AiVariableScope::Knowledge));
            }
            if list@.len() > 0 && c == canonical_variable_name("VcpToolList"@) {
                assert(reg.resolved(p, AiVariableScope::Knowledge) == reg.resolved("VcpToolList"@, AiVariableScope::Knowledge));
            }
        }
        assert(lookup =~= (|p: Seq<char>| reg.resolved(p, AiVariableScope::Knowledge)));
        lemma_rendered_with(reg, rewrite_system_template(), AiVariableScope::Knowledge);
        lemma_rendered_with(reg, rewrite_user_template(), AiVariableScope::Knowledge);
    }
    (system, user)
}

// ---------------------------------------------------------------------------
// Endpoint
// ---------------------------------------------------------------------------
/// The URL completions are posted to: with tool injection on, the `chatvcp` variant of the
/// chat completions path (replacing the plain one, or appended); else the endpoint itself.
pub open spec fn completion_url(endpoint: Seq<char>, tool_injection: bool) -> Seq<char> {
    if !tool_injection {
        endpoint
    } else if contains_seq(endpoint, "/v1/chatvcp/completions"@) {
        endpoint
    } else if contains_seq(endpoint, "/v1/chat/completions"@) {
        replace_seq(endpoint, "/v1/chat/completions"@, "/v1/chatvcp/completions"@)
    } else if has_suffix(endpoint, "/"@) {
        endpoint.drop_last() + "/v1/chatvcp/completions"@
    } else {
        endpoint + "/v1/chatvcp/completions"@
    }
}

pub fn completion_endpoint_for(endpoint: &str, tool_injection: bool) -> (r: String)
    ensures
        r@ == completion_url(endpoint@, tool_injection),
{
    if !tool_injection {
        return owned(endpoint);
    }
    let e = chars_of(endpoint);
    let vcp = chars_of("/v1/chatvcp/completions");
    if contains(&e, &vcp) {
        return owned(endpoint);
    }
    let chat = chars_of("/v1/chat/completions");
    if contains(&e, &chat) {
        let r = replace_str(&e, "/v1/chat/completions", "/v1/chatvcp/completions");
        return string_of(&r);
    }
    if crate::text::ends_with_str(&e, "/") {
        proof {
            reveal_strlit("/");
        }
        let mut r = crate::text::slice_of(&e, 0, e.len() - 1);
        push_all(&mut r, &vcp);
        assert(e@.subrange(0, e@.len() - 1) =~= e@.drop_last());
        return string_of(&r);
    }
    let mut r = e;
    push_all(&mut r, &vcp);
    string_of(&r)
}

/// What an environment flag says: `1`, `true`, `yes`, `on` (ASCII case and surrounding
/// whitespace ignored) turn it on; `0`, `false`, `no`, `off` turn it off; anything else, or
/// no value, leaves `default`.
pub open spec fn flag_value(value: Option<Seq<char>>, default: bool) -> bool {
    match value {
        Some(v) => {
            let t = lower_seq(trim(v));
            if t == "1"@ || t == "true"@ || t == "yes"@ || t == "on"@ {
                true
            } else if t == "0"@ || t == "false"@ || t == "no"@ || t == "off"@ {
                false
            } else {
                default
            }
        },
        None => default,
    }
}

pub fn parse_flag(value: Option<&str>, default: bool) -> (b: bool)
    ensures
        b == flag_value(match value {
            Some(v) => Some(v@),
            None => None,
        }, default),
{
    match value {
        Some(v) => {
            let t = lower_ascii(&trimmed(v));
            if eq_str(&t, "1") || eq_str(&t, "true") || eq_str(&t, "yes") || eq_str(&t, "on") {
                true
            } else if eq_str(&t, "0") || eq_str(&t, "false") || eq_str(&t, "no") || eq_str(&t, "off") {
                false
            } else {
                default
            }
        },
        None => default,
    }
}

// ---------------------------------------------------------------------------
// Reading the completion
// ---------------------------------------------------------------------------
/// The text of a `content` value: a string, trimmed; or the `text` (else `content`) strings
/// of an array's chunks, joined and trimmed; nothing when that is blank or for other values.
pub open spec fn content_text(v: JsonValue) -> Option<Seq<char>> {
    match v {
        JsonValue::Str(s) => if trim(s@).len() > 0 {
            Some(trim(s@))
        } else {
            None
        },
        JsonValue::Array { items, .. } => {
            let joined = chunk_texts(items@);
            if trim(joined).len() > 0 {
                Some(trim(joined))
            } else {
                None
            }
        },
        _ => None,
    }
}

/// The text a chunk contributes: its `text` string, else its `content` string.
pub open spec fn chunk_text(c: JsonValue) -> Seq<char> {
    match member(c, "text"@) {
        Some(JsonValue::Str(t)) => t@,
        _ => match member(c, "content"@) {
            Some(JsonValue::Str(t)) => t@,
            _ => Seq::empty(),
        },
    }
}

pub open spec fn chunk_texts(cs: Seq<JsonValue>) -> Seq<char>
    decreases cs.len(),
{
    if cs.len() == 0 {
        Seq::empty()
    } else {
        chunk_texts(cs.drop_last()) + chunk_text(cs.last())
    }
}

/// The value at `choices/0/<part>/content` below `v`.
pub open spec fn choice_content(v: JsonValue, part: Seq<char>) -> Option<JsonValue> {
    match member(v, "choices"@) {
        Some(JsonValue::Array { items, .. }) => if items@.len() > 0 {
            match member(items@[0], part) {
                Some(m) => member(m, "content"@),
                None => None,
            }
        } else {
            None
        },
        _ => None,
    }
}

/// The text of the content at `choices/0/<part>/content`.
pub open spec fn choice_text(v: JsonValue, part: Seq<char>) -> Option<Seq<char>> {
    match choice_content(v, part) {
        Some(c) => content_text(c),
        None => None,
    }
}

/// The assistant's text in a chat completion answer: the message content of the first
/// choice, else its delta content; the same under `response`, else nothing.
pub open spec fn completion_text(v: JsonValue) -> Option<Seq<char>> {
    match choice_text(v, "message"@) {
        Some(t) => Some(t),
        None => match choice_text(v, "delta"@) {
            Some(t) => Some(t),
            None => match member(v, "response"@) {
                Some(r) => match choice_text(r, "message"@) {
                    Some(t) => Some(t),
                    None => choice_text(r, "delta"@),
                },
                None => None,
            },
        },
    }
}

fn json_content_to_text(value: &JsonValue) -> (r: Option<String>)
    ensures
        match r {
            Some(s) => content_text(*value) == Some(s@),
            None => content_text(*value) is None,
        },
{
    match value {
        JsonValue::Str(s) => {
            let t = trimmed(s.as_str());
            if t.len() > 0 {
                Some(string_of(&t))
            } else {
                None
            }
        },
        JsonValue::Array { items, .. } => {
            let mut combined: Vec<char> = Vec::new();
            let mut i: usize = 0;
            while i < items.len()
                invariant
                    i <= items.len(),
                    combined@ == chunk_texts(items@.take(i as int)),
                decreases items.len() - i,
            {
                proof {
                    assert(items@.take(i + 1).drop_last() =~= items@.take(i as int));
                    assert(items@.take(i + 1).last() == items@[i as int]);
                }
                match get_member(&items[i], "text") {
                    Some(JsonValue::Str(t)) => push_str(&mut combined, t.as_str()),
                    _ => match get_member(&items[i], "content") {
                        Some(JsonValue::Str(t)) => push_str(&mut combined, t.as_str()),
                        _ => {},
                    },
                }
                i += 1;
            }
            assert(items@.take(items.len() as int) =~= items@);
            let t = trim_chars(&combined);
            if t.len() > 0 {
                Some(string_of(&t))
            } else {
                None
            }
        },
        _ => None,
    }
}

fn choice_content_of<'a>(value: &'a JsonValue, part: &str) -> (r: Option<&'a JsonValue>)
    ensures
        match r {
            Some(x) => choice_content(*value, part@) == Some(*x),
            None => choice_content(*value, part@) is None,
        },
{
    match get_member(value, "choices") {
        Some(JsonValue::Array { items, .. }) => {
            if items.len() > 0 {
                match get_member(&items[0], part) {
                    Some(m) => get_member(m, "content"),
                    None => None,
                }
            } else {
                None
            }
        },
        _ => None,
    }
}

fn choice_text_of(value: &JsonValue, part: &str) -> (r: Option<String>)
    ensures
        match r {
            Some(s) => choice_text(*value, part@) == Some(s@),
            None => choice_text(*value, part@) is None,
        },
{
    match choice_content_of(value, part) {
        Some(c) => json_content_to_text(c),
        None => None,
    }
}

/// The model's answer in a chat completion's body: the text `completion_text` finds in the
/// JSON; refused where the body is not JSON or holds no such text.
pub fn completion_from_body(body: &str) -> (r: Result<String, String>)
    ensures
        match json_text_value(body@) {
            None => r matches Err(e) && e@ == "failed to decode VCP response JSON"@,
            Some(v) => match completion_text(v) {
                Some(t) => r matches Ok(x) && x@ == t,
                None => r matches Err(e) && e@ == "vcp response missing assistant content (expected choices[0].message.content)"@,
            },
        },
{
    let v = match parse_json(body) {
        Some(v) => v,
        None => {
            return Err(owned("failed to decode VCP response JSON"));
        },
    };
    match extract_completion_text(&v) {
        Some(t) => Ok(t),
        None => Err(owned("vcp response missing assistant content (expected choices[0].message.content)")),
    }
}

/// The assistant's text in a chat completion answer (see `completion_text`).
pub fn extract_completion_text(payload: &JsonValue) -> (r: Option<String>)
    ensures
        match r {
            Some(s) => completion_text(*payload) == Some(s@),
            None => completion_text(*payload) is None,
        },
{
    proof {
        reveal_strlit("message");
        reveal_strlit("delta");
    }
    if let Some(t) = choice_text_of(payload, "message") {
        return Some(t);
    }
    if let Some(t) = choice_text_of(payload, "delta") {
        return Some(t);
    }
    match get_member(payload, "response") {
        Some(root) => {
            if let Some(t) = choice_text_of(root, "message") {
                return Some(t);
            }
            choice_text_of(root, "delta")
        },
        None => None,
    }
}

// ---------------------------------------------------------------------------
// Audit summaries
// ---------------------------------------------------------------------------
/// `s` without carriage returns.
pub open spec fn without_cr(s: Seq<char>) -> Seq<char>
    decreases s.len(),
{
    if s.len() == 0 {
        s
    } else if s.last() == '\r' {
        without_cr(s.drop_last())
    } else {
        without_cr(s.drop_last()).push(s.last())
    }
}

/// A text cut to at most `max` bytes can be cut there: it is short enough, or `max` falls
/// on a character boundary (else `String::truncate` panics).
pub open spec fn cut_ok(n: Seq<char>, max: nat) -> bool {
    byte_len(n) <= max || exists|k: int| 0 <= k <= n.len() && byte_len(n.take(k)) == max
}

/// The number of characters in the first `max` bytes of `n`.
pub open spec fn cut_point(n: Seq<char>, max: nat) -> int {
    choose|k: int| 0 <= k <= n.len() && byte_len(n.take(k)) == max
}

/// `n` cut to `max` bytes, with `...` when it was longer.
pub open spec fn cut_to(n: Seq<char>, max: nat) -> Seq<char> {
    if byte_len(n) <= max {
        n
    } else {
        n.take(cut_point(n, max)) + "..."@
    }
}

/// A tool detail as the audit log keeps it: trimmed, without carriage returns, cut to
/// `max` bytes.
pub open spec fn detail_summary(detail: Seq<char>, max: nat) -> Seq<char> {
    cut_to(without_cr(trim(detail)), max)
}

pub open spec fn detail_summarizable(detail: Seq<char>, max: nat) -> bool {
    cut_ok(without_cr(trim(detail)), max)
}

proof fn lemma_byte_len_push(s: Seq<char>, c: char)
    ensures
        byte_len(s.push(c)) == byte_len(s) + char_width(c),
{
    lemma_byte_len_concat(s, seq![c]);
    assert(s + seq![c] == s.push(c));
    assert(seq![c].drop_first() =~= Seq::<char>::empty());
    assert(seq![c][0] == c);
    assert(byte_len(Seq::<char>::empty()) == 0);
    assert(byte_len(seq![c]) == char_width(c) + byte_len(seq![c].drop_first()));
}

proof fn lemma_take_bytes_grow(n: Seq<char>, j: int, k: int)
    requires
        0 <= j < k <= n.len(),
    ensures
        byte_len(n.take(j)) < byte_len(n.take(k)),
    decreases k - j,
{
    assert(n.take(k) =~= n.take(k - 1).push(n[k - 1]));
    lemma_byte_len_push(n.take(k - 1), n[k - 1]);
    if j < k - 1 {
        lemma_take_bytes_grow(n, j, k - 1);
    }
}

fn width_of(c: char) -> (w: u128)
    ensures
        w == char_width(c),
{
    let u = c as u32;
    if u < 0x80 {
        1
    } else if u < 0x800 {
        2
    } else if u < 0x10000 {
        3
    } else {
        4
    }
}

/// How many characters of `n` fill exactly `max` bytes, if any count does; and the byte
/// length of `n` when it is at most `max`.
fn bytes_cut(n: &Vec<char>, max: usize) -> (r: (bool, usize))
    ensures
        r.0 == (byte_len(n@) <= max),
        !r.0 ==> ((exists|k: int| 0 <= k <= n@.len() && byte_len(n@.take(k)) == max) <==> (r.1 <= n@.len()
            && byte_len(n@.take(r.1 as int)) == max)),
{
    let mut k: usize = 0;
    let mut b: u128 = 0;
    assert(n@.take(0) =~= Seq::<char>::empty());
    while k < n.len() && b < max as u128
        invariant
            k <= n.len(),
            b == byte_len(n@.take(k as int)),
            b <= max as u128 + 4,
            k > 0 ==> byte_len(n@.take(k - 1)) < max,
        decreases n.len() - k,
    {
        proof {
            assert(n@.take(k + 1) =~= n@.take(k as int).push(n@[k as int]));
            lemma_byte_len_push(n@.take(k as int), n@[k as int]);
        }
        b = b + width_of(n[k]);
        k += 1;
    }
    proof {
        crate::editor::lemma_take_full(n@);
    }
    if k == n.len() && b <= max as u128 {
        return (true, 0);
    }
    proof {
        if k < n.len() {
            lemma_take_bytes_grow(n@, k as int, n@.len() as int);
        }
        crate::editor::lemma_take_full(n@);
        assert(byte_len(n@) > max);
        assert(b >= max);
        if exists|j: int| 0 <= j <= n@.len() && byte_len(n@.take(j)) == max {
            let j = choose|j: int| 0 <= j <= n@.len() && byte_len(n@.take(j)) == max;
            if j < k - 1 {
                lemma_take_bytes_grow(n@, j, k - 1);
            } else if j > k {
                lemma_take_bytes_grow(n@, k as int, j);
            }
            assert(j == k);
        }
    }
    (false, k)
}

fn without_cr_chars(s: &Vec<char>) -> (r: Vec<char>)
    ensures
        r@ == without_cr(s@),
{
    let mut r: Vec<char> = Vec::new();
    let mut i: usize = 0;
    while i < s.len()
        invariant
            i <= s.len(),
            r@ == without_cr(s@.take(i as int)),
        decreases s.len() - i,
    {
        proof {
            assert(s@.take(i + 1).drop_last() =~= s@.take(i as int));
            assert(s@.take(i + 1).last() == s@[i as int]);
        }
        if s[i] != '\r' {
            r.push(s[i]);
        }
        i += 1;
    }
    assert(s@.take(s.len() as int) =~= s@);
    r
}

/// Whether `summarize_tool_detail` can summarize `detail` within `max_chars` bytes.
pub fn tool_detail_summarizable(detail: &str, max_chars: usize) -> (b: bool)
    ensures
        b == detail_summarizable(detail@, max_chars as nat),
{
    let n = without_cr_chars(&trimmed(detail));
    let (fits, k) = bytes_cut(&n, max_chars);
    if fits {
        return true;
    }
    k <= n.len() && {
        let t = crate::text::slice_of(&n, 0, k);
        proof {
            assert(t@ =~= n@.take(k as int));
        }
        byte_len_exec(&t) == max_chars as u128
    }
}

fn byte_len_exec(s: &Vec<char>) -> (b: u128)
    ensures
        b == byte_len(s@),
{
    let mut b: u128 = 0;
    let mut i: usize = 0;
    assert(s@.take(0) =~= Seq::<char>::empty());
    while i < s.len()
        invariant
            i <= s.len(),
            b == byte_len(s@.take(i as int)),
            b <= 4 * i,
        decreases s.len() - i,
    {
        proof {
            assert(s@.take(i + 1) =~= s@.take(i as int).push(s@[i as int]));
            lemma_byte_len_push(s@.take(i as int), s@[i as int]);
        }
        b = b + width_of(s[i]);
        i += 1;
    }
    proof {
        crate::editor::lemma_take_full(s@);
    }
    b
}

fn cut_chars(n: &Vec<char>, max_chars: usize) -> (r: Vec<char>)
    requires
        cut_ok(n@, max_chars as nat),
    ensures
        r@ == cut_to(n@, max_chars as nat),
{
    let (fits, k) = bytes_cut(n, max_chars);
    if fits {
        return crate::text::slice_of(n, 0, n.len());
    }
    proof {
        let j = cut_point(n@, max_chars as nat);
        assert(byte_len(n@.take(j)) == max_chars);
        if j < k {
            lemma_take_bytes_grow(n@, j, k as int);
        } else if j > k {
            lemma_take_bytes_grow(n@, k as int, j);
        }
    }
    let mut r = crate::text::slice_of(n, 0, k);
    push_str(&mut r, "...");
    r
}

/// A tool detail as the audit log keeps it (see `detail_summary`).
pub fn summarize_tool_detail(detail: &str, max_chars: usize) -> (r: String)
    requires
        detail_summarizable(detail@, max_chars as nat),
    ensures
        r@ == detail_summary(detail@, max_chars as nat),
{
    let n = without_cr_chars(&trimmed(detail));
    let r = cut_chars(&n, max_chars);
    string_of(&r)
}

/// One argument as the audit log lists it: `key=value`, the value summarized to 64 bytes
/// with line breaks turned into spaces.
pub open spec fn arg_item(arg: (String, String)) -> Seq<char> {
    arg.0@ + "="@ + replace_char_seq(detail_summary(arg.1@, 64), '\n', ' ')
}

/// The argument items joined with `, `.
pub open spec fn arg_items(args: Seq<(String, String)>) -> Seq<char>
    decreases args.len(),
{
    if args.len() == 0 {
        Seq::empty()
    } else if args.len() == 1 {
        arg_item(args[0])
    } else {
        arg_items(args.drop_last()) + ", "@ + arg_item(args.last())
    }
}

/// The arguments as the audit log keeps them: `{}` when there are none, else the items,
/// summarized to `max` bytes.
pub open spec fn args_summary(args: Seq<(String, String)>, max: nat) -> Seq<char> {
    if args.len() == 0 {
        "{}"@
    } else {
        detail_summary(arg_items(args), max)
    }
}

pub open spec fn args_summarizable(args: Seq<(String, String)>, max: nat) -> bool {
    (forall|i: int| 0 <= i < args.len() ==> detail_summarizable(#[trigger] args[i].1@, 64)) && (args.len() > 0
        ==> detail_summarizable(arg_items(args), max))
}

fn arg_items_chars(args: &Vec<(String, String)>) -> (r: Vec<char>)
    requires
        forall|i: int| 0 <= i < args@.len() ==> detail_summarizable(#[trigger] args@[i].1@, 64),
    ensures
        r@ == arg_items(args@),
{
    let mut out: Vec<char> = Vec::new();
    let mut i: usize = 0;
    while i < args.len()
        invariant
            i <= args.len(),
            forall|j: int| 0 <= j < args@.len() ==> detail_summarizable(#[trigger] args@[j].1@, 64),
            out@ == arg_items(args@.take(i as int)),
        decreases args.len() - i,
    {
        proof {
            assert(args@.take(i + 1).drop_last() =~= args@.take(i as int));
            assert(args@.take(i + 1).last() == args@[i as int]);
            assert(detail_summarizable(args@[i as int].1@, 64));
        }
        if i > 0 {
            push_str(&mut out, ", ");
        }
        let ghost before = out@;
        push_str(&mut out, args[i].0.as_str());
        push_str(&mut out, "=");
        let s = summarize_tool_detail(args[i].1.as_str(), 64);
        let v = replace_char(&chars_of(s.as_str()), '\n', ' ');
        push_all(&mut out, &v);
        proof {
            if i == 0 {
                assert(args@.take(1).len() == 1);
                assert(out@ =~= arg_item(args@[0]));
            } else {
                assert(out@ =~= arg_items(args@.take(i as int)) + ", "@ + arg_item(args@[i as int]));
            }
        }
        i += 1;
    }
    assert(args@.take(args.len() as int) =~= args@);
    out
}

/// Whether `summarize_tool_args` can summarize `args` within `max_chars` bytes.
pub fn tool_args_summarizable(args: &Vec<(String, String)>, max_chars: usize) -> (b: bool)
    ensures
        b == args_summarizable(args@, max_chars as nat),
{
    let mut i: usize = 0;
    while i < args.len()
        invariant
            i <= args.len(),
            forall|j: int| 0 <= j < i ==> detail_summarizable(#[trigger] args@[j].1@, 64),
        decreases args.len() - i,
    {
        if !tool_detail_summarizable(args[i].1.as_str(), 64) {
            return false;
        }
        i += 1;
    }
    if args.len() == 0 {
        return true;
    }
    let items = arg_items_chars(args);
    tool_detail_summarizable(string_of(&items).as_str(), max_chars)
}

/// The arguments as the audit log keeps them (see `args_summary`).
pub fn summarize_tool_args(args: &Vec<(String, String)>, max_chars: usize) -> (r: String)
    requires
        args_summarizable(args@, max_chars as nat),
    ensures
        r@ == args_summary(args@, max_chars as nat),
{
    if args.len() == 0 {
        return owned("{}");
    }
    let items = arg_items_chars(args);
    let joined = string_of(&items);
    summarize_tool_detail(joined.as_str(), max_chars)
}

/// The audit record of a tool run in round `round`: its request, its payload summarized to
/// 320 bytes, its arguments to 220, and the latencies measured.
pub fn tool_audit_entry(
    timestamp_epoch_ms: u128,
    round: usize,
    request: &VcpToolRequest,
    payload_markdown: &str,
    request_id: Option<String>,
    scenario: Option<String>,
    model_latency_ms: u128,
    tool_latency_ms: u128,
) -> (e: AiToolAuditEntry)
    requires
        detail_summarizable(payload_markdown@, 320),
        args_summarizable(request.args@, 220),
    ensures
        e.timestamp_epoch_ms == timestamp_epoch_ms,
        e.event@ == "tool_execution"@,
        e.round == round,
        e.tool_name@ == request.tool_name@,
        e.status@ == "ok"@,
        e.detail@ == detail_summary(payload_markdown@, 320),
        e.request_id == request_id,
        e.scenario == scenario,
        e.model_latency_ms == Some(model_latency_ms),
        e.tool_latency_ms == Some(tool_latency_ms),
        e.args_summary matches Some(a) && a@ == args_summary(request.args@, 220),
        e.outcome_category matches Some(c) && c@ == "tool_executed"@,
{
    AiToolAuditEntry {
        timestamp_epoch_ms,
        event: owned("tool_execution"),
        round,
        tool_name: request.tool_name.clone(),
        status: owned("ok"),
        detail: summarize_tool_detail(payload_markdown, 320),
        request_id,
        scenario,
        model_latency_ms: Some(model_latency_ms),
        tool_latency_ms: Some(tool_latency_ms),
        args_summary: Some(summarize_tool_args(&request.args, 220)),
        outcome_category: Some(owned("tool_executed")),
    }
}

} // verus!
