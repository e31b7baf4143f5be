//! What the host reads out of the JSON that a VCP service answers: model and plugin lists,
//! named lists, flat metrics; and how a runtime probe and an admin snapshot are put together
//! from those answers.
use vstd::prelude::*;
use crate::sorted::{strictly_sorted, sviews, lex_lt, string_less, string_eq, lemma_lex_total, lemma_lex_transitive, lemma_lex_irreflexive};
use crate::text::{chars_of, string_of, push_str, push_all, trim, trim_chars, trimmed, lower_seq, lower_ascii, seq_eq, eq_str, owned, decimal, decimal_chars};
use crate::vcp::{dedup_string_vec, VcpPluginSummary, VcpMetricEntry, VcpAdminSnapshot, VcpRuntimeConfig, VcpHealthCategory, VcpEndpointProbe, VcpProbeReport, admin_endpoint_of, category_of, classify_http_status_to_category, normalize_vcp_admin_endpoint};
use crate::text::contains_seq;
use serde_json::Value;

verus! {

/// A JSON value. Arrays and objects also carry their compact JSON text, as the JSON library
/// that read them prints it; object entries keep the order in which that library holds them.
#[derive(Debug, PartialEq)]
pub enum JsonValue {
    Null,
    Bool(bool),
    /// A number, by its JSON text.
    Number(String),
    Str(String),
    Array { items: Vec<JsonValue>, text: String },
    Object { entries: Vec<(String, JsonValue)>, text: String },
}

// ---------------------------------------------------------------------------
// Reading a value
// ---------------------------------------------------------------------------
/// The value of the first entry named `key`.
pub open spec fn lookup(entries: Seq<(String, JsonValue)>, key: Seq<char>) -> Option<JsonValue>
    decreases entries.len(),
{
    if entries.len() == 0 {
        None
    } else if entries[0].0@ == key {
        Some(entries[0].1)
    } else {
        lookup(entries.drop_first(), key)
    }
}

/// The member `key` of an object; nothing for any other value.
pub open spec fn member(v: JsonValue, key: Seq<char>) -> Option<JsonValue> {
    match v {
        JsonValue::Object { entries, .. } => lookup(entries@, key),
        _ => None,
    }
}

pub open spec fn str_of(v: Option<JsonValue>) -> Option<Seq<char>> {
    match v {
        Some(JsonValue::Str(s)) => Some(s@),
        _ => None,
    }
}

pub open spec fn bool_of(v: Option<JsonValue>) -> Option<bool> {
    match v {
        Some(JsonValue::Bool(b)) => Some(b),
        _ => None,
    }
}

pub open spec fn array_of(v: Option<JsonValue>) -> Option<Seq<JsonValue>> {
    match v {
        Some(JsonValue::Array { items, .. }) => Some(items@),
        _ => None,
    }
}

/// The first of the members `keys` that holds a string.
pub open spec fn first_str(v: JsonValue, keys: Seq<Seq<char>>) -> Option<Seq<char>>
    decreases keys.len(),
{
    if keys.len() == 0 {
        None
    } else {
        match str_of(member(v, keys[0])) {
            Some(s) => Some(s),
            None => first_str(v, keys.drop_first()),
        }
    }
}

/// The first of the members `keys` that holds a boolean.
pub open spec fn first_bool(v: JsonValue, keys: Seq<Seq<char>>) -> Option<bool>
    decreases keys.len(),
{
    if keys.len() == 0 {
        None
    } else {
        match bool_of(member(v, keys[0])) {
            Some(b) => Some(b),
            None => first_bool(v, keys.drop_first()),
        }
    }
}

pub open spec fn key_views(keys: Seq<&str>) -> Seq<Seq<char>> {
    keys.map_values(|k: &str| k@)
}

fn lookup_entries<'a>(entries: &'a Vec<(String, JsonValue)>, key: &str) -> (r: Option<&'a JsonValue>)
    ensures
        match r {
            Some(x) => lookup(entries@, key@) == Some(*x),
            None => lookup(entries@, key@) is None,
        },
{
    let mut i: usize = 0;
    assert(entries@.skip(0) =~= entries@);
    while i < entries.len()
        invariant
            i <= entries.len(),
            lookup(entries@, key@) == lookup(entries@.skip(i as int), key@),
        decreases entries.len() - i,
    {
        assert(entries@.skip(i as int)[0] == entries@[i as int]);
        assert(entries@.skip(i as int).drop_first() =~= entries@.skip(i + 1));
        let k = chars_of(entries[i].0.as_str());
        if eq_str(&k, key) {
            return Some(&entries[i].1);
        }
        i += 1;
    }
    None
}

/// `Value::get(key)`: the member `key` of an object.
pub fn get_member<'a>(value: &'a JsonValue, key: &str) -> (r: Option<&'a JsonValue>)
    ensures
        match r {
            Some(x) => member(*value, key@) == Some(*x),
            None => member(*value, key@) is None,
        },
{
    match value {
        JsonValue::Object { entries, .. } => lookup_entries(entries, key),
        _ => None,
    }
}

fn first_str_member(value: &JsonValue, keys: &[&str]) -> (r: Option<String>)
    ensures
        match r {
            Some(s) => first_str(*value, key_views(keys@)) == Some(s@),
            None => first_str(*value, key_views(keys@)) is None,
        },
{
    let mut i: usize = 0;
    assert(key_views(keys@).skip(0) =~= key_views(keys@));
    while i < keys.len()
        invariant
            i <= keys.len(),
            first_str(*value, key_views(keys@)) == first_str(*value, key_views(keys@).skip(i as int)),
        decreases keys.len() - i,
    {
        let ghost ks = key_views(keys@);
        assert(ks.skip(i as int)[0] == keys@[i as int]@);
        assert(ks.skip(i as int).drop_first() =~= ks.skip(i + 1));
        match get_member(value, keys[i]) {
            Some(JsonValue::Str(s)) => {
                return Some(s.clone());
            },
            _ => {},
        }
        i += 1;
    }
    None
}

fn first_bool_member(value: &JsonValue, keys: &[&str]) -> (r: Option<bool>)
    ensures
        r == first_bool(*value, key_views(keys@)),
{
    let mut i: usize = 0;
    assert(key_views(keys@).skip(0) =~= key_views(keys@));
    while i < keys.len()
        invariant
            i <= keys.len(),
            first_bool(*value, key_views(keys@)) == first_bool(*value, key_views(keys@).skip(i as int)),
        decreases keys.len() - i,
    {
        let ghost ks = key_views(keys@);
        assert(ks.skip(i as int)[0] == keys@[i as int]@);
        assert(ks.skip(i as int).drop_first() =~= ks.skip(i + 1));
        match get_member(value, keys[i]) {
            Some(JsonValue::Bool(b)) => {
                return Some(*b);
            },
            _ => {},
        }
        i += 1;
    }
    None
}

// ---------------------------------------------------------------------------
// Named lists
// ---------------------------------------------------------------------------
/// The name an entry of a listing contributes: a non-blank string, trimmed; or the trimmed
/// first string among an object's `name`, `id`, `title` and `fileName`, when not blank.
pub open spec fn listed_name(item: JsonValue) -> Option<Seq<char>> {
    match item {
        JsonValue::Str(s) => if trim(s@).len() > 0 {
            Some(trim(s@))
        } else {
            None
        },
        JsonValue::Object { .. } => match first_str(item, seq!["name"@, "id"@, "title"@, "fileName"@]) {
            Some(t) => if trim(t).len() > 0 {
                Some(trim(t))
            } else {
                None
            },
            None => None,
        },
        _ => None,
    }
}

/// The names of a listing's entries, in order (blank ones and unnamed entries skipped).
pub open spec fn listed_names(items: Seq<JsonValue>) -> Seq<Seq<char>> {
    items.filter_map(|x: JsonValue| listed_name(x))
}

/// The names of the entries of `items`, sorted, each once.
pub fn normalize_string_array(items: &[JsonValue]) -> (r: Vec<String>)
    ensures
        strictly_sorted(sviews(r@)),
        forall|y: Seq<char>| sviews(r@).contains(y) <==> listed_names(items@).contains(y),
{
    let mut names: Vec<String> = Vec::new();
    let mut i: usize = 0;
    while i < items.len()
        invariant
            i <= items.len(),
            sviews(names@) == listed_names(items@.take(i as int)),
        decreases items.len() - i,
    {
        proof {
            items@.lemma_filter_map_take_succ(|x: JsonValue| listed_name(x), i as int);
        }
        let ghost before = names@;
        let item = &items[i];
        match item {
            JsonValue::Str(s) => {
                let t = trimmed(s.as_str());
                if t.len() > 0 {
                    names.push(string_of(&t));
                    assert(sviews(names@) =~= sviews(before).push(t@));
                }
            },
            JsonValue::Object { .. } => {
                let keys: [&str; 4] = ["name", "id", "title", "fileName"];
                proof {
                    reveal_strlit("name");
                    reveal_strlit("id");
                    reveal_strlit("title");
                    reveal_strlit("fileName");
                    assert(key_views(keys@) =~= seq!["name"@, "id"@, "title"@, "fileName"@]);
                }
                match first_str_member(item, &keys) {
                    Some(c) => {
                        let t = trimmed(c.as_str());
                        if t.len() > 0 {
                            names.push(string_of(&t));
                            assert(sviews(names@) =~= sviews(before).push(t@));
                        }
                    },
                    None => {},
                }
            },
            _ => {},
        }
        i += 1;
    }
    assert(items@.take(items.len() as int) =~= items@);
    let r = dedup_string_vec(&names);
    proof {
        assert forall|y: Seq<char>| sviews(r@).contains(y) <==> listed_names(items@).contains(y) by {
            assert(crate::sorted::set_of(r@).contains(y) == sviews(r@).contains(y));
            assert(crate::sorted::set_of(names@).contains(y) == sviews(names@).contains(y));
        }
    }
    r
}

/// Where a named list is read from: the first of the members `keys` that holds an array;
/// else the value itself when it is an array; else nothing.
pub open spec fn list_source(v: JsonValue, keys: Seq<Seq<char>>) -> Seq<JsonValue>
    decreases keys.len(),
{
    if keys.len() == 0 {
        match v {
            JsonValue::Array { items, .. } => items@,
            _ => Seq::empty(),
        }
    } else {
        match array_of(member(v, keys[0])) {
            Some(a) => a,
            None => list_source(v, keys.drop_first()),
        }
    }
}

/// The names listed under the first of `keys` that holds an array (or in the value itself
/// when it is an array), sorted, each once.
pub fn extract_string_list_from_value(value: &JsonValue, keys: &[&str]) -> (r: Vec<String>)
    ensures
        strictly_sorted(sviews(r@)),
        forall|y: Seq<char>|
            sviews(r@).contains(y) <==> listed_names(list_source(*value, key_views(keys@))).contains(y),
{
    let mut i: usize = 0;
    assert(key_views(keys@).skip(0) =~= key_views(keys@));
    while i < keys.len()
        invariant
            i <= keys.len(),
            list_source(*value, key_views(keys@)) == list_source(*value, key_views(keys@).skip(i as int)),
        decreases keys.len() - i,
    {
        let ghost ks = key_views(keys@);
        assert(ks.skip(i as int)[0] == keys@[i as int]@);
        assert(ks.skip(i as int).drop_first() =~= ks.skip(i + 1));
        match get_member(value, keys[i]) {
            Some(JsonValue::Array { items, .. }) => {
                return normalize_string_array(items.as_slice());
            },
            _ => {},
        }
        i += 1;
    }
    assert(key_views(keys@).skip(keys.len() as int) =~= Seq::<Seq<char>>::empty());
    match value {
        JsonValue::Array { items, .. } => normalize_string_array(items.as_slice()),
        _ => {
            let empty: Vec<JsonValue> = Vec::new();
            assert(listed_names(empty@) =~= Seq::<Seq<char>>::empty());
            normalize_string_array(empty.as_slice())
        },
    }
}

/// The `id` of an entry, when it is a string.
pub open spec fn id_of(item: JsonValue) -> Option<Seq<char>> {
    str_of(member(item, "id"@))
}

/// The model names in a models answer: the string `id`s of the entries of its `data` array,
/// when it has one; else the named list under `models` or `data`.
pub open spec fn model_names(v: JsonValue) -> Seq<Seq<char>> {
    match array_of(member(v, "data"@)) {
        Some(a) => a.filter_map(|x: JsonValue| id_of(x)),
        None => listed_names(list_source(v, seq!["models"@, "data"@])),
    }
}

/// The model names of a models answer, sorted, each once.
pub fn extract_models_from_value(value: &JsonValue) -> (r: Vec<String>)
    ensures
        strictly_sorted(sviews(r@)),
        forall|y: Seq<char>| sviews(r@).contains(y) <==> model_names(*value).contains(y),
{
    match get_member(value, "data") {
        Some(JsonValue::Array { items, .. }) => {
            let mut ids: Vec<String> = Vec::new();
            let mut i: usize = 0;
            while i < items.len()
                invariant
                    i <= items.len(),
                    sviews(ids@) == items@.take(i as int).filter_map(|x: JsonValue| id_of(x)),
                decreases items.len() - i,
            {
                proof {
                    items@.lemma_filter_map_take_succ(|x: JsonValue| id_of(x), i as int);
                }
                let ghost before = ids@;
                match get_member(&items[i], "id") {
                    Some(JsonValue::Str(s)) => {
                        ids.push(s.clone());
                        assert(sviews(ids@) =~= sviews(before).push(s@));
                    },
                    _ => {},
                }
                i += 1;
            }
            assert(items@.take(items.len() as int) =~= items@);
            let r = dedup_string_vec(&ids);
            proof {
                assert forall|y: Seq<char>| sviews(r@).contains(y) <==> model_names(*value).contains(y) by {
                    assert(crate::sorted::set_of(r@).contains(y) == sviews(r@).contains(y));
                    assert(crate::sorted::set_of(ids@).contains(y) == sviews(ids@).contains(y));
                }
            }
            r
        },
        _ => {
            let keys: [&str; 2] = ["models", "data"];
            proof {
                reveal_strlit("models");
                reveal_strlit("data");
                assert(key_views(keys@) =~= seq!["models"@, "data"@]);
            }
            extract_string_list_from_value(value, &keys)
        },
    }
}


// ---------------------------------------------------------------------------
// Plugin lists
// ---------------------------------------------------------------------------
/// Where plugins are listed: the `plugins` array, else the `data` array, else the value
/// itself when it is an array.
pub open spec fn plugin_source(v: JsonValue) -> Seq<JsonValue> {
    match array_of(member(v, "plugins"@)) {
        Some(a) => a,
        None => match array_of(member(v, "data"@)) {
            Some(a) => a,
            None => match v {
                JsonValue::Array { items, .. } => items@,
                _ => Seq::empty(),
            },
        },
    }
}

/// What an entry of a plugin listing says: a string names an enabled-unknown plugin; an
/// object names one by the first string among `name`, `id`, `pluginName`, `fileName`, with
/// the first boolean among `enabled`, `isEnabled`, `active`.
pub open spec fn plugin_entry(item: JsonValue) -> Option<(Seq<char>, Option<bool>)> {
    match item {
        JsonValue::Str(s) => Some((s@, None)),
        JsonValue::Object { .. } => match first_str(item, seq!["name"@, "id"@, "pluginName"@, "fileName"@]) {
            Some(n) => Some((n, first_bool(item, seq!["enabled"@, "isEnabled"@, "active"@]))),
            None => None,
        },
        _ => None,
    }
}

/// `x` placed into `s` after every entry whose name does not sort after its own.
pub open spec fn insert_by_name(s: Seq<(Seq<char>, Option<bool>)>, x: (Seq<char>, Option<bool>)) -> Seq<
    (Seq<char>, Option<bool>),
>
    decreases s.len(),
{
    if s.len() == 0 {
        seq![x]
    } else if lex_lt(x.0, s.last().0) {
        insert_by_name(s.drop_last(), x).push(s.last())
    } else {
        s.push(x)
    }
}

/// The entries ordered by name, entries of equal name kept in their order (a stable sort).
pub open spec fn sort_by_name(s: Seq<(Seq<char>, Option<bool>)>) -> Seq<(Seq<char>, Option<bool>)>
    decreases s.len(),
{
    if s.len() == 0 {
        s
    } else {
        insert_by_name(sort_by_name(s.drop_last()), s.last())
    }
}

/// Two names equal but for ASCII case.
pub open spec fn same_ignoring_case(a: Seq<char>, b: Seq<char>) -> bool {
    lower_seq(a) == lower_seq(b)
}

/// The entries without each one whose name equals the previous one's but for ASCII case.
pub open spec fn dedup_names(s: Seq<(Seq<char>, Option<bool>)>) -> Seq<(Seq<char>, Option<bool>)>
    decreases s.len(),
{
    if s.len() <= 1 {
        s
    } else if same_ignoring_case(s[s.len() - 2].0, s.last().0) {
        dedup_names(s.drop_last())
    } else {
        dedup_names(s.drop_last()).push(s.last())
    }
}

pub open spec fn plugin_views(v: Seq<VcpPluginSummary>) -> Seq<(Seq<char>, Option<bool>)> {
    v.map_values(|p: VcpPluginSummary| (p.name@, p.enabled))
}

/// The plugins of a plugin listing, ordered by name, repeats (up to ASCII case) dropped.
pub open spec fn plugin_list(v: JsonValue) -> Seq<(Seq<char>, Option<bool>)> {
    dedup_names(sort_by_name(plugin_source(v).filter_map(|x: JsonValue| plugin_entry(x))))
}

fn summary(name: &String, enabled: Option<bool>) -> (p: VcpPluginSummary)
    ensures
        p.name@ == name@,
        p.enabled == enabled,
{
    VcpPluginSummary { name: name.clone(), enabled }
}

fn insert_plugin(out: &mut Vec<VcpPluginSummary>, x: VcpPluginSummary)
    ensures
        plugin_views(final(out)@) == insert_by_name(plugin_views(old(out)@), (x.name@, x.enabled)),
{
    let ghost xv = (x.name@, x.enabled);
    let mut p: usize = out.len();
    let ghost s = plugin_views(out@);
    assert(s.skip(out.len() as int) =~= Seq::<(Seq<char>, Option<bool>)>::empty());
    assert(s.take(out.len() as int) =~= s);
    while p > 0 && string_less(&x.name, &out[p - 1].name)
        invariant
            xv == (x.name@, x.enabled),
            p <= out.len(),
            s == plugin_views(out@),
            insert_by_name(s, xv) == insert_by_name(s.take(p as int), xv) + s.skip(p as int),
        decreases p,
    {
        proof {
            let t = s.take(p as int);
            assert(t.last() == s[p - 1]);
            assert(s[p - 1].0 == out@[p - 1].name@);
            assert(lex_lt(xv.0, t.last().0));
            assert(t.drop_last() =~= s.take(p - 1));
            assert(insert_by_name(t, xv) == insert_by_name(s.take(p - 1), xv).push(s[p - 1]));
            assert(insert_by_name(s.take(p - 1), xv).push(s[p - 1]) + s.skip(p as int) =~= insert_by_name(
                s.take(p - 1),
                xv,
            ) + s.skip(p - 1));
        }
        p -= 1;
    }
    proof {
        let t = s.take(p as int);
        if p > 0 {
            assert(t.last() == s[p - 1]);
            assert(s[p - 1].0 == out@[p - 1].name@);
            assert(!lex_lt(xv.0, t.last().0));
            assert(insert_by_name(t, xv) == t.push(xv));
        } else {
            assert(insert_by_name(t, xv) == seq![xv]);
        }
    }
    out.insert(p, x);
    proof {
        assert(plugin_views(out@) =~= s.take(p as int).push(xv) + s.skip(p as int));
    }
}

/// The plugins of a plugin listing: by name, repeats (up to ASCII case) dropped.
pub fn extract_plugins_from_value(value: &JsonValue) -> (r: Vec<VcpPluginSummary>)
    ensures
        plugin_views(r@) == plugin_list(*value),
{
    let empty: Vec<JsonValue> = Vec::new();
    let items: &Vec<JsonValue> = match get_member(value, "plugins") {
        Some(JsonValue::Array { items, .. }) => items,
        _ => match get_member(value, "data") {
            Some(JsonValue::Array { items, .. }) => items,
            _ => match value {
                JsonValue::Array { items, .. } => items,
                _ => &empty,
            },
        },
    };
    assert(items@ == plugin_source(*value));
    let ghost f = |x: JsonValue| plugin_entry(x);
    let name_keys: [&str; 4] = ["name", "id", "pluginName", "fileName"];
    let flag_keys: [&str; 3] = ["enabled", "isEnabled", "active"];
    proof {
        reveal_strlit("name");
        reveal_strlit("id");
        reveal_strlit("pluginName");
        reveal_strlit("fileName");
        reveal_strlit("enabled");
        reveal_strlit("isEnabled");
        reveal_strlit("active");
        assert(key_views(name_keys@) =~= seq!["name"@, "id"@, "pluginName"@, "fileName"@]);
        assert(key_views(flag_keys@) =~= seq!["enabled"@, "isEnabled"@, "active"@]);
    }
    let mut listed: Vec<VcpPluginSummary> = Vec::new();
    let mut i: usize = 0;
    while i < items.len()
        invariant
            i <= items.len(),
            f == (|x: JsonValue| plugin_entry(x)),
            key_views(name_keys@) == seq!["name"@, "id"@, "pluginName"@, "fileName"@],
            key_views(flag_keys@) == seq!["enabled"@, "isEnabled"@, "active"@],
            plugin_views(listed@) == items@.take(i as int).filter_map(f),
        decreases items.len() - i,
    {
        proof {
            items@.lemma_filter_map_take_succ(f, i as int);
        }
        let ghost before = listed@;
        let item = &items[i];
        match item {
            JsonValue::Str(s) => {
                listed.push(summary(s, None));
                assert(plugin_views(listed@) =~= plugin_views(before).push((s@, None)));
            },
            JsonValue::Object { .. } => {
                match first_str_member(item, &name_keys) {
                    Some(n) => {
                        let enabled = first_bool_member(item, &flag_keys);
                        listed.push(summary(&n, enabled));
                        assert(plugin_views(listed@) =~= plugin_views(before).push((n@, enabled)));
                    },
                    None => {},
                }
            },
            _ => {},
        }
        i += 1;
    }
    assert(items@.take(items.len() as int) =~= items@);
    let ghost l = plugin_views(listed@);
    let mut sorted: Vec<VcpPluginSummary> = Vec::new();
    let mut j: usize = 0;
    while j < listed.len()
        invariant
            j <= listed.len(),
            l == plugin_views(listed@),
            plugin_views(sorted@) == sort_by_name(l.take(j as int)),
        decreases listed.len() - j,
    {
        proof {
            assert(l.take(j + 1).drop_last() =~= l.take(j as int));
            assert(l.take(j + 1).last() == l[j as int]);
        }
        insert_plugin(&mut sorted, summary(&listed[j].name, listed[j].enabled));
        j += 1;
    }
    assert(l.take(listed.len() as int) =~= l);
    let ghost t = plugin_views(sorted@);
    let mut out: Vec<VcpPluginSummary> = Vec::new();
    let mut k: usize = 0;
    while k < sorted.len()
        invariant
            k <= sorted.len(),
            t == plugin_views(sorted@),
            plugin_views(out@) == dedup_names(t.take(k as int)),
        decreases sorted.len() - k,
    {
        let ghost before = out@;
        proof {
            assert(t.take(k + 1).drop_last() =~= t.take(k as int));
            assert(t.take(k + 1).last() == t[k as int]);
        }
        let keep = if k == 0 {
            true
        } else {
            let a = lower_ascii(&chars_of(sorted[k - 1].name.as_str()));
            let b = lower_ascii(&chars_of(sorted[k].name.as_str()));
            proof {
                assert(t.take(k + 1)[k - 1] == t[k - 1]);
            }
            !seq_eq(&a, &b)
        };
        if keep {
            out.push(summary(&sorted[k].name, sorted[k].enabled));
            proof {
                if k == 0 {
                    assert(t.take(1) =~= seq![t[0]]);
                }
                assert(plugin_views(out@) =~= plugin_views(before).push(t[k as int]));
            }
        } else {
            proof {
                assert(k >= 1);
            }
        }
        k += 1;
    }
    assert(t.take(sorted.len() as int) =~= t);
    out
}

// ---------------------------------------------------------------------------
// Flat metrics
// ---------------------------------------------------------------------------
/// How a value reads as a metric: nothing for null, an empty array or an empty object;
/// `true`/`false`; a number's text; a string as it is; else the compact JSON text.
pub open spec fn metric_text(v: JsonValue) -> Seq<char> {
    match v {
        JsonValue::Null => Seq::empty(),
        JsonValue::Bool(b) => if b {
            "true"@
        } else {
            "false"@
        },
        JsonValue::Number(t) => t@,
        JsonValue::Str(s) => s@,
        JsonValue::Array { items, text } => if items@.len() == 0 {
            Seq::empty()
        } else {
            text@
        },
        JsonValue::Object { entries, text } => if entries@.len() == 0 {
            Seq::empty()
        } else {
            text@
        },
    }
}

/// The first `max` entries whose text is not blank, as (key, text) pairs.
pub open spec fn metric_pairs(entries: Seq<(String, JsonValue)>, max: nat) -> Seq<(Seq<char>, Seq<char>)>
    decreases entries.len(),
{
    if entries.len() == 0 || max == 0 {
        Seq::empty()
    } else if trim(metric_text(entries[0].1)).len() == 0 {
        metric_pairs(entries.drop_first(), max)
    } else {
        seq![(entries[0].0@, metric_text(entries[0].1))] + metric_pairs(entries.drop_first(), (max - 1) as nat)
    }
}

/// The metrics of a value: of an object, its first `max` members with a non-blank text.
pub open spec fn metrics_of(v: JsonValue, max: nat) -> Seq<(Seq<char>, Seq<char>)> {
    match v {
        JsonValue::Object { entries, .. } => metric_pairs(entries@, max),
        _ => Seq::empty(),
    }
}

pub open spec fn metric_views(v: Seq<VcpMetricEntry>) -> Seq<(Seq<char>, Seq<char>)> {
    v.map_values(|m: VcpMetricEntry| (m.key@, m.value@))
}

/// `metric_text` of a value.
pub fn stringify_json_value(value: &JsonValue) -> (s: String)
    ensures
        s@ == metric_text(*value),
{
    match value {
        JsonValue::Null => String::new(),
        JsonValue::Bool(b) => if *b {
            owned("true")
        } else {
            owned("false")
        },
        JsonValue::Number(t) => t.clone(),
        JsonValue::Str(t) => t.clone(),
        JsonValue::Array { items, text } => if items.len() == 0 {
            String::new()
        } else {
            text.clone()
        },
        JsonValue::Object { entries, text } => if entries.len() == 0 {
            String::new()
        } else {
            text.clone()
        },
    }
}

/// The first `max_entries` members of an object whose text is not blank, with their texts.
pub fn flatten_object_metrics(value: &JsonValue, max_entries: usize) -> (r: Vec<VcpMetricEntry>)
    ensures
        metric_views(r@) == metrics_of(*value, max_entries as nat),
{
    let mut out: Vec<VcpMetricEntry> = Vec::new();
    match value {
        JsonValue::Object { entries, .. } => {
            let mut i: usize = 0;
            assert(entries@.skip(0) =~= entries@);
            assert(metric_views(out@) =~= Seq::<(Seq<char>, Seq<char>)>::empty());
            while i < entries.len() && out.len() < max_entries
                invariant
                    i <= entries.len(),
                    out@.len() <= max_entries,
                    metric_views(out@) + metric_pairs(entries@.skip(i as int), (max_entries - out@.len()) as nat)
                        == metric_pairs(entries@, max_entries as nat),
                decreases entries.len() - i,
            {
                let ghost rest = entries@.skip(i as int);
                proof {
                    assert(rest[0] == entries@[i as int]);
                    assert(rest.drop_first() =~= entries@.skip(i + 1));
                }
                let text = stringify_json_value(&entries[i].1);
                let t = trim_chars(&chars_of(text.as_str()));
                if t.len() > 0 {
                    let ghost before = out@;
                    out.push(VcpMetricEntry { key: entries[i].0.clone(), value: text });
                    proof {
                        assert(metric_views(out@) =~= metric_views(before).push((entries@[i as int].0@, metric_text(entries@[i as int].1))));
                        assert(metric_views(out@) + metric_pairs(entries@.skip(i + 1), (max_entries - out@.len()) as nat)
                            =~= metric_views(before) + metric_pairs(rest, (max_entries - before.len()) as nat));
                    }
                }
                i += 1;
            }
            proof {
                if i == entries.len() {
                    assert(entries@.skip(i as int) =~= Seq::<(String, JsonValue)>::empty());
                }
                assert(metric_views(out@) + Seq::<(Seq<char>, Seq<char>)>::empty() =~= metric_views(out@));
            }
            out
        },
        _ => {
            assert(metric_views(out@) =~= Seq::<(Seq<char>, Seq<char>)>::empty());
            out
        },
    }
}


// ---------------------------------------------------------------------------
// Authorization
// ---------------------------------------------------------------------------
/// The `Authorization` value for an API key: `Bearer <key>`, the key trimmed, when not blank.
pub open spec fn bearer_of(api_key: Option<String>) -> Option<Seq<char>> {
    match api_key {
        Some(k) => if trim(k@).len() > 0 {
            Some("Bearer "@ + trim(k@))
        } else {
            None
        },
        None => None,
    }
}

/// A configured header value, trimmed, when not blank.
pub open spec fn header_of(header: Option<String>) -> Option<Seq<char>> {
    match header {
        Some(h) => if trim(h@).len() > 0 {
            Some(trim(h@))
        } else {
            None
        },
        None => None,
    }
}

pub open spec fn opt_str(o: Option<String>) -> Option<Seq<char>> {
    match o {
        Some(s) => Some(s@),
        None => None,
    }
}

pub fn bearer_authorization(api_key: &Option<String>) -> (r: Option<String>)
    ensures
        opt_str(r) == bearer_of(*api_key),
{
    match api_key {
        Some(k) => {
            let t = trimmed(k.as_str());
            if t.len() > 0 {
                let mut v = chars_of("Bearer ");
                push_all(&mut v, &t);
                Some(string_of(&v))
            } else {
                None
            }
        },
        None => None,
    }
}

pub fn admin_authorization(header: &Option<String>) -> (r: Option<String>)
    ensures
        opt_str(r) == header_of(*header),
{
    match header {
        Some(h) => {
            let t = trimmed(h.as_str());
            if t.len() > 0 {
                Some(string_of(&t))
            } else {
                None
            }
        },
        None => None,
    }
}

// ---------------------------------------------------------------------------
// Probing an endpoint
// ---------------------------------------------------------------------------
/// What probing one endpoint found, with the body of the answer when there was one.
#[derive(Clone, Debug, PartialEq, Eq)]
pub struct HttpProbeResponse {
    pub category: VcpHealthCategory,
    pub status_code: Option<u16>,
    pub detail: String,
    pub body: Option<String>,
}

/// The endpoint could not be reached: `<endpoint> (<reason>)`, the endpoint trimmed.
pub fn probe_unreachable(endpoint: &str, category: VcpHealthCategory, reason: &str) -> (r: HttpProbeResponse)
    ensures
        r.category == category,
        r.status_code is None,
        r.body is None,
        r.detail@ == trim(endpoint@) + " ("@ + reason@ + ")"@,
{
    let mut v = trimmed(endpoint);
    push_str(&mut v, " (");
    push_str(&mut v, reason);
    push_str(&mut v, ")");
    HttpProbeResponse { category, status_code: None, detail: string_of(&v), body: None }
}

/// The endpoint answered with HTTP `status`: `<endpoint> -> HTTP <status>`, classified by
/// the status.
pub fn probe_answered(endpoint: &str, status: u16, body: Option<String>) -> (r: HttpProbeResponse)
    ensures
        r.category == category_of(status),
        r.status_code == Some(status),
        r.body == body,
        r.detail@ == trim(endpoint@) + " -> HTTP "@ + decimal(status as nat),
{
    let mut v = trimmed(endpoint);
    push_str(&mut v, " -> HTTP ");
    let d = decimal_chars(status as u128);
    push_all(&mut v, &d);
    HttpProbeResponse {
        category: classify_http_status_to_category(status),
        status_code: Some(status),
        detail: string_of(&v),
        body,
    }
}

/// A failed connection or transfer: a time-out when its message says `timed out` (ASCII
/// case ignored), else a network error.
pub fn transport_failure_category(message: &str) -> (c: VcpHealthCategory)
    ensures
        c == if contains_seq(lower_seq(message@), "timed out"@) {
            VcpHealthCategory::Timeout
        } else {
            VcpHealthCategory::NetworkError
        },
{
    let lower = lower_ascii(&chars_of(message));
    let needle = chars_of("timed out");
    if crate::text::contains(&lower, &needle) {
        VcpHealthCategory::Timeout
    } else {
        VcpHealthCategory::NetworkError
    }
}

/// The value `serde_json::from_str::<Value>` reads from `text`, if it is JSON.
pub uninterp spec fn text_value(text: Seq<char>) -> Option<Value>;

/// The library's JSON value for a serde_json value, taken over variant for variant.
pub uninterp spec fn value_json(v: Value) -> JsonValue;

/// The JSON value that `text` holds, as serde_json reads it (objects with their keys in the
/// order its map keeps them), or nothing where `text` is not JSON.
pub open spec fn json_text_value(text: Seq<char>) -> Option<JsonValue> {
    match text_value(text) {
        Some(v) => Some(value_json(v)),
        None => None,
    }
}

/// `serde_json::from_str::<Value>`; the result is named by `text_value`.
#[verifier::external_body]
fn value_from_text(text: &str) -> (r: Option<Value>)
    ensures
        r == text_value(text@),
{
    serde_json::from_str::<Value>(text).ok()
}

/// The library's JSON value for `v`: null, booleans, numbers (by their text), strings,
/// arrays and objects taken over one for one, arrays and objects with the compact text
/// serde_json prints for them; the result is named by `value_json`.
#[verifier::external_body]
fn json_from_value(v: &Value) -> (r: JsonValue)
    ensures
        r == value_json(*v),
{
    match v {
        Value::Null => JsonValue::Null,
        Value::Bool(b) => JsonValue::Bool(*b),
        Value::Number(n) => JsonValue::Number(n.to_string()),
        Value::String(t) => JsonValue::Str(t.clone()),
        Value::Array(items) => {
            JsonValue::Array { items: items.iter().map(json_from_value).collect(), text: serde_json::to_string(items).unwrap_or_default() }
        },
        Value::Object(map) => JsonValue::Object {
            entries: map.iter().map(|(k, x)| (k.clone(), json_from_value(x))).collect(),
            text: serde_json::to_string(map).unwrap_or_default(),
        },
    }
}

/// The JSON value that `text` holds (see `json_text_value`).
pub fn parse_json(text: &str) -> (r: Option<JsonValue>)
    ensures
        r == json_text_value(text@),
{
    match value_from_text(text) {
        Some(v) => Some(json_from_value(&v)),
        None => None,
    }
}

/// The models a chat endpoint's answer lists: none without a body or for a body that is
/// not JSON; else those `model_names` finds, sorted, each once.
pub fn parse_models_from_json_body(body: Option<String>) -> (r: Vec<String>)
    ensures
        strictly_sorted(sviews(r@)),
        forall|y: Seq<char>|
            sviews(r@).contains(y) <==> (match body {
                Some(b) => match json_text_value(b@) {
                    Some(v) => model_names(v).contains(y),
                    None => false,
                },
                None => false,
            }),
{
    let raw = match body {
        Some(b) => b,
        None => {
            return Vec::new();
        },
    };
    match parse_json(raw.as_str()) {
        Some(v) => extract_models_from_value(&v),
        None => Vec::new(),
    }
}

/// How reading an HTTP answer failed before its body could be parsed.
#[derive(Clone, Copy, Debug, PartialEq, Eq)]
pub enum FetchFailure {
    /// The request was not answered with success.
    Request,
    /// The body could not be read as text.
    ReadBody,
}

/// What one admin endpoint answered, as the snapshot takes it: the JSON of the body, or
/// `request <endpoint>`, `read response body <endpoint>` or `parse response json <endpoint>`.
pub fn admin_answer(body: Result<String, FetchFailure>, endpoint: &str) -> (r: Result<JsonValue, String>)
    ensures
        match body {
            Err(FetchFailure::Request) => r matches Err(e) && e@ == "request "@ + endpoint@,
            Err(FetchFailure::ReadBody) => r matches Err(e) && e@ == "read response body "@ + endpoint@,
            Ok(b) => match json_text_value(b@) {
                Some(v) => r == Ok::<JsonValue, String>(v),
                None => r matches Err(e) && e@ == "parse response json "@ + endpoint@,
            },
        },
{
    let prefix = match body {
        Err(FetchFailure::Request) => "request ",
        Err(FetchFailure::ReadBody) => "read response body ",
        Ok(b) => {
            match parse_json(b.as_str()) {
                Some(v) => {
                    return Ok(v);
                },
                None => "parse response json ",
            }
        },
    };
    let mut m = chars_of(prefix);
    push_str(&mut m, endpoint);
    Err(string_of(&m))
}

/// The report of a runtime probe: the chat and admin findings, and the models listed in the
/// chat answer (see `parse_models_from_json_body`).
pub fn assemble_probe_report(chat: HttpProbeResponse, admin: HttpProbeResponse) -> (r: VcpProbeReport)
    ensures
        r.chat.category == chat.category && r.chat.status_code == chat.status_code && r.chat.detail == chat.detail,
        r.admin.category == admin.category && r.admin.status_code == admin.status_code && r.admin.detail
            == admin.detail,
        strictly_sorted(sviews(r.models@)),
        forall|y: Seq<char>|
            sviews(r.models@).contains(y) <==> (match chat.body {
                Some(b) => match json_text_value(b@) {
                    Some(v) => model_names(v).contains(y),
                    None => false,
                },
                None => false,
            }),
{
    let models = parse_models_from_json_body(chat.body);
    VcpProbeReport {
        chat: VcpEndpointProbe { category: chat.category, status_code: chat.status_code, detail: chat.detail },
        admin: VcpEndpointProbe { category: admin.category, status_code: admin.status_code, detail: admin.detail },
        models,
    }
}

// ---------------------------------------------------------------------------
// The admin snapshot
// ---------------------------------------------------------------------------
/// What each admin endpoint answered: the JSON read, or why none could be read.
pub struct VcpAdminAnswers {
    pub models: Result<JsonValue, String>,
    pub plugins: Result<JsonValue, String>,
    pub agents: Result<JsonValue, String>,
    pub rag_tags: Result<JsonValue, String>,
    pub schedules: Result<JsonValue, String>,
    pub clusters: Result<JsonValue, String>,
    pub config: Result<JsonValue, String>,
    pub vectordb: Result<JsonValue, String>,
    pub resources: Result<JsonValue, String>,
}

/// The warning for an endpoint that could not be read.
pub open spec fn warning_for(answer: Result<JsonValue, String>, label: Seq<char>) -> Seq<Seq<char>> {
    match answer {
        Ok(_) => Seq::empty(),
        Err(e) => seq![label + " endpoint failed: "@ + e@],
    }
}

/// The names listed in an answer under the first of `keys` that holds an array.
pub open spec fn answer_names(answer: Result<JsonValue, String>, keys: Seq<Seq<char>>) -> Seq<Seq<char>> {
    match answer {
        Ok(v) => listed_names(list_source(v, keys)),
        Err(_) => Seq::empty(),
    }
}

pub open spec fn answer_metrics(answer: Result<JsonValue, String>, max: nat) -> Seq<(Seq<char>, Seq<char>)> {
    match answer {
        Ok(v) => metrics_of(v, max),
        Err(_) => Seq::empty(),
    }
}

/// `v` is sorted and lists exactly the items of `items`.
pub open spec fn sorted_set_of(v: Seq<String>, items: Seq<Seq<char>>) -> bool {
    strictly_sorted(sviews(v)) && forall|y: Seq<char>| sviews(v).contains(y) <==> items.contains(y)
}

fn warn(warnings: &mut Vec<String>, answer: &Result<JsonValue, String>, label: &str)
    ensures
        sviews(final(warnings)@) == sviews(old(warnings)@) + warning_for(*answer, label@),
{
    match answer {
        Ok(_) => {
            assert(sviews(warnings@) =~= sviews(warnings@) + Seq::<Seq<char>>::empty());
        },
        Err(e) => {
            let mut v = chars_of(label);
            push_str(&mut v, " endpoint failed: ");
            push_str(&mut v, e.as_str());
            let ghost before = warnings@;
            warnings.push(string_of(&v));
            assert(sviews(warnings@) =~= sviews(before) + warning_for(*answer, label@));
        },
    }
}

fn names_of(answer: &Result<JsonValue, String>, keys: &[&str]) -> (r: Vec<String>)
    ensures
        sorted_set_of(r@, answer_names(*answer, key_views(keys@))),
{
    match answer {
        Ok(v) => extract_string_list_from_value(v, keys),
        Err(_) => Vec::new(),
    }
}

fn metrics_from(answer: &Result<JsonValue, String>, max: usize) -> (r: Vec<VcpMetricEntry>)
    ensures
        metric_views(r@) == answer_metrics(*answer, max as nat),
{
    match answer {
        Ok(v) => flatten_object_metrics(v, max),
        Err(_) => {
            let r: Vec<VcpMetricEntry> = Vec::new();
            assert(metric_views(r@) =~= Seq::<(Seq<char>, Seq<char>)>::empty());
            r
        },
    }
}

/// The admin snapshot made of the endpoints' answers: each list read from its answer
/// (sorted, each name once), the configuration metrics (or, when none, the admin endpoint
/// itself), the vector-store and system metrics, and one warning per endpoint that failed,
/// in endpoint order.
pub fn assemble_vcp_admin_snapshot(
    config: &VcpRuntimeConfig,
    generated_at_epoch_ms: u64,
    answers: &VcpAdminAnswers,
) -> (s: VcpAdminSnapshot)
    ensures
        s.generated_at_epoch_ms == generated_at_epoch_ms,
        sorted_set_of(s.models@, match answers.models {
            Ok(v) => model_names(v),
            Err(_) => Seq::empty(),
        }),
        plugin_views(s.plugins@) == (match answers.plugins {
            Ok(v) => plugin_list(v),
            Err(_) => Seq::empty(),
        }),
        sorted_set_of(s.agents@, answer_names(answers.agents, seq!["agents"@, "files"@, "data"@])),
        sorted_set_of(s.rag_tags@, answer_names(answers.rag_tags, seq!["tags"@, "rag_tags"@, "data"@])),
        sorted_set_of(s.schedules@, answer_names(answers.schedules, seq!["schedules"@, "tasks"@, "data"@])),
        sorted_set_of(
            s.clusters@,
            answer_names(answers.clusters, seq!["clusters"@, "available_clusters"@, "data"@]),
        ),
        metric_views(s.config_items@) == (if answer_metrics(answers.config, 20).len() > 0 {
            answer_metrics(answers.config, 20)
        } else {
            seq![("admin_endpoint"@, admin_endpoint_of(config.admin_endpoint@))]
        }),
        metric_views(s.system_metrics@) == answer_metrics(answers.vectordb, 10) + answer_metrics(
            answers.resources,
            20,
        ),
        sviews(s.warnings@) == warning_for(answers.models, "models"@) + warning_for(answers.plugins, "plugins"@)
            + warning_for(answers.agents, "agents"@) + warning_for(answers.rag_tags, "rag-tags"@)
            + warning_for(answers.schedules, "schedules"@) + warning_for(answers.clusters, "available-clusters"@)
            + warning_for(answers.config, "config"@) + warning_for(answers.vectordb, "vectordb"@)
            + warning_for(answers.resources, "system resources"@),
{
    let mut warnings: Vec<String> = Vec::new();
    assert(sviews(warnings@) =~= Seq::<Seq<char>>::empty());
    let models0 = match &answers.models {
        Ok(v) => extract_models_from_value(v),
        Err(_) => Vec::new(),
    };
    warn(&mut warnings, &answers.models, "models");
    let plugins = match &answers.plugins {
        Ok(v) => extract_plugins_from_value(v),
        Err(_) => Vec::new(),
    };
    warn(&mut warnings, &answers.plugins, "plugins");
    let k_agents: [&str; 3] = ["agents", "files", "data"];
    let k_tags: [&str; 3] = ["tags", "rag_tags", "data"];
    let k_schedules: [&str; 3] = ["schedules", "tasks", "data"];
    let k_clusters: [&str; 3] = ["clusters", "available_clusters", "data"];
    proof {
        assert(key_views(k_agents@) =~= seq!["agents"@, "files"@, "data"@]);
        assert(key_views(k_tags@) =~= seq!["tags"@, "rag_tags"@, "data"@]);
        assert(key_views(k_schedules@) =~= seq!["schedules"@, "tasks"@, "data"@]);
        assert(key_views(k_clusters@) =~= seq!["clusters"@, "available_clusters"@, "data"@]);
    }
    let agents0 = names_of(&answers.agents, &k_agents);
    warn(&mut warnings, &answers.agents, "agents");
    let tags0 = names_of(&answers.rag_tags, &k_tags);
    warn(&mut warnings, &answers.rag_tags, "rag-tags");
    let schedules0 = names_of(&answers.schedules, &k_schedules);
    warn(&mut warnings, &answers.schedules, "schedules");
    let clusters0 = names_of(&answers.clusters, &k_clusters);
    warn(&mut warnings, &answers.clusters, "available-clusters");
    let mut config_items = metrics_from(&answers.config, 20);
    warn(&mut warnings, &answers.config, "config");
    let mut system_metrics = metrics_from(&answers.vectordb, 10);
    warn(&mut warnings, &answers.vectordb, "vectordb");
    let more = metrics_from(&answers.resources, 20);
    warn(&mut warnings, &answers.resources, "system resources");
    let ghost sys0 = metric_views(system_metrics@);
    let mut i: usize = 0;
    while i < more.len()
        invariant
            i <= more.len(),
            metric_views(system_metrics@) == sys0 + metric_views(more@).take(i as int),
        decreases more.len() - i,
    {
        let ghost before = system_metrics@;
        system_metrics.push(VcpMetricEntry { key: more[i].key.clone(), value: more[i].value.clone() });
        proof {
            assert(metric_views(system_metrics@) =~= metric_views(before).push((more@[i as int].key@, more@[i as int].value@)));
            assert(metric_views(more@).take(i + 1) =~= metric_views(more@).take(i as int).push((more@[i as int].key@, more@[i as int].value@)));
        }
        i += 1;
    }
    assert(metric_views(more@).take(more.len() as int) =~= metric_views(more@));
    if config_items.len() == 0 {
        let ghost before = config_items@;
        config_items.push(VcpMetricEntry {
            key: owned("admin_endpoint"),
            value: normalize_vcp_admin_endpoint(config.admin_endpoint.as_str()),
        });
        assert(metric_views(config_items@) =~= seq![("admin_endpoint"@, admin_endpoint_of(config.admin_endpoint@))]);
    }
    let models = dedup_string_vec(&models0);
    let agents = dedup_string_vec(&agents0);
    let rag_tags = dedup_string_vec(&tags0);
    let schedules = dedup_string_vec(&schedules0);
    let clusters = dedup_string_vec(&clusters0);
    proof {
        assert forall|y: Seq<char>| sviews(models@).contains(y) <==> sviews(models0@).contains(y) by {
            assert(crate::sorted::set_of(models@).contains(y) == sviews(models@).contains(y));
            assert(crate::sorted::set_of(models0@).contains(y) == sviews(models0@).contains(y));
        }
        assert forall|y: Seq<char>| sviews(agents@).contains(y) <==> sviews(agents0@).contains(y) by {
            assert(crate::sorted::set_of(agents@).contains(y) == sviews(agents@).contains(y));
            assert(crate::sorted::set_of(agents0@).contains(y) == sviews(agents0@).contains(y));
        }
        assert forall|y: Seq<char>| sviews(rag_tags@).contains(y) <==> sviews(tags0@).contains(y) by {
            assert(crate::sorted::set_of(rag_tags@).contains(y) == sviews(rag_tags@).contains(y));
            assert(crate::sorted::set_of(tags0@).contains(y) == sviews(tags0@).contains(y));
        }
        assert forall|y: Seq<char>| sviews(schedules@).contains(y) <==> sviews(schedules0@).contains(y) by {
            assert(crate::sorted::set_of(schedules@).contains(y) == sviews(schedules@).contains(y));
            assert(crate::sorted::set_of(schedules0@).contains(y) == sviews(schedules0@).contains(y));
        }
        assert forall|y: Seq<char>| sviews(clusters@).contains(y) <==> sviews(clusters0@).contains(y) by {
            assert(crate::sorted::set_of(clusters@).contains(y) == sviews(clusters@).contains(y));
            assert(crate::sorted::set_of(clusters0@).contains(y) == sviews(clusters0@).contains(y));
        }
        if answers.plugins is Err {
            assert(plugin_views(plugins@) =~= Seq::<(Seq<char>, Option<bool>)>::empty());
        }
    }
    VcpAdminSnapshot {
        generated_at_epoch_ms,
        models,
        agents,
        plugins,
        rag_tags,
        schedules,
        clusters,
        config_items,
        system_metrics,
        warnings,
    }
}

} // verus!
