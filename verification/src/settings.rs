//! Application settings: their defaults, how a project's settings overlay the user's, and
//! what the keymap and the plugin policy are made from them.
use vstd::prelude::*;
use crate::keybind::{Keymap, override_views, overrides_result, default_bindings, plain_override_views, contextual_override_views};
use crate::command::command_order;
use crate::plugin::PluginPolicy;
use crate::sorted::{keys_sorted, map_of, key_views, sviews, lemma_map_of_at, lemma_map_of_has, key_index, map_insert, string_eq};
use crate::text::{owned, trim, is_blank};

verus! {

#[derive(Clone, Debug, PartialEq, Eq)]
pub struct KeymapRule {
    pub command: String,
    pub chord: String,
    pub when: String,
}

#[derive(Clone, Debug, PartialEq, Eq)]
pub struct AppPluginPolicy {
    pub allow_network: bool,
    pub max_failed_activations: u32,
    pub activation_timeout_ms: u64,
    pub runtime_mode: String,
}

#[derive(Clone, Debug, PartialEq, Eq)]
pub struct AppearanceSettings {
    pub theme: String,
    pub accent: String,
}

#[derive(Clone, Debug, PartialEq, Eq)]
pub struct EditorSettings {
    pub autosave_delay_ms: u64,
}

#[derive(Clone, Debug, PartialEq, Eq)]
pub struct FilesLinksSettings {
    pub external_sync: bool,
    pub prefer_wikilink_titles: bool,
}

/// All settings. `keymap_overrides` maps command names to chords, kept sorted by command.
#[derive(Clone, Debug, PartialEq, Eq)]
pub struct AppSettings {
    pub schema_version: u32,
    pub locale: String,
    pub appearance: AppearanceSettings,
    pub editor: EditorSettings,
    pub files_links: FilesLinksSettings,
    pub bookmarked_notes: Vec<String>,
    pub keymap_overrides: Vec<(String, String)>,
    pub keymap_contextual: Vec<KeymapRule>,
    pub plugin_policy: AppPluginPolicy,
}

pub open spec fn rule_views(v: Seq<KeymapRule>) -> Seq<(Seq<char>, Seq<char>, Seq<char>)> {
    v.map_values(|r: KeymapRule| (r.command@, r.chord@, r.when@))
}

impl Default for AppearanceSettings {
    fn default() -> (a: AppearanceSettings)
        ensures
            a.theme@ == "light"@,
            a.accent@ == "default"@,
    {
        AppearanceSettings { theme: owned("light"), accent: owned("default") }
    }
}

impl Default for EditorSettings {
    fn default() -> (e: EditorSettings)
        ensures
            e.autosave_delay_ms == 500,
    {
        EditorSettings { autosave_delay_ms: 500 }
    }
}

impl Default for FilesLinksSettings {
    fn default() -> (f: FilesLinksSettings)
        ensures
            f.external_sync && f.prefer_wikilink_titles,
    {
        FilesLinksSettings { external_sync: true, prefer_wikilink_titles: true }
    }
}

impl Default for AppPluginPolicy {
    fn default() -> (p: AppPluginPolicy)
        ensures
            !p.allow_network,
            p.max_failed_activations == 3,
            p.activation_timeout_ms == 2000,
            p.runtime_mode@ == "in_process"@,
    {
        AppPluginPolicy {
            allow_network: false,
            max_failed_activations: 3,
            activation_timeout_ms: 2000,
            runtime_mode: owned("in_process"),
        }
    }
}

impl Default for AppSettings {
    fn default() -> (s: AppSettings)
        ensures
            s.wf(),
            s.schema_version == 1,
            s.locale@ == "en-US"@,
            s.appearance.theme@ == "light"@,
            s.appearance.accent@ == "default"@,
            s.editor.autosave_delay_ms == 500,
            s.files_links.external_sync && s.files_links.prefer_wikilink_titles,
            s.bookmarked_notes@.len() == 0,
            s.keymap_overrides@.len() == 0,
            s.keymap_contextual@.len() == 0,
            !s.plugin_policy.allow_network,
            s.plugin_policy.max_failed_activations == 3,
            s.plugin_policy.activation_timeout_ms == 2000,
            s.plugin_policy.runtime_mode@ == "in_process"@,
    {
        AppSettings {
            schema_version: 1,
            locale: owned("en-US"),
            appearance: AppearanceSettings::default(),
            editor: EditorSettings::default(),
            files_links: FilesLinksSettings::default(),
            bookmarked_notes: Vec::new(),
            keymap_overrides: Vec::new(),
            keymap_contextual: Vec::new(),
            plugin_policy: AppPluginPolicy::default(),
        }
    }
}

/// `base` followed by the entries of `extra` that it does not hold yet, in order.
pub open spec fn merged_bookmarks(base: Seq<Seq<char>>, extra: Seq<Seq<char>>) -> Seq<Seq<char>>
    decreases extra.len(),
{
    if extra.len() == 0 {
        base
    } else {
        let m = merged_bookmarks(base, extra.drop_last());
        if m.contains(extra.last()) {
            m
        } else {
            m.push(extra.last())
        }
    }
}

fn copy_strings(v: &Vec<String>) -> (r: Vec<String>)
    ensures
        r@ == v@,
{
    let mut r: Vec<String> = Vec::new();
    let mut i: usize = 0;
    while i < v.len()
        invariant
            i <= v.len(),
            r@ == v@.take(i as int),
        decreases v.len() - i,
    {
        r.push(v[i].clone());
        assert(v@.take(i + 1) =~= v@.take(i as int).push(v@[i as int]));
        i += 1;
    }
    assert(v@.take(v.len() as int) =~= v@);
    r
}

fn copy_pairs(v: &Vec<(String, String)>) -> (r: Vec<(String, String)>)
    ensures
        r@ == v@,
{
    let mut r: Vec<(String, String)> = Vec::new();
    let mut i: usize = 0;
    while i < v.len()
        invariant
            i <= v.len(),
            r@ == v@.take(i as int),
        decreases v.len() - i,
    {
        r.push((v[i].0.clone(), v[i].1.clone()));
        assert(v@.take(i + 1) =~= v@.take(i as int).push(v@[i as int]));
        i += 1;
    }
    assert(v@.take(v.len() as int) =~= v@);
    r
}

fn copy_rules(v: &Vec<KeymapRule>) -> (r: Vec<KeymapRule>)
    ensures
        rule_views(r@) == rule_views(v@),
{
    let mut r: Vec<KeymapRule> = Vec::new();
    let mut i: usize = 0;
    while i < v.len()
        invariant
            i <= v.len(),
            rule_views(r@) == rule_views(v@.take(i as int)),
        decreases v.len() - i,
    {
        let ghost before = r@;
        r.push(KeymapRule { command: v[i].command.clone(), chord: v[i].chord.clone(), when: v[i].when.clone() });
        assert(rule_views(r@) =~= rule_views(before).push(rule_views(v@)[i as int]));
        assert(rule_views(v@.take(i + 1)) =~= rule_views(v@.take(i as int)).push(rule_views(v@)[i as int]));
        i += 1;
    }
    assert(v@.take(v.len() as int) =~= v@);
    r
}

fn append_rules(out: &mut Vec<KeymapRule>, v: &Vec<KeymapRule>)
    ensures
        rule_views(final(out)@) == rule_views(old(out)@) + rule_views(v@),
{
    let mut i: usize = 0;
    assert(rule_views(v@).take(0) =~= Seq::<(Seq<char>, Seq<char>, Seq<char>)>::empty());
    assert(rule_views(out@) =~= rule_views(old(out)@) + rule_views(v@).take(0));
    while i < v.len()
        invariant
            i <= v.len(),
            rule_views(out@) == rule_views(old(out)@) + rule_views(v@).take(i as int),
        decreases v.len() - i,
    {
        let ghost before = out@;
        out.push(KeymapRule { command: v[i].command.clone(), chord: v[i].chord.clone(), when: v[i].when.clone() });
        assert(rule_views(out@) =~= rule_views(before).push(rule_views(v@)[i as int]));
        assert(rule_views(v@).take(i + 1) =~= rule_views(v@).take(i as int).push(rule_views(v@)[i as int]));
        i += 1;
    }
    assert(rule_views(v@).take(v.len() as int) =~= rule_views(v@));
}

fn contains_string(v: &Vec<String>, x: &String) -> (b: bool)
    ensures
        b == sviews(v@).contains(x@),
{
    let mut i: usize = 0;
    while i < v.len()
        invariant
            i <= v.len(),
            forall|k: int| 0 <= k < i ==> v@[k]@ != x@,
        decreases v.len() - i,
    {
        if string_eq(&v[i], x) {
            assert(sviews(v@)[i as int] == x@);
            return true;
        }
        i += 1;
    }
    proof {
        if sviews(v@).contains(x@) {
            let k = choose|k: int| 0 <= k < v.len() && sviews(v@)[k] == x@;
        }
    }
    false
}

impl AppSettings {
    /// The command overrides are kept sorted by command, each command once.
    pub open spec fn wf(&self) -> bool {
        keys_sorted(self.keymap_overrides@)
    }

    /// The plugin policy the settings ask for, with at least one allowed failure and at
    /// least 10 ms per activation.
    pub fn to_plugin_policy(&self) -> (p: PluginPolicy)
        ensures
            p.allow_network == self.plugin_policy.allow_network,
            p.max_failed_activations == if self.plugin_policy.max_failed_activations >= 1 {
                self.plugin_policy.max_failed_activations
            } else {
                1
            },
            p.activation_timeout_ms == if self.plugin_policy.activation_timeout_ms >= 10 {
                self.plugin_policy.activation_timeout_ms
            } else {
                10
            },
    {
        PluginPolicy {
            allow_network: self.plugin_policy.allow_network,
            max_failed_activations: if self.plugin_policy.max_failed_activations >= 1 {
                self.plugin_policy.max_failed_activations
            } else {
                1
            },
            activation_timeout_ms: if self.plugin_policy.activation_timeout_ms >= 10 {
                self.plugin_policy.activation_timeout_ms
            } else {
                10
            },
        }
    }

    /// The default keymap with the command overrides applied (in command order, above the
    /// defaults), then the contextual rules at priority 120. The first invalid entry fails.
    pub fn build_keymap(&self) -> (r: Result<Keymap, String>)
        ensures
            ({
                let plain = self.keymap_overrides@.map_values(|p: (String, String)| (p.0@, p.1@, None::<Seq<char>>));
                let (k1, e1) = overrides_result(default_bindings(command_order().len()), plain, 100, true);
                let ctx = rule_views(self.keymap_contextual@).map_values(|r: (Seq<char>, Seq<char>, Seq<char>)| (r.0, r.1, Some(r.2)));
                let (k2, e2) = overrides_result(k1, ctx, 120, false);
                match e1 {
                    Some(m) => r matches Err(e) && e@ == m,
                    None => match e2 {
                        Some(m) => r matches Err(e) && e@ == m,
                        None => r matches Ok(k) && k.bindings() == k2,
                    },
                }
            }),
    {
        let mut keymap = Keymap::default_keymap();
        let mut plain: Vec<(&str, &str)> = Vec::new();
        let mut i: usize = 0;
        while i < self.keymap_overrides.len()
            invariant
                i <= self.keymap_overrides.len(),
                plain_override_views(plain@) == self.keymap_overrides@.take(i as int).map_values(
                    |p: (String, String)| (p.0@, p.1@, None::<Seq<char>>),
                ),
            decreases self.keymap_overrides.len() - i,
        {
            let ghost before = plain@;
            plain.push((self.keymap_overrides[i].0.as_str(), self.keymap_overrides[i].1.as_str()));
            assert(plain_override_views(plain@) =~= plain_override_views(before).push(
                (self.keymap_overrides@[i as int].0@, self.keymap_overrides@[i as int].1@, None::<Seq<char>>),
            ));
            assert(self.keymap_overrides@.take(i + 1).map_values(|p: (String, String)| (p.0@, p.1@, None::<Seq<char>>))
                =~= self.keymap_overrides@.take(i as int).map_values(|p: (String, String)| (p.0@, p.1@, None::<Seq<char>>)).push(
                (self.keymap_overrides@[i as int].0@, self.keymap_overrides@[i as int].1@, None::<Seq<char>>),
            ));
            i += 1;
        }
        assert(self.keymap_overrides@.take(self.keymap_overrides.len() as int) =~= self.keymap_overrides@);
        match keymap.apply_overrides(plain) {
            Ok(()) => {},
            Err(e) => {
                return Err(e);
            },
        }
        let mut rules: Vec<(&str, &str, &str)> = Vec::new();
        let mut j: usize = 0;
        let ghost rv = rule_views(self.keymap_contextual@);
        while j < self.keymap_contextual.len()
            invariant
                j <= self.keymap_contextual.len(),
                rv == rule_views(self.keymap_contextual@),
                contextual_override_views(rules@) == rv.take(j as int).map_values(
                    |r: (Seq<char>, Seq<char>, Seq<char>)| (r.0, r.1, Some(r.2)),
                ),
            decreases self.keymap_contextual.len() - j,
        {
            let ghost before = rules@;
            let rule = &self.keymap_contextual[j];
            rules.push((rule.command.as_str(), rule.chord.as_str(), rule.when.as_str()));
            assert(rv[j as int] == (rule.command@, rule.chord@, rule.when@));
            assert(contextual_override_views(rules@) =~= contextual_override_views(before).push(
                (rule.command@, rule.chord@, Some(rule.when@)),
            ));
            assert(rv.take(j + 1).map_values(|r: (Seq<char>, Seq<char>, Seq<char>)| (r.0, r.1, Some(r.2)))
                =~= rv.take(j as int).map_values(|r: (Seq<char>, Seq<char>, Seq<char>)| (r.0, r.1, Some(r.2))).push(
                (rule.command@, rule.chord@, Some(rule.when@)),
            ));
            j += 1;
        }
        assert(rv.take(self.keymap_contextual.len() as int) =~= rv);
        match keymap.apply_contextual_overrides(rules, 120) {
            Ok(()) => Ok(keymap),
            Err(e) => Err(e),
        }
    }

    /// `overlay` laid over these settings: the higher schema version; non-blank texts of the
    /// overlay win; its editor delay (at least 100 ms), link options and plugin policy win;
    /// its bookmarks are appended where new; its command overrides win; its contextual rules
    /// are appended.
    pub fn merge_overlay(&self, overlay: &AppSettings) -> (m: AppSettings)
        requires
            self.wf(),
            overlay.wf(),
        ensures
            m.wf(),
            m.schema_version == if self.schema_version >= overlay.schema_version {
                self.schema_version
            } else {
                overlay.schema_version
            },
            m.locale@ == if trim(overlay.locale@).len() > 0 { overlay.locale@ } else { self.locale@ },
            m.appearance.theme@ == if trim(overlay.appearance.theme@).len() > 0 {
                overlay.appearance.theme@
            } else {
                self.appearance.theme@
            },
            m.appearance.accent@ == if trim(overlay.appearance.accent@).len() > 0 {
                overlay.appearance.accent@
            } else {
                self.appearance.accent@
            },
            m.editor.autosave_delay_ms == if overlay.editor.autosave_delay_ms >= 100 {
                overlay.editor.autosave_delay_ms
            } else {
                100
            },
            m.files_links == overlay.files_links,
            sviews(m.bookmarked_notes@) == merged_bookmarks(sviews(self.bookmarked_notes@), sviews(overlay.bookmarked_notes@)),
            map_of(m.keymap_overrides@) == map_of(self.keymap_overrides@).union_prefer_right(map_of(overlay.keymap_overrides@)),
            rule_views(m.keymap_contextual@) == rule_views(self.keymap_contextual@) + rule_views(overlay.keymap_contextual@),
            m.plugin_policy.allow_network == overlay.plugin_policy.allow_network,
            m.plugin_policy.max_failed_activations == overlay.plugin_policy.max_failed_activations,
            m.plugin_policy.activation_timeout_ms == overlay.plugin_policy.activation_timeout_ms,
            m.plugin_policy.runtime_mode@ == overlay.plugin_policy.runtime_mode@,
    {
        let schema_version = if self.schema_version >= overlay.schema_version {
            self.schema_version
        } else {
            overlay.schema_version
        };
        let locale = if !is_blank(overlay.locale.as_str()) {
            overlay.locale.clone()
        } else {
            self.locale.clone()
        };
        let theme = if !is_blank(overlay.appearance.theme.as_str()) {
            overlay.appearance.theme.clone()
        } else {
            self.appearance.theme.clone()
        };
        let accent = if !is_blank(overlay.appearance.accent.as_str()) {
            overlay.appearance.accent.clone()
        } else {
            self.appearance.accent.clone()
        };
        let delay = if overlay.editor.autosave_delay_ms >= 100 {
            overlay.editor.autosave_delay_ms
        } else {
            100
        };
        let mut bookmarks = copy_strings(&self.bookmarked_notes);
        let ghost base = sviews(self.bookmarked_notes@);
        let ghost extra = sviews(overlay.bookmarked_notes@);
        let mut i: usize = 0;
        assert(extra.take(0) =~= Seq::<Seq<char>>::empty());
        while i < overlay.bookmarked_notes.len()
            invariant
                i <= overlay.bookmarked_notes.len(),
                base == sviews(self.bookmarked_notes@),
                extra == sviews(overlay.bookmarked_notes@),
                sviews(bookmarks@) == merged_bookmarks(base, extra.take(i as int)),
            decreases overlay.bookmarked_notes.len() - i,
        {
            proof {
                assert(extra.take(i + 1).drop_last() =~= extra.take(i as int));
                assert(extra.take(i + 1).last() == overlay.bookmarked_notes@[i as int]@);
            }
            let note = &overlay.bookmarked_notes[i];
            if !contains_string(&bookmarks, note) {
                let ghost before = bookmarks@;
                bookmarks.push(note.clone());
                assert(sviews(bookmarks@) =~= sviews(before).push(note@));
            }
            i += 1;
        }
        assert(extra.take(overlay.bookmarked_notes.len() as int) =~= extra);
        let mut overrides = copy_pairs(&self.keymap_overrides);
        let ghost left = map_of(self.keymap_overrides@);
        let ghost right = map_of(overlay.keymap_overrides@);
        let mut j: usize = 0;
        assert(overlay.keymap_overrides@.take(0) =~= Seq::<(String, String)>::empty());
        assert(map_of(overlay.keymap_overrides@.take(0)) =~= Map::empty());
        assert(left.union_prefer_right(Map::empty()) =~= left);
        while j < overlay.keymap_overrides.len()
            invariant
                j <= overlay.keymap_overrides.len(),
                keys_sorted(overrides@),
                keys_sorted(overlay.keymap_overrides@),
                left == map_of(self.keymap_overrides@),
                right == map_of(overlay.keymap_overrides@),
                forall|k: Seq<char>| #[trigger] map_of(overrides@).contains_key(k) <==> (left.contains_key(k) || exists|a: int| 0 <= a < j && overlay.keymap_overrides@[a].0@ == k),
                forall|k: Seq<char>| #[trigger] map_of(overrides@).contains_key(k) ==> map_of(overrides@)[k] == (if exists|a: int| 0 <= a < j && overlay.keymap_overrides@[a].0@ == k {
                    right[k]
                } else {
                    left[k]
                }),
            decreases overlay.keymap_overrides.len() - j,
        {
            let ghost before = map_of(overrides@);
            let k = overlay.keymap_overrides[j].0.clone();
            let v = overlay.keymap_overrides[j].1.clone();
            proof {
                lemma_map_of_at(overlay.keymap_overrides@, j as int);
            }
            map_insert(&mut overrides, k, v);
            proof {
                let kj = overlay.keymap_overrides@[j as int].0@;
                assert forall|kk: Seq<char>| #[trigger] map_of(overrides@).contains_key(kk) implies map_of(overrides@)[kk] == (if exists|a: int| 0 <= a < j + 1 && overlay.keymap_overrides@[a].0@ == kk {
                    right[kk]
                } else {
                    left[kk]
                }) by {
                    if kk == kj {
                        assert(overlay.keymap_overrides@[j as int].0@ == kk);
                    } else {
                        if exists|a: int| 0 <= a < j + 1 && overlay.keymap_overrides@[a].0@ == kk {
                            let a = choose|a: int| 0 <= a < j + 1 && overlay.keymap_overrides@[a].0@ == kk;
                            assert(a != j);
                        }
                    }
                }
                assert forall|kk: Seq<char>| #[trigger] map_of(overrides@).contains_key(kk) <==> (left.contains_key(kk) || exists|a: int| 0 <= a < j + 1 && overlay.keymap_overrides@[a].0@ == kk) by {
                    if kk == kj {
                        assert(overlay.keymap_overrides@[j as int].0@ == kk);
                    } else {
                        if exists|a: int| 0 <= a < j + 1 && overlay.keymap_overrides@[a].0@ == kk {
                            let a = choose|a: int| 0 <= a < j + 1 && overlay.keymap_overrides@[a].0@ == kk;
                            assert(a != j);
                        }
                    }
                }
            }
            j += 1;
        }
        proof {
            let mo = map_of(overrides@);
            assert forall|k: Seq<char>| (exists|a: int| 0 <= a < overlay.keymap_overrides.len() && overlay.keymap_overrides@[a].0@ == k) <==> right.contains_key(k) by {
                if right.contains_key(k) {
                    lemma_map_of_has(overlay.keymap_overrides@, k);
                }
                if exists|a: int| 0 <= a < overlay.keymap_overrides.len() && overlay.keymap_overrides@[a].0@ == k {
                    let a = choose|a: int| 0 <= a < overlay.keymap_overrides.len() && overlay.keymap_overrides@[a].0@ == k;
                    lemma_map_of_at(overlay.keymap_overrides@, a);
                }
            }
            assert(mo =~= left.union_prefer_right(right));
        }
        let mut contextual = copy_rules(&self.keymap_contextual);
        append_rules(&mut contextual, &overlay.keymap_contextual);
        AppSettings {
            schema_version,
            locale,
            appearance: AppearanceSettings { theme, accent },
            editor: EditorSettings { autosave_delay_ms: delay },
            files_links: FilesLinksSettings {
                external_sync: overlay.files_links.external_sync,
                prefer_wikilink_titles: overlay.files_links.prefer_wikilink_titles,
            },
            bookmarked_notes: bookmarks,
            keymap_overrides: overrides,
            keymap_contextual: contextual,
            plugin_policy: AppPluginPolicy {
                allow_network: overlay.plugin_policy.allow_network,
                max_failed_activations: overlay.plugin_policy.max_failed_activations,
                activation_timeout_ms: overlay.plugin_policy.activation_timeout_ms,
                runtime_mode: overlay.plugin_policy.runtime_mode.clone(),
            },
        }
    }
}

} // verus!
