//! Interface texts in English and Simplified Chinese, looked up by key.
use vstd::prelude::*;
use crate::text::{chars_of, string_of, trim, trimmed, lower_seq, lower_ascii, eq_str, owned};

verus! {

#[derive(Clone, Copy, Debug, PartialEq, Eq, Structural)]
pub enum Locale {
    EnUs,
    ZhCn,
}

impl Locale {
    /// The locale a tag names (`en`, `en-us`, `zh`, `zh-cn`, in any ASCII case, surrounding
    /// whitespace aside).
    pub fn from_tag(input: &str) -> (r: Option<Locale>)
        ensures
            r == (if lower_seq(trim(input@)) == "en"@ || lower_seq(trim(input@)) == "en-us"@ {
                Some(Locale::EnUs)
            } else if lower_seq(trim(input@)) == "zh"@ || lower_seq(trim(input@)) == "zh-cn"@ {
                Some(Locale::ZhCn)
            } else {
                None
            }),
    {
        let t = trimmed(input);
        let l = lower_ascii(&t);
        if eq_str(&l, "en") || eq_str(&l, "en-us") {
            Some(Locale::EnUs)
        } else if eq_str(&l, "zh") || eq_str(&l, "zh-cn") {
            Some(Locale::ZhCn)
        } else {
            None
        }
    }

    pub fn as_tag(self) -> (s: &'static str)
        ensures
            s@ == (match self {
                Locale::EnUs => "en-US"@,
                Locale::ZhCn => "zh-CN"@,
            }),
    {
        match self {
            Locale::EnUs => "en-US",
            Locale::ZhCn => "zh-CN",
        }
    }
}

pub open spec fn table_views(v: Seq<(&'static str, &'static str)>) -> Seq<(Seq<char>, Seq<char>)> {
    v.map_values(|e: (&'static str, &'static str)| (e.0@, e.1@))
}

/// The text of `key` in a table; a later entry for the same key wins.
pub open spec fn table_lookup(t: Seq<(Seq<char>, Seq<char>)>, key: Seq<char>) -> Option<Seq<char>>
    decreases t.len(),
{
    if t.len() == 0 {
        None
    } else if t.last().0 == key {
        Some(t.last().1)
    } else {
        table_lookup(t.drop_last(), key)
    }
}

fn lookup(t: &Vec<(&'static str, &'static str)>, key: &[char]) -> (r: Option<&'static str>)
    ensures
        match table_lookup(table_views(t@), key@) {
            Some(v) => r matches Some(s) && s@ == v,
            None => r is None,
        },
{
    let ghost tv = table_views(t@);
    let mut i = t.len();
    assert(tv.take(i as int) =~= tv);
    while i > 0
        invariant
            i <= t.len(),
            tv == table_views(t@),
            table_lookup(tv, key@) == table_lookup(tv.take(i as int), key@),
        decreases i,
    {
        proof {
            assert(tv.take(i as int).drop_last() =~= tv.take(i - 1));
            assert(tv.take(i as int).last() == (t@[i - 1].0@, t@[i - 1].1@));
        }
        if eq_str(key, t[i - 1].0) {
            return Some(t[i - 1].1);
        }
        i -= 1;
    }
    None
}

fn append_table(out: &mut Vec<(&'static str, &'static str)>, more: Vec<(&'static str, &'static str)>)
    ensures
        table_views(final(out)@) == table_views(old(out)@) + table_views(more@),
{
    let mut more = more;
    let ghost a = table_views(out@);
    let ghost b = table_views(more@);
    out.append(&mut more);
    assert(table_views(out@) =~= a + b);
}

pub open spec fn en_us_table_0() -> Seq<(Seq<char>, Seq<char>)> {
    seq![
        ("cmd.open_vault.label"@, "Open vault"@),
        ("cmd.open_vault.detail"@, "Choose a folder as a vault"@),
        ("cmd.open_vault_in_new_window.label"@, "Open vault in new window"@),
        ("cmd.open_vault_in_new_window.detail"@, "Choose a folder and open it in a new app window"@),
        ("cmd.quick_open.label"@, "Quick Open"@),
        ("cmd.quick_open.detail"@, "Search and open a note by path"@),
        ("cmd.command_palette.label"@, "Command palette"@),
        ("cmd.command_palette.detail"@, "Search and run commands"@),
        ("cmd.settings.label"@, "Settings"@),
        ("cmd.settings.detail"@, "Preferences, hotkeys, and more"@),
        ("cmd.reload_vault.label"@, "Reload vault"@),
        ("cmd.reload_vault.detail"@, "Rescan notes and apply folder order"@),
        ("cmd.new_note.label"@, "New note"@),
        ("cmd.new_note.detail"@, "Create a note in the selected folder"@),
        ("cmd.save_file.label"@, "Save file"@),
        ("cmd.save_file.detail"@, "Write the current note to disk"@),
        ("cmd.undo.label"@, "Undo"@),
        ("cmd.undo.detail"@, "Undo the last edit operation"@),
        ("cmd.redo.label"@, "Redo"@),
        ("cmd.redo.detail"@, "Redo the last undone edit operation"@),
        ("cmd.toggle_split.label"@, "Toggle split"@),
        ("cmd.toggle_split.detail"@, "Split the editor view"@),
        ("cmd.focus_explorer.label"@, "Explorer"@),
        ("cmd.focus_explorer.detail"@, "Show Explorer panel"@),
        ("cmd.focus_search.label"@, "Search"@),
    ]
}

pub open spec fn en_us_table_1() -> Seq<(Seq<char>, Seq<char>)> {
    seq![
        ("cmd.focus_search.detail"@, "Show Search panel"@),
        ("cmd.ai_rewrite_selection.label"@, "AI: Rewrite Selection"@),
        ("cmd.ai_rewrite_selection.detail"@, "Draft a rewrite proposal for selected text"@),
        ("settings.title"@, "Settings"@),
        ("settings.nav.about"@, "About"@),
        ("settings.nav.appearance"@, "Appearance"@),
        ("settings.nav.editor"@, "Editor"@),
        ("settings.nav.ai"@, "AI"@),
        ("settings.nav.files"@, "Files & Links"@),
        ("settings.nav.hotkeys"@, "Hotkeys"@),
        ("settings.nav.advanced"@, "Advanced"@),
        ("settings.theme.dark"@, "Dark"@),
        ("settings.theme.light"@, "Light"@),
        ("settings.accent.default"@, "Default"@),
        ("settings.accent.blue"@, "Blue"@),
        ("settings.section.language"@, "LANGUAGE"@),
        ("settings.section.theme"@, "THEME"@),
        ("settings.section.colors"@, "COLORS"@),
        ("settings.language.hint"@, "Change the UI language."@),
        ("settings.language.english"@, "English"@),
        ("settings.language.chinese"@, "Simplified Chinese"@),
        ("settings.colors.accent"@, "Accent color"@),
        ("settings.colors.accent.hint"@, "Used for buttons, links and highlights."@),
        ("settings.common.none"@, "(none)"@),
        ("settings.common.enabled"@, "Enabled"@),
    ]
}

pub open spec fn en_us_table_2() -> Seq<(Seq<char>, Seq<char>)> {
    seq![
        ("settings.common.disabled"@, "Disabled"@),
        ("settings.about.runtime_status.idle"@, "idle"@),
        ("settings.about.runtime_status.activating"@, "activating"@),
        ("settings.about.runtime_status.ready"@, "ready"@),
        ("settings.about.runtime_status.error"@, "error"@),
        ("settings.about.card.workspace.title"@, "Workspace"@),
        ("settings.about.card.workspace.desc"@, "Current Knowledge workspace and content stats."@),
        ("settings.about.workspace.notes"@, "Vault notes"@),
        ("settings.about.workspace.open_note"@, "Open note"@),
        ("settings.about.workspace.bookmarks"@, "Bookmarks"@),
        ("settings.about.card.runtime.title"@, "Runtime"@),
        ("settings.about.card.runtime.desc"@, "Plugin runtime activation and mode summary."@),
        ("settings.about.runtime.plugins"@, "Plugins"@),
        ("settings.about.runtime.mode"@, "Runtime mode"@),
        ("settings.about.runtime.status"@, "Runtime status"@),
        ("settings.editor.status.autosave_set"@, "Autosave delay set to"@),
        ("settings.editor.unit.ms"@, "ms"@),
        ("settings.editor.card.autosave.title"@, "Autosave"@),
        ("settings.editor.card.autosave.desc"@, "Controls delayed writeback while editing markdown notes."@),
        ("settings.editor.card.behavior.title"@, "Editor behavior"@),
        ("settings.editor.card.behavior.desc"@, "Core editing features are active: selection, IME, clipboard and save."@),
        ("settings.editor.card.behavior.hint"@, "Use Ctrl+S to force-save. Autosave applies after idle delay."@),
        ("settings.ai.status.provider_set"@, "AI provider set to"@),
        ("settings.ai.status.endpoint_set"@, "AI endpoint set to"@),
        ("settings.ai.status.model_set"@, "AI model set to"@),
    ]
}

pub open spec fn en_us_table_3() -> Seq<(Seq<char>, Seq<char>)> {
    seq![
        ("settings.ai.status.tool_injection_enabled"@, "VCP tool injection enabled"@),
        ("settings.ai.status.tool_injection_disabled"@, "VCP tool injection disabled"@),
        ("settings.ai.toggle.tool_injection_on"@, "Tool Injection: On"@),
        ("settings.ai.toggle.tool_injection_off"@, "Tool Injection: Off"@),
        ("settings.ai.status.endpoint_ready"@, "AI endpoint ready:"@),
        ("settings.ai.status.endpoint_checking"@, "Checking AI endpoint..."@),
        ("settings.ai.status.endpoint_ok"@, "AI endpoint reachable:"@),
        ("settings.ai.status.endpoint_failed"@, "AI endpoint unreachable:"@),
        ("settings.ai.button.apply_check"@, "Apply & Check"@),
        ("settings.ai.card.provider.title"@, "AI Provider"@),
        ("settings.ai.card.provider.desc"@, "Switch between local mock and VCP backend compatibility mode."@),
        ("settings.ai.card.endpoint.title"@, "VCP Endpoint"@),
        ("settings.ai.card.endpoint.desc"@, "Choose target VCPToolBox server endpoint for AI requests."@),
        ("settings.ai.card.model.title"@, "VCP Model"@),
        ("settings.ai.card.model.desc"@, "Pick default model name used in VCP-compatible requests."@),
        ("settings.ai.card.tool_loop.title"@, "Tool Loop"@),
        ("settings.ai.card.tool_loop.desc"@, "Control whether VCP tool-injection endpoint is used."@),
        ("settings.ai.card.connection.title"@, "Connection"@),
        ("settings.ai.card.connection.desc"@, "Apply current AI settings and run live endpoint check."@),
        ("settings.ai.connection.not_checked"@, "No connection check yet. Click 'Apply & Check'."@),
        ("settings.files.status.external_sync_enabled"@, "External sync enabled"@),
        ("settings.files.status.external_sync_disabled"@, "External sync disabled"@),
        ("settings.files.status.prefer_wikilink_enabled"@, "Prefer wikilink titles enabled"@),
        ("settings.files.status.prefer_wikilink_disabled"@, "Prefer wikilink titles disabled"@),
        ("settings.files.card.external_sync.title"@, "External changes sync"@),
    ]
}

pub open spec fn en_us_table_4() -> Seq<(Seq<char>, Seq<char>)> {
    seq![
        ("settings.files.card.external_sync.desc"@, "Whether to sync external editor updates via watcher."@),
        ("settings.files.card.wiki_pref.title"@, "Wiki link preference"@),
        ("settings.files.card.wiki_pref.desc"@, "Prefer wiki title resolution over strict path matching."@),
        ("settings.hotkeys.button.cancel"@, "Cancel"@),
        ("settings.hotkeys.button.edit"@, "Edit"@),
        ("settings.hotkeys.button.reset"@, "Reset"@),
        ("settings.hotkeys.button.reset_all"@, "Reset all to defaults"@),
        ("settings.hotkeys.placeholder.press_keys"@, "Press keys..."@),
        ("settings.hotkeys.status.reset_one"@, "Reset shortcut"@),
        ("settings.hotkeys.status.reset_one_failed"@, "Reset shortcut failed"@),
        ("settings.hotkeys.status.shortcut_already_default"@, "Shortcut already default"@),
        ("settings.hotkeys.status.reset_all"@, "Reset all shortcuts to defaults"@),
        ("settings.hotkeys.status.reset_all_failed"@, "Reset all shortcuts failed"@),
        ("settings.hotkeys.status.all_shortcuts_already_default"@, "All shortcuts already default"@),
        ("settings.hotkeys.card.shortcuts.title"@, "Command shortcuts"@),
        ("settings.hotkeys.card.shortcuts.desc"@, "Click Edit then press a new key chord in this window to override."@),
        ("settings.hotkeys.tip"@, "Tip: Esc exits editing mode. Overrides are persisted to settings."@),
        ("settings.advanced.runtime_mode.process"@, "process"@),
        ("settings.advanced.runtime_mode.in_process"@, "in_process"@),
        ("settings.advanced.status.runtime_mode_set"@, "Plugin runtime mode set to"@),
        ("settings.advanced.watcher.enabled"@, "Watcher Enabled"@),
        ("settings.advanced.watcher.disabled"@, "Watcher Disabled"@),
        ("settings.advanced.card.runtime_mode.title"@, "Plugin runtime mode"@),
        ("settings.advanced.card.runtime_mode.desc"@, "Switch between in-process and process-isolated runtime."@),
        ("settings.advanced.card.file_watcher.title"@, "File watcher"@),
    ]
}

pub open spec fn en_us_table_5() -> Seq<(Seq<char>, Seq<char>)> {
    seq![
        ("settings.advanced.card.file_watcher.desc"@, "Enable or disable external file synchronization watcher."@),
        ("ai.hub.system.ready"@, "AI Hub is ready."@),
        ("ai.hub.timestamp.now"@, "now"@),
        ("ai.hub.session.title"@, "VCP Chat Session"@),
        ("ai.hub.status.chat_in_progress"@, "AI chat in progress..."@),
        ("ai.hub.status.chat_empty_response"@, "AI returned an empty response."@),
        ("ai.hub.status.chat_completed_empty"@, "AI chat completed with empty response."@),
        ("ai.hub.status.chat_done"@, "AI chat done"@),
        ("ai.hub.status.chat_failed"@, "AI chat failed"@),
        ("ai.hub.status.rewrite_in_progress"@, "AI rewrite in progress..."@),
        ("ai.hub.status.rewrite_applied"@, "AI draft applied"@),
        ("ai.hub.status.rewrite_failed"@, "AI rewrite failed"@),
        ("ai.hub.error.vault_not_opened"@, "AI chat failed: vault is not opened."@),
        ("ai.hub.error.read_vault_state"@, "AI chat failed: cannot read vault state"@),
        ("ai.hub.error.input_empty"@, "AI chat input is empty."@),
        ("ai.hub.error.no_open_note"@, "AI unavailable: no open note."@),
        ("ai.hub.error.empty_selection"@, "AI rewrite unavailable: empty selection."@),
        ("ai.hub.error.invalid_selection_range"@, "AI rewrite failed: invalid selection range."@),
        ("ai.hub.error.rewrite_vault_not_opened"@, "AI rewrite failed: vault is not opened."@),
        ("ai.hub.error.rewrite_read_vault_state"@, "AI rewrite failed: cannot read vault state"@),
        ("ai.hub.chat.instruction.base"@, "You are XNote AI assistant. Keep answers concise, practical, and note-oriented."@),
        ("ai.hub.chat.instruction.context_header"@, "Recent conversation context:"@),
        ("ai.hub.chat.instruction.user_prompt"@, "User prompt:"@),
        ("ai.hub.trace.calls"@, "Calls"@),
        ("ai.hub.trace.rounds"@, "Rounds"@),
    ]
}

pub open spec fn en_us_table_6() -> Seq<(Seq<char>, Seq<char>)> {
    seq![
        ("ai.hub.trace.stop"@, "Stop"@),
        ("ai.hub.trace.calls_suffix"@, "calls"@),
        ("ai.hub.trace.args.none"@, "no args"@),
        ("ai.hub.trace.stop.final_response"@, "final response"@),
        ("ai.hub.trace.stop.max_rounds"@, "max rounds reached"@),
        ("ai.hub.trace.stop.unknown"@, "unknown"@),
        ("ai.hub.ui.role.user"@, "You"@),
        ("ai.hub.ui.role.assistant"@, "Assistant"@),
        ("ai.hub.ui.role.system"@, "System"@),
        ("ai.hub.ui.input.placeholder"@, "Type message... (Shift+Enter newline)"@),
        ("ai.hub.ui.input.disabled_placeholder"@, "VCP disconnected: run Apply & Check in Settings > AI"@),
        ("ai.hub.error.vcp_not_checked"@, "VCP connection is not checked yet. Go to Settings > AI and click Apply & Check."@),
        ("ai.hub.error.vcp_not_connected"@, "VCP is not connected. Go to Settings > AI and fix endpoint/key, then Apply & Check."@),
        ("ai.hub.popup.connection.title"@, "VCP Connection Required"@),
        ("ai.hub.popup.connection.action_settings"@, "Open Settings > AI"@),
        ("ai.hub.popup.connection.action_close"@, "Close"@),
        ("status.ready"@, "Ready"@),
        ("hint.open_vault"@, "Open a vault (Ctrl+O)"@),
        ("hint.vault_error"@, "Vault error (Ctrl+O)"@),
        ("prompt.enter_vault_path"@, "Enter a path to a vault folder."@),
        ("prompt.vault_path_not_folder"@, "Vault path is not a folder."@),
        ("palette.empty_commands"@, "No commands"@),
        ("palette.title.commands"@, "COMMAND PALETTE"@),
        ("palette.title.quick_open"@, "QUICK OPEN"@),
        ("palette.placeholder.commands"@, "Type a command..."@),
    ]
}

pub open spec fn en_us_table_7() -> Seq<(Seq<char>, Seq<char>)> {
    seq![
        ("palette.placeholder.quick_open"@, "Type to search..."@),
        ("palette.group.navigation"@, "NAVIGATION"@),
        ("palette.group.files"@, "FILES"@),
        ("palette.title.search"@, "SEARCH"@),
        ("palette.placeholder.search"@, "Type keywords to search content..."@),
        ("palette.group.search"@, "SEARCH RESULTS"@),
    ]
}

/// The English texts.
pub open spec fn en_us_table() -> Seq<(Seq<char>, Seq<char>)> {
    en_us_table_0() + en_us_table_1() + en_us_table_2() + en_us_table_3() + en_us_table_4() + en_us_table_5() + en_us_table_6() + en_us_table_7()
}

fn en_us_part_0() -> (r: Vec<(&'static str, &'static str)>)
    ensures
        table_views(r@) == en_us_table_0(),
{
    let mut r: Vec<(&'static str, &'static str)> = Vec::new();
    r.push(("cmd.open_vault.label", "Open vault"));
    r.push(("cmd.open_vault.detail", "Choose a folder as a vault"));
    r.push(("cmd.open_vault_in_new_window.label", "Open vault in new window"));
    r.push(("cmd.open_vault_in_new_window.detail", "Choose a folder and open it in a new app window"));
    r.push(("cmd.quick_open.label", "Quick Open"));
    r.push(("cmd.quick_open.detail", "Search and open a note by path"));
    r.push(("cmd.command_palette.label", "Command palette"));
    r.push(("cmd.command_palette.detail", "Search and run commands"));
    r.push(("cmd.settings.label", "Settings"));
    r.push(("cmd.settings.detail", "Preferences, hotkeys, and more"));
    r.push(("cmd.reload_vault.label", "Reload vault"));
    r.push(("cmd.reload_vault.detail", "Rescan notes and apply folder order"));
    r.push(("cmd.new_note.label", "New note"));
    r.push(("cmd.new_note.detail", "Create a note in the selected folder"));
    r.push(("cmd.save_file.label", "Save file"));
    r.push(("cmd.save_file.detail", "Write the current note to disk"));
    r.push(("cmd.undo.label", "Undo"));
    r.push(("cmd.undo.detail", "Undo the last edit operation"));
    r.push(("cmd.redo.label", "Redo"));
    r.push(("cmd.redo.detail", "Redo the last undone edit operation"));
    r.push(("cmd.toggle_split.label", "Toggle split"));
    r.push(("cmd.toggle_split.detail", "Split the editor view"));
    r.push(("cmd.focus_explorer.label", "Explorer"));
    r.push(("cmd.focus_explorer.detail", "Show Explorer panel"));
    r.push(("cmd.focus_search.label", "Search"));
    assert(table_views(r@) =~= en_us_table_0());
    r
}

fn en_us_part_1() -> (r: Vec<(&'static str, &'static str)>)
    ensures
        table_views(r@) == en_us_table_1(),
{
    let mut r: Vec<(&'static str, &'static str)> = Vec::new();
    r.push(("cmd.focus_search.detail", "Show Search panel"));
    r.push(("cmd.ai_rewrite_selection.label", "AI: Rewrite Selection"));
    r.push(("cmd.ai_rewrite_selection.detail", "Draft a rewrite proposal for selected text"));
    r.push(("settings.title", "Settings"));
    r.push(("settings.nav.about", "About"));
    r.push(("settings.nav.appearance", "Appearance"));
    r.push(("settings.nav.editor", "Editor"));
    r.push(("settings.nav.ai", "AI"));
    r.push(("settings.nav.files", "Files & Links"));
    r.push(("settings.nav.hotkeys", "Hotkeys"));
    r.push(("settings.nav.advanced", "Advanced"));
    r.push(("settings.theme.dark", "Dark"));
    r.push(("settings.theme.light", "Light"));
    r.push(("settings.accent.default", "Default"));
    r.push(("settings.accent.blue", "Blue"));
    r.push(("settings.section.language", "LANGUAGE"));
    r.push(("settings.section.theme", "THEME"));
    r.push(("settings.section.colors", "COLORS"));
    r.push(("settings.language.hint", "Change the UI language."));
    r.push(("settings.language.english", "English"));
    r.push(("settings.language.chinese", "Simplified Chinese"));
    r.push(("settings.colors.accent", "Accent color"));
    r.push(("settings.colors.accent.hint", "Used for buttons, links and highlights."));
    r.push(("settings.common.none", "(none)"));
    r.push(("settings.common.enabled", "Enabled"));
    assert(table_views(r@) =~= en_us_table_1());
    r
}

fn en_us_part_2() -> (r: Vec<(&'static str, &'static str)>)
    ensures
        table_views(r@) == en_us_table_2(),
{
    let mut r: Vec<(&'static str, &'static str)> = Vec::new();
    r.push(("settings.common.disabled", "Disabled"));
    r.push(("settings.about.runtime_status.idle", "idle"));
    r.push(("settings.about.runtime_status.activating", "activating"));
    r.push(("settings.about.runtime_status.ready", "ready"));
    r.push(("settings.about.runtime_status.error", "error"));
    r.push(("settings.about.card.workspace.title", "Workspace"));
    r.push(("settings.about.card.workspace.desc", "Current Knowledge workspace and content stats."));
    r.push(("settings.about.workspace.notes", "Vault notes"));
    r.push(("settings.about.workspace.open_note", "Open note"));
    r.push(("settings.about.workspace.bookmarks", "Bookmarks"));
    r.push(("settings.about.card.runtime.title", "Runtime"));
    r.push(("settings.about.card.runtime.desc", "Plugin runtime activation and mode summary."));
    r.push(("settings.about.runtime.plugins", "Plugins"));
    r.push(("settings.about.runtime.mode", "Runtime mode"));
    r.push(("settings.about.runtime.status", "Runtime status"));
    r.push(("settings.editor.status.autosave_set", "Autosave delay set to"));
    r.push(("settings.editor.unit.ms", "ms"));
    r.push(("settings.editor.card.autosave.title", "Autosave"));
    r.push(("settings.editor.card.autosave.desc", "Controls delayed writeback while editing markdown notes."));
    r.push(("settings.editor.card.behavior.title", "Editor behavior"));
    r.push(("settings.editor.card.behavior.desc", "Core editing features are active: selection, IME, clipboard and save."));
    r.push(("settings.editor.card.behavior.hint", "Use Ctrl+S to force-save. Autosave applies after idle delay."));
    r.push(("settings.ai.status.provider_set", "AI provider set to"));
    r.push(("settings.ai.status.endpoint_set", "AI endpoint set to"));
    r.push(("settings.ai.status.model_set", "AI model set to"));
    assert(table_views(r@) =~= en_us_table_2());
    r
}

fn en_us_part_3() -> (r: Vec<(&'static str, &'static str)>)
    ensures
        table_views(r@) == en_us_table_3(),
{
    let mut r: Vec<(&'static str, &'static str)> = Vec::new();
    r.push(("settings.ai.status.tool_injection_enabled", "VCP tool injection enabled"));
    r.push(("settings.ai.status.tool_injection_disabled", "VCP tool injection disabled"));
    r.push(("settings.ai.toggle.tool_injection_on", "Tool Injection: On"));
    r.push(("settings.ai.toggle.tool_injection_off", "Tool Injection: Off"));
    r.push(("settings.ai.status.endpoint_ready", "AI endpoint ready:"));
    r.push(("settings.ai.status.endpoint_checking", "Checking AI endpoint..."));
    r.push(("settings.ai.status.endpoint_ok", "AI endpoint reachable:"));
    r.push(("settings.ai.status.endpoint_failed", "AI endpoint unreachable:"));
    r.push(("settings.ai.button.apply_check", "Apply & Check"));
    r.push(("settings.ai.card.provider.title", "AI Provider"));
    r.push(("settings.ai.card.provider.desc", "Switch between local mock and VCP backend compatibility mode."));
    r.push(("settings.ai.card.endpoint.title", "VCP Endpoint"));
    r.push(("settings.ai.card.endpoint.desc", "Choose target VCPToolBox server endpoint for AI requests."));
    r.push(("settings.ai.card.model.title", "VCP Model"));
    r.push(("settings.ai.card.model.desc", "Pick default model name used in VCP-compatible requests."));
    r.push(("settings.ai.card.tool_loop.title", "Tool Loop"));
    r.push(("settings.ai.card.tool_loop.desc", "Control whether VCP tool-injection endpoint is used."));
    r.push(("settings.ai.card.connection.title", "Connection"));
    r.push(("settings.ai.card.connection.desc", "Apply current AI settings and run live endpoint check."));
    r.push(("settings.ai.connection.not_checked", "No connection check yet. Click 'Apply & Check'."));
    r.push(("settings.files.status.external_sync_enabled", "External sync enabled"));
    r.push(("settings.files.status.external_sync_disabled", "External sync disabled"));
    r.push(("settings.files.status.prefer_wikilink_enabled", "Prefer wikilink titles enabled"));
    r.push(("settings.files.status.prefer_wikilink_disabled", "Prefer wikilink titles disabled"));
    r.push(("settings.files.card.external_sync.title", "External changes sync"));
    assert(table_views(r@) =~= en_us_table_3());
    r
}

fn en_us_part_4() -> (r: Vec<(&'static str, &'static str)>)
    ensures
        table_views(r@) == en_us_table_4(),
{
    let mut r: Vec<(&'static str, &'static str)> = Vec::new();
    r.push(("settings.files.card.external_sync.desc", "Whether to sync external editor updates via watcher."));
    r.push(("settings.files.card.wiki_pref.title", "Wiki link preference"));
    r.push(("settings.files.card.wiki_pref.desc", "Prefer wiki title resolution over strict path matching."));
    r.push(("settings.hotkeys.button.cancel", "Cancel"));
    r.push(("settings.hotkeys.button.edit", "Edit"));
    r.push(("settings.hotkeys.button.reset", "Reset"));
    r.push(("settings.hotkeys.button.reset_all", "Reset all to defaults"));
    r.push(("settings.hotkeys.placeholder.press_keys", "Press keys..."));
    r.push(("settings.hotkeys.status.reset_one", "Reset shortcut"));
    r.push(("settings.hotkeys.status.reset_one_failed", "Reset shortcut failed"));
    r.push(("settings.hotkeys.status.shortcut_already_default", "Shortcut already default"));
    r.push(("settings.hotkeys.status.reset_all", "Reset all shortcuts to defaults"));
    r.push(("settings.hotkeys.status.reset_all_failed", "Reset all shortcuts failed"));
    r.push(("settings.hotkeys.status.all_shortcuts_already_default", "All shortcuts already default"));
    r.push(("settings.hotkeys.card.shortcuts.title", "Command shortcuts"));
    r.push(("settings.hotkeys.card.shortcuts.desc", "Click Edit then press a new key chord in this window to override."));
    r.push(("settings.hotkeys.tip", "Tip: Esc exits editing mode. Overrides are persisted to settings."));
    r.push(("settings.advanced.runtime_mode.process", "process"));
    r.push(("settings.advanced.runtime_mode.in_process", "in_process"));
    r.push(("settings.advanced.status.runtime_mode_set", "Plugin runtime mode set to"));
    r.push(("settings.advanced.watcher.enabled", "Watcher Enabled"));
    r.push(("settings.advanced.watcher.disabled", "Watcher Disabled"));
    r.push(("settings.advanced.card.runtime_mode.title", "Plugin runtime mode"));
    r.push(("settings.advanced.card.runtime_mode.desc", "Switch between in-process and process-isolated runtime."));
    r.push(("settings.advanced.card.file_watcher.title", "File watcher"));
    assert(table_views(r@) =~= en_us_table_4());
    r
}

fn en_us_part_5() -> (r: Vec<(&'static str, &'static str)>)
    ensures
        table_views(r@) == en_us_table_5(),
{
    let mut r: Vec<(&'static str, &'static str)> = Vec::new();
    r.push(("settings.advanced.card.file_watcher.desc", "Enable or disable external file synchronization watcher."));
    r.push(("ai.hub.system.ready", "AI Hub is ready."));
    r.push(("ai.hub.timestamp.now", "now"));
    r.push(("ai.hub.session.title", "VCP Chat Session"));
    r.push(("ai.hub.status.chat_in_progress", "AI chat in progress..."));
    r.push(("ai.hub.status.chat_empty_response", "AI returned an empty response."));
    r.push(("ai.hub.status.chat_completed_empty", "AI chat completed with empty response."));
    r.push(("ai.hub.status.chat_done", "AI chat done"));
    r.push(("ai.hub.status.chat_failed", "AI chat failed"));
    r.push(("ai.hub.status.rewrite_in_progress", "AI rewrite in progress..."));
    r.push(("ai.hub.status.rewrite_applied", "AI draft applied"));
    r.push(("ai.hub.status.rewrite_failed", "AI rewrite failed"));
    r.push(("ai.hub.error.vault_not_opened", "AI chat failed: vault is not opened."));
    r.push(("ai.hub.error.read_vault_state", "AI chat failed: cannot read vault state"));
    r.push(("ai.hub.error.input_empty", "AI chat input is empty."));
    r.push(("ai.hub.error.no_open_note", "AI unavailable: no open note."));
    r.push(("ai.hub.error.empty_selection", "AI rewrite unavailable: empty selection."));
    r.push(("ai.hub.error.invalid_selection_range", "AI rewrite failed: invalid selection range."));
    r.push(("ai.hub.error.rewrite_vault_not_opened", "AI rewrite failed: vault is not opened."));
    r.push(("ai.hub.error.rewrite_read_vault_state", "AI rewrite failed: cannot read vault state"));
    r.push(("ai.hub.chat.instruction.base", "You are XNote AI assistant. Keep answers concise, practical, and note-oriented."));
    r.push(("ai.hub.chat.instruction.context_header", "Recent conversation context:"));
    r.push(("ai.hub.chat.instruction.user_prompt", "User prompt:"));
    r.push(("ai.hub.trace.calls", "Calls"));
    r.push(("ai.hub.trace.rounds", "Rounds"));
    assert(table_views(r@) =~= en_us_table_5());
    r
}

fn en_us_part_6() -> (r: Vec<(&'static str, &'static str)>)
    ensures
        table_views(r@) == en_us_table_6(),
{
    let mut r: Vec<(&'static str, &'static str)> = Vec::new();
    r.push(("ai.hub.trace.stop", "Stop"));
    r.push(("ai.hub.trace.calls_suffix", "calls"));
    r.push(("ai.hub.trace.args.none", "no args"));
    r.push(("ai.hub.trace.stop.final_response", "final response"));
    r.push(("ai.hub.trace.stop.max_rounds", "max rounds reached"));
    r.push(("ai.hub.trace.stop.unknown", "unknown"));
    r.push(("ai.hub.ui.role.user", "You"));
    r.push(("ai.hub.ui.role.assistant", "Assistant"));
    r.push(("ai.hub.ui.role.system", "System"));
    r.push(("ai.hub.ui.input.placeholder", "Type message... (Shift+Enter newline)"));
    r.push(("ai.hub.ui.input.disabled_placeholder", "VCP disconnected: run Apply & Check in Settings > AI"));
    r.push(("ai.hub.error.vcp_not_checked", "VCP connection is not checked yet. Go to Settings > AI and click Apply & Check."));
    r.push(("ai.hub.error.vcp_not_connected", "VCP is not connected. Go to Settings > AI and fix endpoint/key, then Apply & Check."));
    r.push(("ai.hub.popup.connection.title", "VCP Connection Required"));
    r.push(("ai.hub.popup.connection.action_settings", "Open Settings > AI"));
    r.push(("ai.hub.popup.connection.action_close", "Close"));
    r.push(("status.ready", "Ready"));
    r.push(("hint.open_vault", "Open a vault (Ctrl+O)"));
    r.push(("hint.vault_error", "Vault error (Ctrl+O)"));
    r.push(("prompt.enter_vault_path", "Enter a path to a vault folder."));
    r.push(("prompt.vault_path_not_folder", "Vault path is not a folder."));
    r.push(("palette.empty_commands", "No commands"));
    r.push(("palette.title.commands", "COMMAND PALETTE"));
    r.push(("palette.title.quick_open", "QUICK OPEN"));
    r.push(("palette.placeholder.commands", "Type a command..."));
    assert(table_views(r@) =~= en_us_table_6());
    r
}

fn en_us_part_7() -> (r: Vec<(&'static str, &'static str)>)
    ensures
        table_views(r@) == en_us_table_7(),
{
    let mut r: Vec<(&'static str, &'static str)> = Vec::new();
    r.push(("palette.placeholder.quick_open", "Type to search..."));
    r.push(("palette.group.navigation", "NAVIGATION"));
    r.push(("palette.group.files", "FILES"));
    r.push(("palette.title.search", "SEARCH"));
    r.push(("palette.placeholder.search", "Type keywords to search content..."));
    r.push(("palette.group.search", "SEARCH RESULTS"));
    assert(table_views(r@) =~= en_us_table_7());
    r
}

fn en_us_dict() -> (r: Vec<(&'static str, &'static str)>)
    ensures
        table_views(r@) == en_us_table(),
{
    let mut r = en_us_part_0();
    append_table(&mut r, en_us_part_1());
    append_table(&mut r, en_us_part_2());
    append_table(&mut r, en_us_part_3());
    append_table(&mut r, en_us_part_4());
    append_table(&mut r, en_us_part_5());
    append_table(&mut r, en_us_part_6());
    append_table(&mut r, en_us_part_7());
    assert(table_views(r@) =~= en_us_table());
    r
}

pub open spec fn zh_cn_table_0() -> Seq<(Seq<char>, Seq<char>)> {
    seq![
        ("cmd.open_vault.label"@, "打开仓库"@),
        ("cmd.open_vault.detail"@, "选择一个文件夹作为仓库"@),
        ("cmd.open_vault_in_new_window.label"@, "在新窗口打开仓库"@),
        ("cmd.open_vault_in_new_window.detail"@, "选择文件夹并在新窗口中打开"@),
        ("cmd.quick_open.label"@, "快速打开"@),
        ("cmd.quick_open.detail"@, "按路径搜索并打开笔记"@),
        ("cmd.command_palette.label"@, "命令面板"@),
        ("cmd.command_palette.detail"@, "搜索并执行命令"@),
        ("cmd.settings.label"@, "设置"@),
        ("cmd.settings.detail"@, "偏好设置、快捷键等"@),
        ("cmd.reload_vault.label"@, "重载仓库"@),
        ("cmd.reload_vault.detail"@, "重新扫描笔记并应用排序"@),
        ("cmd.new_note.label"@, "新建笔记"@),
        ("cmd.new_note.detail"@, "在当前文件夹创建笔记"@),
        ("cmd.save_file.label"@, "保存文件"@),
        ("cmd.save_file.detail"@, "将当前笔记写入磁盘"@),
        ("cmd.undo.label"@, "撤销"@),
        ("cmd.undo.detail"@, "撤销上一次编辑"@),
        ("cmd.redo.label"@, "重做"@),
        ("cmd.redo.detail"@, "重做被撤销的编辑"@),
        ("cmd.toggle_split.label"@, "切换分栏"@),
        ("cmd.toggle_split.detail"@, "切换编辑区域分栏"@),
        ("cmd.focus_explorer.label"@, "资源管理器"@),
        ("cmd.focus_explorer.detail"@, "显示资源管理器面板"@),
        ("cmd.focus_search.label"@, "搜索"@),
    ]
}

pub open spec fn zh_cn_table_1() -> Seq<(Seq<char>, Seq<char>)> {
    seq![
        ("cmd.focus_search.detail"@, "显示搜索面板"@),
        ("cmd.ai_rewrite_selection.label"@, "AI：重写选区"@),
        ("cmd.ai_rewrite_selection.detail"@, "为选中文本生成重写建议"@),
        ("settings.title"@, "设置"@),
        ("settings.nav.about"@, "关于"@),
        ("settings.nav.appearance"@, "外观"@),
        ("settings.nav.editor"@, "编辑器"@),
        ("settings.nav.ai"@, "AI"@),
        ("settings.nav.files"@, "文件与链接"@),
        ("settings.nav.hotkeys"@, "快捷键"@),
        ("settings.nav.advanced"@, "高级"@),
        ("settings.theme.dark"@, "深色"@),
        ("settings.theme.light"@, "浅色"@),
        ("settings.accent.default"@, "默认"@),
        ("settings.accent.blue"@, "蓝色"@),
        ("settings.section.language"@, "语言"@),
        ("settings.section.theme"@, "主题"@),
        ("settings.section.colors"@, "颜色"@),
        ("settings.language.hint"@, "切换界面语言。"@),
        ("settings.language.english"@, "English"@),
        ("settings.language.chinese"@, "简体中文"@),
        ("settings.colors.accent"@, "强调色"@),
        ("settings.colors.accent.hint"@, "用于按钮、链接与高亮。"@),
        ("settings.common.none"@, "（无）"@),
        ("settings.common.enabled"@, "已启用"@),
    ]
}

pub open spec fn zh_cn_table_2() -> Seq<(Seq<char>, Seq<char>)> {
    seq![
        ("settings.common.disabled"@, "已禁用"@),
        ("settings.about.runtime_status.idle"@, "空闲"@),
        ("settings.about.runtime_status.activating"@, "启动中"@),
        ("settings.about.runtime_status.ready"@, "就绪"@),
        ("settings.about.runtime_status.error"@, "错误"@),
        ("settings.about.card.workspace.title"@, "工作区"@),
        ("settings.about.card.workspace.desc"@, "当前 Knowledge 工作区与内容统计。"@),
        ("settings.about.workspace.notes"@, "仓库笔记"@),
        ("settings.about.workspace.open_note"@, "当前打开"@),
        ("settings.about.workspace.bookmarks"@, "书签"@),
        ("settings.about.card.runtime.title"@, "运行时"@),
        ("settings.about.card.runtime.desc"@, "插件运行时模式与激活状态概览。"@),
        ("settings.about.runtime.plugins"@, "插件"@),
        ("settings.about.runtime.mode"@, "运行时模式"@),
        ("settings.about.runtime.status"@, "运行状态"@),
        ("settings.editor.status.autosave_set"@, "自动保存延时已设置为"@),
        ("settings.editor.unit.ms"@, "ms"@),
        ("settings.editor.card.autosave.title"@, "自动保存"@),
        ("settings.editor.card.autosave.desc"@, "控制编辑 Markdown 时的延迟写回。"@),
        ("settings.editor.card.behavior.title"@, "编辑器行为"@),
        ("settings.editor.card.behavior.desc"@, "已支持选中、IME、剪贴与保存等核心编辑功能。"@),
        ("settings.editor.card.behavior.hint"@, "可使用 Ctrl+S 强制保存，自动保存会在停止输入后触发。"@),
        ("settings.ai.status.provider_set"@, "AI Provider 已设置为"@),
        ("settings.ai.status.endpoint_set"@, "AI 端点已设置为"@),
        ("settings.ai.status.model_set"@, "AI 模型已设置为"@),
    ]
}

pub open spec fn zh_cn_table_3() -> Seq<(Seq<char>, Seq<char>)> {
    seq![
        ("settings.ai.status.tool_injection_enabled"@, "已启用 VCP Tool Injection"@),
        ("settings.ai.status.tool_injection_disabled"@, "已禁用 VCP Tool Injection"@),
        ("settings.ai.toggle.tool_injection_on"@, "Tool Injection：On"@),
        ("settings.ai.toggle.tool_injection_off"@, "Tool Injection：Off"@),
        ("settings.ai.status.endpoint_ready"@, "AI 端点已就绪："@),
        ("settings.ai.status.endpoint_checking"@, "正在检查 AI 端点..."@),
        ("settings.ai.status.endpoint_ok"@, "AI 端点可达："@),
        ("settings.ai.status.endpoint_failed"@, "AI 端点不可达："@),
        ("settings.ai.button.apply_check"@, "应用并检查"@),
        ("settings.ai.card.provider.title"@, "AI Provider"@),
        ("settings.ai.card.provider.desc"@, "在本地 mock 与 VCP 后端兼容模式间切换。"@),
        ("settings.ai.card.endpoint.title"@, "VCP Endpoint"@),
        ("settings.ai.card.endpoint.desc"@, "选择 AI 请求的目标 VCPToolBox 服务端点。"@),
        ("settings.ai.card.model.title"@, "VCP Model"@),
        ("settings.ai.card.model.desc"@, "选择 VCP 兼容请求使用的默认模型名。"@),
        ("settings.ai.card.tool_loop.title"@, "Tool Loop"@),
        ("settings.ai.card.tool_loop.desc"@, "控制是否使用 VCP tool-injection endpoint。"@),
        ("settings.ai.card.connection.title"@, "Connection"@),
        ("settings.ai.card.connection.desc"@, "将当前 AI 设置应用到运行时环境变量。"@),
        ("settings.files.status.external_sync_enabled"@, "已启用外部同步"@),
        ("settings.files.status.external_sync_disabled"@, "已禁用外部同步"@),
        ("settings.files.status.prefer_wikilink_enabled"@, "已启用优先使用 Wiki Link 标题"@),
        ("settings.files.status.prefer_wikilink_disabled"@, "已禁用优先使用 Wiki Link 标题"@),
        ("settings.files.card.external_sync.title"@, "外部修改同步"@),
        ("settings.files.card.external_sync.desc"@, "是否通过 watcher 同步外部编辑器的更新。"@),
    ]
}

pub open spec fn zh_cn_table_4() -> Seq<(Seq<char>, Seq<char>)> {
    seq![
        ("settings.files.card.wiki_pref.title"@, "Wiki 链接偏好"@),
        ("settings.files.card.wiki_pref.desc"@, "优先使用 wiki 标题解析，而非严格路径匹配。"@),
        ("settings.hotkeys.button.cancel"@, "取消"@),
        ("settings.hotkeys.button.edit"@, "编辑"@),
        ("settings.hotkeys.button.reset"@, "重置"@),
        ("settings.hotkeys.button.reset_all"@, "全部恢复默认"@),
        ("settings.hotkeys.placeholder.press_keys"@, "按下按键..."@),
        ("settings.hotkeys.status.reset_one"@, "已重置快捷键"@),
        ("settings.hotkeys.status.reset_one_failed"@, "重置快捷键失败"@),
        ("settings.hotkeys.status.shortcut_already_default"@, "快捷键已是默认"@),
        ("settings.hotkeys.status.reset_all"@, "已将所有快捷键恢复为默认"@),
        ("settings.hotkeys.status.reset_all_failed"@, "全部快捷键重置失败"@),
        ("settings.hotkeys.status.all_shortcuts_already_default"@, "所有快捷键均为默认"@),
        ("settings.hotkeys.card.shortcuts.title"@, "命令快捷键"@),
        ("settings.hotkeys.card.shortcuts.desc"@, "点击 Edit 后，在窗口中按新的按键组合以覆盖。"@),
        ("settings.hotkeys.tip"@, "提示：Esc 可退出编辑模式，覆盖项会持久化到设置。"@),
        ("settings.advanced.runtime_mode.process"@, "process"@),
        ("settings.advanced.runtime_mode.in_process"@, "in_process"@),
        ("settings.advanced.status.runtime_mode_set"@, "插件运行时模式已设置为"@),
        ("settings.advanced.watcher.enabled"@, "Watcher 已启用"@),
        ("settings.advanced.watcher.disabled"@, "Watcher 已禁用"@),
        ("settings.advanced.card.runtime_mode.title"@, "插件运行时模式"@),
        ("settings.advanced.card.runtime_mode.desc"@, "在 in-process 与 process-isolated 运行时之间切换。"@),
        ("settings.advanced.card.file_watcher.title"@, "文件 watcher"@),
        ("settings.advanced.card.file_watcher.desc"@, "启用或禁用外部文件同步 watcher。"@),
    ]
}

pub open spec fn zh_cn_table_5() -> Seq<(Seq<char>, Seq<char>)> {
    seq![
        ("ai.hub.system.ready"@, "AI Hub 已就绪。"@),
        ("ai.hub.timestamp.now"@, "刚刚"@),
        ("ai.hub.session.title"@, "VCP 会话"@),
        ("ai.hub.status.chat_in_progress"@, "AI 对话处理中..."@),
        ("ai.hub.status.chat_empty_response"@, "AI 返回了空响应。"@),
        ("ai.hub.status.chat_completed_empty"@, "AI 对话完成（空响应）。"@),
        ("ai.hub.status.chat_done"@, "AI 对话完成"@),
        ("ai.hub.status.chat_failed"@, "AI 对话失败"@),
        ("ai.hub.status.rewrite_in_progress"@, "AI 改写处理中..."@),
        ("ai.hub.status.rewrite_applied"@, "AI 草稿已应用"@),
        ("ai.hub.status.rewrite_failed"@, "AI 改写失败"@),
        ("ai.hub.error.vault_not_opened"@, "AI 对话失败：未打开仓库。"@),
        ("ai.hub.error.read_vault_state"@, "AI 对话失败：无法读取仓库状态"@),
        ("ai.hub.error.input_empty"@, "AI 对话输入为空。"@),
        ("ai.hub.error.no_open_note"@, "AI 不可用：当前没有打开笔记。"@),
        ("ai.hub.error.empty_selection"@, "AI 改写不可用：选区为空。"@),
        ("ai.hub.error.invalid_selection_range"@, "AI 改写失败：选区范围无效。"@),
        ("ai.hub.error.rewrite_vault_not_opened"@, "AI 改写失败：未打开仓库。"@),
        ("ai.hub.error.rewrite_read_vault_state"@, "AI 改写失败：无法读取仓库状态"@),
        ("ai.hub.chat.instruction.base"@, "你是 XNote 的 AI 助手。请保持回答简洁、可执行，并围绕笔记上下文。"@),
        ("ai.hub.chat.instruction.context_header"@, "最近对话上下文："@),
        ("ai.hub.chat.instruction.user_prompt"@, "用户问题："@),
        ("ai.hub.trace.calls"@, "调用数"@),
        ("ai.hub.trace.rounds"@, "轮次"@),
        ("ai.hub.trace.stop"@, "停止原因"@),
    ]
}

pub open spec fn zh_cn_table_6() -> Seq<(Seq<char>, Seq<char>)> {
    seq![
        ("ai.hub.trace.calls_suffix"@, "次调用"@),
        ("ai.hub.trace.args.none"@, "无参数"@),
        ("ai.hub.trace.stop.final_response"@, "最终响应"@),
        ("ai.hub.trace.stop.max_rounds"@, "达到最大轮次"@),
        ("ai.hub.trace.stop.unknown"@, "未知"@),
        ("ai.hub.ui.role.user"@, "你"@),
        ("ai.hub.ui.role.assistant"@, "助手"@),
        ("ai.hub.ui.role.system"@, "系统"@),
        ("ai.hub.ui.input.placeholder"@, "输入消息...（Shift+Enter 换行）"@),
        ("status.ready"@, "就绪"@),
        ("hint.open_vault"@, "打开仓库（Ctrl+O）"@),
        ("hint.vault_error"@, "仓库错误（Ctrl+O）"@),
        ("prompt.enter_vault_path"@, "请输入仓库文件夹路径。"@),
        ("prompt.vault_path_not_folder"@, "仓库路径不是文件夹。"@),
        ("palette.empty_commands"@, "无可用命令"@),
        ("palette.title.commands"@, "命令面板"@),
        ("palette.title.quick_open"@, "快速打开"@),
        ("palette.placeholder.commands"@, "输入命令..."@),
        ("palette.placeholder.quick_open"@, "输入以搜索..."@),
        ("palette.group.navigation"@, "导航"@),
        ("palette.group.files"@, "文件"@),
        ("palette.title.search"@, "搜索"@),
        ("palette.placeholder.search"@, "输入关键词搜索内容..."@),
        ("palette.group.search"@, "搜索结果"@),
        ("settings.ai.connection.not_checked"@, "No connection check yet. Click 'Apply & Check'."@),
    ]
}

pub open spec fn zh_cn_table_7() -> Seq<(Seq<char>, Seq<char>)> {
    seq![
        ("ai.hub.ui.input.disabled_placeholder"@, "VCP disconnected: run Apply & Check in Settings > AI"@),
        ("ai.hub.error.vcp_not_checked"@, "VCP connection is not checked yet. Go to Settings > AI and click Apply & Check."@),
        ("ai.hub.error.vcp_not_connected"@, "VCP is not connected. Go to Settings > AI and fix endpoint/key, then Apply & Check."@),
        ("ai.hub.popup.connection.title"@, "需要 VCP 连接"@),
        ("ai.hub.popup.connection.action_settings"@, "打开 设置 > AI"@),
        ("ai.hub.popup.connection.action_close"@, "关闭"@),
    ]
}

/// The Simplified Chinese texts.
pub open spec fn zh_cn_table() -> Seq<(Seq<char>, Seq<char>)> {
    zh_cn_table_0() + zh_cn_table_1() + zh_cn_table_2() + zh_cn_table_3() + zh_cn_table_4() + zh_cn_table_5() + zh_cn_table_6() + zh_cn_table_7()
}

fn zh_cn_part_0() -> (r: Vec<(&'static str, &'static str)>)
    ensures
        table_views(r@) == zh_cn_table_0(),
{
    let mut r: Vec<(&'static str, &'static str)> = Vec::new();
    r.push(("cmd.open_vault.label", "打开仓库"));
    r.push(("cmd.open_vault.detail", "选择一个文件夹作为仓库"));
    r.push(("cmd.open_vault_in_new_window.label", "在新窗口打开仓库"));
    r.push(("cmd.open_vault_in_new_window.detail", "选择文件夹并在新窗口中打开"));
    r.push(("cmd.quick_open.label", "快速打开"));
    r.push(("cmd.quick_open.detail", "按路径搜索并打开笔记"));
    r.push(("cmd.command_palette.label", "命令面板"));
    r.push(("cmd.command_palette.detail", "搜索并执行命令"));
    r.push(("cmd.settings.label", "设置"));
    r.push(("cmd.settings.detail", "偏好设置、快捷键等"));
    r.push(("cmd.reload_vault.label", "重载仓库"));
    r.push(("cmd.reload_vault.detail", "重新扫描笔记并应用排序"));
    r.push(("cmd.new_note.label", "新建笔记"));
    r.push(("cmd.new_note.detail", "在当前文件夹创建笔记"));
    r.push(("cmd.save_file.label", "保存文件"));
    r.push(("cmd.save_file.detail", "将当前笔记写入磁盘"));
    r.push(("cmd.undo.label", "撤销"));
    r.push(("cmd.undo.detail", "撤销上一次编辑"));
    r.push(("cmd.redo.label", "重做"));
    r.push(("cmd.redo.detail", "重做被撤销的编辑"));
    r.push(("cmd.toggle_split.label", "切换分栏"));
    r.push(("cmd.toggle_split.detail", "切换编辑区域分栏"));
    r.push(("cmd.focus_explorer.label", "资源管理器"));
    r.push(("cmd.focus_explorer.detail", "显示资源管理器面板"));
    r.push(("cmd.focus_search.label", "搜索"));
    assert(table_views(r@) =~= zh_cn_table_0());
    r
}

fn zh_cn_part_1() -> (r: Vec<(&'static str, &'static str)>)
    ensures
        table_views(r@) == zh_cn_table_1(),
{
    let mut r: Vec<(&'static str, &'static str)> = Vec::new();
    r.push(("cmd.focus_search.detail", "显示搜索面板"));
    r.push(("cmd.ai_rewrite_selection.label", "AI：重写选区"));
    r.push(("cmd.ai_rewrite_selection.detail", "为选中文本生成重写建议"));
    r.push(("settings.title", "设置"));
    r.push(("settings.nav.about", "关于"));
    r.push(("settings.nav.appearance", "外观"));
    r.push(("settings.nav.editor", "编辑器"));
    r.push(("settings.nav.ai", "AI"));
    r.push(("settings.nav.files", "文件与链接"));
    r.push(("settings.nav.hotkeys", "快捷键"));
    r.push(("settings.nav.advanced", "高级"));
    r.push(("settings.theme.dark", "深色"));
    r.push(("settings.theme.light", "浅色"));
    r.push(("settings.accent.default", "默认"));
    r.push(("settings.accent.blue", "蓝色"));
    r.push(("settings.section.language", "语言"));
    r.push(("settings.section.theme", "主题"));
    r.push(("settings.section.colors", "颜色"));
    r.push(("settings.language.hint", "切换界面语言。"));
    r.push(("settings.language.english", "English"));
    r.push(("settings.language.chinese", "简体中文"));
    r.push(("settings.colors.accent", "强调色"));
    r.push(("settings.colors.accent.hint", "用于按钮、链接与高亮。"));
    r.push(("settings.common.none", "（无）"));
    r.push(("settings.common.enabled", "已启用"));
    assert(table_views(r@) =~= zh_cn_table_1());
    r
}

fn zh_cn_part_2() -> (r: Vec<(&'static str, &'static str)>)
    ensures
        table_views(r@) == zh_cn_table_2(),
{
    let mut r: Vec<(&'static str, &'static str)> = Vec::new();
    r.push(("settings.common.disabled", "已禁用"));
    r.push(("settings.about.runtime_status.idle", "空闲"));
    r.push(("settings.about.runtime_status.activating", "启动中"));
    r.push(("settings.about.runtime_status.ready", "就绪"));
    r.push(("settings.about.runtime_status.error", "错误"));
    r.push(("settings.about.card.workspace.title", "工作区"));
    r.push(("settings.about.card.workspace.desc", "当前 Knowledge 工作区与内容统计。"));
    r.push(("settings.about.workspace.notes", "仓库笔记"));
    r.push(("settings.about.workspace.open_note", "当前打开"));
    r.push(("settings.about.workspace.bookmarks", "书签"));
    r.push(("settings.about.card.runtime.title", "运行时"));
    r.push(("settings.about.card.runtime.desc", "插件运行时模式与激活状态概览。"));
    r.push(("settings.about.runtime.plugins", "插件"));
    r.push(("settings.about.runtime.mode", "运行时模式"));
    r.push(("settings.about.runtime.status", "运行状态"));
    r.push(("settings.editor.status.autosave_set", "自动保存延时已设置为"));
    r.push(("settings.editor.unit.ms", "ms"));
    r.push(("settings.editor.card.autosave.title", "自动保存"));
    r.push(("settings.editor.card.autosave.desc", "控制编辑 Markdown 时的延迟写回。"));
    r.push(("settings.editor.card.behavior.title", "编辑器行为"));
    r.push(("settings.editor.card.behavior.desc", "已支持选中、IME、剪贴与保存等核心编辑功能。"));
    r.push(("settings.editor.card.behavior.hint", "可使用 Ctrl+S 强制保存，自动保存会在停止输入后触发。"));
    r.push(("settings.ai.status.provider_set", "AI Provider 已设置为"));
    r.push(("settings.ai.status.endpoint_set", "AI 端点已设置为"));
    r.push(("settings.ai.status.model_set", "AI 模型已设置为"));
    assert(table_views(r@) =~= zh_cn_table_2());
    r
}

fn zh_cn_part_3() -> (r: Vec<(&'static str, &'static str)>)
    ensures
        table_views(r@) == zh_cn_table_3(),
{
    let mut r: Vec<(&'static str, &'static str)> = Vec::new();
    r.push(("settings.ai.status.tool_injection_enabled", "已启用 VCP Tool Injection"));
    r.push(("settings.ai.status.tool_injection_disabled", "已禁用 VCP Tool Injection"));
    r.push(("settings.ai.toggle.tool_injection_on", "Tool Injection：On"));
    r.push(("settings.ai.toggle.tool_injection_off", "Tool Injection：Off"));
    r.push(("settings.ai.status.endpoint_ready", "AI 端点已就绪："));
    r.push(("settings.ai.status.endpoint_checking", "正在检查 AI 端点..."));
    r.push(("settings.ai.status.endpoint_ok", "AI 端点可达："));
    r.push(("settings.ai.status.endpoint_failed", "AI 端点不可达："));
    r.push(("settings.ai.button.apply_check", "应用并检查"));
    r.push(("settings.ai.card.provider.title", "AI Provider"));
    r.push(("settings.ai.card.provider.desc", "在本地 mock 与 VCP 后端兼容模式间切换。"));
    r.push(("settings.ai.card.endpoint.title", "VCP Endpoint"));
    r.push(("settings.ai.card.endpoint.desc", "选择 AI 请求的目标 VCPToolBox 服务端点。"));
    r.push(("settings.ai.card.model.title", "VCP Model"));
    r.push(("settings.ai.card.model.desc", "选择 VCP 兼容请求使用的默认模型名。"));
    r.push(("settings.ai.card.tool_loop.title", "Tool Loop"));
    r.push(("settings.ai.card.tool_loop.desc", "控制是否使用 VCP tool-injection endpoint。"));
    r.push(("settings.ai.card.connection.title", "Connection"));
    r.push(("settings.ai.card.connection.desc", "将当前 AI 设置应用到运行时环境变量。"));
    r.push(("settings.files.status.external_sync_enabled", "已启用外部同步"));
    r.push(("settings.files.status.external_sync_disabled", "已禁用外部同步"));
    r.push(("settings.files.status.prefer_wikilink_enabled", "已启用优先使用 Wiki Link 标题"));
    r.push(("settings.files.status.prefer_wikilink_disabled", "已禁用优先使用 Wiki Link 标题"));
    r.push(("settings.files.card.external_sync.title", "外部修改同步"));
    r.push(("settings.files.card.external_sync.desc", "是否通过 watcher 同步外部编辑器的更新。"));
    assert(table_views(r@) =~= zh_cn_table_3());
    r
}

fn zh_cn_part_4() -> (r: Vec<(&'static str, &'static str)>)
    ensures
        table_views(r@) == zh_cn_table_4(),
{
    let mut r: Vec<(&'static str, &'static str)> = Vec::new();
    r.push(("settings.files.card.wiki_pref.title", "Wiki 链接偏好"));
    r.push(("settings.files.card.wiki_pref.desc", "优先使用 wiki 标题解析，而非严格路径匹配。"));
    r.push(("settings.hotkeys.button.cancel", "取消"));
    r.push(("settings.hotkeys.button.edit", "编辑"));
    r.push(("settings.hotkeys.button.reset", "重置"));
    r.push(("settings.hotkeys.button.reset_all", "全部恢复默认"));
    r.push(("settings.hotkeys.placeholder.press_keys", "按下按键..."));
    r.push(("settings.hotkeys.status.reset_one", "已重置快捷键"));
    r.push(("settings.hotkeys.status.reset_one_failed", "重置快捷键失败"));
    r.push(("settings.hotkeys.status.shortcut_already_default", "快捷键已是默认"));
    r.push(("settings.hotkeys.status.reset_all", "已将所有快捷键恢复为默认"));
    r.push(("settings.hotkeys.status.reset_all_failed", "全部快捷键重置失败"));
    r.push(("settings.hotkeys.status.all_shortcuts_already_default", "所有快捷键均为默认"));
    r.push(("settings.hotkeys.card.shortcuts.title", "命令快捷键"));
    r.push(("settings.hotkeys.card.shortcuts.desc", "点击 Edit 后，在窗口中按新的按键组合以覆盖。"));
    r.push(("settings.hotkeys.tip", "提示：Esc 可退出编辑模式，覆盖项会持久化到设置。"));
    r.push(("settings.advanced.runtime_mode.process", "process"));
    r.push(("settings.advanced.runtime_mode.in_process", "in_process"));
    r.push(("settings.advanced.status.runtime_mode_set", "插件运行时模式已设置为"));
    r.push(("settings.advanced.watcher.enabled", "Watcher 已启用"));
    r.push(("settings.advanced.watcher.disabled", "Watcher 已禁用"));
    r.push(("settings.advanced.card.runtime_mode.title", "插件运行时模式"));
    r.push(("settings.advanced.card.runtime_mode.desc", "在 in-process 与 process-isolated 运行时之间切换。"));
    r.push(("settings.advanced.card.file_watcher.title", "文件 watcher"));
    r.push(("settings.advanced.card.file_watcher.desc", "启用或禁用外部文件同步 watcher。"));
    assert(table_views(r@) =~= zh_cn_table_4());
    r
}

fn zh_cn_part_5() -> (r: Vec<(&'static str, &'static str)>)
    ensures
        table_views(r@) == zh_cn_table_5(),
{
    let mut r: Vec<(&'static str, &'static str)> = Vec::new();
    r.push(("ai.hub.system.ready", "AI Hub 已就绪。"));
    r.push(("ai.hub.timestamp.now", "刚刚"));
    r.push(("ai.hub.session.title", "VCP 会话"));
    r.push(("ai.hub.status.chat_in_progress", "AI 对话处理中..."));
    r.push(("ai.hub.status.chat_empty_response", "AI 返回了空响应。"));
    r.push(("ai.hub.status.chat_completed_empty", "AI 对话完成（空响应）。"));
    r.push(("ai.hub.status.chat_done", "AI 对话完成"));
    r.push(("ai.hub.status.chat_failed", "AI 对话失败"));
    r.push(("ai.hub.status.rewrite_in_progress", "AI 改写处理中..."));
    r.push(("ai.hub.status.rewrite_applied", "AI 草稿已应用"));
    r.push(("ai.hub.status.rewrite_failed", "AI 改写失败"));
    r.push(("ai.hub.error.vault_not_opened", "AI 对话失败：未打开仓库。"));
    r.push(("ai.hub.error.read_vault_state", "AI 对话失败：无法读取仓库状态"));
    r.push(("ai.hub.error.input_empty", "AI 对话输入为空。"));
    r.push(("ai.hub.error.no_open_note", "AI 不可用：当前没有打开笔记。"));
    r.push(("ai.hub.error.empty_selection", "AI 改写不可用：选区为空。"));
    r.push(("ai.hub.error.invalid_selection_range", "AI 改写失败：选区范围无效。"));
    r.push(("ai.hub.error.rewrite_vault_not_opened", "AI 改写失败：未打开仓库。"));
    r.push(("ai.hub.error.rewrite_read_vault_state", "AI 改写失败：无法读取仓库状态"));
    r.push(("ai.hub.chat.instruction.base", "你是 XNote 的 AI 助手。请保持回答简洁、可执行，并围绕笔记上下文。"));
    r.push(("ai.hub.chat.instruction.context_header", "最近对话上下文："));
    r.push(("ai.hub.chat.instruction.user_prompt", "用户问题："));
    r.push(("ai.hub.trace.calls", "调用数"));
    r.push(("ai.hub.trace.rounds", "轮次"));
    r.push(("ai.hub.trace.stop", "停止原因"));
    assert(table_views(r@) =~= zh_cn_table_5());
    r
}

fn zh_cn_part_6() -> (r: Vec<(&'static str, &'static str)>)
    ensures
        table_views(r@) == zh_cn_table_6(),
{
    let mut r: Vec<(&'static str, &'static str)> = Vec::new();
    r.push(("ai.hub.trace.calls_suffix", "次调用"));
    r.push(("ai.hub.trace.args.none", "无参数"));
    r.push(("ai.hub.trace.stop.final_response", "最终响应"));
    r.push(("ai.hub.trace.stop.max_rounds", "达到最大轮次"));
    r.push(("ai.hub.trace.stop.unknown", "未知"));
    r.push(("ai.hub.ui.role.user", "你"));
    r.push(("ai.hub.ui.role.assistant", "助手"));
    r.push(("ai.hub.ui.role.system", "系统"));
    r.push(("ai.hub.ui.input.placeholder", "输入消息...（Shift+Enter 换行）"));
    r.push(("status.ready", "就绪"));
    r.push(("hint.open_vault", "打开仓库（Ctrl+O）"));
    r.push(("hint.vault_error", "仓库错误（Ctrl+O）"));
    r.push(("prompt.enter_vault_path", "请输入仓库文件夹路径。"));
    r.push(("prompt.vault_path_not_folder", "仓库路径不是文件夹。"));
    r.push(("palette.empty_commands", "无可用命令"));
    r.push(("palette.title.commands", "命令面板"));
    r.push(("palette.title.quick_open", "快速打开"));
    r.push(("palette.placeholder.commands", "输入命令..."));
    r.push(("palette.placeholder.quick_open", "输入以搜索..."));
    r.push(("palette.group.navigation", "导航"));
    r.push(("palette.group.files", "文件"));
    r.push(("palette.title.search", "搜索"));
    r.push(("palette.placeholder.search", "输入关键词搜索内容..."));
    r.push(("palette.group.search", "搜索结果"));
    r.push(("settings.ai.connection.not_checked", "No connection check yet. Click 'Apply & Check'."));
    assert(table_views(r@) =~= zh_cn_table_6());
    r
}

fn zh_cn_part_7() -> (r: Vec<(&'static str, &'static str)>)
    ensures
        table_views(r@) == zh_cn_table_7(),
{
    let mut r: Vec<(&'static str, &'static str)> = Vec::new();
    r.push(("ai.hub.ui.input.disabled_placeholder", "VCP disconnected: run Apply & Check in Settings > AI"));
    r.push(("ai.hub.error.vcp_not_checked", "VCP connection is not checked yet. Go to Settings > AI and click Apply & Check."));
    r.push(("ai.hub.error.vcp_not_connected", "VCP is not connected. Go to Settings > AI and fix endpoint/key, then Apply & Check."));
    r.push(("ai.hub.popup.connection.title", "需要 VCP 连接"));
    r.push(("ai.hub.popup.connection.action_settings", "打开 设置 > AI"));
    r.push(("ai.hub.popup.connection.action_close", "关闭"));
    assert(table_views(r@) =~= zh_cn_table_7());
    r
}

fn zh_cn_dict() -> (r: Vec<(&'static str, &'static str)>)
    ensures
        table_views(r@) == zh_cn_table(),
{
    let mut r = zh_cn_part_0();
    append_table(&mut r, zh_cn_part_1());
    append_table(&mut r, zh_cn_part_2());
    append_table(&mut r, zh_cn_part_3());
    append_table(&mut r, zh_cn_part_4());
    append_table(&mut r, zh_cn_part_5());
    append_table(&mut r, zh_cn_part_6());
    append_table(&mut r, zh_cn_part_7());
    assert(table_views(r@) =~= zh_cn_table());
    r
}

/// Interface texts for a locale, falling back to the other locale and then to the key.
pub struct I18n {
    locale: Locale,
    en_us: Vec<(&'static str, &'static str)>,
    zh_cn: Vec<(&'static str, &'static str)>,
}

/// The text shown for `key` in `locale`.
pub open spec fn text_for(locale: Locale, key: Seq<char>) -> Seq<char> {
    let (first, second) = match locale {
        Locale::EnUs => (en_us_table(), zh_cn_table()),
        Locale::ZhCn => (zh_cn_table(), en_us_table()),
    };
    match table_lookup(first, key) {
        Some(t) => t,
        None => match table_lookup(second, key) {
            Some(t) => t,
            None => key,
        },
    }
}

impl I18n {
    pub closed spec fn spec_locale(&self) -> Locale {
        self.locale
    }

    pub closed spec fn wf(&self) -> bool {
        table_views(self.en_us@) == en_us_table() && table_views(self.zh_cn@) == zh_cn_table()
    }

    pub fn new(locale: Locale) -> (r: I18n)
        ensures
            r.wf(),
            r.spec_locale() == locale,
    {
        I18n { locale, en_us: en_us_dict(), zh_cn: zh_cn_dict() }
    }

    pub fn set_locale(&mut self, locale: Locale)
        requires
            old(self).wf(),
        ensures
            final(self).wf(),
            final(self).spec_locale() == locale,
    {
        self.locale = locale;
    }

    pub fn text(&self, key: &str) -> (s: String)
        requires
            self.wf(),
        ensures
            s@ == text_for(self.spec_locale(), key@),
    {
        let k = chars_of(key);
        let (first, second) = match self.locale {
            Locale::EnUs => (&self.en_us, &self.zh_cn),
            Locale::ZhCn => (&self.zh_cn, &self.en_us),
        };
        match lookup(first, &k) {
            Some(t) => owned(t),
            None => match lookup(second, &k) {
                Some(t) => owned(t),
                None => owned(key),
            },
        }
    }
}

} // verus!
