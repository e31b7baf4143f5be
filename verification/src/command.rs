//! Editor commands: their identifiers, names and default shortcuts.
use vstd::prelude::*;
use crate::text::{trimmed, eq_str, trim};

verus! {

/// A command that the editor can run.
#[derive(Clone, Copy, Debug, PartialEq, Eq, Hash, Structural)]
pub enum CommandId {
    OpenVault,
    QuickOpen,
    CommandPalette,
    Settings,
    ReloadVault,
    NewNote,
    SaveFile,
    Undo,
    Redo,
    ToggleSplit,
    FocusExplorer,
    FocusSearch,
    AiRewriteSelection,
}

/// The stable name of a command.
pub open spec fn command_name(c: CommandId) -> Seq<char> {
    match c {
        CommandId::OpenVault => "open_vault"@,
        CommandId::QuickOpen => "quick_open"@,
        CommandId::CommandPalette => "command_palette"@,
        CommandId::Settings => "settings"@,
        CommandId::ReloadVault => "reload_vault"@,
        CommandId::NewNote => "new_note"@,
        CommandId::SaveFile => "save_file"@,
        CommandId::Undo => "undo"@,
        CommandId::Redo => "redo"@,
        CommandId::ToggleSplit => "toggle_split"@,
        CommandId::FocusExplorer => "focus_explorer"@,
        CommandId::FocusSearch => "focus_search"@,
        CommandId::AiRewriteSelection => "ai_rewrite_selection"@,
    }
}

/// The command named by `input`, surrounding whitespace aside.
pub open spec fn command_named(input: Seq<char>) -> Option<CommandId> {
    let t = trim(input);
    if t == "open_vault"@ {
        Some(CommandId::OpenVault)
    } else if t == "quick_open"@ {
        Some(CommandId::QuickOpen)
    } else if t == "command_palette"@ {
        Some(CommandId::CommandPalette)
    } else if t == "settings"@ {
        Some(CommandId::Settings)
    } else if t == "reload_vault"@ {
        Some(CommandId::ReloadVault)
    } else if t == "new_note"@ {
        Some(CommandId::NewNote)
    } else if t == "save_file"@ {
        Some(CommandId::SaveFile)
    } else if t == "undo"@ {
        Some(CommandId::Undo)
    } else if t == "redo"@ {
        Some(CommandId::Redo)
    } else if t == "toggle_split"@ {
        Some(CommandId::ToggleSplit)
    } else if t == "focus_explorer"@ {
        Some(CommandId::FocusExplorer)
    } else if t == "focus_search"@ {
        Some(CommandId::FocusSearch)
    } else if t == "ai_rewrite_selection"@ {
        Some(CommandId::AiRewriteSelection)
    } else {
        None
    }
}

impl CommandId {
    pub fn as_str(self) -> (s: &'static str)
        ensures
            s@ == command_name(self),
    {
        match self {
            CommandId::OpenVault => "open_vault",
            CommandId::QuickOpen => "quick_open",
            CommandId::CommandPalette => "command_palette",
            CommandId::Settings => "settings",
            CommandId::ReloadVault => "reload_vault",
            CommandId::NewNote => "new_note",
            CommandId::SaveFile => "save_file",
            CommandId::Undo => "undo",
            CommandId::Redo => "redo",
            CommandId::ToggleSplit => "toggle_split",
            CommandId::FocusExplorer => "focus_explorer",
            CommandId::FocusSearch => "focus_search",
            CommandId::AiRewriteSelection => "ai_rewrite_selection",
        }
    }

    /// The command whose name is `input` once surrounding whitespace is trimmed.
    pub fn parse(input: &str) -> (r: Option<CommandId>)
        ensures
            r == command_named(input@),
            r matches Some(c) ==> command_name(c) == trim(input@),
            r is None ==> forall|c: CommandId| command_name(c) != trim(input@),
    {
        let t = trimmed(input);
        if eq_str(&t, "open_vault") {
            return Some(CommandId::OpenVault);
        }
        if eq_str(&t, "quick_open") {
            return Some(CommandId::QuickOpen);
        }
        if eq_str(&t, "command_palette") {
            return Some(CommandId::CommandPalette);
        }
        if eq_str(&t, "settings") {
            return Some(CommandId::Settings);
        }
        if eq_str(&t, "reload_vault") {
            return Some(CommandId::ReloadVault);
        }
        if eq_str(&t, "new_note") {
            return Some(CommandId::NewNote);
        }
        if eq_str(&t, "save_file") {
            return Some(CommandId::SaveFile);
        }
        if eq_str(&t, "undo") {
            return Some(CommandId::Undo);
        }
        if eq_str(&t, "redo") {
            return Some(CommandId::Redo);
        }
        if eq_str(&t, "toggle_split") {
            return Some(CommandId::ToggleSplit);
        }
        if eq_str(&t, "focus_explorer") {
            return Some(CommandId::FocusExplorer);
        }
        if eq_str(&t, "focus_search") {
            return Some(CommandId::FocusSearch);
        }
        if eq_str(&t, "ai_rewrite_selection") {
            return Some(CommandId::AiRewriteSelection);
        }
        None
    }
}

impl std::str::FromStr for CommandId {
    type Err = ();

    fn from_str(input: &str) -> Result<CommandId, ()> {
        match CommandId::parse(input) {
            Some(c) => Ok(c),
            None => Err(()),
        }
    }
}

/// A command with its label and detail keys and its default shortcut.
#[derive(Clone, Copy, Debug)]
pub struct CommandSpec {
    pub id: CommandId,
    pub label_key: &'static str,
    pub detail_key: &'static str,
    pub default_shortcut: &'static str,
}

/// The default shortcut of each command (empty where it has none).
pub open spec fn default_shortcut_of(c: CommandId) -> Seq<char> {
    match c {
        CommandId::OpenVault => "Ctrl+O"@,
        CommandId::QuickOpen => "Ctrl+P"@,
        CommandId::CommandPalette => "Ctrl+K"@,
        CommandId::Settings => "Ctrl+,"@,
        CommandId::ReloadVault => "Ctrl+R"@,
        CommandId::NewNote => "Ctrl+N"@,
        CommandId::SaveFile => "Ctrl+S"@,
        CommandId::Undo => "Ctrl+Z"@,
        CommandId::Redo => "Ctrl+Y"@,
        CommandId::ToggleSplit => "Ctrl+\\"@,
        CommandId::FocusExplorer => "Alt+1"@,
        CommandId::FocusSearch => "Alt+2"@,
        CommandId::AiRewriteSelection => ""@,
    }
}

/// The commands in menu order.
pub open spec fn command_order() -> Seq<CommandId> {
    seq![
        CommandId::OpenVault,
        CommandId::QuickOpen,
        CommandId::CommandPalette,
        CommandId::Settings,
        CommandId::ReloadVault,
        CommandId::NewNote,
        CommandId::SaveFile,
        CommandId::Undo,
        CommandId::Redo,
        CommandId::ToggleSplit,
        CommandId::FocusExplorer,
        CommandId::FocusSearch,
        CommandId::AiRewriteSelection,
    ]
}

pub open spec fn spec_matches(s: CommandSpec, c: CommandId) -> bool {
    s.id == c && s.label_key@ == "cmd."@ + command_name(c) + ".label"@ && s.detail_key@ == "cmd."@
        + command_name(c) + ".detail"@ && s.default_shortcut@ == default_shortcut_of(c)
}

/// Every command once, in menu order, with its keys and default shortcut.
pub fn command_specs() -> (r: Vec<CommandSpec>)
    ensures
        r.len() == command_order().len(),
        forall|i: int| 0 <= i < r.len() ==> spec_matches(#[trigger] r@[i], command_order()[i]),
{
    let mut r: Vec<CommandSpec> = Vec::new();
    r.push(
        CommandSpec {
            id: CommandId::OpenVault,
            label_key: "cmd.open_vault.label",
            detail_key: "cmd.open_vault.detail",
            default_shortcut: "Ctrl+O",
        },
    );
    r.push(
        CommandSpec {
            id: CommandId::QuickOpen,
            label_key: "cmd.quick_open.label",
            detail_key: "cmd.quick_open.detail",
            default_shortcut: "Ctrl+P",
        },
    );
    r.push(
        CommandSpec {
            id: CommandId::CommandPalette,
            label_key: "cmd.command_palette.label",
            detail_key: "cmd.command_palette.detail",
            default_shortcut: "Ctrl+K",
        },
    );
    r.push(
        CommandSpec {
            id: CommandId::Settings,
            label_key: "cmd.settings.label",
            detail_key: "cmd.settings.detail",
            default_shortcut: "Ctrl+,",
        },
    );
    r.push(
        CommandSpec {
            id: CommandId::ReloadVault,
            label_key: "cmd.reload_vault.label",
            detail_key: "cmd.reload_vault.detail",
            default_shortcut: "Ctrl+R",
        },
    );
    r.push(
        CommandSpec {
            id: CommandId::NewNote,
            label_key: "cmd.new_note.label",
            detail_key: "cmd.new_note.detail",
            default_shortcut: "Ctrl+N",
        },
    );
    r.push(
        CommandSpec {
            id: CommandId::SaveFile,
            label_key: "cmd.save_file.label",
            detail_key: "cmd.save_file.detail",
            default_shortcut: "Ctrl+S",
        },
    );
    r.push(
        CommandSpec {
            id: CommandId::Undo,
            label_key: "cmd.undo.label",
            detail_key: "cmd.undo.detail",
            default_shortcut: "Ctrl+Z",
        },
    );
    r.push(
        CommandSpec {
            id: CommandId::Redo,
            label_key: "cmd.redo.label",
            detail_key: "cmd.redo.detail",
            default_shortcut: "Ctrl+Y",
        },
    );
    r.push(
        CommandSpec {
            id: CommandId::ToggleSplit,
            label_key: "cmd.toggle_split.label",
            detail_key: "cmd.toggle_split.detail",
            default_shortcut: "Ctrl+\\",
        },
    );
    r.push(
        CommandSpec {
            id: CommandId::FocusExplorer,
            label_key: "cmd.focus_explorer.label",
            detail_key: "cmd.focus_explorer.detail",
            default_shortcut: "Alt+1",
        },
    );
    r.push(
        CommandSpec {
            id: CommandId::FocusSearch,
            label_key: "cmd.focus_search.label",
            detail_key: "cmd.focus_search.detail",
            default_shortcut: "Alt+2",
        },
    );
    r.push(
        CommandSpec {
            id: CommandId::AiRewriteSelection,
            label_key: "cmd.ai_rewrite_selection.label",
            detail_key: "cmd.ai_rewrite_selection.detail",
            default_shortcut: "",
        },
    );
    proof {
        reveal_strlit("cmd.open_vault.label");
        reveal_strlit("cmd.open_vault.detail");
        reveal_strlit("open_vault");
        reveal_strlit("cmd.quick_open.label");
        reveal_strlit("cmd.quick_open.detail");
        reveal_strlit("quick_open");
        reveal_strlit("cmd.command_palette.label");
        reveal_strlit("cmd.command_palette.detail");
        reveal_strlit("command_palette");
        reveal_strlit("cmd.settings.label");
        reveal_strlit("cmd.settings.detail");
        reveal_strlit("settings");
        reveal_strlit("cmd.reload_vault.label");
        reveal_strlit("cmd.reload_vault.detail");
        reveal_strlit("reload_vault");
        reveal_strlit("cmd.new_note.label");
        reveal_strlit("cmd.new_note.detail");
        reveal_strlit("new_note");
        reveal_strlit("cmd.save_file.label");
        reveal_strlit("cmd.save_file.detail");
        reveal_strlit("save_file");
        reveal_strlit("cmd.undo.label");
        reveal_strlit("cmd.undo.detail");
        reveal_strlit("undo");
        reveal_strlit("cmd.redo.label");
        reveal_strlit("cmd.redo.detail");
        reveal_strlit("redo");
        reveal_strlit("cmd.toggle_split.label");
        reveal_strlit("cmd.toggle_split.detail");
        reveal_strlit("toggle_split");
        reveal_strlit("cmd.focus_explorer.label");
        reveal_strlit("cmd.focus_explorer.detail");
        reveal_strlit("focus_explorer");
        reveal_strlit("cmd.focus_search.label");
        reveal_strlit("cmd.focus_search.detail");
        reveal_strlit("focus_search");
        reveal_strlit("cmd.ai_rewrite_selection.label");
        reveal_strlit("cmd.ai_rewrite_selection.detail");
        reveal_strlit("ai_rewrite_selection");
        reveal_strlit("cmd.");
        reveal_strlit(".label");
        reveal_strlit(".detail");
        assert forall|i: int| 0 <= i < r.len() implies spec_matches(#[trigger] r@[i], command_order()[i]) by {
            assert("cmd.open_vault.label"@ =~= "cmd."@ + "open_vault"@ + ".label"@);
            assert("cmd.open_vault.detail"@ =~= "cmd."@ + "open_vault"@ + ".detail"@);
            assert("cmd.quick_open.label"@ =~= "cmd."@ + "quick_open"@ + ".label"@);
            assert("cmd.quick_open.detail"@ =~= "cmd."@ + "quick_open"@ + ".detail"@);
            assert("cmd.command_palette.label"@ =~= "cmd."@ + "command_palette"@ + ".label"@);
            assert("cmd.command_palette.detail"@ =~= "cmd."@ + "command_palette"@ + ".detail"@);
            assert("cmd.settings.label"@ =~= "cmd."@ + "settings"@ + ".label"@);
            assert("cmd.settings.detail"@ =~= "cmd."@ + "settings"@ + ".detail"@);
            assert("cmd.reload_vault.label"@ =~= "cmd."@ + "reload_vault"@ + ".label"@);
            assert("cmd.reload_vault.detail"@ =~= "cmd."@ + "reload_vault"@ + ".detail"@);
            assert("cmd.new_note.label"@ =~= "cmd."@ + "new_note"@ + ".label"@);
            assert("cmd.new_note.detail"@ =~= "cmd."@ + "new_note"@ + ".detail"@);
            assert("cmd.save_file.label"@ =~= "cmd."@ + "save_file"@ + ".label"@);
            assert("cmd.save_file.detail"@ =~= "cmd."@ + "save_file"@ + ".detail"@);
            assert("cmd.undo.label"@ =~= "cmd."@ + "undo"@ + ".label"@);
            assert("cmd.undo.detail"@ =~= "cmd."@ + "undo"@ + ".detail"@);
            assert("cmd.redo.label"@ =~= "cmd."@ + "redo"@ + ".label"@);
            assert("cmd.redo.detail"@ =~= "cmd."@ + "redo"@ + ".detail"@);
            assert("cmd.toggle_split.label"@ =~= "cmd."@ + "toggle_split"@ + ".label"@);
            assert("cmd.toggle_split.detail"@ =~= "cmd."@ + "toggle_split"@ + ".detail"@);
            assert("cmd.focus_explorer.label"@ =~= "cmd."@ + "focus_explorer"@ + ".label"@);
            assert("cmd.focus_explorer.detail"@ =~= "cmd."@ + "focus_explorer"@ + ".detail"@);
            assert("cmd.focus_search.label"@ =~= "cmd."@ + "focus_search"@ + ".label"@);
            assert("cmd.focus_search.detail"@ =~= "cmd."@ + "focus_search"@ + ".detail"@);
            assert("cmd.ai_rewrite_selection.label"@ =~= "cmd."@ + "ai_rewrite_selection"@ + ".label"@);
            assert("cmd.ai_rewrite_selection.detail"@ =~= "cmd."@ + "ai_rewrite_selection"@ + ".detail"@);
        }
    }
    r
}

} // verus!
