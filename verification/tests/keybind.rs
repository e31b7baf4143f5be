use xnote_core::command::CommandId;
use xnote_core::keybind::{KeyChord, KeyContext, Keymap};

#[test]
fn parse_and_normalize_chords() {
    let chord = KeyChord::parse(" Ctrl + Shift + K ").expect("parse chord");
    assert!(chord.mods.ctrl);
    assert!(chord.mods.shift);
    assert_eq!(chord.key, "k");
    assert_eq!(chord.to_string(), "Ctrl+Shift+k");
}

#[test]
fn default_keymap_resolve_and_override() {
    let mut keymap = Keymap::default_keymap();
    assert_eq!(keymap.resolve("ctrl+o"), Some(CommandId::OpenVault));

    keymap.bind("Ctrl+Shift+O", CommandId::OpenVault);
    assert_eq!(keymap.resolve("ctrl+o"), None);
    assert_eq!(keymap.resolve("ctrl+shift+o"), Some(CommandId::OpenVault));
}

#[test]
fn resolve_event_matches_platform_control() {
    let keymap = Keymap::default_keymap();
    let cmd = keymap.resolve_event("s", true, false, false, false);
    assert_eq!(cmd, Some(CommandId::SaveFile));
}

#[test]
fn apply_overrides_with_validation() {
    let mut keymap = Keymap::default_keymap();
    keymap
        .apply_overrides(vec![("open_vault", "Ctrl+Shift+O")])
        .expect("apply override");
    assert_eq!(keymap.resolve("ctrl+shift+o"), Some(CommandId::OpenVault));

    let invalid = keymap.apply_overrides(vec![("open_vault", "Ctrl+Shift+O+P")]);
    assert!(invalid.is_err());
}

#[test]
fn resolve_with_context_expressions() {
    let mut keymap = Keymap::default_keymap();
    keymap
        .apply_contextual_overrides(
            vec![("quick_open", "Ctrl+P", "in_editor && !palette_open")],
            120,
        )
        .expect("apply contextual override");

    let editor_ctx = KeyContext::new()
        .with("in_editor", true)
        .with("palette_open", false);
    let palette_ctx = KeyContext::new()
        .with("in_editor", true)
        .with("palette_open", true);

    let resolved_editor =
        keymap.resolve_event_in_context("p", true, false, false, false, &editor_ctx);
    let resolved_palette =
        keymap.resolve_event_in_context("p", true, false, false, false, &palette_ctx);

    assert_eq!(resolved_editor, Some(CommandId::QuickOpen));
    assert_eq!(resolved_palette, Some(CommandId::QuickOpen));
}

#[test]
fn context_specific_binding_wins_by_priority() {
    let mut keymap = Keymap::default_keymap();
    keymap
        .apply_contextual_overrides(vec![("focus_search", "Alt+1", "search_panel")], 150)
        .expect("apply contextual override");

    let default_ctx = KeyContext::new();
    let search_ctx = KeyContext::new().with("search_panel", true);

    let default_cmd =
        keymap.resolve_event_in_context("1", false, true, false, false, &default_ctx);
    let search_cmd =
        keymap.resolve_event_in_context("1", false, true, false, false, &search_ctx);

    assert_eq!(default_cmd, Some(CommandId::FocusExplorer));
    assert_eq!(search_cmd, Some(CommandId::FocusSearch));
}

#[test]
fn normalized_chords_stay_normalized() {
    for raw in ["  shift + CTRL+p ", "cmd+Alt+k", "x", "Ctrl+Meta+Enter"] {
        let once = KeyChord::normalize_string(raw).expect("valid chord");
        assert_eq!(KeyChord::normalize_string(&once), Some(once.clone()));
    }
    assert_eq!(KeyChord::normalize_string("ctrl+a+b"), None);
    assert_eq!(KeyChord::normalize_string("ctrl+shift"), None);
}
