use xnote_core::settings::{AppSettings, KeymapRule};
use xnote_core::sorted::map_insert;

#[test]
fn build_keymap_from_overrides_and_context_rules() {
    let mut settings = AppSettings::default();
    map_insert(
        &mut settings.keymap_overrides,
        "open_vault".to_string(),
        "Ctrl+Shift+O".to_string(),
    );
    settings.keymap_contextual.push(KeymapRule {
        command: "focus_search".to_string(),
        chord: "Alt+1".to_string(),
        when: "search_panel".to_string(),
    });

    let keymap = settings.build_keymap().expect("build keymap");
    assert_eq!(
        keymap.resolve("ctrl+shift+o"),
        Some(xnote_core::command::CommandId::OpenVault)
    );
}

