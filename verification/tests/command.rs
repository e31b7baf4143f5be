use xnote_core::command::{command_specs, CommandId};

#[test]
fn command_names_round_trip() {
    for spec in command_specs() {
        assert_eq!(CommandId::parse(spec.id.as_str()), Some(spec.id));
        assert_eq!(spec.label_key, format!("cmd.{}.label", spec.id.as_str()));
        assert_eq!(spec.detail_key, format!("cmd.{}.detail", spec.id.as_str()));
    }
    assert_eq!(CommandId::parse("quick_open"), Some(CommandId::QuickOpen));
    assert_eq!(CommandId::parse("nope"), None);
}

#[test]
fn command_specs_in_menu_order() {
    let specs = command_specs();
    assert_eq!(specs.len(), 13);
    assert_eq!(specs[0].id, CommandId::OpenVault);
    assert_eq!(specs[0].default_shortcut, "Ctrl+O");
    assert_eq!(specs[12].id, CommandId::AiRewriteSelection);
    assert_eq!(specs[12].default_shortcut, "");
}
