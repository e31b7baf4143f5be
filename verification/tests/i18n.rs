use xnote_core::i18n::{I18n, Locale};

#[test]
fn locale_tags() {
    assert_eq!(Locale::from_tag(" EN-us "), Some(Locale::EnUs));
    assert_eq!(Locale::from_tag("zh"), Some(Locale::ZhCn));
    assert_eq!(Locale::from_tag("fr"), None);
    assert_eq!(Locale::EnUs.as_tag(), "en-US");
    assert_eq!(Locale::ZhCn.as_tag(), "zh-CN");
}

#[test]
fn texts_follow_the_locale_and_fall_back_to_the_key() {
    let mut i18n = I18n::new(Locale::EnUs);
    assert_eq!(i18n.text("cmd.open_vault.label"), "Open vault");
    i18n.set_locale(Locale::ZhCn);
    assert_eq!(i18n.text("cmd.open_vault.label"), "打开仓库");
    assert_eq!(i18n.text("no.such.key"), "no.such.key");
}
