use patois::lang::{language_name, LanguageManager};
use patois::registry::Registry;

#[test]
fn language_name_known() {
    assert_eq!(language_name("de"), "Deutsch");
    assert_eq!(language_name("pt_br"), "Português (Brasil)");
    assert_eq!(language_name("pt_BR"), "Português (Brasil)");
    assert_eq!(language_name("zh_CN"), "中文（简体）");
}

#[test]
fn language_name_unknown_returns_code() {
    assert_eq!(language_name("xx"), "xx");
    assert_eq!(language_name("tok"), "tok");
}

#[test]
fn english_comes_first_and_the_rest_by_native_name() {
    let mgr = LanguageManager::new("app");
    let locales: Vec<String> = ["fr", "en", "de", "zz", "es"].iter().map(|s| s.to_string()).collect();
    let got: Vec<(String, String)> = mgr.available(&locales).into_iter().map(|l| (l.code, l.name)).collect();
    let want: Vec<(String, String)> = [
        ("en", "English"),
        ("de", "Deutsch"),
        ("es", "Español"),
        ("fr", "Français"),
        ("zz", "zz"),
    ]
    .iter()
    .map(|(a, b)| (a.to_string(), b.to_string()))
    .collect();
    assert_eq!(got, want);
}

#[test]
fn equal_names_keep_their_order() {
    let mgr = LanguageManager::new("app");
    let locales: Vec<String> = ["de_ch", "de", "de_at"].iter().map(|s| s.to_string()).collect();
    let codes: Vec<String> = mgr.available(&locales).into_iter().map(|l| l.code).collect();
    assert_eq!(codes, vec!["en", "de_ch", "de", "de_at"]);
}

#[test]
fn only_english_or_an_available_code_can_be_set() {
    let mgr = LanguageManager::new("app");
    let mut reg = Registry::new();
    let locales = vec!["de".to_string()];
    assert!(mgr.set(&mut reg, "de", &locales));
    assert_eq!(mgr.current(&reg), "de");
    assert!(!mgr.set(&mut reg, "fr", &locales));
    assert_eq!(mgr.current(&reg), "de");
    assert!(mgr.set(&mut reg, "en", &locales));
    assert_eq!(mgr.current(&reg), "en");
}

#[test]
fn the_system_language_falls_back_to_english() {
    assert_eq!(LanguageManager::system_language(None), "en");
    assert_eq!(LanguageManager::system_language(Some("pt_BR")), "pt_BR");
}
