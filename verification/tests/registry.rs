use patois::catalog::Catalog;
use patois::registry::{load_catalog, locale_chain, normalize_locale, Lookup, Registry};
use patois::{get_locale, init, nt, set_locale, t, EmbeddedDomain};

#[test]
fn normalize_various_forms() {
    assert_eq!(normalize_locale("en-US"), "en_US");
    assert_eq!(normalize_locale("DE_de"), "de_DE");
    assert_eq!(normalize_locale("fr"), "fr");
}

#[test]
fn locale_chain_expands_region() {
    assert_eq!(locale_chain("de_DE"), vec!["de_DE", "de"]);
    assert_eq!(locale_chain("fr"), vec!["fr"]);
}

fn mo(entries: &[(&str, &str)]) -> Vec<u8> {
    let n = entries.len() as u32;
    let mut tables: Vec<u8> = Vec::new();
    let mut strings: Vec<u8> = Vec::new();
    let base = 28 + 16 * n;
    let mut orig: Vec<u8> = Vec::new();
    let mut trans: Vec<u8> = Vec::new();
    for (k, _) in entries {
        orig.extend_from_slice(&(k.len() as u32).to_le_bytes());
        orig.extend_from_slice(&(base + strings.len() as u32).to_le_bytes());
        strings.extend_from_slice(k.as_bytes());
        strings.push(0);
    }
    for (_, v) in entries {
        trans.extend_from_slice(&(v.len() as u32).to_le_bytes());
        trans.extend_from_slice(&(base + strings.len() as u32).to_le_bytes());
        strings.extend_from_slice(v.as_bytes());
        strings.push(0);
    }
    tables.extend_from_slice(&orig);
    tables.extend_from_slice(&trans);
    let mut out: Vec<u8> = Vec::new();
    for w in [0x9504_12DEu32, 0, n, 28, 28 + 8 * n, 0, 0] {
        out.extend_from_slice(&w.to_le_bytes());
    }
    out.extend_from_slice(&tables);
    out.extend_from_slice(&strings);
    out
}

fn found(l: Lookup) -> String {
    match l {
        Lookup::Found(s) => s,
        Lookup::Load { locale, domain } => panic!("needs {domain} for {locale}"),
    }
}

#[test]
fn a_lookup_asks_for_its_catalog_then_answers_from_it() {
    let mut reg = Registry::new();
    init(&mut reg, "app", "/langs", "de-de");
    assert_eq!(get_locale(&reg), "de_DE");
    match t(&reg, "Hello") {
        Lookup::Load { locale, domain } => {
            assert_eq!((locale.as_str(), domain.as_str()), ("de_DE", "app"));
        }
        Lookup::Found(s) => panic!("answered {s} without a catalog"),
    }
    reg.store_catalog("de_DE", "app", Catalog::parse(&mo(&[("Hello", "Hallo")])));
    assert_eq!(found(t(&reg, "Hello")), "Hallo");
    assert_eq!(found(t(&reg, "Bye")), "Bye");
}

#[test]
fn a_domain_without_a_catalog_falls_back_to_the_default_domain() {
    let mut reg = Registry::new();
    init(&mut reg, "app", "/langs", "fr");
    reg.store_catalog("fr", "lib", None);
    match reg.translate("lib", "Hello") {
        Lookup::Load { domain, .. } => assert_eq!(domain, "app"),
        Lookup::Found(s) => panic!("answered {s}"),
    }
    reg.store_catalog("fr", "app", Catalog::parse(&mo(&[("Hello", "Bonjour")])));
    assert_eq!(found(reg.translate("lib", "Hello")), "Bonjour");
}

#[test]
fn without_any_catalog_the_text_comes_back_unchanged() {
    let mut reg = Registry::new();
    assert_eq!(found(t(&reg, "Hello")), "Hello");
    assert_eq!(found(nt(&reg, "item", "items", 1)), "item");
    assert_eq!(found(nt(&reg, "item", "items", 2)), "items");
    init(&mut reg, "app", "/langs", "it");
    reg.store_catalog("it", "app", None);
    assert_eq!(found(t(&reg, "Hello")), "Hello");
    assert_eq!(found(nt(&reg, "item", "items", 3)), "items");
}

#[test]
fn plural_lookups_pick_the_form_for_the_count() {
    let mut reg = Registry::new();
    init(&mut reg, "app", "/langs", "de");
    reg.store_catalog("de", "app", Catalog::parse(&mo(&[("file\0files", "Datei\0Dateien")])));
    assert_eq!(found(nt(&reg, "file", "files", 1)), "Datei");
    assert_eq!(found(nt(&reg, "file", "files", 2)), "Dateien");
}

#[test]
fn switching_locale_drops_loaded_catalogs() {
    let mut reg = Registry::new();
    init(&mut reg, "app", "/langs", "de");
    reg.store_catalog("de", "app", Catalog::parse(&mo(&[("Hello", "Hallo")])));
    set_locale(&mut reg, "de");
    assert_eq!(found(t(&reg, "Hello")), "Hallo");
    set_locale(&mut reg, "fr");
    assert!(matches!(t(&reg, "Hello"), Lookup::Load { .. }));
    set_locale(&mut reg, "de");
    assert!(matches!(t(&reg, "Hello"), Lookup::Load { .. }));
}

#[test]
fn a_stored_catalog_is_not_replaced() {
    let mut reg = Registry::new();
    init(&mut reg, "app", "/langs", "de");
    reg.store_catalog("de", "app", Catalog::parse(&mo(&[("Hello", "Hallo")])));
    reg.store_catalog("de", "app", Catalog::parse(&mo(&[("Hello", "Servus")])));
    assert_eq!(found(t(&reg, "Hello")), "Hallo");
}

#[test]
fn registering_a_new_directory_drops_that_domains_catalogs() {
    let mut reg = Registry::new();
    init(&mut reg, "app", "/langs", "de");
    reg.store_catalog("de", "app", Catalog::parse(&mo(&[("Hello", "Hallo")])));
    reg.register_path("app", "/langs");
    assert_eq!(found(t(&reg, "Hello")), "Hallo");
    reg.register_path("app", "/other");
    assert_eq!(reg.catalog_dir("app"), Some("/other"));
    assert!(matches!(t(&reg, "Hello"), Lookup::Load { .. }));
}

#[test]
fn embedded_catalogs_win_and_the_chain_falls_back_to_the_language() {
    let de = mo(&[("Hello", "Hallo (eingebettet)")]);
    let de_bytes: &'static [u8] = Box::leak(de.into_boxed_slice());
    let files: &'static [(&'static str, &'static [u8])] = Box::leak(vec![("de", de_bytes)].into_boxed_slice());
    let embedded = [EmbeddedDomain { name: "lib", files }, EmbeddedDomain { name: "other", files: &[] }];
    let from_disk = mo(&[("Hello", "Hallo (Datei)")]);
    let cat = load_catalog(&embedded, "lib", "de_AT", &[None, Some(from_disk.clone())]).unwrap();
    assert_eq!(cat.gettext("Hello"), "Hallo (eingebettet)");
    let cat = load_catalog(&embedded, "app", "de_AT", &[Some(vec![1, 2, 3]), Some(from_disk)]).unwrap();
    assert_eq!(cat.gettext("Hello"), "Hallo (Datei)");
    assert!(load_catalog(&embedded, "app", "fr", &[None]).is_none());
}

#[test]
fn the_same_directory_written_differently_keeps_the_catalogs() {
    let mut reg = Registry::new();
    init(&mut reg, "app", "/langs", "de");
    reg.store_catalog("de", "app", Catalog::parse(&mo(&[("Hello", "Hallo")])));
    reg.register_path("app", "/langs/");
    reg.register_path("app", "//langs/./");
    assert_eq!(reg.catalog_dir("app"), Some("/langs"));
    assert_eq!(found(t(&reg, "Hello")), "Hallo");
    reg.register_path("app", "langs");
    assert!(matches!(t(&reg, "Hello"), Lookup::Load { .. }));
}

#[test]
fn registering_with_a_decided_comparison() {
    let mut reg = Registry::new();
    init(&mut reg, "app", "/langs", "de");
    reg.store_catalog("de", "app", Catalog::parse(&mo(&[("Hello", "Hallo")])));
    reg.register_path_with("app", "/somewhere", true);
    assert_eq!(reg.catalog_dir("app"), Some("/langs"));
    assert_eq!(found(t(&reg, "Hello")), "Hallo");
    reg.register_path_with("app", "/langs", false);
    assert_eq!(reg.catalog_dir("app"), Some("/langs"));
    assert!(matches!(t(&reg, "Hello"), Lookup::Load { .. }));
    reg.register_path_with("lib", "/libs", true);
    assert_eq!(reg.catalog_dir("lib"), Some("/libs"));
}
