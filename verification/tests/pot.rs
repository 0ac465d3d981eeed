use patois::pot::{package_version, pot_changed, preserve_foreign_entries, strip_format_flags, translatable_manifests, PackageMeta};

#[test]
fn strip_format_flags_drops_c_format_lines_but_keeps_other_flags() {
    let content = "\
#. a comment
#, c-format
msgid \"Page %d\"
msgstr \"\"

#, fuzzy, c-format
msgid \"Old %s\"
msgstr \"\"

#, fuzzy
msgid \"Cancel\"
msgstr \"\"

msgid \"No flags here\"
msgstr \"\"
";
    let result = strip_format_flags(content);
    assert!(!result.contains("c-format"));
    assert!(result.contains("#, fuzzy\nmsgid \"Old %s\""));
    assert!(result.contains("#, fuzzy\nmsgid \"Cancel\""));
    assert!(result.contains("msgid \"No flags here\""));
    assert!(result.starts_with("#. a comment\nmsgid \"Page %d\""));
}

#[test]
fn preserve_foreign_entries_keeps_plural_entries_intact() {
    let old = "msgid \"\"\nmsgstr \"\"\n\nmsgid \"{} result\"\nmsgid_plural \"{} results\"\nmsgstr[0] \"\"\nmsgstr[1] \"\"\n";
    let new = "msgid \"\"\nmsgstr \"\"\n";
    let result = preserve_foreign_entries(old, new).unwrap();
    assert!(result.contains("msgid \"{} result\"\nmsgid_plural \"{} results\""));
    assert!(result.contains("msgstr[0] \"\""));
    assert!(result.contains("msgstr[1] \"\""));
}

#[test]
fn nothing_to_carry_across_leaves_the_new_pot_alone() {
    let pot = "msgid \"\"\nmsgstr \"\"\n\nmsgid \"A\"\nmsgstr \"\"\n";
    assert_eq!(preserve_foreign_entries(pot, pot), None);
}

#[test]
fn only_the_creation_date_does_not_count_as_a_change() {
    let a = "msgid \"\"\nmsgstr \"\"\n\"POT-Creation-Date: 2024-01-01\\n\"\n\nmsgid \"A\"\nmsgstr \"\"\n";
    let b = a.replace("2024-01-01", "2025-06-30");
    assert!(!pot_changed(a, &b));
    assert!(pot_changed(a, &b.replace("\"A\"", "\"B\"")));
}

fn pkg(name: Option<&str>, version: Option<&str>, manifest: Option<&str>, translatable: bool) -> PackageMeta {
    PackageMeta {
        name: name.map(str::to_string),
        version: version.map(str::to_string),
        manifest_path: manifest.map(str::to_string),
        translatable,
    }
}

#[test]
fn translatable_packages_are_taken_in_name_order() {
    let packages = vec![
        pkg(Some("zeta"), Some("1.0.0"), Some("/z/Cargo.toml"), true),
        pkg(Some("alpha"), Some("2.0.0"), Some("/a/Cargo.toml"), true),
        pkg(Some("mid"), None, None, false),
    ];
    assert_eq!(translatable_manifests(&packages), Some(vec!["/a/Cargo.toml".to_string(), "/z/Cargo.toml".to_string()]));
    assert_eq!(package_version(&packages, "zeta"), "1.0.0");
    assert_eq!(package_version(&packages, "mid"), "0.0.0");
    assert_eq!(package_version(&packages, "absent"), "0.0.0");
}

#[test]
fn a_translatable_package_without_a_manifest_is_an_error() {
    let packages = vec![pkg(Some("a"), None, None, true)];
    assert_eq!(translatable_manifests(&packages), None);
}

#[test]
fn every_old_msgid_survives_a_regeneration() {
    let old = "msgid \"\"\nmsgstr \"\"\n\n#. shown on the iOS screen\n#: swift\nmsgid \"Tap to retry\"\nmsgstr \"\"\n\nmsgid \"Kept\"\nmsgstr \"\"\n\n#: kotlin\nmsgid \"{} file\"\nmsgid_plural \"{} files\"\nmsgstr[0] \"\"\nmsgstr[1] \"\"\n";
    let new = "msgid \"\"\nmsgstr \"\"\n\nmsgid \"Kept\"\nmsgstr \"\"\n";
    let merged = preserve_foreign_entries(old, new).expect("two entries to carry across");
    let ids = patois::entries::collect_pot_msgids(&merged);
    assert_eq!(ids, vec!["Kept".to_string(), "Tap to retry".to_string(), "{} file".to_string()]);
    let entries = patois::entries::collect_pot_entries_ordered(&merged);
    assert_eq!(entries[2].msgid_plural.as_deref(), Some("{} files"));
    assert_eq!(entries[1].reference.as_deref(), Some("swift"));
}

#[test]
fn a_regeneration_is_planned_from_cargo_metadata() {
    let json = br#"{"packages":[
        {"name":"zeta","version":"0.2.0","manifest_path":"/w/zeta/Cargo.toml","metadata":{"patois":{"translatable":true}}},
        {"name":"app","version":"1.4.0","manifest_path":"/w/app/Cargo.toml","metadata":{"patois":{"translatable":true}}},
        {"name":"serde","version":"1.0.0","manifest_path":"/r/serde/Cargo.toml","metadata":null},
        {"name":"odd","version":"0.1.0","manifest_path":"/w/odd/Cargo.toml","metadata":{"patois":{"translatable":"yes"}}}
    ]}"#;
    let (manifests, version) = patois::pot::regeneration_plan(json, "app").ok().unwrap();
    assert_eq!(manifests, vec!["/w/app/Cargo.toml".to_string(), "/w/zeta/Cargo.toml".to_string()]);
    assert_eq!(version, "1.4.0");
    let (_, version) = patois::pot::regeneration_plan(json, "missing").ok().unwrap();
    assert_eq!(version, "0.0.0");
    assert!(matches!(patois::pot::regeneration_plan(b"not json", "app"), Err(patois::pot::PlanError::Unreadable)));
    assert!(matches!(patois::pot::regeneration_plan(br#"{"other":[]}"#, "app"), Err(patois::pot::PlanError::Unreadable)));
    let broken = br#"{"packages":[{"name":"app","metadata":{"patois":{"translatable":true}}}]}"#;
    assert!(matches!(patois::pot::regeneration_plan(broken, "app"), Err(patois::pot::PlanError::MissingManifestPath)));
    let packages = patois::pot::cargo_packages(json).unwrap();
    assert_eq!(packages.len(), 4);
    assert!(!packages[3].translatable);
}
