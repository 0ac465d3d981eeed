use patois::mobile::{android_translations, escape_for_localizable_strings, localizable_strings, parse_po_entries};

const PO: &str = "msgid \"\"\nmsgstr \"\"\n\"Language: de\\n\"\n\nmsgid \"Cancel\"\nmsgstr \"Abbrechen\"\n\nmsgid \"Open\"\nmsgstr \"\"\n\nmsgid \"Say \\\"hi\\\"\"\nmsgstr \"Sag \\\"hallo\\\"\\nzweimal\"\n";

#[test]
fn only_translated_entries_are_exported() {
    assert_eq!(
        parse_po_entries(PO),
        vec![
            ("".to_string(), "Language: de\n".to_string()),
            ("Cancel".to_string(), "Abbrechen".to_string()),
            ("Say \"hi\"".to_string(), "Sag \"hallo\"\nzweimal".to_string()),
        ]
    );
}

#[test]
fn localizable_strings_escape_quotes_backslashes_and_newlines() {
    assert_eq!(escape_for_localizable_strings("a\"b\\c\nd"), "a\\\"b\\\\c\\nd");
    assert_eq!(
        localizable_strings(PO).unwrap(),
        "\"\" = \"Language: de\\n\";\n\"Cancel\" = \"Abbrechen\";\n\"Say \\\"hi\\\"\" = \"Sag \\\"hallo\\\"\\nzweimal\";\n"
    );
}

#[test]
fn a_file_without_translations_exports_nothing() {
    let po = "msgid \"Open\"\nmsgstr \"\"\n";
    assert_eq!(localizable_strings(po), None);
    assert!(matches!(android_translations(po), Ok(None)));
}

#[test]
fn android_json_is_a_pretty_object_with_a_final_newline() {
    let got = match android_translations(PO) {
        Ok(Some(s)) => s,
        _ => panic!("no json"),
    };
    assert_eq!(
        got,
        "{\n  \"\": \"Language: de\\n\",\n  \"Cancel\": \"Abbrechen\",\n  \"Say \\\"hi\\\"\": \"Sag \\\"hallo\\\"\\nzweimal\"\n}\n"
    );
}
