use patois::extract::{
    extend_pot_content, extract_nt_strings, extract_t_strings, line_of_each_char, read_string_literal,
    refresh_foreign_comments,
};

fn t_texts(src: &str) -> Vec<String> {
    extract_t_strings(src).into_iter().map(|(s, _)| s).collect()
}

fn nt_pairs(src: &str) -> Vec<(String, String)> {
    extract_nt_strings(src).into_iter().map(|(a, b, _)| (a, b)).collect()
}

fn notes(pairs: &[(&str, Option<&str>)]) -> Vec<(String, Option<String>)> {
    pairs.iter().map(|(k, v)| (k.to_string(), v.map(str::to_string))).collect()
}

#[test]
fn extract_simple() {
    assert_eq!(t_texts(r#"Button(t("Cancel")) { dismiss() }"#), vec!["Cancel"]);
}

#[test]
fn extract_multiple() {
    assert_eq!(t_texts(r#"Text(t("Find")) Text(t("Cancel"))"#), vec!["Find", "Cancel"]);
}

#[test]
fn extract_escaped_quote() {
    assert_eq!(t_texts(r#"t("say \"hi\"")"#), vec!["say \"hi\""]);
}

#[test]
fn extract_backslash_escape() {
    let src = "t(\"Regular expression (\\\\1 = first capture group)\")";
    assert_eq!(t_texts(src), vec!["Regular expression (\\1 = first capture group)"]);
}

#[test]
fn skip_ident_suffix_t() {
    let src = r#"putText("bad") t("good")"#;
    let got = t_texts(src);
    assert!(got.contains(&"good".to_string()));
    assert!(!got.contains(&"bad".to_string()));
}

#[test]
fn unicode_passthrough() {
    let src = "t(\"Search\u{2026}\")";
    assert_eq!(t_texts(src), vec!["Search\u{2026}"]);
}

#[test]
fn extract_nt_finds_singular_and_plural() {
    let src = r#"Text(nt("{} result", "{} results", count))"#;
    assert_eq!(nt_pairs(src), vec![("{} result".to_string(), "{} results".to_string())]);
}

#[test]
fn extract_nt_ignores_nt_suffix() {
    let src = r#"xnt("bad", "worse", n) nt("good", "goods", n)"#;
    assert_eq!(nt_pairs(src), vec![("good".to_string(), "goods".to_string())]);
}

#[test]
fn note_directly_above_a_call_is_attached() {
    let src = "// TRANSLATORS: Button that closes the sheet\nText(t(\"Done\"))";
    let got = extract_t_strings(src);
    assert_eq!(got[0].1.as_deref(), Some("TRANSLATORS: Button that closes the sheet"));
}

#[test]
fn note_carries_over_a_wrapper_line() {
    let src = "// TRANSLATORS: Section heading\nText(\n\tt(\"General\"),\n)";
    let got = extract_t_strings(src);
    assert_eq!(got[0].1.as_deref(), Some("TRANSLATORS: Section heading"));
}

#[test]
fn an_ordinary_comment_is_not_a_note() {
    let src = "// this explains the code, not the string\nt(\"Done\")";
    assert_eq!(extract_t_strings(src)[0].1, None);
}

#[test]
fn a_blank_line_detaches_the_note() {
    let src = "// TRANSLATORS: for something else\n\nt(\"Done\")";
    assert_eq!(extract_t_strings(src)[0].1, None);
}

#[test]
fn a_note_does_not_leak_onto_the_next_call() {
    let src = "// TRANSLATORS: about A\nt(\"A\")\nt(\"B\")";
    let got = extract_t_strings(src);
    assert_eq!(got[0].1.as_deref(), Some("TRANSLATORS: about A"));
    assert_eq!(got[1].1, None);
}

#[test]
fn a_note_spanning_several_lines_is_joined() {
    let src = "// TRANSLATORS: first half\n// second half\nt(\"Done\")";
    let got = extract_t_strings(src);
    assert_eq!(got[0].1.as_deref(), Some("TRANSLATORS: first half\nsecond half"));
}

#[test]
fn nt_calls_pick_up_their_note_too() {
    let src = "// TRANSLATORS: {} is the match count\nnt(\"{} result\", \"{} results\", n)";
    let got = extract_nt_strings(src);
    assert_eq!(got[0].2.as_deref(), Some("TRANSLATORS: {} is the match count"));
}

fn pot_with_a_kt_entry() -> String {
    String::from("msgid \"\"\nmsgstr \"\"\n\nmsgid \"Rust\"\nmsgstr \"\"\n\n#: kt\nmsgid \"Cancel\"\nmsgstr \"\"\n")
}

#[test]
fn a_note_is_backfilled_onto_an_entry_already_in_the_pot() {
    let notes = notes(&[("Cancel", Some("TRANSLATORS: dismisses the sheet"))]);
    let got = refresh_foreign_comments(&pot_with_a_kt_entry(), &notes, "kt");
    assert!(got.contains("#. TRANSLATORS: dismisses the sheet\n#: kt\nmsgid \"Cancel\""));
}

#[test]
fn a_reworded_note_replaces_the_old_one() {
    let before = pot_with_a_kt_entry().replace("#: kt", "#. TRANSLATORS: old wording\n#: kt");
    let notes = notes(&[("Cancel", Some("TRANSLATORS: new wording"))]);
    let got = refresh_foreign_comments(&before, &notes, "kt");
    assert!(got.contains("TRANSLATORS: new wording"));
    assert!(!got.contains("TRANSLATORS: old wording"));
}

#[test]
fn a_deleted_note_is_removed_from_the_entry() {
    let before = pot_with_a_kt_entry().replace("#: kt", "#. TRANSLATORS: gone now\n#: kt");
    let notes = notes(&[("Cancel", None)]);
    let got = refresh_foreign_comments(&before, &notes, "kt");
    assert!(!got.contains("#."));
    assert!(got.contains("#: kt\nmsgid \"Cancel\""));
}

#[test]
fn entries_this_scan_does_not_own_are_left_alone() {
    let before = pot_with_a_kt_entry();
    let rust_notes = notes(&[("Rust", Some("TRANSLATORS: not yours"))]);
    assert_eq!(refresh_foreign_comments(&before, &rust_notes, "kt"), before);
    let swift_notes = notes(&[("Cancel", Some("TRANSLATORS: not yours"))]);
    assert_eq!(refresh_foreign_comments(&before, &swift_notes, "swift"), before);
}

#[test]
fn the_files_trailing_newline_survives_a_refresh() {
    let notes = notes(&[("Cancel", Some("TRANSLATORS: dismisses the sheet"))]);
    let got = refresh_foreign_comments(&pot_with_a_kt_entry(), &notes, "kt");
    assert!(got.ends_with('\n'));
}

#[test]
fn a_pot_that_is_already_current_is_returned_untouched() {
    let before = pot_with_a_kt_entry().replace("#: kt", "#. TRANSLATORS: same as ever\n#: kt");
    let notes = notes(&[("Cancel", Some("TRANSLATORS: same as ever"))]);
    assert_eq!(refresh_foreign_comments(&before, &notes, "kt"), before);
}

#[test]
fn a_literal_is_read_past_leading_whitespace() {
    let chars: Vec<char> = "  \"a\\tb\" rest".chars().collect();
    assert_eq!(read_string_literal(&chars, 0), Some(("a\tb".to_string(), 8)));
}

#[test]
fn an_unterminated_literal_is_none() {
    let chars: Vec<char> = "\"open\nline\"".chars().collect();
    assert_eq!(read_string_literal(&chars, 0), None);
    let chars: Vec<char> = "x\"a\"".chars().collect();
    assert_eq!(read_string_literal(&chars, 0), None);
}

#[test]
fn an_unknown_escape_is_kept_as_written() {
    let chars: Vec<char> = "\"a\\qb\"".chars().collect();
    assert_eq!(read_string_literal(&chars, 0), Some(("a\\qb".to_string(), 6)));
}

#[test]
fn every_char_maps_to_its_line() {
    let chars: Vec<char> = "ab\nc\n".chars().collect();
    assert_eq!(line_of_each_char(&chars), vec![0, 0, 0, 1, 1, 2]);
}

#[test]
fn empty_calls_are_not_extracted() {
    assert!(t_texts("t(\"\")").is_empty());
    assert!(nt_pairs("nt(\"a\", \"\", n)").is_empty());
}

#[test]
fn a_scan_appends_new_entries_once_with_the_extension_as_reference() {
    let pot = "msgid \"\"\nmsgstr \"\"\n\nmsgid \"Rust\"\nmsgstr \"\"\n";
    let sources = vec![
        "Text(t(\"Rust\")) Text(t(\"Cancel\"))".to_string(),
        "t(\"Cancel\") nt(\"{} item\", \"{} items\", n)".to_string(),
    ];
    let got = extend_pot_content(pot, &sources, "swift").unwrap();
    assert_eq!(
        got,
        format!(
            "{pot}\n#: swift\nmsgid \"Cancel\"\nmsgstr \"\"\n\n#: swift\nmsgid \"{{}} item\"\nmsgid_plural \"{{}} items\"\nmsgstr[0] \"\"\nmsgstr[1] \"\"\n"
        )
    );
}

#[test]
fn a_scan_that_adds_nothing_writes_nothing() {
    let pot = "msgid \"\"\nmsgstr \"\"\n\nmsgid \"Rust\"\nmsgstr \"\"\n";
    assert_eq!(extend_pot_content(pot, &["t(\"Rust\")".to_string()], "kt"), None);
    assert_eq!(extend_pot_content(pot, &["no calls here".to_string()], "kt"), None);
    assert_eq!(extend_pot_content(pot, &[], "kt"), None);
}
