use patois::entries::{collect_pot_entries_ordered, collect_pot_msgids, po_unescape, pot_entry_block, pot_escape, PotEntry};

#[test]
fn pot_escape_roundtrip() {
    let s = "say \"hi\" and \\bye\nnewline";
    let escaped = pot_escape(s);
    assert_eq!(escaped, r#"say \"hi\" and \\bye\nnewline"#);
    assert_eq!(po_unescape(&format!("\"{escaped}\"")), s);
}

#[test]
fn collect_msgids_finds_existing() {
    let pot = "msgid \"\"\nmsgstr \"\"\n\nmsgid \"Cancel\"\nmsgstr \"\"\n\nmsgid \"OK\"\nmsgstr \"OK\"\n";
    let ids = collect_pot_msgids(pot);
    assert!(ids.contains(&"Cancel".to_string()));
    assert!(ids.contains(&"OK".to_string()));
}

#[test]
fn collect_pot_entries_captures_plural_shape() {
    let pot = "msgid \"\"\nmsgstr \"\"\n\nmsgid \"{} result\"\nmsgid_plural \"{} results\"\nmsgstr[0] \"\"\nmsgstr[1] \"\"\n\nmsgid \"Cancel\"\nmsgstr \"\"\n";
    let entries = collect_pot_entries_ordered(pot);
    let plural_entry = entries.iter().find(|e| e.msgid == "{} result").unwrap();
    assert_eq!(plural_entry.msgid_plural.as_deref(), Some("{} results"));
    let singular_entry = entries.iter().find(|e| e.msgid == "Cancel").unwrap();
    assert_eq!(singular_entry.msgid_plural, None);
}

#[test]
fn collect_pot_entries_attaches_a_reference_to_the_entry_below_it() {
    let pot = "msgid \"\"\nmsgstr \"\"\n\nmsgid \"From Rust\"\nmsgstr \"\"\n\n#: swift\nmsgid \"From Swift\"\nmsgstr \"\"\n";
    let entries = collect_pot_entries_ordered(pot);
    let rust = entries.iter().find(|e| e.msgid == "From Rust").unwrap();
    assert_eq!(rust.reference, None, "the reference belongs to the entry after it, not before");
    let swift = entries.iter().find(|e| e.msgid == "From Swift").unwrap();
    assert_eq!(swift.reference.as_deref(), Some("swift"));
}

#[test]
fn a_reference_above_the_header_does_not_leak_onto_the_first_entry() {
    let pot = "#: swift\nmsgid \"\"\nmsgstr \"\"\n\nmsgid \"Cancel\"\nmsgstr \"\"\n";
    let entries = collect_pot_entries_ordered(pot);
    let cancel = entries.iter().find(|e| e.msgid == "Cancel").unwrap();
    assert_eq!(cancel.reference, None);
}

#[test]
fn pot_entry_block_round_trips_a_reference() {
    let entry = PotEntry {
        msgid: "Continue".to_string(),
        msgid_plural: None,
        reference: Some("kt".to_string()),
        comment: None,
    };
    let rendered = pot_entry_block(&entry);
    assert!(rendered.contains("#: kt\nmsgid \"Continue\""));
    let parsed = collect_pot_entries_ordered(&rendered);
    assert_eq!(parsed[0].reference.as_deref(), Some("kt"));
}

#[test]
fn pot_entry_block_round_trips_a_comment() {
    let entry = PotEntry {
        msgid: "Continue".to_string(),
        msgid_plural: None,
        reference: Some("kt".to_string()),
        comment: Some("TRANSLATORS: on the last onboarding page".to_string()),
    };
    let rendered = pot_entry_block(&entry);
    assert!(rendered.contains("#. TRANSLATORS: on the last onboarding page\n#: kt\nmsgid"));
    let parsed = collect_pot_entries_ordered(&rendered);
    assert_eq!(parsed[0].comment.as_deref(), Some("TRANSLATORS: on the last onboarding page"));
}

#[test]
fn a_comment_spanning_several_lines_round_trips() {
    let entry = PotEntry {
        msgid: "Continue".to_string(),
        msgid_plural: None,
        reference: None,
        comment: Some("TRANSLATORS: first half\nsecond half".to_string()),
    };
    let rendered = pot_entry_block(&entry);
    assert!(rendered.contains("#. TRANSLATORS: first half\n#. second half\n"));
    let parsed = collect_pot_entries_ordered(&rendered);
    assert_eq!(parsed[0].comment.as_deref(), Some("TRANSLATORS: first half\nsecond half"));
}

#[test]
fn a_comment_above_the_header_does_not_leak_onto_the_first_entry() {
    let pot = "#. TRANSLATORS: stray\nmsgid \"\"\nmsgstr \"\"\n\nmsgid \"Cancel\"\nmsgstr \"\"\n";
    let entries = collect_pot_entries_ordered(pot);
    let cancel = entries.iter().find(|e| e.msgid == "Cancel").unwrap();
    assert_eq!(cancel.comment, None);
}

#[test]
fn escaping_then_unescaping_gives_the_text_back() {
    for s in ["", "plain", "tab\there", "\\\"\n\t", "ünïcödé \"q\""] {
        assert_eq!(po_unescape(&format!("\"{}\"", pot_escape(s))), s);
    }
}

#[test]
fn a_plural_entry_block_has_two_blank_forms() {
    let entry = PotEntry {
        msgid: "{} file".to_string(),
        msgid_plural: Some("{} files".to_string()),
        reference: None,
        comment: None,
    };
    assert_eq!(
        pot_entry_block(&entry),
        "\nmsgid \"{} file\"\nmsgid_plural \"{} files\"\nmsgstr[0] \"\"\nmsgstr[1] \"\"\n"
    );
}

#[test]
fn collect_msgids_lists_each_once() {
    let pot = "msgid \"A\"\nmsgstr \"\"\n\nmsgid \"B\"\nmsgstr \"\"\n\nmsgid \"A\"\nmsgid_plural \"As\"\nmsgstr[0] \"\"\n";
    assert_eq!(collect_pot_msgids(pot), vec!["A".to_string(), "B".to_string()]);
}
