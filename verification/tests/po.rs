use patois::po::{PoDocument, PoEntryLoc, Translation};

fn find<'a>(doc: &'a PoDocument, msgid: &str) -> &'a PoEntryLoc {
    doc.entries.iter().find(|e| e.msgid == msgid).unwrap_or_else(|| panic!("no entry for {msgid:?}"))
}

#[test]
fn an_entry_carries_the_note_written_above_it() {
    let src = "#. TRANSLATORS: shown on hover
msgid \"Warning\"
msgstr \"\"
";
    let doc = PoDocument::parse(src);
    assert_eq!(doc.entries[0].comment.as_deref(), Some("shown on hover"));
}

#[test]
fn a_note_over_several_lines_is_joined() {
    let src = "#. TRANSLATORS: first half
#. second half
msgid \"Warning\"
msgstr \"\"
";
    let doc = PoDocument::parse(src);
    assert_eq!(doc.entries[0].comment.as_deref(), Some("first half second half"));
}

#[test]
fn an_entry_without_a_note_has_none() {
    let doc = PoDocument::parse(
        "msgid \"Warning\"
msgstr \"\"
",
    );
    assert_eq!(doc.entries[0].comment, None);
}

#[test]
fn a_note_does_not_reach_past_a_blank_line() {
    let src = "#. TRANSLATORS: about the first
msgid \"One\"
msgstr \"\"

msgid \"Two\"
msgstr \"\"
";
    let doc = PoDocument::parse(src);
    assert_eq!(doc.entries[0].comment.as_deref(), Some("about the first"));
    assert_eq!(doc.entries[1].comment, None);
}

#[test]
fn header_entry_is_never_a_translation_candidate() {
    let doc = PoDocument::parse("msgid \"\"\nmsgstr \"\"\n\"Language: de\\n\"\n");
    assert_eq!(doc.needs_translation().len(), 0);
}

#[test]
fn already_translated_entry_is_left_untouched() {
    let src = "msgid \"Cancel\"\nmsgstr \"Abbrechen\"\n";
    let doc = PoDocument::parse(src);
    assert_eq!(doc.needs_translation().len(), 0);
    assert_eq!(doc.render(), src);
}

#[test]
fn blank_entry_with_no_flag_gets_a_fuzzy_line_inserted() {
    let src = "msgid \"Warning\"\nmsgstr \"\"\n";
    let mut doc = PoDocument::parse(src);
    let candidates: Vec<_> = doc.needs_translation().into_iter().map(|(i, m)| (i, m.to_string())).collect();
    assert_eq!(candidates, vec![(0, "Warning".to_string())]);
    doc.apply_all(&[(0, "Warnung".to_string())]);
    assert_eq!(doc.render(), "#, fuzzy\nmsgid \"Warning\"\nmsgstr \"Warnung\"\n");
}

#[test]
fn translators_comment_is_preserved_when_inserting_a_fuzzy_line() {
    let src = "#. TRANSLATORS: shown on hover\nmsgid \"Warning\"\nmsgstr \"\"\n";
    let mut doc = PoDocument::parse(src);
    doc.apply_all(&[(0, "Warnung".to_string())]);
    assert_eq!(doc.render(), "#. TRANSLATORS: shown on hover\n#, fuzzy\nmsgid \"Warning\"\nmsgstr \"Warnung\"\n");
}

#[test]
fn fuzzy_entry_with_prev_msgid_comment_is_retranslated_and_comment_dropped() {
    let src = "#, fuzzy\n#| msgid \"No pages.\"\nmsgid \"No images.\"\nmsgstr \"Sem pagina.\"\n";
    let mut doc = PoDocument::parse(src);
    let entry = find(&doc, "No images.");
    assert!(entry.is_fuzzy);
    assert!(entry.has_prev_msgid, "msgmerge-authored fuzzy match must carry a #| comment");
    assert_eq!(doc.needs_translation().len(), 1, "a genuinely stale fuzzy match is a candidate");
    let idx = doc.entries.iter().position(|e| e.msgid == "No images.").unwrap();
    doc.apply_all(&[(idx, "Sem imagens.".to_string())]);
    assert_eq!(doc.render(), "#, fuzzy\nmsgid \"No images.\"\nmsgstr \"Sem imagens.\"\n");
}

#[test]
fn fuzzy_entry_without_prev_msgid_comment_is_not_retranslated() {
    let src = "#, fuzzy\nmsgid \"No images.\"\nmsgstr \"Sem imagens.\"\n";
    let doc = PoDocument::parse(src);
    let entry = find(&doc, "No images.");
    assert!(entry.is_fuzzy);
    assert!(!entry.has_prev_msgid);
    assert_eq!(doc.needs_translation().len(), 0);
}

#[test]
fn multiline_msgid_is_decoded_and_can_be_translated() {
    let src = "msgid \"\"\n\"Are you sure you want to remove the selected document? This will also remove \"\n\"its reading position and bookmarks.\"\nmsgstr \"\"\n";
    let mut doc = PoDocument::parse(src);
    let entry = find(
        &doc,
        "Are you sure you want to remove the selected document? This will also remove its reading position and bookmarks.",
    );
    assert!(entry.msgstr.is_empty());
    let idx = 0;
    doc.apply_all(&[(idx, "Translated.".to_string())]);
    assert!(doc.render().contains("msgstr \"Translated.\""));
}

#[test]
fn multiple_entries_patch_independently_in_one_pass() {
    let src = "msgid \"A\"\nmsgstr \"\"\n\nmsgid \"B\"\nmsgstr \"already\"\n\nmsgid \"C\"\nmsgstr \"\"\n";
    let mut doc = PoDocument::parse(src);
    let candidates: Vec<_> = doc.needs_translation().into_iter().map(|(i, m)| (i, m.to_string())).collect();
    assert_eq!(candidates, vec![(0, "A".to_string()), (2, "C".to_string())]);
    doc.apply_all(&[(0, "A-translated".to_string()), (2, "C-translated".to_string())]);
    let rendered = doc.render();
    assert!(rendered.contains("msgid \"A\"\nmsgstr \"A-translated\""));
    assert!(rendered.contains("msgid \"B\"\nmsgstr \"already\""));
    assert!(rendered.contains("msgid \"C\"\nmsgstr \"C-translated\""));
}

#[test]
fn round_trip_escapes_quotes_and_newlines_in_translated_text() {
    let src = "msgid \"Quote\"\nmsgstr \"\"\n";
    let mut doc = PoDocument::parse(src);
    doc.apply_all(&[(0, "She said \"hi\"\nline two".to_string())]);
    let rendered = doc.render();
    assert!(rendered.contains("msgstr \"She said \\\"hi\\\"\\nline two\""));
}

#[test]
fn a_plural_entry_is_parsed_but_never_a_singular_candidate() {
    let src = "msgid \"{} result\"\nmsgid_plural \"{} results\"\nmsgstr[0] \"\"\nmsgstr[1] \"\"\n";
    let doc = PoDocument::parse(src);
    assert_eq!(doc.entries.len(), 1);
    assert_eq!(doc.entries[0].msgid_plural.as_deref(), Some("{} results"));
    assert_eq!(doc.entries[0].msgstr_plural, vec![String::new(), String::new()]);
    assert_eq!(doc.needs_translation().len(), 0, "plurals must not reach the single-string path");
    assert_eq!(doc.render(), src, "an untouched plural entry round-trips byte for byte");
}

#[test]
fn a_blank_plural_entry_is_a_plural_candidate() {
    let src = "msgid \"{} result\"\nmsgid_plural \"{} results\"\nmsgstr[0] \"\"\nmsgstr[1] \"\"\n";
    let doc = PoDocument::parse(src);
    let got: Vec<_> = doc.needs_plural_translation();
    assert_eq!(got, vec![(0, "{} result", "{} results")]);
}

#[test]
fn a_partly_filled_plural_entry_still_needs_translation() {
    let src =
        "msgid \"%d file\"\nmsgid_plural \"%d files\"\nmsgstr[0] \"файл\"\nmsgstr[1] \"файла\"\nmsgstr[2] \"\"\n";
    let doc = PoDocument::parse(src);
    assert_eq!(doc.needs_plural_translation().len(), 1);
}

#[test]
fn a_fully_translated_plural_entry_is_left_alone() {
    let src = "msgid \"%d file\"\nmsgid_plural \"%d files\"\nmsgstr[0] \"a\"\nmsgstr[1] \"b\"\nmsgstr[2] \"c\"\n";
    let doc = PoDocument::parse(src);
    assert_eq!(doc.needs_plural_translation().len(), 0);
}

#[test]
fn applying_a_plural_writes_every_form_and_flags_it_fuzzy() {
    let src = "msgid \"%d file\"\nmsgid_plural \"%d files\"\nmsgstr[0] \"\"\nmsgstr[1] \"\"\nmsgstr[2] \"\"\n";
    let mut doc = PoDocument::parse(src);
    doc.apply(&[(
        0,
        Translation::Plural(vec!["%d файл".to_string(), "%d файла".to_string(), "%d файлов".to_string()]),
    )]);
    let rendered = doc.render();
    assert!(rendered.contains("msgstr[0] \"%d файл\""));
    assert!(rendered.contains("msgstr[1] \"%d файла\""));
    assert!(rendered.contains("msgstr[2] \"%d файлов\""));
    assert!(rendered.contains("#, fuzzy"));
    assert!(!rendered.contains("msgstr \""), "the plural shape must survive");
}

#[test]
fn applying_more_forms_than_were_there_replaces_the_whole_run() {
    let src = "msgid \"%d file\"\nmsgid_plural \"%d files\"\nmsgstr[0] \"\"\nmsgstr[1] \"\"\n";
    let mut doc = PoDocument::parse(src);
    doc.apply(&[(0, Translation::Plural(vec!["a".to_string(), "b".to_string(), "c".to_string()]))]);
    let rendered = doc.render();
    assert!(rendered.contains("msgstr[2] \"c\""));
    assert_eq!(rendered.matches("msgstr[").count(), 3);
}

#[test]
fn a_shape_mismatch_is_skipped_rather_than_written() {
    let src = "msgid \"%d file\"\nmsgid_plural \"%d files\"\nmsgstr[0] \"\"\nmsgstr[1] \"\"\n";
    let mut doc = PoDocument::parse(src);
    doc.apply(&[(0, Translation::Singular("nope".to_string()))]);
    assert_eq!(doc.render(), src);

    let src = "msgid \"Cancel\"\nmsgstr \"\"\n";
    let mut doc = PoDocument::parse(src);
    doc.apply(&[(0, Translation::Plural(vec!["a".to_string()]))]);
    assert_eq!(doc.render(), src);
}

#[test]
fn singular_and_plural_entries_patch_together_in_one_pass() {
    let src = "msgid \"Cancel\"\nmsgstr \"\"\n\nmsgid \"%d file\"\nmsgid_plural \"%d files\"\nmsgstr[0] \"\"\nmsgstr[1] \"\"\n";
    let mut doc = PoDocument::parse(src);
    doc.apply(&[
        (0, Translation::Singular("Annuler".to_string())),
        (1, Translation::Plural(vec!["%d fichier".to_string(), "%d fichiers".to_string()])),
    ]);
    let rendered = doc.render();
    assert!(rendered.contains("msgstr \"Annuler\""));
    assert!(rendered.contains("msgstr[0] \"%d fichier\""));
    assert!(rendered.contains("msgstr[1] \"%d fichiers\""));
}

#[test]
fn nplurals_comes_from_the_header() {
    let src = "msgid \"\"\nmsgstr \"\"\n\"Plural-Forms: nplurals=3; plural=(n%10==1 ? 0 : 1);\\n\"\n";
    assert_eq!(PoDocument::parse(src).nplurals(), Some(3));
}

#[test]
fn nplurals_is_none_without_a_usable_header() {
    assert_eq!(PoDocument::parse("msgid \"\"\nmsgstr \"\"\n").nplurals(), None);
    let broken = "msgid \"\"\nmsgstr \"\"\n\"Plural-Forms: nplurals=; plural=0;\\n\"\n";
    assert_eq!(PoDocument::parse(broken).nplurals(), None);
}

#[test]
fn a_multiline_plural_form_is_joined() {
    let src = "msgid \"a\"\nmsgid_plural \"b\"\nmsgstr[0] \"\"\n\"joined\"\nmsgstr[1] \"x\"\n";
    let doc = PoDocument::parse(src);
    assert_eq!(doc.entries[0].msgstr_plural, vec!["joined".to_string(), "x".to_string()]);
}

#[test]
fn rendering_a_parsed_file_gives_it_back() {
    let src = "# comment\nmsgid \"\"\nmsgstr \"\"\n\"Language: de\\n\"\n\n#, fuzzy\nmsgid \"A\"\nmsgstr \"B\"\n";
    assert_eq!(PoDocument::parse(src).render(), src);
}

#[test]
fn an_empty_batch_changes_nothing() {
    let src = "msgid \"Warning\"\nmsgstr \"\"\n";
    let mut doc = PoDocument::parse(src);
    doc.apply(&[]);
    assert_eq!(doc.render(), src);
}

#[test]
fn a_translated_entry_is_not_offered_again() {
    let src = "#, fuzzy\n#| msgid \"No pages.\"\nmsgid \"No images.\"\nmsgstr \"Sem pagina.\"\n\nmsgid \"Other\"\nmsgstr \"\"\n";
    let mut doc = PoDocument::parse(src);
    let candidates: Vec<usize> = doc.needs_translation().iter().map(|(i, _)| *i).collect();
    assert_eq!(candidates, vec![0, 1]);
    doc.apply_all(&[(0, "Sem imagens.".to_string())]);
    let again = PoDocument::parse(&doc.render());
    let entry = find(&again, "No images.");
    assert_eq!(entry.msgstr, "Sem imagens.");
    assert!(entry.is_fuzzy);
    assert!(!entry.has_prev_msgid);
    let left: Vec<usize> = again.needs_translation().iter().map(|(i, _)| *i).collect();
    assert_eq!(left, vec![1]);
}

#[test]
fn a_translated_batch_is_settled_and_the_rest_untouched() {
    let src = "#. TRANSLATORS: a note\nmsgid \"A\"\nmsgstr \"\"\n\n#, c-format\nmsgid \"B\"\nmsgstr \"already\"\n\n#, fuzzy\n#| msgid \"Old C\"\nmsgid \"C\"\nmsgstr \"stale\"\n";
    let mut doc = PoDocument::parse(src);
    let candidates: Vec<usize> = doc.needs_translation().iter().map(|(i, _)| *i).collect();
    assert_eq!(candidates, vec![0, 2]);
    doc.apply_all(&[(2, "C-translated".to_string()), (0, "A-translated".to_string())]);
    let again = PoDocument::parse(&doc.render());
    assert_eq!(again.entries.len(), 3);
    assert!(again.needs_translation().is_empty());
    let a = find(&again, "A");
    assert_eq!(a.msgstr, "A-translated");
    assert!(a.is_fuzzy && !a.has_prev_msgid);
    let b = find(&again, "B");
    assert_eq!(b.msgstr, "already");
    assert!(!b.is_fuzzy && !b.has_prev_msgid);
    let c = find(&again, "C");
    assert_eq!(c.msgstr, "C-translated");
    assert!(c.is_fuzzy && !c.has_prev_msgid);
}

#[test]
fn a_translated_plural_entry_is_not_offered_again() {
    let src = "msgid \"\"\nmsgstr \"\"\n\"Plural-Forms: nplurals=3; plural=(n%10==1 && n%100!=11 ? 0 : n%10>=2 && n%10<=4 && (n%100<10 || n%100>=20) ? 1 : 2);\\n\"\n\n#, fuzzy\n#| msgid \"{} page\"\nmsgid \"{} file\"\nmsgid_plural \"{} files\"\nmsgstr[0] \"\"\nmsgstr[1] \"\"\n\nmsgid \"Other\"\nmsgstr \"\"\n";
    let mut doc = PoDocument::parse(src);
    let plural: Vec<usize> = doc.needs_plural_translation().iter().map(|(i, _, _)| *i).collect();
    assert_eq!(plural, vec![1]);
    let forms = vec!["{} файл".to_string(), "{} файла".to_string(), "{} файлов".to_string()];
    doc.apply(&[(1, Translation::Plural(forms.clone())), (2, Translation::Singular("Другое".to_string()))]);
    let again = PoDocument::parse(&doc.render());
    assert_eq!(again.entries.len(), 3);
    assert!(again.needs_plural_translation().is_empty());
    assert!(again.needs_translation().is_empty());
    let entry = find(&again, "{} file");
    assert_eq!(entry.msgstr_plural, forms);
    assert!(entry.is_fuzzy && !entry.has_prev_msgid);
}

#[test]
fn a_mixed_batch_settles_what_fits_and_leaves_the_rest() {
    let src = "msgid \"A\"\nmsgstr \"\"\n\nmsgid \"B\"\nmsgstr \"\"\n\nmsgid \"{} x\"\nmsgid_plural \"{} xs\"\nmsgstr[0] \"\"\nmsgstr[1] \"\"\n";
    let mut doc = PoDocument::parse(src);
    doc.apply(&[
        (0, Translation::Singular("A-t".to_string())),
        (1, Translation::Plural(vec!["b0".to_string(), "b1".to_string()])),
        (2, Translation::Singular("x".to_string())),
    ]);
    let again = PoDocument::parse(&doc.render());
    assert_eq!(again.entries.len(), 3);
    assert_eq!(again.entries[0].msgstr, "A-t");
    assert!(again.entries[0].is_fuzzy);
    assert_eq!(again.entries[1].msgstr, "");
    assert!(!again.entries[1].is_fuzzy);
    assert_eq!(again.entries[2].msgstr_plural, vec!["".to_string(), "".to_string()]);
    assert!(!again.entries[2].is_fuzzy);
}

#[test]
fn a_batch_settles_in_a_file_with_carriage_returns() {
    let src = "#. note\r\r\nmsgid \"A\"\r\nmsgstr \"\"\r\n\r\n#, fuzzy\r\r\nmsgid \"B\"\r\r\nmsgstr \"old\"\r\r\n";
    let mut doc = PoDocument::parse(src);
    let old_msgid = doc.entries[1].msgid.clone();
    let old_msgstr = doc.entries[1].msgstr.clone();
    let old_comment = doc.entries[1].comment.clone();
    let old_fuzzy = doc.entries[1].is_fuzzy;
    assert_eq!(doc.entries[0].comment, Some("note".to_string()));
    doc.apply_all(&[(0, "A-t".to_string())]);
    let again = PoDocument::parse(&doc.render());
    assert_eq!(again.entries.len(), 2);
    assert_eq!(again.entries[0].msgid, "A");
    assert_eq!(again.entries[0].msgstr, "A-t");
    assert!(again.entries[0].is_fuzzy);
    assert!(!again.entries[0].has_prev_msgid);
    assert_eq!(again.entries[1].msgid, old_msgid);
    assert_eq!(again.entries[1].msgstr, "old");
    assert_eq!(again.entries[1].msgstr, old_msgstr);
    assert_eq!(again.entries[1].comment, old_comment);
    assert_eq!(again.entries[1].is_fuzzy, old_fuzzy);
    assert!(again.entries[1].is_fuzzy);
}

#[test]
fn entry_accessors_read_the_parsed_fields() {
    let src = "#. TRANSLATORS: a note\n#, fuzzy\n#| msgid \"old\"\nmsgid \"{} x\"\nmsgid_plural \"{} xs\"\nmsgstr[0] \"a\"\nmsgstr[1] \"b\"\n\nmsgid \"plain\"\nmsgstr \"p\"\n";
    let doc = PoDocument::parse(src);
    let es = doc.entry_list();
    assert_eq!(es.len(), 2);
    assert_eq!(es[0].msgid_text(), "{} x");
    assert_eq!(es[0].msgid_plural_text(), Some("{} xs"));
    assert_eq!(es[0].msgstr_plural_texts(), &["a".to_string(), "b".to_string()][..]);
    assert_eq!(es[0].comment_text(), Some("a note"));
    assert!(es[0].fuzzy());
    assert!(es[0].prev_msgid());
    assert_eq!(es[1].msgstr_text(), "p");
    assert_eq!(es[1].msgid_plural_text(), None);
    assert!(es[1].msgstr_plural_texts().is_empty());
    assert_eq!(es[1].comment_text(), None);
    assert!(!es[1].fuzzy());
    assert!(!es[1].prev_msgid());
}
