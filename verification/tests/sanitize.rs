use patois::sanitize::sanitize_for_xgettext;

#[test]
fn preserves_normal_strings_and_comments() {
    let src = "// TRANSLATORS: hi\nlet x = t(\"hello 'world'\");\n";
    assert_eq!(sanitize_for_xgettext(src), src);
}

#[test]
fn neutralizes_lifetimes_without_changing_length_or_lines() {
    let src = "fn f<'a>(s: &'a str) -> &'a str { s }\n";
    let out = sanitize_for_xgettext(src);
    assert_eq!(out.chars().count(), src.chars().count());
    assert_eq!(out.lines().count(), src.lines().count());
    assert!(!out.contains('\''));
}

#[test]
fn preserves_char_literals() {
    let src = "let c = '{'; let d = '\\n'; let e = '\\'';\n";
    let out = sanitize_for_xgettext(src);
    assert!(out.contains("'{'"));
    assert!(out.contains("'\\n'"));
    assert!(out.contains("'\\''"));
}

#[test]
fn blanks_raw_strings_but_keeps_line_count() {
    let src = "let xml = r#\"\n<a href=\"x\">it's</a>\n\"#;\nlet y = t(\"real\");\n";
    let out = sanitize_for_xgettext(src);
    assert_eq!(out.lines().count(), src.lines().count());
    assert!(out.contains("t(\"real\")"));
    assert!(!out.contains("href"));
}

#[test]
fn sanitizing_keeps_every_character_or_blanks_it() {
    let src = "fn g<'b>(x: &'b str) { let r = r##\"a\"#b\"##; let c = 'x'; t(\"k\") }\n";
    let out = sanitize_for_xgettext(src);
    assert_eq!(out.chars().count(), src.chars().count());
    for (a, b) in src.chars().zip(out.chars()) {
        assert!(a == b || (b == ' ' && a != '\n'));
    }
}
