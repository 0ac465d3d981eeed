use patois::catalog::Catalog;

const MAGIC_LE: u32 = 0x9504_12DE;

fn make_mo(entries: &[(&str, &str)]) -> Vec<u8> {
    let n = entries.len();
    let orig_table_off: u32 = 28;
    let trans_table_off: u32 = orig_table_off + (n as u32) * 8;
    let strings_off: u32 = trans_table_off + (n as u32) * 8;
    let mut orig_strings: Vec<u8> = Vec::new();
    let mut trans_strings: Vec<u8> = Vec::new();
    let mut orig_table: Vec<u8> = Vec::new();
    let mut trans_table: Vec<u8> = Vec::new();
    let mut cur_orig = strings_off;
    for (key, _) in entries {
        orig_table.extend_from_slice(&(key.len() as u32).to_le_bytes());
        orig_table.extend_from_slice(&cur_orig.to_le_bytes());
        cur_orig += key.len() as u32 + 1;
        orig_strings.extend_from_slice(key.as_bytes());
        orig_strings.push(0);
    }
    let trans_base = cur_orig;
    let mut cur_trans2 = trans_base;
    for (_, val) in entries {
        trans_table.extend_from_slice(&(val.len() as u32).to_le_bytes());
        trans_table.extend_from_slice(&cur_trans2.to_le_bytes());
        cur_trans2 += val.len() as u32 + 1;
        trans_strings.extend_from_slice(val.as_bytes());
        trans_strings.push(0);
    }
    let mut mo: Vec<u8> = Vec::new();
    mo.extend_from_slice(&MAGIC_LE.to_le_bytes());
    mo.extend_from_slice(&0u32.to_le_bytes());
    mo.extend_from_slice(&(n as u32).to_le_bytes());
    mo.extend_from_slice(&orig_table_off.to_le_bytes());
    mo.extend_from_slice(&trans_table_off.to_le_bytes());
    mo.extend_from_slice(&0u32.to_le_bytes());
    mo.extend_from_slice(&0u32.to_le_bytes());
    mo.extend_from_slice(&orig_table);
    mo.extend_from_slice(&trans_table);
    mo.extend_from_slice(&orig_strings);
    mo.extend_from_slice(&trans_strings);
    mo
}

/// The same catalog with every header word and table entry written big-endian.
fn make_mo_be(entries: &[(&str, &str)]) -> Vec<u8> {
    let mut mo = make_mo(entries);
    let words = 7 + 4 * entries.len();
    for w in 0..words {
        mo[w * 4..w * 4 + 4].reverse();
    }
    mo
}

#[test]
fn parses_simple_entries() {
    let mo = make_mo(&[("Hello", "Hallo"), ("World", "Welt")]);
    let cat = Catalog::parse(&mo).unwrap();
    assert_eq!(cat.gettext("Hello"), "Hallo");
    assert_eq!(cat.gettext("World"), "Welt");
    assert_eq!(cat.gettext("Missing"), "Missing");
}

#[test]
fn plural_fallback_with_no_translation() {
    let mo = make_mo(&[]);
    let cat = Catalog::parse(&mo).unwrap();
    assert_eq!(cat.ngettext("item", "items", 1), "item");
    assert_eq!(cat.ngettext("item", "items", 5), "items");
}

#[test]
fn plural_forms_are_picked_by_count() {
    let mo = make_mo(&[("file\0files", "Datei\0Dateien"), ("only\0onlies", "einzig")]);
    let cat = Catalog::parse(&mo).unwrap();
    assert_eq!(cat.ngettext("file", "files", 1), "Datei");
    assert_eq!(cat.ngettext("file", "files", 0), "Dateien");
    assert_eq!(cat.ngettext("file", "files", 7), "Dateien");
    assert_eq!(cat.ngettext("only", "onlies", 3), "einzig");
    assert_eq!(cat.gettext("file"), "Datei");
}

#[test]
fn big_endian_files_read_the_same() {
    let mo = make_mo_be(&[("Hello", "Hallo")]);
    let cat = Catalog::parse(&mo).unwrap();
    assert_eq!(cat.gettext("Hello"), "Hallo");
}

#[test]
fn malformed_files_are_refused() {
    assert!(Catalog::parse(&[0u8; 10]).is_none());
    let mut bad_magic = make_mo(&[("a", "b")]);
    bad_magic[0] = 0;
    assert!(Catalog::parse(&bad_magic).is_none());
    let mut truncated = make_mo(&[("Hello", "Hallo")]);
    truncated.truncate(truncated.len() - 4);
    assert!(Catalog::parse(&truncated).is_none());
    let mut not_utf8 = make_mo(&[("Hello", "Hallo")]);
    let at = not_utf8.len() - 3;
    not_utf8[at] = 0xFF;
    assert!(Catalog::parse(&not_utf8).is_none());
}

#[test]
fn the_header_and_empty_translations_are_skipped() {
    let mo = make_mo(&[("", "Language: de\n"), ("Untranslated", "")]);
    let cat = Catalog::parse(&mo).unwrap();
    assert_eq!(cat.gettext(""), "");
    assert_eq!(cat.gettext("Untranslated"), "Untranslated");
}
