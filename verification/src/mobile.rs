//! The translation assets the mobile apps consume, both from the same `.po` files: iOS
//! `Localizable.strings` text and Android translation JSON.
use vstd::prelude::*;

use crate::po::{entry_views, po_entries, PoDocument, PoEntryView};
use crate::text::{append, chars_of, string_of};

verus! {

/// The `(msgid, msgstr)` pairs of the entries with a non-empty `msgstr`, in file order.
pub open spec fn translated_pairs(es: Seq<PoEntryView>) -> Seq<(Seq<char>, Seq<char>)>
    decreases es.len(),
{
    if es.len() == 0 {
        seq![]
    } else if es.last().msgstr.len() == 0 {
        translated_pairs(es.drop_last())
    } else {
        translated_pairs(es.drop_last()).push((es.last().msgid, es.last().msgstr))
    }
}

pub open spec fn string_pairs(v: Seq<(String, String)>) -> Seq<(Seq<char>, Seq<char>)> {
    v.map_values(|p: (String, String)| (p.0@, p.1@))
}

/// Parses a `.po` file into its `(msgid, msgstr)` pairs whose `msgstr` is non-empty.
pub fn parse_po_entries(content: &str) -> (r: Vec<(String, String)>)
    ensures
        string_pairs(r@) == translated_pairs(po_entries(content@)),
{
    let doc = PoDocument::parse(content);
    let entries = doc.entry_list();
    let ghost es = entry_views(entries@);
    let mut out: Vec<(String, String)> = Vec::new();
    let mut i: usize = 0;
    while i < entries.len()
        invariant
            i <= entries.len(),
            es == entry_views(entries@),
            string_pairs(out@) == translated_pairs(es.take(i as int)),
        decreases entries.len() - i,
    {
        let e = &entries[i];
        assert(es.take(i + 1).drop_last() =~= es.take(i as int));
        assert(es.take(i + 1).last() == e@);
        let msgid = e.msgid_text();
        let msgstr = e.msgstr_text();
        if !msgstr.is_empty() {
            let ghost before = out@;
            out.push((string_of(&chars_of(msgid)), string_of(&chars_of(msgstr))));
            assert(string_pairs(out@) =~= string_pairs(before).push((e@.msgid, e@.msgstr)));
        }
        i = i + 1;
    }
    assert(es.take(i as int) =~= es);
    out
}

/// One character as a `Localizable.strings` value writes it.
pub open spec fn strings_escape_char(c: char) -> Seq<char> {
    if c == '"' {
        seq!['\\', '"']
    } else if c == '\\' {
        seq!['\\', '\\']
    } else if c == '\n' {
        seq!['\\', 'n']
    } else {
        seq![c]
    }
}

/// `s` escaped for a `Localizable.strings` value: quotes, backslashes and line breaks.
pub open spec fn strings_escape(s: Seq<char>) -> Seq<char>
    decreases s.len(),
{
    if s.len() == 0 {
        seq![]
    } else {
        strings_escape(s.drop_last()) + strings_escape_char(s.last())
    }
}

/// Escapes `s` for a `Localizable.strings` value.
pub fn escape_for_localizable_strings(s: &str) -> (r: String)
    ensures
        r@ == strings_escape(s@),
{
    let cs = chars_of(s);
    let mut out: Vec<char> = Vec::new();
    let mut i: usize = 0;
    while i < cs.len()
        invariant
            i <= cs.len(),
            out@ == strings_escape(cs@.take(i as int)),
        decreases cs.len() - i,
    {
        let c = cs[i];
        if c == '"' {
            out.push('\\');
            out.push('"');
        } else if c == '\\' {
            out.push('\\');
            out.push('\\');
        } else if c == '\n' {
            out.push('\\');
            out.push('n');
        } else {
            out.push(c);
        }
        assert(cs@.take(i + 1).drop_last() =~= cs@.take(i as int));
        i = i + 1;
        assert(out@ =~= strings_escape(cs@.take(i as int)));
    }
    assert(cs@.take(i as int) =~= cs@);
    string_of(&out)
}

/// The `Localizable.strings` lines for the pairs: `"msgid" = "msgstr";` each.
pub open spec fn localizable_text(pairs: Seq<(Seq<char>, Seq<char>)>) -> Seq<char>
    decreases pairs.len(),
{
    if pairs.len() == 0 {
        seq![]
    } else {
        localizable_text(pairs.drop_last()) + seq!['"'] + strings_escape(pairs.last().0)
            + "\" = \""@ + strings_escape(pairs.last().1) + "\";\n"@
    }
}

/// The `Localizable.strings` content for a `.po` file: one `"msgid" = "msgstr";` line per
/// translated entry; `None` when the file has no translated entry.
pub fn localizable_strings(po_content: &str) -> (r: Option<String>)
    ensures
        (match r {
            Some(s) => Some(s@),
            None => None::<Seq<char>>,
        }) == (if translated_pairs(po_entries(po_content@)).len() == 0 {
            None
        } else {
            Some(localizable_text(translated_pairs(po_entries(po_content@))))
        }),
{
    let pairs = parse_po_entries(po_content);
    let ghost ps = string_pairs(pairs@);
    if pairs.len() == 0 {
        return None;
    }
    let mut out: Vec<char> = Vec::new();
    let mut i: usize = 0;
    while i < pairs.len()
        invariant
            i <= pairs.len(),
            ps == string_pairs(pairs@),
            out@ == localizable_text(ps.take(i as int)),
        decreases pairs.len() - i,
    {
        let ghost before = out@;
        out.push('"');
        append(&mut out, &chars_of(escape_for_localizable_strings(pairs[i].0.as_str()).as_str()));
        append(&mut out, &chars_of("\" = \""));
        append(&mut out, &chars_of(escape_for_localizable_strings(pairs[i].1.as_str()).as_str()));
        append(&mut out, &chars_of("\";\n"));
        assert(ps.take(i + 1).drop_last() =~= ps.take(i as int));
        assert(ps.take(i + 1).last() == (pairs@[i as int].0@, pairs@[i as int].1@));
        i = i + 1;
        assert(out@ =~= localizable_text(ps.take(i as int)));
    }
    assert(ps.take(i as int) =~= ps);
    Some(string_of(&out))
}

/// The pretty-printed JSON object (`serde_json::to_string_pretty` of a `serde_json::Map`)
/// that maps each key of the pairs to its value as a JSON string, a later pair for a key
/// replacing an earlier one.
pub uninterp spec fn pretty_json_object(pairs: Seq<(Seq<char>, Seq<char>)>) -> Seq<char>;

#[verifier::external_type_specification]
#[verifier::external_body]
pub struct ExJsonError(serde_json::Error);

/// Builds a `serde_json::Map` from the pairs and pretty-prints it as a JSON object with
/// `serde_json::to_string_pretty`, which cannot fail on a map of strings (it fails only on a
/// `Serialize` impl that fails or on a map with keys that are not strings). What comes back
/// is named by [`pretty_json_object`].
#[verifier::external_body]
fn json_object_pretty(pairs: &[(String, String)]) -> (r: Result<String, serde_json::Error>)
    ensures
        r is Ok,
        r matches Ok(s) ==> s@ == pretty_json_object(string_pairs(pairs@)),
{
    let mut map = serde_json::Map::new();
    for (k, v) in pairs {
        map.insert(k.clone(), serde_json::Value::String(v.clone()));
    }
    serde_json::to_string_pretty(&serde_json::Value::Object(map))
}

/// Why an asset could not be generated.
pub enum AssetError {
    /// Serialising the translations as JSON failed.
    Json(serde_json::Error),
}

/// The text of an Android translation asset: the pretty-printed JSON object and a final line
/// break.
pub fn android_asset_text(json: &str) -> (r: String)
    ensures
        r@ == json@ + seq!['\n'],
{
    let mut out = chars_of(json);
    out.push('\n');
    string_of(&out)
}

/// The Android translation JSON for a `.po` file, `{"msgid": "msgstr", ...}` over its
/// translated entries, pretty-printed with a final line break; `Ok(None)` when the file has
/// no translated entry. It always succeeds.
pub fn android_translations(po_content: &str) -> (r: Result<Option<String>, AssetError>)
    ensures
        r is Ok,
        translated_pairs(po_entries(po_content@)).len() == 0 <==> r matches Ok(None),
        r matches Ok(Some(s)) ==> s@ == pretty_json_object(translated_pairs(po_entries(po_content@)))
            + seq!['\n'],
{
    let pairs = parse_po_entries(po_content);
    if pairs.len() == 0 {
        return Ok(None);
    }
    match json_object_pretty(&pairs) {
        Ok(json) => Ok(Some(android_asset_text(json.as_str()))),
        Err(e) => Err(AssetError::Json(e)),
    }
}

} // verus!
