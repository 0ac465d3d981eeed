//! Programmatic, position-preserving editing of `.po` files: find entries that still need a
//! translation, patch a translated string into just that entry's `msgstr`, and re-render the
//! file with everything else byte-for-byte untouched.
use vstd::prelude::*;

use crate::entries::{escape, escape_exec, unescape, unescape_exec};
use crate::text::{
    append, chars_of, contains, contains_exec, find, find_exec, has_prefix, index_of, index_of_exec, join,
    join_exec, lines_of, opt_view, skip, split_lines, starts_with, starts_with_char, string_of,
    string_views, trim, trim_start, trim_start_vec, trim_vec, views, without_prefix,
};

verus! {

/// A translated result headed for one entry.
///
/// The two shapes are separate variants so that a caller cannot hand a plural entry a single
/// string (collapsing `msgstr[0..n]` into one `msgstr`) without saying so explicitly.
pub enum Translation {
    Singular(String),
    /// One string per plural form, in index order: `msgstr[0]` first.
    Plural(Vec<String>),
}

pub enum TranslationView {
    Singular(Seq<char>),
    Plural(Seq<Seq<char>>),
}

impl View for Translation {
    type V = TranslationView;

    open spec fn view(&self) -> TranslationView {
        match self {
            Translation::Singular(s) => TranslationView::Singular(s@),
            Translation::Plural(v) => TranslationView::Plural(string_views(v@)),
        }
    }
}

/// A single `msgid`/`msgstr` entry, plus the line ranges in the source file needed to patch
/// it in place without disturbing anything else.
pub struct PoEntryLoc {
    pub msgid: String,
    pub msgstr: String,
    /// The `msgid_plural` text, for a plural entry; `None` for an ordinary one.
    pub msgid_plural: Option<String>,
    /// The `msgstr[N]` values in file order, for a plural entry; empty for an ordinary one.
    pub msgstr_plural: Vec<String>,
    /// The `#.` note above the entry, the lines of a run joined by a space and a leading
    /// `TRANSLATORS:` dropped.
    pub comment: Option<String>,
    pub is_fuzzy: bool,
    /// Whether this entry carries a `#|` "previous msgid" comment, which `msgmerge` writes
    /// exactly when it just fuzzy-matched the entry against a changed source string.
    pub has_prev_msgid: bool,
    /// Lines `flag_start..flag_end` are the `#,`/`#|` block before `msgid` (empty, at the
    /// msgid line, when there is none).
    flag_start: usize,
    flag_end: usize,
    /// Lines `msgstr_start..msgstr_end` are the whole `msgstr` statement(s).
    msgstr_start: usize,
    msgstr_end: usize,
}

pub struct PoEntryView {
    pub msgid: Seq<char>,
    pub msgstr: Seq<char>,
    pub msgid_plural: Option<Seq<char>>,
    pub msgstr_plural: Seq<Seq<char>>,
    pub comment: Option<Seq<char>>,
    pub is_fuzzy: bool,
    pub has_prev_msgid: bool,
    pub flag_start: int,
    pub flag_end: int,
    pub msgstr_start: int,
    pub msgstr_end: int,
}

impl View for PoEntryLoc {
    type V = PoEntryView;

    closed spec fn view(&self) -> PoEntryView {
        PoEntryView {
            msgid: self.msgid@,
            msgstr: self.msgstr@,
            msgid_plural: opt_view(self.msgid_plural),
            msgstr_plural: string_views(self.msgstr_plural@),
            comment: opt_view(self.comment),
            is_fuzzy: self.is_fuzzy,
            has_prev_msgid: self.has_prev_msgid,
            flag_start: self.flag_start as int,
            flag_end: self.flag_end as int,
            msgstr_start: self.msgstr_start as int,
            msgstr_end: self.msgstr_end as int,
        }
    }
}

pub open spec fn entry_views(v: Seq<PoEntryLoc>) -> Seq<PoEntryView> {
    v.map_values(|e: PoEntryLoc| e@)
}

/// A parsed `.po` file, kept as the lines it was read from so entries that aren't touched are
/// re-rendered byte-for-byte identical to the source.
pub struct PoDocument {
    lines: Vec<Vec<char>>,
    pub entries: Vec<PoEntryLoc>,
}

impl PoDocument {
    /// The document's lines, as last parsed or patched.
    pub closed spec fn lines_view(&self) -> Seq<Seq<char>> {
        views(self.lines@)
    }

    /// The document's entries.
    pub closed spec fn entries_view(&self) -> Seq<PoEntryView> {
        entry_views(self.entries@)
    }
}

impl PoEntryLoc {
    /// The entry's msgid.
    pub fn msgid_text(&self) -> (r: &str)
        ensures
            r@ == self@.msgid,
    {
        self.msgid.as_str()
    }

    /// The entry's msgstr (empty for a plural entry).
    pub fn msgstr_text(&self) -> (r: &str)
        ensures
            r@ == self@.msgstr,
    {
        self.msgstr.as_str()
    }

    /// The entry's `msgid_plural` text (`None` for an ordinary entry).
    pub fn msgid_plural_text(&self) -> (r: Option<&str>)
        ensures
            (match r {
                Some(t) => Some(t@),
                None => None,
            }) == self@.msgid_plural,
    {
        match &self.msgid_plural {
            Some(t) => Some(t.as_str()),
            None => None,
        }
    }

    /// The entry's `msgstr[N]` values in file order (empty for an ordinary entry).
    pub fn msgstr_plural_texts(&self) -> (r: &[String])
        ensures
            string_views(r@) == self@.msgstr_plural,
    {
        self.msgstr_plural.as_slice()
    }

    /// The entry's `#.` note, if it has one.
    pub fn comment_text(&self) -> (r: Option<&str>)
        ensures
            (match r {
                Some(t) => Some(t@),
                None => None,
            }) == self@.comment,
    {
        match &self.comment {
            Some(t) => Some(t.as_str()),
            None => None,
        }
    }

    /// Whether the entry is flagged fuzzy.
    pub fn fuzzy(&self) -> (r: bool)
        ensures
            r == self@.is_fuzzy,
    {
        self.is_fuzzy
    }

    /// Whether the entry carries a `#|` previous-msgid comment.
    pub fn prev_msgid(&self) -> (r: bool)
        ensures
            r == self@.has_prev_msgid,
    {
        self.has_prev_msgid
    }
}

impl PoDocument {
    /// The document's entries.
    pub fn entry_list(&self) -> (r: &[PoEntryLoc])
        ensures
            entry_views(r@) == self.entries_view(),
    {
        self.entries.as_slice()
    }
}

/// What has been read ahead of the next `msgid`: the `#,` line, the span of `#|` lines, and
/// the `#.` notes.
pub struct PoScan {
    pub flag_line: Option<int>,
    pub prev: Option<(int, int)>,
    pub pending: Seq<Seq<char>>,
}

pub open spec fn scan_init() -> PoScan {
    PoScan { flag_line: None, prev: None, pending: seq![] }
}

/// The state after a `#`-line at index `i` (`t` is the line with leading whitespace removed).
pub open spec fn comment_step(st: PoScan, t: Seq<char>, i: int) -> PoScan {
    if has_prefix(t, "#."@) {
        let note = trim(without_prefix(t, "#."@));
        PoScan { pending: st.pending.push(trim(without_prefix(note, "TRANSLATORS:"@))), ..st }
    } else if has_prefix(t, "#,"@) {
        PoScan { flag_line: Some(i), ..st }
    } else if has_prefix(t, "#|"@) {
        PoScan {
            prev: Some(
                match st.prev {
                    Some((s, _)) => (s, i + 1),
                    None => (i, i + 1),
                },
            ),
            ..st
        }
    } else {
        st
    }
}

/// Whether line `j` continues a string (its text starts with `"`).
pub open spec fn is_cont(lines: Seq<Seq<char>>, j: int) -> bool {
    0 <= j < lines.len() && has_prefix(trim_start(lines[j]), seq!['"'])
}

/// How many continuation lines start at `j`.
pub open spec fn cont_len(lines: Seq<Seq<char>>, j: int) -> nat
    decreases lines.len() - j,
{
    if is_cont(lines, j) {
        1 + cont_len(lines, j + 1)
    } else {
        0
    }
}

/// The decoded text of the continuation lines starting at `j`.
pub open spec fn cont_text(lines: Seq<Seq<char>>, j: int) -> Seq<char>
    decreases lines.len() - j,
{
    if is_cont(lines, j) {
        unescape(trim_start(lines[j])) + cont_text(lines, j + 1)
    } else {
        seq![]
    }
}

/// Whether line `j` opens a `msgstr[N]` statement that can be read (it has a `]`).
pub open spec fn is_form(lines: Seq<Seq<char>>, j: int) -> bool {
    0 <= j < lines.len() && has_prefix(trim_start(lines[j]), "msgstr["@) && index_of(
        trim_start(lines[j]),
        ']',
    ) is Some
}

/// The value of the `msgstr[N]` statement at line `j`, continuation lines included.
pub open spec fn form_text(lines: Seq<Seq<char>>, j: int) -> Seq<char> {
    let t = trim_start(lines[j]);
    let b = index_of(t, ']')->0;
    unescape(trim_start(t.skip(b + 1))) + cont_text(lines, j + 1)
}

pub proof fn lemma_cont_len(lines: Seq<Seq<char>>, j: int)
    requires
        0 <= j <= lines.len(),
    ensures
        j + cont_len(lines, j) <= lines.len(),
    decreases lines.len() - j,
{
    if is_cont(lines, j) {
        lemma_cont_len(lines, j + 1);
    }
}

/// How many lines the run of `msgstr[N]` statements starting at `j` takes.
pub open spec fn forms_len(lines: Seq<Seq<char>>, j: int) -> nat
    decreases lines.len() - j,
{
    if is_form(lines, j) {
        proof {
            lemma_cont_len(lines, j + 1);
        }
        1 + cont_len(lines, j + 1) + forms_len(lines, j + 1 + cont_len(lines, j + 1))
    } else {
        0
    }
}

/// The values of the run of `msgstr[N]` statements starting at `j`, in file order.
pub open spec fn forms(lines: Seq<Seq<char>>, j: int) -> Seq<Seq<char>>
    decreases lines.len() - j,
{
    if is_form(lines, j) {
        proof {
            lemma_cont_len(lines, j + 1);
        }
        seq![form_text(lines, j)] + forms(lines, j + 1 + cont_len(lines, j + 1))
    } else {
        seq![]
    }
}

pub proof fn lemma_forms_len(lines: Seq<Seq<char>>, j: int)
    requires
        0 <= j <= lines.len(),
    ensures
        j + forms_len(lines, j) <= lines.len(),
    decreases lines.len() - j,
{
    if is_form(lines, j) {
        lemma_cont_len(lines, j + 1);
        lemma_forms_len(lines, j + 1 + cont_len(lines, j + 1));
    }
}

pub open spec fn line_starts(lines: Seq<Seq<char>>, j: int, p: Seq<char>) -> bool {
    0 <= j < lines.len() && has_prefix(trim_start(lines[j]), p)
}

/// Index just past the msgid statement that starts at `i`.
pub open spec fn after_msgid(lines: Seq<Seq<char>>, i: int) -> int {
    i + 1 + cont_len(lines, i + 1)
}

pub open spec fn has_plural_at(lines: Seq<Seq<char>>, i: int) -> bool {
    line_starts(lines, after_msgid(lines, i), "msgid_plural "@)
}

/// Index of the line where the translation(s) of the entry at `i` should start.
pub open spec fn msgstr_line(lines: Seq<Seq<char>>, i: int) -> int {
    let j = after_msgid(lines, i);
    if has_plural_at(lines, i) {
        j + 1 + cont_len(lines, j + 1)
    } else {
        j
    }
}

/// Whether the translation statement(s) of the entry at `i` are there (else it is not a
/// complete entry and is dropped).
pub open spec fn has_msgstr(lines: Seq<Seq<char>>, i: int) -> bool {
    let k = msgstr_line(lines, i);
    if has_plural_at(lines, i) {
        line_starts(lines, k, "msgstr["@)
    } else {
        line_starts(lines, k, "msgstr "@)
    }
}

/// Index just past the entry whose msgid is on line `i`.
pub open spec fn entry_end(lines: Seq<Seq<char>>, i: int) -> int {
    let k = msgstr_line(lines, i);
    if !has_msgstr(lines, i) {
        k
    } else if has_plural_at(lines, i) {
        k + forms_len(lines, k)
    } else {
        k + 1 + cont_len(lines, k + 1)
    }
}

pub proof fn lemma_entry_end(lines: Seq<Seq<char>>, i: int)
    requires
        0 <= i < lines.len(),
    ensures
        i < entry_end(lines, i) <= lines.len(),
        i < msgstr_line(lines, i) <= entry_end(lines, i),
{
    lemma_cont_len(lines, i + 1);
    let j = after_msgid(lines, i);
    if has_plural_at(lines, i) {
        lemma_cont_len(lines, j + 1);
    }
    let k = msgstr_line(lines, i);
    if has_msgstr(lines, i) {
        if has_plural_at(lines, i) {
            lemma_forms_len(lines, k);
        } else {
            lemma_cont_len(lines, k + 1);
        }
    }
}

pub open spec fn flag_block_start(st: PoScan, i: int) -> int {
    match (st.flag_line, st.prev) {
        (Some(f), Some((p, _))) => if f <= p {
            f
        } else {
            p
        },
        (Some(f), None) => f,
        (None, Some((p, _))) => p,
        (None, None) => i,
    }
}

/// The entry whose msgid is on line `i`, given what was read ahead of it.
pub open spec fn entry_at(lines: Seq<Seq<char>>, i: int, st: PoScan) -> PoEntryView {
    let t = trim_start(lines[i]);
    let msgid = unescape(without_prefix(t, "msgid "@)) + cont_text(lines, i + 1);
    let j = after_msgid(lines, i);
    let k = msgstr_line(lines, i);
    let plural = has_plural_at(lines, i);
    PoEntryView {
        msgid,
        msgstr: if plural {
            seq![]
        } else {
            unescape(without_prefix(trim_start(lines[k]), "msgstr "@)) + cont_text(lines, k + 1)
        },
        msgid_plural: if plural {
            Some(
                unescape(without_prefix(trim_start(lines[j]), "msgid_plural "@)) + cont_text(
                    lines,
                    j + 1,
                ),
            )
        } else {
            None
        },
        msgstr_plural: if plural {
            forms(lines, k)
        } else {
            seq![]
        },
        comment: if st.pending.len() == 0 {
            None
        } else {
            Some(join(st.pending, seq![' ']))
        },
        is_fuzzy: match st.flag_line {
            Some(fl) => contains(lines[fl], "fuzzy"@),
            None => false,
        },
        has_prev_msgid: st.prev is Some,
        flag_start: flag_block_start(st, i),
        flag_end: i,
        msgstr_start: k,
        msgstr_end: entry_end(lines, i),
    }
}

/// The entries read from line `i` on.
pub open spec fn scan(lines: Seq<Seq<char>>, i: int, st: PoScan) -> Seq<PoEntryView>
    decreases lines.len() - i,
{
    if i < 0 || i >= lines.len() {
        seq![]
    } else {
        let t = trim_start(lines[i]);
        if has_prefix(t, seq!['#']) {
            scan(lines, i + 1, comment_step(st, t, i))
        } else if t.len() == 0 {
            scan(lines, i + 1, scan_init())
        } else if !has_prefix(t, "msgid "@) {
            scan(lines, i + 1, st)
        } else if has_msgstr(lines, i) {
            proof {
                lemma_entry_end(lines, i);
            }
            seq![entry_at(lines, i, st)] + scan(lines, entry_end(lines, i), scan_init())
        } else {
            proof {
                lemma_entry_end(lines, i);
            }
            scan(lines, entry_end(lines, i), scan_init())
        }
    }
}

/// The entries of a `.po` file.
pub open spec fn po_entries(content: Seq<char>) -> Seq<PoEntryView> {
    scan(lines_of(content), 0, scan_init())
}

/// A rendered document: its lines joined by newlines, with a final newline.
pub open spec fn render_lines(lines: Seq<Seq<char>>) -> Seq<char> {
    join(lines, seq!['\n']) + seq!['\n']
}

struct ScanExec {
    flag_line: Option<usize>,
    prev: Option<(usize, usize)>,
    pending: Vec<Vec<char>>,
}

impl ScanExec {
    spec fn state(&self) -> PoScan {
        PoScan {
            flag_line: match self.flag_line {
                Some(f) => Some(f as int),
                None => None,
            },
            prev: match self.prev {
                Some((a, b)) => Some((a as int, b as int)),
                None => None,
            },
            pending: views(self.pending@),
        }
    }

    spec fn below(&self, i: int) -> bool {
        &&& (self.flag_line matches Some(f) ==> f < i)
        &&& (self.prev matches Some((a, b)) ==> a < i && b <= i)
    }

    fn new() -> (r: ScanExec)
        ensures
            r.state() == scan_init(),
            r.below(0),
    {
        let r = ScanExec { flag_line: None, prev: None, pending: Vec::new() };
        assert(views(r.pending@) =~= Seq::<Seq<char>>::empty());
        r
    }
}

fn comment_step_exec(st: &mut ScanExec, t: &[char], i: usize)
    requires
        i < usize::MAX,
        old(st).below(i as int),
    ensures
        final(st).state() == comment_step(old(st).state(), t@, i as int),
        final(st).below(i + 1),
{
    let note = chars_of("#.");
    let flag = chars_of("#,");
    let prev = chars_of("#|");
    if starts_with(t, &note) {
        let n = trim_vec(&skip(t, note.len()));
        let tag = chars_of("TRANSLATORS:");
        let body = if starts_with(&n, &tag) {
            skip(&n, tag.len())
        } else {
            n
        };
        let text = trim_vec(&body);
        let ghost before = st.pending@;
        st.pending.push(text);
        assert(views(st.pending@) =~= views(before).push(text@));
    } else if starts_with(t, &flag) {
        st.flag_line = Some(i);
    } else if starts_with(t, &prev) {
        st.prev = match st.prev {
            Some((s, _)) => Some((s, i + 1)),
            None => Some((i, i + 1)),
        };
    }
}

/// Reads the continuation lines starting at `j`.
fn cont_exec(lines: &Vec<Vec<char>>, j: usize) -> (r: (Vec<char>, usize))
    requires
        j <= lines.len(),
    ensures
        r.0@ == cont_text(views(lines@), j as int),
        r.1 == j + cont_len(views(lines@), j as int),
        r.1 <= lines.len(),
{
    let ghost l = views(lines@);
    let mut text: Vec<char> = Vec::new();
    let mut k = j;
    while k < lines.len() && starts_with_char(&trim_start_vec(&lines[k]), '"')
        invariant
            j <= k <= lines.len(),
            l == views(lines@),
            cont_text(l, j as int) == text@ + cont_text(l, k as int),
            cont_len(l, j as int) == (k - j) + cont_len(l, k as int),
        decreases lines.len() - k,
    {
        let t = trim_start_vec(&lines[k]);
        let u = unescape_exec(&t);
        append(&mut text, &u);
        k = k + 1;
    }
    assert(cont_text(l, k as int) == Seq::<char>::empty());
    assert(text@ + Seq::<char>::empty() =~= text@);
    (text, k)
}

/// Reads the run of `msgstr[N]` statements starting at `j`.
fn forms_exec(lines: &Vec<Vec<char>>, j: usize) -> (r: (Vec<String>, usize))
    requires
        j <= lines.len(),
    ensures
        string_views(r.0@) == forms(views(lines@), j as int),
        r.1 == j + forms_len(views(lines@), j as int),
        r.1 <= lines.len(),
{
    let ghost l = views(lines@);
    let open = chars_of("msgstr[");
    let mut out: Vec<String> = Vec::new();
    let mut k = j;
    loop
        invariant
            j <= k <= lines.len(),
            l == views(lines@),
            open@ == "msgstr["@,
            forms(l, j as int) == string_views(out@) + forms(l, k as int),
            forms_len(l, j as int) == (k - j) + forms_len(l, k as int),
        ensures
            j <= k <= lines.len(),
            forms(l, j as int) == string_views(out@) + forms(l, k as int),
            forms_len(l, j as int) == (k - j) + forms_len(l, k as int),
            forms(l, k as int) == Seq::<Seq<char>>::empty(),
            forms_len(l, k as int) == 0,
        decreases lines.len() - k,
    {
        if k >= lines.len() {
            break;
        }
        let t = trim_start_vec(&lines[k]);
        assert(l[k as int] == lines@[k as int]@);
        if !starts_with(&t, &open) {
            break;
        }
        let b = match index_of_exec(&t, ']') {
            Some(b) => b,
            None => {
                break;
            },
        };
        proof {
            crate::text::lemma_find_from_bounds(t@, seq![']'], 0);
            assert(b + 1 <= t@.len());
            assert(t@.len() == t.len());
        }
        proof {
            lemma_cont_len(l, k + 1);
            lemma_forms_len(l, k + 1 + cont_len(l, k + 1));
        }
        let v = unescape_exec(&trim_start_vec(&skip(&t, b + 1)));
        let (c, e) = cont_exec(lines, k + 1);
        let mut value = v;
        append(&mut value, &c);
        let ghost before = out@;
        out.push(string_of(&value));
        assert(string_views(out@) =~= string_views(before) + seq![value@]);
        k = e;
    }
    assert(string_views(out@) + Seq::<Seq<char>>::empty() =~= string_views(out@));
    (out, k)
}

fn msgstr_exec(lines: &Vec<Vec<char>>, k: usize) -> (r: (Vec<char>, usize))
    requires
        k < lines.len(),
    ensures
        r.0@ == unescape(without_prefix(trim_start(views(lines@)[k as int]), "msgstr "@)) + cont_text(
            views(lines@),
            k + 1,
        ),
        r.1 == k + 1 + cont_len(views(lines@), k + 1),
        r.1 <= lines.len(),
{
    let kw = chars_of("msgstr ");
    let t = trim_start_vec(&lines[k]);
    let rest = if starts_with(&t, &kw) {
        skip(&t, kw.len())
    } else {
        t
    };
    let mut v = unescape_exec(&rest);
    let (c, e) = cont_exec(lines, k + 1);
    append(&mut v, &c);
    (v, e)
}

fn opt_string(o: Option<Vec<char>>) -> (r: Option<String>)
    ensures
        opt_view(r) == (match o {
            Some(v) => Some(v@),
            None => None::<Seq<char>>,
        }),
{
    match o {
        Some(v) => Some(string_of(&v)),
        None => None,
    }
}

/// Reads the entry whose msgid is on line `i`; `None` when it has no translation statement.
fn entry_exec(lines: &Vec<Vec<char>>, i: usize, st: &ScanExec) -> (r: (Option<PoEntryLoc>, usize))
    requires
        i < lines.len(),
        has_prefix(trim_start(views(lines@)[i as int]), "msgid "@),
        st.below(i as int),
    ensures
        r.1 == entry_end(views(lines@), i as int),
        i < r.1 <= lines.len(),
        r.0 is Some == has_msgstr(views(lines@), i as int),
        r.0 matches Some(e) ==> e@ == entry_at(views(lines@), i as int, st.state()),
{
    let ghost l = views(lines@);
    let msgid_kw = chars_of("msgid ");
    let plural_kw = chars_of("msgid_plural ");
    let msgstr_kw = chars_of("msgstr ");
    let open = chars_of("msgstr[");
    let t = trim_start_vec(&lines[i]);
    let mut msgid = unescape_exec(&skip(&t, msgid_kw.len()));
    let (c, j) = cont_exec(lines, i + 1);
    append(&mut msgid, &c);
    let plural = j < lines.len() && starts_with(&trim_start_vec(&lines[j]), &plural_kw);
    let mut msgid_plural: Option<Vec<char>> = None;
    let mut k = j;
    if plural {
        let tj = trim_start_vec(&lines[j]);
        let mut p = unescape_exec(&skip(&tj, plural_kw.len()));
        let (c2, e2) = cont_exec(lines, j + 1);
        append(&mut p, &c2);
        msgid_plural = Some(p);
        k = e2;
    }
    assert(k == msgstr_line(l, i as int));
    let present = k < lines.len() && if plural {
        starts_with(&trim_start_vec(&lines[k]), &open)
    } else {
        starts_with(&trim_start_vec(&lines[k]), &msgstr_kw)
    };
    if !present {
        return (None, k);
    }
    let (msgstr, msgstr_plural, end) = if plural {
        let (fs, e) = forms_exec(lines, k);
        (Vec::new(), fs, e)
    } else {
        let (m, e) = msgstr_exec(lines, k);
        let none: Vec<String> = Vec::new();
        assert(string_views(none@) =~= Seq::<Seq<char>>::empty());
        (m, none, e)
    };
    let is_fuzzy = match st.flag_line {
        Some(fl) => contains_exec(&lines[fl], &chars_of("fuzzy")),
        None => false,
    };
    let flag_start = match (st.flag_line, st.prev) {
        (Some(f), Some((p, _))) => if f <= p {
            f
        } else {
            p
        },
        (Some(f), None) => f,
        (None, Some((p, _))) => p,
        (None, None) => i,
    };
    let comment = if st.pending.len() == 0 {
        None
    } else {
        let space: Vec<char> = vec![' '];
        assert(space@ =~= seq![' ']);
        Some(string_of(&join_exec(&st.pending, &space)))
    };
    let e = PoEntryLoc {
        msgid: string_of(&msgid),
        msgstr: string_of(&msgstr),
        msgid_plural: opt_string(msgid_plural),
        msgstr_plural,
        comment,
        is_fuzzy,
        has_prev_msgid: st.prev.is_some(),
        flag_start,
        flag_end: i,
        msgstr_start: k,
        msgstr_end: end,
    };
    assert(e@ =~= entry_at(l, i as int, st.state()));
    (Some(e), end)
}

/// An ordinary entry that still needs a translation: blank `msgstr`, or fuzzy because
/// `msgmerge` just changed it (it carries a `#|` previous-msgid comment). The header entry
/// (empty msgid) never is.
pub open spec fn is_candidate(e: PoEntryView) -> bool {
    &&& e.msgid_plural is None
    &&& e.msgid.len() > 0
    &&& (e.msgstr.len() == 0 || (e.is_fuzzy && e.has_prev_msgid))
}

/// Whether some plural form is missing: none at all, or one left blank.
pub open spec fn has_blank_form(forms: Seq<Seq<char>>) -> bool {
    forms.len() == 0 || exists|j: int| 0 <= j < forms.len() && #[trigger] forms[j].len() == 0
}

/// A plural entry that still needs translating, by the same rule as [`is_candidate`].
pub open spec fn is_plural_candidate(e: PoEntryView) -> bool {
    &&& e.msgid_plural is Some
    &&& e.msgid.len() > 0
    &&& (has_blank_form(e.msgstr_plural) || (e.is_fuzzy && e.has_prev_msgid))
}

/// `(index, msgid)` of every ordinary entry that still needs a translation, in order.
pub open spec fn candidates(es: Seq<PoEntryView>) -> Seq<(int, Seq<char>)>
    decreases es.len(),
{
    if es.len() == 0 {
        seq![]
    } else {
        let rest = candidates(es.drop_last());
        if is_candidate(es.last()) {
            rest.push(((es.len() - 1) as int, es.last().msgid))
        } else {
            rest
        }
    }
}

/// `(index, msgid, msgid_plural)` of every plural entry that still needs translating.
pub open spec fn plural_candidates(es: Seq<PoEntryView>) -> Seq<(int, Seq<char>, Seq<char>)>
    decreases es.len(),
{
    if es.len() == 0 {
        seq![]
    } else {
        let rest = plural_candidates(es.drop_last());
        if is_plural_candidate(es.last()) {
            rest.push(((es.len() - 1) as int, es.last().msgid, es.last().msgid_plural->0))
        } else {
            rest
        }
    }
}

pub open spec fn pair_views<'a>(v: Seq<(usize, &'a str)>) -> Seq<(int, Seq<char>)> {
    v.map_values(|p: (usize, &'a str)| (p.0 as int, p.1@))
}

pub open spec fn triple_views<'a>(v: Seq<(usize, &'a str, &'a str)>) -> Seq<(int, Seq<char>, Seq<char>)> {
    v.map_values(|p: (usize, &'a str, &'a str)| (p.0 as int, p.1@, p.2@))
}

/// Index of the first entry with an empty msgid (the header), from `i` on.
pub open spec fn header_from(es: Seq<PoEntryView>, i: int) -> Option<int>
    decreases es.len() - i,
{
    if i < 0 || i >= es.len() {
        None
    } else if es[i].msgid.len() == 0 {
        Some(i)
    } else {
        header_from(es, i + 1)
    }
}

/// The run of ASCII digits `s` starts with.
pub open spec fn leading_digits(s: Seq<char>) -> Seq<char>
    decreases s.len(),
{
    if s.len() > 0 && crate::text::is_digit(s[0]) {
        seq![s[0]] + leading_digits(s.skip(1))
    } else {
        seq![]
    }
}

/// The number the decimal digits `ds` spell.
pub open spec fn digits_value(ds: Seq<char>) -> nat
    decreases ds.len(),
{
    if ds.len() == 0 {
        0
    } else {
        digits_value(ds.drop_last()) * 10 + ((ds.last() as u32 - '0' as u32) as nat)
    }
}

/// The count after `nplurals` and the first `=` after it in a header, when it is a positive
/// number that fits a `usize`.
pub open spec fn nplurals_in(header: Seq<char>) -> Option<nat> {
    match find(header, "nplurals"@) {
        None => None,
        Some(at) => {
            let rest = header.skip(at);
            match index_of(rest, '=') {
                None => None,
                Some(eq) => {
                    let ds = leading_digits(trim_start(rest.skip(eq + 1)));
                    if ds.len() == 0 || digits_value(ds) > usize::MAX || digits_value(ds) == 0 {
                        None
                    } else {
                        Some(digits_value(ds))
                    }
                },
            }
        },
    }
}

/// The `nplurals` of a document: from the header entry's msgstr.
pub open spec fn doc_nplurals(es: Seq<PoEntryView>) -> Option<nat> {
    match header_from(es, 0) {
        None => None,
        Some(h) => nplurals_in(es[h].msgstr),
    }
}

pub open spec fn digit_char(d: nat) -> char {
    if d == 0 {
        '0'
    } else if d == 1 {
        '1'
    } else if d == 2 {
        '2'
    } else if d == 3 {
        '3'
    } else if d == 4 {
        '4'
    } else if d == 5 {
        '5'
    } else if d == 6 {
        '6'
    } else if d == 7 {
        '7'
    } else if d == 8 {
        '8'
    } else {
        '9'
    }
}

/// `n` written in decimal.
pub open spec fn decimal(n: nat) -> Seq<char>
    decreases n,
{
    if n < 10 {
        seq![digit_char(n)]
    } else {
        decimal(n / 10).push(digit_char(n % 10))
    }
}

/// The `msgstr "..."` line of a singular translation.
pub open spec fn singular_line(text: Seq<char>) -> Seq<char> {
    "msgstr \""@ + escape(text) + seq!['"']
}

/// The `msgstr[N] "..."` lines of a plural translation, one per form.
pub open spec fn plural_lines(forms: Seq<Seq<char>>) -> Seq<Seq<char>> {
    Seq::new(
        forms.len(),
        |n: int| "msgstr["@ + decimal(n as nat) + "] \""@ + escape(forms[n]) + seq!['"'],
    )
}

/// The lines that replace an entry's msgstr statement(s), when the translation has the
/// entry's shape.
pub open spec fn replacement(e: PoEntryView, t: TranslationView) -> Option<Seq<Seq<char>>> {
    match t {
        TranslationView::Singular(text) => if e.msgid_plural is None {
            Some(seq![singular_line(text)])
        } else {
            None
        },
        TranslationView::Plural(fs) => if e.msgid_plural is Some {
            Some(plural_lines(fs))
        } else {
            None
        },
    }
}

/// Replace lines `start..end` by `repl`.
pub struct Op {
    pub start: int,
    pub end: int,
    pub repl: Seq<Seq<char>>,
}

/// The edits a batch asks for, in batch order: for each entry whose shape matches, its
/// msgstr statement(s) replaced and its `#,`/`#|` block collapsed to `#, fuzzy`.
pub open spec fn ops_of(es: Seq<PoEntryView>, ts: Seq<(int, TranslationView)>) -> Seq<Op>
    decreases ts.len(),
{
    if ts.len() == 0 {
        seq![]
    } else {
        let prev = ops_of(es, ts.drop_last());
        let e = es[ts.last().0];
        match replacement(e, ts.last().1) {
            Some(r) => prev + seq![
                Op { start: e.msgstr_start, end: e.msgstr_end, repl: r },
                Op { start: e.flag_start, end: e.flag_end, repl: seq!["#, fuzzy"@] },
            ],
            None => prev,
        }
    }
}

/// `o` placed into `sorted` (starts non-increasing) after every edit starting at or below it.
pub open spec fn insert_desc(sorted: Seq<Op>, o: Op) -> Seq<Op>
    decreases sorted.len(),
{
    if sorted.len() == 0 {
        seq![o]
    } else if sorted.last().start >= o.start {
        sorted.push(o)
    } else {
        insert_desc(sorted.drop_last(), o).push(sorted.last())
    }
}

/// The edits ordered from the bottom of the file up (a stable sort by start, descending).
pub open spec fn sort_ops(ops: Seq<Op>) -> Seq<Op>
    decreases ops.len(),
{
    if ops.len() == 0 {
        seq![]
    } else {
        insert_desc(sort_ops(ops.drop_last()), ops.last())
    }
}

pub open spec fn splice(lines: Seq<Seq<char>>, o: Op) -> Seq<Seq<char>> {
    lines.take(o.start) + o.repl + lines.skip(o.end)
}

/// The lines after applying the edits in order.
pub open spec fn splice_all(lines: Seq<Seq<char>>, ops: Seq<Op>) -> Seq<Seq<char>>
    decreases ops.len(),
{
    if ops.len() == 0 {
        lines
    } else {
        splice_all(splice(lines, ops[0]), ops.skip(1))
    }
}

/// Whether each edit, applied in order, addresses lines that exist at that point.
pub open spec fn all_fit(lines: Seq<Seq<char>>, ops: Seq<Op>) -> bool
    decreases ops.len(),
{
    if ops.len() == 0 {
        true
    } else {
        0 <= ops[0].start <= ops[0].end <= lines.len() && all_fit(
            splice(lines, ops[0]),
            ops.skip(1),
        )
    }
}

pub open spec fn batch_view(ts: Seq<(usize, Translation)>) -> Seq<(int, TranslationView)> {
    ts.map_values(|p: (usize, Translation)| (p.0 as int, p.1@))
}

pub open spec fn singular_batch(ts: Seq<(usize, String)>) -> Seq<(int, TranslationView)> {
    ts.map_values(|p: (usize, String)| (p.0 as int, TranslationView::Singular(p.1@)))
}

/// Whether every index of the batch names an entry.
pub open spec fn indices_in(es: Seq<PoEntryView>, ts: Seq<(int, TranslationView)>) -> bool {
    forall|k: int| 0 <= k < ts.len() ==> 0 <= #[trigger] ts[k].0 < es.len()
}

struct OpExec {
    start: usize,
    end: usize,
    repl: Vec<Vec<char>>,
}

impl OpExec {
    spec fn view(&self) -> Op {
        Op { start: self.start as int, end: self.end as int, repl: views(self.repl@) }
    }
}

spec fn op_views(v: Seq<OpExec>) -> Seq<Op> {
    v.map_values(|o: OpExec| o.view())
}

fn decimal_exec(n: usize) -> (r: Vec<char>)
    ensures
        r@ == decimal(n as nat),
    decreases n,
{
    let d = n % 10;
    let c = if d == 0 {
        '0'
    } else if d == 1 {
        '1'
    } else if d == 2 {
        '2'
    } else if d == 3 {
        '3'
    } else if d == 4 {
        '4'
    } else if d == 5 {
        '5'
    } else if d == 6 {
        '6'
    } else if d == 7 {
        '7'
    } else if d == 8 {
        '8'
    } else {
        '9'
    };
    if n < 10 {
        let r: Vec<char> = vec![c];
        assert(r@ =~= seq![digit_char(n as nat)]);
        r
    } else {
        let mut r = decimal_exec(n / 10);
        r.push(c);
        r
    }
}

fn replacement_exec(e: &PoEntryLoc, t: &Translation) -> (r: Option<Vec<Vec<char>>>)
    ensures
        (match r {
            Some(v) => Some(views(v@)),
            None => None::<Seq<Seq<char>>>,
        }) == replacement(e@, t@),
{
    match t {
        Translation::Singular(text) => {
            if e.msgid_plural.is_none() {
                let mut line = chars_of("msgstr \"");
                append(&mut line, &escape_exec(&chars_of(text.as_str())));
                line.push('"');
                let mut r: Vec<Vec<char>> = Vec::new();
                r.push(line);
                assert(line@ =~= singular_line(text@));
                assert(views(r@) =~= seq![singular_line(text@)]);
                Some(r)
            } else {
                None
            }
        },
        Translation::Plural(fs) => {
            if e.msgid_plural.is_some() {
                let mut r: Vec<Vec<char>> = Vec::new();
                let mut n: usize = 0;
                while n < fs.len()
                    invariant
                        n <= fs.len(),
                        views(r@) == plural_lines(string_views(fs@)).take(n as int),
                    decreases fs.len() - n,
                {
                    let mut line = chars_of("msgstr[");
                    append(&mut line, &decimal_exec(n));
                    append(&mut line, &chars_of("] \""));
                    append(&mut line, &escape_exec(&chars_of(fs[n].as_str())));
                    line.push('"');
                    assert(line@ =~= plural_lines(string_views(fs@))[n as int]);
                    let ghost before = r@;
                    r.push(line);
                    assert(views(r@) =~= views(before).push(line@));
                    n = n + 1;
                    assert(views(r@) =~= plural_lines(string_views(fs@)).take(n as int));
                }
                assert(plural_lines(string_views(fs@)).take(n as int) =~= plural_lines(
                    string_views(fs@),
                ));
                Some(r)
            } else {
                None
            }
        },
    }
}

/// Places `o` into `sorted` as [`insert_desc`] does.
fn insert_desc_exec(sorted: &mut Vec<OpExec>, o: OpExec)
    ensures
        op_views(final(sorted)@) == insert_desc(op_views(old(sorted)@), o.view()),
{
    let ghost orig = op_views(sorted@);
    let mut moved: Vec<OpExec> = Vec::new();
    while sorted.len() > 0 && sorted[sorted.len() - 1].start < o.start
        invariant
            insert_desc(orig, o.view()) == insert_desc(op_views(sorted@), o.view()) + op_views(
                moved@,
            ).reverse(),
        decreases sorted.len(),
    {
        let ghost cur = op_views(sorted@);
        let last = sorted.pop().unwrap();
        assert(op_views(sorted@) =~= cur.drop_last());
        let ghost m = op_views(moved@);
        moved.push(last);
        assert(op_views(moved@).reverse() =~= seq![last.view()] + m.reverse());
    }
    let ghost cur = op_views(sorted@);
    sorted.push(o);
    assert(op_views(sorted@) =~= insert_desc(cur, o.view()));
    while moved.len() > 0
        invariant
            insert_desc(orig, o.view()) == op_views(sorted@) + op_views(moved@).reverse(),
        decreases moved.len(),
    {
        let ghost m = op_views(moved@);
        let x = moved.pop().unwrap();
        assert(op_views(moved@) =~= m.drop_last());
        assert(m.reverse() =~= seq![x.view()] + op_views(moved@).reverse());
        let ghost s = op_views(sorted@);
        sorted.push(x);
        assert(op_views(sorted@) =~= s.push(x.view()));
    }
    assert(op_views(moved@).reverse() =~= Seq::<Op>::empty());
    assert(op_views(sorted@) + Seq::<Op>::empty() =~= op_views(sorted@));
}

fn splice_exec(lines: &Vec<Vec<char>>, o: &OpExec) -> (r: Vec<Vec<char>>)
    requires
        o.start <= o.end <= lines.len(),
    ensures
        views(r@) == splice(views(lines@), o.view()),
{
    let mut out: Vec<Vec<char>> = Vec::new();
    let mut i: usize = 0;
    while i < o.start
        invariant
            i <= o.start <= o.end <= lines.len(),
            views(out@) == views(lines@).take(i as int),
        decreases o.start - i,
    {
        let ghost before = out@;
        let x = crate::text::slice_of(&lines[i], 0, lines[i].len());
        assert(x@ =~= lines@[i as int]@);
        out.push(x);
        assert(views(out@) =~= views(before).push(x@));
        i = i + 1;
        assert(views(out@) =~= views(lines@).take(i as int));
    }
    let mut k: usize = 0;
    while k < o.repl.len()
        invariant
            k <= o.repl.len(),
            views(out@) == views(lines@).take(o.start as int) + views(o.repl@).take(k as int),
        decreases o.repl.len() - k,
    {
        let ghost before = out@;
        let x = crate::text::slice_of(&o.repl[k], 0, o.repl[k].len());
        assert(x@ =~= o.repl@[k as int]@);
        out.push(x);
        assert(views(out@) =~= views(before).push(x@));
        k = k + 1;
        assert(views(out@) =~= views(lines@).take(o.start as int) + views(o.repl@).take(k as int));
    }
    assert(views(o.repl@).take(k as int) =~= views(o.repl@));
    let mut j: usize = o.end;
    while j < lines.len()
        invariant
            o.end <= j <= lines.len(),
            views(out@) == views(lines@).take(o.start as int) + views(o.repl@) + views(
                lines@,
            ).subrange(o.end as int, j as int),
        decreases lines.len() - j,
    {
        let ghost before = out@;
        let x = crate::text::slice_of(&lines[j], 0, lines[j].len());
        assert(x@ =~= lines@[j as int]@);
        out.push(x);
        assert(views(out@) =~= views(before).push(x@));
        j = j + 1;
        assert(views(out@) =~= views(lines@).take(o.start as int) + views(o.repl@) + views(
            lines@,
        ).subrange(o.end as int, j as int));
    }
    assert(views(lines@).subrange(o.end as int, j as int) =~= views(lines@).skip(o.end as int));
    out
}

impl PoDocument {
    /// Parse a `.po` file into its lines and entries.
    #[must_use]
    pub fn parse(content: &str) -> (r: Self)
        ensures
            r.lines_view() == lines_of(content@),
            r.entries_view() == po_entries(content@),
    {
        let chars = chars_of(content);
        let lines = split_lines(&chars);
        let ghost l = views(lines@);
        let msgid_kw = chars_of("msgid ");
        let mut entries: Vec<PoEntryLoc> = Vec::new();
        let mut st = ScanExec::new();
        let mut i: usize = 0;
        assert(entry_views(entries@) =~= Seq::<PoEntryView>::empty());
        while i < lines.len()
            invariant
                i <= lines.len(),
                l == views(lines@),
                l == lines_of(content@),
                msgid_kw@ == "msgid "@,
                st.below(i as int),
                scan(l, 0, scan_init()) == entry_views(entries@) + scan(l, i as int, st.state()),
            decreases lines.len() - i,
        {
            let t = trim_start_vec(&lines[i]);
            if starts_with_char(&t, '#') {
                comment_step_exec(&mut st, &t, i);
                i = i + 1;
            } else if t.len() == 0 {
                st = ScanExec::new();
                i = i + 1;
            } else if !starts_with(&t, &msgid_kw) {
                i = i + 1;
            } else {
                let (e, next) = entry_exec(&lines, i, &st);
                match e {
                    Some(e) => {
                        let ghost before = entries@;
                        entries.push(e);
                        assert(entry_views(entries@) =~= entry_views(before) + seq![e@]);
                    },
                    None => {},
                }
                st = ScanExec::new();
                i = next;
            }
        }
        assert(scan(l, i as int, st.state()) == Seq::<PoEntryView>::empty());
        assert(entry_views(entries@) + Seq::<PoEntryView>::empty() =~= entry_views(entries@));
        PoDocument { lines, entries }
    }

    /// Entries that still need a translation, as `(index, msgid)`: blank `msgstr`, or fuzzy
    /// *because `msgmerge` just changed it* (it has a `#|` previous-msgid comment). A fuzzy
    /// entry with no `#|` is one already machine-translated and left for human review. The
    /// header entry (`msgid ""`) and plural entries are never candidates.
    pub fn needs_translation(&self) -> (r: Vec<(usize, &str)>)
        ensures
            pair_views(r@) == candidates(self.entries_view()),
    {
        let mut out: Vec<(usize, &str)> = Vec::new();
        let mut i: usize = 0;
        while i < self.entries.len()
            invariant
                i <= self.entries.len(),
                pair_views(out@) == candidates(entry_views(self.entries@).take(i as int)),
            decreases self.entries.len() - i,
        {
            let e = &self.entries[i];
            let ghost es = entry_views(self.entries@).take(i + 1);
            assert(es.drop_last() =~= entry_views(self.entries@).take(i as int));
            assert(es.last() == e@);
            if e.msgid_plural.is_none() && !e.msgid.as_str().is_empty() && (e.msgstr.as_str().is_empty() || (
            e.is_fuzzy && e.has_prev_msgid)) {
                let ghost before = out@;
                out.push((i, e.msgid.as_str()));
                assert(pair_views(out@) =~= pair_views(before).push((i as int, e@.msgid)));
            }
            i = i + 1;
        }
        assert(entry_views(self.entries@).take(i as int) =~= entry_views(self.entries@));
        out
    }

    /// Plural entries that still need translating, as `(index, msgid, msgid_plural)`: the
    /// same rule as [`Self::needs_translation`], with "blank" meaning any form is blank.
    pub fn needs_plural_translation(&self) -> (r: Vec<(usize, &str, &str)>)
        ensures
            triple_views(r@) == plural_candidates(self.entries_view()),
    {
        let mut out: Vec<(usize, &str, &str)> = Vec::new();
        let mut i: usize = 0;
        while i < self.entries.len()
            invariant
                i <= self.entries.len(),
                triple_views(out@) == plural_candidates(
                    entry_views(self.entries@).take(i as int),
                ),
            decreases self.entries.len() - i,
        {
            let e = &self.entries[i];
            let ghost es = entry_views(self.entries@).take(i + 1);
            assert(es.drop_last() =~= entry_views(self.entries@).take(i as int));
            assert(es.last() == e@);
            match &e.msgid_plural {
                Some(plural) => {
                    let mut blank = e.msgstr_plural.len() == 0;
                    let mut j: usize = 0;
                    while j < e.msgstr_plural.len()
                        invariant
                            j <= e.msgstr_plural.len(),
                            blank == (e.msgstr_plural.len() == 0 || exists|m: int|
                                0 <= m < j && #[trigger] string_views(e.msgstr_plural@)[m].len()
                                    == 0),
                        decreases e.msgstr_plural.len() - j,
                    {
                        if e.msgstr_plural[j].as_str().is_empty() {
                            assert(string_views(e.msgstr_plural@)[j as int].len() == 0);
                            blank = true;
                        }
                        j = j + 1;
                    }
                    assert(blank == has_blank_form(e@.msgstr_plural));
                    if !e.msgid.as_str().is_empty() && (blank || (e.is_fuzzy && e.has_prev_msgid)) {
                        let ghost before = out@;
                        out.push((i, e.msgid.as_str(), plural.as_str()));
                        assert(triple_views(out@) =~= triple_views(before).push(
                            (i as int, e@.msgid, e@.msgid_plural->0),
                        ));
                    }
                },
                None => {},
            }
            i = i + 1;
        }
        assert(entry_views(self.entries@).take(i as int) =~= entry_views(self.entries@));
        out
    }

    /// The `nplurals=N` value from the file's `Plural-Forms` header, which is how many forms
    /// this language wants. `None` when the header is absent or unparsable.
    #[must_use]
    pub fn nplurals(&self) -> (r: Option<usize>)
        ensures
            (match r {
                Some(n) => Some(n as nat),
                None => None::<nat>,
            }) == doc_nplurals(self.entries_view()),
    {
        let ghost es = entry_views(self.entries@);
        let mut h: usize = 0;
        while h < self.entries.len() && !self.entries[h].msgid.as_str().is_empty()
            invariant
                h <= self.entries.len(),
                es == entry_views(self.entries@),
                header_from(es, 0) == header_from(es, h as int),
            decreases self.entries.len() - h,
        {
            h = h + 1;
        }
        if h == self.entries.len() {
            return None;
        }
        let m = chars_of(self.entries[h].msgstr.as_str());
        let at = match find_exec(&m, &chars_of("nplurals")) {
            Some(at) => at,
            None => {
                return None;
            },
        };
        proof {
            crate::text::lemma_find_from_bounds(m@, "nplurals"@, 0);
        }
        let rest = skip(&m, at);
        let eq = match index_of_exec(&rest, '=') {
            Some(eq) => eq,
            None => {
                return None;
            },
        };
        proof {
            crate::text::lemma_find_from_bounds(rest@, seq!['='], 0);
        }
        assert(rest@.len() == rest.len());
        let t = trim_start_vec(&skip(&rest, eq + 1));
        parse_leading_count(&t)
    }

    /// Applies a batch of `(entry index, translated text)` results: for each entry, the
    /// existing `#,`/`#|` block (if any) collapses to a plain `#, fuzzy` line and the `msgstr`
    /// is replaced. Everything else in the file is untouched.
    pub fn apply_all(&mut self, translations: &[(usize, String)])
        requires
            indices_in(old(self).entries_view(), singular_batch(translations@)),
            all_fit(
                old(self).lines_view(),
                sort_ops(ops_of(old(self).entries_view(), singular_batch(translations@))),
            ),
        ensures
            final(self).lines_view() == splice_all(
                old(self).lines_view(),
                sort_ops(ops_of(old(self).entries_view(), singular_batch(translations@))),
            ),
            final(self).entries_view() == old(self).entries_view(),
    {
        let mut owned: Vec<(usize, Translation)> = Vec::new();
        let mut k: usize = 0;
        while k < translations.len()
            invariant
                k <= translations.len(),
                batch_view(owned@) == singular_batch(translations@).take(k as int),
            decreases translations.len() - k,
        {
            let (i, t) = &translations[k];
            let ghost before = owned@;
            let c = t.clone();
            assert(c@ == translations@[k as int].1@);
            owned.push((*i, Translation::Singular(c)));
            assert(batch_view(owned@) =~= batch_view(before).push(
                (*i as int, TranslationView::Singular(c@)),
            ));
            assert(singular_batch(translations@).take(k + 1) =~= singular_batch(
                translations@,
            ).take(k as int).push((*i as int, TranslationView::Singular(c@))));
            k = k + 1;
            assert(batch_view(owned@) =~= singular_batch(translations@).take(k as int));
        }
        assert(singular_batch(translations@).take(k as int) =~= singular_batch(translations@));
        self.apply(&owned);
    }

    /// Applies a batch of results, singular or plural, in one pass: the edits are collected,
    /// ordered from the bottom of the file up, and spliced in, so every range still refers to
    /// the lines it was read from. A translation whose shape does not match its entry's (a
    /// plural for an ordinary entry, or the reverse) is skipped rather than written.
    pub fn apply(&mut self, translations: &[(usize, Translation)])
        requires
            indices_in(old(self).entries_view(), batch_view(translations@)),
            all_fit(
                old(self).lines_view(),
                sort_ops(ops_of(old(self).entries_view(), batch_view(translations@))),
            ),
        ensures
            final(self).lines_view() == splice_all(
                old(self).lines_view(),
                sort_ops(ops_of(old(self).entries_view(), batch_view(translations@))),
            ),
            final(self).entries_view() == old(self).entries_view(),
    {
        let ghost es = entry_views(self.entries@);
        let ghost batch = batch_view(translations@);
        let mut ops: Vec<OpExec> = Vec::new();
        let mut k: usize = 0;
        while k < translations.len()
            invariant
                k <= translations.len(),
                es == entry_views(self.entries@),
                batch == batch_view(translations@),
                indices_in(es, batch),
                op_views(ops@) == ops_of(es, batch.take(k as int)),
            decreases translations.len() - k,
        {
            let (idx, t) = &translations[k];
            assert(batch[k as int].0 == *idx as int);
            assert(batch.take(k + 1).drop_last() =~= batch.take(k as int));
            assert(batch.take(k + 1).last() == (*idx as int, t@));
            let e = &self.entries[*idx];
            assert(es[*idx as int] == e@);
            match replacement_exec(e, t) {
                Some(r) => {
                    let ghost before = op_views(ops@);
                    let o1 = OpExec { start: e.msgstr_start, end: e.msgstr_end, repl: r };
                    let mut fz: Vec<Vec<char>> = Vec::new();
                    fz.push(chars_of("#, fuzzy"));
                    assert(views(fz@) =~= seq!["#, fuzzy"@]);
                    let o2 = OpExec { start: e.flag_start, end: e.flag_end, repl: fz };
                    ops.push(o1);
                    ops.push(o2);
                    assert(op_views(ops@) =~= before + seq![o1.view(), o2.view()]);
                },
                None => {},
            }
            k = k + 1;
        }
        assert(batch.take(k as int) =~= batch);
        let ghost all_ops = op_views(ops@);
        let mut sorted: Vec<OpExec> = Vec::new();
        let mut n: usize = 0;
        assert(op_views(sorted@) =~= Seq::<Op>::empty());
        assert(all_ops.skip(0) =~= all_ops);
        assert(all_ops.len() == ops.len());
        assert(all_ops.take(0) =~= Seq::<Op>::empty());
        while ops.len() > 0
            invariant
                n + ops.len() == all_ops.len(),
                all_ops.len() <= usize::MAX,
                op_views(ops@) == all_ops.skip(n as int),
                op_views(sorted@) == sort_ops(all_ops.take(n as int)),
            decreases ops.len(),
        {
            let ghost rest = op_views(ops@);
            let o = ops.remove(0);
            assert(op_views(ops@) =~= rest.skip(1));
            assert(rest[0] == all_ops[n as int]);
            assert(o.view() == all_ops[n as int]);
            assert(all_ops.take(n + 1).drop_last() =~= all_ops.take(n as int));
            insert_desc_exec(&mut sorted, o);
            n = n + 1;
            assert(all_ops.skip(n as int) =~= rest.skip(1));
        }
        assert(all_ops.take(n as int) =~= all_ops);
        let ghost s_ops = op_views(sorted@);
        let ghost l0 = views(self.lines@);
        let mut lines: Vec<Vec<char>> = Vec::new();
        std::mem::swap(&mut lines, &mut self.lines);
        let mut m: usize = 0;
        assert(s_ops.skip(0) =~= s_ops);
        while m < sorted.len()
            invariant
                m <= sorted.len(),
                s_ops == op_views(sorted@),
                splice_all(l0, s_ops) == splice_all(views(lines@), s_ops.skip(m as int)),
                all_fit(views(lines@), s_ops.skip(m as int)),
            decreases sorted.len() - m,
        {
            let ghost rest = s_ops.skip(m as int);
            assert(rest[0] == sorted@[m as int].view());
            assert(rest.skip(1) =~= s_ops.skip(m + 1));
            lines = splice_exec(&lines, &sorted[m]);
            m = m + 1;
        }
        assert(s_ops.skip(m as int) =~= Seq::<Op>::empty());
        self.lines = lines;
    }

    /// Renders the document: its lines joined by newlines, with a final newline.
    #[must_use]
    pub fn render(&self) -> (r: String)
        ensures
            r@ == render_lines(self.lines_view()),
    {
        let nl: Vec<char> = vec!['\n'];
        assert(nl@ =~= seq!['\n']);
        let mut out = join_exec(&self.lines, &nl);
        out.push('\n');
        string_of(&out)
    }
}

/// The positive count spelled by the digits `t` starts with, when it fits a `usize`.
pub(crate) fn parse_leading_count(t: &[char]) -> (r: Option<usize>)
    ensures
        (match r {
            Some(n) => Some(n as nat),
            None => None::<nat>,
        }) == (if leading_digits(t@).len() == 0 || digits_value(leading_digits(t@)) > usize::MAX
            || digits_value(leading_digits(t@)) == 0 {
            None
        } else {
            Some(digits_value(leading_digits(t@)))
        }),
{
    let mut i: usize = 0;
    assert(t@.skip(0) =~= t@);
    assert(t@.take(0) =~= Seq::<char>::empty());
    while i < t.len() && crate::text::digit(t[i])
        invariant
            i <= t.len(),
            leading_digits(t@) == t@.take(i as int) + leading_digits(t@.skip(i as int)),
            forall|k: int| 0 <= k < i ==> crate::text::is_digit(#[trigger] t@[k]),
        decreases t.len() - i,
    {
        assert(t@.skip(i as int)[0] == t@[i as int]);
        assert(t@.skip(i as int).skip(1) =~= t@.skip(i + 1));
        assert(t@.take(i + 1) =~= t@.take(i as int) + seq![t@[i as int]]);
        i = i + 1;
    }
    assert(t@.skip(0) =~= t@);
    assert(leading_digits(t@.skip(i as int)) == Seq::<char>::empty());
    assert(leading_digits(t@) =~= t@.take(i as int));
    let ghost ds = t@.take(i as int);
    if i == 0 {
        return None;
    }
    let mut v: usize = 0;
    let mut k: usize = 0;
    assert(ds.take(0) =~= Seq::<char>::empty());
    while k < i
        invariant
            k <= i <= t.len(),
            ds == t@.take(i as int),
            leading_digits(t@) == ds,
            forall|m: int| 0 <= m < i ==> crate::text::is_digit(#[trigger] t@[m]),
            v as nat == digits_value(ds.take(k as int)),
        decreases i - k,
    {
        assert(ds.take(k + 1).drop_last() =~= ds.take(k as int));
        assert(ds.take(k + 1).last() == t@[k as int]);
        assert(crate::text::is_digit(t@[k as int]));
        let d = (t[k] as u32 - '0' as u32) as usize;
        assert(digits_value(ds.take(k + 1)) == v * 10 + d);
        match v.checked_mul(10) {
            Some(m) => match m.checked_add(d) {
                Some(n) => {
                    v = n;
                },
                None => {
                    proof {
                        lemma_digits_value_prefix(ds, k + 1);
                    }
                    return None;
                },
            },
            None => {
                proof {
                    lemma_digits_value_prefix(ds, k + 1);
                }
                return None;
            },
        }
        k = k + 1;
    }
    assert(ds.take(k as int) =~= ds);
    if v == 0 {
        None
    } else {
        Some(v)
    }
}

/// A number's digits spell at least as much as any prefix of them.
pub proof fn lemma_digits_value_prefix(ds: Seq<char>, k: int)
    requires
        0 <= k <= ds.len(),
    ensures
        digits_value(ds.take(k)) <= digits_value(ds),
    decreases ds.len(),
{
    if k < ds.len() {
        assert(ds.drop_last().take(k) =~= ds.take(k));
        lemma_digits_value_prefix(ds.drop_last(), k);
    } else {
        assert(ds.take(k) =~= ds);
    }
}

/// The first line break of a text that ends with one.
proof fn lemma_first_break(s: Seq<char>) -> (i: int)
    requires
        s.len() > 0,
        s.last() == '\n',
    ensures
        0 <= i < s.len(),
        s[i] == '\n',
        forall|j: int| 0 <= j < i ==> s[j] != '\n',
    decreases s.len(),
{
    if s[0] == '\n' {
        0
    } else {
        let k = lemma_first_break(s.drop_first());
        assert forall|j: int| 0 <= j < k + 1 implies s[j] != '\n' by {
            if j > 0 {
                assert(s[j] == s.drop_first()[j - 1]);
            }
        }
        k + 1
    }
}

/// What follows a line break of a text with no `\r\n` has none either.
proof fn lemma_no_crlf_after(s: Seq<char>, i: int)
    requires
        0 <= i < s.len(),
        forall|k: int| 0 < k < s.len() && #[trigger] s[k] == '\n' ==> s[k - 1] != '\r',
    ensures
        forall|j: int| 0 < j < s.skip(i + 1).len() && #[trigger] s.skip(i + 1)[j] == '\n' ==> s.skip(
            i + 1,
        )[j - 1] != '\r',
{
    let rest = s.skip(i + 1);
    assert forall|j: int| 0 < j < rest.len() && #[trigger] rest[j] == '\n' implies rest[j - 1] != '\r' by {
        assert(rest[j] == s[j + i + 1]);
        assert(rest[j - 1] == s[j + i]);
    }
}

/// A text that ends with a line break has at least one line, and rendering its lines puts
/// the first one, a line break and the rendering of the others together.
proof fn lemma_render_cons(a: Seq<char>, rest: Seq<char>)
    requires
        rest.len() > 0,
        rest.last() == '\n',
        render_lines(lines_of(rest)) == rest,
    ensures
        render_lines(seq![a] + lines_of(rest)) == a + seq!['\n'] + rest,
{
    let j = lemma_first_break(rest);
    crate::text::lemma_lines_cons_any(rest.take(j), rest.skip(j + 1));
    assert(rest =~= rest.take(j) + seq!['\n'] + rest.skip(j + 1));
    assert(lines_of(rest).len() >= 1);
    crate::text::lemma_join_prepend(a, lines_of(rest), seq!['\n']);
}

/// Parsing a file and rendering it gives the file back byte for byte, when it ends with a
/// line break and has no `\r\n` line end (which reading the lines folds into `\n`).
pub proof fn law_render_parse(s: Seq<char>)
    requires
        s.len() > 0,
        s.last() == '\n',
        forall|i: int| 0 < i < s.len() && #[trigger] s[i] == '\n' ==> s[i - 1] != '\r',
    ensures
        render_lines(lines_of(s)) == s,
    decreases s.len(),
{
    let i = lemma_first_break(s);
    let a = s.take(i);
    let rest = s.skip(i + 1);
    assert(s =~= a + seq!['\n'] + rest);
    if i > 0 {
        assert(a.last() == s[i - 1]);
    }
    crate::text::lemma_lines_cons(a, rest);
    if rest.len() == 0 {
        assert(lines_of(rest) =~= Seq::<Seq<char>>::empty());
        assert(seq![a] + lines_of(rest) =~= seq![a]);
    } else {
        assert(rest.last() == s.last());
        lemma_no_crlf_after(s, i);
        law_render_parse(rest);
        lemma_render_cons(a, rest);
    }
}

/// The single-string path only ever lists ordinary entries: each candidate names an entry
/// with a non-empty msgid (never the header) and no `msgid_plural`, and carries its msgid.
pub proof fn law_candidates_are_ordinary(es: Seq<PoEntryView>)
    ensures
        forall|k: int|
            0 <= k < candidates(es).len() ==> {
                let c = #[trigger] candidates(es)[k];
                &&& 0 <= c.0 < es.len()
                &&& es[c.0].msgid_plural is None
                &&& es[c.0].msgid.len() > 0
                &&& c.1 == es[c.0].msgid
            },
    decreases es.len(),
{
    if es.len() > 0 {
        law_candidates_are_ordinary(es.drop_last());
        let rest = candidates(es.drop_last());
        assert forall|k: int| 0 <= k < candidates(es).len() implies {
            let c = #[trigger] candidates(es)[k];
            &&& 0 <= c.0 < es.len()
            &&& es[c.0].msgid_plural is None
            &&& es[c.0].msgid.len() > 0
            &&& c.1 == es[c.0].msgid
        } by {
            if k < rest.len() {
                assert(candidates(es)[k] == rest[k]);
                assert(es.drop_last()[rest[k].0] == es[rest[k].0]);
            }
        }
    }
}

/// The ordinary entries listed for translation are exactly those with a msgid (never the
/// header) and no `msgid_plural` whose msgstr is empty or that are fuzzy with a `#|`
/// previous-msgid comment, however complete their msgstr; each is listed once, by its index,
/// with its msgid, in file order.
pub proof fn law_candidates_are_the_stale_or_untranslated(es: Seq<PoEntryView>)
    ensures
        forall|k: int|
            0 <= k < candidates(es).len() ==> {
                let c = #[trigger] candidates(es)[k];
                &&& 0 <= c.0 < es.len()
                &&& es[c.0].msgid_plural is None
                &&& c.1 == es[c.0].msgid
                &&& c.1.len() > 0
                &&& (es[c.0].msgstr.len() == 0 || (es[c.0].is_fuzzy && es[c.0].has_prev_msgid))
            },
        forall|i: int|
            0 <= i < es.len() && (#[trigger] es[i]).msgid_plural is None && es[i].msgid.len() > 0 && (
            es[i].msgstr.len() == 0 || (es[i].is_fuzzy && es[i].has_prev_msgid)) ==> exists|k: int|
                0 <= k < candidates(es).len() && candidates(es)[k] == (i, es[i].msgid),
        forall|k1: int, k2: int|
            0 <= k1 < k2 < candidates(es).len() ==> (#[trigger] candidates(es)[k1]).0 < (
            #[trigger] candidates(es)[k2]).0,
    decreases es.len(),
{
    if es.len() > 0 {
        let d = es.drop_last();
        law_candidates_are_the_stale_or_untranslated(d);
        let rest = candidates(d);
        let pc = candidates(es);
        let last = es.last();
        assert(forall|i: int| 0 <= i < d.len() ==> d[i] == es[i]);
        if is_candidate(last) {
            assert(pc == rest.push(((es.len() - 1) as int, last.msgid)));
        } else {
            assert(pc == rest);
        }
        assert(forall|k: int| 0 <= k < rest.len() ==> pc[k] == rest[k]);
        assert forall|k: int| 0 <= k < pc.len() implies {
            let c = #[trigger] pc[k];
            &&& 0 <= c.0 < es.len()
            &&& es[c.0].msgid_plural is None
            &&& c.1 == es[c.0].msgid
            &&& c.1.len() > 0
            &&& (es[c.0].msgstr.len() == 0 || (es[c.0].is_fuzzy && es[c.0].has_prev_msgid))
        } by {
            if k < rest.len() {
                let c = rest[k];
                assert(d[c.0] == es[c.0]);
            } else {
                assert(es[es.len() - 1] == last);
            }
        }
        assert forall|i: int|
            0 <= i < es.len() && (#[trigger] es[i]).msgid_plural is None && es[i].msgid.len() > 0 && (
            es[i].msgstr.len() == 0 || (es[i].is_fuzzy && es[i].has_prev_msgid)) implies exists|k: int|
                0 <= k < pc.len() && pc[k] == (i, es[i].msgid) by {
            if i < d.len() {
                assert(d[i] == es[i]);
                let k = choose|k: int| 0 <= k < rest.len() && rest[k] == (i, d[i].msgid);
                assert(pc[k] == rest[k]);
            } else {
                assert(es[i] == last);
                assert(pc[rest.len() as int] == (i, es[i].msgid));
            }
        }
        assert forall|k1: int, k2: int| 0 <= k1 < k2 < pc.len() implies (#[trigger] pc[k1]).0 < (
        #[trigger] pc[k2]).0 by {
            if k2 >= rest.len() {
                assert(pc[k1] == rest[k1]);
                assert(rest[k1].0 < d.len());
            } else {
                assert(pc[k1] == rest[k1] && pc[k2] == rest[k2]);
            }
        }
    }
}

/// The plural entries listed for translation are exactly those with a msgid (never the
/// header) and a `msgid_plural` that either miss a form (none written, or one left blank) or
/// are fuzzy with a `#|` previous-msgid comment, however complete their forms; each is listed
/// once, by its index, with its msgid and msgid_plural, in file order.
pub proof fn law_plural_candidates_are_the_stale_or_unfinished(es: Seq<PoEntryView>)
    ensures
        forall|k: int|
            0 <= k < plural_candidates(es).len() ==> {
                let c = #[trigger] plural_candidates(es)[k];
                &&& 0 <= c.0 < es.len()
                &&& es[c.0].msgid_plural == Some(c.2)
                &&& c.1 == es[c.0].msgid
                &&& c.1.len() > 0
                &&& (es[c.0].msgstr_plural.len() == 0 || (exists|j: int|
                    0 <= j < es[c.0].msgstr_plural.len() && es[c.0].msgstr_plural[j].len() == 0)
                    || (es[c.0].is_fuzzy && es[c.0].has_prev_msgid))
            },
        forall|i: int|
            0 <= i < es.len() && (#[trigger] es[i]).msgid_plural is Some && es[i].msgid.len() > 0 && (
            es[i].msgstr_plural.len() == 0 || (exists|j: int|
                0 <= j < es[i].msgstr_plural.len() && es[i].msgstr_plural[j].len() == 0) || (
            es[i].is_fuzzy && es[i].has_prev_msgid)) ==> exists|k: int|
                0 <= k < plural_candidates(es).len() && plural_candidates(es)[k] == (
                    i,
                    es[i].msgid,
                    es[i].msgid_plural->0,
                ),
        forall|k1: int, k2: int|
            0 <= k1 < k2 < plural_candidates(es).len() ==> (#[trigger] plural_candidates(es)[k1]).0
                < (#[trigger] plural_candidates(es)[k2]).0,
    decreases es.len(),
{
    if es.len() > 0 {
        let d = es.drop_last();
        law_plural_candidates_are_the_stale_or_unfinished(d);
        let rest = plural_candidates(d);
        let pc = plural_candidates(es);
        let last = es.last();
        assert(forall|i: int| 0 <= i < d.len() ==> d[i] == es[i]);
        assert(forall|k: int| 0 <= k < rest.len() ==> pc[k] == rest[k]);
        if is_plural_candidate(last) {
            assert(pc == rest.push(((es.len() - 1) as int, last.msgid, last.msgid_plural->0)));
        } else {
            assert(pc == rest);
        }
        assert forall|k: int| 0 <= k < pc.len() implies {
            let c = #[trigger] pc[k];
            &&& 0 <= c.0 < es.len()
            &&& es[c.0].msgid_plural == Some(c.2)
            &&& c.1 == es[c.0].msgid
            &&& c.1.len() > 0
            &&& (es[c.0].msgstr_plural.len() == 0 || (exists|j: int|
                0 <= j < es[c.0].msgstr_plural.len() && es[c.0].msgstr_plural[j].len() == 0)
                || (es[c.0].is_fuzzy && es[c.0].has_prev_msgid))
        } by {
            if k < rest.len() {
                let c = rest[k];
                assert(d[c.0] == es[c.0]);
            } else {
                assert(es[es.len() - 1] == last);
                if !(last.msgstr_plural.len() == 0 || (last.is_fuzzy && last.has_prev_msgid)) {
                    let j = choose|j: int| 0 <= j < last.msgstr_plural.len() && #[trigger] last.msgstr_plural[j].len() == 0;
                    assert(es[es.len() - 1].msgstr_plural[j].len() == 0);
                }
            }
        }
        assert forall|i: int|
            0 <= i < es.len() && (#[trigger] es[i]).msgid_plural is Some && es[i].msgid.len() > 0 && (
            es[i].msgstr_plural.len() == 0 || (exists|j: int|
                0 <= j < es[i].msgstr_plural.len() && es[i].msgstr_plural[j].len() == 0) || (
            es[i].is_fuzzy && es[i].has_prev_msgid)) implies exists|k: int|
                0 <= k < pc.len() && pc[k] == (i, es[i].msgid, es[i].msgid_plural->0) by {
            if i < d.len() {
                assert(d[i] == es[i]);
                let k = choose|k: int|
                    0 <= k < rest.len() && rest[k] == (i, d[i].msgid, d[i].msgid_plural->0);
                assert(pc[k] == rest[k]);
            } else {
                assert(es[i] == last);
                if !(last.msgstr_plural.len() == 0 || (last.is_fuzzy && last.has_prev_msgid)) {
                    let j = choose|j: int| 0 <= j < es[i].msgstr_plural.len() && es[i].msgstr_plural[j].len() == 0;
                    assert(last.msgstr_plural[j].len() == 0);
                }
                assert(is_plural_candidate(last));
                assert(pc[rest.len() as int] == (i, es[i].msgid, es[i].msgid_plural->0));
            }
        }
        assert forall|k1: int, k2: int| 0 <= k1 < k2 < pc.len() implies (#[trigger] pc[k1]).0 < (
        #[trigger] pc[k2]).0 by {
            if k2 >= rest.len() {
                assert(pc[k1] == rest[k1]);
                assert(rest[k1].0 < d.len());
            } else {
                assert(pc[k1] == rest[k1] && pc[k2] == rest[k2]);
            }
        }
    }
}

/// A batch whose every translation has the wrong shape for its entry (a plural for an
/// ordinary entry or a single string for a plural one), the empty batch among them, leaves
/// the lines untouched.
pub proof fn law_mismatched_batch_changes_nothing(
    lines: Seq<Seq<char>>,
    es: Seq<PoEntryView>,
    ts: Seq<(int, TranslationView)>,
)
    requires
        forall|k: int| 0 <= k < ts.len() ==> (#[trigger] replacement(es[ts[k].0], ts[k].1)) is None,
    ensures
        splice_all(lines, sort_ops(ops_of(es, ts))) == lines,
        all_fit(lines, sort_ops(ops_of(es, ts))),
{
    lemma_no_ops(es, ts);
}

proof fn lemma_no_ops(es: Seq<PoEntryView>, ts: Seq<(int, TranslationView)>)
    requires
        forall|k: int| 0 <= k < ts.len() ==> (#[trigger] replacement(es[ts[k].0], ts[k].1)) is None,
    ensures
        ops_of(es, ts) == Seq::<Op>::empty(),
    decreases ts.len(),
{
    if ts.len() > 0 {
        assert forall|k: int| 0 <= k < ts.drop_last().len() implies (#[trigger] replacement(
            es[ts.drop_last()[k].0],
            ts.drop_last()[k].1,
        )) is None by {
            assert(ts.drop_last()[k] == ts[k]);
        }
        lemma_no_ops(es, ts.drop_last());
        assert(replacement(es[ts[ts.len() - 1].0], ts[ts.len() - 1].1) is None);
    }
}

/// Where an entry lies: its flag block, then its msgid line, then its translation lines,
/// all between `lo` and `n`.
pub open spec fn placed(e: PoEntryView, lo: int, n: int) -> bool {
    lo <= e.flag_start <= e.flag_end < e.msgstr_start <= e.msgstr_end <= n
}

/// Every entry lies between `lo` and `n`, and each ends before the next begins.
pub open spec fn well_placed(es: Seq<PoEntryView>, lo: int, n: int) -> bool {
    &&& forall|a: int| 0 <= a < es.len() ==> placed(#[trigger] es[a], lo, n)
    &&& forall|a: int, b: int|
        0 <= a < b < es.len() ==> (#[trigger] es[a]).msgstr_end <= (#[trigger] es[b]).flag_start
}

/// What was read ahead lies between `lo` and the line `i` being read.
pub open spec fn scan_ok(st: PoScan, lo: int, i: int) -> bool {
    &&& st.flag_line matches Some(f) ==> lo <= f < i
    &&& st.prev matches Some((p, q)) ==> lo <= p < q <= i
}

pub(crate) proof fn lemma_scan_placed(lines: Seq<Seq<char>>, i: int, st: PoScan, lo: int)
    requires
        0 <= lo <= i,
        scan_ok(st, lo, i),
    ensures
        well_placed(scan(lines, i, st), lo, lines.len() as int),
    decreases lines.len() - i,
{
    if i < lines.len() {
        let t = trim_start(lines[i]);
        if has_prefix(t, seq!['#']) {
            lemma_scan_placed(lines, i + 1, comment_step(st, t, i), lo);
        } else if t.len() == 0 {
            lemma_scan_placed(lines, i + 1, scan_init(), i + 1);
        } else if !has_prefix(t, "msgid "@) {
            lemma_scan_placed(lines, i + 1, st, lo);
        } else {
            lemma_entry_end(lines, i);
            let end = entry_end(lines, i);
            lemma_scan_placed(lines, end, scan_init(), end);
            if has_msgstr(lines, i) {
                let e = entry_at(lines, i, st);
                let rest = scan(lines, end, scan_init());
                let es = seq![e] + rest;
                assert(placed(e, lo, lines.len() as int));
                assert forall|a: int| 0 <= a < es.len() implies placed(
                    #[trigger] es[a],
                    lo,
                    lines.len() as int,
                ) by {
                    if a > 0 {
                        assert(es[a] == rest[a - 1]);
                        assert(placed(rest[a - 1], end, lines.len() as int));
                    }
                }
                assert forall|a: int, b: int| 0 <= a < b < es.len() implies (
                #[trigger] es[a]).msgstr_end <= (#[trigger] es[b]).flag_start by {
                    assert(es[b] == rest[b - 1]);
                    assert(placed(rest[b - 1], end, lines.len() as int));
                    if a > 0 {
                        assert(es[a] == rest[a - 1]);
                    }
                }
            } else {
                let rest = scan(lines, end, scan_init());
                assert forall|a: int| 0 <= a < rest.len() implies placed(
                    #[trigger] rest[a],
                    lo,
                    lines.len() as int,
                ) by {
                    assert(placed(rest[a], end, lines.len() as int));
                }
            }
        }
    }
}


/// Whether neither of two edits reaches into the other.
pub open spec fn apart(x: Op, y: Op) -> bool {
    x.end <= y.start || y.end <= x.start
}

/// Whether every two edits of the list are apart.
pub open spec fn all_apart(ops: Seq<Op>) -> bool {
    forall|i: int, j: int| 0 <= i < j < ops.len() ==> apart(#[trigger] ops[i], #[trigger] ops[j])
}

/// Whether an edit lies within the span of an entry.
pub open spec fn within(o: Op, e: PoEntryView) -> bool {
    e.flag_start <= o.start <= o.end <= e.msgstr_end
}

/// Whether an edit lies within the span of one of the batch's entries.
pub open spec fn from_batch(o: Op, es: Seq<PoEntryView>, ts: Seq<(int, TranslationView)>) -> bool {
    exists|m: int| 0 <= m < ts.len() && #[trigger] within(o, es[ts[m].0])
}

proof fn lemma_ops_apart(es: Seq<PoEntryView>, ts: Seq<(int, TranslationView)>, n: int)
    requires
        well_placed(es, 0, n),
        indices_in(es, ts),
        forall|k1: int, k2: int| 0 <= k1 < k2 < ts.len() ==> (#[trigger] ts[k1]).0 != (#[trigger] ts[k2]).0,
    ensures
        all_apart(ops_of(es, ts)),
        forall|k: int| 0 <= k < ops_of(es, ts).len() ==> from_batch(#[trigger] ops_of(es, ts)[k], es, ts),
        forall|k: int|
            0 <= k < ops_of(es, ts).len() ==> 0 <= (#[trigger] ops_of(es, ts)[k]).start
                <= ops_of(es, ts)[k].end <= n,
    decreases ts.len(),
{
    if ts.len() > 0 {
        let dl = ts.drop_last();
        assert forall|k1: int, k2: int| 0 <= k1 < k2 < dl.len() implies (#[trigger] dl[k1]).0 != (
        #[trigger] dl[k2]).0 by {
            assert(dl[k1] == ts[k1] && dl[k2] == ts[k2]);
        }
        assert(indices_in(es, dl)) by {
            assert forall|k: int| 0 <= k < dl.len() implies 0 <= #[trigger] dl[k].0 < es.len() by {
                assert(dl[k] == ts[k]);
            }
        }
        lemma_ops_apart(es, dl, n);
        let prev = ops_of(es, dl);
        let last = ts[ts.len() - 1];
        assert(0 <= last.0 < es.len());
        let e = es[last.0];
        assert(placed(e, 0, n));
        let ops = ops_of(es, ts);
        assert forall|k: int| 0 <= k < prev.len() implies from_batch(#[trigger] prev[k], es, ts) by {
            let m = choose|m: int| 0 <= m < dl.len() && #[trigger] within(prev[k], es[dl[m].0]);
            assert(dl[m] == ts[m]);
            assert(within(prev[k], es[ts[m].0]));
        }
        match replacement(e, last.1) {
            Some(r) => {
                let mo = Op { start: e.msgstr_start, end: e.msgstr_end, repl: r };
                let fo = Op { start: e.flag_start, end: e.flag_end, repl: seq!["#, fuzzy"@] };
                assert(ops == prev + seq![mo, fo]);
                assert forall|k: int| 0 <= k < prev.len() implies apart(#[trigger] prev[k], mo)
                    && apart(prev[k], fo) by {
                    let m = choose|m: int| 0 <= m < dl.len() && #[trigger] within(prev[k], es[dl[m].0]);
                    let a = dl[m].0;
                    assert(dl[m] == ts[m]);
                    assert(a != last.0);
                    assert(placed(es[a], 0, n));
                    if a < last.0 {
                        assert(es[a].msgstr_end <= es[last.0].flag_start);
                    } else {
                        assert(es[last.0].msgstr_end <= es[a].flag_start);
                    }
                }
                assert forall|i: int, j: int| 0 <= i < j < ops.len() implies apart(
                    #[trigger] ops[i],
                    #[trigger] ops[j],
                ) by {
                    if j < prev.len() {
                        assert(ops[i] == prev[i] && ops[j] == prev[j]);
                    } else if i < prev.len() {
                        assert(ops[i] == prev[i]);
                    }
                }
                assert forall|k: int| 0 <= k < ops.len() implies from_batch(#[trigger] ops[k], es, ts) by {
                    if k < prev.len() {
                        assert(ops[k] == prev[k]);
                    } else {
                        assert(within(ops[k], es[ts[ts.len() - 1].0]));
                    }
                }
                assert forall|k: int| 0 <= k < ops.len() implies 0 <= (#[trigger] ops[k]).start
                    <= ops[k].end <= n by {
                    if k < prev.len() {
                        assert(ops[k] == prev[k]);
                    }
                }
            },
            None => {
                assert(ops == prev);
            },
        }
    }
}

/// What an ordered insertion keeps: every edit comes from the list or is the one inserted.
pub(crate) proof fn lemma_insert_desc(s: Seq<Op>, o: Op)
    ensures
        insert_desc(s, o).len() == s.len() + 1,
        forall|k: int|
            0 <= k < insert_desc(s, o).len() ==> #[trigger] insert_desc(s, o)[k] == o || exists|m: int|
                0 <= m < s.len() && insert_desc(s, o)[k] == #[trigger] s[m],
        (forall|i: int, j: int| 0 <= i < j < s.len() ==> (#[trigger] s[i]).start >= (#[trigger] s[j]).start)
            ==> (forall|i: int, j: int|
            0 <= i < j < insert_desc(s, o).len() ==> (#[trigger] insert_desc(s, o)[i]).start
                >= (#[trigger] insert_desc(s, o)[j]).start),
        (all_apart(s) && forall|m: int| 0 <= m < s.len() ==> apart(o, #[trigger] s[m])) ==> all_apart(
            insert_desc(s, o),
        ),
    decreases s.len(),
{
    if s.len() > 0 && s.last().start < o.start {
        let dl = s.drop_last();
        lemma_insert_desc(dl, o);
        let r = insert_desc(dl, o);
        let out = insert_desc(s, o);
        assert(out == r.push(s.last()));
        assert forall|k: int| 0 <= k < out.len() implies #[trigger] out[k] == o || exists|m: int|
            0 <= m < s.len() && out[k] == #[trigger] s[m] by {
            if k < r.len() {
                assert(out[k] == r[k]);
                if r[k] != o {
                    let m = choose|m: int| 0 <= m < dl.len() && r[k] == #[trigger] dl[m];
                    assert(dl[m] == s[m]);
                }
            } else {
                assert(out[k] == s[s.len() - 1]);
            }
        }
        if forall|i: int, j: int| 0 <= i < j < s.len() ==> (#[trigger] s[i]).start >= (#[trigger] s[j]).start {
            assert forall|i: int, j: int| 0 <= i < j < dl.len() implies (#[trigger] dl[i]).start
                >= (#[trigger] dl[j]).start by {
                assert(dl[i] == s[i] && dl[j] == s[j]);
            }
            assert forall|i: int, j: int| 0 <= i < j < out.len() implies (#[trigger] out[i]).start
                >= (#[trigger] out[j]).start by {
                if j < r.len() {
                    assert(out[i] == r[i] && out[j] == r[j]);
                } else {
                    assert(out[i] == r[i]);
                    assert(out[j] == s.last());
                    if r[i] != o {
                        let m = choose|m: int| 0 <= m < dl.len() && r[i] == #[trigger] dl[m];
                        assert(dl[m] == s[m]);
                        assert(s[m].start >= s[s.len() - 1].start);
                    }
                }
            }
        }
        if all_apart(s) && forall|m: int| 0 <= m < s.len() ==> apart(o, #[trigger] s[m]) {
            assert(all_apart(dl)) by {
                assert forall|i: int, j: int| 0 <= i < j < dl.len() implies apart(
                    #[trigger] dl[i],
                    #[trigger] dl[j],
                ) by {
                    assert(dl[i] == s[i] && dl[j] == s[j]);
                }
            }
            assert forall|m: int| 0 <= m < dl.len() implies apart(o, #[trigger] dl[m]) by {
                assert(dl[m] == s[m]);
            }
            assert forall|i: int, j: int| 0 <= i < j < out.len() implies apart(
                #[trigger] out[i],
                #[trigger] out[j],
            ) by {
                if j < r.len() {
                    assert(out[i] == r[i] && out[j] == r[j]);
                } else {
                    assert(out[i] == r[i]);
                    assert(out[j] == s[s.len() - 1]);
                    if r[i] == o {
                        assert(apart(o, s[s.len() - 1]));
                    } else {
                        let m = choose|m: int| 0 <= m < dl.len() && r[i] == #[trigger] dl[m];
                        assert(dl[m] == s[m]);
                        assert(apart(s[m], s[s.len() - 1]));
                    }
                }
            }
        }
    } else if s.len() > 0 {
        let out = insert_desc(s, o);
        assert(out == s.push(o));
        assert forall|k: int| 0 <= k < out.len() implies #[trigger] out[k] == o || exists|m: int|
            0 <= m < s.len() && out[k] == #[trigger] s[m] by {
            if k < s.len() {
                assert(out[k] == s[k]);
            }
        }
        if forall|i: int, j: int| 0 <= i < j < s.len() ==> (#[trigger] s[i]).start >= (#[trigger] s[j]).start {
            assert forall|i: int, j: int| 0 <= i < j < out.len() implies (#[trigger] out[i]).start
                >= (#[trigger] out[j]).start by {
                if j < s.len() {
                    assert(out[i] == s[i] && out[j] == s[j]);
                } else {
                    assert(out[i] == s[i]);
                    assert(s[i].start >= s[s.len() - 1].start);
                }
            }
        }
        if all_apart(s) && forall|m: int| 0 <= m < s.len() ==> apart(o, #[trigger] s[m]) {
            assert forall|i: int, j: int| 0 <= i < j < out.len() implies apart(
                #[trigger] out[i],
                #[trigger] out[j],
            ) by {
                if j < s.len() {
                    assert(out[i] == s[i] && out[j] == s[j]);
                } else {
                    assert(out[i] == s[i]);
                    assert(apart(o, s[i]));
                }
            }
        }
    }
}

/// Sorting keeps the edits, orders them from the bottom up, and keeps them apart.
pub(crate) proof fn lemma_sort_ops(ops: Seq<Op>)
    ensures
        sort_ops(ops).len() == ops.len(),
        forall|k: int|
            0 <= k < sort_ops(ops).len() ==> exists|m: int|
                0 <= m < ops.len() && #[trigger] sort_ops(ops)[k] == #[trigger] ops[m],
        forall|i: int, j: int|
            0 <= i < j < sort_ops(ops).len() ==> (#[trigger] sort_ops(ops)[i]).start >= (
            #[trigger] sort_ops(ops)[j]).start,
        all_apart(ops) ==> all_apart(sort_ops(ops)),
    decreases ops.len(),
{
    if ops.len() > 0 {
        let dl = ops.drop_last();
        lemma_sort_ops(dl);
        let s = sort_ops(dl);
        let o = ops.last();
        lemma_insert_desc(s, o);
        let out = sort_ops(ops);
        assert(out == insert_desc(s, o));
        assert forall|k: int| 0 <= k < out.len() implies exists|m: int|
            0 <= m < ops.len() && #[trigger] out[k] == #[trigger] ops[m] by {
            if out[k] == o {
                assert(out[k] == ops[ops.len() - 1]);
            } else {
                let m = choose|m: int| 0 <= m < s.len() && out[k] == #[trigger] s[m];
                let m2 = choose|m2: int| 0 <= m2 < dl.len() && #[trigger] s[m] == #[trigger] dl[m2];
                assert(dl[m2] == ops[m2]);
            }
        }
        if all_apart(ops) {
            assert(all_apart(dl)) by {
                assert forall|i: int, j: int| 0 <= i < j < dl.len() implies apart(
                    #[trigger] dl[i],
                    #[trigger] dl[j],
                ) by {
                    assert(dl[i] == ops[i] && dl[j] == ops[j]);
                }
            }
            assert forall|m: int| 0 <= m < s.len() implies apart(o, #[trigger] s[m]) by {
                let m2 = choose|m2: int| 0 <= m2 < dl.len() && #[trigger] s[m] == #[trigger] dl[m2];
                assert(dl[m2] == ops[m2]);
                assert(apart(ops[m2], ops[ops.len() - 1]));
            }
        }
    }
}

/// Edits that are each in range and ordered so that each one either inserts or ends before
/// the start of every earlier one all fit, applied in turn.
proof fn lemma_all_fit(lines: Seq<Seq<char>>, ops: Seq<Op>)
    requires
        forall|i: int, j: int|
            0 <= i < j < ops.len() ==> (#[trigger] ops[i]).start == ops[i].end || (
            #[trigger] ops[j]).end <= ops[i].start,
        forall|k: int| 0 <= k < ops.len() ==> 0 <= (#[trigger] ops[k]).start <= ops[k].end <= lines.len(),
    ensures
        all_fit(lines, ops),
    decreases ops.len(),
{
    if ops.len() > 0 {
        let l2 = splice(lines, ops[0]);
        let rest = ops.skip(1);
        assert(l2.len() == ops[0].start + ops[0].repl.len() + (lines.len() - ops[0].end));
        assert forall|k: int| 0 <= k < rest.len() implies 0 <= (#[trigger] rest[k]).start
            <= rest[k].end <= l2.len() by {
            assert(rest[k] == ops[k + 1]);
        }
        assert forall|i: int, j: int| 0 <= i < j < rest.len() implies (#[trigger] rest[i]).start
            == rest[i].end || (#[trigger] rest[j]).end <= rest[i].start by {
            assert(rest[i] == ops[i + 1] && rest[j] == ops[j + 1]);
        }
        lemma_all_fit(l2, rest);
    }
}

/// A batch with in-range, distinct entry indices always fits a freshly parsed file: the
/// edits are sorted from the bottom of the file up, so none shifts the lines another still
/// has to address.
pub proof fn law_parsed_batches_fit(content: Seq<char>, ts: Seq<(int, TranslationView)>)
    requires
        indices_in(po_entries(content), ts),
        forall|k1: int, k2: int| 0 <= k1 < k2 < ts.len() ==> (#[trigger] ts[k1]).0 != (#[trigger] ts[k2]).0,
    ensures
        all_fit(lines_of(content), sort_ops(ops_of(po_entries(content), ts))),
{
    let lines = lines_of(content);
    let es = po_entries(content);
    let n = lines.len() as int;
    lemma_scan_placed(lines, 0, scan_init(), 0);
    lemma_ops_apart(es, ts, n);
    let ops = ops_of(es, ts);
    lemma_sort_ops(ops);
    let out = sort_ops(ops);
    assert forall|k: int| 0 <= k < out.len() implies 0 <= (#[trigger] out[k]).start <= out[k].end
        <= lines.len() by {
        let m = choose|m: int| 0 <= m < ops.len() && #[trigger] out[k] == #[trigger] ops[m];
    }
    assert forall|i: int, j: int| 0 <= i < j < out.len() implies (#[trigger] out[i]).start
        == out[i].end || (#[trigger] out[j]).end <= out[i].start by {
        assert(apart(out[i], out[j]));
        let m = choose|m: int| 0 <= m < ops.len() && #[trigger] out[i] == #[trigger] ops[m];
    }
    lemma_all_fit(lines, out);
}



/// Each entry read has the shape its `msgid_plural` says: an ordinary entry has no plural
/// forms, a plural one an empty `msgstr`; and the entries come in the order of their msgid
/// lines, each of which starts (after leading whitespace) with `msgid `.
proof fn lemma_scan_shape(l: Seq<Seq<char>>, i: int, st: PoScan)
    requires
        0 <= i,
    ensures
        forall|a: int|
            0 <= a < scan(l, i, st).len() ==> {
                let e = #[trigger] scan(l, i, st)[a];
                &&& e.msgid_plural is None ==> e.msgstr_plural.len() == 0
                &&& e.msgid_plural is Some ==> e.msgstr.len() == 0
                &&& i <= e.flag_end < l.len()
                &&& has_prefix(trim_start(l[e.flag_end]), "msgid "@)
            },
    decreases l.len() - i,
{
    if 0 <= i < l.len() {
        let t = trim_start(l[i]);
        if has_prefix(t, seq!['#']) {
            lemma_scan_shape(l, i + 1, comment_step(st, t, i));
        } else if t.len() == 0 {
            lemma_scan_shape(l, i + 1, scan_init());
        } else if !has_prefix(t, "msgid "@) {
            lemma_scan_shape(l, i + 1, st);
        } else {
            lemma_entry_end(l, i);
            let end = entry_end(l, i);
            lemma_scan_shape(l, end, scan_init());
            if has_msgstr(l, i) {
                let r = scan(l, end, scan_init());
                let es = seq![entry_at(l, i, st)] + r;
                assert forall|a: int| 0 < a < es.len() implies es[a] == r[a - 1] by {}
            }
        }
    }
}

/// Every entry of a parsed file has the shape its `msgid_plural` says (no plural forms for an
/// ordinary entry, an empty `msgstr` for a plural one), and the entries come in the order of
/// their msgid lines in the file.
pub proof fn law_parsed_entry_shape(content: Seq<char>)
    ensures
        forall|a: int|
            0 <= a < po_entries(content).len() ==> {
                let e = #[trigger] po_entries(content)[a];
                &&& e.msgid_plural is None ==> e.msgstr_plural.len() == 0
                &&& e.msgid_plural is Some ==> e.msgstr.len() == 0
                &&& 0 <= e.flag_end < lines_of(content).len()
                &&& has_prefix(trim_start(lines_of(content)[e.flag_end]), "msgid "@)
            },
        forall|a: int, b: int|
            0 <= a < b < po_entries(content).len() ==> (#[trigger] po_entries(content)[a]).flag_end
                < (#[trigger] po_entries(content)[b]).flag_end,
{
    let l = lines_of(content);
    lemma_scan_shape(l, 0, scan_init());
    lemma_scan_placed(l, 0, scan_init(), 0);
    let es = po_entries(content);
    assert forall|a: int, b: int| 0 <= a < b < es.len() implies (#[trigger] es[a]).flag_end
        < (#[trigger] es[b]).flag_end by {
        assert(placed(es[a], 0, l.len() as int));
        assert(placed(es[b], 0, l.len() as int));
    }
}

/// Writing single strings with `apply_all` asks for the same edits as `apply` with the same
/// strings as `Translation::Singular`, so the two leave a document alike.
pub proof fn law_apply_all_is_apply_of_singulars(ts: Seq<(usize, String)>)
    ensures
        singular_batch(ts) == batch_view(
            ts.map_values(|p: (usize, String)| (p.0, Translation::Singular(p.1))),
        ),
{
    assert(singular_batch(ts) =~= batch_view(
        ts.map_values(|p: (usize, String)| (p.0, Translation::Singular(p.1))),
    ));
}

} // verus!
