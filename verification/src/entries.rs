//! The text-level primitives shared by everything that reads or writes gettext files:
//! reading `msgid`/`msgid_plural` entries out of a pot or po, rendering an entry back out,
//! and the escaping rules on both sides of that.
use vstd::prelude::*;

use crate::text::{
    append, chars_of, has_prefix, is_white_space, join, lemma_lines_cons,
    lemma_lines_have_no_breaks, lemma_trim_after_space, lemma_trim_fixed, lemma_trimmed_ends,
    lines_of, opt_view, skip, slice_of, split_lines, starts_with, starts_with_char, string_of,
    string_views, trim, trim_end, trim_start, trim_vec, views, without_prefix,
};

verus! {

/// The escaped form of one character inside a quoted pot string.
pub open spec fn escape_char(c: char) -> Seq<char> {
    if c == '"' {
        seq!['\\', '"']
    } else if c == '\\' {
        seq!['\\', '\\']
    } else if c == '\n' {
        seq!['\\', 'n']
    } else if c == '\t' {
        seq!['\\', 't']
    } else {
        seq![c]
    }
}

/// `s` escaped for use between the double quotes of a pot value.
pub open spec fn escape(s: Seq<char>) -> Seq<char>
    decreases s.len(),
{
    if s.len() == 0 {
        seq![]
    } else {
        escape_char(s[0]) + escape(s.skip(1))
    }
}

/// What a backslash followed by `c` stands for.
pub open spec fn unescape_pair(c: char) -> Seq<char> {
    if c == 'n' {
        seq!['\n']
    } else if c == 't' {
        seq!['\t']
    } else if c == '"' {
        seq!['"']
    } else if c == '\\' {
        seq!['\\']
    } else {
        seq!['\\', c]
    }
}

/// The text between the quotes, with its escape sequences decoded.
pub open spec fn unescape_body(s: Seq<char>) -> Seq<char>
    decreases s.len(),
{
    if s.len() == 0 {
        seq![]
    } else if s[0] == '\\' {
        if s.len() == 1 {
            seq!['\\']
        } else {
            unescape_pair(s[1]) + unescape_body(s.skip(2))
        }
    } else {
        seq![s[0]] + unescape_body(s.skip(1))
    }
}

/// The value of a quoted po string: empty unless the trimmed text is a `"`-delimited literal.
pub open spec fn unescape(s: Seq<char>) -> Seq<char> {
    let t = trim(s);
    if t.len() < 2 || t[0] != '"' || t.last() != '"' {
        seq![]
    } else {
        unescape_body(t.subrange(1, t.len() - 1))
    }
}

fn escape_char_exec(out: &mut Vec<char>, c: char)
    ensures
        final(out)@ == old(out)@ + escape_char(c),
{
    let ghost start = out@;
    if c == '"' {
        out.push('\\');
        out.push('"');
    } else if c == '\\' {
        out.push('\\');
        out.push('\\');
    } else if c == '\n' {
        out.push('\\');
        out.push('n');
    } else if c == '\t' {
        out.push('\\');
        out.push('t');
    } else {
        out.push(c);
    }
    assert(out@ =~= start + escape_char(c));
}

pub proof fn lemma_escape_split(s: Seq<char>, i: int)
    requires
        0 <= i < s.len(),
    ensures
        escape(s.skip(i)) == escape_char(s[i]) + escape(s.skip(i + 1)),
{
    assert(s.skip(i)[0] == s[i]);
    assert(s.skip(i).skip(1) =~= s.skip(i + 1));
}

/// `s` escaped for use between the double quotes of a pot value.
pub fn escape_exec(s: &[char]) -> (r: Vec<char>)
    ensures
        r@ == escape(s@),
{
    let mut out: Vec<char> = Vec::new();
    let mut i: usize = 0;
    assert(s@.skip(0) =~= s@);
    while i < s.len()
        invariant
            i <= s.len(),
            escape(s@) == out@ + escape(s@.skip(i as int)),
        decreases s.len() - i,
    {
        proof {
            lemma_escape_split(s@, i as int);
        }
        escape_char_exec(&mut out, s[i]);
        i = i + 1;
    }
    assert(s@.skip(i as int) =~= Seq::<char>::empty());
    out
}

/// Escape a string for use as a pot msgid value (between the outer double-quotes).
pub fn pot_escape(s: &str) -> (r: String)
    ensures
        r@ == escape(s@),
{
    let v = chars_of(s);
    string_of(&escape_exec(&v))
}

fn unescape_pair_exec(out: &mut Vec<char>, c: char)
    ensures
        final(out)@ == old(out)@ + unescape_pair(c),
{
    let ghost start = out@;
    if c == 'n' {
        out.push('\n');
    } else if c == 't' {
        out.push('\t');
    } else if c == '"' {
        out.push('"');
    } else if c == '\\' {
        out.push('\\');
    } else {
        out.push('\\');
        out.push(c);
    }
    assert(out@ =~= start + unescape_pair(c));
}

fn unescape_body_exec(s: &[char]) -> (r: Vec<char>)
    ensures
        r@ == unescape_body(s@),
{
    let mut out: Vec<char> = Vec::new();
    let mut i: usize = 0;
    assert(s@.skip(0) =~= s@);
    while i < s.len()
        invariant
            i <= s.len(),
            unescape_body(s@) == out@ + unescape_body(s@.skip(i as int)),
        decreases s.len() - i,
    {
        let ghost rest = s@.skip(i as int);
        assert(rest[0] == s@[i as int]);
        if s[i] == '\\' {
            if i + 1 == s.len() {
                out.push('\\');
                assert(rest.len() == 1);
                i = i + 1;
                assert(s@.skip(i as int) =~= Seq::<char>::empty());
                assert(out@ =~= unescape_body(s@));
            } else {
                assert(rest[1] == s@[i + 1]);
                assert(rest.skip(2) =~= s@.skip(i + 2));
                unescape_pair_exec(&mut out, s[i + 1]);
                i = i + 2;
            }
        } else {
            assert(rest.skip(1) =~= s@.skip(i + 1));
            out.push(s[i]);
            i = i + 1;
        }
    }
    assert(s@.skip(i as int) =~= Seq::<char>::empty());
    assert(out@ + Seq::<char>::empty() =~= out@);
    out
}

/// The value of a quoted po string (see [`unescape`]).
pub fn unescape_exec(s: &[char]) -> (r: Vec<char>)
    ensures
        r@ == unescape(s@),
{
    let t = trim_vec(s);
    if t.len() < 2 || t[0] != '"' || t[t.len() - 1] != '"' {
        return Vec::new();
    }
    let inner = slice_of(&t, 1, t.len() - 1);
    unescape_body_exec(&inner)
}

/// Decode a quoted po string (`"..."`, surrounding whitespace allowed) into its value.
pub fn po_unescape(s: &str) -> (r: String)
    ensures
        r@ == unescape(s@),
{
    let v = chars_of(s);
    string_of(&unescape_exec(&v))
}

pub proof fn lemma_unescape_escape(s: Seq<char>)
    ensures
        unescape_body(escape(s)) == s,
    decreases s.len(),
{
    if s.len() > 0 {
        let c = s[0];
        let rest = escape(s.skip(1));
        lemma_unescape_escape(s.skip(1));
        let e = escape_char(c) + rest;
        assert(escape(s) == e);
        if c == '"' || c == '\\' || c == '\n' || c == '\t' {
            assert(e[0] == '\\');
            assert(e[1] == escape_char(c)[1]);
            assert(e.skip(2) =~= rest);
        } else {
            assert(e[0] == c);
            assert(e.skip(1) =~= rest);
        }
        assert(seq![c] + s.skip(1) =~= s);
    }
}

proof fn lemma_trim_quoted(s: Seq<char>)
    requires
        s.len() >= 2,
        s[0] == '"',
        s.last() == '"',
    ensures
        trim(s) == s,
{
    assert(trim_start(s) == s);
    assert(trim_end(s) == s);
}

/// Quoting the escaped form of any string and decoding it gives the string back.
pub proof fn law_escape_round_trip(s: Seq<char>)
    ensures
        unescape(seq!['"'] + escape(s) + seq!['"']) == s,
{
    let q = seq!['"'] + escape(s) + seq!['"'];
    lemma_trim_quoted(q);
    assert(q.subrange(1, q.len() - 1) =~= escape(s));
    lemma_unescape_escape(s);
}

/// A pot/po entry as read back from a file: a msgid, its msgid_plural text for a plural
/// entry, the `#:` reference naming what produced it, and the `#.` note left for translators.
pub struct PotEntry {
    pub msgid: String,
    pub msgid_plural: Option<String>,
    /// The entry's `#:` line, naming the scan the string came from (e.g. `swift`).
    pub reference: Option<String>,
    /// The entry's `#.` text, without the `#. ` marker, newline-separated when it ran to
    /// several lines.
    pub comment: Option<String>,
}

pub struct PotEntryView {
    pub msgid: Seq<char>,
    pub msgid_plural: Option<Seq<char>>,
    pub reference: Option<Seq<char>>,
    pub comment: Option<Seq<char>>,
}

impl View for PotEntry {
    type V = PotEntryView;

    open spec fn view(&self) -> PotEntryView {
        PotEntryView {
            msgid: self.msgid@,
            msgid_plural: opt_view(self.msgid_plural),
            reference: opt_view(self.reference),
            comment: opt_view(self.comment),
        }
    }
}

pub open spec fn entry_views(v: Seq<PotEntry>) -> Seq<PotEntryView> {
    v.map_values(|e: PotEntry| e@)
}

/// One `#. ` line per line of a note.
pub open spec fn note_lines(lines: Seq<Seq<char>>) -> Seq<char>
    decreases lines.len(),
{
    if lines.len() == 0 {
        seq![]
    } else {
        note_lines(lines.drop_last()) + "#. "@ + lines.last() + seq!['\n']
    }
}

/// The block of lines an entry is rendered as in a pot file: a blank line, its note, its
/// reference, the msgid (and msgid_plural) and blank translations.
pub open spec fn entry_block(e: PotEntryView) -> Seq<char> {
    let note = match e.comment {
        Some(c) => note_lines(lines_of(c)),
        None => seq![],
    };
    let reference = match e.reference {
        Some(r) => "#: "@ + r + seq!['\n'],
        None => seq![],
    };
    match e.msgid_plural {
        Some(p) => seq!['\n'] + note + reference + "msgid \""@ + escape(e.msgid)
            + "\"\nmsgid_plural \""@ + escape(p) + "\"\nmsgstr[0] \"\"\nmsgstr[1] \"\"\n"@,
        None => seq!['\n'] + note + reference + "msgid \""@ + escape(e.msgid) + "\"\nmsgstr \"\"\n"@,
    }
}

fn opt_string(o: &Option<Vec<char>>) -> (r: Option<String>)
    ensures
        opt_view(r) == (match o {
            Some(v) => Some(v@),
            None => None::<Seq<char>>,
        }),
{
    match o {
        Some(v) => Some(string_of(v)),
        None => None,
    }
}

fn opt_chars(o: &Option<String>) -> (r: Option<Vec<char>>)
    ensures
        (match r {
            Some(v) => Some(v@),
            None => None::<Seq<char>>,
        }) == opt_view(*o),
{
    match o {
        Some(s) => Some(chars_of(s.as_str())),
        None => None,
    }
}

/// Renders an entry as the block of lines to append to a pot file (blank msgstr(s), ready
/// for `msgmerge` or a translator to fill in).
pub fn pot_entry_block(entry: &PotEntry) -> (r: String)
    ensures
        r@ == entry_block(entry@),
{
    let mut out: Vec<char> = Vec::new();
    out.push('\n');
    match &entry.comment {
        Some(c) => {
            let cv = chars_of(c.as_str());
            let lines = split_lines(&cv);
            let marker = chars_of("#. ");
            let mut i: usize = 0;
            let ghost start = out@;
            while i < lines.len()
                invariant
                    i <= lines.len(),
                    marker@ == "#. "@,
                    out@ == start + note_lines(views(lines@.take(i as int))),
                decreases lines.len() - i,
            {
                append(&mut out, &marker);
                append(&mut out, &lines[i]);
                out.push('\n');
                i = i + 1;
                assert(views(lines@.take(i as int)).drop_last() =~= views(lines@.take(i - 1)));
                assert(out@ =~= start + note_lines(views(lines@.take(i as int))));
            }
            assert(lines@.take(i as int) =~= lines@);
        },
        None => {},
    }
    match &entry.reference {
        Some(r) => {
            append(&mut out, &chars_of("#: "));
            append(&mut out, &chars_of(r.as_str()));
            out.push('\n');
        },
        None => {},
    }
    append(&mut out, &chars_of("msgid \""));
    append(&mut out, &escape_exec(&chars_of(entry.msgid.as_str())));
    match &entry.msgid_plural {
        Some(p) => {
            append(&mut out, &chars_of("\"\nmsgid_plural \""));
            append(&mut out, &escape_exec(&chars_of(p.as_str())));
            append(&mut out, &chars_of("\"\nmsgstr[0] \"\"\nmsgstr[1] \"\"\n"));
        },
        None => {
            append(&mut out, &chars_of("\"\nmsgstr \"\"\n"));
        },
    }
    let r = string_of(&out);
    assert(r@ =~= entry_block(entry@));
    r
}

/// The state of the line-by-line read of a pot/po file.
pub struct CollectState {
    pub entries: Seq<PotEntryView>,
    pub id: Seq<char>,
    pub plural: Option<Seq<char>>,
    pub reference: Option<Seq<char>>,
    pub comment: Option<Seq<char>>,
    /// A `#:` line waiting for the msgid below it.
    pub pending_reference: Option<Seq<char>>,
    /// The `#.` lines waiting for the msgid below them, newline-joined.
    pub pending_comment: Option<Seq<char>>,
    pub in_msgid: bool,
    pub in_plural: bool,
}

pub open spec fn collect_init() -> CollectState {
    CollectState {
        entries: seq![],
        id: seq![],
        plural: None,
        reference: None,
        comment: None,
        pending_reference: None,
        pending_comment: None,
        in_msgid: false,
        in_plural: false,
    }
}

/// Ends the entry being read: kept when it has a msgid or a msgid_plural; the header's empty
/// msgid is dropped together with any reference or note read ahead of it.
pub open spec fn flush(st: CollectState) -> CollectState {
    if st.id.len() != 0 || st.plural is Some {
        CollectState {
            entries: st.entries.push(
                PotEntryView {
                    msgid: st.id,
                    msgid_plural: st.plural,
                    reference: st.reference,
                    comment: st.comment,
                },
            ),
            id: seq![],
            plural: None,
            reference: None,
            comment: None,
            ..st
        }
    } else {
        CollectState { reference: None, comment: None, ..st }
    }
}

/// One line of the read (the line is trimmed first).
pub open spec fn collect_step(st: CollectState, raw: Seq<char>) -> CollectState {
    let line = trim(raw);
    if has_prefix(line, "#."@) {
        let text = trim(without_prefix(line, "#."@));
        CollectState {
            pending_comment: Some(
                match st.pending_comment {
                    Some(e) => e + seq!['\n'] + text,
                    None => text,
                },
            ),
            ..st
        }
    } else if has_prefix(line, "#:"@) {
        CollectState { pending_reference: Some(trim(without_prefix(line, "#:"@))), ..st }
    } else if has_prefix(line, "msgid_plural "@) {
        CollectState {
            plural: Some(unescape(without_prefix(line, "msgid_plural "@))),
            in_msgid: false,
            in_plural: true,
            ..st
        }
    } else if has_prefix(line, "msgid "@) {
        let f = flush(st);
        CollectState {
            id: unescape(without_prefix(line, "msgid "@)),
            reference: f.pending_reference,
            comment: f.pending_comment,
            pending_reference: None,
            pending_comment: None,
            in_msgid: true,
            in_plural: false,
            ..f
        }
    } else if has_prefix(line, "msgstr"@) {
        let f = flush(st);
        CollectState { in_msgid: false, in_plural: false, ..f }
    } else if has_prefix(line, seq!['"']) {
        if st.in_plural {
            match st.plural {
                Some(p) => CollectState { plural: Some(p + unescape(line)), ..st },
                None => st,
            }
        } else if st.in_msgid {
            CollectState { id: st.id + unescape(line), ..st }
        } else {
            st
        }
    } else {
        st
    }
}

/// The read state after the given lines.
pub open spec fn collect_run(lines: Seq<Seq<char>>) -> CollectState
    decreases lines.len(),
{
    if lines.len() == 0 {
        collect_init()
    } else {
        collect_step(collect_run(lines.drop_last()), lines.last())
    }
}

/// The entries of a pot/po file, in file order, the header entry left out.
pub open spec fn collect_entries(content: Seq<char>) -> Seq<PotEntryView> {
    flush(collect_run(lines_of(content))).entries
}

struct CollectExec {
    entries: Vec<PotEntry>,
    id: Vec<char>,
    plural: Option<Vec<char>>,
    reference: Option<Vec<char>>,
    comment: Option<Vec<char>>,
    pending_reference: Option<Vec<char>>,
    pending_comment: Option<Vec<char>>,
    in_msgid: bool,
    in_plural: bool,
}

spec fn ov(o: Option<Vec<char>>) -> Option<Seq<char>> {
    match o {
        Some(v) => Some(v@),
        None => None,
    }
}

impl CollectExec {
    spec fn state(&self) -> CollectState {
        CollectState {
            entries: entry_views(self.entries@),
            id: self.id@,
            plural: ov(self.plural),
            reference: ov(self.reference),
            comment: ov(self.comment),
            pending_reference: ov(self.pending_reference),
            pending_comment: ov(self.pending_comment),
            in_msgid: self.in_msgid,
            in_plural: self.in_plural,
        }
    }

    fn flush(&mut self)
        ensures
            final(self).state() == flush(old(self).state()),
    {
        if self.id.len() != 0 || self.plural.is_some() {
            let e = PotEntry {
                msgid: string_of(&self.id),
                msgid_plural: opt_string(&self.plural),
                reference: opt_string(&self.reference),
                comment: opt_string(&self.comment),
            };
            let ghost before = self.entries@;
            self.entries.push(e);
            assert(entry_views(self.entries@) =~= entry_views(before).push(e@));
            self.id = Vec::new();
            self.plural = None;
            self.reference = None;
            self.comment = None;
        } else {
            self.reference = None;
            self.comment = None;
        }
    }

    fn step(&mut self, raw: &[char])
        ensures
            final(self).state() == collect_step(old(self).state(), raw@),
    {
        let line = trim_vec(raw);
        let note = chars_of("#.");
        let refm = chars_of("#:");
        let plural_kw = chars_of("msgid_plural ");
        let msgid_kw = chars_of("msgid ");
        let msgstr_kw = chars_of("msgstr");
        if starts_with(&line, &note) {
            let text = trim_vec(&skip(&line, note.len()));
            let combined = match &self.pending_comment {
                Some(e) => {
                    let mut c = slice_of(e, 0, e.len());
                    assert(c@ =~= e@);
                    c.push('\n');
                    append(&mut c, &text);
                    assert(c@ =~= e@ + seq!['\n'] + text@);
                    c
                },
                None => text,
            };
            self.pending_comment = Some(combined);
        } else if starts_with(&line, &refm) {
            self.pending_reference = Some(trim_vec(&skip(&line, refm.len())));
        } else if starts_with(&line, &plural_kw) {
            self.plural = Some(unescape_exec(&skip(&line, plural_kw.len())));
            self.in_msgid = false;
            self.in_plural = true;
        } else if starts_with(&line, &msgid_kw) {
            self.flush();
            self.id = unescape_exec(&skip(&line, msgid_kw.len()));
            self.reference = self.pending_reference.take();
            self.comment = self.pending_comment.take();
            self.in_msgid = true;
            self.in_plural = false;
        } else if starts_with(&line, &msgstr_kw) {
            self.flush();
            self.in_msgid = false;
            self.in_plural = false;
        } else if starts_with_char(&line, '"') {
            if self.in_plural {
                match self.plural.take() {
                    Some(p) => {
                        let u = unescape_exec(&line);
                        let mut p = p;
                        append(&mut p, &u);
                        self.plural = Some(p);
                    },
                    None => {},
                }
            } else if self.in_msgid {
                let u = unescape_exec(&line);
                append(&mut self.id, &u);
            }
        }
    }
}

/// Parse msgid/msgid_plural entries already present in a pot/po file, preserving first-seen
/// order.
pub fn collect_pot_entries_ordered(content: &str) -> (r: Vec<PotEntry>)
    ensures
        entry_views(r@) == collect_entries(content@),
{
    let chars = chars_of(content);
    let lines = split_lines(&chars);
    let mut st = CollectExec {
        entries: Vec::new(),
        id: Vec::new(),
        plural: None,
        reference: None,
        comment: None,
        pending_reference: None,
        pending_comment: None,
        in_msgid: false,
        in_plural: false,
    };
    assert(entry_views(st.entries@) =~= Seq::<PotEntryView>::empty());
    assert(st.state() == collect_init());
    let mut i: usize = 0;
    while i < lines.len()
        invariant
            i <= lines.len(),
            st.state() == collect_run(views(lines@).take(i as int)),
        decreases lines.len() - i,
    {
        st.step(&lines[i]);
        i = i + 1;
        assert(views(lines@).take(i as int).drop_last() =~= views(lines@).take(i - 1));
    }
    assert(views(lines@).take(i as int) =~= views(lines@));
    st.flush();
    st.entries
}

/// The msgid values present in a pot/po file, each once, in the order of their first entry.
pub fn collect_pot_msgids(content: &str) -> (r: Vec<String>)
    ensures
        string_views(r@) == crate::text::distinct_texts(collect_entries(content@).map_values(|e: PotEntryView| e.msgid)),
        string_views(r@).no_duplicates(),
        forall|x: Seq<char>|
            string_views(r@).contains(x) <==> collect_entries(content@).map_values(
                |e: PotEntryView| e.msgid,
            ).contains(x),
{
    let entries = collect_pot_entries_ordered(content);
    let ghost ids = entry_views(entries@).map_values(|e: PotEntryView| e.msgid);
    let mut out: Vec<String> = Vec::new();
    let mut i: usize = 0;
    while i < entries.len()
        invariant
            i <= entries.len(),
            ids == entry_views(entries@).map_values(|e: PotEntryView| e.msgid),
            string_views(out@) == crate::text::distinct_texts(ids.take(i as int)),
        decreases entries.len() - i,
    {
        let ghost before = out@;
        let id = entries[i].msgid.clone();
        assert(ids.take(i + 1).drop_last() =~= ids.take(i as int));
        assert(ids.take(i + 1).last() == id@);
        let mut seen = false;
        let mut k: usize = 0;
        while k < out.len()
            invariant
                k <= out.len(),
                seen <==> exists|j: int| 0 <= j < k && #[trigger] string_views(out@)[j] == id@,
            decreases out.len() - k,
        {
            if crate::text::eq(&chars_of(out[k].as_str()), &chars_of(id.as_str())) {
                seen = true;
                assert(string_views(out@)[k as int] == id@);
            }
            k = k + 1;
        }
        assert(seen <==> string_views(out@).contains(id@));
        if !seen {
            out.push(id);
            assert(string_views(out@) =~= string_views(before).push(entries@[i as int].msgid@));
        }
        i = i + 1;
    }
    assert(ids.take(i as int) =~= ids);
    proof {
        crate::text::lemma_distinct_texts(ids);
    }
    out
}

/// The read state after the given lines, starting from `st`.
pub open spec fn collect_from(st: CollectState, lines: Seq<Seq<char>>) -> CollectState
    decreases lines.len(),
{
    if lines.len() == 0 {
        st
    } else {
        collect_step(collect_from(st, lines.drop_last()), lines.last())
    }
}

pub(crate) proof fn lemma_collect_from_split(st: CollectState, a: Seq<Seq<char>>, b: Seq<Seq<char>>)
    ensures
        collect_from(st, a + b) == collect_from(collect_from(st, a), b),
    decreases b.len(),
{
    if b.len() == 0 {
        assert(a + b =~= a);
    } else {
        assert((a + b).drop_last() =~= a + b.drop_last());
        assert((a + b).last() == b.last());
        lemma_collect_from_split(st, a, b.drop_last());
    }
}

pub(crate) proof fn lemma_collect_run_from(lines: Seq<Seq<char>>)
    ensures
        collect_run(lines) == collect_from(collect_init(), lines),
    decreases lines.len(),
{
    if lines.len() > 0 {
        lemma_collect_run_from(lines.drop_last());
    }
}

/// The `#. ` lines of a note, one per line of its text.
pub open spec fn marked(ls: Seq<Seq<char>>) -> Seq<Seq<char>> {
    ls.map_values(|l: Seq<char>| "#. "@ + l)
}

/// The text of a note line: trimmed, without a line break.
pub open spec fn clean_line(l: Seq<char>) -> bool {
    &&& trim(l) == l
    &&& forall|j: int| 0 <= j < l.len() ==> l[j] != '\n'
}

proof fn lemma_marker_line(marker: Seq<char>, l: Seq<char>)
    requires
        marker.len() == 3,
        marker[0] == '#',
        !is_white_space(marker[1]),
        marker[2] == ' ',
        clean_line(l),
    ensures
        forall|j: int| 0 <= j < (marker + l).len() ==> (marker + l)[j] != '\n',
        (marker + l).last() != '\r',
        trim(marker + l) == (if l.len() == 0 {
            marker.take(2)
        } else {
            marker + l
        }),
        trim(without_prefix(trim(marker + l), marker.take(2))) == l,
{
    let m = marker + l;
    assert forall|j: int| 0 <= j < m.len() implies m[j] != '\n' by {
        if j >= 3 {
            assert(m[j] == l[j - 3]);
        } else {
            assert(m[j] == marker[j]);
        }
    }
    if l.len() == 0 {
        assert(m =~= marker);
        assert(trim_start(m) == m);
        assert(m.drop_last() =~= marker.take(2));
        assert(trim_end(marker.take(2)) == marker.take(2));
        assert(trim(m) == marker.take(2));
        assert(marker.take(2).take(2) =~= marker.take(2));
        assert(has_prefix(marker.take(2), marker.take(2)));
        assert(marker.take(2).skip(2) =~= Seq::<char>::empty());
        assert(trim(Seq::<char>::empty()) == Seq::<char>::empty());
        assert(l =~= Seq::<char>::empty());
    } else {
        lemma_trimmed_ends(l);
        assert(m.last() == l.last());
        lemma_trim_fixed(m);
        assert(m.take(2) =~= marker.take(2));
        assert(m.skip(2) =~= seq![' '] + l);
        lemma_trim_after_space(' ', l);
    }
}

proof fn lemma_note_step(st: CollectState, l: Seq<char>)
    requires
        clean_line(l),
    ensures
        collect_step(st, "#. "@ + l) == (CollectState {
            pending_comment: Some(
                match st.pending_comment {
                    Some(e) => e + seq!['\n'] + l,
                    None => l,
                },
            ),
            ..st
        }),
{
    reveal_strlit("#. ");
    reveal_strlit("#.");
    assert("#. "@.take(2) =~= "#."@);
    lemma_marker_line("#. "@, l);
    let line = trim("#. "@ + l);
    assert(line.take(2) =~= "#."@);
}

proof fn lemma_ref_step(st: CollectState, r: Seq<char>)
    requires
        clean_line(r),
    ensures
        collect_step(st, "#: "@ + r) == (CollectState { pending_reference: Some(r), ..st }),
{
    reveal_strlit("#: ");
    reveal_strlit("#:");
    reveal_strlit("#.");
    assert("#: "@.take(2) =~= "#:"@);
    lemma_marker_line("#: "@, r);
    let line = trim("#: "@ + r);
    assert(line.take(2) =~= "#:"@);
    assert(line[1] == ':');
    assert(!has_prefix(line, "#."@)) by {
        assert("#."@[1] == '.');
        if has_prefix(line, "#."@) {
            assert(line.take(2)[1] == "#."@[1]);
        }
    }
}

proof fn lemma_note_run(st: CollectState, ls: Seq<Seq<char>>)
    requires
        st.pending_comment is None,
        ls.len() > 0,
        forall|k: int| 0 <= k < ls.len() ==> clean_line(#[trigger] ls[k]),
    ensures
        collect_from(st, marked(ls)) == (CollectState {
            pending_comment: Some(join(ls, seq!['\n'])),
            ..st
        }),
    decreases ls.len(),
{
    let m = marked(ls);
    assert(m.drop_last() =~= marked(ls.drop_last()));
    assert(m.last() == "#. "@ + ls.last());
    if ls.len() == 1 {
        assert(marked(ls.drop_last()) =~= Seq::<Seq<char>>::empty());
        lemma_note_step(st, ls[0]);
    } else {
        lemma_note_run(st, ls.drop_last());
        lemma_note_step(
            CollectState { pending_comment: Some(join(ls.drop_last(), seq!['\n'])), ..st },
            ls.last(),
        );
    }
}

proof fn lemma_note_lines_split(ls: Seq<Seq<char>>, rest: Seq<char>)
    requires
        forall|k: int| 0 <= k < ls.len() ==> clean_line(#[trigger] ls[k]),
    ensures
        lines_of(note_lines(ls) + rest) == marked(ls) + lines_of(rest),
    decreases ls.len(),
{
    reveal_strlit("#. ");
    if ls.len() == 0 {
        assert(note_lines(ls) + rest =~= rest);
        assert(marked(ls) + lines_of(rest) =~= lines_of(rest));
    } else {
        let last = ls.last();
        let line = "#. "@ + last;
        assert(clean_line(ls[ls.len() - 1]));
        lemma_marker_line("#. "@, last);
        let rest2 = line + seq!['\n'] + rest;
        assert(note_lines(ls) + rest =~= note_lines(ls.drop_last()) + rest2);
        assert forall|k: int| 0 <= k < ls.drop_last().len() implies clean_line(
            #[trigger] ls.drop_last()[k],
        ) by {
            assert(ls.drop_last()[k] == ls[k]);
        }
        lemma_note_lines_split(ls.drop_last(), rest2);
        lemma_lines_cons(line, rest);
        assert(marked(ls) =~= marked(ls.drop_last()).push(line));
        assert(marked(ls.drop_last()) + (seq![line] + lines_of(rest)) =~= marked(ls) + lines_of(
            rest,
        ));
    }
}

pub(crate) proof fn lemma_escape_no_break(s: Seq<char>)
    ensures
        forall|j: int| 0 <= j < escape(s).len() ==> escape(s)[j] != '\n',
    decreases s.len(),
{
    if s.len() > 0 {
        lemma_escape_no_break(s.skip(1));
        let e = escape_char(s[0]) + escape(s.skip(1));
        assert forall|j: int| 0 <= j < e.len() implies e[j] != '\n' by {
            if j >= escape_char(s[0]).len() {
                assert(e[j] == escape(s.skip(1))[j - escape_char(s[0]).len()]);
            }
        }
    }
}

/// The line `kw"<escaped s>"`.
pub open spec fn quoted_line(kw: Seq<char>, s: Seq<char>) -> Seq<char> {
    kw + seq!['"'] + escape(s) + seq!['"']
}

/// A quoted line is one line, trimmed, ending in its closing quote, and reads back as `s`.
pub proof fn lemma_quoted_line(kw: Seq<char>, s: Seq<char>)
    requires
        kw.len() > 0,
        !is_white_space(kw[0]),
        forall|j: int| 0 <= j < kw.len() ==> kw[j] != '\n',
    ensures
        trim(quoted_line(kw, s)) == quoted_line(kw, s),
        forall|j: int|
            0 <= j < quoted_line(kw, s).len() ==> #[trigger] quoted_line(kw, s)[j] != '\n',
        quoted_line(kw, s).last() == '"',
        has_prefix(quoted_line(kw, s), kw),
        unescape(without_prefix(quoted_line(kw, s), kw)) == s,
{
    let q = quoted_line(kw, s);
    lemma_trim_fixed(q);
    lemma_escape_no_break(s);
    assert forall|j: int| 0 <= j < q.len() implies #[trigger] q[j] != '\n' by {
        if j >= kw.len() + 1 && j < q.len() - 1 {
            assert(q[j] == escape(s)[j - kw.len() - 1]);
        }
    }
    assert(q.take(kw.len() as int) =~= kw);
    assert(q.skip(kw.len() as int) =~= seq!['"'] + escape(s) + seq!['"']);
    law_escape_round_trip(s);
}

/// Whether `line`, which starts with `kw`, differs from `p` at position `at` (so does not
/// start with `p`).
proof fn lemma_not_prefix(line: Seq<char>, p: Seq<char>, at: int)
    requires
        0 <= at < p.len(),
        at < line.len(),
        line[at] != p[at],
    ensures
        !has_prefix(line, p),
{
    if has_prefix(line, p) {
        assert(line.take(p.len() as int)[at] == line[at]);
    }
}

proof fn lemma_msgid_step(st: CollectState, m: Seq<char>)
    ensures
        collect_step(st, quoted_line("msgid "@, m)) == ({
            let f = flush(st);
            CollectState {
                id: m,
                reference: f.pending_reference,
                comment: f.pending_comment,
                pending_reference: None,
                pending_comment: None,
                in_msgid: true,
                in_plural: false,
                ..f
            }
        }),
{
    reveal_strlit("msgid ");
    reveal_strlit("#.");
    reveal_strlit("#:");
    reveal_strlit("msgid_plural ");
    let q = quoted_line("msgid "@, m);
    lemma_quoted_line("msgid "@, m);
    assert(q[0] == 'm');
    assert(q[5] == ' ');
    lemma_not_prefix(q, "#."@, 0);
    lemma_not_prefix(q, "#:"@, 0);
    lemma_not_prefix(q, "msgid_plural "@, 5);
}

proof fn lemma_plural_step(st: CollectState, p: Seq<char>)
    ensures
        collect_step(st, quoted_line("msgid_plural "@, p)) == (CollectState {
            plural: Some(p),
            in_msgid: false,
            in_plural: true,
            ..st
        }),
{
    reveal_strlit("msgid_plural ");
    reveal_strlit("#.");
    reveal_strlit("#:");
    let q = quoted_line("msgid_plural "@, p);
    lemma_quoted_line("msgid_plural "@, p);
    assert(q[0] == 'm');
    lemma_not_prefix(q, "#."@, 0);
    lemma_not_prefix(q, "#:"@, 0);
}

proof fn lemma_msgstr_step(st: CollectState, line: Seq<char>)
    requires
        line == "msgstr \"\""@ || line == "msgstr[0] \"\""@ || line == "msgstr[1] \"\""@,
    ensures
        collect_step(st, line) == (CollectState { in_msgid: false, in_plural: false, ..flush(st) }),
        forall|j: int| 0 <= j < line.len() ==> line[j] != '\n',
        line.last() == '"',
{
    reveal_strlit("msgstr \"\"");
    reveal_strlit("msgstr[0] \"\"");
    reveal_strlit("msgstr[1] \"\"");
    reveal_strlit("#.");
    reveal_strlit("#:");
    reveal_strlit("msgid_plural ");
    reveal_strlit("msgid ");
    reveal_strlit("msgstr");
    lemma_trim_fixed(line);
    assert(line[0] == 'm');
    assert(line[3] == 's');
    lemma_not_prefix(line, "#."@, 0);
    lemma_not_prefix(line, "#:"@, 0);
    lemma_not_prefix(line, "msgid_plural "@, 3);
    lemma_not_prefix(line, "msgid "@, 3);
    assert(line.take(6) =~= "msgstr"@);
}

/// A note that reads back as written: non-empty, its lines trimmed, and rejoined by line
/// breaks it is the text again (no `\r\n`, no final line break).
pub open spec fn readable_note(c: Seq<char>) -> bool {
    &&& c.len() > 0
    &&& join(lines_of(c), seq!['\n']) == c
    &&& forall|k: int| 0 <= k < lines_of(c).len() ==> trim(#[trigger] lines_of(c)[k]) == lines_of(c)[k]
}

/// A note written plainly: not empty, not ending in a line break, and with white space other
/// than line breaks only inside its lines (none at the start or end of the note or beside a
/// line break).
pub open spec fn plain_note(c: Seq<char>) -> bool {
    &&& c.len() > 0
    &&& c.last() != '\n'
    &&& forall|k: int|
        0 <= k < c.len() && is_white_space(#[trigger] c[k]) && c[k] != '\n' ==> 0 < k < c.len() - 1
            && c[k - 1] != '\n' && c[k + 1] != '\n'
}

/// A plainly written note reads back as written.
pub proof fn lemma_plain_note_readable(c: Seq<char>)
    requires
        plain_note(c),
    ensures
        readable_note(c),
    decreases c.len(),
{
    let nl = seq!['\n'];
    crate::text::lemma_find_from_bounds(c, nl, 0);
    crate::text::lemma_find_from_first(c, nl, 0);
    assert(c[0] != '\n' ==> !is_white_space(c[0]));
    assert(!is_white_space(c.last()));
    match crate::text::index_of(c, '\n') {
        None => {
            if c[0] == '\n' {
                assert(c.subrange(0, 1) =~= nl);
            }
            assert(lines_of(c) == seq![c]);
            lemma_trim_fixed(c);
        },
        Some(i) => {
            let a = c.take(i);
            let rest = c.skip(i + 1);
            assert(c.subrange(i, i + 1)[0] == c[i]);
            assert(c =~= a + nl + rest);
            assert forall|j: int| 0 <= j < a.len() implies a[j] != '\n' by {
                if c[j] == '\n' {
                    assert(c.subrange(j, j + 1) =~= nl);
                }
            }
            crate::text::lemma_lines_cons_any(a, rest);
            assert(i < c.len() - 1);
            if i > 0 {
                assert(a.last() == c[i - 1]);
                assert(!is_white_space(a.last()));
                assert(!is_white_space(a[0]));
                lemma_trim_fixed(a);
            } else {
                assert(a =~= Seq::<char>::empty());
                assert(trim(a) =~= a);
            }
            assert(crate::text::strip_cr(a) == a);
            assert(rest.last() == c.last());
            assert forall|k: int|
                0 <= k < rest.len() && is_white_space(#[trigger] rest[k]) && rest[k] != '\n' implies 0 < k
                    < rest.len() - 1 && rest[k - 1] != '\n' && rest[k + 1] != '\n' by {
                assert(rest[k] == c[k + i + 1]);
                assert(c[k + i] != '\n');
                assert(k != 0);
                assert(rest[k - 1] == c[k + i]);
                assert(rest[k + 1] == c[k + i + 2]);
            }
            lemma_plain_note_readable(rest);
            let lr = lines_of(rest);
            assert(lines_of(c) == seq![a] + lr);
            crate::text::lemma_join_prepend(a, lr, nl);
            assert forall|k: int| 0 <= k < lines_of(c).len() implies trim(#[trigger] lines_of(c)[k])
                == lines_of(c)[k] by {
                if k > 0 {
                    assert(lines_of(c)[k] == lr[k - 1]);
                }
            }
        },
    }
}

/// The lines of an entry's block after the msgid line.
pub open spec fn tail_lines(e: PotEntryView) -> Seq<Seq<char>> {
    match e.msgid_plural {
        Some(p) => seq![quoted_line("msgid_plural "@, p), "msgstr[0] \"\""@, "msgstr[1] \"\""@],
        None => seq!["msgstr \"\""@],
    }
}

pub open spec fn tail_text(e: PotEntryView) -> Seq<char> {
    match e.msgid_plural {
        Some(p) => quoted_line("msgid_plural "@, p) + seq!['\n'] + "msgstr[0] \"\""@ + seq!['\n']
            + "msgstr[1] \"\""@ + seq!['\n'],
        None => "msgstr \"\""@ + seq!['\n'],
    }
}

pub open spec fn note_text(e: PotEntryView) -> Seq<char> {
    match e.comment {
        Some(c) => note_lines(lines_of(c)),
        None => seq![],
    }
}

pub open spec fn note_marks(e: PotEntryView) -> Seq<Seq<char>> {
    match e.comment {
        Some(c) => marked(lines_of(c)),
        None => seq![],
    }
}

pub open spec fn ref_text(e: PotEntryView) -> Seq<char> {
    match e.reference {
        Some(r) => "#: "@ + r + seq!['\n'],
        None => seq![],
    }
}

pub open spec fn ref_lines(e: PotEntryView) -> Seq<Seq<char>> {
    match e.reference {
        Some(r) => seq!["#: "@ + r],
        None => seq![],
    }
}

/// The lines an entry's block reads as.
pub open spec fn block_lines(e: PotEntryView) -> Seq<Seq<char>> {
    seq![Seq::<char>::empty()] + note_marks(e) + ref_lines(e) + seq![quoted_line("msgid "@, e.msgid)]
        + tail_lines(e)
}

#[verifier::rlimit(60)]
proof fn lemma_tail_lines(e: PotEntryView)
    ensures
        lines_of(tail_text(e)) == tail_lines(e),
{
    reveal_strlit("msgid_plural ");
    lemma_msgstr_step(collect_init(), "msgstr \"\""@);
    lemma_msgstr_step(collect_init(), "msgstr[0] \"\""@);
    lemma_msgstr_step(collect_init(), "msgstr[1] \"\""@);
    assert(lines_of(Seq::<char>::empty()) =~= Seq::<Seq<char>>::empty());
    match e.msgid_plural {
        Some(p) => {
            lemma_quoted_line("msgid_plural "@, p);
            lemma_lines_cons("msgstr[1] \"\""@, seq![]);
            let r2 = "msgstr[1] \"\""@ + seq!['\n'];
            let r1 = "msgstr[0] \"\""@ + seq!['\n'] + r2;
            assert(r2 =~= "msgstr[1] \"\""@ + seq!['\n'] + Seq::<char>::empty());
            assert(lines_of(r2) =~= seq!["msgstr[1] \"\""@]);
            lemma_lines_cons("msgstr[0] \"\""@, r2);
            assert(r1 =~= "msgstr[0] \"\""@ + seq!['\n'] + r2);
            lemma_lines_cons(quoted_line("msgid_plural "@, p), r1);
            assert(tail_text(e) =~= quoted_line("msgid_plural "@, p) + seq!['\n'] + r1);
            assert(lines_of(tail_text(e)) =~= tail_lines(e));
        },
        None => {
            lemma_lines_cons("msgstr \"\""@, seq![]);
            assert(tail_text(e) =~= "msgstr \"\""@ + seq!['\n'] + Seq::<char>::empty());
            assert(lines_of(tail_text(e)) =~= tail_lines(e));
        },
    }
}

/// The text after an entry's reference line: the msgid line and the tail.
pub open spec fn after_ref(e: PotEntryView) -> Seq<char> {
    quoted_line("msgid "@, e.msgid) + seq!['\n'] + tail_text(e)
}

proof fn lemma_after_ref_lines(e: PotEntryView)
    requires
        e.reference matches Some(r) ==> clean_line(r),
    ensures
        lines_of(ref_text(e) + after_ref(e)) == ref_lines(e) + seq![quoted_line("msgid "@, e.msgid)]
            + tail_lines(e),
{
    reveal_strlit("#: ");
    reveal_strlit("msgid ");
    let mline = quoted_line("msgid "@, e.msgid);
    lemma_quoted_line("msgid "@, e.msgid);
    lemma_tail_lines(e);
    lemma_lines_cons(mline, tail_text(e));
    match e.reference {
        Some(r) => {
            lemma_marker_line("#: "@, r);
            lemma_lines_cons("#: "@ + r, after_ref(e));
            assert(ref_text(e) + after_ref(e) =~= ("#: "@ + r) + seq!['\n'] + after_ref(e));
        },
        None => {
            assert(ref_text(e) + after_ref(e) =~= after_ref(e));
        },
    }
    assert(lines_of(ref_text(e) + after_ref(e)) =~= ref_lines(e) + seq![mline] + tail_lines(e));
}

proof fn lemma_body_lines(e: PotEntryView)
    requires
        e.reference matches Some(r) ==> clean_line(r),
        e.comment matches Some(c) ==> readable_note(c),
    ensures
        lines_of(note_text(e) + (ref_text(e) + after_ref(e))) == note_marks(e) + ref_lines(e)
            + seq![quoted_line("msgid "@, e.msgid)] + tail_lines(e),
{
    lemma_after_ref_lines(e);
    let rest = ref_text(e) + after_ref(e);
    match e.comment {
        Some(c) => {
            lemma_lines_have_no_breaks(c);
            assert forall|k: int| 0 <= k < lines_of(c).len() implies clean_line(
                #[trigger] lines_of(c)[k],
            ) by {
                assert(trim(lines_of(c)[k]) == lines_of(c)[k]);
            }
            lemma_note_lines_split(lines_of(c), rest);
        },
        None => {
            assert(note_text(e) + rest =~= rest);
            assert(note_marks(e) =~= Seq::<Seq<char>>::empty());
        },
    }
    assert(note_marks(e) + (ref_lines(e) + seq![quoted_line("msgid "@, e.msgid)] + tail_lines(e))
        =~= note_marks(e) + ref_lines(e) + seq![quoted_line("msgid "@, e.msgid)] + tail_lines(e));
}

pub(crate) proof fn lemma_block_text(e: PotEntryView)
    ensures
        entry_block(e) == seq!['\n'] + (note_text(e) + (ref_text(e) + after_ref(e))),
{
    reveal_strlit("\"\nmsgid_plural \"");
    reveal_strlit("\"\nmsgstr[0] \"\"\nmsgstr[1] \"\"\n");
    reveal_strlit("msgstr[0] \"\"");
    reveal_strlit("msgstr[1] \"\"");
    reveal_strlit("msgid \"");
    reveal_strlit("msgid ");
    reveal_strlit("msgid_plural ");
    reveal_strlit("\"\nmsgstr \"\"\n");
    reveal_strlit("msgstr \"\"");
    assert(entry_block(e) =~= seq!['\n'] + (note_text(e) + (ref_text(e) + after_ref(e))));
}

proof fn lemma_block_lines(e: PotEntryView)
    requires
        e.reference matches Some(r) ==> clean_line(r),
        e.comment matches Some(c) ==> readable_note(c),
    ensures
        lines_of(entry_block(e)) == block_lines(e),
{
    lemma_block_text(e);
    lemma_body_lines(e);
    let body = note_text(e) + (ref_text(e) + after_ref(e));
    lemma_lines_cons(Seq::<char>::empty(), body);
    assert(seq!['\n'] + body =~= Seq::<char>::empty() + seq!['\n'] + body);
    assert(lines_of(entry_block(e)) =~= block_lines(e));
}

proof fn lemma_read_tail(s3: CollectState, e: PotEntryView)
    requires
        s3.id == e.msgid,
        s3.reference == e.reference,
        s3.comment == e.comment,
        s3.entries == Seq::<PotEntryView>::empty(),
        s3.plural is None,
        e.msgid.len() > 0 || e.msgid_plural is Some,
    ensures
        flush(collect_from(s3, tail_lines(e))).entries == seq![e],
{
    match e.msgid_plural {
        Some(p) => {
            lemma_plural_step(s3, p);
            let s4 = collect_step(s3, quoted_line("msgid_plural "@, p));
            lemma_msgstr_step(s4, "msgstr[0] \"\""@);
            let s5 = collect_step(s4, "msgstr[0] \"\""@);
            assert(s5.entries =~= seq![e]);
            lemma_msgstr_step(s5, "msgstr[1] \"\""@);
            let s6 = collect_step(s5, "msgstr[1] \"\""@);
            let t = tail_lines(e);
            let t1 = t.drop_last().drop_last();
            let t2 = t.drop_last();
            let t0 = t1.drop_last();
            assert(t0 =~= Seq::<Seq<char>>::empty());
            assert(collect_from(s3, t0) == s3);
            assert(t1.last() == quoted_line("msgid_plural "@, p));
            assert(t2.last() == "msgstr[0] \"\""@);
            assert(t.last() == "msgstr[1] \"\""@);
            assert(collect_from(s3, t1) == collect_step(collect_from(s3, t0), t1.last()));
            assert(collect_from(s3, t1) == s4);
            assert(collect_from(s3, t2) == collect_step(collect_from(s3, t1), t2.last()));
            assert(collect_from(s3, t2) == s5);
            assert(collect_from(s3, t) == collect_step(collect_from(s3, t2), t.last()));
            assert(collect_from(s3, t) == s6);
            assert(flush(s6).entries =~= seq![e]);
        },
        None => {
            lemma_msgstr_step(s3, "msgstr \"\""@);
            let s4 = collect_step(s3, "msgstr \"\""@);
            let t = tail_lines(e);
            let t0 = t.drop_last();
            assert(t0 =~= Seq::<Seq<char>>::empty());
            assert(collect_from(s3, t0) == s3);
            assert(t.last() == "msgstr \"\""@);
            assert(collect_from(s3, t) == collect_step(collect_from(s3, t0), t.last()));
            assert(collect_from(s3, t) == s4);
            assert(flush(s4).entries =~= seq![e]);
        },
    }
}

proof fn lemma_read_block(e: PotEntryView)
    requires
        e.msgid.len() > 0 || e.msgid_plural is Some,
        e.reference matches Some(r) ==> clean_line(r),
        e.comment matches Some(c) ==> readable_note(c),
    ensures
        flush(collect_from(collect_init(), block_lines(e))).entries == seq![e],
{
    reveal_strlit("#.");
    reveal_strlit("#:");
    reveal_strlit("msgstr");
    reveal_strlit("msgid ");
    reveal_strlit("msgid_plural ");
    let s0 = collect_init();
    let mline = quoted_line("msgid "@, e.msgid);
    assert(collect_step(s0, Seq::<char>::empty()) == s0) by {
        assert(trim(Seq::<char>::empty()) =~= Seq::<char>::empty());
    }
    assert(seq![Seq::<char>::empty()].drop_last() =~= Seq::<Seq<char>>::empty());
    assert(collect_from(s0, seq![Seq::<char>::empty()]) == s0);
    let s1 = match e.comment {
        Some(c) => CollectState { pending_comment: Some(c), ..s0 },
        None => s0,
    };
    match e.comment {
        Some(c) => {
            lemma_lines_have_no_breaks(c);
            assert forall|k: int| 0 <= k < lines_of(c).len() implies clean_line(
                #[trigger] lines_of(c)[k],
            ) by {
                assert(trim(lines_of(c)[k]) == lines_of(c)[k]);
            }
            lemma_note_run(s0, lines_of(c));
        },
        None => {
            assert(note_marks(e) =~= Seq::<Seq<char>>::empty());
        },
    }
    assert(collect_from(s0, note_marks(e)) == s1);
    let s2 = match e.reference {
        Some(r) => CollectState { pending_reference: Some(r), ..s1 },
        None => s1,
    };
    match e.reference {
        Some(r) => {
            lemma_ref_step(s1, r);
            assert(ref_lines(e).drop_last() =~= Seq::<Seq<char>>::empty());
        },
        None => {
            assert(ref_lines(e) =~= Seq::<Seq<char>>::empty());
        },
    }
    assert(collect_from(s1, ref_lines(e)) == s2);
    lemma_msgid_step(s2, e.msgid);
    let s3 = collect_step(s2, mline);
    let m0 = seq![mline].drop_last();
    assert(m0 =~= Seq::<Seq<char>>::empty());
    assert(collect_from(s2, m0) == s2);
    assert(collect_from(s2, seq![mline]) == collect_step(collect_from(s2, m0), seq![mline].last()));
    assert(collect_from(s2, seq![mline]) == s3);
    lemma_read_tail(s3, e);
    let l0 = seq![Seq::<char>::empty()];
    lemma_collect_from_split(s0, l0, note_marks(e));
    lemma_collect_from_split(collect_from(s0, l0), note_marks(e), ref_lines(e));
    lemma_collect_from_split(s0, l0 + note_marks(e), ref_lines(e));
    lemma_collect_from_split(s0, l0 + note_marks(e) + ref_lines(e), seq![mline]);
    lemma_collect_from_split(s0, l0 + note_marks(e) + ref_lines(e) + seq![mline], tail_lines(e));
}

/// Rendering an entry as a pot block and reading the block back gives the entry again, for
/// an entry that has a msgid or a msgid_plural (the header entry is never read back), a
/// reference on one trimmed line, and a note that reads back as written ([`plain_note`] gives
/// one, by [`lemma_plain_note_readable`]).
pub proof fn law_entry_block_round_trip(e: PotEntryView)
    requires
        e.msgid.len() > 0 || e.msgid_plural is Some,
        e.reference matches Some(r) ==> clean_line(r),
        e.comment matches Some(c) ==> readable_note(c),
    ensures
        collect_entries(entry_block(e)) == seq![e],
{
    lemma_block_lines(e);
    lemma_read_block(e);
    lemma_collect_run_from(block_lines(e));
}


/// An empty line changes nothing in the read.
pub proof fn lemma_collect_blank(st: CollectState)
    ensures
        collect_step(st, Seq::<char>::empty()) == st,
{
    reveal_strlit("#.");
    reveal_strlit("#:");
    reveal_strlit("msgid_plural ");
    reveal_strlit("msgid ");
    reveal_strlit("msgstr");
    assert(trim(Seq::<char>::empty()) =~= Seq::<char>::empty());
}

/// Reading a first line, then the rest.
pub proof fn lemma_collect_cons(st: CollectState, x: Seq<char>, ls: Seq<Seq<char>>)
    ensures
        collect_from(st, seq![x] + ls) == collect_from(collect_step(st, x), ls),
{
    lemma_collect_from_split(st, seq![x], ls);
    assert(seq![x].drop_last() =~= Seq::<Seq<char>>::empty());
    assert(collect_from(st, seq![x]) == collect_step(collect_from(st, Seq::<Seq<char>>::empty()), x));
}

/// Ending a text with a line break does not change how it reads.
pub proof fn lemma_collect_break(st: CollectState, a: Seq<char>)
    ensures
        collect_from(st, lines_of(a + seq!['\n'])) == collect_from(st, lines_of(a)),
    decreases a.len(),
{
    crate::text::lemma_find_from_bounds(a, seq!['\n'], 0);
    match crate::text::index_of(a, '\n') {
        Some(i) => {
            let x = a.take(i);
            let y = a.skip(i + 1);
            crate::text::lemma_find_from_first(a, seq!['\n'], 0);
            assert forall|j: int| 0 <= j < x.len() implies x[j] != '\n' by {
                if x[j] == '\n' {
                    assert(a.subrange(j, j + 1) =~= seq!['\n']);
                }
            }
            assert(a.subrange(i, i + 1)[0] == a[i]);
            assert(a =~= x + seq!['\n'] + y);
            assert(a + seq!['\n'] =~= x + seq!['\n'] + (y + seq!['\n']));
            crate::text::lemma_lines_cons_any(x, y);
            crate::text::lemma_lines_cons_any(x, y + seq!['\n']);
            let x2 = crate::text::strip_cr(x);
            lemma_collect_cons(st, x2, lines_of(y));
            lemma_collect_cons(st, x2, lines_of(y + seq!['\n']));
            lemma_collect_break(collect_step(st, x2), y);
        },
        None => {
            assert forall|j: int| 0 <= j < a.len() implies a[j] != '\n' by {
                if a[j] == '\n' {
                    assert(a.subrange(j, j + 1) =~= seq!['\n']);
                }
            }
            crate::text::lemma_lines_cons_any(a, Seq::<char>::empty());
            assert(a + seq!['\n'] =~= a + seq!['\n'] + Seq::<char>::empty());
            assert(lines_of(Seq::<char>::empty()) =~= Seq::<Seq<char>>::empty());
            let x2 = crate::text::strip_cr(a);
            assert(lines_of(a + seq!['\n']) =~= seq![x2]);
            lemma_collect_cons(st, x2, Seq::<Seq<char>>::empty());
            assert(seq![x2] + Seq::<Seq<char>>::empty() =~= seq![x2]);
            if a.len() == 0 {
                assert(x2 =~= Seq::<char>::empty());
                lemma_collect_blank(st);
                assert(lines_of(a) =~= Seq::<Seq<char>>::empty());
            } else {
                assert(lines_of(a) == seq![a]);
                lemma_collect_cons(st, a, Seq::<Seq<char>>::empty());
                assert(seq![a] + Seq::<Seq<char>>::empty() =~= seq![a]);
                if a.last() == '\r' {
                    crate::text::lemma_trim_drop_white(a);
                }
                assert(trim(x2) == trim(a));
            }
        },
    }
}

/// The lines of a note's `#. ` lines followed by `rest`, whatever the note's lines hold
/// besides line breaks.
pub open spec fn note_marks_any(ps: Seq<Seq<char>>) -> Seq<Seq<char>> {
    ps.map_values(|p: Seq<char>| crate::text::strip_cr("#. "@ + p))
}

pub proof fn lemma_note_lines_any(ps: Seq<Seq<char>>, rest: Seq<char>)
    requires
        forall|k: int, j: int| 0 <= k < ps.len() && 0 <= j < ps[k].len() ==> #[trigger] ps[k][j] != '\n',
    ensures
        lines_of(note_lines(ps) + rest) == note_marks_any(ps) + lines_of(rest),
    decreases ps.len(),
{
    reveal_strlit("#. ");
    if ps.len() == 0 {
        assert(note_lines(ps) + rest =~= rest);
        assert(note_marks_any(ps) + lines_of(rest) =~= lines_of(rest));
    } else {
        let last = ps.last();
        let line = "#. "@ + last;
        assert forall|j: int| 0 <= j < line.len() implies line[j] != '\n' by {
            if j >= 3 {
                assert(line[j] == ps[ps.len() - 1][j - 3]);
            }
        }
        let rest2 = line + seq!['\n'] + rest;
        assert(note_lines(ps) + rest =~= note_lines(ps.drop_last()) + rest2);
        assert forall|k: int, j: int| 0 <= k < ps.drop_last().len() && 0 <= j < ps.drop_last()[k].len() implies #[trigger] ps.drop_last()[k][j] != '\n' by {
            assert(ps.drop_last()[k] == ps[k]);
        }
        lemma_note_lines_any(ps.drop_last(), rest2);
        crate::text::lemma_lines_cons_any(line, rest);
        assert(note_marks_any(ps) =~= note_marks_any(ps.drop_last()).push(crate::text::strip_cr(line)));
        assert(note_marks_any(ps.drop_last()) + (seq![crate::text::strip_cr(line)] + lines_of(rest))
            =~= note_marks_any(ps) + lines_of(rest));
    }
}

/// Trimming the end of a text keeps its first characters up to a non-whitespace one.
proof fn lemma_trim_end_keeps(y: Seq<char>, k: int)
    requires
        0 <= k < y.len(),
        !is_white_space(y[k]),
    ensures
        trim_end(y).len() > k,
        forall|j: int| 0 <= j <= k ==> #[trigger] trim_end(y)[j] == y[j],
    decreases y.len(),
{
    if is_white_space(y.last()) {
        assert(y.len() - 1 != k);
        assert(y.drop_last()[k] == y[k]);
        lemma_trim_end_keeps(y.drop_last(), k);
        assert forall|j: int| 0 <= j <= k implies #[trigger] trim_end(y)[j] == y[j] by {
            assert(trim_end(y.drop_last())[j] == y.drop_last()[j]);
        }
    }
}

/// A `#. ` line read from a file sets only the note waiting for the next msgid.
proof fn lemma_note_any_step(st: CollectState, p: Seq<char>)
    ensures
        collect_step(st, crate::text::strip_cr("#. "@ + p)) == (CollectState {
            pending_comment: collect_step(st, crate::text::strip_cr("#. "@ + p)).pending_comment,
            ..st
        }),
{
    reveal_strlit("#. ");
    reveal_strlit("#.");
    let y = crate::text::strip_cr("#. "@ + p);
    assert(y.len() >= 2);
    assert(y[0] == '#' && y[1] == '.');
    assert(trim_start(y) == y);
    lemma_trim_end_keeps(y, 1);
    let line = trim(y);
    assert(line.take(2) =~= "#."@);
}

/// The `#. ` lines of a note read from a file set only the note waiting for the next msgid.
proof fn lemma_notes_any_run(st: CollectState, ps: Seq<Seq<char>>)
    ensures
        collect_from(st, note_marks_any(ps)) == (CollectState {
            pending_comment: collect_from(st, note_marks_any(ps)).pending_comment,
            ..st
        }),
    decreases ps.len(),
{
    if ps.len() > 0 {
        let m = note_marks_any(ps);
        assert(m.drop_last() =~= note_marks_any(ps.drop_last()));
        lemma_notes_any_run(st, ps.drop_last());
        let mid = collect_from(st, note_marks_any(ps.drop_last()));
        lemma_note_any_step(mid, ps.last());
    }
}

/// The key of an entry: its msgid and msgid_plural.
pub open spec fn keys(es: Seq<PotEntryView>) -> Seq<(Seq<char>, Option<Seq<char>>)> {
    es.map_values(|e: PotEntryView| (e.msgid, e.msgid_plural))
}

proof fn lemma_read_tail_any(s3: CollectState, e: PotEntryView)
    requires
        s3.id == e.msgid,
        s3.plural is None,
        e.msgid.len() > 0 || e.msgid_plural is Some,
    ensures
        ({
            let r = collect_from(s3, tail_lines(e));
            &&& r.entries == s3.entries.push(
                PotEntryView {
                    msgid: e.msgid,
                    msgid_plural: e.msgid_plural,
                    reference: s3.reference,
                    comment: s3.comment,
                },
            )
            &&& r.id.len() == 0
            &&& r.plural is None
        }),
{
    match e.msgid_plural {
        Some(p) => {
            lemma_plural_step(s3, p);
            let s4 = collect_step(s3, quoted_line("msgid_plural "@, p));
            lemma_msgstr_step(s4, "msgstr[0] \"\""@);
            let s5 = collect_step(s4, "msgstr[0] \"\""@);
            lemma_msgstr_step(s5, "msgstr[1] \"\""@);
            let s6 = collect_step(s5, "msgstr[1] \"\""@);
            let t = tail_lines(e);
            let t1 = t.drop_last().drop_last();
            let t2 = t.drop_last();
            let t0 = t1.drop_last();
            assert(t0 =~= Seq::<Seq<char>>::empty());
            assert(collect_from(s3, t0) == s3);
            assert(t1.last() == quoted_line("msgid_plural "@, p));
            assert(t2.last() == "msgstr[0] \"\""@);
            assert(t.last() == "msgstr[1] \"\""@);
            assert(collect_from(s3, t1) == s4);
            assert(collect_from(s3, t2) == s5);
            assert(collect_from(s3, t) == s6);
        },
        None => {
            lemma_msgstr_step(s3, "msgstr \"\""@);
            let t = tail_lines(e);
            let t0 = t.drop_last();
            assert(t0 =~= Seq::<Seq<char>>::empty());
            assert(collect_from(s3, t0) == s3);
            assert(t.last() == "msgstr \"\""@);
        },
    }
}

/// Reading an entry's block, whatever was read before it, ends the entry read before it and
/// adds one with the block's msgid and msgid_plural, leaving no entry open.
#[verifier::rlimit(40)]
pub proof fn lemma_read_block_any(st: CollectState, e: PotEntryView)
    requires
        e.msgid.len() > 0 || e.msgid_plural is Some,
        e.reference matches Some(r) ==> clean_line(r),
    ensures
        ({
            let r = collect_from(st, lines_of(entry_block(e)));
            &&& keys(r.entries) == keys(flush(st).entries).push((e.msgid, e.msgid_plural))
            &&& r.id.len() == 0
            &&& r.plural is None
        }),
{
    lemma_block_text(e);
    let rest = ref_text(e) + after_ref(e);
    let body = note_text(e) + rest;
    crate::text::lemma_lines_cons_any(Seq::<char>::empty(), body);
    assert(entry_block(e) =~= Seq::<char>::empty() + seq!['\n'] + body);
    let ps = match e.comment {
        Some(c) => lines_of(c),
        None => Seq::<Seq<char>>::empty(),
    };
    match e.comment {
        Some(c) => {
            lemma_lines_have_no_breaks(c);
        },
        None => {},
    }
    assert(note_text(e) == note_lines(ps));
    lemma_note_lines_any(ps, rest);
    lemma_after_ref_lines(e);
    let nm = note_marks_any(ps);
    let mline = quoted_line("msgid "@, e.msgid);
    assert(lines_of(entry_block(e)) =~= seq![Seq::<char>::empty()] + (nm + (ref_lines(e) + (seq![mline] + tail_lines(e)))));
    lemma_collect_cons(st, Seq::<char>::empty(), nm + (ref_lines(e) + (seq![mline] + tail_lines(e))));
    lemma_collect_blank(st);
    lemma_collect_from_split(st, nm, ref_lines(e) + (seq![mline] + tail_lines(e)));
    lemma_notes_any_run(st, ps);
    let st1 = collect_from(st, nm);
    lemma_collect_from_split(st1, ref_lines(e), seq![mline] + tail_lines(e));
    let st2 = collect_from(st1, ref_lines(e));
    match e.reference {
        Some(r) => {
            lemma_ref_step(st1, r);
            assert(ref_lines(e).drop_last() =~= Seq::<Seq<char>>::empty());
            assert(st2 == collect_step(st1, "#: "@ + r));
        },
        None => {
            assert(ref_lines(e) =~= Seq::<Seq<char>>::empty());
        },
    }
    assert(flush(st2).entries == flush(st).entries);
    lemma_collect_cons(st2, mline, tail_lines(e));
    lemma_msgid_step(st2, e.msgid);
    let s3 = collect_step(st2, mline);
    lemma_read_tail_any(s3, e);
    let r = collect_from(s3, tail_lines(e));
    assert(keys(r.entries) =~= keys(flush(st).entries).push((e.msgid, e.msgid_plural)));
}


/// An entry that reads back from its block: it has a msgid or a msgid_plural, and its
/// reference is one trimmed line.
pub open spec fn block_ok(e: PotEntryView) -> bool {
    &&& e.msgid.len() > 0 || e.msgid_plural is Some
    &&& e.reference matches Some(r) ==> clean_line(r)
}

/// The read so far holds only such entries, and any reference it carries is one trimmed line.
pub open spec fn run_ok(st: CollectState) -> bool {
    &&& forall|k: int| 0 <= k < st.entries.len() ==> block_ok(#[trigger] st.entries[k])
    &&& st.reference matches Some(r) ==> clean_line(r)
    &&& st.pending_reference matches Some(r) ==> clean_line(r)
}

proof fn lemma_trim_start_suffix(x: Seq<char>)
    ensures
        trim_start(x) == x.skip(x.len() - trim_start(x).len()),
        trim_start(x).len() <= x.len(),
        trim_start(x).len() > 0 ==> !is_white_space(trim_start(x)[0]),
    decreases x.len(),
{
    if x.len() > 0 && is_white_space(x[0]) {
        lemma_trim_start_suffix(x.drop_first());
        assert(x.drop_first().skip(x.drop_first().len() - trim_start(x).len()) =~= x.skip(
            x.len() - trim_start(x).len(),
        ));
    } else {
        assert(x.skip(0) =~= x);
    }
}

proof fn lemma_trim_end_prefix(y: Seq<char>)
    ensures
        trim_end(y) == y.take(trim_end(y).len() as int),
        trim_end(y).len() <= y.len(),
        trim_end(y).len() > 0 ==> !is_white_space(trim_end(y).last()),
    decreases y.len(),
{
    if y.len() > 0 && is_white_space(y.last()) {
        lemma_trim_end_prefix(y.drop_last());
        assert(y.drop_last().take(trim_end(y).len() as int) =~= y.take(trim_end(y).len() as int));
    } else {
        assert(y.take(y.len() as int) =~= y);
    }
}

/// The trim of a text without a line break is one trimmed line.
pub proof fn lemma_trim_clean(x: Seq<char>)
    requires
        forall|j: int| 0 <= j < x.len() ==> x[j] != '\n',
    ensures
        clean_line(trim(x)),
{
    lemma_trim_start_suffix(x);
    let ts = trim_start(x);
    lemma_trim_end_prefix(ts);
    let t = trim(x);
    let off = x.len() - ts.len();
    assert forall|j: int| 0 <= j < t.len() implies t[j] != '\n' by {
        assert(t[j] == ts[j]);
        assert(ts[j] == x[j + off]);
    }
    if t.len() > 0 {
        assert(t[0] == ts[0]);
        lemma_trim_fixed(t);
    } else {
        assert(t =~= Seq::<char>::empty());
        assert(trim(t) =~= Seq::<char>::empty());
    }
}

proof fn lemma_flush_ok(st: CollectState)
    requires
        run_ok(st),
    ensures
        run_ok(flush(st)),
{
    let f = flush(st);
    assert forall|k: int| 0 <= k < f.entries.len() implies block_ok(#[trigger] f.entries[k]) by {
        if k < st.entries.len() {
            assert(f.entries[k] == st.entries[k]);
        }
    }
}

proof fn lemma_step_ok(st: CollectState, raw: Seq<char>)
    requires
        run_ok(st),
        forall|j: int| 0 <= j < raw.len() ==> raw[j] != '\n',
    ensures
        run_ok(collect_step(st, raw)),
{
    reveal_strlit("#:");
    let line = trim(raw);
    lemma_trim_clean(raw);
    lemma_flush_ok(st);
    if has_prefix(line, "#:"@) {
        let z = without_prefix(line, "#:"@);
        assert(z == line.skip(2));
        assert forall|j: int| 0 <= j < z.len() implies z[j] != '\n' by {
            assert(z[j] == line[j + 2]);
        }
        lemma_trim_clean(z);
    }
}

/// Reading lines without line breaks keeps the read well formed.
pub proof fn lemma_run_ok(lines: Seq<Seq<char>>)
    requires
        forall|k: int, j: int| 0 <= k < lines.len() && 0 <= j < lines[k].len() ==> #[trigger] lines[k][j] != '\n',
    ensures
        run_ok(collect_run(lines)),
    decreases lines.len(),
{
    if lines.len() > 0 {
        assert forall|k: int, j: int| 0 <= k < lines.drop_last().len() && 0 <= j < lines.drop_last()[k].len() implies #[trigger] lines.drop_last()[k][j] != '\n' by {
            assert(lines.drop_last()[k] == lines[k]);
        }
        lemma_run_ok(lines.drop_last());
        assert forall|j: int| 0 <= j < lines.last().len() implies lines.last()[j] != '\n' by {
            assert(lines[lines.len() - 1][j] != '\n');
        }
        lemma_step_ok(collect_run(lines.drop_last()), lines.last());
    }
}

/// Every entry read from a file reads back from its block.
pub proof fn lemma_collected_ok(content: Seq<char>)
    ensures
        forall|k: int| 0 <= k < collect_entries(content).len() ==> block_ok(#[trigger] collect_entries(content)[k]),
{
    lemma_lines_have_no_breaks(content);
    lemma_run_ok(lines_of(content));
    lemma_flush_ok(collect_run(lines_of(content)));
}

} // verus!
