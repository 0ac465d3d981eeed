//! Scanning non-Rust sources (Swift, Kotlin) for `t()`/`nt()` calls and folding what they
//! turn up into an existing `.pot`: a small hand-written scanner, since those languages need
//! no sanitizing and the call shapes are simple.
use vstd::prelude::*;

use crate::entries::{
    collect_entries, collect_pot_msgids, entry_block, entry_views, pot_entry_block, unescape,
    unescape_exec, unescape_pair, PotEntry, PotEntryView,
};
use crate::text::{
    append, ascii_white_space, chars_of, copy_of, eq, ends_with, has_prefix, has_suffix, index_of,
    index_of_exec, is_ascii_white_space, join, join_exec, lemma_find_from_bounds,
    lemma_find_from_first, lemma_join_split, lines_of, opt_view, skip, split_lines, split_on,
    split_on_exec,
    starts_with, starts_with_char, string_of, string_views, trim, trim_vec, views,
};

verus! {

/// `char::is_alphanumeric`: Unicode `Alphabetic` or `Numeric`.
pub uninterp spec fn unicode_alphanumeric(c: char) -> bool;

/// Whether `c` is alphanumeric, as `char::is_alphanumeric` decides it from the Unicode
/// tables; the tables themselves are named by [`unicode_alphanumeric`], not restated.
#[verifier::external_body]
fn is_alphanumeric(c: char) -> (r: bool)
    ensures
        r == unicode_alphanumeric(c),
{
    c.is_alphanumeric()
}

/// The first index at or after `p` that is not ASCII whitespace.
pub open spec fn skip_ascii_ws(s: Seq<char>, p: int) -> int
    decreases s.len() - p,
{
    if 0 <= p < s.len() && is_ascii_white_space(s[p]) {
        skip_ascii_ws(s, p + 1)
    } else {
        p
    }
}

/// The first index at or after `p` that is neither ASCII whitespace nor a comma.
pub open spec fn skip_ws_commas(s: Seq<char>, p: int) -> int
    decreases s.len() - p,
{
    if 0 <= p < s.len() && (is_ascii_white_space(s[p]) || s[p] == ',') {
        skip_ws_commas(s, p + 1)
    } else {
        p
    }
}

/// The rest of a string literal whose opening quote lies before `p`: its decoded text and
/// the index just past its closing quote; `None` when a raw line break or the end of the
/// input comes first.
pub open spec fn literal_body(s: Seq<char>, p: int) -> Option<(Seq<char>, int)>
    decreases s.len() - p,
{
    if p < 0 || p >= s.len() {
        None
    } else if s[p] == '"' {
        Some((seq![], p + 1))
    } else if s[p] == '\\' && p + 1 < s.len() {
        prefixed(unescape_pair(s[p + 1]), literal_body(s, p + 2))
    } else if s[p] == '\n' || s[p] == '\r' {
        None
    } else {
        prefixed(seq![s[p]], literal_body(s, p + 1))
    }
}

pub open spec fn prefixed(pre: Seq<char>, r: Option<(Seq<char>, int)>) -> Option<(Seq<char>, int)> {
    match r {
        Some((t, e)) => Some((pre + t, e)),
        None => None,
    }
}

/// The `"..."` literal at `pos` (whitespace before the opening quote allowed): its decoded
/// text and the index just past the closing quote.
pub open spec fn literal_at(s: Seq<char>, pos: int) -> Option<(Seq<char>, int)> {
    let q = skip_ascii_ws(s, pos);
    if 0 <= q < s.len() && s[q] == '"' {
        literal_body(s, q + 1)
    } else {
        None
    }
}

pub proof fn lemma_skip_ws(s: Seq<char>, p: int)
    ensures
        skip_ascii_ws(s, p) >= p,
        skip_ws_commas(s, p) >= p,
        p <= s.len() ==> skip_ascii_ws(s, p) <= s.len() && skip_ws_commas(s, p) <= s.len(),
    decreases s.len() - p,
{
    if 0 <= p < s.len() {
        lemma_skip_ws(s, p + 1);
    }
}

pub proof fn lemma_literal_body_end(s: Seq<char>, p: int)
    ensures
        literal_body(s, p) matches Some((t, e)) ==> p < e <= s.len(),
    decreases s.len() - p,
{
    if 0 <= p < s.len() && s[p] != '"' {
        if s[p] == '\\' && p + 1 < s.len() {
            lemma_literal_body_end(s, p + 2);
        } else {
            lemma_literal_body_end(s, p + 1);
        }
    }
}

/// A literal, when there is one at `pos`, ends past `pos` and within the input.
pub proof fn lemma_literal_end(s: Seq<char>, pos: int)
    ensures
        literal_at(s, pos) matches Some((t, e)) ==> pos < e <= s.len(),
{
    lemma_skip_ws(s, pos);
    lemma_literal_body_end(s, skip_ascii_ws(s, pos) + 1);
}

fn push_unescaped(out: &mut Vec<char>, c: char)
    ensures
        final(out)@ == old(out)@ + unescape_pair(c),
{
    let ghost start = out@;
    if c == 'n' {
        out.push('\n');
    } else if c == 't' {
        out.push('\t');
    } else if c == '"' {
        out.push('"');
    } else if c == '\\' {
        out.push('\\');
    } else {
        out.push('\\');
        out.push(c);
    }
    assert(out@ =~= start + unescape_pair(c));
}

/// Reads a `"..."` string literal starting at `pos` (which may point at whitespace before the
/// opening quote): the decoded string and the index just past the closing quote, or `None`
/// if there is no quote there or the literal is never closed (a raw newline or the end of the
/// input comes first). Decodes `\\`, `\"`, `\n` and `\t`; any other escape is kept as written.
pub fn read_string_literal(chars: &[char], pos: usize) -> (r: Option<(String, usize)>)
    ensures
        (match r {
            Some((t, e)) => Some((t@, e as int)),
            None => None::<(Seq<char>, int)>,
        }) == literal_at(chars@, pos as int),
{
    let n = chars.len();
    let mut p = pos;
    while p < n && ascii_white_space(chars[p])
        invariant
            pos <= p,
            n == chars.len(),
            skip_ascii_ws(chars@, pos as int) == skip_ascii_ws(chars@, p as int),
        decreases n - p,
    {
        p = p + 1;
    }
    if p >= n || chars[p] != '"' {
        return None;
    }
    p = p + 1;
    let mut out: Vec<char> = Vec::new();
    loop
        invariant
            p <= n,
            n == chars.len(),
            literal_at(chars@, pos as int) == prefixed(out@, literal_body(chars@, p as int)),
        decreases n - p,
    {
        if p >= n {
            return None;
        }
        let c = chars[p];
        if c == '"' {
            assert(out@ + Seq::<char>::empty() =~= out@);
            return Some((string_of(&out), p + 1));
        }
        let ghost before = out@;
        if c == '\\' && p + 1 < n {
            let d = chars[p + 1];
            push_unescaped(&mut out, d);
            p = p + 2;
            proof {
                assert forall|t: Seq<char>| before + (unescape_pair(d) + t) =~= out@ + t by {}
            }
        } else {
            if c == '\n' || c == '\r' {
                return None;
            }
            out.push(c);
            p = p + 1;
            proof {
                assert forall|t: Seq<char>| before + (seq![c] + t) =~= out@ + t by {}
            }
        }
    }
}

/// How many line breaks come before index `k`.
pub open spec fn newlines_before(s: Seq<char>, k: int) -> nat
    decreases k,
{
    if k <= 0 {
        0
    } else {
        newlines_before(s, k - 1) + if k - 1 < s.len() && s[k - 1] == '\n' {
            1nat
        } else {
            0nat
        }
    }
}

pub proof fn lemma_newlines_bound(s: Seq<char>, k: int)
    ensures
        k >= 0 ==> newlines_before(s, k) <= k,
    decreases k,
{
    if k > 0 {
        lemma_newlines_bound(s, k - 1);
    }
}

/// Maps every char index in `chars`, and the end of the input, to the zero-based line it
/// falls on.
pub fn line_of_each_char(chars: &[char]) -> (r: Vec<usize>)
    ensures
        r.len() == chars.len() + 1,
        forall|k: int| 0 <= k <= chars.len() ==> r@[k] == newlines_before(chars@, k),
{
    let mut out: Vec<usize> = Vec::new();
    let mut line: usize = 0;
    let mut i: usize = 0;
    while i < chars.len()
        invariant
            i <= chars.len(),
            out.len() == i,
            line == newlines_before(chars@, i as int),
            forall|k: int| 0 <= k < i ==> out@[k] == newlines_before(chars@, k),
        decreases chars.len() - i,
    {
        proof {
            lemma_newlines_bound(chars@, i as int);
        }
        out.push(line);
        if chars[i] == '\n' {
            line = line + 1;
        }
        i = i + 1;
    }
    out.push(line);
    out
}

proof fn lemma_no_newlines(s: Seq<char>, k: int, end: int)
    requires
        0 <= k <= end <= s.len(),
        forall|j: int| 0 <= j < end ==> s[j] != '\n',
    ensures
        newlines_before(s, k) == 0,
    decreases k,
{
    if k > 0 {
        lemma_no_newlines(s, k - 1, end);
    }
}

proof fn lemma_newlines_split(s: Seq<char>, i: int, k: int)
    requires
        0 <= i < s.len(),
        s[i] == '\n',
        forall|j: int| 0 <= j < i ==> s[j] != '\n',
        i + 1 <= k <= s.len(),
    ensures
        newlines_before(s, k) == 1 + newlines_before(s.skip(i + 1), k - (i + 1)),
    decreases k,
{
    if k == i + 1 {
        lemma_no_newlines(s, i, i);
    } else {
        lemma_newlines_split(s, i, k - 1);
        assert(s.skip(i + 1)[k - 1 - (i + 1)] == s[k - 1]);
    }
}

/// A character other than a line break sits on a line that `str::lines` yields.
pub proof fn lemma_line_exists(s: Seq<char>, k: int)
    requires
        0 <= k < s.len(),
        s[k] != '\n',
    ensures
        newlines_before(s, k) < lines_of(s).len(),
    decreases s.len(),
{
    lemma_find_from_bounds(s, seq!['\n'], 0);
    lemma_find_from_first(s, seq!['\n'], 0);
    match index_of(s, '\n') {
        Some(i) => {
            assert(s.subrange(i, i + 1) == seq!['\n']);
            assert(s[i] == '\n') by {
                assert(s.subrange(i, i + 1)[0] == s[i]);
            }
            assert forall|j: int| 0 <= j < i implies s[j] != '\n' by {
                if s[j] == '\n' {
                    assert(s.subrange(j, j + 1) =~= seq!['\n']);
                }
            }
            if k < i {
                lemma_no_newlines(s, k, i);
            } else {
                lemma_newlines_split(s, i, k);
                assert(s.skip(i + 1)[k - (i + 1)] == s[k]);
                lemma_line_exists(s.skip(i + 1), k - (i + 1));
            }
        },
        None => {
            assert forall|j: int| 0 <= j < s.len() implies s[j] != '\n' by {
                if s[j] == '\n' {
                    assert(s.subrange(j, j + 1) =~= seq!['\n']);
                }
            }
            lemma_no_newlines(s, k, s.len() as int);
        },
    }
}

/// How many string-free lines may sit between a note and the call it describes: a call
/// split over several lines puts the opening line of its construct in between.
pub const MAX_SKIPPED_WRAPPER_LINES: usize = 3;

/// Walks up from the call on line `cursor` over at most [`MAX_SKIPPED_WRAPPER_LINES`]
/// wrapper lines (non-blank, without a `"`) to the line just below a `//` comment or the
/// top of the file; `None` when a blank line, a line with a string, or one wrapper line too
/// many comes first.
pub open spec fn wrapper_walk(lines: Seq<Seq<char>>, cursor: int, skipped: int) -> Option<int>
    decreases cursor,
{
    if cursor <= 0 {
        Some(cursor)
    } else {
        let above = trim(lines[cursor - 1]);
        if has_prefix(above, "//"@) {
            Some(cursor)
        } else if above.len() == 0 || index_of(above, '"') is Some || skipped
            == MAX_SKIPPED_WRAPPER_LINES {
            None
        } else {
            wrapper_walk(lines, cursor - 1, skipped + 1)
        }
    }
}

/// The text of a `//` comment line, trimmed; `None` for any other line.
pub open spec fn comment_text(line: Seq<char>) -> Option<Seq<char>> {
    let t = trim(line);
    if has_prefix(t, "//"@) {
        Some(trim(t.skip(2)))
    } else {
        None
    }
}

/// The run of `//` comment lines that ends just above line `cursor`, in reading order.
pub open spec fn note_run(lines: Seq<Seq<char>>, cursor: int) -> Seq<Seq<char>>
    decreases cursor,
{
    if cursor <= 0 {
        seq![]
    } else {
        match comment_text(lines[cursor - 1]) {
            Some(t) => note_run(lines, cursor - 1).push(t),
            None => seq![],
        }
    }
}

/// The `TRANSLATORS:` note for a call on line `line_index`: the comment run above it (past
/// at most a few wrapper lines), joined with line breaks, when it opens with the tag.
pub open spec fn translators_note(lines: Seq<Seq<char>>, line_index: int) -> Option<Seq<char>> {
    match wrapper_walk(lines, line_index, 0) {
        None => None,
        Some(c) => {
            let block = note_run(lines, c);
            if block.len() > 0 && has_prefix(block[0], "TRANSLATORS"@) {
                Some(join(block, seq!['\n']))
            } else {
                None
            }
        },
    }
}

fn comment_text_exec(line: &[char]) -> (r: Option<Vec<char>>)
    ensures
        (match r {
            Some(v) => Some(v@),
            None => None::<Seq<char>>,
        }) == comment_text(line@),
{
    let t = trim_vec(line);
    let slashes: Vec<char> = vec!['/', '/'];
    assert(slashes@ =~= "//"@) by {
        reveal_strlit("//");
    }
    if starts_with(&t, &slashes) {
        Some(trim_vec(&skip(&t, 2)))
    } else {
        None
    }
}

/// The `TRANSLATORS:` note for the call starting on `line_index`, if it has one: the run of
/// `//` lines immediately above (after stepping over at most [`MAX_SKIPPED_WRAPPER_LINES`]
/// wrapper lines), tag and all, when that run opens with the tag. A blank line ends the
/// search, so a note further up cannot drift down onto a call it was never written for.
pub fn translators_comment_before(lines: &[Vec<char>], line_index: usize) -> (r: Option<String>)
    requires
        line_index <= lines.len(),
    ensures
        opt_view(r) == translators_note(views(lines@), line_index as int),
{
    let ghost ls = views(lines@);
    let slashes: Vec<char> = vec!['/', '/'];
    assert(slashes@ =~= "//"@) by {
        reveal_strlit("//");
    }
    let mut cursor = line_index;
    let mut skipped: usize = 0;
    while cursor > 0
        invariant
            cursor <= line_index <= lines.len(),
            skipped <= MAX_SKIPPED_WRAPPER_LINES,
            ls == views(lines@),
            slashes@ == "//"@,
            wrapper_walk(ls, line_index as int, 0) == wrapper_walk(
                ls,
                cursor as int,
                skipped as int,
            ),
        ensures
            cursor <= line_index <= lines.len(),
            wrapper_walk(ls, line_index as int, 0) == Some(cursor as int),
        decreases cursor,
    {
        let above = trim_vec(&lines[cursor - 1]);
        assert(ls[cursor - 1] == lines@[cursor - 1]@);
        if starts_with(&above, &slashes) {
            break;
        }
        if above.len() == 0 || index_of_exec(&above, '"').is_some() || skipped
            == MAX_SKIPPED_WRAPPER_LINES {
            return None;
        }
        skipped = skipped + 1;
        cursor = cursor - 1;
    }
    assert(wrapper_walk(ls, line_index as int, 0) == Some(cursor as int));
    let mut top = cursor;
    while top > 0 && comment_text_exec(&lines[top - 1]).is_some()
        invariant
            top <= cursor <= lines.len(),
            ls == views(lines@),
            forall|k: int| top <= k < cursor ==> (#[trigger] comment_text(ls[k])) is Some,
        decreases top,
    {
        assert(ls[top - 1] == lines@[top - 1]@);
        top = top - 1;
    }
    if top > 0 {
        assert(ls[top - 1] == lines@[top - 1]@);
    }
    assert(note_run(ls, top as int) =~= Seq::<Seq<char>>::empty());
    let mut block: Vec<Vec<char>> = Vec::new();
    let mut k = top;
    while k < cursor
        invariant
            top <= k <= cursor <= lines.len(),
            ls == views(lines@),
            forall|j: int| top <= j < cursor ==> (#[trigger] comment_text(ls[j])) is Some,
            views(block@) == note_run(ls, k as int),
        decreases cursor - k,
    {
        assert(ls[k as int] == lines@[k as int]@);
        let text = match comment_text_exec(&lines[k]) {
            Some(t) => t,
            None => {
                assert(comment_text(ls[k as int]) is Some);
                return None;
            },
        };
        let ghost before = block@;
        block.push(text);
        assert(views(block@) =~= views(before).push(text@));
        k = k + 1;
    }
    if block.len() == 0 {
        return None;
    }
    let tag = chars_of("TRANSLATORS");
    let nl: Vec<char> = vec!['\n'];
    assert(nl@ =~= seq!['\n']);
    assert(views(block@)[0] == block@[0]@);
    if starts_with(&block[0], &tag) {
        Some(string_of(&join_exec(&block, &nl)))
    } else {
        None
    }
}

/// The decoded text of a literal read.
pub open spec fn lit_text(r: Option<(Seq<char>, int)>) -> Seq<char> {
    match r {
        Some((t, e)) => t,
        None => seq![],
    }
}

/// The index just past a literal read.
pub open spec fn lit_end(r: Option<(Seq<char>, int)>) -> int {
    match r {
        Some((t, e)) => e,
        None => 0,
    }
}

/// Whether the character before `i` would make a call there the tail of a longer identifier
/// (`putText(`, `xnt(`).
pub open spec fn ident_before(s: Seq<char>, i: int) -> bool {
    i > 0 && (unicode_alphanumeric(s[i - 1]) || s[i - 1] == '_')
}

pub open spec fn t_call_at(s: Seq<char>, i: int) -> bool {
    0 <= i && i + 1 < s.len() && s[i] == 't' && s[i + 1] == '(' && !ident_before(s, i)
}

pub open spec fn nt_call_at(s: Seq<char>, i: int) -> bool {
    0 <= i && i + 2 < s.len() && s[i] == 'n' && s[i + 1] == 't' && s[i + 2] == '('
        && !ident_before(s, i)
}

/// The note above the call at `i` (see [`translators_note`]).
pub open spec fn note_for_call(s: Seq<char>, i: int) -> Option<Seq<char>> {
    translators_note(lines_of(s), newlines_before(s, i) as int)
}

/// The non-empty `t("...")` texts from index `i` on, each with its note; scanning resumes
/// after each literal read.
pub open spec fn t_strings_from(s: Seq<char>, i: int) -> Seq<(Seq<char>, Option<Seq<char>>)>
    decreases s.len() - i,
{
    if i < 0 || i >= s.len() {
        seq![]
    } else if t_call_at(s, i) && literal_at(s, i + 2) is Some {
        proof {
            lemma_literal_end(s, i + 2);
        }
        let text = lit_text(literal_at(s, i + 2));
        let next = lit_end(literal_at(s, i + 2));
        let found = if text.len() > 0 {
            seq![(text, note_for_call(s, i))]
        } else {
            seq![]
        };
        found + t_strings_from(s, next)
    } else {
        t_strings_from(s, i + 1)
    }
}

/// Where the plural literal of an `nt(` call at `i` is looked for: past the singular
/// literal and the whitespace and commas after it.
pub open spec fn plural_pos(s: Seq<char>, i: int) -> int {
    skip_ws_commas(s, lit_end(literal_at(s, i + 3)))
}

/// The `nt("...", "...", ...)` pairs from index `i` on whose texts are both non-empty, each
/// with its note; scanning resumes after the plural literal of each call read.
pub open spec fn nt_strings_from(s: Seq<char>, i: int) -> Seq<
    (Seq<char>, Seq<char>, Option<Seq<char>>),
>
    decreases s.len() - i,
{
    if i < 0 || i >= s.len() {
        seq![]
    } else if nt_call_at(s, i) && literal_at(s, i + 3) is Some && literal_at(
        s,
        plural_pos(s, i),
    ) is Some {
        proof {
            lemma_literal_end(s, i + 3);
            lemma_skip_ws(s, lit_end(literal_at(s, i + 3)));
            lemma_literal_end(s, plural_pos(s, i));
        }
        let singular = lit_text(literal_at(s, i + 3));
        let plural = lit_text(literal_at(s, plural_pos(s, i)));
        let next = lit_end(literal_at(s, plural_pos(s, i)));
        let found = if singular.len() > 0 && plural.len() > 0 {
            seq![(singular, plural, note_for_call(s, i))]
        } else {
            seq![]
        };
        found + nt_strings_from(s, next)
    } else {
        nt_strings_from(s, i + 1)
    }
}

pub open spec fn text_note_views(v: Seq<(String, Option<String>)>) -> Seq<
    (Seq<char>, Option<Seq<char>>),
> {
    v.map_values(|p: (String, Option<String>)| (p.0@, opt_view(p.1)))
}

pub open spec fn pair_note_views(v: Seq<(String, String, Option<String>)>) -> Seq<
    (Seq<char>, Seq<char>, Option<Seq<char>>),
> {
    v.map_values(|p: (String, String, Option<String>)| (p.0@, p.1@, opt_view(p.2)))
}

fn preceded_by_ident(chars: &[char], i: usize) -> (r: bool)
    requires
        i < chars.len(),
    ensures
        r == ident_before(chars@, i as int),
{
    i > 0 && (is_alphanumeric(chars[i - 1]) || chars[i - 1] == '_')
}

/// Every non-empty `t("literal")` value in `content`, each with the `TRANSLATORS:` note
/// written above it, if any. A `t(` preceded by an alphanumeric character or an underscore
/// (as in `putText(`) is not a call.
pub fn extract_t_strings(content: &str) -> (r: Vec<(String, Option<String>)>)
    ensures
        text_note_views(r@) == t_strings_from(content@, 0),
{
    let chars = chars_of(content);
    let lines = split_lines(&chars);
    let line_of = line_of_each_char(&chars);
    let n = chars.len();
    let mut out: Vec<(String, Option<String>)> = Vec::new();
    let mut i: usize = 0;
    while i < n
        invariant
            i <= n,
            n == chars.len(),
            chars@ == content@,
            views(lines@) == lines_of(content@),
            line_of.len() == n + 1,
            forall|k: int| 0 <= k <= n ==> line_of@[k] == newlines_before(chars@, k),
            t_strings_from(content@, 0) == text_note_views(out@) + t_strings_from(
                content@,
                i as int,
            ),
        decreases n - i,
    {
        if chars[i] == 't' && i + 1 < n && chars[i + 1] == '(' && !preceded_by_ident(&chars, i) {
            match read_string_literal(&chars, i + 2) {
                Some((text, next)) => {
                    proof {
                        lemma_literal_end(chars@, i + 2);
                    }
                    let ghost before = out@;
                    if !text.as_str().is_empty() {
                        proof {
                            lemma_line_exists(chars@, i as int);
                        }
                        let note = translators_comment_before(&lines, line_of[i]);
                        out.push((text, note));
                        assert(text_note_views(out@) =~= text_note_views(before) + seq![
                            (text@, opt_view(note)),
                        ]);
                    } else {
                        assert(text_note_views(out@) =~= text_note_views(before) + seq![]);
                    }
                    i = next;
                    continue;
                },
                None => {},
            }
        }
        i = i + 1;
    }
    assert(text_note_views(out@) + Seq::empty() =~= text_note_views(out@));
    out
}

/// Every `nt("singular", "plural", ...)` call's literal pair in `content` whose texts are
/// both non-empty, each with the `TRANSLATORS:` note written above it, if any. The third
/// (count) argument is ignored; the identifier-boundary rule is that of
/// [`extract_t_strings`].
pub fn extract_nt_strings(content: &str) -> (r: Vec<(String, String, Option<String>)>)
    ensures
        pair_note_views(r@) == nt_strings_from(content@, 0),
{
    let chars = chars_of(content);
    let lines = split_lines(&chars);
    let line_of = line_of_each_char(&chars);
    let n = chars.len();
    let mut out: Vec<(String, String, Option<String>)> = Vec::new();
    let mut i: usize = 0;
    while i < n
        invariant
            i <= n,
            n == chars.len(),
            chars@ == content@,
            views(lines@) == lines_of(content@),
            line_of.len() == n + 1,
            forall|k: int| 0 <= k <= n ==> line_of@[k] == newlines_before(chars@, k),
            nt_strings_from(content@, 0) == pair_note_views(out@) + nt_strings_from(
                content@,
                i as int,
            ),
        decreases n - i,
    {
        if chars[i] == 'n' && i + 1 < n && chars[i + 1] == 't' && i + 2 < n && chars[i + 2] == '('
            && !preceded_by_ident(&chars, i) {
            match read_string_literal(&chars, i + 3) {
                Some((singular, after_singular)) => {
                    proof {
                        lemma_literal_end(chars@, i + 3);
                    }
                    let mut j = after_singular;
                    while j < n && (ascii_white_space(chars[j]) || chars[j] == ',')
                        invariant
                            after_singular <= j,
                            n == chars.len(),
                            skip_ws_commas(chars@, after_singular as int) == skip_ws_commas(
                                chars@,
                                j as int,
                            ),
                        decreases n - j,
                    {
                        j = j + 1;
                    }
                    match read_string_literal(&chars, j) {
                        Some((plural, after_plural)) => {
                            proof {
                                lemma_literal_end(chars@, j as int);
                            }
                            let ghost before = out@;
                            if !singular.as_str().is_empty() && !plural.as_str().is_empty() {
                                proof {
                                    lemma_line_exists(chars@, i as int);
                                }
                                let note = translators_comment_before(&lines, line_of[i]);
                                out.push((singular, plural, note));
                                assert(pair_note_views(out@) =~= pair_note_views(before) + seq![
                                    (singular@, plural@, opt_view(note)),
                                ]);
                            } else {
                                assert(pair_note_views(out@) =~= pair_note_views(before)
                                    + seq![]);
                            }
                            i = after_plural;
                            continue;
                        },
                        None => {},
                    }
                },
                None => {},
            }
        }
        i = i + 1;
    }
    assert(pair_note_views(out@) + Seq::empty() =~= pair_note_views(out@));
    out
}

/// `s` with every leading repetition of `p` removed (`str::trim_start_matches`).
pub open spec fn strip_repeated(s: Seq<char>, p: Seq<char>) -> Seq<char>
    decreases s.len(),
{
    if p.len() > 0 && has_prefix(s, p) {
        strip_repeated(s.skip(p.len() as int), p)
    } else {
        s
    }
}

/// The index of the first line from `i` on that starts with `msgid `.
pub open spec fn first_msgid_line(lines: Seq<Seq<char>>, i: int) -> Option<int>
    decreases lines.len() - i,
{
    if i < 0 || i >= lines.len() {
        None
    } else if has_prefix(lines[i], "msgid "@) {
        Some(i)
    } else {
        first_msgid_line(lines, i + 1)
    }
}

/// The decoded values of the `"`-continuation lines from `k` on.
pub open spec fn continuation(lines: Seq<Seq<char>>, k: int) -> Seq<char>
    decreases lines.len() - k,
{
    if 0 <= k < lines.len() && has_prefix(lines[k], seq!['"']) {
        unescape(lines[k]) + continuation(lines, k + 1)
    } else {
        seq![]
    }
}

/// The decoded `msgid` of one entry's lines, with its continuation lines.
pub open spec fn block_msgid_spec(lines: Seq<Seq<char>>) -> Option<Seq<char>> {
    match first_msgid_line(lines, 0) {
        None => None,
        Some(st) => Some(
            unescape(strip_repeated(lines[st], "msgid "@)) + continuation(lines, st + 1),
        ),
    }
}

proof fn lemma_first_msgid_line(lines: Seq<Seq<char>>, i: int)
    requires
        0 <= i,
    ensures
        first_msgid_line(lines, i) matches Some(k) ==> i <= k < lines.len(),
    decreases lines.len() - i,
{
    if i < lines.len() && !has_prefix(lines[i], "msgid "@) {
        lemma_first_msgid_line(lines, i + 1);
    }
}

fn strip_repeated_exec(s: &[char], p: &[char]) -> (r: Vec<char>)
    requires
        p.len() > 0,
    ensures
        r@ == strip_repeated(s@, p@),
{
    let mut cur = skip(s, 0);
    assert(cur@ =~= s@);
    while starts_with(&cur, p)
        invariant
            p.len() > 0,
            strip_repeated(s@, p@) == strip_repeated(cur@, p@),
        decreases cur.len(),
    {
        cur = skip(&cur, p.len());
    }
    cur
}

/// The decoded `msgid` of one pot entry's lines, following its continuation lines.
pub fn block_msgid(lines: &[Vec<char>]) -> (r: Option<String>)
    ensures
        opt_view(r) == block_msgid_spec(views(lines@)),
{
    let ghost ls = views(lines@);
    let kw = chars_of("msgid ");
    let mut start: usize = 0;
    while start < lines.len() && !starts_with(&lines[start], &kw)
        invariant
            start <= lines.len(),
            ls == views(lines@),
            kw@ == "msgid "@,
            first_msgid_line(ls, 0) == first_msgid_line(ls, start as int),
        decreases lines.len() - start,
    {
        assert(ls[start as int] == lines@[start as int]@);
        start = start + 1;
    }
    if start == lines.len() {
        return None;
    }
    assert(ls[start as int] == lines@[start as int]@);
    assert(kw@.len() > 0) by {
        reveal_strlit("msgid ");
    }
    let mut msgid = unescape_exec(&strip_repeated_exec(&lines[start], &kw));
    let ghost head = msgid@;
    let mut k = start + 1;
    while k < lines.len() && starts_with_char(&lines[k], '"')
        invariant
            start < k <= lines.len(),
            ls == views(lines@),
            head + continuation(ls, start + 1) == msgid@ + continuation(ls, k as int),
        decreases lines.len() - k,
    {
        assert(ls[k as int] == lines@[k as int]@);
        let u = unescape_exec(&lines[k]);
        let ghost before = msgid@;
        append(&mut msgid, &u);
        assert(before + (u@ + continuation(ls, k + 1)) =~= msgid@ + continuation(ls, k + 1));
        k = k + 1;
    }
    if k < lines.len() {
        assert(ls[k as int] == lines@[k as int]@);
    }
    assert(msgid@ + continuation(ls, k as int) =~= msgid@);
    Some(string_of(&msgid))
}

/// The note the scan found for `msgid`, when it found the msgid at all; the last pair
/// naming it wins, as when the pairs are collected into a map.
pub open spec fn note_lookup(notes: Seq<(Seq<char>, Option<Seq<char>>)>, msgid: Seq<char>) -> Option<
    Option<Seq<char>>,
>
    decreases notes.len(),
{
    if notes.len() == 0 {
        None
    } else if notes.last().0 == msgid {
        Some(notes.last().1)
    } else {
        note_lookup(notes.drop_last(), msgid)
    }
}

/// The index of the first line from `k` on that is not blank.
pub open spec fn leading_blank_lines(lines: Seq<Seq<char>>, k: int) -> int
    decreases lines.len() - k,
{
    if 0 <= k < lines.len() && trim(lines[k]).len() == 0 {
        leading_blank_lines(lines, k + 1)
    } else {
        k
    }
}

/// A note as `#. ` lines, one per line of its text.
pub open spec fn marked_note(text: Seq<char>) -> Seq<Seq<char>> {
    lines_of(text).map_values(|l: Seq<char>| "#. "@ + l)
}

/// The lines that are not `#.` notes, in order.
pub open spec fn without_notes(lines: Seq<Seq<char>>) -> Seq<Seq<char>>
    decreases lines.len(),
{
    if lines.len() == 0 {
        seq![]
    } else if has_prefix(lines.last(), "#."@) {
        without_notes(lines.drop_last())
    } else {
        without_notes(lines.drop_last()).push(lines.last())
    }
}

/// Whether a line of the entry, trimmed, is the scan's `#:` reference.
pub open spec fn owns_block(lines: Seq<Seq<char>>, reference: Seq<char>) -> bool {
    exists|k: int| 0 <= k < lines.len() && trim(#[trigger] lines[k]) == reference
}

/// One blank-line-separated block of a pot with the notes of an entry the scan owns brought
/// up to date; any other block, or one whose msgid the scan did not find, is kept as it is.
pub open spec fn refreshed_block(
    block: Seq<char>,
    notes: Seq<(Seq<char>, Option<Seq<char>>)>,
    reference: Seq<char>,
) -> Seq<char> {
    let lines = lines_of(block);
    if !owns_block(lines, reference) {
        block
    } else {
        match block_msgid_spec(lines) {
            None => block,
            Some(id) => match note_lookup(notes, id) {
                None => block,
                Some(note) => {
                    let lead = leading_blank_lines(lines, 0);
                    let noted = match note {
                        Some(t) => marked_note(t),
                        None => seq![],
                    };
                    let rebuilt = lines.take(lead) + noted + without_notes(lines.skip(lead));
                    join(rebuilt, seq!['\n']) + if has_suffix(block, seq!['\n']) {
                        seq!['\n']
                    } else {
                        seq![]
                    }
                },
            },
        }
    }
}

/// A pot with the `#.` notes on the entries carrying the scan's `#: <extension>` reference
/// replaced by the notes the scan found now.
pub open spec fn refreshed(
    content: Seq<char>,
    notes: Seq<(Seq<char>, Option<Seq<char>>)>,
    extension: Seq<char>,
) -> Seq<char> {
    join(
        split_on(content, "\n\n"@).map_values(
            |b: Seq<char>| refreshed_block(b, notes, "#: "@ + extension),
        ),
        "\n\n"@,
    )
}

fn opt_string_clone(o: &Option<String>) -> (r: Option<String>)
    ensures
        opt_view(r) == opt_view(*o),
{
    match o {
        Some(s) => Some(s.clone()),
        None => None,
    }
}

fn note_lookup_exec(notes: &[(String, Option<String>)], msgid: &[char]) -> (r: Option<
    Option<String>,
>)
    ensures
        (match r {
            Some(o) => Some(opt_view(o)),
            None => None::<Option<Seq<char>>>,
        }) == note_lookup(text_note_views(notes@), msgid@),
{
    let ghost nv = text_note_views(notes@);
    let mut k = notes.len();
    assert(nv.take(k as int) =~= nv);
    while k > 0
        invariant
            k <= notes.len(),
            nv == text_note_views(notes@),
            note_lookup(nv, msgid@) == note_lookup(nv.take(k as int), msgid@),
        decreases k,
    {
        let key = chars_of(notes[k - 1].0.as_str());
        assert(nv.take(k as int).drop_last() =~= nv.take(k - 1));
        assert(nv.take(k as int).last() == nv[k - 1]);
        assert(nv[k - 1] == (notes@[k - 1].0@, opt_view(notes@[k - 1].1)));
        if eq(&key, msgid) {
            return Some(opt_string_clone(&notes[k - 1].1));
        }
        k = k - 1;
    }
    None
}

fn marked_note_exec(text: &str) -> (r: Vec<Vec<char>>)
    ensures
        views(r@) == marked_note(text@),
{
    let tv = chars_of(text);
    let lines = split_lines(&tv);
    let marker = chars_of("#. ");
    let mut out: Vec<Vec<char>> = Vec::new();
    let mut i: usize = 0;
    while i < lines.len()
        invariant
            i <= lines.len(),
            views(lines@) == lines_of(text@),
            marker@ == "#. "@,
            views(out@) == marked_note(text@).take(i as int),
        decreases lines.len() - i,
    {
        let mut line = copy_of(&marker);
        append(&mut line, &lines[i]);
        let ghost before = out@;
        out.push(line);
        assert(views(lines@)[i as int] == lines@[i as int]@);
        assert(views(out@) =~= views(before).push("#. "@ + lines@[i as int]@));
        assert(views(out@) =~= marked_note(text@).take(i + 1));
        i = i + 1;
    }
    assert(marked_note(text@).take(i as int) =~= marked_note(text@));
    out
}

/// Appends the lines of `lines[from..]` that are not `#.` notes.
fn push_without_notes(out: &mut Vec<Vec<char>>, lines: &[Vec<char>], from: usize)
    requires
        from <= lines.len(),
    ensures
        views(final(out)@) == views(old(out)@) + without_notes(views(lines@).skip(from as int)),
{
    let ghost ls = views(lines@);
    let ghost start = views(out@);
    let notes_kw: Vec<char> = vec!['#', '.'];
    assert(notes_kw@ =~= "#."@) by {
        reveal_strlit("#.");
    }
    let mut k = from;
    while k < lines.len()
        invariant
            from <= k <= lines.len(),
            ls == views(lines@),
            notes_kw@ == "#."@,
            views(out@) == start + without_notes(ls.subrange(from as int, k as int)),
        decreases lines.len() - k,
    {
        assert(ls.subrange(from as int, k + 1).drop_last() =~= ls.subrange(from as int, k as int));
        assert(ls.subrange(from as int, k + 1).last() == lines@[k as int]@);
        if !starts_with(&lines[k], &notes_kw) {
            let ghost before = out@;
            out.push(copy_of(&lines[k]));
            assert(views(out@) =~= views(before).push(lines@[k as int]@));
        }
        k = k + 1;
    }
    assert(ls.subrange(from as int, k as int) =~= ls.skip(from as int));
}

fn refresh_block(block: &[char], notes: &[(String, Option<String>)], reference: &[char]) -> (r: Vec<
    char,
>)
    ensures
        r@ == refreshed_block(block@, text_note_views(notes@), reference@),
{
    let lines = split_lines(block);
    let ghost ls = views(lines@);
    let mut owned = false;
    let mut k: usize = 0;
    while k < lines.len()
        invariant
            k <= lines.len(),
            ls == views(lines@),
            ls == lines_of(block@),
            !owned ==> forall|j: int| 0 <= j < k ==> trim(#[trigger] ls[j]) != reference@,
            owned ==> owns_block(ls, reference@),
        decreases lines.len() - k,
    {
        assert(ls[k as int] == lines@[k as int]@);
        if eq(&trim_vec(&lines[k]), reference) {
            owned = true;
        }
        k = k + 1;
    }
    if !owned {
        return copy_of(block);
    }
    let id = match block_msgid(&lines) {
        Some(id) => id,
        None => {
            return copy_of(block);
        },
    };
    let note = match note_lookup_exec(notes, &chars_of(id.as_str())) {
        Some(note) => note,
        None => {
            return copy_of(block);
        },
    };
    let mut lead: usize = 0;
    while lead < lines.len() && trim_vec(&lines[lead]).len() == 0
        invariant
            lead <= lines.len(),
            ls == views(lines@),
            leading_blank_lines(ls, 0) == leading_blank_lines(ls, lead as int),
        decreases lines.len() - lead,
    {
        assert(ls[lead as int] == lines@[lead as int]@);
        lead = lead + 1;
    }
    if lead < lines.len() {
        assert(ls[lead as int] == lines@[lead as int]@);
    }
    let mut rebuilt: Vec<Vec<char>> = Vec::new();
    let mut j: usize = 0;
    while j < lead
        invariant
            j <= lead <= lines.len(),
            ls == views(lines@),
            views(rebuilt@) == ls.take(j as int),
        decreases lead - j,
    {
        let ghost before = rebuilt@;
        rebuilt.push(copy_of(&lines[j]));
        assert(views(rebuilt@) =~= views(before).push(lines@[j as int]@));
        j = j + 1;
        assert(views(rebuilt@) =~= ls.take(j as int));
    }
    let ghost noted: Seq<Seq<char>> = match opt_view(note) {
        Some(t) => marked_note(t),
        None => seq![],
    };
    match &note {
        Some(t) => {
            let m = marked_note_exec(t.as_str());
            let mut q: usize = 0;
            let ghost base = views(rebuilt@);
            while q < m.len()
                invariant
                    q <= m.len(),
                    views(rebuilt@) == base + views(m@).take(q as int),
                decreases m.len() - q,
            {
                let ghost before = rebuilt@;
                rebuilt.push(copy_of(&m[q]));
                assert(views(rebuilt@) =~= views(before).push(m@[q as int]@));
                q = q + 1;
                assert(views(rebuilt@) =~= base + views(m@).take(q as int));
            }
            assert(views(m@).take(q as int) =~= views(m@));
        },
        None => {},
    }
    assert(views(rebuilt@) =~= ls.take(lead as int) + noted);
    push_without_notes(&mut rebuilt, &lines, lead);
    let nl: Vec<char> = vec!['\n'];
    assert(nl@ =~= seq!['\n']);
    let mut out = join_exec(&rebuilt, &nl);
    if ends_with(block, &nl) {
        out.push('\n');
    }
    assert(out@ =~= refreshed_block(block@, text_note_views(notes@), reference@));
    out
}

/// Bring the `#.` notes on the entries this scan owns (those carrying its `#: <extension>`
/// reference) into line with what the sources now say: `notes` pairs each msgid the scan
/// found with its note. Entries carrying another reference, or none, are left untouched, and
/// so is an owned entry whose msgid the scan did not find.
pub fn refresh_foreign_comments(
    content: &str,
    notes: &[(String, Option<String>)],
    extension: &str,
) -> (r: String)
    ensures
        r@ == refreshed(content@, text_note_views(notes@), extension@),
{
    let cv = chars_of(content);
    let sep = chars_of("\n\n");
    assert(sep@.len() == 2) by {
        reveal_strlit("\n\n");
    }
    let blocks = split_on_exec(&cv, &sep);
    let mut reference = chars_of("#: ");
    append(&mut reference, &chars_of(extension));
    let ghost bs = views(blocks@);
    let ghost f = |b: Seq<char>| refreshed_block(b, text_note_views(notes@), "#: "@ + extension@);
    let mut out: Vec<Vec<char>> = Vec::new();
    let mut i: usize = 0;
    while i < blocks.len()
        invariant
            i <= blocks.len(),
            bs == views(blocks@),
            reference@ == "#: "@ + extension@,
            f == (|b: Seq<char>| refreshed_block(b, text_note_views(notes@), "#: "@ + extension@)),
            views(out@) == bs.take(i as int).map_values(f),
        decreases blocks.len() - i,
    {
        let b = refresh_block(&blocks[i], notes, &reference);
        let ghost before = out@;
        out.push(b);
        assert(views(out@) =~= views(before).push(b@));
        assert(bs[i as int] == blocks@[i as int]@);
        i = i + 1;
        assert(views(out@) =~= bs.take(i as int).map_values(f));
    }
    assert(bs.take(i as int) =~= bs);
    string_of(&join_exec(&out, &sep))
}

/// The entries one source file yields, its `t(...)` calls first and then its `nt(...)`
/// calls, each stamped with the scan's `extension` as its reference.
pub open spec fn scan_candidates(content: Seq<char>, extension: Seq<char>) -> Seq<PotEntryView> {
    t_strings_from(content, 0).map_values(
        |p: (Seq<char>, Option<Seq<char>>)|
            PotEntryView {
                msgid: p.0,
                msgid_plural: None,
                reference: Some(extension),
                comment: p.1,
            },
    ) + nt_strings_from(content, 0).map_values(
        |p: (Seq<char>, Seq<char>, Option<Seq<char>>)|
            PotEntryView {
                msgid: p.0,
                msgid_plural: Some(p.1),
                reference: Some(extension),
                comment: p.2,
            },
    )
}

/// The entries of all the source files, file by file.
pub open spec fn all_candidates(sources: Seq<Seq<char>>, extension: Seq<char>) -> Seq<
    PotEntryView,
>
    decreases sources.len(),
{
    if sources.len() == 0 {
        seq![]
    } else {
        all_candidates(sources.drop_last(), extension) + scan_candidates(
            sources.last(),
            extension,
        )
    }
}

/// Whether an entry with this msgid is among `es`.
pub open spec fn has_msgid(es: Seq<PotEntryView>, msgid: Seq<char>) -> bool {
    exists|j: int| 0 <= j < es.len() && (#[trigger] es[j]).msgid == msgid
}

/// The entries with the first one of each msgid kept, in order.
pub open spec fn first_by_msgid(es: Seq<PotEntryView>) -> Seq<PotEntryView>
    decreases es.len(),
{
    if es.len() == 0 {
        seq![]
    } else if has_msgid(first_by_msgid(es.drop_last()), es.last().msgid) {
        first_by_msgid(es.drop_last())
    } else {
        first_by_msgid(es.drop_last()).push(es.last())
    }
}

/// The blocks appended to the pot: one per entry whose msgid the pot does not have yet.
pub open spec fn appended_blocks(es: Seq<PotEntryView>, ids: Seq<Seq<char>>) -> Seq<char>
    decreases es.len(),
{
    if es.len() == 0 {
        seq![]
    } else if ids.contains(es.last().msgid) {
        appended_blocks(es.drop_last(), ids)
    } else {
        appended_blocks(es.drop_last(), ids) + entry_block(es.last())
    }
}

/// What a scan of `sources` makes of the pot `existing`: its notes refreshed and the new
/// entries appended; `None` when the scan found nothing, or nothing that changes the pot.
pub open spec fn extended_pot(
    existing: Seq<char>,
    sources: Seq<Seq<char>>,
    extension: Seq<char>,
) -> Option<Seq<char>> {
    let found = first_by_msgid(all_candidates(sources, extension));
    if found.len() == 0 {
        None
    } else {
        let ids = collect_entries(existing).map_values(|e: PotEntryView| e.msgid);
        let notes = found.map_values(|e: PotEntryView| (e.msgid, e.comment));
        let kept = refreshed(existing, notes, extension);
        let additions = appended_blocks(found, ids);
        if additions.len() > 0 || kept != existing {
            Some(kept + additions)
        } else {
            None
        }
    }
}

fn contains_string(v: &[String], s: &[char]) -> (r: bool)
    ensures
        r == string_views(v@).contains(s@),
{
    let mut k: usize = 0;
    while k < v.len()
        invariant
            k <= v.len(),
            forall|j: int| 0 <= j < k ==> string_views(v@)[j] != s@,
        decreases v.len() - k,
    {
        if eq(&chars_of(v[k].as_str()), s) {
            assert(string_views(v@)[k as int] == s@);
            return true;
        }
        k = k + 1;
    }
    false
}

fn has_msgid_exec(es: &[PotEntry], msgid: &[char]) -> (r: bool)
    ensures
        r == has_msgid(entry_views(es@), msgid@),
{
    let mut k: usize = 0;
    while k < es.len()
        invariant
            k <= es.len(),
            forall|j: int| 0 <= j < k ==> entry_views(es@)[j].msgid != msgid@,
        decreases es.len() - k,
    {
        if eq(&chars_of(es[k].msgid.as_str()), msgid) {
            assert(entry_views(es@)[k as int].msgid == msgid@);
            return true;
        }
        k = k + 1;
    }
    false
}

/// Adds `e` to `found` unless an entry with its msgid is there already.
fn keep_first(found: &mut Vec<PotEntry>, e: PotEntry)
    ensures
        entry_views(final(found)@) == (if has_msgid(entry_views(old(found)@), e@.msgid) {
            entry_views(old(found)@)
        } else {
            entry_views(old(found)@).push(e@)
        }),
{
    let id = chars_of(e.msgid.as_str());
    if !has_msgid_exec(found, &id) {
        let ghost before = found@;
        found.push(e);
        assert(entry_views(found@) =~= entry_views(before).push(e@));
    }
}

/// Extends an existing pot with what a scan of other-language sources turned up: the
/// `#.` notes on the entries this scan owns are brought up to date (see
/// [`refresh_foreign_comments`]) and every entry whose msgid the pot lacks is appended, each
/// stamped with `extension` as its `#:` reference. `sources` are the contents of the scanned
/// files, in scan order; the first entry of each msgid wins. Returns the pot's new content,
/// or `None` when there is nothing to write.
pub fn extend_pot_content(existing: &str, sources: &[String], extension: &str) -> (r: Option<
    String,
>)
    ensures
        opt_view(r) == extended_pot(existing@, string_views(sources@), extension@),
{
    let ghost srcs = string_views(sources@);
    let ext = string_of(&chars_of(extension));
    let mut found: Vec<PotEntry> = Vec::new();
    let mut f: usize = 0;
    assert(srcs.take(0) =~= Seq::<Seq<char>>::empty());
    while f < sources.len()
        invariant
            f <= sources.len(),
            srcs == string_views(sources@),
            ext@ == extension@,
            entry_views(found@) == first_by_msgid(all_candidates(srcs.take(f as int), extension@)),
        decreases sources.len() - f,
    {
        let content = sources[f].as_str();
        let ghost cands = all_candidates(srcs.take(f as int), extension@);
        let ts = extract_t_strings(content);
        let nts = extract_nt_strings(content);
        let ghost tv = t_strings_from(content@, 0).map_values(
            |p: (Seq<char>, Option<Seq<char>>)|
                PotEntryView {
                    msgid: p.0,
                    msgid_plural: None,
                    reference: Some(extension@),
                    comment: p.1,
                },
        );
        let ghost ntv = nt_strings_from(content@, 0).map_values(
            |p: (Seq<char>, Seq<char>, Option<Seq<char>>)|
                PotEntryView {
                    msgid: p.0,
                    msgid_plural: Some(p.1),
                    reference: Some(extension@),
                    comment: p.2,
                },
        );
        let mut k: usize = 0;
        while k < ts.len()
            invariant
                k <= ts.len(),
                ext@ == extension@,
                text_note_views(ts@) == t_strings_from(content@, 0),
                tv.len() == ts.len(),
                forall|j: int| 0 <= j < tv.len() ==> #[trigger] tv[j] == (PotEntryView {
                    msgid: text_note_views(ts@)[j].0,
                    msgid_plural: None,
                    reference: Some(extension@),
                    comment: text_note_views(ts@)[j].1,
                }),
                entry_views(found@) == first_by_msgid(cands + tv.take(k as int)),
            decreases ts.len() - k,
        {
            let e = PotEntry {
                msgid: ts[k].0.clone(),
                msgid_plural: None,
                reference: Some(ext.clone()),
                comment: opt_string_clone(&ts[k].1),
            };
            assert(text_note_views(ts@)[k as int] == (ts@[k as int].0@, opt_view(ts@[k as int].1)));
            assert(e@ == tv[k as int]);
            keep_first(&mut found, e);
            assert((cands + tv.take(k + 1)).drop_last() =~= cands + tv.take(k as int));
            k = k + 1;
        }
        assert(tv.take(k as int) =~= tv);
        let mut k: usize = 0;
        while k < nts.len()
            invariant
                k <= nts.len(),
                ext@ == extension@,
                pair_note_views(nts@) == nt_strings_from(content@, 0),
                ntv.len() == nts.len(),
                forall|j: int| 0 <= j < ntv.len() ==> #[trigger] ntv[j] == (PotEntryView {
                    msgid: pair_note_views(nts@)[j].0,
                    msgid_plural: Some(pair_note_views(nts@)[j].1),
                    reference: Some(extension@),
                    comment: pair_note_views(nts@)[j].2,
                }),
                entry_views(found@) == first_by_msgid(cands + tv + ntv.take(k as int)),
            decreases nts.len() - k,
        {
            let e = PotEntry {
                msgid: nts[k].0.clone(),
                msgid_plural: Some(nts[k].1.clone()),
                reference: Some(ext.clone()),
                comment: opt_string_clone(&nts[k].2),
            };
            assert(pair_note_views(nts@)[k as int] == (
                nts@[k as int].0@,
                nts@[k as int].1@,
                opt_view(nts@[k as int].2),
            ));
            assert(e@ == ntv[k as int]);
            keep_first(&mut found, e);
            assert((cands + tv + ntv.take(k + 1)).drop_last() =~= cands + tv + ntv.take(k as int));
            k = k + 1;
        }
        assert(ntv.take(k as int) =~= ntv);
        assert(srcs.take(f + 1).drop_last() =~= srcs.take(f as int));
        assert(srcs.take(f + 1).last() == content@);
        assert(cands + tv + ntv =~= all_candidates(srcs.take(f + 1), extension@));
        f = f + 1;
    }
    assert(srcs.take(f as int) =~= srcs);
    if found.len() == 0 {
        return None;
    }
    let existing_ids = collect_pot_msgids(existing);
    let mut notes: Vec<(String, Option<String>)> = Vec::new();
    let mut k: usize = 0;
    let ghost fv = entry_views(found@);
    while k < found.len()
        invariant
            k <= found.len(),
            fv == entry_views(found@),
            text_note_views(notes@) == fv.take(k as int).map_values(
                |e: PotEntryView| (e.msgid, e.comment),
            ),
        decreases found.len() - k,
    {
        let ghost before = notes@;
        notes.push((found[k].msgid.clone(), opt_string_clone(&found[k].comment)));
        assert(text_note_views(notes@) =~= text_note_views(before).push(
            (fv[k as int].msgid, fv[k as int].comment),
        ));
        k = k + 1;
        assert(text_note_views(notes@) =~= fv.take(k as int).map_values(
            |e: PotEntryView| (e.msgid, e.comment),
        ));
    }
    assert(fv.take(k as int) =~= fv);
    let refreshed_pot = refresh_foreign_comments(existing, &notes, extension);
    let ghost ids = collect_entries(existing@).map_values(|e: PotEntryView| e.msgid);
    let mut additions: Vec<char> = Vec::new();
    let mut k: usize = 0;
    while k < found.len()
        invariant
            k <= found.len(),
            fv == entry_views(found@),
            forall|x: Seq<char>| string_views(existing_ids@).contains(x) <==> ids.contains(x),
            additions@ == appended_blocks(fv.take(k as int), ids),
        decreases found.len() - k,
    {
        assert(fv.take(k + 1).drop_last() =~= fv.take(k as int));
        assert(fv.take(k + 1).last() == found@[k as int]@);
        if !contains_string(&existing_ids, &chars_of(found[k].msgid.as_str())) {
            let block = pot_entry_block(&found[k]);
            append(&mut additions, &chars_of(block.as_str()));
        }
        k = k + 1;
    }
    assert(fv.take(k as int) =~= fv);
    let kept = chars_of(refreshed_pot.as_str());
    if additions.len() > 0 || !eq(&kept, &chars_of(existing)) {
        let mut out = kept;
        append(&mut out, &additions);
        Some(string_of(&out))
    } else {
        None
    }
}

/// A pot in which no entry carries the scan's `#: <extension>` reference comes back from a
/// refresh unchanged, whatever notes the scan found.
pub proof fn law_refresh_keeps_foreign_pots(
    content: Seq<char>,
    notes: Seq<(Seq<char>, Option<Seq<char>>)>,
    extension: Seq<char>,
)
    requires
        forall|k: int|
            0 <= k < split_on(content, "\n\n"@).len() ==> !owns_block(
                lines_of(#[trigger] split_on(content, "\n\n"@)[k]),
                "#: "@ + extension,
            ),
    ensures
        refreshed(content, notes, extension) == content,
{
    reveal_strlit("\n\n");
    let blocks = split_on(content, "\n\n"@);
    let f = |b: Seq<char>| refreshed_block(b, notes, "#: "@ + extension);
    assert(blocks.map_values(f) =~= blocks) by {
        assert forall|k: int| 0 <= k < blocks.len() implies blocks.map_values(f)[k] == blocks[k] by {
            assert(!owns_block(lines_of(blocks[k]), "#: "@ + extension));
        }
    }
    lemma_join_split(content, "\n\n"@);
}

/// A blank line right above a call leaves it without a note: a note further up is never
/// carried down across one.
pub proof fn law_blank_line_detaches_notes(lines: Seq<Seq<char>>, line_index: int)
    requires
        0 < line_index <= lines.len(),
        trim(lines[line_index - 1]).len() == 0,
    ensures
        translators_note(lines, line_index) is None,
{
    reveal_strlit("//");
    assert(!has_prefix(trim(lines[line_index - 1]), "//"@));
}

} // verus!
