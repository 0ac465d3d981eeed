//! Laws on reading a `.po` file again after translations were written into it.
use vstd::prelude::*;

use crate::entries::{escape, unescape};
use crate::po::{
    after_msgid, comment_step, decimal, form_text, has_blank_form, is_plural_candidate, plural_lines, cont_len, cont_text, entry_at, entry_end, flag_block_start, forms,
    forms_len, has_msgstr, has_plural_at, indices_in, insert_desc, is_candidate, is_cont, is_form,
    lemma_cont_len, lemma_entry_end, lemma_insert_desc, lemma_scan_placed, lemma_sort_ops,
    msgstr_line, ops_of, placed, po_entries, render_lines, replacement, scan, scan_init, scan_ok,
    singular_line, sort_ops, splice, splice_all, well_placed, Op, PoEntryView, PoScan,
    TranslationView,
};
use crate::text::{
    contains, has_prefix, index_of, is_digit, lines_of, strip_cr, trim_start, without_prefix,
};

verus! {

/// Whether a line (leading whitespace removed) ends a run of continuation lines or of
/// `msgstr[N]` statements, and is neither a `msgid_plural` nor a `msgstr` line.
pub open spec fn neutral(t: Seq<char>) -> bool {
    &&& !has_prefix(t, seq!['"'])
    &&& !has_prefix(t, "msgid_plural "@)
    &&& !has_prefix(t, "msgstr "@)
    &&& !has_prefix(t, "msgstr["@)
}

/// Whether reading stops at line `j`: past the end, or at a neutral line.
pub open spec fn stops(l: Seq<Seq<char>>, j: int) -> bool {
    j >= l.len() || neutral(trim_start(l[j]))
}

/// A comment line and a msgid line are both neutral.
proof fn lemma_neutral(t: Seq<char>)
    requires
        has_prefix(t, seq!['#']) || has_prefix(t, "msgid "@),
    ensures
        neutral(t),
{
    reveal_strlit("msgid_plural ");
    reveal_strlit("msgstr ");
    reveal_strlit("msgstr[");
    reveal_strlit("msgid ");
    if has_prefix(t, seq!['#']) {
        assert(t[0] == t.take(1)[0]);
    } else {
        assert(t[0] == t.take(6)[0]);
        assert(t[3] == t.take(6)[3]);
        assert(t[5] == t.take(6)[5]);
    }
    if has_prefix(t, seq!['"']) {
        assert(t[0] == t.take(1)[0]);
    }
    if has_prefix(t, "msgid_plural "@) {
        assert(t[5] == t.take(13)[5]);
    }
    if has_prefix(t, "msgstr "@) {
        assert(t[3] == t.take(7)[3]);
        assert(t[0] == t.take(7)[0]);
    }
    if has_prefix(t, "msgstr["@) {
        assert(t[3] == t.take(7)[3]);
        assert(t[0] == t.take(7)[0]);
    }
}

/// Continuation lines read the same from two windows of lines that agree, when each window
/// is followed by a line that is not a continuation.
proof fn lemma_cont_window(l: Seq<Seq<char>>, a: int, m: Seq<Seq<char>>, b: int, n: int)
    requires
        0 <= a,
        0 <= b,
        0 <= n,
        a + n <= l.len(),
        b + n <= m.len(),
        l.subrange(a, a + n) == m.subrange(b, b + n),
        !is_cont(l, a + n),
        !is_cont(m, b + n),
    ensures
        cont_len(l, a) == cont_len(m, b),
        cont_len(l, a) <= n,
        cont_text(l, a) == cont_text(m, b),
    decreases n,
{
    if n > 0 {
        assert(l[a] == l.subrange(a, a + n)[0]);
        assert(m[b] == m.subrange(b, b + n)[0]);
        if is_cont(l, a) {
            assert(l.subrange(a + 1, a + n) =~= l.subrange(a, a + n).subrange(1, n));
            assert(m.subrange(b + 1, b + n) =~= m.subrange(b, b + n).subrange(1, n));
            lemma_cont_window(l, a + 1, m, b + 1, n - 1);
        }
    }
}

/// The same for a run of `msgstr[N]` statements, when each window is followed by a line
/// where reading stops.
proof fn lemma_forms_window(l: Seq<Seq<char>>, a: int, m: Seq<Seq<char>>, b: int, n: int)
    requires
        0 <= a,
        0 <= b,
        0 <= n,
        a + n <= l.len(),
        b + n <= m.len(),
        l.subrange(a, a + n) == m.subrange(b, b + n),
        stops(l, a + n),
        stops(m, b + n),
    ensures
        forms_len(l, a) == forms_len(m, b),
        forms_len(l, a) <= n,
        forms(l, a) == forms(m, b),
    decreases n,
{
    if n > 0 {
        assert(l[a] == l.subrange(a, a + n)[0]);
        assert(m[b] == m.subrange(b, b + n)[0]);
        if is_form(l, a) {
            assert(l.subrange(a + 1, a + n) =~= l.subrange(a, a + n).subrange(1, n));
            assert(m.subrange(b + 1, b + n) =~= m.subrange(b, b + n).subrange(1, n));
            lemma_cont_window(l, a + 1, m, b + 1, n - 1);
            let c = cont_len(l, a + 1) as int;
            assert(l.subrange(a + 1 + c, a + n) =~= l.subrange(a, a + n).subrange(1 + c, n));
            assert(m.subrange(b + 1 + c, b + n) =~= m.subrange(b, b + n).subrange(1 + c, n));
            lemma_forms_window(l, a + 1 + c, m, b + 1 + c, n - 1 - c);
        }
    } else {
        if a < l.len() {
            lemma_neutral_form(trim_start(l[a]));
        }
        if b < m.len() {
            lemma_neutral_form(trim_start(m[b]));
        }
    }
}

proof fn lemma_neutral_form(t: Seq<char>)
    requires
        neutral(t),
    ensures
        !has_prefix(t, "msgstr["@),
{
}

/// Two sets of lines that agree below line `p`, where reading stops in both, read the
/// entry whose msgid is on line `i < p` alike, and that entry ends by line `p`.
proof fn lemma_entry_agree(l: Seq<Seq<char>>, m: Seq<Seq<char>>, p: int, i: int, st: PoScan)
    requires
        0 <= i < p,
        p < l.len(),
        p < m.len(),
        l.take(p) == m.take(p),
        stops(l, p),
        stops(m, p),
        has_prefix(trim_start(l[i]), "msgid "@),
        scan_ok(st, 0, i),
    ensures
        has_msgstr(l, i) == has_msgstr(m, i),
        entry_end(l, i) == entry_end(m, i),
        entry_end(l, i) <= p,
        has_msgstr(l, i) ==> entry_at(l, i, st) == entry_at(m, i, st),
{
    assert(l[i] == l.take(p)[i]);
    assert(m[i] == m.take(p)[i]);
    assert(l.subrange(i + 1, p) =~= l.take(p).subrange(i + 1, p));
    assert(m.subrange(i + 1, p) =~= m.take(p).subrange(i + 1, p));
    lemma_cont_window(l, i + 1, m, i + 1, p - i - 1);
    let j = after_msgid(l, i);
    assert(j == after_msgid(m, i));
    if j < p {
        assert(l[j] == l.take(p)[j]);
        assert(m[j] == m.take(p)[j]);
    }
    if has_plural_at(l, i) || has_plural_at(m, i) {
        assert(j < p);
        assert(l.subrange(j + 1, p) =~= l.take(p).subrange(j + 1, p));
        assert(m.subrange(j + 1, p) =~= m.take(p).subrange(j + 1, p));
        lemma_cont_window(l, j + 1, m, j + 1, p - j - 1);
    }
    let k = msgstr_line(l, i);
    assert(k == msgstr_line(m, i));
    assert(k <= p);
    if k < p {
        assert(l[k] == l.take(p)[k]);
        assert(m[k] == m.take(p)[k]);
    }
    if has_msgstr(l, i) || has_msgstr(m, i) {
        assert(k < p);
        if has_plural_at(l, i) {
            assert(l.subrange(k, p) =~= l.take(p).subrange(k, p));
            assert(m.subrange(k, p) =~= m.take(p).subrange(k, p));
            lemma_forms_window(l, k, m, k, p - k);
        } else {
            assert(l.subrange(k + 1, p) =~= l.take(p).subrange(k + 1, p));
            assert(m.subrange(k + 1, p) =~= m.take(p).subrange(k + 1, p));
            lemma_cont_window(l, k + 1, m, k + 1, p - k - 1);
        }
    }
    if has_msgstr(l, i) {
        if let Some(f) = st.flag_line {
            assert(l[f] == l.take(p)[f]);
            assert(m[f] == m.take(p)[f]);
        }
    }
}

/// Where reading from line `i` with `st` stands on arriving at line `p`: the entries read by
/// then and what was read ahead; `None` when an entry spans line `p`.
pub open spec fn reach(lines: Seq<Seq<char>>, i: int, st: PoScan, p: int) -> Option<
    (Seq<PoEntryView>, PoScan),
>
    decreases lines.len() - i,
{
    if i == p {
        Some((seq![], st))
    } else if i < 0 || i > p || i >= lines.len() {
        None
    } else {
        let t = trim_start(lines[i]);
        if has_prefix(t, seq!['#']) {
            reach(lines, i + 1, comment_step(st, t, i), p)
        } else if t.len() == 0 {
            reach(lines, i + 1, scan_init(), p)
        } else if !has_prefix(t, "msgid "@) {
            reach(lines, i + 1, st, p)
        } else {
            proof {
                lemma_entry_end(lines, i);
            }
            let r = reach(lines, entry_end(lines, i), scan_init(), p);
            if has_msgstr(lines, i) {
                match r {
                    Some((es, s)) => Some((seq![entry_at(lines, i, st)] + es, s)),
                    None => None,
                }
            } else {
                r
            }
        }
    }
}

/// Reading arrives at `p` having read `pre`, and goes on from there.
proof fn lemma_reach_split(l: Seq<Seq<char>>, i: int, st: PoScan, p: int)
    requires
        reach(l, i, st, p) is Some,
    ensures
        reach(l, i, st, p) matches Some((pre, s)) && scan(l, i, st) == pre + scan(l, p, s),
    decreases l.len() - i,
{
    if i == p {
        assert(Seq::<PoEntryView>::empty() + scan(l, p, st) =~= scan(l, p, st));
    } else {
        let t = trim_start(l[i]);
        if has_prefix(t, seq!['#']) {
            lemma_reach_split(l, i + 1, comment_step(st, t, i), p);
        } else if t.len() == 0 {
            lemma_reach_split(l, i + 1, scan_init(), p);
        } else if !has_prefix(t, "msgid "@) {
            lemma_reach_split(l, i + 1, st, p);
        } else {
            lemma_entry_end(l, i);
            let end = entry_end(l, i);
            lemma_reach_split(l, end, scan_init(), p);
            if has_msgstr(l, i) {
                let r = reach(l, end, scan_init(), p)->0;
                assert(seq![entry_at(l, i, st)] + r.0 + scan(l, p, r.1) =~= seq![
                    entry_at(l, i, st),
                ] + (r.0 + scan(l, p, r.1)));
            }
        }
    }
}

/// Two sets of lines that agree below `p`, where reading stops in both, are read alike up
/// to `p`.
proof fn lemma_reach_agree(l: Seq<Seq<char>>, m: Seq<Seq<char>>, i: int, st: PoScan, p: int)
    requires
        0 <= i <= p,
        p < l.len(),
        p < m.len(),
        l.take(p) == m.take(p),
        stops(l, p),
        stops(m, p),
        scan_ok(st, 0, i),
    ensures
        reach(l, i, st, p) == reach(m, i, st, p),
    decreases l.len() - i,
{
    if i < p {
        assert(l[i] == l.take(p)[i]);
        assert(m[i] == m.take(p)[i]);
        let t = trim_start(l[i]);
        if has_prefix(t, seq!['#']) {
            lemma_reach_agree(l, m, i + 1, comment_step(st, t, i), p);
        } else if t.len() == 0 {
            lemma_reach_agree(l, m, i + 1, scan_init(), p);
        } else if !has_prefix(t, "msgid "@) {
            lemma_reach_agree(l, m, i + 1, st, p);
        } else {
            lemma_entry_agree(l, m, p, i, st);
            lemma_entry_end(l, i);
            lemma_entry_end(m, i);
            lemma_reach_agree(l, m, entry_end(l, i), scan_init(), p);
        }
    }
}


/// The `#,` line and the `#|` lines read ahead are comment lines.
pub open spec fn marks_ok(l: Seq<Seq<char>>, st: PoScan) -> bool {
    &&& st.flag_line matches Some(f) ==> 0 <= f < l.len() && has_prefix(
        trim_start(l[f]),
        seq!['#'],
    )
    &&& st.prev matches Some((p, _)) ==> 0 <= p < l.len() && has_prefix(
        trim_start(l[p]),
        seq!['#'],
    )
}

/// Reading arrives at the flag block of each entry it reads, having read the entries before
/// it and no `#|` line; the block is made of comment lines and the msgid follows it.
proof fn lemma_reach_entry(l: Seq<Seq<char>>, i: int, st: PoScan, a: int)
    requires
        0 <= i,
        scan_ok(st, 0, i),
        marks_ok(l, st),
        0 <= a < scan(l, i, st).len(),
    ensures
        ({
            let es = scan(l, i, st);
            let e = es[a];
            &&& e.flag_start >= i ==> (reach(l, i, st, e.flag_start) matches Some((pre, s))
                && pre == es.take(a) && s.prev is None)
            &&& a == 0 ==> (st.prev matches Some((p, _)) ==> e.flag_start <= p || e.flag_start > i)
            &&& a > 0 ==> e.flag_start > i
            &&& 0 <= e.flag_start <= e.flag_end < l.len()
            &&& has_prefix(trim_start(l[e.flag_end]), "msgid "@)
            &&& has_msgstr(l, e.flag_end)
            &&& e.msgid == entry_at(l, e.flag_end, scan_init()).msgid
            &&& e.msgid_plural == entry_at(l, e.flag_end, scan_init()).msgid_plural
            &&& e.msgstr_start == msgstr_line(l, e.flag_end)
            &&& e.msgstr_end == entry_end(l, e.flag_end)
            &&& e.flag_start < e.flag_end ==> has_prefix(trim_start(l[e.flag_start]), seq!['#'])
        }),
    decreases l.len() - i,
{
    let es = scan(l, i, st);
    let e = es[a];
    let t = trim_start(l[i]);
    if has_prefix(t, seq!['#']) {
        let st2 = comment_step(st, t, i);
        lemma_reach_entry(l, i + 1, st2, a);
        if e.flag_start == i {
            if let Some((p, q)) = st.prev {
                assert(st2.prev matches Some((p2, _)) && p2 == p);
            }
        }
    } else if t.len() == 0 {
        lemma_reach_entry(l, i + 1, scan_init(), a);
        lemma_scan_placed(l, i + 1, scan_init(), i + 1);
        assert(placed(scan(l, i + 1, scan_init())[a], i + 1, l.len() as int));
    } else if !has_prefix(t, "msgid "@) {
        lemma_reach_entry(l, i + 1, st, a);
    } else {
        lemma_entry_end(l, i);
        let end = entry_end(l, i);
        lemma_scan_placed(l, end, scan_init(), end);
        let rest = scan(l, end, scan_init());
        if has_msgstr(l, i) {
            if a == 0 {
                assert(e == entry_at(l, i, st));
                assert(es.take(0) =~= Seq::<PoEntryView>::empty());
            } else {
                assert(e == rest[a - 1]);
                lemma_reach_entry(l, end, scan_init(), a - 1);
                assert(placed(rest[a - 1], end, l.len() as int));
                assert(es.take(a) =~= seq![entry_at(l, i, st)] + rest.take(a - 1));
            }
        } else {
            lemma_reach_entry(l, end, scan_init(), a);
            assert(placed(rest[a], end, l.len() as int));
        }
    }
}


/// Reading continuation lines stops at a line that is not one.
proof fn lemma_cont_end(l: Seq<Seq<char>>, j: int)
    requires
        0 <= j <= l.len(),
    ensures
        !is_cont(l, j + cont_len(l, j)),
    decreases l.len() - j,
{
    if is_cont(l, j) {
        lemma_cont_end(l, j + 1);
    }
}

/// The digits of a number are digits.
proof fn lemma_decimal_digits(n: nat)
    ensures
        decimal(n).len() > 0,
        forall|j: int| 0 <= j < decimal(n).len() ==> is_digit(#[trigger] decimal(n)[j]),
    decreases n,
{
    if n >= 10 {
        lemma_decimal_digits(n / 10);
        let d = decimal(n / 10);
        assert forall|j: int| 0 <= j < decimal(n).len() implies is_digit(#[trigger] decimal(n)[j]) by {
            if j < d.len() {
                assert(decimal(n)[j] == d[j]);
            }
        }
    }
}

/// The first index of `c` in `s` is `b`, when `s[b]` is `c` and no earlier character is.
proof fn lemma_index_of_at(s: Seq<char>, c: char, b: int)
    requires
        0 <= b < s.len(),
        s[b] == c,
        forall|j: int| 0 <= j < b ==> s[j] != c,
    ensures
        index_of(s, c) == Some(b),
{
    crate::text::lemma_find_from_bounds(s, seq![c], 0);
    crate::text::lemma_find_from_first(s, seq![c], 0);
    assert(s.subrange(b, b + 1) =~= seq![c]);
    match index_of(s, c) {
        Some(i) => {
            if i < b {
                assert(s.subrange(i, i + 1)[0] == s[i]);
            }
        },
        None => {},
    }
}

/// A `msgstr[N] "..."` line of a plural translation reads as a form line holding `f`.
proof fn lemma_plural_line(n: nat, f: Seq<char>)
    ensures
        ({
            let q = "msgstr["@ + decimal(n) + "] \""@ + escape(f) + seq!['"'];
            &&& trim_start(q) == q
            &&& has_prefix(q, "msgstr["@)
            &&& !has_prefix(q, seq!['"'])
            &&& !has_prefix(q, "msgid_plural "@)
            &&& index_of(q, ']') == Some(7 + decimal(n).len() as int)
            &&& unescape(trim_start(q.skip(7 + decimal(n).len() as int + 1))) == f
            &&& forall|j: int| 0 <= j < q.len() ==> q[j] != '\n'
        }),
{
    reveal_strlit("msgstr[");
    reveal_strlit("] \"");
    reveal_strlit("msgid_plural ");
    lemma_decimal_digits(n);
    let d = decimal(n);
    let q = "msgstr["@ + d + "] \""@ + escape(f) + seq!['"'];
    let b = 7 + d.len() as int;
    assert(q[0] == 'm');
    assert(trim_start(q) == q);
    assert(q.take(7) =~= "msgstr["@);
    if has_prefix(q, seq!['"']) {
        assert(q.take(1)[0] == q[0]);
    }
    if has_prefix(q, "msgid_plural "@) {
        assert(q.take(13)[3] == q[3]);
    }
    assert(q[b] == ']');
    assert forall|j: int| 0 <= j < b implies q[j] != ']' by {
        if j >= 7 {
            assert(q[j] == d[j - 7]);
            assert(is_digit(d[j - 7]));
        }
    }
    lemma_index_of_at(q, ']', b);
    let after = q.skip(b + 1);
    assert(after =~= seq![' '] + (seq!['"'] + escape(f) + seq!['"']));
    assert(trim_start(after) == trim_start(after.drop_first()));
    assert(after.drop_first() =~= seq!['"'] + escape(f) + seq!['"']);
    assert(trim_start(after.drop_first()) == after.drop_first());
    crate::entries::law_escape_round_trip(f);
    crate::entries::lemma_escape_no_break(f);
    assert forall|j: int| 0 <= j < q.len() implies q[j] != '\n' by {
        if j < 7 {
        } else if j < b {
            assert(q[j] == d[j - 7]);
            assert(is_digit(d[j - 7]));
        } else if j < b + 3 {
        } else if j < q.len() - 1 {
            assert(q[j] == escape(f)[j - b - 3]);
        }
    }
}

/// A run of the lines of a plural translation, followed by a line that neither continues a
/// string nor opens a form, reads as the translation's forms.
proof fn lemma_forms_generated(m: Seq<Seq<char>>, a: int, fs: Seq<Seq<char>>, u: int)
    requires
        0 <= a,
        0 <= u <= fs.len(),
        a + fs.len() <= m.len(),
        m.subrange(a, a + fs.len()) == plural_lines(fs),
        !is_cont(m, a + fs.len()),
        !is_form(m, a + fs.len()),
    ensures
        forms(m, a + u) == fs.skip(u),
        forms_len(m, a + u) == fs.len() - u,
    decreases fs.len() - u,
{
    if u == fs.len() {
        assert(fs.skip(u) =~= Seq::<Seq<char>>::empty());
    } else {
        let q = plural_lines(fs)[u];
        assert(m[a + u] == m.subrange(a, a + fs.len())[u]);
        lemma_plural_line(u as nat, fs[u]);
        assert(is_form(m, a + u));
        if u + 1 < fs.len() {
            assert(m[a + u + 1] == m.subrange(a, a + fs.len())[u + 1]);
            lemma_plural_line((u + 1) as nat, fs[u + 1]);
        }
        assert(!is_cont(m, a + u + 1));
        assert(cont_len(m, a + u + 1) == 0);
        assert(cont_text(m, a + u + 1) =~= Seq::<char>::empty());
        lemma_forms_generated(m, a, fs, u + 1);
        assert(form_text(m, a + u) == fs[u]);
        assert(fs.skip(u) =~= seq![fs[u]] + fs.skip(u + 1));
    }
}

/// The lines with a final `\r` dropped from each, as reading the rendered lines gives them.
pub open spec fn stripped(l: Seq<Seq<char>>) -> Seq<Seq<char>> {
    l.map_values(|x: Seq<char>| strip_cr(x))
}

proof fn lemma_line_strip(l: Seq<Seq<char>>, j: int)
    requires
        0 <= j < l.len(),
    ensures
        stripped(l).len() == l.len(),
        trim_start(stripped(l)[j]) == strip_cr(trim_start(l[j])),
{
    crate::text::lemma_trim_start_strip(l[j]);
}

proof fn lemma_unescape_strip(x: Seq<char>)
    ensures
        unescape(strip_cr(x)) == unescape(x),
{
    crate::text::lemma_trim_strip(x);
}

proof fn lemma_cont_strip(l: Seq<Seq<char>>, j: int)
    requires
        0 <= j <= l.len(),
    ensures
        is_cont(stripped(l), j) == is_cont(l, j),
        cont_len(stripped(l), j) == cont_len(l, j),
        cont_text(stripped(l), j) == cont_text(l, j),
    decreases l.len() - j,
{
    if j < l.len() {
        lemma_line_strip(l, j);
        let t = trim_start(l[j]);
        crate::text::lemma_prefix_strip(t, seq!['"']);
        lemma_unescape_strip(t);
        lemma_cont_strip(l, j + 1);
    }
}

proof fn lemma_form_strip(l: Seq<Seq<char>>, j: int)
    requires
        0 <= j <= l.len(),
    ensures
        is_form(stripped(l), j) == is_form(l, j),
        is_form(l, j) ==> form_text(stripped(l), j) == form_text(l, j),
{
    if j < l.len() {
        reveal_strlit("msgstr[");
        lemma_line_strip(l, j);
        let t = trim_start(l[j]);
        crate::text::lemma_prefix_strip(t, "msgstr["@);
        crate::text::lemma_find_strip(t, seq![']']);
        if is_form(l, j) {
            let b = index_of(t, ']')->0;
            crate::text::lemma_find_from_bounds(t, seq![']'], 0);
            assert(t.subrange(b, b + 1)[0] == t[b]);
            let u = t.skip(b + 1);
            if t.len() > 0 && t.last() == '\r' {
                assert(b < t.len() - 1);
                assert(strip_cr(t).skip(b + 1) =~= strip_cr(u));
            } else {
                assert(strip_cr(t) == t);
                assert(strip_cr(u) == u);
            }
            crate::text::lemma_trim_start_strip(u);
            lemma_unescape_strip(trim_start(u));
            lemma_cont_strip(l, j + 1);
        }
    }
}

proof fn lemma_forms_strip(l: Seq<Seq<char>>, j: int)
    requires
        0 <= j <= l.len(),
    ensures
        forms_len(stripped(l), j) == forms_len(l, j),
        forms(stripped(l), j) == forms(l, j),
    decreases l.len() - j,
{
    lemma_form_strip(l, j);
    if is_form(l, j) {
        lemma_cont_strip(l, j + 1);
        lemma_cont_len(l, j + 1);
        lemma_forms_strip(l, j + 1 + cont_len(l, j + 1));
    }
}

/// A text read after a keyword reads the same with a final `\r` dropped from its line.
proof fn lemma_keyword_text_strip(t: Seq<char>, kw: Seq<char>)
    requires
        kw.len() > 0,
        kw.last() != '\r',
    ensures
        has_prefix(strip_cr(t), kw) == has_prefix(t, kw),
        unescape(without_prefix(strip_cr(t), kw)) == unescape(without_prefix(t, kw)),
{
    crate::text::lemma_prefix_strip(t, kw);
    lemma_unescape_strip(without_prefix(t, kw));
}

proof fn lemma_entry_strip(l: Seq<Seq<char>>, i: int, st: PoScan)
    requires
        0 <= i < l.len(),
        scan_ok(st, 0, i),
    ensures
        has_msgstr(stripped(l), i) == has_msgstr(l, i),
        entry_end(stripped(l), i) == entry_end(l, i),
        has_msgstr(l, i) ==> entry_at(stripped(l), i, st) == entry_at(l, i, st),
{
    reveal_strlit("msgid ");
    reveal_strlit("msgid_plural ");
    reveal_strlit("msgstr ");
    reveal_strlit("msgstr[");
    reveal_strlit("fuzzy");
    let m = stripped(l);
    lemma_entry_end(l, i);
    lemma_cont_len(l, i + 1);
    lemma_cont_strip(l, i + 1);
    lemma_line_strip(l, i);
    lemma_keyword_text_strip(trim_start(l[i]), "msgid "@);
    let j = after_msgid(l, i);
    if j < l.len() {
        lemma_line_strip(l, j);
        lemma_keyword_text_strip(trim_start(l[j]), "msgid_plural "@);
    }
    if has_plural_at(l, i) {
        lemma_cont_len(l, j + 1);
        lemma_cont_strip(l, j + 1);
    }
    let k = msgstr_line(l, i);
    assert(msgstr_line(m, i) == k);
    if k < l.len() {
        lemma_line_strip(l, k);
        lemma_keyword_text_strip(trim_start(l[k]), "msgstr "@);
        crate::text::lemma_prefix_strip(trim_start(l[k]), "msgstr["@);
        lemma_cont_len(l, k + 1);
        lemma_cont_strip(l, k + 1);
        lemma_forms_strip(l, k);
    }
    if let Some(f) = st.flag_line {
        assert(m[f] == strip_cr(l[f]));
        crate::text::lemma_find_strip(l[f], "fuzzy"@);
        assert(contains(m[f], "fuzzy"@) == contains(l[f], "fuzzy"@));
    }
}

proof fn lemma_comment_strip(st: PoScan, t: Seq<char>, i: int)
    ensures
        comment_step(st, strip_cr(t), i) == comment_step(st, t, i),
{
    reveal_strlit("#.");
    reveal_strlit("#,");
    reveal_strlit("#|");
    crate::text::lemma_prefix_strip(t, "#."@);
    crate::text::lemma_prefix_strip(t, "#,"@);
    crate::text::lemma_prefix_strip(t, "#|"@);
    crate::text::lemma_trim_strip(without_prefix(t, "#."@));
}

/// Dropping a final `\r` from every line does not change what the lines read as.
proof fn lemma_scan_strip(l: Seq<Seq<char>>, i: int, st: PoScan)
    requires
        0 <= i,
        scan_ok(st, 0, i),
    ensures
        scan(stripped(l), i, st) == scan(l, i, st),
    decreases l.len() - i,
{
    if i < l.len() {
        reveal_strlit("msgid ");
        lemma_line_strip(l, i);
        let t = trim_start(l[i]);
        crate::text::lemma_trim_start_first(l[i]);
        crate::text::lemma_prefix_strip(t, seq!['#']);
        crate::text::lemma_prefix_strip(t, "msgid "@);
        if t.len() > 0 && t.last() == '\r' {
            assert(t.len() > 1);
        }
        if has_prefix(t, seq!['#']) {
            lemma_comment_strip(st, t, i);
            lemma_scan_strip(l, i + 1, comment_step(st, t, i));
        } else if t.len() == 0 {
            lemma_scan_strip(l, i + 1, scan_init());
        } else if !has_prefix(t, "msgid "@) {
            lemma_scan_strip(l, i + 1, st);
        } else {
            lemma_entry_strip(l, i, st);
            lemma_entry_end(l, i);
            lemma_scan_strip(l, entry_end(l, i), scan_init());
        }
    }
}

/// Lines with no line break read back from their rendering with a final `\r` dropped from
/// each.
pub proof fn lemma_lines_render_any(ls: Seq<Seq<char>>)
    requires
        ls.len() > 0,
        forall|a: int, b: int| 0 <= a < ls.len() && 0 <= b < ls[a].len() ==> #[trigger] ls[a][b] != '\n',
    ensures
        lines_of(render_lines(ls)) == stripped(ls),
    decreases ls.len(),
{
    let x = ls[0];
    assert forall|b: int| 0 <= b < x.len() implies x[b] != '\n' by {
        assert(ls[0][b] != '\n');
    }
    if ls.len() == 1 {
        assert(render_lines(ls) =~= x + seq!['\n'] + Seq::<char>::empty());
        crate::text::lemma_lines_cons_any(x, Seq::<char>::empty());
        assert(lines_of(Seq::<char>::empty()) =~= Seq::<Seq<char>>::empty());
        assert(seq![strip_cr(x)] + Seq::<Seq<char>>::empty() =~= stripped(ls));
    } else {
        let rest = ls.skip(1);
        assert forall|a: int, b: int| 0 <= a < rest.len() && 0 <= b < rest[a].len() implies #[trigger] rest[a][b] != '\n' by {
            assert(rest[a] == ls[a + 1]);
        }
        lemma_lines_render_any(rest);
        assert(seq![x] + rest =~= ls);
        crate::text::lemma_join_prepend(x, rest, seq!['\n']);
        assert(render_lines(ls) =~= x + seq!['\n'] + render_lines(rest));
        crate::text::lemma_lines_cons_any(x, render_lines(rest));
        assert(seq![strip_cr(x)] + stripped(rest) =~= stripped(ls));
    }
}

/// The `#, fuzzy` line says so.
proof fn lemma_fuzzy_line()
    ensures
        trim_start("#, fuzzy"@) == "#, fuzzy"@,
        has_prefix("#, fuzzy"@, seq!['#']),
        has_prefix("#, fuzzy"@, "#,"@),
        !has_prefix("#, fuzzy"@, "#."@),
        contains("#, fuzzy"@, "fuzzy"@),
        forall|b: int| 0 <= b < "#, fuzzy"@.len() ==> "#, fuzzy"@[b] != '\n',
{
    reveal_strlit("#, fuzzy");
    reveal_strlit("#,");
    reveal_strlit("#.");
    reveal_strlit("fuzzy");
    let fz = "#, fuzzy"@;
    assert(fz.take(1) =~= seq!['#']);
    assert(fz.take(2) =~= "#,"@);
    assert(fz.take(2)[1] == ',');
    crate::text::lemma_find_from_bounds(fz, "fuzzy"@, 0);
    assert(fz.subrange(3, 3int + "fuzzy"@.len()) =~= "fuzzy"@);
}

/// The `msgstr "..."` line of a translation is one trimmed line, not a continuation, not a
/// `msgid_plural`, read back as the translation.
proof fn lemma_singular_line(text: Seq<char>)
    ensures
        trim_start(singular_line(text)) == singular_line(text),
        has_prefix(singular_line(text), "msgstr "@),
        !has_prefix(singular_line(text), seq!['"']),
        !has_prefix(singular_line(text), "msgid_plural "@),
        unescape(without_prefix(singular_line(text), "msgstr "@)) == text,
        forall|b: int| 0 <= b < singular_line(text).len() ==> singular_line(text)[b] != '\n',
{
    reveal_strlit("msgstr \"");
    reveal_strlit("msgstr ");
    reveal_strlit("msgid_plural ");
    let kw = "msgstr "@;
    let sl = singular_line(text);
    assert(sl =~= crate::entries::quoted_line(kw, text));
    crate::entries::lemma_quoted_line(kw, text);
    assert(sl[0] == 'm');
    assert(trim_start(sl) == sl);
    if has_prefix(sl, seq!['"']) {
        assert(sl.take(1)[0] == sl[0]);
    }
    if has_prefix(sl, "msgid_plural "@) {
        assert(sl.take(13)[3] == sl[3]);
        assert(sl.take(7)[3] == sl[3]);
    }
}

/// Whether translation `t` has the shape of entry `e` (a single string for an ordinary entry,
/// at least one form for a plural one), so that writing it in replaces the entry's msgstr.
pub open spec fn fits(e: PoEntryView, t: TranslationView) -> bool {
    &&& replacement(e, t) is Some
    &&& t matches TranslationView::Plural(fs) ==> fs.len() > 0
}

/// Whether entry `x` holds translation `t`.
pub open spec fn holds(x: PoEntryView, t: TranslationView) -> bool {
    match t {
        TranslationView::Singular(s) => x.msgstr == s,
        TranslationView::Plural(fs) => x.msgstr_plural == fs,
    }
}

/// The lines after writing the lines `repl` in place of entry `e`'s msgstr statement(s) and
/// collapsing its flag block to `#, fuzzy`.
pub open spec fn patched(l: Seq<Seq<char>>, e: PoEntryView, repl: Seq<Seq<char>>) -> Seq<Seq<char>> {
    l.take(e.flag_start) + seq!["#, fuzzy"@] + l.subrange(e.flag_end, e.msgstr_start) + repl + l.skip(
        e.msgstr_end,
    )
}

/// The lines a fitting translation is written as: at least one, none with a line break.
proof fn lemma_repl_clean(e: PoEntryView, t: TranslationView)
    requires
        fits(e, t),
    ensures
        ({
            let r = replacement(e, t)->0;
            &&& r.len() > 0
            &&& forall|a: int, b: int| 0 <= a < r.len() && 0 <= b < r[a].len() ==> #[trigger] r[a][b] != '\n'
        }),
{
    let r = replacement(e, t)->0;
    match t {
        TranslationView::Singular(s) => {
            lemma_singular_line(s);
        },
        TranslationView::Plural(fs) => {
            assert forall|a: int, b: int| 0 <= a < r.len() && 0 <= b < r[a].len() implies #[trigger] r[a][b] != '\n' by {
                lemma_plural_line(a as nat, fs[a]);
            }
        },
    }
}

/// The patched lines hold no line break, when that is so of the lines patched and of the
/// lines written in.
proof fn lemma_patched_clean(l: Seq<Seq<char>>, e: PoEntryView, repl: Seq<Seq<char>>)
    requires
        0 <= e.flag_start <= e.flag_end < e.msgstr_start <= e.msgstr_end <= l.len(),
        forall|a: int, b: int| 0 <= a < l.len() && 0 <= b < l[a].len() ==> #[trigger] l[a][b] != '\n',
        forall|a: int, b: int| 0 <= a < repl.len() && 0 <= b < repl[a].len() ==> #[trigger] repl[a][b] != '\n',
    ensures
        ({
            let l2 = patched(l, e, repl);
            forall|a: int, b: int| 0 <= a < l2.len() && 0 <= b < l2[a].len() ==> #[trigger] l2[a][b] != '\n'
        }),
{
    let l2 = patched(l, e, repl);
    let fb = e.flag_start;
    let i = e.flag_end;
    let ms = e.msgstr_start;
    let me = e.msgstr_end;
    let ms2 = fb + 1 + (ms - i);
    let after = ms2 + repl.len();
    lemma_fuzzy_line();
    assert forall|a: int, b: int| 0 <= a < l2.len() && 0 <= b < l2[a].len() implies #[trigger] l2[a][b]
        != '\n' by {
        if a < fb {
            assert(l2[a] == l[a]);
        } else if a == fb {
        } else if a < ms2 {
            assert(l2[a] == l[i + (a - fb - 1)]);
        } else if a < after {
            assert(l2[a] == repl[a - ms2]);
        } else {
            assert(l2[a] == l[me + (a - after)]);
        }
    }
}

/// Reading a run of `msgstr[N]` statements stops at a line that neither continues a string
/// nor opens another one.
proof fn lemma_forms_end(l: Seq<Seq<char>>, k: int)
    requires
        0 <= k <= l.len(),
        !is_cont(l, k),
    ensures
        !is_cont(l, k + forms_len(l, k)),
        !is_form(l, k + forms_len(l, k)),
    decreases l.len() - k,
{
    if is_form(l, k) {
        lemma_cont_len(l, k + 1);
        lemma_cont_end(l, k + 1);
        lemma_forms_end(l, k + 1 + cont_len(l, k + 1));
    }
}

/// Read from the `#, fuzzy` line on, the patched lines give the entry with its msgid and
/// msgid_plural, holding the translation, flagged fuzzy, with no `#|` comment; reading goes
/// on after the lines written in.
proof fn lemma_patched_entry(l: Seq<Seq<char>>, e: PoEntryView, t: TranslationView, s: PoScan)
    requires
        0 <= e.flag_start <= e.flag_end < l.len(),
        has_prefix(trim_start(l[e.flag_end]), "msgid "@),
        has_msgstr(l, e.flag_end),
        e.msgid == entry_at(l, e.flag_end, scan_init()).msgid,
        e.msgid_plural == entry_at(l, e.flag_end, scan_init()).msgid_plural,
        e.msgstr_start == msgstr_line(l, e.flag_end),
        e.msgstr_end == entry_end(l, e.flag_end),
        s.prev is None,
        fits(e, t),
    ensures
        ({
            let repl = replacement(e, t)->0;
            let l2 = patched(l, e, repl);
            let r = scan(l2, e.flag_start, s);
            &&& r.len() > 0
            &&& r[0].msgid == e.msgid
            &&& r[0].msgid_plural == e.msgid_plural
            &&& holds(r[0], t)
            &&& r[0].is_fuzzy
            &&& !r[0].has_prev_msgid
            &&& r.skip(1) == scan(
                l2,
                e.flag_start + 1 + (e.msgstr_start - e.flag_end) + repl.len(),
                scan_init(),
            )
        }),
{
    let fb = e.flag_start;
    let i = e.flag_end;
    lemma_entry_end(l, i);
    lemma_cont_len(l, i + 1);
    let j = after_msgid(l, i);
    let plural = has_plural_at(l, i);
    if plural {
        lemma_cont_len(l, j + 1);
    }
    let ms = e.msgstr_start;
    let me = e.msgstr_end;
    let repl = replacement(e, t)->0;
    lemma_repl_clean(e, t);
    let l2 = patched(l, e, repl);
    let fz = "#, fuzzy"@;
    lemma_fuzzy_line();
    let mid = l.subrange(i, ms);
    let ms2 = fb + 1 + (ms - i);
    let after = ms2 + repl.len();
    assert(l2.len() == after + (l.len() - me));
    assert(l2[fb] == fz);
    assert forall|u: int| 0 <= u < ms - i implies l2[fb + 1 + u] == #[trigger] l[i + u] by {
        assert(l2[fb + 1 + u] == mid[u]);
    }
    assert forall|u: int| 0 <= u < repl.len() implies l2[ms2 + u] == #[trigger] repl[u] by {}
    assert forall|w: int| 0 <= w < l.len() - me implies l2[after + w] == #[trigger] l[me + w] by {}
    // The first line written in: not a continuation, not a msgid_plural.
    let first = repl[0];
    assert(l2[ms2] == first);
    match t {
        TranslationView::Singular(x) => {
            lemma_singular_line(x);
        },
        TranslationView::Plural(fs) => {
            lemma_plural_line(0, fs[0]);
        },
    }
    assert(trim_start(first) == first);
    assert(!has_prefix(first, seq!['"']));
    assert(!has_prefix(first, "msgid_plural "@));
    // The `#, fuzzy` line.
    let s1 = comment_step(s, fz, fb);
    assert(s1.flag_line == Some(fb) && s1.prev is None);
    assert(scan(l2, fb, s) == scan(l2, fb + 1, s1));
    // The msgid line, as it was.
    let t0 = trim_start(l[i]);
    assert(l2[fb + 1] == l[i]);
    assert(!has_prefix(t0, seq!['#']) && t0.len() > 0) by {
        reveal_strlit("msgid ");
        assert(t0.take(6)[0] == t0[0]);
        if has_prefix(t0, seq!['#']) {
            assert(t0.take(1)[0] == t0[0]);
        }
    }
    let i2 = fb + 1;
    let j2 = fb + 1 + (j - i);
    lemma_cont_end(l, i + 1);
    if j < ms {
        assert(l2[j2] == l[j]);
    } else {
        assert(j2 == ms2);
    }
    assert(l.subrange(i + 1, j) =~= l2.subrange(fb + 2, j2)) by {
        assert forall|u: int| 0 <= u < j - i - 1 implies #[trigger] l.subrange(i + 1, j)[u]
            == l2.subrange(fb + 2, j2)[u] by {
            assert(l2[fb + 1 + (u + 1)] == l[i + (u + 1)]);
        }
    }
    lemma_cont_window(l, i + 1, l2, fb + 2, j - i - 1);
    assert(after_msgid(l2, i2) == j2);
    assert(has_plural_at(l2, i2) == plural);
    if plural {
        assert(j < ms);
        lemma_cont_end(l, j + 1);
        assert(l.subrange(j + 1, ms) =~= l2.subrange(j2 + 1, ms2)) by {
            assert forall|u: int| 0 <= u < ms - j - 1 implies #[trigger] l.subrange(j + 1, ms)[u]
                == l2.subrange(j2 + 1, ms2)[u] by {
                assert(l2[fb + 1 + (j - i + 1 + u)] == l[i + (j - i + 1 + u)]);
            }
        }
        lemma_cont_window(l, j + 1, l2, j2 + 1, ms - j - 1);
    }
    assert(msgstr_line(l2, i2) == ms2);
    let e2 = entry_at(l2, i2, s1);
    match t {
        TranslationView::Singular(x) => {
            assert(!plural);
            assert(repl == seq![singular_line(x)]);
            assert(has_msgstr(l2, i2));
            lemma_cont_len(l, ms + 1);
            lemma_cont_end(l, ms + 1);
            if me < l.len() {
                assert(l2[ms2 + 1] == l[me]);
            }
            assert(!is_cont(l2, ms2 + 1));
            assert(cont_len(l2, ms2 + 1) == 0);
            assert(cont_text(l2, ms2 + 1) =~= Seq::<char>::empty());
            assert(entry_end(l2, i2) == after);
            assert(e2.msgstr =~= x);
        },
        TranslationView::Plural(fs) => {
            assert(plural);
            assert(repl == plural_lines(fs));
            reveal_strlit("msgstr[");
            lemma_plural_line(0, fs[0]);
            assert(has_msgstr(l2, i2));
            lemma_cont_end(l, j + 1);
            lemma_forms_end(l, ms);
            if me < l.len() {
                assert(l2[after] == l[me]);
            }
            assert(l2.subrange(ms2, after) =~= plural_lines(fs));
            lemma_forms_generated(l2, ms2, fs, 0);
            assert(fs.skip(0) =~= fs);
            assert(entry_end(l2, i2) == after);
            assert(e2.msgstr_plural == fs);
            assert(e2.msgid_plural == entry_at(l, i, scan_init()).msgid_plural);
        },
    }
    assert(e2.msgid == e.msgid);
    assert(e2.msgid_plural == e.msgid_plural);
    assert(e2.is_fuzzy);
    lemma_entry_end(l2, i2);
    assert(scan(l2, i2, s1) == seq![e2] + scan(l2, after, scan_init()));
    assert((seq![e2] + scan(l2, after, scan_init())).skip(1) =~= scan(l2, after, scan_init()));
}

/// After the first entry read, reading goes on from where that entry ends.
proof fn lemma_scan_rest(l: Seq<Seq<char>>, i: int, st: PoScan)
    requires
        0 <= i,
        scan(l, i, st).len() > 0,
    ensures
        scan(l, i, st).skip(1) == scan(l, scan(l, i, st)[0].msgstr_end, scan_init()),
    decreases l.len() - i,
{
    let t = trim_start(l[i]);
    if has_prefix(t, seq!['#']) {
        lemma_scan_rest(l, i + 1, comment_step(st, t, i));
    } else if t.len() == 0 {
        lemma_scan_rest(l, i + 1, scan_init());
    } else if !has_prefix(t, "msgid "@) {
        lemma_scan_rest(l, i + 1, st);
    } else {
        lemma_entry_end(l, i);
        let end = entry_end(l, i);
        if has_msgstr(l, i) {
            let r = scan(l, end, scan_init());
            assert((seq![entry_at(l, i, st)] + r).skip(1) =~= r);
        } else {
            lemma_scan_rest(l, end, scan_init());
        }
    }
}

/// Reading the lines after writing translation `t` into entry `k` gives the entries before it
/// as they were, the entry holding the translation and settled, and the entries after it as
/// they were, moved by the change in length.
proof fn lemma_patch_read(l: Seq<Seq<char>>, k: int, t: TranslationView)
    requires
        0 <= k < scan(l, 0, scan_init()).len(),
        fits(scan(l, 0, scan_init())[k], t),
    ensures
        ({
            let es = scan(l, 0, scan_init());
            let l2 = patched(l, es[k], replacement(es[k], t)->0);
            let es2 = scan(l2, 0, scan_init());
            &&& es2.len() == es.len()
            &&& es2.take(k) == es.take(k)
            &&& es2.skip(k + 1) == shift_entries(es.skip(k + 1), l2.len() - l.len())
            &&& es2[k].msgid == es[k].msgid
            &&& es2[k].msgid_plural == es[k].msgid_plural
            &&& holds(es2[k], t)
            &&& es2[k].is_fuzzy
            &&& !es2[k].has_prev_msgid
        }),
{
    let es = scan(l, 0, scan_init());
    let e = es[k];
    lemma_reach_entry(l, 0, scan_init(), k);
    let fb = e.flag_start;
    let i = e.flag_end;
    lemma_entry_end(l, i);
    let repl = replacement(e, t)->0;
    let l2 = patched(l, e, repl);
    let after = fb + 1 + (e.msgstr_start - i) + repl.len();
    assert(l2.len() == after + (l.len() - e.msgstr_end));
    let d = l2.len() - l.len();
    // Up to the flag block, both read alike.
    lemma_fuzzy_line();
    if fb < i {
        lemma_neutral(trim_start(l[fb]));
    } else {
        lemma_neutral(trim_start(l[i]));
    }
    lemma_neutral("#, fuzzy"@);
    assert(l2[fb] == "#, fuzzy"@);
    assert(l2.take(fb) =~= l.take(fb));
    lemma_reach_agree(l, l2, 0, scan_init(), fb);
    lemma_reach_split(l2, 0, scan_init(), fb);
    lemma_reach_split(l, 0, scan_init(), fb);
    let reached = reach(l, 0, scan_init(), fb)->0;
    let s = reached.1;
    lemma_patched_entry(l, e, t, s);
    // The rest, in both.
    let r = scan(l, fb, s);
    assert(es == es.take(k) + r);
    assert(r[0] == e);
    lemma_scan_rest(l, fb, s);
    assert(es.skip(k + 1) =~= r.skip(1));
    assert(l.skip(e.msgstr_end) =~= l2.skip(after));
    lemma_scan_shift(l, l2, e.msgstr_end, d, e.msgstr_end, scan_init());
    assert(shift_state(scan_init(), d) == scan_init());
    let r2 = scan(l2, fb, s);
    let es2 = scan(l2, 0, scan_init());
    assert(es2 == es.take(k) + r2);
    assert(es2[k] == r2[0]);
    assert(es2.take(k) =~= es.take(k));
    assert(es2.skip(k + 1) =~= r2.skip(1));
}

/// An entry read `d` lines further down.
pub open spec fn shift_entry(e: PoEntryView, d: int) -> PoEntryView {
    PoEntryView {
        flag_start: e.flag_start + d,
        flag_end: e.flag_end + d,
        msgstr_start: e.msgstr_start + d,
        msgstr_end: e.msgstr_end + d,
        ..e
    }
}

/// Entries read `d` lines further down.
pub open spec fn shift_entries(es: Seq<PoEntryView>, d: int) -> Seq<PoEntryView> {
    es.map_values(|e: PoEntryView| shift_entry(e, d))
}

/// What was read ahead, `d` lines further down.
pub open spec fn shift_state(st: PoScan, d: int) -> PoScan {
    PoScan {
        flag_line: match st.flag_line {
            Some(f) => Some(f + d),
            None => None,
        },
        prev: match st.prev {
            Some((p, q)) => Some((p + d, q + d)),
            None => None,
        },
        pending: st.pending,
    }
}

/// Two sets of lines that agree from `a` and from `a + d` on, to their ends.
pub open spec fn same_tail(l: Seq<Seq<char>>, m: Seq<Seq<char>>, a: int, d: int) -> bool {
    &&& 0 <= a <= l.len()
    &&& 0 <= a + d
    &&& l.len() + d == m.len()
    &&& l.skip(a) == m.skip(a + d)
}

proof fn lemma_tail_window(l: Seq<Seq<char>>, m: Seq<Seq<char>>, a: int, d: int, j: int)
    requires
        same_tail(l, m, a, d),
        a <= j <= l.len(),
    ensures
        l.subrange(j, l.len() as int) == m.subrange(j + d, m.len() as int),
        j < l.len() ==> l[j] == m[j + d],
{
    assert(l.subrange(j, l.len() as int) =~= l.skip(a).subrange(j - a, l.len() - a));
    assert(m.subrange(j + d, m.len() as int) =~= m.skip(a + d).subrange(j - a, l.len() - a));
    if j < l.len() {
        assert(l[j] == l.skip(a)[j - a]);
        assert(m[j + d] == m.skip(a + d)[j - a]);
    }
}

/// The entry whose msgid is on line `i` of `l` reads the same `d` lines further down in `m`.
proof fn lemma_entry_shift(l: Seq<Seq<char>>, m: Seq<Seq<char>>, a: int, d: int, i: int, st: PoScan)
    requires
        same_tail(l, m, a, d),
        a <= i < l.len(),
        has_prefix(trim_start(l[i]), "msgid "@),
        scan_ok(st, a, i),
    ensures
        has_msgstr(l, i) == has_msgstr(m, i + d),
        entry_end(m, i + d) == entry_end(l, i) + d,
        has_msgstr(l, i) ==> entry_at(m, i + d, shift_state(st, d)) == shift_entry(
            entry_at(l, i, st),
            d,
        ),
{
    let n = l.len() as int;
    let nm = m.len() as int;
    lemma_tail_window(l, m, a, d, i);
    lemma_tail_window(l, m, a, d, i + 1);
    lemma_cont_window(l, i + 1, m, i + 1 + d, n - i - 1);
    lemma_cont_len(l, i + 1);
    let j = after_msgid(l, i);
    assert(after_msgid(m, i + d) == j + d);
    lemma_tail_window(l, m, a, d, j);
    if has_plural_at(l, i) {
        lemma_tail_window(l, m, a, d, j + 1);
        lemma_cont_window(l, j + 1, m, j + 1 + d, n - j - 1);
        lemma_cont_len(l, j + 1);
    }
    let k = msgstr_line(l, i);
    assert(msgstr_line(m, i + d) == k + d);
    lemma_entry_end(l, i);
    lemma_tail_window(l, m, a, d, k);
    if has_msgstr(l, i) {
        if has_plural_at(l, i) {
            lemma_forms_window(l, k, m, k + d, n - k);
        } else {
            lemma_tail_window(l, m, a, d, k + 1);
            lemma_cont_window(l, k + 1, m, k + 1 + d, n - k - 1);
        }
        if let Some(f) = st.flag_line {
            lemma_tail_window(l, m, a, d, f);
        }
    }
}

/// Reading the same lines `d` lines further down gives the same entries, `d` lines further
/// down.
proof fn lemma_scan_shift(l: Seq<Seq<char>>, m: Seq<Seq<char>>, a: int, d: int, i: int, st: PoScan)
    requires
        same_tail(l, m, a, d),
        a <= i,
        scan_ok(st, a, i),
    ensures
        scan(m, i + d, shift_state(st, d)) == shift_entries(scan(l, i, st), d),
    decreases l.len() - i,
{
    if i >= l.len() {
        assert(shift_entries(Seq::<PoEntryView>::empty(), d) =~= Seq::<PoEntryView>::empty());
    } else {
        lemma_tail_window(l, m, a, d, i);
        let t = trim_start(l[i]);
        let ss = shift_state(st, d);
        if has_prefix(t, seq!['#']) {
            assert(comment_step(ss, t, i + d) == shift_state(comment_step(st, t, i), d));
            lemma_scan_shift(l, m, a, d, i + 1, comment_step(st, t, i));
        } else if t.len() == 0 {
            assert(shift_state(scan_init(), d) == scan_init());
            lemma_scan_shift(l, m, a, d, i + 1, scan_init());
        } else if !has_prefix(t, "msgid "@) {
            lemma_scan_shift(l, m, a, d, i + 1, st);
        } else {
            lemma_entry_shift(l, m, a, d, i, st);
            lemma_entry_end(l, i);
            let end = entry_end(l, i);
            assert(shift_state(scan_init(), d) == scan_init());
            lemma_scan_shift(l, m, a, d, end, scan_init());
            if has_msgstr(l, i) {
                let r = scan(l, end, scan_init());
                assert(shift_entries(seq![entry_at(l, i, st)] + r, d) =~= seq![
                    shift_entry(entry_at(l, i, st), d),
                ] + shift_entries(r, d));
            }
        }
    }
}


/// Whether the edits start on strictly decreasing lines.
pub open spec fn strictly_desc(ops: Seq<Op>) -> bool {
    forall|i: int, j: int| 0 <= i < j < ops.len() ==> (#[trigger] ops[i]).start > (#[trigger] ops[j]).start
}

/// Whether `o` is one of `ops`.
#[verifier::opaque]
pub open spec fn has_op(ops: Seq<Op>, o: Op) -> bool {
    exists|m: int| 0 <= m < ops.len() && #[trigger] ops[m] == o
}

proof fn lemma_insert_strict(s: Seq<Op>, o: Op)
    requires
        strictly_desc(s),
        forall|m: int| 0 <= m < s.len() ==> (#[trigger] s[m]).start != o.start,
    ensures
        strictly_desc(insert_desc(s, o)),
        has_op(insert_desc(s, o), o),
        forall|m: int| 0 <= m < s.len() ==> has_op(insert_desc(s, o), #[trigger] s[m]),
    decreases s.len(),
{
    reveal(has_op);
    let out = insert_desc(s, o);
    lemma_insert_desc(s, o);
    if s.len() == 0 {
        assert(out[0] == o);
    } else if s.last().start >= o.start {
        assert(out == s.push(o));
        assert(out[s.len() as int] == o);
        assert forall|m: int| 0 <= m < s.len() implies has_op(out, #[trigger] s[m]) by {
            assert(out[m] == s[m]);
        }
        assert forall|i: int, j: int| 0 <= i < j < out.len() implies (#[trigger] out[i]).start > (
        #[trigger] out[j]).start by {
            if j == s.len() {
                assert(out[i] == s[i]);
                if i < s.len() - 1 {
                    assert(s[i].start > s[s.len() - 1].start);
                }
            } else {
                assert(out[i] == s[i] && out[j] == s[j]);
            }
        }
    } else {
        let dl = s.drop_last();
        assert forall|i: int, j: int| 0 <= i < j < dl.len() implies (#[trigger] dl[i]).start > (
        #[trigger] dl[j]).start by {
            assert(dl[i] == s[i] && dl[j] == s[j]);
        }
        assert forall|m: int| 0 <= m < dl.len() implies (#[trigger] dl[m]).start != o.start by {
            assert(dl[m] == s[m]);
        }
        lemma_insert_strict(dl, o);
        lemma_insert_desc(dl, o);
        let r = insert_desc(dl, o);
        assert(out == r.push(s.last()));
        let w = choose|w: int| 0 <= w < r.len() && #[trigger] r[w] == o;
        assert(out[w] == o);
        assert(out[r.len() as int] == s[s.len() - 1]);
        assert forall|m: int| 0 <= m < s.len() implies has_op(out, #[trigger] s[m]) by {
            if m < dl.len() {
                assert(dl[m] == s[m]);
                assert(has_op(r, dl[m]));
                let w2 = choose|w2: int| 0 <= w2 < r.len() && #[trigger] r[w2] == dl[m];
                assert(out[w2] == r[w2]);
            }
        }
        assert forall|i: int, j: int| 0 <= i < j < out.len() implies (#[trigger] out[i]).start > (
        #[trigger] out[j]).start by {
            assert(out[i] == r[i]);
            if j < r.len() {
                assert(out[j] == r[j]);
            } else {
                assert(out[j] == s.last());
                if r[i] != o {
                    let m = choose|m: int| 0 <= m < dl.len() && r[i] == #[trigger] dl[m];
                    assert(dl[m] == s[m]);
                }
            }
        }
    }
}

/// Edits with pairwise different starts sort into strictly decreasing order, all kept.
proof fn lemma_sort_strict(ops: Seq<Op>)
    requires
        forall|i: int, j: int| 0 <= i < j < ops.len() ==> (#[trigger] ops[i]).start != (#[trigger] ops[j]).start,
    ensures
        strictly_desc(sort_ops(ops)),
        forall|m: int| 0 <= m < ops.len() ==> has_op(sort_ops(ops), #[trigger] ops[m]),
    decreases ops.len(),
{
    reveal(has_op);
    if ops.len() > 0 {
        let dl = ops.drop_last();
        assert forall|i: int, j: int| 0 <= i < j < dl.len() implies (#[trigger] dl[i]).start != (
        #[trigger] dl[j]).start by {
            assert(dl[i] == ops[i] && dl[j] == ops[j]);
        }
        lemma_sort_strict(dl);
        lemma_sort_ops(dl);
        let sd = sort_ops(dl);
        let o = ops.last();
        assert forall|m: int| 0 <= m < sd.len() implies (#[trigger] sd[m]).start != o.start by {
            let m2 = choose|m2: int| 0 <= m2 < dl.len() && #[trigger] sd[m] == #[trigger] dl[m2];
            assert(dl[m2] == ops[m2]);
        }
        lemma_insert_strict(sd, o);
        let out = sort_ops(ops);
        assert(out == insert_desc(sd, o));
        assert forall|m: int| 0 <= m < ops.len() implies has_op(out, #[trigger] ops[m]) by {
            if m < dl.len() {
                assert(dl[m] == ops[m]);
                assert(has_op(sd, dl[m]));
                let w = choose|w: int| 0 <= w < sd.len() && #[trigger] sd[w] == dl[m];
                assert(has_op(out, sd[w]));
            }
        }
    }
}

/// Two strictly decreasing lists of edits holding the same edits are the same list.
proof fn lemma_sorted_unique(x: Seq<Op>, y: Seq<Op>)
    requires
        strictly_desc(x),
        strictly_desc(y),
        forall|i: int| 0 <= i < x.len() ==> has_op(y, #[trigger] x[i]),
        forall|j: int| 0 <= j < y.len() ==> has_op(x, #[trigger] y[j]),
    ensures
        x == y,
    decreases x.len(),
{
    reveal(has_op);
    if x.len() == 0 {
        if y.len() > 0 {
            assert(has_op(x, y[0]));
        }
        assert(x =~= y);
    } else {
        assert(has_op(y, x[0]));
        let j0 = choose|j: int| 0 <= j < y.len() && #[trigger] y[j] == x[0];
        assert(has_op(x, y[0]));
        let i0 = choose|i: int| 0 <= i < x.len() && #[trigger] x[i] == y[0];
        if j0 > 0 {
            assert(y[0].start > y[j0].start);
            if i0 > 0 {
                assert(x[0].start > x[i0].start);
            }
        }
        assert(j0 == 0);
        let xs = x.skip(1);
        let ys = y.skip(1);
        assert forall|i: int| 0 <= i < xs.len() implies has_op(ys, #[trigger] xs[i]) by {
            assert(xs[i] == x[i + 1]);
            assert(has_op(y, x[i + 1]));
            let j = choose|j: int| 0 <= j < y.len() && #[trigger] y[j] == x[i + 1];
            assert(x[0].start > x[i + 1].start);
            assert(j != 0);
            assert(ys[j - 1] == y[j]);
        }
        assert forall|j: int| 0 <= j < ys.len() implies has_op(xs, #[trigger] ys[j]) by {
            assert(ys[j] == y[j + 1]);
            assert(has_op(x, y[j + 1]));
            let i = choose|i: int| 0 <= i < x.len() && #[trigger] x[i] == y[j + 1];
            assert(y[0].start > y[j + 1].start);
            assert(i != 0);
            assert(xs[i - 1] == x[i]);
        }
        assert forall|i: int, j: int| 0 <= i < j < xs.len() implies (#[trigger] xs[i]).start > (
        #[trigger] xs[j]).start by {
            assert(xs[i] == x[i + 1] && xs[j] == x[j + 1]);
        }
        assert forall|i: int, j: int| 0 <= i < j < ys.len() implies (#[trigger] ys[i]).start > (
        #[trigger] ys[j]).start by {
            assert(ys[i] == y[i + 1] && ys[j] == y[j + 1]);
        }
        lemma_sorted_unique(xs, ys);
        assert(x =~= seq![x[0]] + xs);
        assert(y =~= seq![y[0]] + ys);
    }
}



/// A batch of translations for distinct entries, each with its entry's shape.
pub open spec fn batch_ok(es: Seq<PoEntryView>, ts: Seq<(int, TranslationView)>) -> bool {
    &&& indices_in(es, ts)
    &&& forall|k1: int, k2: int| 0 <= k1 < k2 < ts.len() ==> (#[trigger] ts[k1]).0 != (#[trigger] ts[k2]).0
    &&& forall|m: int| 0 <= m < ts.len() ==> fits(es[(#[trigger] ts[m]).0], ts[m].1)
}

/// Every entry's msgstr starts above the flag block of every later entry.
pub open spec fn order_ok(es: Seq<PoEntryView>) -> bool {
    forall|a: int, b: int|
        0 <= a < b < es.len() ==> (#[trigger] es[a]).msgstr_start < (#[trigger] es[b]).flag_start
}

/// The edit writing translation `t` into entry `e`'s msgstr.
pub open spec fn msgstr_op(e: PoEntryView, t: TranslationView) -> Op {
    Op { start: e.msgstr_start, end: e.msgstr_end, repl: replacement(e, t)->0 }
}

/// The edit collapsing entry `e`'s flag block to `#, fuzzy`.
pub open spec fn flag_op(e: PoEntryView) -> Op {
    Op { start: e.flag_start, end: e.flag_end, repl: seq!["#, fuzzy"@] }
}

/// The translation a batch gives entry `a`, when it names it.
#[verifier::opaque]
pub open spec fn tr_at(ts: Seq<(int, TranslationView)>, a: int) -> Option<TranslationView> {
    if exists|m: int| 0 <= m < ts.len() && (#[trigger] ts[m]).0 == a {
        let m = choose|m: int| 0 <= m < ts.len() && (#[trigger] ts[m]).0 == a;
        Some(ts[m].1)
    } else {
        None
    }
}

/// The edits for the batch's entries below `b`, from the highest entry down.
pub open spec fn desc_ops(es: Seq<PoEntryView>, ts: Seq<(int, TranslationView)>, b: int) -> Seq<Op>
    decreases b,
{
    if b <= 0 {
        seq![]
    } else {
        match tr_at(ts, b - 1) {
            Some(t) => seq![msgstr_op(es[b - 1], t), flag_op(es[b - 1])] + desc_ops(es, ts, b - 1),
            None => desc_ops(es, ts, b - 1),
        }
    }
}

/// Whether `o` is one of the two edits for entry `e` with translation `t`.
pub open spec fn op_of_entry(o: Op, e: PoEntryView, t: TranslationView) -> bool {
    o == msgstr_op(e, t) || o == flag_op(e)
}

proof fn lemma_tr_at(ts: Seq<(int, TranslationView)>, m: int)
    requires
        0 <= m < ts.len(),
        forall|k1: int, k2: int| 0 <= k1 < k2 < ts.len() ==> (#[trigger] ts[k1]).0 != (#[trigger] ts[k2]).0,
    ensures
        tr_at(ts, ts[m].0) == Some(ts[m].1),
{
    reveal(tr_at);
    let a = ts[m].0;
    assert(exists|m2: int| 0 <= m2 < ts.len() && (#[trigger] ts[m2]).0 == a);
    let c = choose|m2: int| 0 <= m2 < ts.len() && (#[trigger] ts[m2]).0 == a;
    if c != m {
        if c < m {
            assert(ts[c].0 != ts[m].0);
        } else {
            assert(ts[m].0 != ts[c].0);
        }
    }
}

proof fn lemma_tr_at_some(ts: Seq<(int, TranslationView)>, a: int)
    requires
        tr_at(ts, a) is Some,
    ensures
        exists|m: int| 0 <= m < ts.len() && (#[trigger] ts[m]).0 == a && tr_at(ts, a) == Some(ts[m].1),
{
    reveal(tr_at);
}

/// The edits of a batch: each is one of the two for an entry it names, both of those are
/// there, and no two start on the same line.
proof fn lemma_ops_of_facts(es: Seq<PoEntryView>, ts: Seq<(int, TranslationView)>, n: int)
    requires
        batch_ok(es, ts),
        well_placed(es, 0, n),
        order_ok(es),
    ensures
        forall|q: int|
            0 <= q < ops_of(es, ts).len() ==> exists|m: int|
                0 <= m < ts.len() && op_of_entry(
                    #[trigger] ops_of(es, ts)[q],
                    es[ts[m].0],
                    ts[m].1,
                ),
        forall|m: int|
            0 <= m < ts.len() ==> has_op(ops_of(es, ts), msgstr_op(es[(#[trigger] ts[m]).0], ts[m].1))
                && has_op(ops_of(es, ts), flag_op(es[ts[m].0])),
        forall|i: int, j: int|
            0 <= i < j < ops_of(es, ts).len() ==> (#[trigger] ops_of(es, ts)[i]).start != (
            #[trigger] ops_of(es, ts)[j]).start,
    decreases ts.len(),
{
    if ts.len() > 0 {
        let dl = ts.drop_last();
        assert forall|k1: int, k2: int| 0 <= k1 < k2 < dl.len() implies (#[trigger] dl[k1]).0 != (
        #[trigger] dl[k2]).0 by {
            assert(dl[k1] == ts[k1] && dl[k2] == ts[k2]);
        }
        assert forall|m: int| 0 <= m < dl.len() implies fits(es[(#[trigger] dl[m]).0], dl[m].1) by {
            assert(dl[m] == ts[m]);
        }
        assert forall|k: int| 0 <= k < dl.len() implies 0 <= #[trigger] dl[k].0 < es.len() by {
            assert(dl[k] == ts[k]);
        }
        lemma_ops_of_facts(es, dl, n);
        let prev = ops_of(es, dl);
        let lm = ts.len() - 1;
        let a = ts[lm].0;
        let e = es[a];
        let t = ts[lm].1;
        assert(ts.last() == ts[lm]);
        assert(fits(e, t));
        let o1 = msgstr_op(e, t);
        let o2 = flag_op(e);
        let ops = ops_of(es, ts);
        assert(ops =~= prev + seq![o1, o2]);
        assert(placed(e, 0, n));
        assert forall|q: int| 0 <= q < ops.len() implies exists|m: int|
            0 <= m < ts.len() && op_of_entry(#[trigger] ops[q], es[ts[m].0], ts[m].1) by {
            if q < prev.len() {
                assert(ops[q] == prev[q]);
                let m = choose|m: int|
                    0 <= m < dl.len() && op_of_entry(#[trigger] prev[q], es[dl[m].0], dl[m].1);
                assert(dl[m] == ts[m]);
            } else {
                assert(op_of_entry(ops[q], es[ts[lm].0], ts[lm].1));
            }
        }
        assert forall|m: int| 0 <= m < ts.len() implies has_op(ops, msgstr_op(es[(#[trigger] ts[m]).0], ts[m].1))
            && has_op(ops, flag_op(es[ts[m].0])) by {
            if m < dl.len() {
                assert(dl[m] == ts[m]);
                let w1 = lemma_has_op_index(prev, msgstr_op(es[dl[m].0], dl[m].1));
                let w2 = lemma_has_op_index(prev, flag_op(es[dl[m].0]));
                assert(ops[w1] == prev[w1]);
                assert(ops[w2] == prev[w2]);
                lemma_has_op_at(ops, w1);
                lemma_has_op_at(ops, w2);
            } else {
                assert(ops[prev.len() as int] == o1);
                assert(ops[prev.len() as int + 1] == o2);
                lemma_has_op_at(ops, prev.len() as int);
                lemma_has_op_at(ops, prev.len() as int + 1);
            }
        }
        // The new edits start apart from every earlier one.
        assert forall|q: int| 0 <= q < prev.len() implies (#[trigger] prev[q]).start != o1.start
            && prev[q].start != o2.start by {
            let m = choose|m: int|
                0 <= m < dl.len() && op_of_entry(#[trigger] prev[q], es[dl[m].0], dl[m].1);
            assert(dl[m] == ts[m]);
            let b = ts[m].0;
            assert(b != a);
            let f = es[b];
            assert(placed(f, 0, n));
            if b < a {
                assert(f.msgstr_start < e.flag_start);
            } else {
                assert(e.msgstr_start < f.flag_start);
            }
        }
        assert forall|i: int, j: int| 0 <= i < j < ops.len() implies (#[trigger] ops[i]).start != (
        #[trigger] ops[j]).start by {
            if j < prev.len() {
                assert(ops[i] == prev[i] && ops[j] == prev[j]);
            } else if i < prev.len() {
                assert(ops[i] == prev[i]);
            }
        }
    }
}

proof fn lemma_has_op_at(ops: Seq<Op>, k: int)
    requires
        0 <= k < ops.len(),
    ensures
        has_op(ops, ops[k]),
{
    reveal(has_op);
}

proof fn lemma_has_op_index(ops: Seq<Op>, o: Op) -> (k: int)
    requires
        has_op(ops, o),
    ensures
        0 <= k < ops.len(),
        ops[k] == o,
{
    reveal(has_op);
    choose|k: int| 0 <= k < ops.len() && #[trigger] ops[k] == o
}

/// The edits for the batch's entries below `b` are edits of the batch, include both edits
/// for each such entry, and start on strictly decreasing lines, all above the next entry.
proof fn lemma_desc_ops_facts(es: Seq<PoEntryView>, ts: Seq<(int, TranslationView)>, b: int, n: int)
    requires
        0 <= b <= es.len(),
        well_placed(es, 0, n),
        order_ok(es),
        forall|a: int|
            0 <= a < es.len() && (#[trigger] tr_at(ts, a)) is Some ==> has_op(
                ops_of(es, ts),
                msgstr_op(es[a], tr_at(ts, a)->0),
            ) && has_op(
                ops_of(es, ts),
                flag_op(es[a]),
            ),
    ensures
        forall|q: int|
            0 <= q < desc_ops(es, ts, b).len() ==> has_op(ops_of(es, ts), #[trigger] desc_ops(es, ts, b)[q]),
        forall|a: int|
            0 <= a < b && (#[trigger] tr_at(ts, a)) is Some ==> has_op(
                desc_ops(es, ts, b),
                msgstr_op(es[a], tr_at(ts, a)->0),
            ) && has_op(desc_ops(es, ts, b), flag_op(es[a])),
        strictly_desc(desc_ops(es, ts, b)),
        b < es.len() ==> forall|q: int|
            0 <= q < desc_ops(es, ts, b).len() ==> (#[trigger] desc_ops(es, ts, b)[q]).start
                < es[b].flag_start,
    decreases b,
{
    if b > 0 {
        lemma_desc_ops_facts(es, ts, b - 1, n);
        let ops = ops_of(es, ts);
        let rest = desc_ops(es, ts, b - 1);
        let out = desc_ops(es, ts, b);
        let e = es[b - 1];
        assert(placed(e, 0, n));
        if b < es.len() {
            assert(placed(es[b], 0, n));
            assert(e.msgstr_start < es[b].flag_start);
        }
        match tr_at(ts, b - 1) {
            Some(t) => {
                let o1 = msgstr_op(e, t);
                let o2 = flag_op(e);
                assert(out =~= seq![o1, o2] + rest);
                assert forall|q: int| 0 <= q < out.len() implies has_op(ops, #[trigger] out[q]) by {
                    if q >= 2 {
                        assert(out[q] == rest[q - 2]);
                    }
                }
                assert forall|a: int| 0 <= a < b && (#[trigger] tr_at(ts, a)) is Some implies has_op(
                    out,
                    msgstr_op(es[a], tr_at(ts, a)->0),
                ) && has_op(out, flag_op(es[a])) by {
                    if a == b - 1 {
                        lemma_has_op_at(out, 0);
                        lemma_has_op_at(out, 1);
                    } else {
                        let w1 = lemma_has_op_index(rest, msgstr_op(es[a], tr_at(ts, a)->0));
                        let w2 = lemma_has_op_index(rest, flag_op(es[a]));
                        assert(out[w1 + 2] == rest[w1]);
                        assert(out[w2 + 2] == rest[w2]);
                        lemma_has_op_at(out, w1 + 2);
                        lemma_has_op_at(out, w2 + 2);
                    }
                }
                assert forall|i: int, j: int| 0 <= i < j < out.len() implies (#[trigger] out[i]).start > (
                #[trigger] out[j]).start by {
                    if i >= 2 {
                        assert(out[i] == rest[i - 2] && out[j] == rest[j - 2]);
                    } else if j >= 2 {
                        assert(out[j] == rest[j - 2]);
                    }
                }
                if b < es.len() {
                    assert forall|q: int| 0 <= q < out.len() implies (#[trigger] out[q]).start
                        < es[b].flag_start by {
                        if q >= 2 {
                            assert(out[q] == rest[q - 2]);
                        }
                    }
                }
            },
            None => {
                assert(out == rest);
                assert forall|a: int| 0 <= a < b && (#[trigger] tr_at(ts, a)) is Some implies has_op(
                    out,
                    msgstr_op(es[a], tr_at(ts, a)->0),
                ) && has_op(out, flag_op(es[a])) by {
                    assert(a != b - 1);
                }
            },
        }
    }
}

/// Sorting a batch's edits lists them entry by entry from the bottom of the file up.
proof fn lemma_sorted_batch(es: Seq<PoEntryView>, ts: Seq<(int, TranslationView)>, n: int)
    requires
        batch_ok(es, ts),
        well_placed(es, 0, n),
        order_ok(es),
    ensures
        sort_ops(ops_of(es, ts)) == desc_ops(es, ts, es.len() as int),
{
    let ops = ops_of(es, ts);
    let x = sort_ops(ops);
    let y = desc_ops(es, ts, es.len() as int);
    lemma_ops_of_facts(es, ts, n);
    lemma_sort_strict(ops);
    lemma_sort_ops(ops);
    assert forall|a: int| 0 <= a < es.len() && (#[trigger] tr_at(ts, a)) is Some implies has_op(
        ops,
        msgstr_op(es[a], tr_at(ts, a)->0),
    ) && has_op(ops, flag_op(es[a])) by {
        lemma_tr_at_some(ts, a);
        let m = choose|m: int| 0 <= m < ts.len() && (#[trigger] ts[m]).0 == a && tr_at(ts, a) == Some(ts[m].1);
        assert(has_op(ops, msgstr_op(es[ts[m].0], ts[m].1)));
    }
    lemma_desc_ops_facts(es, ts, es.len() as int, n);
    assert forall|i: int| 0 <= i < x.len() implies has_op(y, #[trigger] x[i]) by {
        let q = choose|q: int| 0 <= q < ops.len() && #[trigger] x[i] == #[trigger] ops[q];
        let m = choose|m: int| 0 <= m < ts.len() && op_of_entry(#[trigger] ops[q], es[ts[m].0], ts[m].1);
        lemma_tr_at(ts, m);
        assert(tr_at(ts, ts[m].0) is Some);
    }
    assert forall|j: int| 0 <= j < y.len() implies has_op(x, #[trigger] y[j]) by {
        let q = lemma_has_op_index(ops, y[j]);
        assert(has_op(x, ops[q]));
    }
    lemma_sorted_unique(x, y);
}


/// The lines after writing the batch's translations into its entries below `b`, from the
/// highest entry down.
pub open spec fn patch_down(
    l: Seq<Seq<char>>,
    es: Seq<PoEntryView>,
    ts: Seq<(int, TranslationView)>,
    b: int,
) -> Seq<Seq<char>>
    decreases b,
{
    if b <= 0 {
        l
    } else {
        match tr_at(ts, b - 1) {
            Some(t) => patch_down(patched(l, es[b - 1], replacement(es[b - 1], t)->0), es, ts, b - 1),
            None => patch_down(l, es, ts, b - 1),
        }
    }
}

/// How entry `x`, read after a batch, stands to entry `e` read before it: holding translation
/// `t` and settled, or, when the batch gave it nothing, unchanged but for where it lies.
pub open spec fn corresponds(x: PoEntryView, e: PoEntryView, t: Option<TranslationView>) -> bool {
    match t {
        Some(t) => {
            &&& x.msgid == e.msgid
            &&& x.msgid_plural == e.msgid_plural
            &&& holds(x, t)
            &&& x.is_fuzzy
            &&& !x.has_prev_msgid
        },
        None => {
            &&& x.msgid == e.msgid
            &&& x.msgstr == e.msgstr
            &&& x.msgid_plural == e.msgid_plural
            &&& x.msgstr_plural == e.msgstr_plural
            &&& x.comment == e.comment
            &&& x.is_fuzzy == e.is_fuzzy
            &&& x.has_prev_msgid == e.has_prev_msgid
        },
    }
}

/// Applying the batch's edits from the bottom up is patching its entries from the highest
/// down.
proof fn lemma_splice_down(
    p: Seq<Seq<char>>,
    es: Seq<PoEntryView>,
    ts: Seq<(int, TranslationView)>,
    b: int,
    n: int,
)
    requires
        0 <= b <= es.len(),
        well_placed(es, 0, n),
        b > 0 ==> es[b - 1].msgstr_end <= p.len(),
    ensures
        splice_all(p, desc_ops(es, ts, b)) == patch_down(p, es, ts, b),
    decreases b,
{
    if b > 0 {
        let e = es[b - 1];
        assert(placed(e, 0, n));
        if b > 1 {
            assert(placed(es[b - 2], 0, n));
            assert(es[b - 2].msgstr_end <= e.flag_start);
        }
        let rest = desc_ops(es, ts, b - 1);
        match tr_at(ts, b - 1) {
            Some(t) => {
                let o1 = msgstr_op(e, t);
                let o2 = flag_op(e);
                let x = seq![o1, o2] + rest;
                assert(desc_ops(es, ts, b) == x);
                assert(x[0] == o1);
                assert(x.skip(1) =~= seq![o2] + rest);
                assert((seq![o2] + rest)[0] == o2);
                assert((seq![o2] + rest).skip(1) =~= rest);
                let p1 = splice(p, o1);
                let p2 = splice(p1, o2);
                assert(splice_all(p, x) == splice_all(p1, seq![o2] + rest));
                assert(splice_all(p1, seq![o2] + rest) == splice_all(p2, rest));
                assert(p2 =~= patched(p, e, replacement(e, t)->0));
                lemma_splice_down(p2, es, ts, b - 1, n);
            },
            None => {
                lemma_splice_down(p, es, ts, b - 1, n);
            },
        }
    }
}

/// Lines with no line break stay so when the batch is
/// written into them; they are never left empty.
proof fn lemma_clean_down(
    p: Seq<Seq<char>>,
    es: Seq<PoEntryView>,
    ts: Seq<(int, TranslationView)>,
    b: int,
    n: int,
)
    requires
        0 <= b <= es.len(),
        well_placed(es, 0, n),
        b > 0 ==> es[b - 1].msgstr_end <= p.len(),
        forall|a: int|
            0 <= a < es.len() && (#[trigger] tr_at(ts, a)) is Some ==> fits(es[a], tr_at(ts, a)->0),
        forall|a: int, c: int| 0 <= a < p.len() && 0 <= c < p[a].len() ==> #[trigger] p[a][c] != '\n',
    ensures
        ({
            let q = patch_down(p, es, ts, b);
            &&& forall|a: int, c: int| 0 <= a < q.len() && 0 <= c < q[a].len() ==> #[trigger] q[a][c] != '\n'
            &&& p.len() > 0 ==> q.len() > 0
        }),
    decreases b,
{
    if b > 0 {
        let e = es[b - 1];
        assert(placed(e, 0, n));
        if b > 1 {
            assert(placed(es[b - 2], 0, n));
            assert(es[b - 2].msgstr_end <= e.flag_start);
        }
        match tr_at(ts, b - 1) {
            Some(t) => {
                lemma_repl_clean(e, t);
                let repl = replacement(e, t)->0;
                lemma_patched_clean(p, e, repl);
                lemma_clean_down(patched(p, e, repl), es, ts, b - 1, n);
            },
            None => {
                lemma_clean_down(p, es, ts, b - 1, n);
            },
        }
    }
}

/// A shifted entry stands to an entry as the unshifted one does.
proof fn lemma_corresponds_shift(x: PoEntryView, e: PoEntryView, t: Option<TranslationView>, d: int)
    requires
        corresponds(x, e, t),
    ensures
        corresponds(shift_entry(x, d), e, t),
{
}

/// Reading the lines as the batch is written in, entry by entry from the highest down: the
/// entries below `b` are still those of the file, and the others already stand to them as
/// the batch says.
proof fn lemma_read_down(
    l: Seq<Seq<char>>,
    es: Seq<PoEntryView>,
    ts: Seq<(int, TranslationView)>,
    b: int,
)
    requires
        0 <= b <= es.len(),
        scan(l, 0, scan_init()).len() == es.len(),
        scan(l, 0, scan_init()).take(b) == es.take(b),
        forall|a: int|
            b <= a < es.len() ==> corresponds(
                #[trigger] scan(l, 0, scan_init())[a],
                es[a],
                tr_at(ts, a),
            ),
        forall|a: int|
            0 <= a < es.len() && (#[trigger] tr_at(ts, a)) is Some ==> fits(es[a], tr_at(ts, a)->0),
    ensures
        scan(patch_down(l, es, ts, b), 0, scan_init()).len() == es.len(),
        forall|a: int|
            0 <= a < es.len() ==> corresponds(
                #[trigger] scan(patch_down(l, es, ts, b), 0, scan_init())[a],
                es[a],
                tr_at(ts, a),
            ),
    decreases b,
{
    let cur = scan(l, 0, scan_init());
    if b > 0 {
        let k = b - 1;
        assert(cur[k] == cur.take(b)[k]);
        assert(es[k] == es.take(b)[k]);
        assert(cur.take(k) =~= cur.take(b).take(k));
        assert(es.take(k) =~= es.take(b).take(k));
        match tr_at(ts, k) {
            Some(t) => {
                lemma_patch_read(l, k, t);
                let l2 = patched(l, es[k], replacement(es[k], t)->0);
                let nxt = scan(l2, 0, scan_init());
                let d = l2.len() - l.len();
                assert forall|a: int| k <= a < es.len() implies corresponds(
                    #[trigger] nxt[a],
                    es[a],
                    tr_at(ts, a),
                ) by {
                    if a > k {
                        assert(nxt[a] == nxt.skip(k + 1)[a - k - 1]);
                        assert(cur.skip(k + 1)[a - k - 1] == cur[a]);
                        assert(nxt[a] == shift_entry(cur[a], d));
                        lemma_corresponds_shift(cur[a], es[a], tr_at(ts, a), d);
                    }
                }
                lemma_read_down(l2, es, ts, k);
            },
            None => {
                lemma_read_down(l, es, ts, k);
            },
        }
    }
}

/// A line opening a msgstr statement is neither a comment nor a msgid line.
proof fn lemma_line_kinds(t: Seq<char>)
    requires
        has_prefix(t, "msgstr "@) || has_prefix(t, "msgstr["@),
    ensures
        !has_prefix(t, seq!['#']),
        !has_prefix(t, "msgid "@),
{
    reveal_strlit("msgstr ");
    reveal_strlit("msgstr[");
    reveal_strlit("msgid ");
    assert(t[0] == t.take(7)[0]);
    assert(t[3] == t.take(7)[3]);
    if has_prefix(t, seq!['#']) {
        assert(t.take(1)[0] == t[0]);
    }
    if has_prefix(t, "msgid "@) {
        assert(t.take(6)[3] == t[3]);
    }
}

/// In a file read, every entry's msgstr starts above the flag block of every later entry.
proof fn lemma_order(l: Seq<Seq<char>>)
    ensures
        order_ok(scan(l, 0, scan_init())),
{
    let es = scan(l, 0, scan_init());
    lemma_scan_placed(l, 0, scan_init(), 0);
    assert forall|a: int, b: int| 0 <= a < b < es.len() implies (#[trigger] es[a]).msgstr_start < (
    #[trigger] es[b]).flag_start by {
        lemma_reach_entry(l, 0, scan_init(), a);
        lemma_reach_entry(l, 0, scan_init(), b);
        assert(placed(es[a], 0, l.len() as int));
        let k = es[a].msgstr_start;
        let f = es[b].flag_start;
        if k == f {
            let line = trim_start(l[k]);
            lemma_line_kinds(line);
        }
    }
}

/// Whether entry `x`, holding translation `t`, is left out of the candidates for
/// translation: so it is when the translation is not empty (for a plural one, when none of
/// its forms is).
pub open spec fn not_offered(x: PoEntryView, t: TranslationView) -> bool {
    match t {
        TranslationView::Singular(s) => s.len() > 0 ==> !is_candidate(x),
        TranslationView::Plural(fs) => (forall|j: int| 0 <= j < fs.len() ==> (#[trigger] fs[j]).len() > 0)
            ==> !is_plural_candidate(x),
    }
}

/// A batch whose every translation fits its entry is settled (see
/// [`law_translated_batch_is_settled`]).
proof fn lemma_fitting_batch_settled(content: Seq<char>, ts: Seq<(int, TranslationView)>)
    requires
        batch_ok(po_entries(content), ts),
    ensures
        ({
            let es = po_entries(content);
            let lines = splice_all(lines_of(content), sort_ops(ops_of(es, ts)));
            let es2 = po_entries(render_lines(lines));
            &&& es2.len() == es.len()
            &&& forall|m: int|
                0 <= m < ts.len() ==> {
                    let x = #[trigger] es2[ts[m].0];
                    &&& x.msgid == es[ts[m].0].msgid
                    &&& x.msgid_plural == es[ts[m].0].msgid_plural
                    &&& holds(x, ts[m].1)
                    &&& x.is_fuzzy
                    &&& !x.has_prev_msgid
                    &&& not_offered(x, ts[m].1)
                }
            &&& forall|a: int|
                0 <= a < es.len() && (forall|m: int| 0 <= m < ts.len() ==> (#[trigger] ts[m]).0 != a)
                    ==> corresponds(#[trigger] es2[a], es[a], None)
        }),
{
    let l = lines_of(content);
    let es = po_entries(content);
    let n = l.len() as int;
    lemma_scan_placed(l, 0, scan_init(), 0);
    lemma_order(l);
    lemma_sorted_batch(es, ts, n);
    let lines = splice_all(l, sort_ops(ops_of(es, ts)));
    if es.len() > 0 {
        assert(placed(es[es.len() - 1], 0, n));
    }
    lemma_splice_down(l, es, ts, es.len() as int, n);
    assert(lines == patch_down(l, es, ts, es.len() as int));
    assert forall|a: int| 0 <= a < es.len() && (#[trigger] tr_at(ts, a)) is Some implies fits(
        es[a],
        tr_at(ts, a)->0,
    ) by {
        lemma_tr_at_some(ts, a);
    }
    assert(es.take(es.len() as int) =~= es);
    lemma_read_down(l, es, ts, es.len() as int);
    let es2 = scan(lines, 0, scan_init());
    crate::text::lemma_lines_have_no_breaks(content);
    lemma_clean_down(l, es, ts, es.len() as int, n);
    if l.len() > 0 {
        lemma_lines_render_any(lines);
        lemma_scan_strip(lines, 0, scan_init());
        assert(po_entries(render_lines(lines)) == es2);
    } else {
        assert(es.len() == 0);
        assert(lines == l);
        assert(render_lines(lines) =~= seq!['\n']);
        let s = render_lines(lines);
        crate::text::lemma_lines_cons(Seq::<char>::empty(), Seq::<char>::empty());
        assert(Seq::<char>::empty() + seq!['\n'] + Seq::<char>::empty() =~= s);
        assert(lines_of(Seq::<char>::empty()) =~= Seq::<Seq<char>>::empty());
        assert(lines_of(s) =~= seq![Seq::<char>::empty()]);
        let z = seq![Seq::<char>::empty()];
        assert(trim_start(z[0]) =~= Seq::<char>::empty());
        assert(scan(z, 1, scan_init()) == Seq::<PoEntryView>::empty());
        assert(scan(z, 0, scan_init()) == Seq::<PoEntryView>::empty());
    }
    let es3 = po_entries(render_lines(lines));
    assert forall|m: int| 0 <= m < ts.len() implies {
        let x = #[trigger] es3[ts[m].0];
        &&& x.msgid == es[ts[m].0].msgid
        &&& x.msgid_plural == es[ts[m].0].msgid_plural
        &&& holds(x, ts[m].1)
        &&& x.is_fuzzy
        &&& !x.has_prev_msgid
        &&& not_offered(x, ts[m].1)
    } by {
        lemma_tr_at(ts, m);
        let a = ts[m].0;
        let x = es3[a];
        assert(corresponds(es2[a], es[a], tr_at(ts, a)));
        assert(fits(es[a], ts[m].1));
        match ts[m].1 {
            TranslationView::Singular(s) => {},
            TranslationView::Plural(fs) => {
                if forall|j: int| 0 <= j < fs.len() ==> (#[trigger] fs[j]).len() > 0 {
                    assert(!has_blank_form(fs));
                }
            },
        }
    }
    assert forall|a: int|
        0 <= a < es.len() && (forall|m: int| 0 <= m < ts.len() ==> (#[trigger] ts[m]).0 != a) implies corresponds(
        #[trigger] es3[a],
        es[a],
        None,
    ) by {
        if tr_at(ts, a) is Some {
            lemma_tr_at_some(ts, a);
        }
        assert(corresponds(es2[a], es[a], tr_at(ts, a)));
    }
}


/// A batch of translations for distinct entries, no plural translation without a form.
pub open spec fn loose_batch_ok(es: Seq<PoEntryView>, ts: Seq<(int, TranslationView)>) -> bool {
    &&& indices_in(es, ts)
    &&& forall|k1: int, k2: int| 0 <= k1 < k2 < ts.len() ==> (#[trigger] ts[k1]).0 != (#[trigger] ts[k2]).0
    &&& forall|m: int|
        0 <= m < ts.len() ==> ((#[trigger] ts[m]).1 matches TranslationView::Plural(fs) ==> fs.len() > 0)
}

/// The translations of a batch that have their entry's shape, in batch order.
pub open spec fn fitting(es: Seq<PoEntryView>, ts: Seq<(int, TranslationView)>) -> Seq<(int, TranslationView)>
    decreases ts.len(),
{
    if ts.len() == 0 {
        seq![]
    } else if replacement(es[ts.last().0], ts.last().1) is Some {
        fitting(es, ts.drop_last()).push(ts.last())
    } else {
        fitting(es, ts.drop_last())
    }
}

/// The fitting translations ask for the batch's edits.
proof fn lemma_fitting_ops(es: Seq<PoEntryView>, ts: Seq<(int, TranslationView)>)
    ensures
        ops_of(es, fitting(es, ts)) == ops_of(es, ts),
    decreases ts.len(),
{
    if ts.len() > 0 {
        let dl = ts.drop_last();
        let last = ts.last();
        lemma_fitting_ops(es, dl);
        let fd = fitting(es, dl);
        let f = fitting(es, ts);
        if replacement(es[last.0], last.1) is Some {
            assert(f.drop_last() =~= fd);
            assert(f.last() == last);
        }
    }
}

/// Each fitting translation is a translation of the batch that has its entry's shape.
proof fn lemma_fitting_from(es: Seq<PoEntryView>, ts: Seq<(int, TranslationView)>)
    ensures
        forall|q: int|
            0 <= q < fitting(es, ts).len() ==> exists|k: int|
                0 <= k < ts.len() && #[trigger] fitting(es, ts)[q] == ts[k] && replacement(
                    es[ts[k].0],
                    ts[k].1,
                ) is Some,
    decreases ts.len(),
{
    if ts.len() > 0 {
        let dl = ts.drop_last();
        let last = ts.last();
        lemma_fitting_from(es, dl);
        let fd = fitting(es, dl);
        let f = fitting(es, ts);
        assert(last == ts[ts.len() - 1]);
        if replacement(es[last.0], last.1) is Some {
            assert(f == fd.push(last));
        } else {
            assert(f == fd);
        }
        assert forall|q: int| 0 <= q < f.len() implies exists|k: int|
            0 <= k < ts.len() && #[trigger] f[q] == ts[k] && replacement(es[ts[k].0], ts[k].1) is Some by {
            if q < fd.len() {
                assert(f[q] == fd[q]);
                let k = choose|k: int|
                    0 <= k < dl.len() && #[trigger] fd[q] == dl[k] && replacement(es[dl[k].0], dl[k].1) is Some;
                assert(dl[k] == ts[k]);
            } else {
                assert(f[q] == ts[ts.len() - 1]);
            }
        }
    }
}

/// Each translation of the batch that has its entry's shape is among the fitting ones.
proof fn lemma_fitting_all(es: Seq<PoEntryView>, ts: Seq<(int, TranslationView)>)
    ensures
        forall|k: int|
            0 <= k < ts.len() && replacement(es[(#[trigger] ts[k]).0], ts[k].1) is Some ==> exists|q: int|
                0 <= q < fitting(es, ts).len() && fitting(es, ts)[q] == ts[k],
    decreases ts.len(),
{
    if ts.len() > 0 {
        let dl = ts.drop_last();
        let last = ts.last();
        lemma_fitting_all(es, dl);
        let fd = fitting(es, dl);
        let f = fitting(es, ts);
        assert(last == ts[ts.len() - 1]);
        if replacement(es[last.0], last.1) is Some {
            assert(f == fd.push(last));
        } else {
            assert(f == fd);
        }
        assert forall|k: int| 0 <= k < ts.len() && replacement(es[(#[trigger] ts[k]).0], ts[k].1) is Some implies exists|q: int|
            0 <= q < f.len() && f[q] == ts[k] by {
            if k < dl.len() {
                assert(dl[k] == ts[k]);
                let q = choose|q: int| 0 <= q < fd.len() && fd[q] == dl[k];
                assert(f[q] == fd[q]);
            } else {
                assert(f[fd.len() as int] == last);
            }
        }
    }
}

/// Of a batch that names each entry once, the fitting translations name each entry once.
proof fn lemma_fitting_distinct(es: Seq<PoEntryView>, ts: Seq<(int, TranslationView)>)
    requires
        forall|k1: int, k2: int| 0 <= k1 < k2 < ts.len() ==> (#[trigger] ts[k1]).0 != (#[trigger] ts[k2]).0,
    ensures
        forall|q1: int, q2: int|
            0 <= q1 < q2 < fitting(es, ts).len() ==> (#[trigger] fitting(es, ts)[q1]).0 != (
            #[trigger] fitting(es, ts)[q2]).0,
    decreases ts.len(),
{
    if ts.len() > 0 {
        let dl = ts.drop_last();
        let last = ts.last();
        assert forall|k1: int, k2: int| 0 <= k1 < k2 < dl.len() implies (#[trigger] dl[k1]).0 != (
        #[trigger] dl[k2]).0 by {
            assert(dl[k1] == ts[k1] && dl[k2] == ts[k2]);
        }
        lemma_fitting_distinct(es, dl);
        lemma_fitting_from(es, dl);
        let fd = fitting(es, dl);
        let f = fitting(es, ts);
        assert(last == ts[ts.len() - 1]);
        assert(forall|q: int| 0 <= q < fd.len() ==> f[q] == fd[q]);
        assert forall|q1: int, q2: int| 0 <= q1 < q2 < f.len() implies (#[trigger] f[q1]).0 != (
        #[trigger] f[q2]).0 by {
            if q2 >= fd.len() {
                assert(f[q2] == last);
                let k = choose|k: int|
                    0 <= k < dl.len() && #[trigger] fd[q1] == dl[k] && replacement(es[dl[k].0], dl[k].1) is Some;
                assert(dl[k] == ts[k]);
            }
        }
    }
}

/// Translations written in one batch are settled: read back from the rendered file, each
/// translation that has its entry's shape leaves that entry with its msgid and msgid_plural,
/// holding the translation, flagged fuzzy with no `#|` comment, and so, when the translation
/// is not empty, not offered for translation again; every other entry, one the batch does not
/// name or names with a translation of the wrong shape, reads as it did (its texts, note and
/// flags), and no entry is gained or lost. Stated for a batch of translations for distinct
/// entries, no plural one without a form.
pub proof fn law_translated_batch_is_settled(content: Seq<char>, ts: Seq<(int, TranslationView)>)
    requires
        loose_batch_ok(po_entries(content), ts),
    ensures
        ({
            let es = po_entries(content);
            let lines = splice_all(lines_of(content), sort_ops(ops_of(es, ts)));
            let es2 = po_entries(render_lines(lines));
            &&& es2.len() == es.len()
            &&& forall|m: int|
                0 <= m < ts.len() && replacement(es[(#[trigger] ts[m]).0], ts[m].1) is Some ==> {
                    let x = es2[ts[m].0];
                    &&& x.msgid == es[ts[m].0].msgid
                    &&& x.msgid_plural == es[ts[m].0].msgid_plural
                    &&& holds(x, ts[m].1)
                    &&& x.is_fuzzy
                    &&& !x.has_prev_msgid
                    &&& not_offered(x, ts[m].1)
                }
            &&& forall|a: int|
                0 <= a < es.len() && (forall|m: int|
                    0 <= m < ts.len() && (#[trigger] ts[m]).0 == a ==> replacement(es[a], ts[m].1) is None)
                    ==> corresponds(#[trigger] es2[a], es[a], None)
        }),
{
    let es = po_entries(content);
    lemma_fitting_ops(es, ts);
    lemma_fitting_from(es, ts);
    lemma_fitting_all(es, ts);
    lemma_fitting_distinct(es, ts);
    let f = fitting(es, ts);
    assert forall|q: int| 0 <= q < f.len() implies 0 <= #[trigger] f[q].0 < es.len() by {
        let k = choose|k: int| 0 <= k < ts.len() && #[trigger] f[q] == ts[k] && replacement(es[ts[k].0], ts[k].1) is Some;
    }
    assert forall|q: int| 0 <= q < f.len() implies fits(es[(#[trigger] f[q]).0], f[q].1) by {
        let k = choose|k: int| 0 <= k < ts.len() && #[trigger] f[q] == ts[k] && replacement(es[ts[k].0], ts[k].1) is Some;
    }
    assert(batch_ok(es, f));
    lemma_fitting_batch_settled(content, f);
    let lines = splice_all(lines_of(content), sort_ops(ops_of(es, ts)));
    assert(lines == splice_all(lines_of(content), sort_ops(ops_of(es, f))));
    let es2 = po_entries(render_lines(lines));
    assert forall|m: int| 0 <= m < ts.len() && replacement(es[(#[trigger] ts[m]).0], ts[m].1) is Some implies {
        let x = es2[ts[m].0];
        &&& x.msgid == es[ts[m].0].msgid
        &&& x.msgid_plural == es[ts[m].0].msgid_plural
        &&& holds(x, ts[m].1)
        &&& x.is_fuzzy
        &&& !x.has_prev_msgid
        &&& not_offered(x, ts[m].1)
    } by {
        let q = choose|q: int| 0 <= q < f.len() && f[q] == ts[m];
        assert(es2[f[q].0] == es2[ts[m].0]);
    }
    assert forall|a: int|
        0 <= a < es.len() && (forall|m: int|
            0 <= m < ts.len() && (#[trigger] ts[m]).0 == a ==> replacement(es[a], ts[m].1) is None)
            implies corresponds(#[trigger] es2[a], es[a], None) by {
        assert forall|q: int| 0 <= q < f.len() implies (#[trigger] f[q]).0 != a by {
            let k = choose|k: int| 0 <= k < ts.len() && #[trigger] f[q] == ts[k] && replacement(es[ts[k].0], ts[k].1) is Some;
            if f[q].0 == a {
                assert(ts[k].0 == a);
            }
        }
    }
}

} // verus!
