//! Character-level text primitives: the views of `str` and `String` as `Seq<char>`, the
//! whitespace classes, trimming, prefix and substring search, line splitting and joining.
use vstd::prelude::*;

verus! {

/// Unicode `White_Space`, the class that `str::trim` and `char::is_whitespace` use.
pub open spec fn is_white_space(c: char) -> bool {
    let u = c as u32;
    ||| 0x09 <= u <= 0x0D
    ||| u == 0x20
    ||| u == 0x85
    ||| u == 0xA0
    ||| u == 0x1680
    ||| 0x2000 <= u <= 0x200A
    ||| u == 0x2028
    ||| u == 0x2029
    ||| u == 0x202F
    ||| u == 0x205F
    ||| u == 0x3000
}

/// ASCII whitespace as `char::is_ascii_whitespace` defines it (no vertical tab).
pub open spec fn is_ascii_white_space(c: char) -> bool {
    c == ' ' || c == '\t' || c == '\n' || c == '\x0C' || c == '\r'
}

pub open spec fn is_digit(c: char) -> bool {
    '0' <= c && c <= '9'
}

pub fn white_space(c: char) -> (r: bool)
    ensures
        r == is_white_space(c),
{
    let u = c as u32;
    (0x09 <= u && u <= 0x0D) || u == 0x20 || u == 0x85 || u == 0xA0 || u == 0x1680 || (0x2000
        <= u && u <= 0x200A) || u == 0x2028 || u == 0x2029 || u == 0x202F || u == 0x205F || u
        == 0x3000
}

pub fn ascii_white_space(c: char) -> (r: bool)
    ensures
        r == is_ascii_white_space(c),
{
    c == ' ' || c == '\t' || c == '\n' || c == '\x0C' || c == '\r'
}

pub fn digit(c: char) -> (r: bool)
    ensures
        r == is_digit(c),
{
    '0' <= c && c <= '9'
}

/// `s` with its leading whitespace removed.
pub open spec fn trim_start(s: Seq<char>) -> Seq<char>
    decreases s.len(),
{
    if s.len() > 0 && is_white_space(s[0]) {
        trim_start(s.drop_first())
    } else {
        s
    }
}

/// `s` with its trailing whitespace removed.
pub open spec fn trim_end(s: Seq<char>) -> Seq<char>
    decreases s.len(),
{
    if s.len() > 0 && is_white_space(s.last()) {
        trim_end(s.drop_last())
    } else {
        s
    }
}

pub open spec fn trim(s: Seq<char>) -> Seq<char> {
    trim_end(trim_start(s))
}

pub open spec fn has_prefix(s: Seq<char>, p: Seq<char>) -> bool {
    p.len() <= s.len() && s.take(p.len() as int) == p
}

pub open spec fn has_suffix(s: Seq<char>, p: Seq<char>) -> bool {
    p.len() <= s.len() && s.skip(s.len() - p.len()) == p
}

/// What follows `p` in `s` when `s` starts with it, else `s` itself (`strip_prefix(..).unwrap_or(s)`).
pub open spec fn without_prefix(s: Seq<char>, p: Seq<char>) -> Seq<char> {
    if has_prefix(s, p) {
        s.skip(p.len() as int)
    } else {
        s
    }
}

/// The first index at or after `from` where `p` occurs in `s`.
pub open spec fn find_from(s: Seq<char>, p: Seq<char>, from: int) -> Option<int>
    decreases s.len() + 1 - from,
{
    if from < 0 || from + p.len() > s.len() {
        None
    } else if s.subrange(from, from + p.len()) == p {
        Some(from)
    } else {
        find_from(s, p, from + 1)
    }
}

pub open spec fn find(s: Seq<char>, p: Seq<char>) -> Option<int> {
    find_from(s, p, 0)
}

pub open spec fn contains(s: Seq<char>, p: Seq<char>) -> bool {
    find(s, p) is Some
}

/// The first index of `c` in `s`.
pub open spec fn index_of(s: Seq<char>, c: char) -> Option<int> {
    find(s, seq![c])
}

/// A line as `str::lines` yields it: the `\n` dropped, and a `\r` right before it too.
pub open spec fn strip_cr(l: Seq<char>) -> Seq<char> {
    if l.len() > 0 && l.last() == '\r' {
        l.drop_last()
    } else {
        l
    }
}

/// The lines of `s`, as `str::lines` splits them.
pub open spec fn lines_of(s: Seq<char>) -> Seq<Seq<char>>
    decreases s.len(),
{
    if s.len() == 0 {
        seq![]
    } else {
        match index_of(s, '\n') {
            Some(i) => {
                if 0 <= i < s.len() {
                    seq![strip_cr(s.take(i))] + lines_of(s.skip(i + 1))
                } else {
                    seq![s]
                }
            },
            None => seq![s],
        }
    }
}

/// The pieces joined with `sep` between each two.
pub open spec fn join(parts: Seq<Seq<char>>, sep: Seq<char>) -> Seq<char>
    decreases parts.len(),
{
    if parts.len() == 0 {
        seq![]
    } else if parts.len() == 1 {
        parts[0]
    } else {
        join(parts.drop_last(), sep) + sep + parts.last()
    }
}

/// The pieces of `s` between the non-overlapping occurrences of `pat`, left to right.
pub open spec fn split_on(s: Seq<char>, pat: Seq<char>) -> Seq<Seq<char>>
    decreases s.len(),
{
    if pat.len() == 0 {
        seq![s]
    } else {
        match find(s, pat) {
            Some(i) => {
                if 0 <= i && i + pat.len() <= s.len() {
                    seq![s.take(i)] + split_on(s.skip(i + pat.len()), pat)
                } else {
                    seq![s]
                }
            },
            None => seq![s],
        }
    }
}

pub open spec fn views(v: Seq<Vec<char>>) -> Seq<Seq<char>> {
    v.map_values(|x: Vec<char>| x@)
}

pub open spec fn string_views(v: Seq<String>) -> Seq<Seq<char>> {
    v.map_values(|x: String| x@)
}

pub open spec fn opt_view(o: Option<String>) -> Option<Seq<char>> {
    match o {
        Some(s) => Some(s@),
        None => None,
    }
}

pub proof fn lemma_find_from_bounds(s: Seq<char>, p: Seq<char>, from: int)
    requires
        0 <= from,
    ensures
        find_from(s, p, from) matches Some(i) ==> from <= i && i + p.len() <= s.len() && s.subrange(
            i,
            i + p.len(),
        ) == p,
        find_from(s, p, from) is None ==> forall|j: int|
            from <= j && j + p.len() <= s.len() ==> #[trigger] s.subrange(j, j + p.len()) != p,
    decreases s.len() + 1 - from,
{
    if from >= 0 && from + p.len() <= s.len() && s.subrange(from, from + p.len()) != p {
        lemma_find_from_bounds(s, p, from + 1);
    }
}

/// Nothing matches `p` between `from` and the first match.
pub proof fn lemma_find_from_first(s: Seq<char>, p: Seq<char>, from: int)
    requires
        0 <= from,
    ensures
        find_from(s, p, from) matches Some(i) ==> forall|j: int|
            from <= j < i ==> #[trigger] s.subrange(j, j + p.len()) != p,
    decreases s.len() + 1 - from,
{
    if from >= 0 && from + p.len() <= s.len() && s.subrange(from, from + p.len()) != p {
        lemma_find_from_first(s, p, from + 1);
    }
}

/// The characters of a string slice, in order.
pub fn chars_of(s: &str) -> (v: Vec<char>)
    ensures
        v@ == s@,
{
    let mut out: Vec<char> = Vec::new();
    for c in it: s.chars()
        invariant
            out@ == it.seq().take(it.index() as int),
            it.seq() == s@,
    {
        out.push(c);
    }
    out
}

/// Appends one character to a `String` (`String::push`).
#[verifier::external_body]
fn push_char(s: &mut String, c: char)
    ensures
        final(s)@ == old(s)@.push(c),
{
    s.push(c);
}

/// The `String` holding exactly the given characters.
pub fn string_of(v: &[char]) -> (s: String)
    ensures
        s@ == v@,
{
    let mut out = String::new();
    let mut i: usize = 0;
    while i < v.len()
        invariant
            i <= v.len(),
            out@ == v@.take(i as int),
        decreases v.len() - i,
    {
        push_char(&mut out, v[i]);
        i = i + 1;
        assert(out@ =~= v@.take(i as int));
    }
    assert(v@.take(v.len() as int) =~= v@);
    out
}

/// A copy of `s[from..to]`.
pub fn slice_of(s: &[char], from: usize, to: usize) -> (r: Vec<char>)
    requires
        from <= to <= s.len(),
    ensures
        r@ == s@.subrange(from as int, to as int),
{
    let mut out: Vec<char> = Vec::new();
    let mut i = from;
    while i < to
        invariant
            from <= i <= to <= s.len(),
            out@ == s@.subrange(from as int, i as int),
        decreases to - i,
    {
        out.push(s[i]);
        i = i + 1;
        assert(out@ =~= s@.subrange(from as int, i as int));
    }
    out
}

/// A copy of `s`.
pub fn copy_of(s: &[char]) -> (r: Vec<char>)
    ensures
        r@ == s@,
{
    let r = slice_of(s, 0, s.len());
    assert(r@ =~= s@);
    r
}

/// `a` followed by `b`.
pub fn concat(a: &[char], b: &[char]) -> (r: Vec<char>)
    ensures
        r@ == a@ + b@,
{
    let mut out: Vec<char> = Vec::new();
    append(&mut out, a);
    append(&mut out, b);
    out
}

/// Appends the characters of `b` to `a`.
pub fn append(a: &mut Vec<char>, b: &[char])
    ensures
        final(a)@ == old(a)@ + b@,
{
    let ghost start = a@;
    let mut i: usize = 0;
    while i < b.len()
        invariant
            i <= b.len(),
            a@ == start + b@.take(i as int),
        decreases b.len() - i,
    {
        a.push(b[i]);
        i = i + 1;
        assert(a@ =~= start + b@.take(i as int));
    }
    assert(b@.take(b.len() as int) =~= b@);
}

pub fn eq(a: &[char], b: &[char]) -> (r: bool)
    ensures
        r == (a@ == b@),
{
    if a.len() != b.len() {
        return false;
    }
    let mut i: usize = 0;
    while i < a.len()
        invariant
            i <= a.len() == b.len(),
            a@.take(i as int) == b@.take(i as int),
        decreases a.len() - i,
    {
        if a[i] != b[i] {
            return false;
        }
        i = i + 1;
        assert(a@.take(i as int) =~= b@.take(i as int));
    }
    assert(a@ =~= a@.take(i as int));
    assert(b@ =~= b@.take(i as int));
    true
}

pub fn starts_with(s: &[char], p: &[char]) -> (r: bool)
    ensures
        r == has_prefix(s@, p@),
{
    if p.len() > s.len() {
        return false;
    }
    let mut i: usize = 0;
    while i < p.len()
        invariant
            i <= p.len() <= s.len(),
            s@.take(i as int) == p@.take(i as int),
        decreases p.len() - i,
    {
        if s[i] != p[i] {
            assert(s@.take(p.len() as int)[i as int] != p@[i as int]);
            return false;
        }
        i = i + 1;
        assert(s@.take(i as int) =~= p@.take(i as int));
    }
    assert(p@ =~= p@.take(i as int));
    true
}

pub fn ends_with(s: &[char], p: &[char]) -> (r: bool)
    ensures
        r == has_suffix(s@, p@),
{
    if p.len() > s.len() {
        return false;
    }
    let off = s.len() - p.len();
    let mut i: usize = 0;
    while i < p.len()
        invariant
            i <= p.len() <= s.len(),
            off == s.len() - p.len(),
            s@.subrange(off as int, off + i) == p@.take(i as int),
        decreases p.len() - i,
    {
        if s[off + i] != p[i] {
            assert(s@.skip(off as int)[i as int] != p@[i as int]);
            return false;
        }
        i = i + 1;
        assert(s@.subrange(off as int, off + i) =~= p@.take(i as int));
    }
    assert(p@ =~= p@.take(i as int));
    assert(s@.skip(off as int) =~= s@.subrange(off as int, off + i));
    true
}

/// Whether `s` starts with the single character `c`.
pub fn starts_with_char(s: &[char], c: char) -> (r: bool)
    ensures
        r == has_prefix(s@, seq![c]),
{
    if s.len() == 0 {
        false
    } else {
        assert(s@.take(1) =~= seq![s@[0]]);
        assert(seq![s@[0]][0] == s@[0]);
        assert(seq![c][0] == c);
        s[0] == c
    }
}

/// Index of the first character that is not whitespace.
pub fn trim_start_index(s: &[char]) -> (i: usize)
    ensures
        i <= s.len(),
        trim_start(s@) == s@.skip(i as int),
{
    let mut i: usize = 0;
    assert(s@.skip(0) =~= s@);
    while i < s.len() && white_space(s[i])
        invariant
            i <= s.len(),
            trim_start(s@) == trim_start(s@.skip(i as int)),
        decreases s.len() - i,
    {
        assert(s@.skip(i as int).drop_first() =~= s@.skip(i + 1));
        i = i + 1;
    }
    i
}

/// Length of `s` once its trailing whitespace is dropped.
pub fn trim_end_index(s: &[char]) -> (j: usize)
    ensures
        j <= s.len(),
        trim_end(s@) == s@.take(j as int),
{
    let mut j: usize = s.len();
    assert(s@.take(j as int) =~= s@);
    while j > 0 && white_space(s[j - 1])
        invariant
            j <= s.len(),
            trim_end(s@) == trim_end(s@.take(j as int)),
        decreases j,
    {
        assert(s@.take(j as int).drop_last() =~= s@.take(j - 1));
        j = j - 1;
    }
    j
}

pub fn trim_start_vec(s: &[char]) -> (r: Vec<char>)
    ensures
        r@ == trim_start(s@),
{
    let i = trim_start_index(s);
    let r = slice_of(s, i, s.len());
    assert(r@ =~= s@.skip(i as int));
    r
}

pub fn trim_vec(s: &[char]) -> (r: Vec<char>)
    ensures
        r@ == trim(s@),
{
    let a = trim_start_vec(s);
    let j = trim_end_index(&a);
    let r = slice_of(&a, 0, j);
    assert(r@ =~= a@.take(j as int));
    r
}

/// `s[from..]`.
pub fn skip(s: &[char], from: usize) -> (r: Vec<char>)
    requires
        from <= s.len(),
    ensures
        r@ == s@.skip(from as int),
{
    let r = slice_of(s, from, s.len());
    assert(r@ =~= s@.skip(from as int));
    r
}

/// Whether `p` occurs in `s` at `at`.
pub fn matches_at(s: &[char], p: &[char], at: usize) -> (r: bool)
    requires
        at + p.len() <= s.len(),
    ensures
        r == (s@.subrange(at as int, at + p.len()) == p@),
{
    let mut k: usize = 0;
    while k < p.len()
        invariant
            k <= p.len(),
            at + p.len() <= s.len(),
            s@.subrange(at as int, at + k) == p@.take(k as int),
        decreases p.len() - k,
    {
        if s[at + k] != p[k] {
            assert(s@.subrange(at as int, at + p.len())[k as int] != p@[k as int]);
            return false;
        }
        assert(s@.subrange(at as int, at + k + 1) =~= s@.subrange(at as int, at + k).push(s@[at + k]));
        assert(p@.take(k + 1) =~= p@.take(k as int).push(p@[k as int]));
        k = k + 1;
    }
    assert(p@ =~= p@.take(k as int));
    true
}

/// The first index at or after `from` where `p` occurs in `s`.
pub fn find_from_exec(s: &[char], p: &[char], from: usize) -> (r: Option<usize>)
    ensures
        r matches Some(i) ==> find_from(s@, p@, from as int) == Some(i as int),
        r is None ==> find_from(s@, p@, from as int) is None,
{
    if p.len() > s.len() {
        return None;
    }
    let last = s.len() - p.len();
    if from > last {
        return None;
    }
    let mut i = from;
    loop
        invariant
            from <= i <= last,
            last == s.len() - p.len(),
            find_from(s@, p@, from as int) == find_from(s@, p@, i as int),
        decreases last - i,
    {
        if matches_at(s, p, i) {
            return Some(i);
        }
        if i == last {
            return None;
        }
        i = i + 1;
    }
}

pub fn find_exec(s: &[char], p: &[char]) -> (r: Option<usize>)
    ensures
        r matches Some(i) ==> find(s@, p@) == Some(i as int),
        r is None ==> find(s@, p@) is None,
{
    find_from_exec(s, p, 0)
}

pub fn contains_exec(s: &[char], p: &[char]) -> (r: bool)
    ensures
        r == contains(s@, p@),
{
    find_exec(s, p).is_some()
}

pub fn index_of_exec(s: &[char], c: char) -> (r: Option<usize>)
    ensures
        r matches Some(i) ==> index_of(s@, c) == Some(i as int),
        r is None ==> index_of(s@, c) is None,
{
    let pat: Vec<char> = vec![c];
    assert(pat@ =~= seq![c]);
    find_exec(s, &pat)
}

fn strip_cr_exec(l: Vec<char>) -> (r: Vec<char>)
    ensures
        r@ == strip_cr(l@),
{
    let mut l = l;
    if l.len() > 0 && l[l.len() - 1] == '\r' {
        l.pop();
    }
    l
}

/// The lines of `s`, as `str::lines` splits them.
pub fn split_lines(s: &[char]) -> (r: Vec<Vec<char>>)
    ensures
        views(r@) == lines_of(s@),
{
    let mut out: Vec<Vec<char>> = Vec::new();
    let mut pos: usize = 0;
    assert(s@.skip(0) =~= s@);
    assert(views(out@) =~= Seq::<Seq<char>>::empty());
    while pos < s.len()
        invariant
            pos <= s.len(),
            lines_of(s@) == views(out@) + lines_of(s@.skip(pos as int)),
        decreases s.len() - pos,
    {
        let rest = skip(s, pos);
        let ghost before = out@;
        match index_of_exec(&rest, '\n') {
            Some(i) => {
                proof {
                    lemma_find_from_bounds(rest@, seq!['\n'], 0);
                }
                let line = strip_cr_exec(slice_of(&rest, 0, i));
                assert(rest@.take(i as int) =~= rest@.subrange(0, i as int));
                assert(rest@.skip(i + 1) =~= s@.skip(pos + i + 1));
                out.push(line);
                assert(views(out@) =~= views(before) + seq![line@]);
                pos = pos + i + 1;
            },
            None => {
                out.push(rest);
                assert(views(out@) =~= views(before) + seq![rest@]);
                assert(s@.skip(s.len() as int) =~= Seq::<char>::empty());
                pos = s.len();
            },
        }
    }
    assert(s@.skip(pos as int) =~= Seq::<char>::empty());
    assert(views(out@) + Seq::<Seq<char>>::empty() =~= views(out@));
    out
}

/// The pieces joined with `sep` between each two.
pub fn join_exec(parts: &[Vec<char>], sep: &[char]) -> (r: Vec<char>)
    ensures
        r@ == join(views(parts@), sep@),
{
    let mut out: Vec<char> = Vec::new();
    let mut i: usize = 0;
    while i < parts.len()
        invariant
            i <= parts.len(),
            out@ == join(views(parts@.take(i as int)), sep@),
        decreases parts.len() - i,
    {
        if i > 0 {
            append(&mut out, sep);
        }
        append(&mut out, &parts[i]);
        i = i + 1;
        assert(views(parts@.take(i as int)).drop_last() =~= views(parts@.take(i - 1)));
    }
    assert(parts@.take(i as int) =~= parts@);
    out
}

/// The pieces of `s` between the non-overlapping occurrences of `pat` (`str::split`).
pub fn split_on_exec(s: &[char], pat: &[char]) -> (r: Vec<Vec<char>>)
    requires
        pat.len() > 0,
    ensures
        views(r@) == split_on(s@, pat@),
{
    let mut out: Vec<Vec<char>> = Vec::new();
    let mut pos: usize = 0;
    assert(s@.skip(0) =~= s@);
    assert(views(out@) =~= Seq::<Seq<char>>::empty());
    loop
        invariant
            pos <= s.len(),
            pat.len() > 0,
            split_on(s@, pat@) == views(out@) + split_on(s@.skip(pos as int), pat@),
        decreases s.len() - pos,
    {
        let rest = skip(s, pos);
        let ghost before = out@;
        match find_exec(&rest, pat) {
            Some(i) => {
                proof {
                    lemma_find_from_bounds(rest@, pat@, 0);
                }
                let piece = slice_of(&rest, 0, i);
                assert(rest@.take(i as int) =~= piece@);
                assert(rest@.skip(i + pat.len()) =~= s@.skip(pos + i + pat.len()));
                out.push(piece);
                assert(views(out@) =~= views(before) + seq![piece@]);
                pos = pos + i + pat.len();
            },
            None => {
                out.push(rest);
                assert(views(out@) =~= views(before) + seq![rest@]);
                return out;
            },
        }
    }
}

/// Whether `a` sorts before `b`, character by character (the order of `String`'s `Ord`,
/// which compares UTF-8 bytes, and so code points).
pub open spec fn text_lt(a: Seq<char>, b: Seq<char>) -> bool
    decreases a.len(),
{
    if a.len() == 0 {
        b.len() > 0
    } else if b.len() == 0 {
        false
    } else if a[0] != b[0] {
        (a[0] as u32) < (b[0] as u32)
    } else {
        text_lt(a.skip(1), b.skip(1))
    }
}

/// Whether `a` sorts before `b` (see [`text_lt`]).
pub fn text_lt_exec(a: &[char], b: &[char]) -> (r: bool)
    ensures
        r == text_lt(a@, b@),
{
    let mut i: usize = 0;
    assert(a@.skip(0) =~= a@);
    assert(b@.skip(0) =~= b@);
    while i < a.len() && i < b.len() && a[i] == b[i]
        invariant
            i <= a.len(),
            i <= b.len(),
            text_lt(a@, b@) == text_lt(a@.skip(i as int), b@.skip(i as int)),
        decreases a.len() - i,
    {
        assert(a@.skip(i as int).skip(1) =~= a@.skip(i + 1));
        assert(b@.skip(i as int).skip(1) =~= b@.skip(i + 1));
        i = i + 1;
    }
    assert(a@.skip(i as int).len() == a.len() - i);
    assert(b@.skip(i as int).len() == b.len() - i);
    if i == a.len() {
        i < b.len()
    } else if i == b.len() {
        false
    } else {
        (a[i] as u32) < (b[i] as u32)
    }
}

/// Joining a piece in front of at least one other puts a separator after it.
pub proof fn lemma_join_prepend(a: Seq<char>, l: Seq<Seq<char>>, sep: Seq<char>)
    requires
        l.len() >= 1,
    ensures
        join(seq![a] + l, sep) == a + sep + join(l, sep),
    decreases l.len(),
{
    let al = seq![a] + l;
    assert(al.drop_last() =~= seq![a] + l.drop_last());
    assert(al.last() == l.last());
    assert(al.len() >= 2);
    assert(join(al, sep) == join(al.drop_last(), sep) + sep + al.last());
    if l.len() == 1 {
        assert(seq![a] + l.drop_last() =~= seq![a]);
        assert(join(seq![a], sep) == a);
        assert(join(l, sep) == l[0]);
        assert(l.last() == l[0]);
    } else {
        lemma_join_prepend(a, l.drop_last(), sep);
        assert(join(l, sep) == join(l.drop_last(), sep) + sep + l.last());
        assert(a + sep + join(l.drop_last(), sep) + sep + l.last() =~= a + sep + (join(
            l.drop_last(),
            sep,
        ) + sep + l.last()));
    }
}

pub proof fn lemma_trim_lens(s: Seq<char>)
    ensures
        trim_start(s).len() <= s.len(),
        trim_end(s).len() <= s.len(),
        s.len() > 0 && is_white_space(s[0]) ==> trim_start(s).len() < s.len(),
        s.len() > 0 && is_white_space(s.last()) ==> trim_end(s).len() < s.len(),
    decreases s.len(),
{
    if s.len() > 0 {
        lemma_trim_lens(s.drop_first());
        lemma_trim_lens(s.drop_last());
    }
}

/// A trimmed text starts and ends with something other than whitespace.
pub proof fn lemma_trimmed_ends(l: Seq<char>)
    requires
        trim(l) == l,
        l.len() > 0,
    ensures
        !is_white_space(l[0]),
        !is_white_space(l.last()),
{
    lemma_trim_lens(l);
    lemma_trim_lens(trim_start(l));
    if !is_white_space(l[0]) {
        assert(trim_start(l) == l);
    }
}

/// Trimming `c` followed by a trimmed text, for a whitespace `c`, gives the text.
pub proof fn lemma_trim_after_space(c: char, l: Seq<char>)
    requires
        is_white_space(c),
        trim(l) == l,
    ensures
        trim(seq![c] + l) == l,
{
    let s = seq![c] + l;
    assert(s.drop_first() =~= l);
    if l.len() > 0 {
        lemma_trimmed_ends(l);
        assert(trim_start(l) == l);
        assert(trim_end(l) == l);
    } else {
        assert(trim_start(l) == l);
    }
}

/// A text that starts and ends with something other than whitespace is its own trim.
pub proof fn lemma_trim_fixed(s: Seq<char>)
    requires
        s.len() > 0,
        !is_white_space(s[0]),
        !is_white_space(s.last()),
    ensures
        trim(s) == s,
{
    assert(trim_start(s) == s);
    assert(trim_end(s) == s);
}

/// A line of `s` holds no line break.
pub proof fn lemma_lines_have_no_breaks(s: Seq<char>)
    ensures
        forall|k: int, j: int|
            0 <= k < lines_of(s).len() && 0 <= j < lines_of(s)[k].len() ==> #[trigger] lines_of(
                s,
            )[k][j] != '\n',
    decreases s.len(),
{
    if s.len() > 0 {
        lemma_find_from_bounds(s, seq!['\n'], 0);
        lemma_find_from_first(s, seq!['\n'], 0);
        match index_of(s, '\n') {
            Some(i) => {
                lemma_lines_have_no_breaks(s.skip(i + 1));
                let a = s.take(i);
                assert forall|j: int| 0 <= j < a.len() implies a[j] != '\n' by {
                    if a[j] == '\n' {
                        assert(s.subrange(j, j + 1) =~= seq!['\n']);
                    }
                }
                assert forall|k: int, j: int|
                    0 <= k < lines_of(s).len() && 0 <= j < lines_of(s)[k].len() implies #[trigger] lines_of(
                        s,
                    )[k][j] != '\n' by {
                    if k == 0 {
                        assert(lines_of(s)[0] == strip_cr(a));
                        assert(strip_cr(a)[j] == a[j]);
                    } else {
                        assert(lines_of(s)[k] == lines_of(s.skip(i + 1))[k - 1]);
                    }
                }
            },
            None => {
                assert forall|j: int| 0 <= j < s.len() implies s[j] != '\n' by {
                    if s[j] == '\n' {
                        assert(s.subrange(j, j + 1) =~= seq!['\n']);
                    }
                }
            },
        }
    }
}

/// A line break ends the first line.
pub proof fn lemma_lines_cons(l: Seq<char>, rest: Seq<char>)
    requires
        forall|j: int| 0 <= j < l.len() ==> l[j] != '\n',
        l.len() == 0 || l.last() != '\r',
    ensures
        lines_of(l + seq!['\n'] + rest) == seq![l] + lines_of(rest),
{
    let s = l + seq!['\n'] + rest;
    let n = l.len() as int;
    lemma_find_from_bounds(s, seq!['\n'], 0);
    lemma_find_from_first(s, seq!['\n'], 0);
    assert(s.subrange(n, n + 1) =~= seq!['\n']);
    match index_of(s, '\n') {
        Some(i) => {
            if i < n {
                assert(s.subrange(i, i + 1)[0] == l[i]);
            }
            assert(i == n);
            assert(s.take(i) =~= l);
            assert(s.skip(i + 1) =~= rest);
        },
        None => {
            assert(false);
        },
    }
}

/// The order of texts is transitive.
pub proof fn lemma_text_lt_transitive(a: Seq<char>, b: Seq<char>, c: Seq<char>)
    requires
        text_lt(a, b),
        text_lt(b, c),
    ensures
        text_lt(a, c),
    decreases a.len(),
{
    if a.len() > 0 && b.len() > 0 && c.len() > 0 && a[0] == b[0] && b[0] == c[0] {
        lemma_text_lt_transitive(a.skip(1), b.skip(1), c.skip(1));
    }
}

/// Splitting at a pattern always gives at least one piece.
pub proof fn lemma_split_on_len(s: Seq<char>, pat: Seq<char>)
    ensures
        split_on(s, pat).len() >= 1,
    decreases s.len(),
{
    if pat.len() > 0 {
        match find(s, pat) {
            Some(i) => {
                if 0 <= i && i + pat.len() <= s.len() {
                    lemma_split_on_len(s.skip(i + pat.len()), pat);
                }
            },
            None => {},
        }
    }
}

/// Joining the pieces of a split with the pattern gives the text back.
pub proof fn lemma_join_split(s: Seq<char>, pat: Seq<char>)
    requires
        pat.len() > 0,
    ensures
        join(split_on(s, pat), pat) == s,
    decreases s.len(),
{
    lemma_find_from_bounds(s, pat, 0);
    match find(s, pat) {
        Some(i) => {
            let rest = s.skip(i + pat.len());
            lemma_join_split(rest, pat);
            lemma_split_on_len(rest, pat);
            lemma_join_prepend(s.take(i), split_on(rest, pat), pat);
            assert(s.subrange(i, i + pat.len()) == pat);
            assert(s.take(i) + pat + rest =~= s);
        },
        None => {},
    }
}


/// Dropping a final whitespace character does not change a text's trim.
pub proof fn lemma_trim_drop_white(s: Seq<char>)
    requires
        s.len() > 0,
        is_white_space(s.last()),
    ensures
        trim(s.drop_last()) == trim(s),
    decreases s.len(),
{
    if s.len() == 1 {
        assert(s.drop_first() =~= Seq::<char>::empty());
        assert(trim_start(s) == trim_start(s.drop_first()));
        assert(s.drop_last() =~= Seq::<char>::empty());
    } else if is_white_space(s[0]) {
        assert(s.drop_last()[0] == s[0]);
        assert(s.drop_last().drop_first() =~= s.drop_first().drop_last());
        assert(s.drop_first().last() == s.last());
        lemma_trim_drop_white(s.drop_first());
    } else {
        assert(s.drop_last()[0] == s[0]);
    }
}

/// The first line of `l`, a line break and `rest`, for `l` without a line break: `l` (a `\r`
/// at its end dropped), then the lines of `rest`.
pub proof fn lemma_lines_cons_any(l: Seq<char>, rest: Seq<char>)
    requires
        forall|j: int| 0 <= j < l.len() ==> l[j] != '\n',
    ensures
        lines_of(l + seq!['\n'] + rest) == seq![strip_cr(l)] + lines_of(rest),
{
    let s = l + seq!['\n'] + rest;
    let n = l.len() as int;
    lemma_find_from_bounds(s, seq!['\n'], 0);
    lemma_find_from_first(s, seq!['\n'], 0);
    assert(s.subrange(n, n + 1) =~= seq!['\n']);
    match index_of(s, '\n') {
        Some(i) => {
            if i < n {
                assert(s.subrange(i, i + 1)[0] == l[i]);
            }
            assert(i == n);
            assert(s.take(i) =~= l);
            assert(s.skip(i + 1) =~= rest);
        },
        None => {
            assert(false);
        },
    }
}

/// Splitting at a line break: the lines of `a` and a line break, then those of `b`.
pub proof fn lemma_lines_split_break(a: Seq<char>, b: Seq<char>)
    ensures
        lines_of(a + seq!['\n'] + b) == lines_of(a + seq!['\n']) + lines_of(b),
    decreases a.len(),
{
    let s = a + seq!['\n'] + b;
    lemma_find_from_bounds(a, seq!['\n'], 0);
    match index_of(a, '\n') {
        Some(i) => {
            let x = a.take(i);
            let y = a.skip(i + 1);
            lemma_find_from_first(a, seq!['\n'], 0);
            assert forall|j: int| 0 <= j < x.len() implies x[j] != '\n' by {
                if x[j] == '\n' {
                    assert(a.subrange(j, j + 1) =~= seq!['\n']);
                }
            }
            assert(a.subrange(i, i + 1)[0] == a[i]);
            assert(a =~= x + seq!['\n'] + y);
            assert(s =~= x + seq!['\n'] + (y + seq!['\n'] + b));
            assert(a + seq!['\n'] =~= x + seq!['\n'] + (y + seq!['\n']));
            lemma_lines_cons_any(x, y + seq!['\n'] + b);
            lemma_lines_cons_any(x, y + seq!['\n']);
            lemma_lines_split_break(y, b);
            assert(seq![strip_cr(x)] + (lines_of(y + seq!['\n']) + lines_of(b)) =~= seq![strip_cr(x)]
                + lines_of(y + seq!['\n']) + lines_of(b));
        },
        None => {
            assert forall|j: int| 0 <= j < a.len() implies a[j] != '\n' by {
                if a[j] == '\n' {
                    assert(a.subrange(j, j + 1) =~= seq!['\n']);
                }
            }
            lemma_lines_cons_any(a, b);
            lemma_lines_cons_any(a, Seq::<char>::empty());
            assert(a + seq!['\n'] =~= a + seq!['\n'] + Seq::<char>::empty());
            assert(lines_of(Seq::<char>::empty()) =~= Seq::<Seq<char>>::empty());
            assert(seq![strip_cr(a)] + Seq::<Seq<char>>::empty() =~= seq![strip_cr(a)]);
        },
    }
}

/// The texts of `s`, each kept at its first occurrence only.
pub open spec fn distinct_texts(s: Seq<Seq<char>>) -> Seq<Seq<char>>
    decreases s.len(),
{
    if s.len() == 0 {
        seq![]
    } else if distinct_texts(s.drop_last()).contains(s.last()) {
        distinct_texts(s.drop_last())
    } else {
        distinct_texts(s.drop_last()).push(s.last())
    }
}

/// Keeping first occurrences keeps every text and repeats none.
pub proof fn lemma_distinct_texts(s: Seq<Seq<char>>)
    ensures
        forall|x: Seq<char>| distinct_texts(s).contains(x) <==> s.contains(x),
        distinct_texts(s).no_duplicates(),
    decreases s.len(),
{
    if s.len() > 0 {
        let dl = s.drop_last();
        lemma_distinct_texts(dl);
        let d = distinct_texts(dl);
        assert forall|x: Seq<char>| distinct_texts(s).contains(x) <==> s.contains(x) by {
            if s.contains(x) && x != s.last() {
                let k = choose|k: int| 0 <= k < s.len() && s[k] == x;
                assert(dl[k] == x);
            }
            if dl.contains(x) {
                let k = choose|k: int| 0 <= k < dl.len() && dl[k] == x;
                assert(s[k] == x);
            }
            if distinct_texts(s).contains(x) && !d.contains(x) {
                assert(distinct_texts(s) == d.push(s.last()));
                let k = choose|k: int| 0 <= k < distinct_texts(s).len() && distinct_texts(s)[k] == x;
                if k < d.len() {
                    assert(distinct_texts(s)[k] == d[k]);
                }
            }
            if d.contains(x) && !d.contains(s.last()) {
                let k = choose|k: int| 0 <= k < d.len() && d[k] == x;
                assert(d.push(s.last())[k] == x);
            }
            if !d.contains(s.last()) {
                assert(d.push(s.last())[d.len() as int] == s.last());
            }
        }
        if !d.contains(s.last()) {
            let out = d.push(s.last());
            assert forall|i: int, j: int| 0 <= i < out.len() && 0 <= j < out.len() && i != j implies out[i] != out[j] by {
                if i < d.len() && j < d.len() {
                    assert(out[i] == d[i] && out[j] == d[j]);
                } else if i < d.len() {
                    assert(out[i] == d[i]);
                } else if j < d.len() {
                    assert(out[j] == d[j]);
                }
            }
        }
    }
}



/// A trimmed start is empty or starts with something other than whitespace.
pub proof fn lemma_trim_start_first(x: Seq<char>)
    ensures
        trim_start(x).len() > 0 ==> !is_white_space(trim_start(x)[0]),
        trim_start(x).len() <= x.len(),
    decreases x.len(),
{
    if x.len() > 0 && is_white_space(x[0]) {
        lemma_trim_start_first(x.drop_first());
    }
}

/// Trimming the start drops a run of leading characters.
pub proof fn lemma_trim_start_suffix(x: Seq<char>)
    ensures
        trim_start(x) == x.skip(x.len() - trim_start(x).len()),
        trim_start(x).len() <= x.len(),
    decreases x.len(),
{
    if x.len() > 0 && is_white_space(x[0]) {
        lemma_trim_start_suffix(x.drop_first());
        assert(x.drop_first().skip(x.drop_first().len() - trim_start(x).len()) =~= x.skip(
            x.len() - trim_start(x).len(),
        ));
    } else {
        assert(x.skip(0) =~= x);
    }
}

/// Trimming the end drops a run of trailing characters, and leaves none that is whitespace.
pub proof fn lemma_trim_end_prefix(x: Seq<char>)
    ensures
        trim_end(x) == x.take(trim_end(x).len() as int),
        trim_end(x).len() <= x.len(),
        trim_end(x).len() > 0 ==> !is_white_space(trim_end(x).last()),
    decreases x.len(),
{
    if x.len() > 0 && is_white_space(x.last()) {
        lemma_trim_end_prefix(x.drop_last());
        assert(x.drop_last().take(trim_end(x).len() as int) =~= x.take(trim_end(x).len() as int));
    } else {
        assert(x.take(x.len() as int) =~= x);
    }
}

/// A trimmed text is its own trim, and holds only characters of the text it was trimmed
/// from.
pub proof fn lemma_trim_trimmed(x: Seq<char>) -> (off: int)
    ensures
        trim(trim(x)) == trim(x),
        0 <= off,
        off + trim(x).len() <= x.len(),
        trim(x) == x.subrange(off, off + trim(x).len()),
{
    let y = trim_start(x);
    let t = trim_end(y);
    lemma_trim_start_suffix(x);
    lemma_trim_start_first(x);
    lemma_trim_end_prefix(y);
    if t.len() > 0 {
        assert(t[0] == y[0]);
        lemma_trim_fixed(t);
    } else {
        assert(trim_start(t) == t);
        assert(trim_end(t) == t);
    }
    let off = x.len() - y.len();
    assert(t =~= x.subrange(off, off + t.len()));
    off
}

/// Dropping a final `\r` and trimming the start commute.
pub proof fn lemma_trim_start_strip(x: Seq<char>)
    ensures
        trim_start(strip_cr(x)) == strip_cr(trim_start(x)),
    decreases x.len(),
{
    if x.len() > 0 {
        if is_white_space(x[0]) {
            let z = x.drop_first();
            assert(trim_start(x) == trim_start(z));
            if x.len() == 1 {
                assert(z =~= Seq::<char>::empty());
                assert(trim_start(z) == z);
                if x[0] == '\r' {
                    assert(strip_cr(x) =~= Seq::<char>::empty());
                } else {
                    assert(strip_cr(x) == x);
                }
            } else {
                lemma_trim_start_strip(z);
                assert(z.last() == x.last());
                if x.last() == '\r' {
                    assert(strip_cr(x) == x.drop_last());
                    assert(strip_cr(x)[0] == x[0]);
                    assert(strip_cr(x).drop_first() =~= strip_cr(z));
                    assert(trim_start(strip_cr(x)) == trim_start(strip_cr(x).drop_first()));
                } else {
                    assert(strip_cr(x) == x);
                    assert(strip_cr(z) == z);
                }
            }
        } else {
            assert(trim_start(x) == x);
            if x.last() == '\r' {
                assert(x.len() > 1);
                assert(strip_cr(x)[0] == x[0]);
                assert(trim_start(strip_cr(x)) == strip_cr(x));
            } else {
                assert(strip_cr(x) == x);
            }
        }
    } else {
        assert(strip_cr(x) == x);
    }
}

/// A final `\r` does not change a text's trim.
pub proof fn lemma_trim_strip(x: Seq<char>)
    ensures
        trim(strip_cr(x)) == trim(x),
{
    if x.len() > 0 && x.last() == '\r' {
        lemma_trim_drop_white(x);
    }
}

/// Whether a text starts with `p`, and what follows, do not depend on a final `\r`, for a
/// `p` that does not end in one.
pub proof fn lemma_prefix_strip(x: Seq<char>, p: Seq<char>)
    requires
        p.len() > 0,
        p.last() != '\r',
    ensures
        has_prefix(strip_cr(x), p) == has_prefix(x, p),
        without_prefix(strip_cr(x), p) == strip_cr(without_prefix(x, p)),
{
    if x.len() > 0 && x.last() == '\r' {
        let y = x.drop_last();
        if has_prefix(x, p) {
            if p.len() == x.len() {
                assert(x.take(p.len() as int).last() == x.last());
            }
            assert(y.take(p.len() as int) =~= x.take(p.len() as int));
            assert(y.skip(p.len() as int) =~= x.skip(p.len() as int).drop_last());
        }
        if has_prefix(y, p) {
            assert(y.take(p.len() as int) =~= x.take(p.len() as int));
        }
    }
}

/// The first occurrence of `p` does not depend on a final `\r`, for a `p` that does not end
/// in one.
pub proof fn lemma_find_strip(x: Seq<char>, p: Seq<char>)
    requires
        p.len() > 0,
        p.last() != '\r',
    ensures
        find(strip_cr(x), p) == find(x, p),
{
    if x.len() > 0 && x.last() == '\r' {
        let y = x.drop_last();
        lemma_find_from_bounds(x, p, 0);
        lemma_find_from_first(x, p, 0);
        lemma_find_from_bounds(y, p, 0);
        lemma_find_from_first(y, p, 0);
        match find(x, p) {
            Some(i) => {
                if i + p.len() == x.len() {
                    assert(x.subrange(i, i + p.len()).last() == x.last());
                }
                assert(y.subrange(i, i + p.len()) =~= x.subrange(i, i + p.len()));
                match find(y, p) {
                    Some(j) => {
                        assert(y.subrange(j, j + p.len()) =~= x.subrange(j, j + p.len()));
                        if j < i {
                        } else if j > i {
                        }
                    },
                    None => {},
                }
            },
            None => {
                match find(y, p) {
                    Some(j) => {
                        assert(y.subrange(j, j + p.len()) =~= x.subrange(j, j + p.len()));
                    },
                    None => {},
                }
            },
        }
    }
}

} // verus!
