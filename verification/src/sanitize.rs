//! Neutralizing the Rust constructs that `xgettext --language=C` misreads — lifetimes
//! (`'a`, `'static`) and raw strings (`r"..."`, `r#"..."#`) — while leaving double-quoted
//! string literals, `//` and `/* */` comments and char literals untouched. Every character is
//! either kept or replaced by a space, and newlines are never replaced, so line numbers (and
//! the adjacency of `// TRANSLATORS:` notes to their strings) never shift.
use vstd::prelude::*;

use crate::text::{chars_of, string_of};

verus! {

/// How many `#` start at `j`.
pub open spec fn hashes_from(s: Seq<char>, j: int) -> nat
    decreases s.len() - j,
{
    if 0 <= j < s.len() && s[j] == '#' {
        1 + hashes_from(s, j + 1)
    } else {
        0
    }
}

/// If `s[i]` is an `r` opening a raw string (`r"`, `r#"`, `r##"`, ...), its hash count.
pub open spec fn raw_hash_count(s: Seq<char>, i: int) -> Option<nat> {
    let h = hashes_from(s, i + 1);
    if i + 1 + h < s.len() && s[i + 1 + h] == '"' {
        Some(h)
    } else {
        None
    }
}

/// How many characters from `k` on are `#`, counting no further than `h`.
pub open spec fn closing_hashes(s: Seq<char>, k: int, h: nat) -> nat {
    if hashes_from(s, k) < h {
        hashes_from(s, k)
    } else {
        h
    }
}

/// Whether a raw string with `h` hashes closes at `i` (a `"` followed by `h` `#`).
pub open spec fn raw_closes_at(s: Seq<char>, i: int, h: nat) -> bool {
    0 <= i < s.len() && s[i] == '"' && closing_hashes(s, i + 1, h) == h
}

/// How many characters the body of a raw string with `h` hashes takes from `i`, its closer
/// included (to the end of the text when it never closes).
pub open spec fn raw_body_len(s: Seq<char>, i: int, h: nat) -> nat
    decreases s.len() - i,
{
    if i < 0 || i >= s.len() {
        0
    } else if raw_closes_at(s, i, h) {
        1 + h
    } else {
        1 + raw_body_len(s, i + 1, h)
    }
}

/// A raw string body blanked: newlines kept, every other character a space.
pub open spec fn raw_body_blank(s: Seq<char>, i: int, h: nat) -> Seq<char>
    decreases s.len() - i,
{
    if i < 0 || i >= s.len() {
        seq![]
    } else if raw_closes_at(s, i, h) {
        Seq::new(h + 1, |k: int| ' ')
    } else {
        seq![
            if s[i] == '\n' {
                '\n'
            } else {
                ' '
            },
        ] + raw_body_blank(s, i + 1, h)
    }
}

/// The index of the `}` closing a `\u{...}` escape, searching from `k`.
pub open spec fn brace_close(s: Seq<char>, k: int) -> Option<int>
    decreases s.len() - k,
{
    if k < 0 || k >= s.len() {
        None
    } else if s[k] == '}' {
        Some(k)
    } else {
        brace_close(s, k + 1)
    }
}

/// If `s[i]` is a `'` opening a plausible short char literal (`'x'`, `'\n'`, `'\''`,
/// `'\u{2603}'`), the index of its closing `'`; otherwise it is a lifetime.
pub open spec fn char_lit_end(s: Seq<char>, i: int) -> Option<int> {
    let n = s.len();
    let j = i + 1;
    if j >= n {
        None
    } else {
        let j2: Option<int> = if s[j] == '\\' {
            if j + 1 >= n {
                None
            } else if s[j + 1] == 'u' && j + 2 < n && s[j + 2] == '{' {
                match brace_close(s, j + 3) {
                    Some(k) => Some(k + 1),
                    None => None,
                }
            } else {
                Some(j + 2)
            }
        } else {
            Some(j + 1)
        };
        match j2 {
            Some(e) => if e < n && s[e] == '\'' {
                Some(e)
            } else {
                None
            },
            None => None,
        }
    }
}

pub proof fn lemma_brace_close(s: Seq<char>, k: int)
    ensures
        brace_close(s, k) matches Some(e) ==> k <= e < s.len() && s[e] == '}',
    decreases s.len() - k,
{
    if 0 <= k < s.len() && s[k] != '}' {
        lemma_brace_close(s, k + 1);
    }
}

pub proof fn lemma_char_lit_end(s: Seq<char>, i: int)
    requires
        0 <= i,
    ensures
        char_lit_end(s, i) matches Some(e) ==> i < e < s.len() && s[e] == '\'',
{
    lemma_brace_close(s, i + 4);
}

/// How many characters a `//` comment takes from `i` (up to, not including, the newline).
pub open spec fn line_len(s: Seq<char>, i: int) -> nat
    decreases s.len() - i,
{
    if 0 <= i < s.len() && s[i] != '\n' {
        1 + line_len(s, i + 1)
    } else {
        0
    }
}

/// How many characters the rest of a `/* */` comment nested `depth` deep takes from `i`.
pub open spec fn block_len(s: Seq<char>, i: int, depth: nat) -> nat
    decreases s.len() - i,
{
    if i < 0 || i >= s.len() || depth == 0 {
        0
    } else if i + 1 < s.len() && s[i] == '/' && s[i + 1] == '*' {
        2 + block_len(s, i + 2, depth + 1)
    } else if i + 1 < s.len() && s[i] == '*' && s[i + 1] == '/' {
        2 + block_len(s, i + 2, (depth - 1) as nat)
    } else {
        1 + block_len(s, i + 1, depth)
    }
}

/// How many characters the rest of a `"` string literal takes from `i`, its closing quote
/// included (a backslash always takes the character after it along).
pub open spec fn string_len(s: Seq<char>, i: int) -> nat
    decreases s.len() - i,
{
    if i < 0 || i >= s.len() {
        0
    } else if s[i] == '\\' && i + 1 < s.len() {
        2 + string_len(s, i + 2)
    } else if s[i] == '"' {
        1
    } else {
        1 + string_len(s, i + 1)
    }
}

pub proof fn lemma_lens(s: Seq<char>, i: int, h: nat, depth: nat)
    requires
        0 <= i <= s.len(),
    ensures
        i + line_len(s, i) <= s.len(),
        i + block_len(s, i, depth) <= s.len(),
        i + string_len(s, i) <= s.len(),
        raw_closes_at(s, i, h) ==> i + 1 + h <= s.len(),
        i + raw_body_len(s, i, h) <= s.len(),
        raw_body_blank(s, i, h).len() == raw_body_len(s, i, h),
        i + hashes_from(s, i) <= s.len(),
    decreases s.len() - i,
{
    if i < s.len() {
        lemma_lens(s, i + 1, h, depth);
        if i + 2 <= s.len() {
            lemma_lens(s, i + 2, h, depth + 1);
            if depth > 0 {
                lemma_lens(s, i + 2, h, (depth - 1) as nat);
            }
            lemma_lens(s, i + 2, h, depth);
        }
        if raw_closes_at(s, i, h) {
            lemma_lens(s, i + 1, h, depth);
        }
    }
}

/// How many characters the construct starting at `i` takes: a `//` comment (to the end of
/// its line), a `/* */` comment (nesting counted), a `"` string, a raw string, a char
/// literal, or a single character.
pub open spec fn step_len(s: Seq<char>, i: int) -> int {
    let c = s[i];
    if c == '/' && i + 1 < s.len() && s[i + 1] == '/' {
        line_len(s, i) as int
    } else if c == '/' && i + 1 < s.len() && s[i + 1] == '*' {
        (2 + block_len(s, i + 2, 1)) as int
    } else if c == '"' {
        (1 + string_len(s, i + 1)) as int
    } else if c == 'r' && raw_hash_count(s, i) is Some {
        let h = raw_hash_count(s, i)->0;
        (2 + h + raw_body_len(s, i + 2 + h, h)) as int
    } else if c == '\'' && char_lit_end(s, i) is Some {
        char_lit_end(s, i)->0 + 1 - i
    } else {
        1
    }
}

/// What the construct starting at `i` becomes: raw strings blanked (newlines kept), a `'`
/// that opens no char literal (a lifetime) turned into a space, everything else copied.
pub open spec fn step_out(s: Seq<char>, i: int) -> Seq<char> {
    let c = s[i];
    if c == 'r' && raw_hash_count(s, i) is Some && !(c == '/' || c == '"') {
        let h = raw_hash_count(s, i)->0;
        Seq::new(h + 2, |k: int| ' ') + raw_body_blank(s, i + 2 + h, h)
    } else if c == '\'' && char_lit_end(s, i) is None {
        seq![' ']
    } else {
        s.subrange(i, i + step_len(s, i))
    }
}

pub proof fn lemma_step(s: Seq<char>, i: int)
    requires
        0 <= i < s.len(),
    ensures
        1 <= step_len(s, i),
        i + step_len(s, i) <= s.len(),
{
    lemma_lens(s, i, 0, 1);
    lemma_lens(s, i + 1, 0, 1);
    if i + 2 <= s.len() {
        lemma_lens(s, i + 2, 0, 1);
    }
    if s[i] == 'r' && raw_hash_count(s, i) is Some {
        let h = raw_hash_count(s, i)->0;
        lemma_lens(s, i + 2 + h, h, 1);
    }
    lemma_char_lit_end(s, i);
}

/// The sanitized text from index `i` on.
pub open spec fn sanitize_from(s: Seq<char>, i: int) -> Seq<char>
    decreases s.len() - i,
{
    if i < 0 || i >= s.len() {
        seq![]
    } else {
        proof {
            lemma_step(s, i);
        }
        step_out(s, i) + sanitize_from(s, i + step_len(s, i))
    }
}

/// Every character kept or turned into a space, newlines never touched.
pub open spec fn kept_or_blanked(src: Seq<char>, out: Seq<char>) -> bool {
    &&& out.len() == src.len()
    &&& forall|k: int|
        0 <= k < src.len() ==> #[trigger] out[k] == src[k] || (out[k] == ' ' && src[k] != '\n')
}

/// If `chars[i]` is `'r'` starting a raw string (`r"`, `r#"`, `r##"`, ...), return the hash
/// count.
fn raw_string_hash_count(chars: &[char], i: usize) -> (r: Option<usize>)
    requires
        i < chars.len(),
    ensures
        r matches Some(h) ==> raw_hash_count(chars@, i as int) == Some(h as nat) && i + 1 + h
            < chars.len(),
        r is None ==> raw_hash_count(chars@, i as int) is None,
{
    let n = chars.len();
    let mut j = i + 1;
    let mut hashes: usize = 0;
    while j < n && chars[j] == '#'
        invariant
            i + 1 <= j <= n,
            n == chars.len(),
            hashes == j - (i + 1),
            hashes_from(chars@, i + 1) == hashes + hashes_from(chars@, j as int),
        decreases n - j,
    {
        hashes = hashes + 1;
        j = j + 1;
    }
    if j < n && chars[j] == '"' {
        Some(hashes)
    } else {
        None
    }
}

/// Consume (and blank) the body of a raw string starting right after its opening
/// delimiter, stopping once the matching `"` + `hashes` `#`s closer is found (also blanked).
fn blank_raw_string_body(chars: &[char], i: &mut usize, hashes: usize, out: &mut Vec<char>)
    requires
        *old(i) <= chars.len(),
        hashes < chars.len(),
    ensures
        *final(i) == *old(i) + raw_body_len(chars@, *old(i) as int, hashes as nat),
        *final(i) <= chars.len(),
        final(out)@ == old(out)@ + raw_body_blank(chars@, *old(i) as int, hashes as nat),
{
    let n = chars.len();
    let ghost start = *i;
    let ghost out0 = out@;
    proof {
        lemma_lens(chars@, start as int, hashes as nat, 1);
    }
    while *i < n
        invariant
            start <= *i <= n,
            n == chars.len(),
            start == *old(i),
            out0 == old(out)@,
            hashes < n,
            start + raw_body_len(chars@, start as int, hashes as nat) <= n,
            start + raw_body_len(chars@, start as int, hashes as nat) == *i + raw_body_len(
                chars@,
                *i as int,
                hashes as nat,
            ),
            out0 + raw_body_blank(chars@, start as int, hashes as nat) == out@ + raw_body_blank(
                chars@,
                *i as int,
                hashes as nat,
            ),
        decreases n - *i,
    {
        if chars[*i] == '"' {
            let mut k = *i + 1;
            let mut matched: usize = 0;
            while k < n && matched < hashes && chars[k] == '#'
                invariant
                    *i + 1 <= k <= n,
                    n == chars.len(),
                    matched == k - (*i + 1),
                    matched <= hashes,
                    hashes_from(chars@, *i + 1) == matched + hashes_from(chars@, k as int),
                decreases n - k,
            {
                matched = matched + 1;
                k = k + 1;
            }
            if matched == hashes {
                proof {
                    lemma_lens(chars@, *i as int, hashes as nat, 1);
                }
                let ghost before = out@;
                out.push(' ');
                let mut c: usize = 0;
                assert(out@ =~= before + Seq::new((c + 1) as nat, |x: int| ' '));
                while c < hashes
                    invariant
                        c <= hashes,
                        out@ == before + Seq::new((c + 1) as nat, |x: int| ' '),
                    decreases hashes - c,
                {
                    out.push(' ');
                    c = c + 1;
                    assert(out@ =~= before + Seq::new((c + 1) as nat, |x: int| ' '));
                }
                assert(raw_closes_at(chars@, *i as int, hashes as nat));
                assert(raw_body_blank(chars@, *i as int, hashes as nat) == Seq::new(
                    (hashes + 1) as nat,
                    |x: int| ' ',
                ));
                assert(raw_body_len(chars@, *i as int, hashes as nat) == 1 + hashes);
                *i = k;
                return ;
            }
            assert(!raw_closes_at(chars@, *i as int, hashes as nat));
        }
        if chars[*i] == '\n' {
            out.push('\n');
        } else {
            out.push(' ');
        }
        *i = *i + 1;
    }
    assert(raw_body_blank(chars@, *i as int, hashes as nat) == Seq::<char>::empty());
    assert(out@ + Seq::<char>::empty() =~= out@);
}

/// If `chars[i]` is a `'` starting a plausible short char literal (`'x'`, `'\n'`, `'\''`,
/// `'\u{2603}'`), return the index of its closing `'`. Otherwise `None` — it's a lifetime.
fn char_literal_end(chars: &[char], i: usize) -> (r: Option<usize>)
    requires
        i < chars.len(),
    ensures
        r matches Some(e) ==> char_lit_end(chars@, i as int) == Some(e as int),
        r is None ==> char_lit_end(chars@, i as int) is None,
{
    let n = chars.len();
    let mut j = i + 1;
    if j >= n {
        return None;
    }
    if chars[j] == '\\' {
        j = j + 1;
        if j >= n {
            return None;
        }
        if chars[j] == 'u' && j + 1 < n && chars[j + 1] == '{' {
            let mut k = j + 2;
            while k < n && chars[k] != '}'
                invariant
                    j + 2 <= k <= n,
                    n == chars.len(),
                    brace_close(chars@, j + 2) == brace_close(chars@, k as int),
                decreases n - k,
            {
                k = k + 1;
            }
            if k >= n {
                return None;
            }
            j = k + 1;
        } else {
            j = j + 1;
        }
    } else {
        j = j + 1;
    }
    if j < n && chars[j] == '\'' {
        Some(j)
    } else {
        None
    }
}

pub proof fn lemma_hashes(s: Seq<char>, j: int, t: int)
    requires
        0 <= j,
        0 <= t < hashes_from(s, j),
    ensures
        j + t < s.len(),
        s[j + t] == '#',
    decreases t,
{
    if t > 0 {
        lemma_hashes(s, j + 1, t - 1);
    }
}

pub proof fn lemma_kept_concat(a1: Seq<char>, b1: Seq<char>, a2: Seq<char>, b2: Seq<char>)
    requires
        kept_or_blanked(a1, b1),
        kept_or_blanked(a2, b2),
    ensures
        kept_or_blanked(a1 + a2, b1 + b2),
{
    assert forall|k: int| 0 <= k < (a1 + a2).len() implies #[trigger] (b1 + b2)[k] == (a1
        + a2)[k] || ((b1 + b2)[k] == ' ' && (a1 + a2)[k] != '\n') by {
        if k < a1.len() {
            assert(b1[k] == a1[k] || (b1[k] == ' ' && a1[k] != '\n'));
        } else {
            assert(b2[k - a1.len()] == a2[k - a1.len()] || (b2[k - a1.len()] == ' ' && a2[k
                - a1.len()] != '\n'));
        }
    }
}

pub proof fn lemma_raw_blank_kept(s: Seq<char>, i: int, h: nat)
    requires
        0 <= i <= s.len(),
    ensures
        kept_or_blanked(s.subrange(i, i + raw_body_len(s, i, h)), raw_body_blank(s, i, h)),
    decreases s.len() - i,
{
    lemma_lens(s, i, h, 1);
    if i < s.len() {
        if raw_closes_at(s, i, h) {
            let seg = s.subrange(i, i + 1 + h);
            let b = raw_body_blank(s, i, h);
            assert forall|k: int| 0 <= k < seg.len() implies #[trigger] b[k] == seg[k] || (b[k]
                == ' ' && seg[k] != '\n') by {
                if k > 0 {
                    lemma_hashes(s, i + 1, k - 1);
                }
            }
        } else {
            lemma_lens(s, i + 1, h, 1);
            lemma_raw_blank_kept(s, i + 1, h);
            let c = if s[i] == '\n' {
                '\n'
            } else {
                ' '
            };
            assert(kept_or_blanked(seq![s[i]], seq![c]));
            lemma_kept_concat(
                seq![s[i]],
                seq![c],
                s.subrange(i + 1, i + raw_body_len(s, i, h)),
                raw_body_blank(s, i + 1, h),
            );
            assert(seq![s[i]] + s.subrange(i + 1, i + raw_body_len(s, i, h)) =~= s.subrange(
                i,
                i + raw_body_len(s, i, h),
            ));
        }
    }
}

/// Copies `chars[from..to]` to `out`.
fn copy_run(chars: &Vec<char>, from: usize, to: usize, out: &mut Vec<char>)
    requires
        from <= to <= chars.len(),
    ensures
        final(out)@ == old(out)@ + chars@.subrange(from as int, to as int),
{
    let mut i = from;
    let ghost before = out@;
    while i < to
        invariant
            from <= i <= to <= chars.len(),
            out@ == before + chars@.subrange(from as int, i as int),
        decreases to - i,
    {
        out.push(chars[i]);
        i = i + 1;
        assert(out@ =~= before + chars@.subrange(from as int, i as int));
    }
}

proof fn lemma_step_kept(s: Seq<char>, i: int)
    requires
        0 <= i < s.len(),
    ensures
        kept_or_blanked(s.subrange(i, i + step_len(s, i)), step_out(s, i)),
{
    lemma_step(s, i);
    let c = s[i];
    if c == 'r' && raw_hash_count(s, i) is Some {
        let h = raw_hash_count(s, i)->0;
        let b0 = i + 2 + h;
        lemma_lens(s, b0, h, 1);
        lemma_raw_blank_kept(s, b0, h);
        let prefix = Seq::new(h + 2, |k: int| ' ');
        let seg = s.subrange(i, b0);
        assert forall|k: int| 0 <= k < seg.len() implies #[trigger] prefix[k] == seg[k] || (
        prefix[k] == ' ' && seg[k] != '\n') by {
            if 1 <= k <= h {
                lemma_hashes(s, i + 1, k - 1);
            }
        }
        lemma_kept_concat(
            seg,
            prefix,
            s.subrange(b0, b0 + raw_body_len(s, b0, h)),
            raw_body_blank(s, b0, h),
        );
        assert(seg + s.subrange(b0, b0 + raw_body_len(s, b0, h)) =~= s.subrange(
            i,
            i + step_len(s, i),
        ));
    } else if c == '\'' && char_lit_end(s, i) is None {
        assert(s.subrange(i, i + 1) =~= seq![c]);
    }
}

fn step_line(chars: &Vec<char>, i: usize) -> (j: usize)
    requires
        i < chars.len(),
    ensures
        j == i + line_len(chars@, i as int),
{
    let n = chars.len();
    let mut j = i;
    while j < n && chars[j] != '\n'
        invariant
            i <= j <= n,
            n == chars.len(),
            i + line_len(chars@, i as int) == j + line_len(chars@, j as int),
        decreases n - j,
    {
        j = j + 1;
    }
    j
}

fn step_block(chars: &Vec<char>, i: usize) -> (j: usize)
    requires
        i + 2 <= chars.len(),
    ensures
        j == i + 2 + block_len(chars@, i + 2, 1),
{
    let n = chars.len();
    let mut j = i + 2;
    let mut depth: usize = 1;
    while j < n && depth > 0
        invariant
            i + 2 <= j <= n,
            n == chars.len(),
            i + 2 + block_len(chars@, i + 2, 1) == j + block_len(chars@, j as int, depth as nat),
            depth <= j,
        decreases n - j,
    {
        if j + 1 < n && chars[j] == '/' && chars[j + 1] == '*' {
            j = j + 2;
            depth = depth + 1;
        } else if j + 1 < n && chars[j] == '*' && chars[j + 1] == '/' {
            j = j + 2;
            depth = depth - 1;
        } else {
            j = j + 1;
        }
    }
    j
}

fn step_string(chars: &Vec<char>, i: usize) -> (j: usize)
    requires
        i < chars.len(),
    ensures
        j == i + 1 + string_len(chars@, i + 1),
{
    let n = chars.len();
    let mut j = i + 1;
    let mut closed = false;
    while j < n && !closed
        invariant
            i + 1 <= j <= n,
            n == chars.len(),
            !closed ==> i + 1 + string_len(chars@, i + 1) == j + string_len(chars@, j as int),
            closed ==> i + 1 + string_len(chars@, i + 1) == j,
        decreases n - j,
    {
        let ch = chars[j];
        if ch == '\\' && j + 1 < n {
            j = j + 2;
        } else {
            j = j + 1;
            if ch == '"' {
                closed = true;
            }
        }
    }
    j
}

fn step_raw(chars: &Vec<char>, i: usize, hashes: usize, out: &mut Vec<char>) -> (j: usize)
    requires
        raw_hash_count(chars@, i as int) == Some(hashes as nat),
        i + 1 + hashes < chars.len(),
    ensures
        j == i + 2 + hashes + raw_body_len(chars@, i + 2 + hashes, hashes as nat),
        final(out)@ == old(out)@ + Seq::new((hashes + 2) as nat, |k: int| ' ') + raw_body_blank(
            chars@,
            i + 2 + hashes,
            hashes as nat,
        ),
{
    let ghost before = out@;
    let mut c2: usize = 0;
    while c2 < hashes + 2
        invariant
            i + 1 + hashes < chars.len(),
            c2 <= hashes + 2,
            out@ == before + Seq::new(c2 as nat, |x: int| ' '),
        decreases hashes + 2 - c2,
    {
        out.push(' ');
        c2 = c2 + 1;
        assert(out@ =~= before + Seq::new(c2 as nat, |x: int| ' '));
    }
    let mut j = i + hashes + 2;
    blank_raw_string_body(chars, &mut j, hashes, out);
    j
}

/// Sanitizes the construct that starts at `i`, appending it to `out`; returns where the
/// next one starts.
fn sanitize_step(chars: &Vec<char>, i: usize, out: &mut Vec<char>) -> (j: usize)
    requires
        i < chars.len(),
    ensures
        j == i + step_len(chars@, i as int),
        final(out)@ == old(out)@ + step_out(chars@, i as int),
{
    let n = chars.len();
    let c = chars[i];
    proof {
        lemma_step(chars@, i as int);
    }
    if c == '/' && i + 1 < n && chars[i + 1] == '/' {
        let j = step_line(chars, i);
        copy_run(chars, i, j, out);
        j
    } else if c == '/' && i + 1 < n && chars[i + 1] == '*' {
        let j = step_block(chars, i);
        copy_run(chars, i, j, out);
        j
    } else if c == '"' {
        let j = step_string(chars, i);
        copy_run(chars, i, j, out);
        j
    } else if c == 'r' && raw_string_hash_count(chars, i).is_some() {
        let hashes = raw_string_hash_count(chars, i).unwrap();
        step_raw(chars, i, hashes, out)
    } else if c == '\'' && char_literal_end(chars, i).is_some() {
        let end = char_literal_end(chars, i).unwrap();
        copy_run(chars, i, end + 1, out);
        end + 1
    } else if c == '\'' {
        out.push(' ');
        i + 1
    } else {
        let ghost before = out@;
        out.push(c);
        assert(chars@.subrange(i as int, i + 1) =~= seq![c]);
        assert(out@ =~= before + seq![c]);
        i + 1
    }
}

/// Neutralize lifetimes and raw strings for `xgettext --language=C`, keeping everything
/// else, and every line, in place.
pub fn sanitize_for_xgettext(src: &str) -> (r: String)
    ensures
        r@ == sanitize_from(src@, 0),
        kept_or_blanked(src@, r@),
{
    let chars = chars_of(src);
    let n = chars.len();
    let ghost s = chars@;
    let mut out: Vec<char> = Vec::new();
    let mut i: usize = 0;
    assert(s.take(0) =~= Seq::<char>::empty());
    assert(out@ =~= Seq::<char>::empty());
    while i < n
        invariant
            i <= n,
            n == chars.len(),
            s == chars@,
            sanitize_from(s, 0) == out@ + sanitize_from(s, i as int),
            kept_or_blanked(s.take(i as int), out@),
        decreases n - i,
    {
        let ghost before = out@;
        let ghost i0 = i;
        proof {
            lemma_step(s, i0 as int);
        }
        i = sanitize_step(&chars, i, &mut out);
        proof {
            lemma_step_kept(s, i0 as int);
            let added = step_out(s, i0 as int);
            lemma_kept_concat(s.take(i0 as int), before, s.subrange(i0 as int, i as int), added);
            assert(s.take(i0 as int) + s.subrange(i0 as int, i as int) =~= s.take(i as int));
        }
    }
    assert(sanitize_from(s, i as int) == Seq::<char>::empty());
    assert(out@ + Seq::<char>::empty() =~= out@);
    assert(s.take(i as int) =~= s);
    string_of(&out)
}


/// Whether reading `s` from `i` one construct at a time (a comment, a string or a literal
/// taken whole, anything else a character at a time) arrives at index `j`: the places where
/// the source has code, not the inside of a comment, string or literal.
pub open spec fn reaches(s: Seq<char>, i: int, j: int) -> bool
    decreases s.len() - i,
{
    if i == j {
        true
    } else if 0 <= i < j && i < s.len() {
        proof {
            lemma_step(s, i);
        }
        reaches(s, i + step_len(s, i), j)
    } else {
        false
    }
}

proof fn lemma_reaches_before(s: Seq<char>, i: int, j: int)
    requires
        reaches(s, i, j),
    ensures
        i <= j,
    decreases s.len() - i,
{
    if i != j {
        lemma_step(s, i);
        lemma_reaches_before(s, i + step_len(s, i), j);
    }
}

/// The sanitized text keeps every character or blanks it, and keeps every line break.
proof fn lemma_sanitize_kept(s: Seq<char>, i: int)
    requires
        0 <= i <= s.len(),
    ensures
        kept_or_blanked(s.subrange(i, s.len() as int), sanitize_from(s, i)),
    decreases s.len() - i,
{
    if i < s.len() {
        lemma_step(s, i);
        let e = i + step_len(s, i);
        lemma_step_kept(s, i);
        lemma_sanitize_kept(s, e);
        lemma_kept_concat(s.subrange(i, e), step_out(s, i), s.subrange(e, s.len() as int), sanitize_from(s, e));
        assert(s.subrange(i, e) + s.subrange(e, s.len() as int) =~= s.subrange(i, s.len() as int));
    } else {
        assert(s.subrange(i, s.len() as int) =~= Seq::<char>::empty());
    }
}

/// A `//` comment ends at its line break or at the end of the text.
proof fn lemma_line_len_ends(s: Seq<char>, i: int)
    requires
        0 <= i <= s.len(),
    ensures
        forall|m: int| i <= m < i + line_len(s, i) ==> s[m] != '\n',
        i + line_len(s, i) < s.len() ==> s[i + line_len(s, i)] == '\n',
    decreases s.len() - i,
{
    if i < s.len() && s[i] != '\n' {
        lemma_line_len_ends(s, i + 1);
    }
}

proof fn lemma_comment_kept_from(s: Seq<char>, i: int, j: int)
    requires
        0 <= i,
        reaches(s, i, j),
        0 <= j,
        j + 1 < s.len(),
        s[j] == '/',
        s[j + 1] == '/',
    ensures
        forall|k: int|
            j <= k < s.len() && (forall|m: int| j <= m < k ==> s[m] != '\n') ==> #[trigger] sanitize_from(
                s,
                i,
            )[k - i] == s[k],
    decreases s.len() - i,
{
    lemma_step(s, i);
    lemma_sanitize_kept(s, i);
    let e = i + step_len(s, i);
    lemma_step_kept(s, i);
    let so = step_out(s, i);
    assert(so.len() == step_len(s, i));
    assert(sanitize_from(s, i) == so + sanitize_from(s, e));
    if i == j {
        lemma_line_len_ends(s, j);
        assert(step_len(s, j) == line_len(s, j) as int);
        assert(so == s.subrange(j, e));
        assert forall|k: int|
            j <= k < s.len() && (forall|m: int| j <= m < k ==> s[m] != '\n') implies #[trigger] sanitize_from(
                s,
                i,
            )[k - i] == s[k] by {
            if k < e {
                assert(sanitize_from(s, i)[k - i] == so[k - j]);
            } else {
                if k > e {
                    assert(s[e] != '\n');
                }
                assert(k == e);
                assert(s[k] == '\n');
                assert(s.subrange(i, s.len() as int)[k - i] == s[k]);
            }
        }
    } else {
        lemma_comment_kept_from(s, e, j);
        lemma_sanitize_kept(s, e);
        lemma_reaches_before(s, e, j);
        assert forall|k: int|
            j <= k < s.len() && (forall|m: int| j <= m < k ==> s[m] != '\n') implies #[trigger] sanitize_from(
                s,
                i,
            )[k - i] == s[k] by {
            assert(sanitize_from(s, i)[k - i] == sanitize_from(s, e)[k - e]);
        }
    }
}

/// A `//` comment of the source (one that starts where code is, not inside a string,
/// literal or other comment) is copied unchanged, up to and including its line break, to the
/// same place in the output: sanitizing touches no character of it.
pub proof fn law_line_comments_are_kept(s: Seq<char>, j: int)
    requires
        reaches(s, 0, j),
        0 <= j,
        j + 1 < s.len(),
        s[j] == '/',
        s[j + 1] == '/',
    ensures
        sanitize_from(s, 0).len() == s.len(),
        forall|k: int|
            j <= k < s.len() && (forall|m: int| j <= m < k ==> s[m] != '\n') ==> #[trigger] sanitize_from(
                s,
                0,
            )[k] == s[k],
{
    lemma_sanitize_kept(s, 0);
    lemma_comment_kept_from(s, 0, j);
    assert forall|k: int|
        j <= k < s.len() && (forall|m: int| j <= m < k ==> s[m] != '\n') implies #[trigger] sanitize_from(
            s,
            0,
        )[k] == s[k] by {
        assert(sanitize_from(s, 0)[k - 0] == s[k]);
    }
}


/// Whether the construct at `j` is one the scan rewrites: a raw string, or a `'` that opens
/// no char literal (a lifetime's quote).
pub open spec fn rewritten_at(s: Seq<char>, j: int) -> bool {
    ||| s[j] == 'r' && raw_hash_count(s, j) is Some
    ||| s[j] == '\'' && char_lit_end(s, j) is None
}

/// The output from `i` on places what each construct becomes where the construct stands.
proof fn lemma_output_at(s: Seq<char>, i: int, j: int)
    requires
        0 <= i,
        reaches(s, i, j),
        j < s.len(),
    ensures
        forall|m: int| 0 <= m < step_out(s, j).len() ==> #[trigger] sanitize_from(s, i)[j - i + m] == step_out(s, j)[m],
        j - i + step_out(s, j).len() <= sanitize_from(s, i).len(),
    decreases s.len() - i,
{
    lemma_step(s, i);
    lemma_sanitize_kept(s, i);
    let e = i + step_len(s, i);
    lemma_step_kept(s, i);
    lemma_sanitize_kept(s, e);
    assert(sanitize_from(s, i) == step_out(s, i) + sanitize_from(s, e));
    if i != j {
        lemma_reaches_before(s, e, j);
        lemma_output_at(s, e, j);
        assert forall|m: int| 0 <= m < step_out(s, j).len() implies #[trigger] sanitize_from(s, i)[j - i + m]
            == step_out(s, j)[m] by {
            assert(sanitize_from(s, i)[j - i + m] == sanitize_from(s, e)[j - e + m]);
        }
    }
}

/// The places whose character sanitizing may change, from `i` on.
proof fn lemma_changed_from(s: Seq<char>, i: int)
    requires
        0 <= i <= s.len(),
    ensures
        forall|k: int|
            i <= k < s.len() && #[trigger] sanitize_from(s, i)[k - i] != s[k] ==> exists|j: int|
                reaches(s, i, j) && j <= k < j + step_len(s, j) && rewritten_at(s, j),
    decreases s.len() - i,
{
    if i < s.len() {
        lemma_step(s, i);
        lemma_sanitize_kept(s, i);
        let e = i + step_len(s, i);
        lemma_step_kept(s, i);
        lemma_sanitize_kept(s, e);
        lemma_changed_from(s, e);
        assert(sanitize_from(s, i) == step_out(s, i) + sanitize_from(s, e));
        assert forall|k: int|
            i <= k < s.len() && #[trigger] sanitize_from(s, i)[k - i] != s[k] implies exists|j: int|
                reaches(s, i, j) && j <= k < j + step_len(s, j) && rewritten_at(s, j) by {
            if k < e {
                if !rewritten_at(s, i) {
                    assert(step_out(s, i) == s.subrange(i, e));
                    assert(sanitize_from(s, i)[k - i] == step_out(s, i)[k - i]);
                }
                assert(reaches(s, i, i));
            } else {
                assert(sanitize_from(s, i)[k - i] == sanitize_from(s, e)[k - e]);
                let j = choose|j: int| reaches(s, e, j) && j <= k < j + step_len(s, j) && rewritten_at(s, j);
                lemma_reaches_before(s, e, j);
                assert(reaches(s, i, j));
            }
        }
    }
}

/// Sanitizing changes nothing but raw strings and the quotes of lifetimes: every character it
/// changes lies in a raw string or is a `'` that opens no char literal, both where code is (not
/// inside a comment, a string or a literal); and each such quote becomes a space.
pub proof fn law_only_raw_strings_and_lifetimes_change(s: Seq<char>)
    ensures
        sanitize_from(s, 0).len() == s.len(),
        forall|k: int|
            0 <= k < s.len() && #[trigger] sanitize_from(s, 0)[k] != s[k] ==> exists|j: int|
                reaches(s, 0, j) && j <= k < j + step_len(s, j) && rewritten_at(s, j),
        forall|j: int|
            0 <= j < s.len() && reaches(s, 0, j) && s[j] == '\'' && char_lit_end(s, j) is None
                ==> #[trigger] sanitize_from(s, 0)[j] == ' ',
{
    lemma_sanitize_kept(s, 0);
    lemma_changed_from(s, 0);
    assert forall|k: int|
        0 <= k < s.len() && #[trigger] sanitize_from(s, 0)[k] != s[k] implies exists|j: int|
            reaches(s, 0, j) && j <= k < j + step_len(s, j) && rewritten_at(s, j) by {
        assert(sanitize_from(s, 0)[k - 0] != s[k]);
    }
    assert forall|j: int|
        0 <= j < s.len() && reaches(s, 0, j) && s[j] == '\'' && char_lit_end(s, j) is None
            implies #[trigger] sanitize_from(s, 0)[j] == ' ' by {
        lemma_output_at(s, 0, j);
        assert(step_out(s, j) == seq![' ']);
        assert(sanitize_from(s, 0)[j - 0 + 0] == step_out(s, j)[0]);
    }
}

} // verus!
