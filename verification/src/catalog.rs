//! Gettext `.mo` catalogs: reading the binary format and looking translations up.
use vstd::prelude::*;
use vstd::utf8::{decode_utf8, valid_utf8};

use crate::text::string_of;

verus! {

/// The magic number of a little-endian `.mo` file, as read little-endian.
pub const MAGIC_LE: u32 = 0x9504_12DE;

/// The magic number of a big-endian `.mo` file, as read little-endian.
pub const MAGIC_BE: u32 = 0xDE12_0495;

/// The `u32` stored at `pos`, in the file's byte order; `None` past the end of the data.
pub open spec fn u32_at(data: Seq<u8>, le: bool, pos: int) -> Option<nat> {
    if 0 <= pos && pos + 4 <= data.len() {
        if le {
            Some(
                (data[pos] + 256 * data[pos + 1] + 65536 * data[pos + 2] + 16777216 * data[pos
                    + 3]) as nat,
            )
        } else {
            Some(
                (data[pos + 3] + 256 * data[pos + 2] + 65536 * data[pos + 1] + 16777216 * data[pos])
                    as nat,
            )
        }
    } else {
        None
    }
}

/// The file's byte order from its magic number (`true` for little-endian); `None` for data
/// too short for a header or with another magic number.
pub open spec fn mo_order(data: Seq<u8>) -> Option<bool> {
    if data.len() < 28 {
        None
    } else if u32_at(data, true, 0) == Some(MAGIC_LE as nat) {
        Some(true)
    } else if u32_at(data, true, 0) == Some(MAGIC_BE as nat) {
        Some(false)
    } else {
        None
    }
}

/// The bytes of the string whose length and offset a table holds at `pos`.
pub open spec fn mo_string(data: Seq<u8>, le: bool, pos: int) -> Option<Seq<u8>> {
    match (u32_at(data, le, pos), u32_at(data, le, pos + 4)) {
        (Some(len), Some(off)) => if off + len <= data.len() {
            Some(data.subrange(off as int, (off + len) as int))
        } else {
            None
        },
        _ => None,
    }
}

/// The pieces of `s` between the occurrences of `c` (`str::split` with a `char`): always at
/// least one.
pub open spec fn split_char(s: Seq<char>, c: char) -> Seq<Seq<char>>
    decreases s.len(),
{
    if s.len() == 0 {
        seq![seq![]]
    } else {
        let prev = split_char(s.drop_last(), c);
        if s.last() == c {
            prev.push(seq![])
        } else {
            prev.drop_last().push(prev.last().push(s.last()))
        }
    }
}

/// The non-empty pieces, in order.
pub open spec fn nonempty(ps: Seq<Seq<char>>) -> Seq<Seq<char>>
    decreases ps.len(),
{
    if ps.len() == 0 {
        seq![]
    } else if ps.last().len() == 0 {
        nonempty(ps.drop_last())
    } else {
        nonempty(ps.drop_last()).push(ps.last())
    }
}

/// Entry `i` of the file: `None` when it cannot be read (a table or string out of range, or
/// text that is not UTF-8), `Some(None)` when it is skipped (an empty singular msgid, or no
/// non-empty form), else its singular msgid and its non-empty forms. A plural entry's msgid
/// is `singular\0plural` and its translation `form0\0form1\0...`.
pub open spec fn mo_entry(data: Seq<u8>, le: bool, orig: nat, trans: nat, i: nat) -> Option<
    Option<(Seq<char>, Seq<Seq<char>>)>,
> {
    match (mo_string(data, le, (orig + 8 * i) as int), mo_string(data, le, (trans + 8 * i) as int)) {
        (Some(kb), Some(vb)) => if valid_utf8(kb) && valid_utf8(vb) {
            let singular = split_char(decode_utf8(kb), '\0')[0];
            let val = decode_utf8(vb);
            let forms = nonempty(split_char(val, '\0'));
            if singular.len() == 0 || val.len() == 0 || forms.len() == 0 {
                Some(None)
            } else {
                Some(Some((singular, forms)))
            }
        } else {
            None
        },
        _ => None,
    }
}

/// The entries `0..i` that are kept, in file order; `None` if any of them cannot be read.
pub open spec fn mo_pairs(data: Seq<u8>, le: bool, orig: nat, trans: nat, i: nat) -> Option<
    Seq<(Seq<char>, Seq<Seq<char>>)>,
>
    decreases i,
{
    if i == 0 {
        Some(seq![])
    } else {
        match mo_pairs(data, le, orig, trans, (i - 1) as nat) {
            None => None,
            Some(ps) => match mo_entry(data, le, orig, trans, (i - 1) as nat) {
                None => None,
                Some(None) => Some(ps),
                Some(Some(p)) => Some(ps.push(p)),
            },
        }
    }
}

/// The map the pairs build, a later pair for the same msgid replacing an earlier one.
pub open spec fn pairs_map(ps: Seq<(Seq<char>, Seq<Seq<char>>)>) -> Map<Seq<char>, Seq<Seq<char>>>
    decreases ps.len(),
{
    if ps.len() == 0 {
        Map::empty()
    } else {
        pairs_map(ps.drop_last()).insert(ps.last().0, ps.last().1)
    }
}

/// The translations a `.mo` file holds, by singular msgid; `None` for a file that is not a
/// well-formed catalog.
pub open spec fn parse_mo_spec(data: Seq<u8>) -> Option<Map<Seq<char>, Seq<Seq<char>>>> {
    match mo_order(data) {
        None => None,
        Some(le) => match (u32_at(data, le, 8), u32_at(data, le, 12), u32_at(data, le, 16)) {
            (Some(n), Some(orig), Some(trans)) => match mo_pairs(data, le, orig, trans, n) {
                Some(ps) => Some(pairs_map(ps)),
                None => None,
            },
            _ => None,
        },
    }
}

/// The text `bytes` encode, by `std::str::from_utf8`: `Some` exactly when the bytes are
/// valid UTF-8, holding the characters they decode to.
#[verifier::external_body]
fn utf8_text(bytes: &[u8]) -> (r: Option<String>)
    ensures
        r is Some <==> valid_utf8(bytes@),
        r matches Some(s) ==> s@ == decode_utf8(bytes@),
{
    match std::str::from_utf8(bytes) {
        Ok(s) => Some(s.to_string()),
        Err(_) => None,
    }
}

fn read_u32(data: &[u8], le: bool, pos: u64) -> (r: Option<u32>)
    ensures
        (match r {
            Some(v) => Some(v as nat),
            None => None::<nat>,
        }) == u32_at(data@, le, pos as int),
{
    if pos > data.len() as u64 || data.len() as u64 - pos < 4 {
        return None;
    }
    let p = pos as usize;
    let b0 = data[p] as u32;
    let b1 = data[p + 1] as u32;
    let b2 = data[p + 2] as u32;
    let b3 = data[p + 3] as u32;
    if le {
        Some(b0 + 256 * b1 + 65536 * b2 + 16777216 * b3)
    } else {
        Some(b3 + 256 * b2 + 65536 * b1 + 16777216 * b0)
    }
}

fn read_string(data: &[u8], le: bool, pos: u64) -> (r: Option<&[u8]>)
    requires
        pos + 4 <= u64::MAX,
    ensures
        (match r {
            Some(b) => Some(b@),
            None => None::<Seq<u8>>,
        }) == mo_string(data@, le, pos as int),
{
    let len = match read_u32(data, le, pos) {
        Some(v) => v as u64,
        None => {
            return None;
        },
    };
    let off = match read_u32(data, le, pos + 4) {
        Some(v) => v as u64,
        None => {
            return None;
        },
    };
    if off + len > data.len() as u64 {
        return None;
    }
    Some(vstd::slice::slice_subrange(data, off as usize, (off + len) as usize))
}

/// The pieces of `s` between the occurrences of `c` that are not empty.
fn nonempty_pieces(s: &[char], c: char) -> (r: Vec<Vec<char>>)
    ensures
        crate::text::views(r@) == nonempty(split_char(s@, c)),
{
    let ghost pieces = split_char(s@, c);
    let mut done: Vec<Vec<char>> = Vec::new();
    let mut cur: Vec<char> = Vec::new();
    let mut i: usize = 0;
    assert(s@.take(0) =~= Seq::<char>::empty());
    while i < s.len()
        invariant
            i <= s.len(),
            split_char(s@.take(i as int), c) == split_char(s@.take(i as int), c).drop_last().push(
                cur@,
            ),
            split_char(s@.take(i as int), c).len() >= 1,
            crate::text::views(done@) == nonempty(split_char(s@.take(i as int), c).drop_last()),
        decreases s.len() - i,
    {
        let ghost prev = split_char(s@.take(i as int), c);
        assert(s@.take(i + 1).drop_last() =~= s@.take(i as int));
        assert(s@.take(i + 1).last() == s@[i as int]);
        if s[i] == c {
            let ghost before = done@;
            if cur.len() > 0 {
                done.push(cur);
                assert(crate::text::views(done@) =~= crate::text::views(before).push(prev.last()));
            }
            assert(prev.push(seq![]).drop_last() =~= prev);
            assert(prev =~= prev.drop_last().push(prev.last()));
            cur = Vec::new();
        } else {
            cur.push(s[i]);
            assert(prev.drop_last().push(prev.last().push(s@[i as int])).drop_last()
                =~= prev.drop_last());
        }
        i = i + 1;
        assert(split_char(s@.take(i as int), c) =~= split_char(s@.take(i as int), c).drop_last().push(
            cur@,
        ));
    }
    assert(s@.take(i as int) =~= s@);
    let ghost all = split_char(s@, c);
    assert(all =~= all.drop_last().push(all.last()));
    if cur.len() > 0 {
        let ghost before = done@;
        done.push(cur);
        assert(crate::text::views(done@) =~= crate::text::views(before).push(all.last()));
    }
    done
}

/// A parsed gettext `.mo` catalog: the forms of each translated message, by singular msgid.
pub struct Catalog {
    translations: Vec<(String, Vec<String>)>,
}

pub open spec fn pair_views(v: Seq<(String, Vec<String>)>) -> Seq<(Seq<char>, Seq<Seq<char>>)> {
    v.map_values(|p: (String, Vec<String>)| (p.0@, crate::text::string_views(p.1@)))
}

impl View for Catalog {
    type V = Map<Seq<char>, Seq<Seq<char>>>;

    closed spec fn view(&self) -> Map<Seq<char>, Seq<Seq<char>>> {
        pairs_map(pair_views(self.translations@))
    }
}

/// Every message the pairs hold has at least one form.
pub open spec fn forms_nonempty(ps: Seq<(Seq<char>, Seq<Seq<char>>)>) -> bool {
    forall|i: int| 0 <= i < ps.len() ==> (#[trigger] ps[i]).1.len() > 0
}

/// The last index holding `key`.
pub open spec fn last_index(ps: Seq<(Seq<char>, Seq<Seq<char>>)>, key: Seq<char>) -> Option<int>
    decreases ps.len(),
{
    if ps.len() == 0 {
        None
    } else if ps.last().0 == key {
        Some(ps.len() - 1)
    } else {
        last_index(ps.drop_last(), key)
    }
}

proof fn lemma_pairs_map(ps: Seq<(Seq<char>, Seq<Seq<char>>)>, key: Seq<char>)
    ensures
        pairs_map(ps).contains_key(key) <==> last_index(ps, key) is Some,
        last_index(ps, key) matches Some(i) ==> 0 <= i < ps.len() && ps[i].0 == key
            && pairs_map(ps)[key] == ps[i].1,
    decreases ps.len(),
{
    if ps.len() > 0 {
        lemma_pairs_map(ps.drop_last(), key);
    }
}

impl Catalog {
    #[verifier::type_invariant]
    closed spec fn inv(self) -> bool {
        forms_nonempty(pair_views(self.translations@))
    }

    /// Parses the bytes of a `.mo` file; `None` when they are not a well-formed catalog.
    pub fn parse(data: &[u8]) -> (r: Option<Catalog>)
        ensures
            (match r {
                Some(c) => Some(c@),
                None => None::<Map<Seq<char>, Seq<Seq<char>>>>,
            }) == parse_mo_spec(data@),
    {
        parse_mo(data)
    }

    /// Where the forms of `key` stand, when the catalog has it.
    fn find(&self, key: &str) -> (r: Option<usize>)
        ensures
            r is Some <==> self@.contains_key(key@),
            r matches Some(i) ==> i < self.translations.len() && self@[key@]
                == crate::text::string_views(self.translations@[i as int].1@),
    {
        let ghost ps = pair_views(self.translations@);
        let kv = crate::text::chars_of(key);
        let mut k = self.translations.len();
        assert(ps.take(k as int) =~= ps);
        while k > 0
            invariant
                k <= self.translations.len(),
                ps == pair_views(self.translations@),
                kv@ == key@,
                last_index(ps, key@) == last_index(ps.take(k as int), key@),
            decreases k,
        {
            assert(ps.take(k as int).drop_last() =~= ps.take(k - 1));
            assert(ps.take(k as int).last() == ps[k - 1]);
            let name = crate::text::chars_of(self.translations[k - 1].0.as_str());
            if crate::text::eq(&name, &kv) {
                proof {
                    lemma_pairs_map(ps, key@);
                }
                return Some(k - 1);
            }
            k = k - 1;
        }
        proof {
            lemma_pairs_map(ps, key@);
        }
        None
    }

    /// The first form of `key`'s translation, or `key` itself when the catalog has none.
    pub fn gettext<'a>(&'a self, key: &'a str) -> (r: &'a str)
        ensures
            r@ == (if self@.contains_key(key@) {
                self@[key@][0]
            } else {
                key@
            }),
    {
        proof {
            use_type_invariant(self);
        }
        match self.find(key) {
            Some(i) => {
                assert(pair_views(self.translations@)[i as int].1.len() > 0);
                self.translations[i].1[0].as_str()
            },
            None => key,
        }
    }

    /// The translation of a message with a plural form: form 0 for a count of 1, else form 1
    /// (or form 0 when that is the only one); without a translation, `singular` for a count of
    /// 1 and `plural` otherwise.
    pub fn ngettext<'a>(&'a self, singular: &'a str, plural: &'a str, n: u64) -> (r: &'a str)
        ensures
            r@ == (if self@.contains_key(singular@) {
                if n == 1 || self@[singular@].len() == 1 {
                    self@[singular@][0]
                } else {
                    self@[singular@][1]
                }
            } else if n == 1 {
                singular@
            } else {
                plural@
            }),
    {
        proof {
            use_type_invariant(self);
        }
        match self.find(singular) {
            Some(i) => {
                let forms = &self.translations[i].1;
                assert(pair_views(self.translations@)[i as int].1.len() > 0);
                let idx: usize = if n == 1 {
                    0
                } else if forms.len() - 1 < 1 {
                    forms.len() - 1
                } else {
                    1
                };
                forms[idx].as_str()
            },
            None => if n == 1 {
                singular
            } else {
                plural
            },
        }
    }
}

/// Reads a `.mo` file: the header (magic number, revision, entry count, the offsets of the
/// msgid and translation string tables), then each entry's msgid and translation.
pub fn parse_mo(data: &[u8]) -> (r: Option<Catalog>)
    ensures
        (match r {
            Some(c) => Some(c@),
            None => None::<Map<Seq<char>, Seq<Seq<char>>>>,
        }) == parse_mo_spec(data@),
{
    if data.len() < 28 {
        return None;
    }
    let magic = match read_u32(data, true, 0) {
        Some(m) => m,
        None => {
            return None;
        },
    };
    let le = if magic == MAGIC_LE {
        true
    } else if magic == MAGIC_BE {
        false
    } else {
        return None;
    };
    let n = match read_u32(data, le, 8) {
        Some(v) => v as u64,
        None => {
            return None;
        },
    };
    let orig = match read_u32(data, le, 12) {
        Some(v) => v as u64,
        None => {
            return None;
        },
    };
    let trans = match read_u32(data, le, 16) {
        Some(v) => v as u64,
        None => {
            return None;
        },
    };
    let mut translations: Vec<(String, Vec<String>)> = Vec::new();
    let mut i: u64 = 0;
    while i < n
        invariant
            i <= n <= u32::MAX,
            orig <= u32::MAX,
            trans <= u32::MAX,
            mo_order(data@) == Some(le),
            u32_at(data@, le, 8) == Some(n as nat),
            u32_at(data@, le, 12) == Some(orig as nat),
            u32_at(data@, le, 16) == Some(trans as nat),
            mo_pairs(data@, le, orig as nat, trans as nat, i as nat) == Some(
                pair_views(translations@),
            ),
            forms_nonempty(pair_views(translations@)),
        decreases n - i,
    {
        match read_entry(data, le, orig, trans, i) {
            None => {
                proof {
                    lemma_pairs_stay_none(data@, le, orig as nat, trans as nat, (i + 1) as nat, n as nat);
                }
                return None;
            },
            Some(None) => {},
            Some(Some((name, forms))) => {
                let ghost before = translations@;
                translations.push((name, forms));
                assert(pair_views(translations@) =~= pair_views(before).push(
                    (name@, crate::text::string_views(forms@)),
                ));
            },
        }
        i = i + 1;
    }
    Some(Catalog { translations })
}

/// Once an entry cannot be read, neither can the catalog.
proof fn lemma_pairs_stay_none(data: Seq<u8>, le: bool, orig: nat, trans: nat, i: nat, j: nat)
    requires
        i <= j,
        mo_pairs(data, le, orig, trans, i) is None,
    ensures
        mo_pairs(data, le, orig, trans, j) is None,
    decreases j,
{
    if j > i {
        lemma_pairs_stay_none(data, le, orig, trans, i, (j - 1) as nat);
    }
}

/// Reads entry `i` (see [`mo_entry`]).
fn read_entry(data: &[u8], le: bool, orig: u64, trans: u64, i: u64) -> (r: Option<
    Option<(String, Vec<String>)>,
>)
    requires
        i < u32::MAX,
        orig <= u32::MAX,
        trans <= u32::MAX,
    ensures
        (match r {
            None => None,
            Some(None) => Some(None),
            Some(Some((k, fs))) => Some(Some((k@, crate::text::string_views(fs@)))),
        }) == mo_entry(data@, le, orig as nat, trans as nat, i as nat),
        r matches Some(Some((k, fs))) ==> fs.len() > 0,
{
    let kb = match read_string(data, le, orig + i * 8) {
        Some(b) => b,
        None => {
            return None;
        },
    };
    let vb = match read_string(data, le, trans + i * 8) {
        Some(b) => b,
        None => {
            return None;
        },
    };
    let key = match utf8_text(kb) {
        Some(s) => s,
        None => {
            return None;
        },
    };
    let val = match utf8_text(vb) {
        Some(s) => s,
        None => {
            return None;
        },
    };
    let kc = crate::text::chars_of(key.as_str());
    let vc = crate::text::chars_of(val.as_str());
    let mut s_end: usize = 0;
    while s_end < kc.len() && kc[s_end] != '\0'
        invariant
            s_end <= kc.len(),
            forall|j: int| 0 <= j < s_end ==> kc@[j] != '\0',
        decreases kc.len() - s_end,
    {
        s_end = s_end + 1;
    }
    let singular = crate::text::slice_of(&kc, 0, s_end);
    proof {
        lemma_first_piece(kc@, '\0', s_end as int);
        assert(singular@ =~= kc@.take(s_end as int));
    }
    let forms = nonempty_pieces(&vc, '\0');
    if singular.len() == 0 || vc.len() == 0 || forms.len() == 0 {
        return Some(None);
    }
    let mut fs: Vec<String> = Vec::new();
    let mut k: usize = 0;
    while k < forms.len()
        invariant
            k <= forms.len(),
            crate::text::string_views(fs@) == crate::text::views(forms@).take(k as int),
        decreases forms.len() - k,
    {
        let ghost before = fs@;
        fs.push(string_of(&forms[k]));
        assert(crate::text::string_views(fs@) =~= crate::text::string_views(before).push(
            forms@[k as int]@,
        ));
        k = k + 1;
        assert(crate::text::string_views(fs@) =~= crate::text::views(forms@).take(k as int));
    }
    assert(crate::text::views(forms@).take(k as int) =~= crate::text::views(forms@));
    Some(Some((string_of(&singular), fs)))
}

/// The first piece of `s` split at `c` ends at the first `c`.
proof fn lemma_first_piece(s: Seq<char>, c: char, e: int)
    requires
        0 <= e <= s.len(),
        forall|j: int| 0 <= j < e ==> s[j] != c,
        e == s.len() || s[e] == c,
    ensures
        split_char(s, c)[0] == s.take(e),
{
    if e == s.len() {
        lemma_split_char_whole(s, c);
        assert(s.take(e) =~= s);
    } else {
        lemma_split_char_after(s, c, e, s.len() as int);
        assert(s.take(s.len() as int) =~= s);
    }
}

/// Without a `c`, splitting at `c` gives the whole text as the one piece.
pub proof fn lemma_split_char_whole(t: Seq<char>, c: char)
    requires
        forall|j: int| 0 <= j < t.len() ==> t[j] != c,
    ensures
        split_char(t, c) == seq![t],
    decreases t.len(),
{
    if t.len() > 0 {
        lemma_split_char_whole(t.drop_last(), c);
        assert(t.drop_last().push(t.last()) =~= t);
        assert(seq![t.drop_last()].drop_last().push(t.drop_last().push(t.last())) =~= seq![t]);
    } else {
        assert(t =~= Seq::<char>::empty());
    }
}

/// Past the first `c`, at `e`, the first piece stays `s[..e]`.
proof fn lemma_split_char_after(s: Seq<char>, c: char, e: int, m: int)
    requires
        0 <= e < m <= s.len(),
        forall|j: int| 0 <= j < e ==> s[j] != c,
        s[e] == c,
    ensures
        split_char(s.take(m), c).len() >= 2,
        split_char(s.take(m), c)[0] == s.take(e),
    decreases m,
{
    let t = s.take(m);
    assert(t.drop_last() =~= s.take(m - 1));
    if m == e + 1 {
        lemma_split_char_whole(s.take(e), c);
    } else {
        lemma_split_char_after(s, c, e, m - 1);
    }
}


/// Splitting always gives at least one piece.
pub proof fn lemma_split_char_len(s: Seq<char>, c: char)
    ensures
        split_char(s, c).len() >= 1,
    decreases s.len(),
{
    if s.len() > 0 {
        lemma_split_char_len(s.drop_last(), c);
    }
}

/// Splitting at a `c` gives the pieces before it, then those after it.
pub proof fn lemma_split_char_cat(a: Seq<char>, b: Seq<char>, c: char)
    ensures
        split_char(a + seq![c] + b, c) == split_char(a, c) + split_char(b, c),
    decreases b.len(),
{
    let s = a + seq![c] + b;
    if b.len() == 0 {
        assert(s.drop_last() =~= a);
        assert(split_char(a, c).push(seq![]) =~= split_char(a, c) + seq![seq![]]);
    } else {
        assert(s.drop_last() =~= a + seq![c] + b.drop_last());
        lemma_split_char_cat(a, b.drop_last(), c);
        lemma_split_char_len(b.drop_last(), c);
        let pa = split_char(a, c);
        let pb = split_char(b.drop_last(), c);
        if b.last() == c {
            assert((pa + pb).push(seq![]) =~= pa + pb.push(seq![]));
        } else {
            let prev = pa + pb;
            assert(prev.last() == pb.last());
            assert(prev.drop_last().push(prev.last().push(s.last())) =~= pa + pb.drop_last().push(
                pb.last().push(b.last()),
            ));
        }
    }
}

/// Pieces with no `c`, joined by `c`, split back into themselves.
pub proof fn lemma_split_char_join(parts: Seq<Seq<char>>, c: char)
    requires
        parts.len() >= 1,
        forall|i: int, j: int| 0 <= i < parts.len() && 0 <= j < parts[i].len() ==> #[trigger] parts[i][j] != c,
    ensures
        split_char(crate::text::join(parts, seq![c]), c) == parts,
    decreases parts.len(),
{
    if parts.len() == 1 {
        assert forall|j: int| 0 <= j < parts[0].len() implies parts[0][j] != c by {
            assert(parts[0][j] != c);
        }
        lemma_split_char_whole(parts[0], c);
        assert(seq![parts[0]] =~= parts);
    } else {
        let d = parts.drop_last();
        assert forall|i: int, j: int| 0 <= i < d.len() && 0 <= j < d[i].len() implies #[trigger] d[i][j] != c by {
            assert(d[i] == parts[i]);
        }
        lemma_split_char_join(d, c);
        let l = parts.last();
        assert forall|j: int| 0 <= j < l.len() implies l[j] != c by {
            assert(parts[parts.len() - 1][j] != c);
        }
        lemma_split_char_whole(l, c);
        lemma_split_char_cat(crate::text::join(d, seq![c]), l, c);
        assert(d + seq![l] =~= parts);
    }
}

/// The pieces of a text with no line break hold neither a `c` nor a line break.
pub proof fn lemma_split_char_pieces(s: Seq<char>, c: char)
    requires
        forall|j: int| 0 <= j < s.len() ==> s[j] != '\n',
    ensures
        forall|i: int, j: int|
            0 <= i < split_char(s, c).len() && 0 <= j < split_char(s, c)[i].len() ==> #[trigger] split_char(
                s,
                c,
            )[i][j] != c && split_char(s, c)[i][j] != '\n',
    decreases s.len(),
{
    if s.len() > 0 {
        let d = s.drop_last();
        lemma_split_char_pieces(d, c);
        lemma_split_char_len(d, c);
        let prev = split_char(d, c);
        let r = split_char(s, c);
        if s.last() == c {
            assert forall|i: int, j: int| 0 <= i < r.len() && 0 <= j < r[i].len() implies #[trigger] r[i][j]
                != c && r[i][j] != '\n' by {
                assert(r[i] == prev[i]);
            }
        } else {
            assert forall|i: int, j: int| 0 <= i < r.len() && 0 <= j < r[i].len() implies #[trigger] r[i][j]
                != c && r[i][j] != '\n' by {
                if i < prev.len() - 1 {
                    assert(r[i] == prev[i]);
                } else {
                    assert(r[i] == prev.last().push(s.last()));
                    if j < prev.last().len() {
                        assert(r[i][j] == prev[prev.len() - 1][j]);
                    }
                }
            }
        }
    }
}

} // verus!
