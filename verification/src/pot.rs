//! Regenerating a `.pot` template: which packages' sources to scan, cleaning up what
//! `xgettext` writes, carrying other scans' entries across, and telling whether anything but
//! the creation date changed.
use vstd::prelude::*;

use crate::catalog::{lemma_split_char_join, lemma_split_char_pieces, split_char};
use crate::entries::{
    block_ok, collect_entries, collect_from, collect_init, collect_pot_entries_ordered,
    collect_pot_msgids, collect_run, entry_block, entry_views, flush, keys, pot_entry_block,
    PotEntry, PotEntryView,
};
use crate::extract::has_msgid;
use crate::text::opt_view;
use crate::text::{
    append, chars_of, copy_of, eq, has_prefix, join, join_exec, lines_of, split_lines,
    starts_with, string_of, string_views, text_lt, text_lt_exec, trim, trim_vec, views,
};

verus! {

/// The flags of a `#,` line other than `c-format` and `no-c-format`, each trimmed, in order.
pub open spec fn kept_flags(ps: Seq<Seq<char>>) -> Seq<Seq<char>>
    decreases ps.len(),
{
    if ps.len() == 0 {
        seq![]
    } else if trim(ps.last()) == "c-format"@ || trim(ps.last()) == "no-c-format"@ {
        kept_flags(ps.drop_last())
    } else {
        kept_flags(ps.drop_last()).push(trim(ps.last()))
    }
}

/// What a line becomes, with its line break: a `#,` line keeps only its other flags, and
/// goes when none is left; any other line stays as it is.
pub open spec fn stripped_line(line: Seq<char>) -> Seq<char> {
    if has_prefix(line, "#,"@) {
        let kept = kept_flags(split_char(line.skip(2), ','));
        if kept.len() == 0 {
            seq![]
        } else {
            "#, "@ + join(kept, ", "@) + seq!['\n']
        }
    } else {
        line + seq!['\n']
    }
}

/// The lines, each as [`stripped_line`] makes it, in order.
pub open spec fn stripped_lines(lines: Seq<Seq<char>>) -> Seq<char>
    decreases lines.len(),
{
    if lines.len() == 0 {
        seq![]
    } else {
        stripped_lines(lines.drop_last()) + stripped_line(lines.last())
    }
}

fn kept_flags_exec(rest: &[char]) -> (r: Vec<Vec<char>>)
    ensures
        views(r@) == kept_flags(split_char(rest@, ',')),
{
    let pieces = split_at_char(rest, ',');
    let ghost ps = views(pieces@);
    let c_format = chars_of("c-format");
    let no_c_format = chars_of("no-c-format");
    let mut out: Vec<Vec<char>> = Vec::new();
    let mut i: usize = 0;
    while i < pieces.len()
        invariant
            i <= pieces.len(),
            ps == views(pieces@),
            ps == split_char(rest@, ','),
            c_format@ == "c-format"@,
            no_c_format@ == "no-c-format"@,
            views(out@) == kept_flags(ps.take(i as int)),
        decreases pieces.len() - i,
    {
        let t = trim_vec(&pieces[i]);
        assert(ps.take(i + 1).drop_last() =~= ps.take(i as int));
        assert(ps.take(i + 1).last() == pieces@[i as int]@);
        if !eq(&t, &c_format) && !eq(&t, &no_c_format) {
            let ghost before = out@;
            out.push(t);
            assert(views(out@) =~= views(before).push(t@));
        }
        i = i + 1;
    }
    assert(ps.take(i as int) =~= ps);
    out
}

/// The pieces of `s` between the occurrences of `c` (see [`split_char`]).
fn split_at_char(s: &[char], c: char) -> (r: Vec<Vec<char>>)
    ensures
        views(r@) == split_char(s@, c),
{
    let mut done: Vec<Vec<char>> = Vec::new();
    let mut cur: Vec<char> = Vec::new();
    let mut i: usize = 0;
    assert(s@.take(0) =~= Seq::<char>::empty());
    assert(views(done@).push(cur@) =~= seq![Seq::<char>::empty()]);
    while i < s.len()
        invariant
            i <= s.len(),
            split_char(s@.take(i as int), c) == views(done@).push(cur@),
        decreases s.len() - i,
    {
        assert(s@.take(i + 1).drop_last() =~= s@.take(i as int));
        assert(s@.take(i + 1).last() == s@[i as int]);
        let ghost prev = views(done@).push(cur@);
        if s[i] == c {
            let ghost before = done@;
            done.push(cur);
            cur = Vec::new();
            assert(views(done@).push(cur@) =~= prev.push(seq![]));
        } else {
            cur.push(s[i]);
            assert(views(done@).push(cur@) =~= prev.drop_last().push(prev.last().push(s@[i as int])));
        }
        i = i + 1;
    }
    assert(s@.take(i as int) =~= s@);
    done.push(cur);
    done
}

/// Drops the `c-format`/`no-c-format` flags that `xgettext` attaches to `#,` lines by
/// guessing at `%` directives (a guess that differs between versions and machines), keeping
/// any other flag (such as `fuzzy`); a `#,` line left with no flag goes entirely. Every line
/// of the result ends with a line break.
pub fn strip_format_flags(content: &str) -> (r: String)
    ensures
        r@ == stripped_lines(lines_of(content@)),
{
    let cs = chars_of(content);
    let lines = split_lines(&cs);
    let ghost ls = views(lines@);
    let marker: Vec<char> = vec!['#', ','];
    assert(marker@ =~= "#,"@) by {
        reveal_strlit("#,");
    }
    let sep = chars_of(", ");
    let mut out: Vec<char> = Vec::new();
    let mut i: usize = 0;
    while i < lines.len()
        invariant
            i <= lines.len(),
            ls == views(lines@),
            ls == lines_of(content@),
            marker@ == "#,"@,
            marker@.len() == 2,
            sep@ == ", "@,
            out@ == stripped_lines(ls.take(i as int)),
        decreases lines.len() - i,
    {
        let line = &lines[i];
        assert(ls.take(i + 1).drop_last() =~= ls.take(i as int));
        assert(ls.take(i + 1).last() == line@);
        let ghost before = out@;
        if starts_with(line, &marker) {
            assert(line@.len() >= 2);
            let rest = crate::text::skip(line, 2);
            let kept = kept_flags_exec(&rest);
            if kept.len() > 0 {
                append(&mut out, &chars_of("#, "));
                append(&mut out, &join_exec(&kept, &sep));
                out.push('\n');
            }
        } else {
            append(&mut out, line);
            out.push('\n');
        }
        assert(out@ =~= before + stripped_line(line@));
        i = i + 1;
    }
    assert(ls.take(i as int) =~= ls);
    string_of(&out)
}

/// The lines other than the `"POT-Creation-Date:` header line, in order.
pub open spec fn dateless_lines(lines: Seq<Seq<char>>) -> Seq<Seq<char>>
    decreases lines.len(),
{
    if lines.len() == 0 {
        seq![]
    } else if has_prefix(lines.last(), "\"POT-Creation-Date:"@) {
        dateless_lines(lines.drop_last())
    } else {
        dateless_lines(lines.drop_last()).push(lines.last())
    }
}

/// A pot's text without its creation date, lines joined by line breaks.
pub open spec fn without_date(s: Seq<char>) -> Seq<char> {
    join(dateless_lines(lines_of(s)), seq!['\n'])
}

fn without_date_exec(s: &str) -> (r: Vec<char>)
    ensures
        r@ == without_date(s@),
{
    let cs = chars_of(s);
    let lines = split_lines(&cs);
    let ghost ls = views(lines@);
    let tag = chars_of("\"POT-Creation-Date:");
    let mut kept: Vec<Vec<char>> = Vec::new();
    let mut i: usize = 0;
    while i < lines.len()
        invariant
            i <= lines.len(),
            ls == views(lines@),
            tag@ == "\"POT-Creation-Date:"@,
            views(kept@) == dateless_lines(ls.take(i as int)),
        decreases lines.len() - i,
    {
        assert(ls.take(i + 1).drop_last() =~= ls.take(i as int));
        assert(ls.take(i + 1).last() == lines@[i as int]@);
        if !starts_with(&lines[i], &tag) {
            let ghost before = kept@;
            kept.push(copy_of(&lines[i]));
            assert(views(kept@) =~= views(before).push(lines@[i as int]@));
        }
        i = i + 1;
    }
    assert(ls.take(i as int) =~= ls);
    let nl: Vec<char> = vec!['\n'];
    assert(nl@ =~= seq!['\n']);
    join_exec(&kept, &nl)
}

/// Whether a pot's content changed, ignoring the `POT-Creation-Date` header line.
pub fn pot_changed(old: &str, new: &str) -> (r: bool)
    ensures
        r == (without_date(old@) != without_date(new@)),
{
    !eq(&without_date_exec(old), &without_date_exec(new))
}

/// The entries of `old` whose msgid `new` does not have, the first of each msgid only.
pub open spec fn foreign_entries(old: Seq<PotEntryView>, new_ids: Seq<Seq<char>>) -> Seq<
    PotEntryView,
>
    decreases old.len(),
{
    if old.len() == 0 {
        seq![]
    } else if new_ids.contains(old.last().msgid) || has_msgid(
        foreign_entries(old.drop_last(), new_ids),
        old.last().msgid,
    ) {
        foreign_entries(old.drop_last(), new_ids)
    } else {
        foreign_entries(old.drop_last(), new_ids).push(old.last())
    }
}

/// The blocks of the entries, in order.
pub open spec fn entry_blocks(es: Seq<PotEntryView>) -> Seq<char>
    decreases es.len(),
{
    if es.len() == 0 {
        seq![]
    } else {
        entry_blocks(es.drop_last()) + entry_block(es.last())
    }
}

/// `new` with the entries of `old` that it lacks appended, when there are any.
pub open spec fn preserved(old: Seq<char>, new: Seq<char>) -> Option<Seq<char>> {
    let additions = entry_blocks(
        foreign_entries(
            collect_entries(old),
            collect_entries(new).map_values(|e: PotEntryView| e.msgid),
        ),
    );
    if additions.len() > 0 {
        Some(new + additions)
    } else {
        None
    }
}

/// Carries the entries of the pot on disk (`old`) that a fresh regeneration (`new`) lacks,
/// such as those another language's scan added, across to the end of `new`, so that a
/// regeneration does not drop them. Returns the new content, or `None` when there is nothing
/// to add.
pub fn preserve_foreign_entries(old: &str, new: &str) -> (r: Option<String>)
    ensures
        (match r {
            Some(s) => Some(s@),
            None => None::<Seq<char>>,
        }) == preserved(old@, new@),
{
    let new_ids = collect_pot_msgids(new);
    let ghost ids = collect_entries(new@).map_values(|e: PotEntryView| e.msgid);
    let olds = collect_pot_entries_ordered(old);
    let ghost os = entry_views(olds@);
    let mut kept: Vec<PotEntry> = Vec::new();
    let mut additions: Vec<char> = Vec::new();
    let mut i: usize = 0;
    while i < olds.len()
        invariant
            i <= olds.len(),
            os == entry_views(olds@),
            forall|x: Seq<char>| string_views(new_ids@).contains(x) <==> ids.contains(x),
            entry_views(kept@) == foreign_entries(os.take(i as int), ids),
            additions@ == entry_blocks(entry_views(kept@)),
        decreases olds.len() - i,
    {
        let e = &olds[i];
        assert(os.take(i + 1).drop_last() =~= os.take(i as int));
        assert(os.take(i + 1).last() == e@);
        let id = chars_of(e.msgid.as_str());
        if !contains_text(&new_ids, &id) && !has_entry(&kept, &id) {
            let block = pot_entry_block(e);
            append(&mut additions, &chars_of(block.as_str()));
            let ghost before = kept@;
            kept.push(PotEntry {
                msgid: e.msgid.clone(),
                msgid_plural: opt_clone(&e.msgid_plural),
                reference: opt_clone(&e.reference),
                comment: opt_clone(&e.comment),
            });
            assert(entry_views(kept@) =~= entry_views(before).push(e@));
            assert(entry_views(kept@).drop_last() =~= entry_views(before));
        }
        i = i + 1;
    }
    assert(os.take(i as int) =~= os);
    if additions.len() > 0 {
        let mut out = chars_of(new);
        append(&mut out, &additions);
        Some(string_of(&out))
    } else {
        None
    }
}

fn opt_clone(o: &Option<String>) -> (r: Option<String>)
    ensures
        crate::text::opt_view(r) == crate::text::opt_view(*o),
{
    match o {
        Some(s) => Some(s.clone()),
        None => None,
    }
}

fn contains_text(v: &[String], s: &[char]) -> (r: bool)
    ensures
        r == string_views(v@).contains(s@),
{
    let mut k: usize = 0;
    while k < v.len()
        invariant
            k <= v.len(),
            forall|j: int| 0 <= j < k ==> string_views(v@)[j] != s@,
        decreases v.len() - k,
    {
        if eq(&chars_of(v[k].as_str()), s) {
            assert(string_views(v@)[k as int] == s@);
            return true;
        }
        k = k + 1;
    }
    false
}

fn has_entry(es: &[PotEntry], msgid: &[char]) -> (r: bool)
    ensures
        r == has_msgid(entry_views(es@), msgid@),
{
    let mut k: usize = 0;
    while k < es.len()
        invariant
            k <= es.len(),
            forall|j: int| 0 <= j < k ==> entry_views(es@)[j].msgid != msgid@,
        decreases es.len() - k,
    {
        if eq(&chars_of(es[k].msgid.as_str()), msgid) {
            assert(entry_views(es@)[k as int].msgid == msgid@);
            return true;
        }
        k = k + 1;
    }
    false
}

/// What a regeneration reads of one package that `cargo metadata` lists: its name and
/// version, the path of its manifest, and whether `[package.metadata.patois] translatable`
/// is `true`.
pub struct PackageMeta {
    pub name: Option<String>,
    pub version: Option<String>,
    pub manifest_path: Option<String>,
    pub translatable: bool,
}

pub struct PackageView {
    pub name: Option<Seq<char>>,
    pub version: Option<Seq<char>>,
    pub manifest_path: Option<Seq<char>>,
    pub translatable: bool,
}

impl View for PackageMeta {
    type V = PackageView;

    open spec fn view(&self) -> PackageView {
        PackageView {
            name: opt_view(self.name),
            version: opt_view(self.version),
            manifest_path: opt_view(self.manifest_path),
            translatable: self.translatable,
        }
    }
}

pub open spec fn package_views(v: Seq<PackageMeta>) -> Seq<PackageView> {
    v.map_values(|p: PackageMeta| p@)
}

/// What packages are sorted by: the name, the empty text for a package without one.
pub open spec fn sort_key(p: PackageView) -> Seq<char> {
    match p.name {
        Some(n) => n,
        None => seq![],
    }
}

/// Where `x` goes among `sorted`: before the first package whose key sorts after its own.
pub open spec fn package_pos(sorted: Seq<PackageView>, x: PackageView, p: int) -> int
    decreases sorted.len() - p,
{
    if p < 0 || p >= sorted.len() {
        sorted.len() as int
    } else if text_lt(sort_key(x), sort_key(sorted[p])) {
        p
    } else {
        package_pos(sorted, x, p + 1)
    }
}

/// The packages sorted by name, stably, so the order does not depend on where `cargo
/// metadata` happens to find them.
pub open spec fn sorted_packages(xs: Seq<PackageView>) -> Seq<PackageView>
    decreases xs.len(),
{
    if xs.len() == 0 {
        seq![]
    } else {
        let s = sorted_packages(xs.drop_last());
        s.insert(package_pos(s, xs.last(), 0), xs.last())
    }
}

/// The manifest paths of the translatable packages, in order; `None` when one of them has
/// none.
pub open spec fn manifests(ps: Seq<PackageView>) -> Option<Seq<Seq<char>>>
    decreases ps.len(),
{
    if ps.len() == 0 {
        Some(seq![])
    } else {
        match manifests(ps.drop_last()) {
            None => None,
            Some(ms) => if !ps.last().translatable {
                Some(ms)
            } else {
                match ps.last().manifest_path {
                    Some(m) => Some(ms.push(m)),
                    None => None,
                }
            },
        }
    }
}

/// The version of the first package named `name`, `0.0.0` when it has none or there is no
/// such package.
pub open spec fn version_of(ps: Seq<PackageView>, name: Seq<char>, i: int) -> Seq<char>
    decreases ps.len() - i,
{
    if i < 0 || i >= ps.len() {
        "0.0.0"@
    } else if ps[i].name == Some(name) {
        match ps[i].version {
            Some(v) => v,
            None => "0.0.0"@,
        }
    } else {
        version_of(ps, name, i + 1)
    }
}

proof fn lemma_package_pos(sorted: Seq<PackageView>, x: PackageView, p: int)
    requires
        0 <= p <= sorted.len(),
    ensures
        p <= package_pos(sorted, x, p) <= sorted.len(),
    decreases sorted.len() - p,
{
    if p < sorted.len() && !text_lt(sort_key(x), sort_key(sorted[p])) {
        lemma_package_pos(sorted, x, p + 1);
    }
}

fn key_of(p: &PackageMeta) -> (r: Vec<char>)
    ensures
        r@ == sort_key(p@),
{
    match &p.name {
        Some(n) => chars_of(n.as_str()),
        None => Vec::new(),
    }
}

/// The order the packages sort in by name, as indices into `packages`.
fn package_order(packages: &[PackageMeta]) -> (r: Vec<usize>)
    ensures
        forall|j: int| 0 <= j < r.len() ==> (#[trigger] r@[j]) < packages.len(),
        r@.map_values(|i: usize| packages@[i as int]@) == sorted_packages(package_views(packages@)),
{
    let ghost pv = package_views(packages@);
    let mut order: Vec<usize> = Vec::new();
    let mut k: usize = 0;
    while k < packages.len()
        invariant
            k <= packages.len(),
            pv == package_views(packages@),
            forall|j: int| 0 <= j < order.len() ==> (#[trigger] order@[j]) < packages.len(),
            order@.map_values(|i: usize| packages@[i as int]@) == sorted_packages(pv.take(k as int)),
        decreases packages.len() - k,
    {
        let ghost s = order@.map_values(|i: usize| packages@[i as int]@);
        assert(pv.take(k + 1).drop_last() =~= pv.take(k as int));
        assert(pv.take(k + 1).last() == packages@[k as int]@);
        let xk = key_of(&packages[k]);
        let mut p: usize = 0;
        while p < order.len() && !text_lt_exec(&xk, &key_of(&packages[order[p]]))
            invariant
                p <= order.len(),
                k < packages.len(),
                forall|j: int| 0 <= j < order.len() ==> (#[trigger] order@[j]) < packages.len(),
                s == order@.map_values(|i: usize| packages@[i as int]@),
                xk@ == sort_key(packages@[k as int]@),
                package_pos(s, packages@[k as int]@, 0) == package_pos(s, packages@[k as int]@, p as int),
            decreases order.len() - p,
        {
            p = p + 1;
        }
        proof {
            lemma_package_pos(s, packages@[k as int]@, 0);
        }
        order.insert(p, k);
        assert(order@.map_values(|i: usize| packages@[i as int]@) =~= s.insert(
            p as int,
            packages@[k as int]@,
        ));
        k = k + 1;
    }
    assert(pv.take(k as int) =~= pv);
    order
}

/// The manifest paths of the packages marked translatable, in name order (so the file list,
/// and with it the generated pot, does not depend on where the packages live on disk);
/// `None` when a translatable package has no manifest path.
pub fn translatable_manifests(packages: &[PackageMeta]) -> (r: Option<Vec<String>>)
    ensures
        (match r {
            Some(v) => Some(string_views(v@)),
            None => None::<Seq<Seq<char>>>,
        }) == manifests(sorted_packages(package_views(packages@))),
{
    let order = package_order(packages);
    let ghost sp = order@.map_values(|i: usize| packages@[i as int]@);
    let mut out: Vec<String> = Vec::new();
    let mut j: usize = 0;
    while j < order.len()
        invariant
            j <= order.len(),
            forall|q: int| 0 <= q < order.len() ==> (#[trigger] order@[q]) < packages.len(),
            sp == order@.map_values(|i: usize| packages@[i as int]@),
            sp == sorted_packages(package_views(packages@)),
            manifests(sp.take(j as int)) == Some(string_views(out@)),
        decreases order.len() - j,
    {
        let pkg = &packages[order[j]];
        assert(sp.take(j + 1).drop_last() =~= sp.take(j as int));
        assert(sp.take(j + 1).last() == pkg@);
        if pkg.translatable {
            match &pkg.manifest_path {
                Some(m) => {
                    let ghost before = out@;
                    out.push(m.clone());
                    assert(string_views(out@) =~= string_views(before).push(m@));
                },
                None => {
                    proof {
                        lemma_manifests_stay_none(sp, j as int + 1);
                    }
                    assert(sp.take(sp.len() as int) =~= sp);
                    return None;
                },
            }
        }
        j = j + 1;
    }
    assert(sp.take(j as int) =~= sp);
    Some(out)
}

proof fn lemma_manifests_stay_none(ps: Seq<PackageView>, i: int)
    requires
        0 <= i <= ps.len(),
        manifests(ps.take(i)) is None,
    ensures
        manifests(ps) is None,
    decreases ps.len() - i,
{
    if i < ps.len() {
        assert(ps.take(i + 1).drop_last() =~= ps.take(i));
        lemma_manifests_stay_none(ps, i + 1);
    } else {
        assert(ps.take(i) =~= ps);
    }
}

/// The version of the package named `package_name` for the pot header, `0.0.0` when it has
/// none or `cargo metadata` does not list it; with several of that name, the first in name
/// order.
pub fn package_version(packages: &[PackageMeta], package_name: &str) -> (r: String)
    ensures
        r@ == version_of(sorted_packages(package_views(packages@)), package_name@, 0),
{
    let order = package_order(packages);
    let ghost sp = order@.map_values(|i: usize| packages@[i as int]@);
    let nv = chars_of(package_name);
    let mut j: usize = 0;
    while j < order.len()
        invariant
            j <= order.len(),
            forall|q: int| 0 <= q < order.len() ==> (#[trigger] order@[q]) < packages.len(),
            sp == order@.map_values(|i: usize| packages@[i as int]@),
            sp == sorted_packages(package_views(packages@)),
            nv@ == package_name@,
            version_of(sp, package_name@, 0) == version_of(sp, package_name@, j as int),
        decreases order.len() - j,
    {
        let pkg = &packages[order[j]];
        assert(sp[j as int] == pkg@);
        match &pkg.name {
            Some(n) => {
                if eq(&chars_of(n.as_str()), &nv) {
                    return match &pkg.version {
                        Some(v) => v.clone(),
                        None => string_of(&chars_of("0.0.0")),
                    };
                }
            },
            None => {},
        }
        j = j + 1;
    }
    string_of(&chars_of("0.0.0"))
}


/// Reading a file with entry blocks appended gives the file's entries, then one entry per
/// block with its msgid and msgid_plural.
proof fn lemma_read_appended(content: Seq<char>, fs: Seq<PotEntryView>)
    requires
        forall|k: int| 0 <= k < fs.len() ==> block_ok(#[trigger] fs[k]),
    ensures
        ({
            let r = collect_from(collect_init(), lines_of(content + entry_blocks(fs)));
            &&& keys(flush(r).entries) == keys(collect_entries(content)) + keys(fs)
            &&& fs.len() > 0 ==> r.id.len() == 0 && r.plural is None
        }),
    decreases fs.len(),
{
    let r = collect_from(collect_init(), lines_of(content + entry_blocks(fs)));
    if fs.len() == 0 {
        assert(content + entry_blocks(fs) =~= content);
        crate::entries::lemma_collect_run_from(lines_of(content));
        assert(keys(collect_entries(content)) + keys(fs) =~= keys(collect_entries(content)));
    } else {
        let dl = fs.drop_last();
        let e = fs.last();
        assert forall|k: int| 0 <= k < dl.len() implies block_ok(#[trigger] dl[k]) by {
            assert(dl[k] == fs[k]);
        }
        lemma_read_appended(content, dl);
        let c2 = content + entry_blocks(dl);
        let r2 = collect_from(collect_init(), lines_of(c2));
        crate::entries::lemma_block_text(e);
        let body = entry_block(e).skip(1);
        assert(entry_block(e) =~= seq!['\n'] + body);
        assert(content + entry_blocks(fs) =~= c2 + seq!['\n'] + body);
        crate::text::lemma_lines_split_break(c2, body);
        crate::entries::lemma_collect_from_split(
            collect_init(),
            lines_of(c2 + seq!['\n']),
            lines_of(body),
        );
        crate::entries::lemma_collect_break(collect_init(), c2);
        assert(r == collect_from(r2, lines_of(body)));
        crate::text::lemma_lines_cons_any(Seq::<char>::empty(), body);
        assert(entry_block(e) =~= Seq::<char>::empty() + seq!['\n'] + body);
        assert(crate::text::strip_cr(Seq::<char>::empty()) =~= Seq::<char>::empty());
        crate::entries::lemma_collect_cons(r2, Seq::<char>::empty(), lines_of(body));
        crate::entries::lemma_collect_blank(r2);
        assert(collect_from(r2, lines_of(entry_block(e))) == r);
        assert(block_ok(fs[fs.len() - 1]));
        crate::entries::lemma_read_block_any(r2, e);
        assert(flush(r).entries == r.entries);
        assert(keys(fs) =~= keys(dl).push((e.msgid, e.msgid_plural)));
        assert(keys(flush(r).entries) =~= keys(collect_entries(content)) + keys(fs));
    }
}

/// What `foreign_entries` keeps: entries of `old`, and for every entry of `old` whose msgid
/// `new_ids` lacks, one with that msgid.
proof fn lemma_foreign_facts(old: Seq<PotEntryView>, new_ids: Seq<Seq<char>>)
    ensures
        forall|q: int|
            0 <= q < foreign_entries(old, new_ids).len() ==> exists|k: int|
                0 <= k < old.len() && #[trigger] foreign_entries(old, new_ids)[q] == old[k],
        forall|k: int|
            0 <= k < old.len() && !new_ids.contains(#[trigger] old[k].msgid) ==> has_msgid(
                foreign_entries(old, new_ids),
                old[k].msgid,
            ),
    decreases old.len(),
{
    if old.len() > 0 {
        let dl = old.drop_last();
        lemma_foreign_facts(dl, new_ids);
        let prev = foreign_entries(dl, new_ids);
        let out = foreign_entries(old, new_ids);
        assert forall|q: int| 0 <= q < out.len() implies exists|k: int|
            0 <= k < old.len() && #[trigger] out[q] == old[k] by {
            if q < prev.len() {
                assert(out[q] == prev[q]);
                let k = choose|k: int| 0 <= k < dl.len() && #[trigger] prev[q] == dl[k];
                assert(dl[k] == old[k]);
            } else {
                assert(out[q] == old[old.len() - 1]);
            }
        }
        assert forall|k: int|
            0 <= k < old.len() && !new_ids.contains(#[trigger] old[k].msgid) implies has_msgid(
            out,
            old[k].msgid,
        ) by {
            if k < dl.len() {
                assert(dl[k] == old[k]);
                assert(has_msgid(prev, dl[k].msgid));
                let j = choose|j: int| 0 <= j < prev.len() && (#[trigger] prev[j]).msgid == dl[k].msgid;
                assert(out[j] == prev[j]);
            } else if has_msgid(prev, old[k].msgid) {
                let j = choose|j: int| 0 <= j < prev.len() && (#[trigger] prev[j]).msgid == old[k].msgid;
                assert(out[j] == prev[j]);
            } else {
                assert(out[out.len() - 1] == old[k]);
            }
        }
    }
}

/// Carrying the old pot's entries across loses none: read back, the merged pot has the
/// regenerated pot's entries, then one for each entry of the old pot whose msgid the
/// regenerated one lacks (the first such entry of each msgid), with their msgids and
/// msgid_plurals; so every msgid of the old pot is in the merged one.
pub proof fn law_merge_keeps_old_entries(old: Seq<char>, new: Seq<char>)
    ensures
        ({
            let merged = match preserved(old, new) {
                Some(m) => m,
                None => new,
            };
            let olds = collect_entries(old);
            let ids = collect_entries(new).map_values(|e: PotEntryView| e.msgid);
            &&& keys(collect_entries(merged)) == keys(collect_entries(new)) + keys(
                foreign_entries(olds, ids),
            )
            &&& forall|k: int| 0 <= k < olds.len() ==> has_msgid(collect_entries(merged), #[trigger] olds[k].msgid)
        }),
{
    let olds = collect_entries(old);
    let news = collect_entries(new);
    let ids = news.map_values(|e: PotEntryView| e.msgid);
    let fs = foreign_entries(olds, ids);
    let merged = match preserved(old, new) {
        Some(m) => m,
        None => new,
    };
    lemma_foreign_facts(olds, ids);
    crate::entries::lemma_collected_ok(old);
    assert forall|q: int| 0 <= q < fs.len() implies block_ok(#[trigger] fs[q]) by {
        let k = choose|k: int| 0 <= k < olds.len() && #[trigger] fs[q] == olds[k];
    }
    let additions = entry_blocks(fs);
    if additions.len() > 0 {
        assert(merged == new + additions);
        lemma_read_appended(new, fs);
        crate::entries::lemma_collect_run_from(lines_of(merged));
    } else {
        assert(merged == new);
        if fs.len() > 0 {
            assert(additions == entry_blocks(fs.drop_last()) + entry_block(fs.last()));
            crate::entries::lemma_block_text(fs.last());
            assert(entry_block(fs.last()).len() > 0);
        }
        assert(fs =~= Seq::<PotEntryView>::empty());
        assert(keys(news) + keys(fs) =~= keys(news));
    }
    let mk = keys(collect_entries(merged));
    let nk = keys(news);
    assert(mk.len() == collect_entries(merged).len());
    assert(mk.len() == nk.len() + keys(fs).len());
    assert(nk.len() == news.len() && ids.len() == news.len() && keys(fs).len() == fs.len());
    assert forall|k: int| 0 <= k < olds.len() implies has_msgid(collect_entries(merged), #[trigger] olds[k].msgid) by {
        let m = olds[k].msgid;
        if ids.contains(m) {
            let j = choose|j: int| 0 <= j < ids.len() && ids[j] == m;
            assert(mk[j] == nk[j]);
            assert(nk[j].0 == news[j].msgid);
            assert(collect_entries(merged)[j].msgid == mk[j].0);
        } else {
            assert(has_msgid(fs, m));
            let q = choose|q: int| 0 <= q < fs.len() && (#[trigger] fs[q]).msgid == m;
            let j = news.len() + q;
            assert(mk[j] == keys(fs)[q]);
            assert(collect_entries(merged)[j].msgid == mk[j].0);
        }
    }
}


/// What a regeneration reads of each package in the JSON output of `cargo metadata`
/// (`serde_json::from_slice` into a `serde_json::Value`): for each element of its `packages`
/// array, in order, `name`, `version` and `manifest_path` where they are strings and
/// `metadata.patois.translatable` where it is a boolean; `None` when the output is not JSON or
/// has no `packages` array.
pub uninterp spec fn metadata_fields(json: Seq<u8>) -> Option<
    Seq<(Option<Seq<char>>, Option<Seq<char>>, Option<Seq<char>>, Option<bool>)>,
>;

pub open spec fn field_views(
    v: Seq<(Option<String>, Option<String>, Option<String>, Option<bool>)>,
) -> Seq<(Option<Seq<char>>, Option<Seq<char>>, Option<Seq<char>>, Option<bool>)> {
    v.map_values(
        |f: (Option<String>, Option<String>, Option<String>, Option<bool>)|
            (opt_view(f.0), opt_view(f.1), opt_view(f.2), f.3),
    )
}

/// Parses the output of `cargo metadata` with `serde_json::from_slice` and reads each
/// package's fields as [`metadata_fields`] names them.
#[verifier::external_body]
fn metadata_package_fields(json: &[u8]) -> (r: Option<
    Vec<(Option<String>, Option<String>, Option<String>, Option<bool>)>,
>)
    ensures
        (match r {
            Some(v) => Some(field_views(v@)),
            None => None,
        }) == metadata_fields(json@),
{
    let meta: serde_json::Value = serde_json::from_slice(json).ok()?;
    let packages = meta["packages"].as_array()?;
    Some(packages.iter().map(|p| (
        p["name"].as_str().map(str::to_string),
        p["version"].as_str().map(str::to_string),
        p["manifest_path"].as_str().map(str::to_string),
        p["metadata"]["patois"]["translatable"].as_bool(),
    )).collect())
}

/// A package as a regeneration reads it from its fields: translatable when the flag is
/// `true`.
pub open spec fn package_of(f: (Option<Seq<char>>, Option<Seq<char>>, Option<Seq<char>>, Option<bool>)) -> PackageView {
    PackageView { name: f.0, version: f.1, manifest_path: f.2, translatable: f.3 == Some(true) }
}

/// The packages listed in the output of `cargo metadata`, `None` when it cannot be read.
pub open spec fn metadata_packages(json: Seq<u8>) -> Option<Seq<PackageView>> {
    match metadata_fields(json) {
        Some(fs) => Some(
            fs.map_values(
                |f: (Option<Seq<char>>, Option<Seq<char>>, Option<Seq<char>>, Option<bool>)|
                    package_of(f),
            ),
        ),
        None => None,
    }
}

/// The packages listed in the JSON output of `cargo metadata`, in its order; `None` when the
/// output is not JSON or lists no packages.
pub fn cargo_packages(metadata_json: &[u8]) -> (r: Option<Vec<PackageMeta>>)
    ensures
        (match r {
            Some(v) => Some(package_views(v@)),
            None => None,
        }) == metadata_packages(metadata_json@),
{
    let fields = match metadata_package_fields(metadata_json) {
        Some(f) => f,
        None => {
            return None;
        },
    };
    let ghost fv = field_views(fields@);
    let mut out: Vec<PackageMeta> = Vec::new();
    let mut i: usize = 0;
    while i < fields.len()
        invariant
            i <= fields.len(),
            fv == field_views(fields@),
            package_views(out@) == fv.take(i as int).map_values(
                |f: (Option<Seq<char>>, Option<Seq<char>>, Option<Seq<char>>, Option<bool>)|
                    package_of(f),
            ),
        decreases fields.len() - i,
    {
        let (name, version, manifest_path, flag) = &fields[i];
        let translatable = match flag {
            Some(b) => *b,
            None => false,
        };
        let p = PackageMeta {
            name: opt_clone(name),
            version: opt_clone(version),
            manifest_path: opt_clone(manifest_path),
            translatable,
        };
        let ghost before = out@;
        out.push(p);
        assert(package_views(out@) =~= package_views(before).push(package_of(fv[i as int])));
        i = i + 1;
        assert(fv.take(i as int) =~= fv.take(i - 1).push(fv[i - 1]));
        assert(package_views(out@) =~= fv.take(i as int).map_values(
            |f: (Option<Seq<char>>, Option<Seq<char>>, Option<Seq<char>>, Option<bool>)|
                package_of(f),
        ));
    }
    assert(fv.take(i as int) =~= fv);
    Some(out)
}

/// Why a regeneration cannot be planned from the output of `cargo metadata`.
pub enum PlanError {
    /// The output is not JSON, or has no `packages` array.
    Unreadable,
    /// A translatable package has no manifest path.
    MissingManifestPath,
}

/// What a regeneration of the pot for `package_name` scans and writes, from the JSON output
/// of `cargo metadata`: the manifest paths of the translatable packages in name order, and
/// the version for the pot header.
pub fn regeneration_plan(metadata_json: &[u8], package_name: &str) -> (r: Result<(Vec<String>, String), PlanError>)
    ensures
        (match metadata_packages(metadata_json@) {
            None => r matches Err(PlanError::Unreadable),
            Some(ps) => match manifests(sorted_packages(ps)) {
                None => r matches Err(PlanError::MissingManifestPath),
                Some(ms) => r matches Ok((m, v)) && string_views(m@) == ms && v@ == version_of(
                    sorted_packages(ps),
                    package_name@,
                    0,
                ),
            },
        }),
{
    let packages = match cargo_packages(metadata_json) {
        Some(p) => p,
        None => {
            return Err(PlanError::Unreadable);
        },
    };
    let manifests = match translatable_manifests(&packages) {
        Some(m) => m,
        None => {
            return Err(PlanError::MissingManifestPath);
        },
    };
    let version = package_version(&packages, package_name);
    Ok((manifests, version))
}


/// Whether a line, were it a `#,` line, carries neither `c-format` nor `no-c-format` among
/// its flags (the pieces after `#,` between commas, trimmed).
pub open spec fn no_format_flag(line: Seq<char>) -> bool {
    has_prefix(line, "#,"@) ==> forall|q: int|
        0 <= q < split_char(line.skip(2), ',').len() ==> trim(
            #[trigger] split_char(line.skip(2), ',')[q],
        ) != "c-format"@ && trim(split_char(line.skip(2), ',')[q]) != "no-c-format"@
}

/// The flags kept are trimmed, none is `c-format` or `no-c-format`, and they hold no comma
/// or line break where the pieces they come from hold none.
proof fn lemma_kept_flags(ps: Seq<Seq<char>>)
    ensures
        forall|i: int|
            0 <= i < kept_flags(ps).len() ==> trim(#[trigger] kept_flags(ps)[i]) == kept_flags(ps)[i]
                && kept_flags(ps)[i] != "c-format"@ && kept_flags(ps)[i] != "no-c-format"@,
        (forall|i: int, j: int| 0 <= i < ps.len() && 0 <= j < ps[i].len() ==> #[trigger] ps[i][j] != ','
            && ps[i][j] != '\n') ==> forall|i: int, j: int|
            0 <= i < kept_flags(ps).len() && 0 <= j < kept_flags(ps)[i].len() ==> #[trigger] kept_flags(
                ps,
            )[i][j] != ',' && kept_flags(ps)[i][j] != '\n',
    decreases ps.len(),
{
    if ps.len() > 0 {
        let d = ps.drop_last();
        lemma_kept_flags(d);
        let x = ps.last();
        let t = trim(x);
        let off = crate::text::lemma_trim_trimmed(x);
        let kd = kept_flags(d);
        let k = kept_flags(ps);
        if !(t == "c-format"@ || t == "no-c-format"@) {
            assert(k == kd.push(t));
        } else {
            assert(k == kd);
        }
        assert(forall|i: int| 0 <= i < kd.len() ==> k[i] == kd[i]);
        if forall|i: int, j: int| 0 <= i < ps.len() && 0 <= j < ps[i].len() ==> #[trigger] ps[i][j] != ','
            && ps[i][j] != '\n' {
            assert forall|i: int, j: int| 0 <= i < d.len() && 0 <= j < d[i].len() implies #[trigger] d[i][j]
                != ',' && d[i][j] != '\n' by {
                assert(d[i] == ps[i]);
            }
            assert forall|i: int, j: int| 0 <= i < k.len() && 0 <= j < k[i].len() implies #[trigger] k[i][j]
                != ',' && k[i][j] != '\n' by {
                if i < kd.len() {
                    assert(k[i] == kd[i]);
                } else {
                    assert(k[i] == t);
                    assert(t[j] == x[off + j]);
                    assert(x[off + j] == ps[ps.len() - 1][off + j]);
                }
            }
        }
    }
}

/// The flags, each after a space.
pub open spec fn spaced(fs: Seq<Seq<char>>) -> Seq<Seq<char>> {
    fs.map_values(|f: Seq<char>| seq![' '] + f)
}

/// Flags joined by `, ` after a space are the spaced flags joined by commas.
proof fn lemma_join_spaced(fs: Seq<Seq<char>>)
    requires
        fs.len() >= 1,
    ensures
        seq![' '] + join(fs, ", "@) == join(spaced(fs), seq![',']),
    decreases fs.len(),
{
    reveal_strlit(", ");
    if fs.len() == 1 {
        assert(seq![' '] + fs[0] =~= spaced(fs)[0]);
    } else {
        let d = fs.drop_last();
        lemma_join_spaced(d);
        assert(spaced(fs).drop_last() =~= spaced(d));
        assert(spaced(fs).last() == seq![' '] + fs.last());
        assert(seq![' '] + join(fs, ", "@) =~= (seq![' '] + join(d, ", "@)) + seq![','] + (seq![' ']
            + fs.last()));
    }
}

/// Pieces with no line break, joined by a comma, hold no line break, and the join ends as
/// the last piece does when that is not empty.
proof fn lemma_join_commas(parts: Seq<Seq<char>>)
    requires
        parts.len() >= 1,
        forall|i: int, j: int| 0 <= i < parts.len() && 0 <= j < parts[i].len() ==> #[trigger] parts[i][j] != '\n',
    ensures
        forall|j: int| 0 <= j < join(parts, seq![',']).len() ==> join(parts, seq![','])[j] != '\n',
        parts.last().len() > 0 ==> join(parts, seq![',']).len() > 0 && join(parts, seq![',']).last()
            == parts.last().last(),
    decreases parts.len(),
{
    let l = parts.last();
    assert(forall|j: int| 0 <= j < l.len() ==> l[j] == parts[parts.len() - 1][j]);
    if parts.len() > 1 {
        let d = parts.drop_last();
        assert forall|i: int, j: int| 0 <= i < d.len() && 0 <= j < d[i].len() implies #[trigger] d[i][j] != '\n' by {
            assert(d[i] == parts[i]);
        }
        lemma_join_commas(d);
        let a = join(d, seq![',']);
        assert(join(parts, seq![',']) == a + seq![','] + l);
        assert forall|j: int| 0 <= j < join(parts, seq![',']).len() implies join(parts, seq![','])[j] != '\n' by {
            if j < a.len() {
                assert(join(parts, seq![','])[j] == a[j]);
            } else if j > a.len() {
                assert(join(parts, seq![','])[j] == l[j - a.len() - 1]);
            }
        }
    }
}

/// What a line with no line break becomes is empty, or one line with no `c-format` flag
/// and its line break.
proof fn lemma_stripped_line(l: Seq<char>)
    requires
        forall|j: int| 0 <= j < l.len() ==> l[j] != '\n',
    ensures
        ({
            let b = stripped_line(l);
            b.len() > 0 ==> {
                &&& b.last() == '\n'
                &&& forall|j: int| 0 <= j < b.len() - 1 ==> b[j] != '\n'
                &&& no_format_flag(crate::text::strip_cr(b.drop_last()))
            }
        }),
{
    reveal_strlit("#,");
    reveal_strlit("#, ");
    let b = stripped_line(l);
    if !has_prefix(l, "#,"@) {
        assert(b.drop_last() =~= l);
        let x = crate::text::strip_cr(l);
        if has_prefix(x, "#,"@) {
            assert(x.take(2) =~= l.take(2));
        }
    } else {
        let ps = split_char(l.skip(2), ',');
        let kept = kept_flags(ps);
        if kept.len() > 0 {
            lemma_split_char_pieces(l.skip(2), ',');
            lemma_kept_flags(ps);
            let sp = spaced(kept);
            assert forall|i: int, j: int| 0 <= i < sp.len() && 0 <= j < sp[i].len() implies #[trigger] sp[i][j]
                != ',' && sp[i][j] != '\n' by {
                if j > 0 {
                    assert(sp[i][j] == kept[i][j - 1]);
                }
            }
            lemma_join_spaced(kept);
            lemma_join_commas(sp);
            lemma_split_char_join(sp, ',');
            let jn = join(sp, seq![',']);
            let x = "#,"@ + jn;
            assert(b =~= x + seq!['\n']);
            assert(b.drop_last() =~= x);
            assert(sp.last().len() > 0);
            let lk = kept.last();
            if lk.len() > 0 {
                assert(sp.last().last() == lk.last());
                crate::text::lemma_trimmed_ends(lk);
            }
            assert(x.last() == jn.last());
            assert(crate::text::strip_cr(x) == x);
            assert(x.skip(2) =~= jn);
            assert forall|q: int| 0 <= q < split_char(x.skip(2), ',').len() implies trim(
                #[trigger] split_char(x.skip(2), ',')[q],
            ) != "c-format"@ && trim(split_char(x.skip(2), ',')[q]) != "no-c-format"@ by {
                assert(split_char(x.skip(2), ',')[q] == seq![' '] + kept[q]);
                crate::text::lemma_trim_after_space(' ', kept[q]);
            }
        }
    }
}

/// The lines, as rewritten, end in a line break (or are nothing), and none of the lines read
/// back from them carries a `c-format` flag.
proof fn lemma_stripped_lines(ls: Seq<Seq<char>>)
    requires
        forall|k: int, j: int| 0 <= k < ls.len() && 0 <= j < ls[k].len() ==> #[trigger] ls[k][j] != '\n',
    ensures
        stripped_lines(ls).len() == 0 || stripped_lines(ls).last() == '\n',
        forall|k: int| 0 <= k < lines_of(stripped_lines(ls)).len() ==> no_format_flag(
            #[trigger] lines_of(stripped_lines(ls))[k],
        ),
    decreases ls.len(),
{
    if ls.len() == 0 {
        assert(lines_of(Seq::<char>::empty()) =~= Seq::<Seq<char>>::empty());
    } else {
        let d = ls.drop_last();
        assert forall|k: int, j: int| 0 <= k < d.len() && 0 <= j < d[k].len() implies #[trigger] d[k][j] != '\n' by {
            assert(d[k] == ls[k]);
        }
        lemma_stripped_lines(d);
        let l = ls.last();
        assert forall|j: int| 0 <= j < l.len() implies l[j] != '\n' by {
            assert(ls[ls.len() - 1][j] != '\n');
        }
        lemma_stripped_line(l);
        let a = stripped_lines(d);
        let b = stripped_line(l);
        assert(stripped_lines(ls) == a + b);
        if b.len() == 0 {
            assert(a + b =~= a);
        } else {
            let x = b.drop_last();
            assert(b =~= x + seq!['\n'] + Seq::<char>::empty());
            crate::text::lemma_lines_cons_any(x, Seq::<char>::empty());
            assert(lines_of(Seq::<char>::empty()) =~= Seq::<Seq<char>>::empty());
            assert(lines_of(b) =~= seq![crate::text::strip_cr(x)]);
            if a.len() == 0 {
                assert(a + b =~= b);
            } else {
                let a0 = a.drop_last();
                assert(a =~= a0 + seq!['\n']);
                assert(a + b =~= a0 + seq!['\n'] + b);
                crate::text::lemma_lines_split_break(a0, b);
            }
            let r = lines_of(a + b);
            assert forall|k: int| 0 <= k < r.len() implies no_format_flag(#[trigger] r[k]) by {
                if k < lines_of(a).len() {
                    assert(r[k] == lines_of(a)[k]);
                } else {
                    assert(r[k] == lines_of(b)[k - lines_of(a).len()]);
                }
            }
            assert((a + b).last() == '\n');
        }
    }
}

/// Once the format flags are stripped, no `#,` line of the result carries `c-format` or
/// `no-c-format` among its flags, whatever the input.
pub proof fn law_no_format_flag_is_left(content: Seq<char>)
    ensures
        forall|k: int|
            0 <= k < lines_of(stripped_lines(lines_of(content))).len() ==> no_format_flag(
                #[trigger] lines_of(stripped_lines(lines_of(content)))[k],
            ),
{
    crate::text::lemma_lines_have_no_breaks(content);
    lemma_stripped_lines(lines_of(content));
}

} // verus!
