//! The translation registry: where each domain's catalogs live, the default domain, the
//! active locale, and the catalogs loaded so far for each locale and domain.
use vstd::prelude::*;

use crate::catalog::{parse_mo_spec, Catalog};
use crate::EmbeddedDomain;
use crate::lang::{lowercase, unicode_lowercase};
use crate::text::{
    append, chars_of, copy_of, eq, index_of, index_of_exec, lemma_find_from_bounds, opt_view,
    slice_of, string_of, views,
};

verus! {

/// The map an association list stands for, a later pair for a key replacing an earlier one.
pub open spec fn assoc<K, V>(ps: Seq<(K, V)>) -> Map<K, V>
    decreases ps.len(),
{
    if ps.len() == 0 {
        Map::empty()
    } else {
        assoc(ps.drop_last()).insert(ps.last().0, ps.last().1)
    }
}

/// The pairs whose key satisfies `keep`, in order.
pub open spec fn retained<K, V>(ps: Seq<(K, V)>, keep: spec_fn(K) -> bool) -> Seq<(K, V)>
    decreases ps.len(),
{
    if ps.len() == 0 {
        seq![]
    } else if keep(ps.last().0) {
        retained(ps.drop_last(), keep).push(ps.last())
    } else {
        retained(ps.drop_last(), keep)
    }
}

pub proof fn lemma_assoc_retained<K, V>(ps: Seq<(K, V)>, keep: spec_fn(K) -> bool)
    ensures
        forall|k: K|
            #![trigger assoc(retained(ps, keep)).contains_key(k)]
            assoc(retained(ps, keep)).contains_key(k) <==> (assoc(ps).contains_key(k) && keep(
                k,
            )),
        forall|k: K|
            #![trigger assoc(retained(ps, keep))[k]]
            assoc(retained(ps, keep)).contains_key(k) ==> assoc(retained(ps, keep))[k]
                == assoc(ps)[k],
    decreases ps.len(),
{
    if ps.len() > 0 {
        let prev = ps.drop_last();
        let last = ps.last();
        lemma_assoc_retained(prev, keep);
        if keep(last.0) {
            assert(retained(ps, keep) == retained(prev, keep).push(last));
            assert(retained(ps, keep).drop_last() =~= retained(prev, keep));
            assert(retained(ps, keep).last() == last);
            assert forall|k: K|
                assoc(retained(ps, keep)).contains_key(k) <==> (assoc(ps).contains_key(k) && keep(
                    k,
                )) by {
                if k != last.0 {
                    assert(assoc(retained(prev, keep)).contains_key(k) <==> (assoc(
                        prev,
                    ).contains_key(k) && keep(k)));
                }
            }
            assert forall|k: K| #[trigger] assoc(retained(ps, keep)).contains_key(k) implies assoc(
                retained(ps, keep),
            )[k] == assoc(ps)[k] by {
                if k != last.0 {
                    assert(assoc(retained(prev, keep)).contains_key(k));
                }
            }
        } else {
            assert(retained(ps, keep) == retained(prev, keep));
            assert forall|k: K|
                assoc(retained(ps, keep)).contains_key(k) <==> (assoc(ps).contains_key(k) && keep(
                    k,
                )) by {
                assert(assoc(retained(prev, keep)).contains_key(k) <==> (assoc(prev).contains_key(k)
                    && keep(k)));
            }
            assert forall|k: K| #[trigger] assoc(retained(ps, keep)).contains_key(k) implies assoc(
                retained(ps, keep),
            )[k] == assoc(ps)[k] by {
                assert(keep(k));
                assert(k != last.0);
            }
        }
    }
}

/// The full Unicode uppercase mapping of `s` (`str::to_uppercase`).
pub uninterp spec fn unicode_uppercase(s: Seq<char>) -> Seq<char>;

/// `s` in uppercase, by `str::to_uppercase`; the Unicode case tables it applies are named
/// by [`unicode_uppercase`], not restated.
#[verifier::external_body]
fn uppercase(s: &str) -> (r: String)
    ensures
        r@ == unicode_uppercase(s@),
{
    s.to_uppercase()
}

/// `s` with every `-` turned into `_`.
pub open spec fn dashes_to_underscores(s: Seq<char>) -> Seq<char> {
    s.map_values(|c: char| if c == '-' { '_' } else { c })
}

/// A locale id in the registry's spelling: `-` becomes `_`, the language part is lowercased
/// and the region part (after the first `_`) uppercased, so `en-US` and `en_us` both become
/// `en_US`.
pub open spec fn normalized_locale(locale: Seq<char>) -> Seq<char> {
    let s = dashes_to_underscores(locale);
    match index_of(s, '_') {
        Some(i) => unicode_lowercase(s.take(i)) + seq!['_'] + unicode_uppercase(s.skip(i + 1)),
        None => unicode_lowercase(s),
    }
}

/// Normalises a locale id: "en-US" and "en_us" both become "en_US".
pub fn normalize_locale(locale: &str) -> (r: String)
    ensures
        r@ == normalized_locale(locale@),
{
    let cs = chars_of(locale);
    let mut s: Vec<char> = Vec::new();
    let mut i: usize = 0;
    while i < cs.len()
        invariant
            i <= cs.len(),
            s@ == dashes_to_underscores(cs@.take(i as int)),
        decreases cs.len() - i,
    {
        s.push(if cs[i] == '-' {
            '_'
        } else {
            cs[i]
        });
        i = i + 1;
        assert(s@ =~= dashes_to_underscores(cs@.take(i as int)));
    }
    assert(cs@.take(i as int) =~= cs@);
    match index_of_exec(&s, '_') {
        Some(k) => {
            proof {
                lemma_find_from_bounds(s@, seq!['_'], 0);
            }
            let lang = lowercase(string_of(&slice_of(&s, 0, k)).as_str());
            let region = uppercase(string_of(&slice_of(&s, k + 1, s.len())).as_str());
            let mut out = chars_of(lang.as_str());
            out.push('_');
            append(&mut out, &chars_of(region.as_str()));
            assert(s@.take(k as int) =~= s@.subrange(0, k as int));
            assert(s@.skip(k + 1) =~= s@.subrange(k + 1, s@.len() as int));
            string_of(&out)
        },
        None => lowercase(string_of(&s).as_str()),
    }
}

/// The locales to look a catalog up under, most specific first: the locale itself, then its
/// language alone when it has a region.
pub open spec fn locale_chain_spec(locale: Seq<char>) -> Seq<Seq<char>> {
    match index_of(locale, '_') {
        Some(i) => seq![locale, locale.take(i)],
        None => seq![locale],
    }
}

/// The locales to look a catalog up under: `de_DE` gives `de_DE` then `de`.
pub fn locale_chain(locale: &str) -> (r: Vec<String>)
    ensures
        crate::text::string_views(r@) == locale_chain_spec(locale@),
{
    let cs = chars_of(locale);
    let mut chain: Vec<String> = Vec::new();
    chain.push(string_of(&cs));
    match index_of_exec(&cs, '_') {
        Some(i) => {
            proof {
                lemma_find_from_bounds(cs@, seq!['_'], 0);
            }
            let lang = slice_of(&cs, 0, i);
            assert(lang@ =~= cs@.take(i as int));
            chain.push(string_of(&lang));
        },
        None => {},
    }
    assert(crate::text::string_views(chain@) =~= locale_chain_spec(locale@));
    chain
}

/// What a lookup needs next: its answer, or the catalog of a domain for a locale, which the
/// caller loads (see [`load_catalog`]) and hands to [`Registry::store_catalog`] before asking
/// again.
pub enum Lookup {
    Found(String),
    Load { locale: String, domain: String },
}

pub enum LookupView {
    Found(Seq<char>),
    Load(Seq<char>, Seq<char>),
}

impl View for Lookup {
    type V = LookupView;

    open spec fn view(&self) -> LookupView {
        match self {
            Lookup::Found(s) => LookupView::Found(s@),
            Lookup::Load { locale, domain } => LookupView::Load(locale@, domain@),
        }
    }
}

/// The registry as its contracts see it.
pub struct RegistryView {
    pub paths: Map<Seq<char>, Seq<char>>,
    pub default_domain: Option<Seq<char>>,
    pub locale: Seq<char>,
    pub cache: Map<(Seq<char>, Seq<char>), Option<Map<Seq<char>, Seq<Seq<char>>>>>,
}

pub open spec fn gettext_spec(cat: Map<Seq<char>, Seq<Seq<char>>>, key: Seq<char>) -> Seq<char> {
    if cat.contains_key(key) {
        cat[key][0]
    } else {
        key
    }
}

pub open spec fn ngettext_spec(
    cat: Map<Seq<char>, Seq<Seq<char>>>,
    singular: Seq<char>,
    plural: Seq<char>,
    n: u64,
) -> Seq<char> {
    if cat.contains_key(singular) {
        if n == 1 || cat[singular].len() == 1 {
            cat[singular][0]
        } else {
            cat[singular][1]
        }
    } else if n == 1 {
        singular
    } else {
        plural
    }
}

/// A lookup in `domain`, falling back to the default domain when `domain` has no catalog for
/// the active locale: `found` says what a catalog answers, `missing` what comes back when
/// neither has one.
pub open spec fn lookup_spec(
    reg: RegistryView,
    domain: Seq<char>,
    found: spec_fn(Map<Seq<char>, Seq<Seq<char>>>) -> Seq<char>,
    missing: Seq<char>,
) -> LookupView {
    let key = (reg.locale, domain);
    if !reg.cache.contains_key(key) {
        LookupView::Load(reg.locale, domain)
    } else {
        match reg.cache[key] {
            Some(cat) => LookupView::Found(found(cat)),
            None => match reg.default_domain {
                Some(def) => if def != domain {
                    let fallback = (reg.locale, def);
                    if !reg.cache.contains_key(fallback) {
                        LookupView::Load(reg.locale, def)
                    } else {
                        match reg.cache[fallback] {
                            Some(cat) => LookupView::Found(found(cat)),
                            None => LookupView::Found(missing),
                        }
                    }
                } else {
                    LookupView::Found(missing)
                },
                None => LookupView::Found(missing),
            },
        }
    }
}

pub open spec fn translate_spec(reg: RegistryView, domain: Seq<char>, msgid: Seq<char>) -> LookupView {
    lookup_spec(reg, domain, |cat: Map<Seq<char>, Seq<Seq<char>>>| gettext_spec(cat, msgid), msgid)
}

pub open spec fn translate_plural_spec(
    reg: RegistryView,
    domain: Seq<char>,
    singular: Seq<char>,
    plural: Seq<char>,
    n: u64,
) -> LookupView {
    lookup_spec(
        reg,
        domain,
        |cat: Map<Seq<char>, Seq<Seq<char>>>| ngettext_spec(cat, singular, plural, n),
        if n == 1 {
            singular
        } else {
            plural
        },
    )
}

pub open spec fn opt_catalog_view(c: Option<Catalog>) -> Option<Map<Seq<char>, Seq<Seq<char>>>> {
    match c {
        Some(c) => Some(c@),
        None => None,
    }
}

pub open spec fn path_pairs(v: Seq<(String, String)>) -> Seq<(Seq<char>, Seq<char>)> {
    v.map_values(|p: (String, String)| (p.0@, p.1@))
}

pub open spec fn cache_pairs(v: Seq<(String, String, Option<Catalog>)>) -> Seq<
    ((Seq<char>, Seq<char>), Option<Map<Seq<char>, Seq<Seq<char>>>>),
> {
    v.map_values(
        |e: (String, String, Option<Catalog>)| ((e.0@, e.1@), opt_catalog_view(e.2)),
    )
}

/// App domain paths (populated by `init`; library domains use embedded bytes instead), the
/// default domain, the active locale, and the catalogs loaded so far by locale and domain
/// (`None` where none could be loaded).
pub struct Registry {
    paths: Vec<(String, String)>,
    default_domain: Option<String>,
    locale: String,
    cache: Vec<(String, String, Option<Catalog>)>,
}

impl View for Registry {
    type V = RegistryView;

    closed spec fn view(&self) -> RegistryView {
        RegistryView {
            paths: assoc(path_pairs(self.paths@)),
            default_domain: opt_view(self.default_domain),
            locale: self.locale@,
            cache: assoc(cache_pairs(self.cache@)),
        }
    }
}

/// Whether `a` and `b` name the same path, by `std::path::Path` equality. Which differently
/// written paths compare equal depends on the platform's path syntax (its separators and
/// prefixes), so all that is stated is that a path equals itself.
#[verifier::external_body]
fn same_path(a: &str, b: &str) -> (r: bool)
    ensures
        a@ == b@ ==> r,
{
    std::path::Path::new(a) == std::path::Path::new(b)
}

/// The registry after registering `path` as `domain`'s directory, where `same` tells whether
/// it is the same directory as the one registered for `domain`: a domain with the same
/// directory is left as it is; otherwise the path is recorded and the domain's loaded
/// catalogs are dropped.
pub open spec fn registered(reg: RegistryView, domain: Seq<char>, path: Seq<char>, same: bool) -> RegistryView {
    if reg.paths.contains_key(domain) && same {
        reg
    } else {
        RegistryView {
            paths: reg.paths.insert(domain, path),
            cache: reg.cache.remove_keys(Set::new(|k: (Seq<char>, Seq<char>)| k.1 == domain)),
            ..reg
        }
    }
}

impl Registry {
    /// A registry with no domains, no default domain, the empty locale and nothing loaded.
    pub fn new() -> (r: Registry)
        ensures
            r@.paths == Map::<Seq<char>, Seq<char>>::empty(),
            r@.default_domain is None,
            r@.locale == Seq::<char>::empty(),
            r@.cache == Map::<(Seq<char>, Seq<char>), Option<Map<Seq<char>, Seq<Seq<char>>>>>::empty(),
    {
        let r = Registry {
            paths: Vec::new(),
            default_domain: None,
            locale: String::new(),
            cache: Vec::new(),
        };
        assert(path_pairs(r.paths@) =~= Seq::empty());
        assert(cache_pairs(r.cache@) =~= Seq::empty());
        r
    }

    /// Registers the directory a domain's `.mo` files live under. Re-registering the same
    /// directory (equal as a `std::path::Path`, so a path written alike always) changes
    /// nothing; a new one drops the domain's loaded catalogs.
    pub fn register_path(&mut self, domain: &str, path: &str)
        ensures
            final(self)@ == registered(old(self)@, domain@, path@, true) || final(self)@ == registered(
                old(self)@,
                domain@,
                path@,
                false,
            ),
            old(self)@.paths.contains_key(domain@) && old(self)@.paths[domain@] == path@ ==> final(self)@
                == old(self)@,
    {
        let dv = chars_of(domain);
        let same = match self.path_index(&dv) {
            Some(i) => same_path(self.paths[i].1.as_str(), path),
            None => false,
        };
        self.register_path_with(domain, path, same);
    }

    /// Registers `path` as `domain`'s directory, given whether it is the same directory as the
    /// one registered for `domain`.
    pub fn register_path_with(&mut self, domain: &str, path: &str, same: bool)
        ensures
            final(self)@ == registered(old(self)@, domain@, path@, same),
    {
        let dv = chars_of(domain);
        let pv = chars_of(path);
        if same && self.path_index(&dv).is_some() {
            return;
        }
        let ghost keep = |k: (Seq<char>, Seq<char>)| k.1 != domain@;
        let ghost old_pairs = cache_pairs(self.cache@);
        let mut old_cache: Vec<(String, String, Option<Catalog>)> = Vec::new();
        core::mem::swap(&mut old_cache, &mut self.cache);
        assert(old_pairs.len() == old_cache.len());
        let mut k: usize = 0;
        assert(old_pairs.take(0) =~= Seq::empty());
        assert(cache_pairs(self.cache@) =~= Seq::empty());
        assert(old_pairs.skip(0) =~= old_pairs);
        while old_cache.len() > 0
            invariant
                self.paths == old(self).paths,
                self.locale == old(self).locale,
                self.default_domain == old(self).default_domain,
                old_pairs.len() <= usize::MAX,
                cache_pairs(old_cache@) == old_pairs.skip(k as int),
                k + old_cache.len() == old_pairs.len(),
                cache_pairs(self.cache@) == retained(old_pairs.take(k as int), keep),
                keep == (|k: (Seq<char>, Seq<char>)| k.1 != domain@),
                dv@ == domain@,
            decreases old_cache.len(),
        {
            let ghost prev = old_cache@;
            let e = old_cache.remove(0);
            assert(old_pairs.take(k + 1).drop_last() =~= old_pairs.take(k as int));
            assert(cache_pairs(prev)[0] == old_pairs[k as int]);
            assert(cache_pairs(old_cache@) =~= cache_pairs(prev).skip(1));
            assert(cache_pairs(old_cache@) =~= old_pairs.skip(k + 1));
            assert(old_pairs.take(k + 1).last() == old_pairs[k as int]);
            if !eq(&chars_of(e.1.as_str()), &dv) {
                let ghost before = self.cache@;
                self.cache.push(e);
                assert(cache_pairs(self.cache@) =~= cache_pairs(before).push(old_pairs[k as int]));
            }
            k = k + 1;
        }
        assert(old_pairs.take(k as int) =~= old_pairs);
        proof {
            lemma_assoc_retained(old_pairs, keep);
            assert(assoc(cache_pairs(self.cache@)) =~= assoc(old_pairs).remove_keys(
                Set::new(|k: (Seq<char>, Seq<char>)| k.1 == domain@),
            ));
        }
        let ghost before = self.paths@;
        self.paths.push((string_of(&dv), string_of(&pv)));
        assert(path_pairs(self.paths@) =~= path_pairs(before).push((domain@, path@)));
        assert(path_pairs(self.paths@).drop_last() =~= path_pairs(before));
        assert(self@.paths == old(self)@.paths.insert(domain@, path@));
        assert(self@.cache == old(self)@.cache.remove_keys(
            Set::new(|k: (Seq<char>, Seq<char>)| k.1 == domain@),
        ));
        assert(self@.locale == old(self)@.locale);
        assert(self@.default_domain == old(self)@.default_domain);
        assert(self@ == registered(old(self)@, domain@, path@, same));
    }

    /// Where the last registration of a domain stands.
    fn path_index(&self, domain: &[char]) -> (r: Option<usize>)
        ensures
            r is Some <==> self@.paths.contains_key(domain@),
            r matches Some(i) ==> i < self.paths.len() && self.paths@[i as int].1@
                == self@.paths[domain@],
    {
        let ghost ps = path_pairs(self.paths@);
        let mut k = self.paths.len();
        while k > 0
            invariant
                k <= self.paths.len(),
                ps == path_pairs(self.paths@),
                forall|j: int| k <= j < ps.len() ==> (#[trigger] ps[j]).0 != domain@,
            decreases k,
        {
            if eq(&chars_of(self.paths[k - 1].0.as_str()), domain) {
                proof {
                    lemma_assoc_last(ps, domain@, k - 1);
                }
                return Some(k - 1);
            }
            k = k - 1;
        }
        proof {
            lemma_assoc_absent(ps, domain@);
        }
        None
    }

    /// Makes `domain` the default domain, the one a lookup falls back to.
    pub fn set_default_domain(&mut self, domain: &str)
        ensures
            final(self)@ == (RegistryView { default_domain: Some(domain@), ..old(self)@ }),
    {
        self.default_domain = Some(string_of(&chars_of(domain)));
    }

    /// The default domain, if one is set.
    pub fn default_domain(&self) -> (r: Option<&str>)
        ensures
            (match r {
                Some(d) => Some(d@),
                None => None::<Seq<char>>,
            }) == self@.default_domain,
    {
        match &self.default_domain {
            Some(d) => Some(d.as_str()),
            None => None,
        }
    }

    /// Activates a locale, normalised (see [`normalize_locale`]). Switching to another locale
    /// drops every loaded catalog; the same one again changes nothing.
    pub fn set_locale(&mut self, locale_id: &str)
        ensures
            (if old(self)@.locale == normalized_locale(locale_id@) {
                final(self)@ == old(self)@
            } else {
                final(self)@ == (RegistryView {
                    locale: normalized_locale(locale_id@),
                    cache: Map::empty(),
                    ..old(self)@
                })
            }),
    {
        let normalized = normalize_locale(locale_id);
        if !eq(&chars_of(self.locale.as_str()), &chars_of(normalized.as_str())) {
            self.locale = normalized;
            self.cache = Vec::new();
            assert(cache_pairs(self.cache@) =~= Seq::empty());
        }
    }

    /// The active locale.
    pub fn locale(&self) -> (r: &str)
        ensures
            r@ == self@.locale,
    {
        self.locale.as_str()
    }

    /// The directory registered for `domain`, where its `<locale>/LC_MESSAGES/<domain>.mo`
    /// files are looked for.
    pub fn catalog_dir(&self, domain: &str) -> (r: Option<&str>)
        ensures
            (match r {
                Some(d) => Some(d@),
                None => None::<Seq<char>>,
            }) == (if self@.paths.contains_key(domain@) {
                Some(self@.paths[domain@])
            } else {
                None
            }),
    {
        match self.path_index(&chars_of(domain)) {
            Some(i) => Some(self.paths[i].1.as_str()),
            None => None,
        }
    }

    /// Where the catalog loaded for `(locale, domain)` stands, when one was stored.
    fn cache_index(&self, locale: &[char], domain: &[char]) -> (r: Option<usize>)
        ensures
            r is Some <==> self@.cache.contains_key((locale@, domain@)),
            r matches Some(i) ==> i < self.cache.len() && opt_catalog_view(self.cache@[i as int].2)
                == self@.cache[(locale@, domain@)],
    {
        let ghost ps = cache_pairs(self.cache@);
        let ghost key = (locale@, domain@);
        let mut k = self.cache.len();
        while k > 0
            invariant
                k <= self.cache.len(),
                ps == cache_pairs(self.cache@),
                key == (locale@, domain@),
                forall|j: int| k <= j < ps.len() ==> (#[trigger] ps[j]).0 != key,
            decreases k,
        {
            if eq(&chars_of(self.cache[k - 1].0.as_str()), locale) && eq(
                &chars_of(self.cache[k - 1].1.as_str()),
                domain,
            ) {
                proof {
                    lemma_assoc_last(ps, key, k - 1);
                }
                return Some(k - 1);
            }
            k = k - 1;
        }
        proof {
            lemma_assoc_absent(ps, key);
        }
        None
    }

    /// Stores the catalog loaded (or found missing) for `(locale, domain)`, unless one is
    /// stored already.
    pub fn store_catalog(&mut self, locale: &str, domain: &str, catalog: Option<Catalog>)
        ensures
            final(self)@ == (if old(self)@.cache.contains_key((locale@, domain@)) {
                old(self)@
            } else {
                RegistryView {
                    cache: old(self)@.cache.insert((locale@, domain@), opt_catalog_view(catalog)),
                    ..old(self)@
                }
            }),
    {
        let lv = chars_of(locale);
        let dv = chars_of(domain);
        if self.cache_index(&lv, &dv).is_some() {
            return;
        }
        let ghost before = self.cache@;
        self.cache.push((string_of(&lv), string_of(&dv), catalog));
        assert(cache_pairs(self.cache@) =~= cache_pairs(before).push(
            ((locale@, domain@), opt_catalog_view(catalog)),
        ));
        assert(cache_pairs(self.cache@).drop_last() =~= cache_pairs(before));
    }

    /// Looks `msgid` up in `domain` for the active locale, falling back to the default domain
    /// when `domain` has no catalog, and to `msgid` itself when neither has one; or names the
    /// catalog to load first.
    pub fn translate(&self, domain: &str, msgid: &str) -> (r: Lookup)
        ensures
            r@ == translate_spec(self@, domain@, msgid@),
    {
        let lv = chars_of(self.locale.as_str());
        let dv = chars_of(domain);
        match self.cache_index(&lv, &dv) {
            None => {
                return Lookup::Load { locale: string_of(&lv), domain: string_of(&dv) };
            },
            Some(i) => match &self.cache[i].2 {
                Some(cat) => {
                    return Lookup::Found(string_of(&chars_of(cat.gettext(msgid))));
                },
                None => {},
            },
        }
        match &self.default_domain {
            Some(def) => {
                let defv = chars_of(def.as_str());
                if !eq(&defv, &dv) {
                    match self.cache_index(&lv, &defv) {
                        None => {
                            return Lookup::Load { locale: string_of(&lv), domain: string_of(&defv) };
                        },
                        Some(i) => match &self.cache[i].2 {
                            Some(cat) => {
                                return Lookup::Found(string_of(&chars_of(cat.gettext(msgid))));
                            },
                            None => {},
                        },
                    }
                }
            },
            None => {},
        }
        Lookup::Found(string_of(&chars_of(msgid)))
    }

    /// [`Registry::translate`] for a message with a plural form, for count `n`; without a
    /// catalog, `singular` for a count of 1 and `plural` otherwise.
    pub fn translate_plural(&self, domain: &str, singular: &str, plural: &str, n: u64) -> (r: Lookup)
        ensures
            r@ == translate_plural_spec(self@, domain@, singular@, plural@, n),
    {
        let lv = chars_of(self.locale.as_str());
        let dv = chars_of(domain);
        match self.cache_index(&lv, &dv) {
            None => {
                return Lookup::Load { locale: string_of(&lv), domain: string_of(&dv) };
            },
            Some(i) => match &self.cache[i].2 {
                Some(cat) => {
                    return Lookup::Found(string_of(&chars_of(cat.ngettext(singular, plural, n))));
                },
                None => {},
            },
        }
        match &self.default_domain {
            Some(def) => {
                let defv = chars_of(def.as_str());
                if !eq(&defv, &dv) {
                    match self.cache_index(&lv, &defv) {
                        None => {
                            return Lookup::Load { locale: string_of(&lv), domain: string_of(&defv) };
                        },
                        Some(i) => match &self.cache[i].2 {
                            Some(cat) => {
                                return Lookup::Found(
                                    string_of(&chars_of(cat.ngettext(singular, plural, n))),
                                );
                            },
                            None => {},
                        },
                    }
                }
            },
            None => {},
        }
        if n == 1 {
            Lookup::Found(string_of(&chars_of(singular)))
        } else {
            Lookup::Found(string_of(&chars_of(plural)))
        }
    }
}

/// The embedded files as plain values: each domain's name and its `(locale, bytes)` files.
pub open spec fn embedded_views(ds: Seq<EmbeddedDomain>) -> Seq<(Seq<char>, Seq<(Seq<char>, Seq<u8>)>)> {
    ds.map_values(
        |d: EmbeddedDomain|
            (d.name@, d.files@.map_values(|f: (&str, &[u8])| (f.0@, f.1@))),
    )
}

/// The catalog of the first file from `j` on embedded for `loc` that parses.
pub open spec fn file_catalog(files: Seq<(Seq<char>, Seq<u8>)>, loc: Seq<char>, j: int) -> Option<
    Map<Seq<char>, Seq<Seq<char>>>,
>
    decreases files.len() - j,
{
    if j < 0 || j >= files.len() {
        None
    } else if files[j].0 == loc && parse_mo_spec(files[j].1) is Some {
        parse_mo_spec(files[j].1)
    } else {
        file_catalog(files, loc, j + 1)
    }
}

/// The embedded catalog of `domain` for `loc`: from the first embedding of the domain, from
/// `i` on, that has a file for `loc` that parses.
pub open spec fn embedded_catalog(
    ds: Seq<(Seq<char>, Seq<(Seq<char>, Seq<u8>)>)>,
    domain: Seq<char>,
    loc: Seq<char>,
    i: int,
) -> Option<Map<Seq<char>, Seq<Seq<char>>>>
    decreases ds.len() - i,
{
    if i < 0 || i >= ds.len() {
        None
    } else if ds[i].0 == domain && file_catalog(ds[i].1, loc, 0) is Some {
        file_catalog(ds[i].1, loc, 0)
    } else {
        embedded_catalog(ds, domain, loc, i + 1)
    }
}

/// The catalog to use, trying the locales of the chain from `k` on, most specific first: for
/// each, an embedded catalog first, then the file read from the domain's directory.
pub open spec fn chosen_catalog(
    ds: Seq<(Seq<char>, Seq<(Seq<char>, Seq<u8>)>)>,
    domain: Seq<char>,
    chain: Seq<Seq<char>>,
    files: Seq<Option<Seq<u8>>>,
    k: int,
) -> Option<Map<Seq<char>, Seq<Seq<char>>>>
    decreases chain.len() - k,
{
    if k < 0 || k >= chain.len() {
        None
    } else if locale_catalog(ds, domain, chain[k], files[k]) is Some {
        locale_catalog(ds, domain, chain[k], files[k])
    } else {
        chosen_catalog(ds, domain, chain, files, k + 1)
    }
}

/// The catalog for one locale of the chain: an embedded one first, then the file read.
pub open spec fn locale_catalog(
    ds: Seq<(Seq<char>, Seq<(Seq<char>, Seq<u8>)>)>,
    domain: Seq<char>,
    loc: Seq<char>,
    file: Option<Seq<u8>>,
) -> Option<Map<Seq<char>, Seq<Seq<char>>>> {
    if embedded_catalog(ds, domain, loc, 0) is Some {
        embedded_catalog(ds, domain, loc, 0)
    } else {
        match file {
            Some(b) => parse_mo_spec(b),
            None => None,
        }
    }
}

fn catalog_for_locale(embedded: &[EmbeddedDomain], domain: &[char], loc: &[char], file: &Option<Vec<u8>>) -> (r: Option<Catalog>)
    ensures
        opt_catalog_view(r) == locale_catalog(
            embedded_views(embedded@),
            domain@,
            loc@,
            match file {
                Some(b) => Some(b@),
                None => None,
            },
        ),
{
    match embedded_domain_catalog(embedded, domain, loc) {
        Some(c) => {
            return Some(c);
        },
        None => {},
    }
    match file {
        Some(bytes) => Catalog::parse(bytes.as_slice()),
        None => None,
    }
}

pub open spec fn file_views(files: Seq<Option<Vec<u8>>>) -> Seq<Option<Seq<u8>>> {
    files.map_values(
        |f: Option<Vec<u8>>|
            match f {
                Some(b) => Some(b@),
                None => None,
            },
    )
}

fn embedded_file_catalog(files: &[(&str, &[u8])], loc: &[char]) -> (r: Option<Catalog>)
    ensures
        opt_catalog_view(r) == file_catalog(
            files@.map_values(|f: (&str, &[u8])| (f.0@, f.1@)),
            loc@,
            0,
        ),
{
    let ghost fs = files@.map_values(|f: (&str, &[u8])| (f.0@, f.1@));
    let mut j: usize = 0;
    while j < files.len()
        invariant
            j <= files.len(),
            fs == files@.map_values(|f: (&str, &[u8])| (f.0@, f.1@)),
            file_catalog(fs, loc@, 0) == file_catalog(fs, loc@, j as int),
        decreases files.len() - j,
    {
        let (fl, bytes) = files[j];
        assert(fs[j as int] == (fl@, bytes@));
        if eq(&chars_of(fl), loc) {
            match Catalog::parse(bytes) {
                Some(c) => {
                    return Some(c);
                },
                None => {},
            }
        }
        j = j + 1;
    }
    None
}

fn embedded_domain_catalog(embedded: &[EmbeddedDomain], domain: &[char], loc: &[char]) -> (r: Option<
    Catalog,
>)
    ensures
        opt_catalog_view(r) == embedded_catalog(embedded_views(embedded@), domain@, loc@, 0),
{
    let ghost ds = embedded_views(embedded@);
    let mut i: usize = 0;
    while i < embedded.len()
        invariant
            i <= embedded.len(),
            ds == embedded_views(embedded@),
            embedded_catalog(ds, domain@, loc@, 0) == embedded_catalog(ds, domain@, loc@, i as int),
        decreases embedded.len() - i,
    {
        let ed = &embedded[i];
        assert(ds[i as int] == (ed.name@, ed.files@.map_values(|f: (&str, &[u8])| (f.0@, f.1@))));
        if eq(&chars_of(ed.name), domain) {
            match embedded_file_catalog(ed.files, loc) {
                Some(c) => {
                    return Some(c);
                },
                None => {},
            }
        }
        i = i + 1;
    }
    None
}

/// Loads the catalog of `domain` for `locale`, trying each locale of its chain (see
/// [`locale_chain`]) in turn: first the files library crates embed, then the `.mo` file read
/// from the domain's directory for that locale (`files`, one per locale of the chain, `None`
/// where there was none to read). The first catalog that parses wins.
pub fn load_catalog(
    embedded: &[EmbeddedDomain],
    domain: &str,
    locale: &str,
    files: &[Option<Vec<u8>>],
) -> (r: Option<Catalog>)
    requires
        files.len() == locale_chain_spec(locale@).len(),
    ensures
        opt_catalog_view(r) == chosen_catalog(
            embedded_views(embedded@),
            domain@,
            locale_chain_spec(locale@),
            file_views(files@),
            0,
        ),
{
    let chain = locale_chain(locale);
    let dv = chars_of(domain);
    let ghost ch = locale_chain_spec(locale@);
    let ghost fv = file_views(files@);
    let ghost ds = embedded_views(embedded@);
    let mut k: usize = 0;
    while k < chain.len()
        invariant
            k <= chain.len(),
            crate::text::string_views(chain@) == ch,
            ch == locale_chain_spec(locale@),
            files.len() == ch.len(),
            fv == file_views(files@),
            ds == embedded_views(embedded@),
            dv@ == domain@,
            chosen_catalog(ds, domain@, ch, fv, 0) == chosen_catalog(ds, domain@, ch, fv, k as int),
        decreases chain.len() - k,
    {
        let loc = chars_of(chain[k].as_str());
        assert(ch[k as int] == chain@[k as int]@);
        assert(fv[k as int] == match files@[k as int] {
            Some(b) => Some(b@),
            None => None::<Seq<u8>>,
        });
        match catalog_for_locale(embedded, &dv, &loc, &files[k]) {
            Some(c) => {
                assert(loc@ == ch[k as int]);
                assert(locale_catalog(ds, domain@, ch[k as int], fv[k as int]) == Some(c@));
                assert(chosen_catalog(ds, domain@, ch, fv, k as int) == Some(c@));
                return Some(c);
            },
            None => {},
        }
        k = k + 1;
    }
    None
}

pub proof fn lemma_assoc_last<K, V>(ps: Seq<(K, V)>, key: K, i: int)
    requires
        0 <= i < ps.len(),
        ps[i].0 == key,
        forall|j: int| i < j < ps.len() ==> (#[trigger] ps[j]).0 != key,
    ensures
        assoc(ps).contains_key(key),
        assoc(ps)[key] == ps[i].1,
    decreases ps.len(),
{
    if i < ps.len() - 1 {
        lemma_assoc_last(ps.drop_last(), key, i);
    }
}

pub proof fn lemma_assoc_absent<K, V>(ps: Seq<(K, V)>, key: K)
    requires
        forall|j: int| 0 <= j < ps.len() ==> (#[trigger] ps[j]).0 != key,
    ensures
        !assoc(ps).contains_key(key),
    decreases ps.len(),
{
    if ps.len() > 0 {
        lemma_assoc_absent(ps.drop_last(), key);
    }
}

/// A lookup only ever asks for a catalog of the active locale that is not stored yet, so
/// storing what it asks for always makes progress.
pub proof fn law_lookup_asks_for_missing_catalogs(
    reg: RegistryView,
    domain: Seq<char>,
    found: spec_fn(Map<Seq<char>, Seq<Seq<char>>>) -> Seq<char>,
    missing: Seq<char>,
)
    ensures
        lookup_spec(reg, domain, found, missing) matches LookupView::Load(l, d) ==> l == reg.locale
            && !reg.cache.contains_key((l, d)),
{
}

/// Once the catalog a lookup asked for is stored, the lookup answers from it.
pub proof fn law_lookup_after_store(
    reg: RegistryView,
    domain: Seq<char>,
    msgid: Seq<char>,
    cat: Map<Seq<char>, Seq<Seq<char>>>,
)
    ensures
        translate_spec(
            RegistryView {
                cache: reg.cache.insert((reg.locale, domain), Some(cat)),
                ..reg
            },
            domain,
            msgid,
        ) == LookupView::Found(gettext_spec(cat, msgid)),
{
    let r2 = RegistryView { cache: reg.cache.insert((reg.locale, domain), Some(cat)), ..reg };
    assert(r2.cache.contains_key((r2.locale, domain)));
}

/// Where no catalog has a translation, the text comes back unchanged: the domain's catalog
/// lacks it, or it has no catalog and neither has the default domain (or there is none, or
/// it is the same domain).
pub proof fn law_untranslated_text_comes_back(reg: RegistryView, domain: Seq<char>, msgid: Seq<char>)
    requires
        reg.cache.contains_key((reg.locale, domain)),
        match reg.cache[(reg.locale, domain)] {
            Some(cat) => !cat.contains_key(msgid),
            None => match reg.default_domain {
                Some(def) => def == domain || (reg.cache.contains_key((reg.locale, def)) && match reg.cache[(reg.locale, def)] {
                    Some(c) => !c.contains_key(msgid),
                    None => true,
                }),
                None => true,
            },
        },
    ensures
        translate_spec(reg, domain, msgid) == LookupView::Found(msgid),
{
}

/// After switching to another locale, every lookup first asks for the new locale's catalog
/// of its domain: nothing loaded for the old locale answers any more.
pub proof fn law_switching_locale_forgets_catalogs(
    reg: RegistryView,
    locale_id: Seq<char>,
    domain: Seq<char>,
    msgid: Seq<char>,
)
    requires
        reg.locale != normalized_locale(locale_id),
    ensures
        translate_spec(
            RegistryView { locale: normalized_locale(locale_id), cache: Map::empty(), ..reg },
            domain,
            msgid,
        ) == LookupView::Load(normalized_locale(locale_id), domain),
{
}

/// The registry after the catalog a lookup asked for is stored (unchanged when it answered).
pub open spec fn after_store(
    reg: RegistryView,
    l: LookupView,
    catalog: Option<Map<Seq<char>, Seq<Seq<char>>>>,
) -> RegistryView {
    match l {
        LookupView::Load(locale, domain) => if reg.cache.contains_key((locale, domain)) {
            reg
        } else {
            RegistryView { cache: reg.cache.insert((locale, domain), catalog), ..reg }
        },
        LookupView::Found(_) => reg,
    }
}

/// Every lookup is answered once at most two catalogs it asks for are stored, whatever
/// they turn out to be: the domain's own, then the default domain's.
pub proof fn law_lookups_settle(
    reg: RegistryView,
    domain: Seq<char>,
    msgid: Seq<char>,
    first: Option<Map<Seq<char>, Seq<Seq<char>>>>,
    second: Option<Map<Seq<char>, Seq<Seq<char>>>>,
)
    ensures
        ({
            let r1 = after_store(reg, translate_spec(reg, domain, msgid), first);
            let r2 = after_store(r1, translate_spec(r1, domain, msgid), second);
            translate_spec(r2, domain, msgid) is Found
        }),
{
    let r1 = after_store(reg, translate_spec(reg, domain, msgid), first);
    let r2 = after_store(r1, translate_spec(r1, domain, msgid), second);
    let key = (reg.locale, domain);
    if reg.cache.contains_key(key) {
        match reg.default_domain {
            Some(def) => {
                let fk = (reg.locale, def);
                assert(r1.cache.contains_key(fk) || translate_spec(reg, domain, msgid) is Found);
            },
            None => {},
        }
    } else {
        assert(r1.cache.contains_key(key));
        match reg.default_domain {
            Some(def) => {
                let fk = (reg.locale, def);
                assert(r2.cache.contains_key(key));
                assert(r2.cache.contains_key(fk) || translate_spec(r1, domain, msgid) is Found);
            },
            None => {},
        }
    }
}

} // verus!
