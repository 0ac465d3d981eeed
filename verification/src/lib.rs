//! Gettext catalogs, plural rules and `.po`/`.pot` tooling, with their contracts proved.
//!
//! The runtime side looks translations up: `.mo` catalogs ([`catalog`]), the registry of
//! domains, locales and loaded catalogs ([`registry`]), and language selection ([`lang`]).
//! The build side maintains the files: `.po` documents ([`po`]), pot entries ([`entries`]),
//! scanning sources for messages ([`extract`], [`sanitize`]) and the mobile assets
//! ([`mobile`]).
pub mod text;
pub mod entries;
pub mod po;
pub mod settle;
pub mod sanitize;
pub mod plural;
pub mod extract;
pub mod catalog;
pub mod lang;
pub mod registry;
pub mod mobile;
pub mod pot;

use vstd::prelude::*;

use crate::registry::{translate_plural_spec, translate_spec, Lookup, LookupView, Registry};

verus! {

/// The locale files a library crate embeds for its domain: the domain's name and, for each
/// locale, the bytes of its `.mo` file.
pub struct EmbeddedDomain {
    pub name: &'static str,
    pub files: &'static [(&'static str, &'static [u8])],
}

/// Registers the app domain's locale directory, makes it the default domain, and activates
/// the given locale. Locale files are expected at `<locale_dir>/<locale>/LC_MESSAGES/<domain>.mo`.
pub fn init(reg: &mut Registry, domain: &str, locale_dir: &str, locale_id: &str)
    ensures
        exists|same: bool|
            {
                let r = #[trigger] registry::registered(old(reg)@, domain@, locale_dir@, same);
                &&& old(reg)@.paths.contains_key(domain@) && old(reg)@.paths[domain@] == locale_dir@
                    ==> r == old(reg)@
                &&& final(reg)@.paths == r.paths
                &&& final(reg)@.cache == (if old(reg)@.locale != registry::normalized_locale(
                    locale_id@,
                ) {
                    Map::empty()
                } else {
                    r.cache
                })
            },
        final(reg)@.default_domain == Some(domain@),
        final(reg)@.locale == registry::normalized_locale(locale_id@),
{
    let ghost before = reg@;
    reg.register_path(domain, locale_dir);
    let ghost same = reg@ == registry::registered(before, domain@, locale_dir@, true);
    assert(reg@ == registry::registered(before, domain@, locale_dir@, same));
    reg.set_default_domain(domain);
    reg.set_locale(locale_id);
}

/// Translates `s` in the default domain: its translation, or `s` unchanged when no default
/// domain is set or no catalog has it (or the catalog to load first).
pub fn t(reg: &Registry, s: &str) -> (r: Lookup)
    ensures
        r@ == (match reg@.default_domain {
            Some(d) => translate_spec(reg@, d, s@),
            None => LookupView::Found(s@),
        }),
{
    match reg.default_domain() {
        Some(d) => reg.translate(d, s),
        None => Lookup::Found(crate::text::string_of(&crate::text::chars_of(s))),
    }
}

/// The plural form of [`t`], for count `n`: without a default domain, `singular` for a count
/// of 1 and `plural` otherwise.
pub fn nt(reg: &Registry, singular: &str, plural: &str, n: u64) -> (r: Lookup)
    ensures
        r@ == (match reg@.default_domain {
            Some(d) => translate_plural_spec(reg@, d, singular@, plural@, n),
            None => LookupView::Found(
                if n == 1 {
                    singular@
                } else {
                    plural@
                },
            ),
        }),
{
    match reg.default_domain() {
        Some(d) => reg.translate_plural(d, singular, plural, n),
        None => if n == 1 {
            Lookup::Found(crate::text::string_of(&crate::text::chars_of(singular)))
        } else {
            Lookup::Found(crate::text::string_of(&crate::text::chars_of(plural)))
        },
    }
}

/// Changes the active locale (see [`Registry::set_locale`]); switching drops every loaded
/// catalog.
pub fn set_locale(reg: &mut Registry, locale_id: &str)
    ensures
        (if old(reg)@.locale == registry::normalized_locale(locale_id@) {
            final(reg)@ == old(reg)@
        } else {
            final(reg)@ == (registry::RegistryView {
                locale: registry::normalized_locale(locale_id@),
                cache: Map::empty(),
                ..old(reg)@
            })
        }),
{
    reg.set_locale(locale_id);
}

/// The active locale.
pub fn get_locale(reg: &Registry) -> (r: String)
    ensures
        r@ == reg@.locale,
{
    crate::text::string_of(&crate::text::chars_of(reg.locale()))
}

} // verus!
