# patois

Lightweight gettext-style i18n: `.mo` catalogs looked up through a registry of domains and
locales, plural rules, language selection, and the build-time tooling that keeps `.po`/`.pot`
files and the iOS/Android translation assets up to date.

The library in `src/` is written in Verus; every function carries a contract that Verus
proves, and the `law_*` proof functions state properties that span several functions.

- `text` — character-level primitives: trimming, searching, line splitting, joining.
- `entries` — pot entries: escaping, reading entries back from a pot, rendering an entry.
- `po` — `.po` documents: parsing, translation candidates, patching translations in place.
- `settle` — what reading a `.po` file again after a batch of translations gives.
- `sanitize` — making Rust sources digestible for `xgettext --language=C`.
- `extract` — scanning Swift/Kotlin sources for `t(...)`/`nt(...)` calls and extending a pot.
- `pot` — cleaning up and merging regenerated pots, choosing which packages to scan.
- `mobile` — `Localizable.strings` text and Android translation JSON.
- `catalog` — reading `.mo` files and looking translations up.
- `plural` — parsing and evaluating `Plural-Forms` expressions.
- `registry` — domains, the active locale, loaded catalogs and lookups.
- `lang` — native language names and the list of languages an app offers.

A lookup in the registry either answers or names the catalog it needs; the code in `app/`
reads that catalog (from disk or from the files a library crate embeds), hands it to the
registry and asks again. `app/` also holds the process-wide registry, the `t!`/`nt!` macros,
and the build helpers that walk directories, run `xgettext`/`msgfmt` and write files.
