//! Runtime language selection: the languages an app offers, and their native names.
use vstd::prelude::*;

use crate::registry::{normalized_locale, Registry, RegistryView};
use crate::text::{
    chars_of, eq, lemma_text_lt_transitive, string_of, string_views, text_lt, text_lt_exec,
};

verus! {

/// The full Unicode lowercase mapping of `s` (`str::to_lowercase`).
pub uninterp spec fn unicode_lowercase(s: Seq<char>) -> Seq<char>;

/// `s` in lowercase, by `str::to_lowercase`; the Unicode case tables it applies are named
/// by [`unicode_lowercase`], not restated.
#[verifier::external_body]
pub(crate) fn lowercase(s: &str) -> (r: String)
    ensures
        r@ == unicode_lowercase(s@),
{
    s.to_lowercase()
}

/// The native display name of the (lowercased) locale code `l`, or `code` when `l` is not one
/// the table knows.
pub open spec fn native_name(l: Seq<char>, code: Seq<char>) -> Seq<char> {
    if l == "af"@ {
        "Afrikaans"@
    } else if l == "ar"@ {
        "العربية"@
    } else if l == "bg"@ {
        "Български"@
    } else if l == "bs"@ {
        "Bosanski"@
    } else if l == "ca"@ {
        "Català"@
    } else if l == "cs"@ {
        "Čeština"@
    } else if l == "cy"@ {
        "Cymraeg"@
    } else if l == "da"@ {
        "Dansk"@
    } else if l == "de"@ || l == "de_at"@ || l == "de_ch"@ {
        "Deutsch"@
    } else if l == "el"@ {
        "Ελληνικά"@
    } else if l == "en"@ || l == "en_us"@ || l == "en_gb"@ {
        "English"@
    } else if l == "eo"@ {
        "Esperanto"@
    } else if l == "es"@ || l == "es_419"@ {
        "Español"@
    } else if l == "et"@ {
        "Eesti"@
    } else if l == "eu"@ {
        "Euskara"@
    } else if l == "fa"@ {
        "فارسی"@
    } else if l == "fi"@ {
        "Suomi"@
    } else if l == "fr"@ || l == "fr_be"@ || l == "fr_ca"@ || l == "fr_ch"@ {
        "Français"@
    } else if l == "ga"@ {
        "Gaeilge"@
    } else if l == "gl"@ {
        "Galego"@
    } else if l == "he"@ {
        "עברית"@
    } else if l == "hi"@ {
        "हिन्दी"@
    } else if l == "hr"@ {
        "Hrvatski"@
    } else if l == "hu"@ {
        "Magyar"@
    } else if l == "hy"@ {
        "Հայերեն"@
    } else if l == "id"@ {
        "Indonesia"@
    } else if l == "is"@ {
        "Íslenska"@
    } else if l == "it"@ {
        "Italiano"@
    } else if l == "ja"@ {
        "日本語"@
    } else if l == "ka"@ {
        "ქართული"@
    } else if l == "ko"@ {
        "한국어"@
    } else if l == "lt"@ {
        "Lietuvių"@
    } else if l == "lv"@ {
        "Latviešu"@
    } else if l == "mk"@ {
        "Македонски"@
    } else if l == "ms"@ {
        "Bahasa Melayu"@
    } else if l == "nb"@ {
        "Norsk bokmål"@
    } else if l == "nl"@ {
        "Nederlands"@
    } else if l == "nn"@ {
        "Norsk nynorsk"@
    } else if l == "pl"@ {
        "Polski"@
    } else if l == "pt"@ {
        "Português"@
    } else if l == "pt_br"@ {
        "Português (Brasil)"@
    } else if l == "ro"@ {
        "Română"@
    } else if l == "ru"@ {
        "Русский"@
    } else if l == "sk"@ {
        "Slovenčina"@
    } else if l == "sl"@ {
        "Slovenščina"@
    } else if l == "sq"@ {
        "Shqip"@
    } else if l == "sr"@ {
        "Српски"@
    } else if l == "sv"@ {
        "Svenska"@
    } else if l == "th"@ {
        "ภาษาไทย"@
    } else if l == "tr"@ {
        "Türkçe"@
    } else if l == "uk"@ {
        "Українська"@
    } else if l == "vi"@ {
        "Tiếng Việt"@
    } else if l == "zh"@ {
        "中文"@
    } else if l == "zh_cn"@ {
        "中文（简体）"@
    } else if l == "zh_tw"@ {
        "中文（繁體）"@
    } else {
        code
    }
}

fn is_code(l: &[char], lit: &str) -> (r: bool)
    ensures
        r == (l@ == lit@),
{
    eq(l, &chars_of(lit))
}

/// The native display name of the language whose lowercased locale code is `lower`, or
/// `code` itself when the table does not know it.
pub fn native_name_for<'a>(lower: &str, code: &'a str) -> (r: &'a str)
    ensures
        r@ == native_name(lower@, code@),
{
    let l = chars_of(lower);
    if is_code(&l, "af") {
        "Afrikaans"
    } else if is_code(&l, "ar") {
        "العربية"
    } else if is_code(&l, "bg") {
        "Български"
    } else if is_code(&l, "bs") {
        "Bosanski"
    } else if is_code(&l, "ca") {
        "Català"
    } else if is_code(&l, "cs") {
        "Čeština"
    } else if is_code(&l, "cy") {
        "Cymraeg"
    } else if is_code(&l, "da") {
        "Dansk"
    } else if is_code(&l, "de") || is_code(&l, "de_at") || is_code(&l, "de_ch") {
        "Deutsch"
    } else if is_code(&l, "el") {
        "Ελληνικά"
    } else if is_code(&l, "en") || is_code(&l, "en_us") || is_code(&l, "en_gb") {
        "English"
    } else if is_code(&l, "eo") {
        "Esperanto"
    } else if is_code(&l, "es") || is_code(&l, "es_419") {
        "Español"
    } else if is_code(&l, "et") {
        "Eesti"
    } else if is_code(&l, "eu") {
        "Euskara"
    } else if is_code(&l, "fa") {
        "فارسی"
    } else if is_code(&l, "fi") {
        "Suomi"
    } else if is_code(&l, "fr") || is_code(&l, "fr_be") || is_code(&l, "fr_ca") || is_code(&l, "fr_ch") {
        "Français"
    } else if is_code(&l, "ga") {
        "Gaeilge"
    } else if is_code(&l, "gl") {
        "Galego"
    } else if is_code(&l, "he") {
        "עברית"
    } else if is_code(&l, "hi") {
        "हिन्दी"
    } else if is_code(&l, "hr") {
        "Hrvatski"
    } else if is_code(&l, "hu") {
        "Magyar"
    } else if is_code(&l, "hy") {
        "Հայերեն"
    } else if is_code(&l, "id") {
        "Indonesia"
    } else if is_code(&l, "is") {
        "Íslenska"
    } else if is_code(&l, "it") {
        "Italiano"
    } else if is_code(&l, "ja") {
        "日本語"
    } else if is_code(&l, "ka") {
        "ქართული"
    } else if is_code(&l, "ko") {
        "한국어"
    } else if is_code(&l, "lt") {
        "Lietuvių"
    } else if is_code(&l, "lv") {
        "Latviešu"
    } else if is_code(&l, "mk") {
        "Македонски"
    } else if is_code(&l, "ms") {
        "Bahasa Melayu"
    } else if is_code(&l, "nb") {
        "Norsk bokmål"
    } else if is_code(&l, "nl") {
        "Nederlands"
    } else if is_code(&l, "nn") {
        "Norsk nynorsk"
    } else if is_code(&l, "pl") {
        "Polski"
    } else if is_code(&l, "pt") {
        "Português"
    } else if is_code(&l, "pt_br") {
        "Português (Brasil)"
    } else if is_code(&l, "ro") {
        "Română"
    } else if is_code(&l, "ru") {
        "Русский"
    } else if is_code(&l, "sk") {
        "Slovenčina"
    } else if is_code(&l, "sl") {
        "Slovenščina"
    } else if is_code(&l, "sq") {
        "Shqip"
    } else if is_code(&l, "sr") {
        "Српски"
    } else if is_code(&l, "sv") {
        "Svenska"
    } else if is_code(&l, "th") {
        "ภาษาไทย"
    } else if is_code(&l, "tr") {
        "Türkçe"
    } else if is_code(&l, "uk") {
        "Українська"
    } else if is_code(&l, "vi") {
        "Tiếng Việt"
    } else if is_code(&l, "zh") {
        "中文"
    } else if is_code(&l, "zh_cn") {
        "中文（简体）"
    } else if is_code(&l, "zh_tw") {
        "中文（繁體）"
    } else {
        code
    }
}

/// Returns the native display name for a locale code, or the code itself if not recognised.
/// Matching is done on the code lowercased, so `pt_BR` and `pt_br` name the same language.
pub fn language_name<'a>(code: &'a str) -> (r: &'a str)
    ensures
        r@ == native_name(unicode_lowercase(code@), code@),
{
    let lower = lowercase(code);
    native_name_for(lower.as_str(), code)
}

/// A language available for the app: its locale code as stored in the `locale/` directory
/// (e.g. `"de"`, `"pt_br"`) and its native name for a language selector (e.g. `"Deutsch"`).
pub struct LanguageInfo {
    pub code: String,
    pub name: String,
}

impl View for LanguageInfo {
    type V = (Seq<char>, Seq<char>);

    open spec fn view(&self) -> (Seq<char>, Seq<char>) {
        (self.code@, self.name@)
    }
}

pub open spec fn info_views(v: Seq<LanguageInfo>) -> Seq<(Seq<char>, Seq<char>)> {
    v.map_values(|i: LanguageInfo| i@)
}

/// Where `x` goes among `sorted` by name: before the first entry whose name sorts after it,
/// so that entries with equal names keep their order.
pub open spec fn insert_pos(sorted: Seq<(Seq<char>, Seq<char>)>, x: (Seq<char>, Seq<char>), p: int) -> int
    decreases sorted.len() - p,
{
    if p < 0 || p >= sorted.len() {
        sorted.len() as int
    } else if text_lt(x.1, sorted[p].1) {
        p
    } else {
        insert_pos(sorted, x, p + 1)
    }
}

/// The entries sorted by name, stably (`sort_by` on the names).
pub open spec fn sorted_by_name(xs: Seq<(Seq<char>, Seq<char>)>) -> Seq<(Seq<char>, Seq<char>)>
    decreases xs.len(),
{
    if xs.len() == 0 {
        seq![]
    } else {
        let s = sorted_by_name(xs.drop_last());
        s.insert(insert_pos(s, xs.last(), 0), xs.last())
    }
}

/// The languages other than English among `locales`, each with its native name, in order.
pub open spec fn other_languages(locales: Seq<Seq<char>>) -> Seq<(Seq<char>, Seq<char>)>
    decreases locales.len(),
{
    if locales.len() == 0 {
        seq![]
    } else if locales.last() == "en"@ {
        other_languages(locales.drop_last())
    } else {
        other_languages(locales.drop_last()).push(
            (locales.last(), native_name(unicode_lowercase(locales.last()), locales.last())),
        )
    }
}

/// The languages offered for `locales`: English first, then the others sorted by native name.
pub open spec fn available_spec(locales: Seq<Seq<char>>) -> Seq<(Seq<char>, Seq<char>)> {
    seq![("en"@, "English"@)] + sorted_by_name(other_languages(locales))
}

proof fn lemma_insert_pos(sorted: Seq<(Seq<char>, Seq<char>)>, x: (Seq<char>, Seq<char>), p: int)
    requires
        0 <= p <= sorted.len(),
    ensures
        p <= insert_pos(sorted, x, p) <= sorted.len(),
    decreases sorted.len() - p,
{
    if p < sorted.len() && !text_lt(x.1, sorted[p].1) {
        lemma_insert_pos(sorted, x, p + 1);
    }
}

fn copy_info(x: &LanguageInfo) -> (r: LanguageInfo)
    ensures
        r@ == x@,
{
    LanguageInfo { code: x.code.clone(), name: x.name.clone() }
}

/// Manages runtime language selection for a patois domain.
pub struct LanguageManager {
    domain: String,
}

impl LanguageManager {
    pub closed spec fn domain_spec(&self) -> Seq<char> {
        self.domain@
    }

    /// A manager for the given domain.
    pub fn new(domain: &str) -> (r: Self)
        ensures
            r.domain_spec() == domain@,
    {
        LanguageManager { domain: string_of(&chars_of(domain)) }
    }

    /// The domain the manager selects languages for.
    pub fn domain(&self) -> (r: &str)
        ensures
            r@ == self.domain_spec(),
    {
        self.domain.as_str()
    }

    /// All the languages available, given the locale codes the domain has catalogs for:
    /// English always first, then the rest sorted by native name.
    pub fn available(&self, locales: &[String]) -> (r: Vec<LanguageInfo>)
        ensures
            info_views(r@) == available_spec(string_views(locales@)),
    {
        let ghost ls = string_views(locales@);
        let mut others: Vec<LanguageInfo> = Vec::new();
        let mut i: usize = 0;
        let en = chars_of("en");
        while i < locales.len()
            invariant
                i <= locales.len(),
                ls == string_views(locales@),
                en@ == "en"@,
                info_views(others@) == other_languages(ls.take(i as int)),
            decreases locales.len() - i,
        {
            let code = locales[i].as_str();
            assert(ls.take(i + 1).drop_last() =~= ls.take(i as int));
            assert(ls.take(i + 1).last() == code@);
            if !eq(&chars_of(code), &en) {
                let ghost before = others@;
                let name = string_of(&chars_of(language_name(code)));
                others.push(LanguageInfo { code: string_of(&chars_of(code)), name });
                assert(info_views(others@) =~= info_views(before).push(
                    (code@, native_name(unicode_lowercase(code@), code@)),
                ));
            }
            i = i + 1;
        }
        assert(ls.take(i as int) =~= ls);
        let ghost os = info_views(others@);
        let mut sorted: Vec<LanguageInfo> = Vec::new();
        let mut k: usize = 0;
        while k < others.len()
            invariant
                k <= others.len(),
                os == info_views(others@),
                info_views(sorted@) == sorted_by_name(os.take(k as int)),
            decreases others.len() - k,
        {
            let x = copy_info(&others[k]);
            assert(os.take(k + 1).drop_last() =~= os.take(k as int));
            assert(os.take(k + 1).last() == x@);
            let ghost s = info_views(sorted@);
            let xn = chars_of(x.name.as_str());
            let mut p: usize = 0;
            while p < sorted.len() && !text_lt_exec(&xn, &chars_of(sorted[p].name.as_str()))
                invariant
                    p <= sorted.len(),
                    s == info_views(sorted@),
                    xn@ == x@.1,
                    insert_pos(s, x@, 0) == insert_pos(s, x@, p as int),
                decreases sorted.len() - p,
            {
                p = p + 1;
            }
            proof {
                lemma_insert_pos(s, x@, 0);
            }
            sorted.insert(p, x);
            assert(info_views(sorted@) =~= s.insert(p as int, x@));
            k = k + 1;
        }
        assert(os.take(k as int) =~= os);
        let mut out: Vec<LanguageInfo> = Vec::new();
        out.push(LanguageInfo { code: string_of(&chars_of("en")), name: string_of(&chars_of("English")) });
        let mut q: usize = 0;
        let ghost srt = info_views(sorted@);
        while q < sorted.len()
            invariant
                q <= sorted.len(),
                srt == info_views(sorted@),
                info_views(out@) == seq![("en"@, "English"@)] + srt.take(q as int),
            decreases sorted.len() - q,
        {
            let ghost before = out@;
            out.push(copy_info(&sorted[q]));
            assert(info_views(out@) =~= info_views(before).push(srt[q as int]));
            q = q + 1;
            assert(info_views(out@) =~= seq![("en"@, "English"@)] + srt.take(q as int));
        }
        assert(srt.take(q as int) =~= srt);
        out
    }

    /// The active locale code.
    pub fn current(&self, reg: &Registry) -> (r: String)
        ensures
            r@ == reg@.locale,
    {
        string_of(&chars_of(reg.locale()))
    }

    /// Switches to `code` when it is English or among `locales`, the codes the domain has
    /// catalogs for; `false`, and nothing changed, otherwise.
    pub fn set(&self, reg: &mut Registry, code: &str, locales: &[String]) -> (r: bool)
        ensures
            r == (code@ == "en"@ || string_views(locales@).contains(code@)),
            r ==> (if old(reg)@.locale == normalized_locale(code@) {
                final(reg)@ == old(reg)@
            } else {
                final(reg)@ == (RegistryView {
                    locale: normalized_locale(code@),
                    cache: Map::empty(),
                    ..old(reg)@
                })
            }),
            !r ==> final(reg)@ == old(reg)@,
    {
        let cv = chars_of(code);
        let mut ok = eq(&cv, &chars_of("en"));
        let mut i: usize = 0;
        while !ok && i < locales.len()
            invariant
                i <= locales.len(),
                cv@ == code@,
                ok == (code@ == "en"@ || exists|j: int| 0 <= j < i && string_views(locales@)[j] == code@),
            decreases locales.len() - i,
        {
            assert(string_views(locales@)[i as int] == locales@[i as int]@);
            if eq(&chars_of(locales[i].as_str()), &cv) {
                ok = true;
            }
            i = i + 1;
        }
        if ok {
            reg.set_locale(code);
        }
        ok
    }

    /// The system's preferred locale, as detected, falling back to `"en"`.
    pub fn system_language(detected: Option<&str>) -> (r: String)
        ensures
            r@ == (match detected {
                Some(d) => d@,
                None => "en"@,
            }),
    {
        match detected {
            Some(d) => string_of(&chars_of(d)),
            None => string_of(&chars_of("en")),
        }
    }
}

/// Whether the entries come in order of name: none sorts before one ahead of it.
pub open spec fn name_sorted(xs: Seq<(Seq<char>, Seq<char>)>) -> bool {
    forall|i: int, j: int| 0 <= i < j < xs.len() ==> !text_lt(#[trigger] xs[j].1, #[trigger] xs[i].1)
}

proof fn lemma_insert_pos_facts(s: Seq<(Seq<char>, Seq<char>)>, x: (Seq<char>, Seq<char>), p: int)
    requires
        0 <= p <= s.len(),
        forall|k: int| 0 <= k < p ==> !text_lt(x.1, #[trigger] s[k].1),
    ensures
        forall|k: int| 0 <= k < insert_pos(s, x, p) ==> !text_lt(x.1, #[trigger] s[k].1),
        insert_pos(s, x, p) < s.len() ==> text_lt(x.1, s[insert_pos(s, x, p)].1),
        p <= insert_pos(s, x, p) <= s.len(),
    decreases s.len() - p,
{
    if p < s.len() && !text_lt(x.1, s[p].1) {
        lemma_insert_pos_facts(s, x, p + 1);
    }
}

proof fn lemma_sorted_by_name(xs: Seq<(Seq<char>, Seq<char>)>)
    ensures
        name_sorted(sorted_by_name(xs)),
        sorted_by_name(xs).len() == xs.len(),
    decreases xs.len(),
{
    if xs.len() > 0 {
        let s = sorted_by_name(xs.drop_last());
        let x = xs.last();
        lemma_sorted_by_name(xs.drop_last());
        lemma_insert_pos_facts(s, x, 0);
        let p = insert_pos(s, x, 0);
        let r = s.insert(p, x);
        assert forall|i: int, j: int| 0 <= i < j < r.len() implies !text_lt(
            #[trigger] r[j].1,
            #[trigger] r[i].1,
        ) by {
            if j < p {
                assert(r[i] == s[i] && r[j] == s[j]);
            } else if j == p {
                assert(r[i] == s[i]);
                assert(r[j] == x);
            } else if i < p {
                assert(r[i] == s[i]);
                assert(r[j] == s[j - 1]);
            } else if i == p {
                assert(r[i] == x);
                assert(r[j] == s[j - 1]);
                if text_lt(s[j - 1].1, x.1) {
                    lemma_text_lt_transitive(s[j - 1].1, x.1, s[p].1);
                    if j - 1 > p {
                        assert(!text_lt(s[j - 1].1, s[p].1));
                    }
                    lemma_text_lt_irreflexive(s[p].1);
                }
            } else {
                assert(r[i] == s[i - 1]);
                assert(r[j] == s[j - 1]);
            }
        }
    }
}

proof fn lemma_text_lt_irreflexive(a: Seq<char>)
    ensures
        !text_lt(a, a),
    decreases a.len(),
{
    if a.len() > 0 {
        lemma_text_lt_irreflexive(a.skip(1));
    }
}

/// English always comes first among the languages offered, and the rest come sorted by their
/// native names.
pub proof fn law_available_order(locales: Seq<Seq<char>>)
    ensures
        available_spec(locales)[0] == ("en"@, "English"@),
        name_sorted(available_spec(locales).skip(1)),
{
    lemma_sorted_by_name(other_languages(locales));
    assert(available_spec(locales).skip(1) =~= sorted_by_name(other_languages(locales)));
}


/// The native name of each language the table knows, by its code in any case: the name a
/// speaker of the language writes it with (regional variants of a language sharing its name,
/// Simplified and Traditional Chinese told apart); any other code is its own name.
pub proof fn law_native_names_by_code(code: Seq<char>)
    ensures
        unicode_lowercase(code) == "af"@ ==> native_name(unicode_lowercase(code), code) == "Afrikaans"@,
        unicode_lowercase(code) == "ar"@ ==> native_name(unicode_lowercase(code), code) == "العربية"@,
        unicode_lowercase(code) == "bg"@ ==> native_name(unicode_lowercase(code), code) == "Български"@,
        unicode_lowercase(code) == "bs"@ ==> native_name(unicode_lowercase(code), code) == "Bosanski"@,
        unicode_lowercase(code) == "ca"@ ==> native_name(unicode_lowercase(code), code) == "Català"@,
        unicode_lowercase(code) == "cs"@ ==> native_name(unicode_lowercase(code), code) == "Čeština"@,
        unicode_lowercase(code) == "cy"@ ==> native_name(unicode_lowercase(code), code) == "Cymraeg"@,
        unicode_lowercase(code) == "da"@ ==> native_name(unicode_lowercase(code), code) == "Dansk"@,
        unicode_lowercase(code) == "de"@ ==> native_name(unicode_lowercase(code), code) == "Deutsch"@,
        unicode_lowercase(code) == "de_at"@ ==> native_name(unicode_lowercase(code), code) == "Deutsch"@,
        unicode_lowercase(code) == "de_ch"@ ==> native_name(unicode_lowercase(code), code) == "Deutsch"@,
        unicode_lowercase(code) == "el"@ ==> native_name(unicode_lowercase(code), code) == "Ελληνικά"@,
        unicode_lowercase(code) == "en"@ ==> native_name(unicode_lowercase(code), code) == "English"@,
        unicode_lowercase(code) == "en_us"@ ==> native_name(unicode_lowercase(code), code) == "English"@,
        unicode_lowercase(code) == "en_gb"@ ==> native_name(unicode_lowercase(code), code) == "English"@,
        unicode_lowercase(code) == "eo"@ ==> native_name(unicode_lowercase(code), code) == "Esperanto"@,
        unicode_lowercase(code) == "es"@ ==> native_name(unicode_lowercase(code), code) == "Español"@,
        unicode_lowercase(code) == "es_419"@ ==> native_name(unicode_lowercase(code), code) == "Español"@,
        unicode_lowercase(code) == "et"@ ==> native_name(unicode_lowercase(code), code) == "Eesti"@,
        unicode_lowercase(code) == "eu"@ ==> native_name(unicode_lowercase(code), code) == "Euskara"@,
        unicode_lowercase(code) == "fa"@ ==> native_name(unicode_lowercase(code), code) == "فارسی"@,
        unicode_lowercase(code) == "fi"@ ==> native_name(unicode_lowercase(code), code) == "Suomi"@,
        unicode_lowercase(code) == "fr"@ ==> native_name(unicode_lowercase(code), code) == "Français"@,
        unicode_lowercase(code) == "fr_be"@ ==> native_name(unicode_lowercase(code), code) == "Français"@,
        unicode_lowercase(code) == "fr_ca"@ ==> native_name(unicode_lowercase(code), code) == "Français"@,
        unicode_lowercase(code) == "fr_ch"@ ==> native_name(unicode_lowercase(code), code) == "Français"@,
        unicode_lowercase(code) == "ga"@ ==> native_name(unicode_lowercase(code), code) == "Gaeilge"@,
        unicode_lowercase(code) == "gl"@ ==> native_name(unicode_lowercase(code), code) == "Galego"@,
        unicode_lowercase(code) == "he"@ ==> native_name(unicode_lowercase(code), code) == "עברית"@,
        unicode_lowercase(code) == "hi"@ ==> native_name(unicode_lowercase(code), code) == "हिन्दी"@,
        unicode_lowercase(code) == "hr"@ ==> native_name(unicode_lowercase(code), code) == "Hrvatski"@,
        unicode_lowercase(code) == "hu"@ ==> native_name(unicode_lowercase(code), code) == "Magyar"@,
        unicode_lowercase(code) == "hy"@ ==> native_name(unicode_lowercase(code), code) == "Հայերեն"@,
        unicode_lowercase(code) == "id"@ ==> native_name(unicode_lowercase(code), code) == "Indonesia"@,
        unicode_lowercase(code) == "is"@ ==> native_name(unicode_lowercase(code), code) == "Íslenska"@,
        unicode_lowercase(code) == "it"@ ==> native_name(unicode_lowercase(code), code) == "Italiano"@,
        unicode_lowercase(code) == "ja"@ ==> native_name(unicode_lowercase(code), code) == "日本語"@,
        unicode_lowercase(code) == "ka"@ ==> native_name(unicode_lowercase(code), code) == "ქართული"@,
        unicode_lowercase(code) == "ko"@ ==> native_name(unicode_lowercase(code), code) == "한국어"@,
        unicode_lowercase(code) == "lt"@ ==> native_name(unicode_lowercase(code), code) == "Lietuvių"@,
        unicode_lowercase(code) == "lv"@ ==> native_name(unicode_lowercase(code), code) == "Latviešu"@,
        unicode_lowercase(code) == "mk"@ ==> native_name(unicode_lowercase(code), code) == "Македонски"@,
        unicode_lowercase(code) == "ms"@ ==> native_name(unicode_lowercase(code), code) == "Bahasa Melayu"@,
        unicode_lowercase(code) == "nb"@ ==> native_name(unicode_lowercase(code), code) == "Norsk bokmål"@,
        unicode_lowercase(code) == "nl"@ ==> native_name(unicode_lowercase(code), code) == "Nederlands"@,
        unicode_lowercase(code) == "nn"@ ==> native_name(unicode_lowercase(code), code) == "Norsk nynorsk"@,
        unicode_lowercase(code) == "pl"@ ==> native_name(unicode_lowercase(code), code) == "Polski"@,
        unicode_lowercase(code) == "pt"@ ==> native_name(unicode_lowercase(code), code) == "Português"@,
        unicode_lowercase(code) == "pt_br"@ ==> native_name(unicode_lowercase(code), code) == "Português (Brasil)"@,
        unicode_lowercase(code) == "ro"@ ==> native_name(unicode_lowercase(code), code) == "Română"@,
        unicode_lowercase(code) == "ru"@ ==> native_name(unicode_lowercase(code), code) == "Русский"@,
        unicode_lowercase(code) == "sk"@ ==> native_name(unicode_lowercase(code), code) == "Slovenčina"@,
        unicode_lowercase(code) == "sl"@ ==> native_name(unicode_lowercase(code), code) == "Slovenščina"@,
        unicode_lowercase(code) == "sq"@ ==> native_name(unicode_lowercase(code), code) == "Shqip"@,
        unicode_lowercase(code) == "sr"@ ==> native_name(unicode_lowercase(code), code) == "Српски"@,
        unicode_lowercase(code) == "sv"@ ==> native_name(unicode_lowercase(code), code) == "Svenska"@,
        unicode_lowercase(code) == "th"@ ==> native_name(unicode_lowercase(code), code) == "ภาษาไทย"@,
        unicode_lowercase(code) == "tr"@ ==> native_name(unicode_lowercase(code), code) == "Türkçe"@,
        unicode_lowercase(code) == "uk"@ ==> native_name(unicode_lowercase(code), code) == "Українська"@,
        unicode_lowercase(code) == "vi"@ ==> native_name(unicode_lowercase(code), code) == "Tiếng Việt"@,
        unicode_lowercase(code) == "zh"@ ==> native_name(unicode_lowercase(code), code) == "中文"@,
        unicode_lowercase(code) == "zh_cn"@ ==> native_name(unicode_lowercase(code), code) == "中文（简体）"@,
        unicode_lowercase(code) == "zh_tw"@ ==> native_name(unicode_lowercase(code), code) == "中文（繁體）"@,
        !(unicode_lowercase(code) == "af"@ || unicode_lowercase(code) == "ar"@ || unicode_lowercase(code) == "bg"@ || unicode_lowercase(code) == "bs"@ || unicode_lowercase(code) == "ca"@ || unicode_lowercase(code) == "cs"@ || unicode_lowercase(code) == "cy"@ || unicode_lowercase(code) == "da"@ || unicode_lowercase(code) == "de"@ || unicode_lowercase(code) == "de_at"@ || unicode_lowercase(code) == "de_ch"@ || unicode_lowercase(code) == "el"@ || unicode_lowercase(code) == "en"@ || unicode_lowercase(code) == "en_us"@ || unicode_lowercase(code) == "en_gb"@ || unicode_lowercase(code) == "eo"@ || unicode_lowercase(code) == "es"@ || unicode_lowercase(code) == "es_419"@ || unicode_lowercase(code) == "et"@ || unicode_lowercase(code) == "eu"@ || unicode_lowercase(code) == "fa"@ || unicode_lowercase(code) == "fi"@ || unicode_lowercase(code) == "fr"@ || unicode_lowercase(code) == "fr_be"@ || unicode_lowercase(code) == "fr_ca"@ || unicode_lowercase(code) == "fr_ch"@ || unicode_lowercase(code) == "ga"@ || unicode_lowercase(code) == "gl"@ || unicode_lowercase(code) == "he"@ || unicode_lowercase(code) == "hi"@ || unicode_lowercase(code) == "hr"@ || unicode_lowercase(code) == "hu"@ || unicode_lowercase(code) == "hy"@ || unicode_lowercase(code) == "id"@ || unicode_lowercase(code) == "is"@ || unicode_lowercase(code) == "it"@ || unicode_lowercase(code) == "ja"@ || unicode_lowercase(code) == "ka"@ || unicode_lowercase(code) == "ko"@ || unicode_lowercase(code) == "lt"@ || unicode_lowercase(code) == "lv"@ || unicode_lowercase(code) == "mk"@ || unicode_lowercase(code) == "ms"@ || unicode_lowercase(code) == "nb"@ || unicode_lowercase(code) == "nl"@ || unicode_lowercase(code) == "nn"@ || unicode_lowercase(code) == "pl"@ || unicode_lowercase(code) == "pt"@ || unicode_lowercase(code) == "pt_br"@ || unicode_lowercase(code) == "ro"@ || unicode_lowercase(code) == "ru"@ || unicode_lowercase(code) == "sk"@ || unicode_lowercase(code) == "sl"@ || unicode_lowercase(code) == "sq"@ || unicode_lowercase(code) == "sr"@ || unicode_lowercase(code) == "sv"@ || unicode_lowercase(code) == "th"@ || unicode_lowercase(code) == "tr"@ || unicode_lowercase(code) == "uk"@ || unicode_lowercase(code) == "vi"@ || unicode_lowercase(code) == "zh"@ || unicode_lowercase(code) == "zh_cn"@ || unicode_lowercase(code) == "zh_tw"@) ==> native_name(
            unicode_lowercase(code),
            code,
        ) == code,
{
    reveal_strlit("af");
    reveal_strlit("ar");
    reveal_strlit("bg");
    reveal_strlit("bs");
    reveal_strlit("ca");
    reveal_strlit("cs");
    reveal_strlit("cy");
    reveal_strlit("da");
    reveal_strlit("de");
    reveal_strlit("de_at");
    reveal_strlit("de_ch");
    reveal_strlit("el");
    reveal_strlit("en");
    reveal_strlit("en_us");
    reveal_strlit("en_gb");
    reveal_strlit("eo");
    reveal_strlit("es");
    reveal_strlit("es_419");
    reveal_strlit("et");
    reveal_strlit("eu");
    reveal_strlit("fa");
    reveal_strlit("fi");
    reveal_strlit("fr");
    reveal_strlit("fr_be");
    reveal_strlit("fr_ca");
    reveal_strlit("fr_ch");
    reveal_strlit("ga");
    reveal_strlit("gl");
    reveal_strlit("he");
    reveal_strlit("hi");
    reveal_strlit("hr");
    reveal_strlit("hu");
    reveal_strlit("hy");
    reveal_strlit("id");
    reveal_strlit("is");
    reveal_strlit("it");
    reveal_strlit("ja");
    reveal_strlit("ka");
    reveal_strlit("ko");
    reveal_strlit("lt");
    reveal_strlit("lv");
    reveal_strlit("mk");
    reveal_strlit("ms");
    reveal_strlit("nb");
    reveal_strlit("nl");
    reveal_strlit("nn");
    reveal_strlit("pl");
    reveal_strlit("pt");
    reveal_strlit("pt_br");
    reveal_strlit("ro");
    reveal_strlit("ru");
    reveal_strlit("sk");
    reveal_strlit("sl");
    reveal_strlit("sq");
    reveal_strlit("sr");
    reveal_strlit("sv");
    reveal_strlit("th");
    reveal_strlit("tr");
    reveal_strlit("uk");
    reveal_strlit("vi");
    reveal_strlit("zh");
    reveal_strlit("zh_cn");
    reveal_strlit("zh_tw");
    let l = unicode_lowercase(code);
    if l == "af"@ {
        assert(l.len() == 2 && l[0] == 'a' && l[1] == 'f');
    }
    if l == "ar"@ {
        assert(l.len() == 2 && l[0] == 'a' && l[1] == 'r');
    }
    if l == "bg"@ {
        assert(l.len() == 2 && l[0] == 'b' && l[1] == 'g');
    }
    if l == "bs"@ {
        assert(l.len() == 2 && l[0] == 'b' && l[1] == 's');
    }
    if l == "ca"@ {
        assert(l.len() == 2 && l[0] == 'c' && l[1] == 'a');
    }
    if l == "cs"@ {
        assert(l.len() == 2 && l[0] == 'c' && l[1] == 's');
    }
    if l == "cy"@ {
        assert(l.len() == 2 && l[0] == 'c' && l[1] == 'y');
    }
    if l == "da"@ {
        assert(l.len() == 2 && l[0] == 'd' && l[1] == 'a');
    }
    if l == "de"@ {
        assert(l.len() == 2 && l[0] == 'd' && l[1] == 'e');
    }
    if l == "de_at"@ {
        assert(l.len() == 5 && l[0] == 'd' && l[1] == 'e' && l[2] == '_' && l[3] == 'a' && l[4] == 't');
    }
    if l == "de_ch"@ {
        assert(l.len() == 5 && l[0] == 'd' && l[1] == 'e' && l[2] == '_' && l[3] == 'c' && l[4] == 'h');
    }
    if l == "el"@ {
        assert(l.len() == 2 && l[0] == 'e' && l[1] == 'l');
    }
    if l == "en"@ {
        assert(l.len() == 2 && l[0] == 'e' && l[1] == 'n');
    }
    if l == "en_us"@ {
        assert(l.len() == 5 && l[0] == 'e' && l[1] == 'n' && l[2] == '_' && l[3] == 'u' && l[4] == 's');
    }
    if l == "en_gb"@ {
        assert(l.len() == 5 && l[0] == 'e' && l[1] == 'n' && l[2] == '_' && l[3] == 'g' && l[4] == 'b');
    }
    if l == "eo"@ {
        assert(l.len() == 2 && l[0] == 'e' && l[1] == 'o');
    }
    if l == "es"@ {
        assert(l.len() == 2 && l[0] == 'e' && l[1] == 's');
    }
    if l == "es_419"@ {
        assert(l.len() == 6 && l[0] == 'e' && l[1] == 's' && l[2] == '_' && l[3] == '4' && l[4] == '1' && l[5] == '9');
    }
    if l == "et"@ {
        assert(l.len() == 2 && l[0] == 'e' && l[1] == 't');
    }
    if l == "eu"@ {
        assert(l.len() == 2 && l[0] == 'e' && l[1] == 'u');
    }
    if l == "fa"@ {
        assert(l.len() == 2 && l[0] == 'f' && l[1] == 'a');
    }
    if l == "fi"@ {
        assert(l.len() == 2 && l[0] == 'f' && l[1] == 'i');
    }
    if l == "fr"@ {
        assert(l.len() == 2 && l[0] == 'f' && l[1] == 'r');
    }
    if l == "fr_be"@ {
        assert(l.len() == 5 && l[0] == 'f' && l[1] == 'r' && l[2] == '_' && l[3] == 'b' && l[4] == 'e');
    }
    if l == "fr_ca"@ {
        assert(l.len() == 5 && l[0] == 'f' && l[1] == 'r' && l[2] == '_' && l[3] == 'c' && l[4] == 'a');
    }
    if l == "fr_ch"@ {
        assert(l.len() == 5 && l[0] == 'f' && l[1] == 'r' && l[2] == '_' && l[3] == 'c' && l[4] == 'h');
    }
    if l == "ga"@ {
        assert(l.len() == 2 && l[0] == 'g' && l[1] == 'a');
    }
    if l == "gl"@ {
        assert(l.len() == 2 && l[0] == 'g' && l[1] == 'l');
    }
    if l == "he"@ {
        assert(l.len() == 2 && l[0] == 'h' && l[1] == 'e');
    }
    if l == "hi"@ {
        assert(l.len() == 2 && l[0] == 'h' && l[1] == 'i');
    }
    if l == "hr"@ {
        assert(l.len() == 2 && l[0] == 'h' && l[1] == 'r');
    }
    if l == "hu"@ {
        assert(l.len() == 2 && l[0] == 'h' && l[1] == 'u');
    }
    if l == "hy"@ {
        assert(l.len() == 2 && l[0] == 'h' && l[1] == 'y');
    }
    if l == "id"@ {
        assert(l.len() == 2 && l[0] == 'i' && l[1] == 'd');
    }
    if l == "is"@ {
        assert(l.len() == 2 && l[0] == 'i' && l[1] == 's');
    }
    if l == "it"@ {
        assert(l.len() == 2 && l[0] == 'i' && l[1] == 't');
    }
    if l == "ja"@ {
        assert(l.len() == 2 && l[0] == 'j' && l[1] == 'a');
    }
    if l == "ka"@ {
        assert(l.len() == 2 && l[0] == 'k' && l[1] == 'a');
    }
    if l == "ko"@ {
        assert(l.len() == 2 && l[0] == 'k' && l[1] == 'o');
    }
    if l == "lt"@ {
        assert(l.len() == 2 && l[0] == 'l' && l[1] == 't');
    }
    if l == "lv"@ {
        assert(l.len() == 2 && l[0] == 'l' && l[1] == 'v');
    }
    if l == "mk"@ {
        assert(l.len() == 2 && l[0] == 'm' && l[1] == 'k');
    }
    if l == "ms"@ {
        assert(l.len() == 2 && l[0] == 'm' && l[1] == 's');
    }
    if l == "nb"@ {
        assert(l.len() == 2 && l[0] == 'n' && l[1] == 'b');
    }
    if l == "nl"@ {
        assert(l.len() == 2 && l[0] == 'n' && l[1] == 'l');
    }
    if l == "nn"@ {
        assert(l.len() == 2 && l[0] == 'n' && l[1] == 'n');
    }
    if l == "pl"@ {
        assert(l.len() == 2 && l[0] == 'p' && l[1] == 'l');
    }
    if l == "pt"@ {
        assert(l.len() == 2 && l[0] == 'p' && l[1] == 't');
    }
    if l == "pt_br"@ {
        assert(l.len() == 5 && l[0] == 'p' && l[1] == 't' && l[2] == '_' && l[3] == 'b' && l[4] == 'r');
    }
    if l == "ro"@ {
        assert(l.len() == 2 && l[0] == 'r' && l[1] == 'o');
    }
    if l == "ru"@ {
        assert(l.len() == 2 && l[0] == 'r' && l[1] == 'u');
    }
    if l == "sk"@ {
        assert(l.len() == 2 && l[0] == 's' && l[1] == 'k');
    }
    if l == "sl"@ {
        assert(l.len() == 2 && l[0] == 's' && l[1] == 'l');
    }
    if l == "sq"@ {
        assert(l.len() == 2 && l[0] == 's' && l[1] == 'q');
    }
    if l == "sr"@ {
        assert(l.len() == 2 && l[0] == 's' && l[1] == 'r');
    }
    if l == "sv"@ {
        assert(l.len() == 2 && l[0] == 's' && l[1] == 'v');
    }
    if l == "th"@ {
        assert(l.len() == 2 && l[0] == 't' && l[1] == 'h');
    }
    if l == "tr"@ {
        assert(l.len() == 2 && l[0] == 't' && l[1] == 'r');
    }
    if l == "uk"@ {
        assert(l.len() == 2 && l[0] == 'u' && l[1] == 'k');
    }
    if l == "vi"@ {
        assert(l.len() == 2 && l[0] == 'v' && l[1] == 'i');
    }
    if l == "zh"@ {
        assert(l.len() == 2 && l[0] == 'z' && l[1] == 'h');
    }
    if l == "zh_cn"@ {
        assert(l.len() == 5 && l[0] == 'z' && l[1] == 'h' && l[2] == '_' && l[3] == 'c' && l[4] == 'n');
    }
    if l == "zh_tw"@ {
        assert(l.len() == 5 && l[0] == 'z' && l[1] == 'h' && l[2] == '_' && l[3] == 't' && l[4] == 'w');
    }
}

} // verus!
