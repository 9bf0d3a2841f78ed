//! Interface language selection: which shipped language to use at startup
//! (saved choice, then the OS language, then English) and the native name of
//! each language for the picker.

use vstd::prelude::*;
use crate::text::{chars_of, str_eq, string_of, trim_range, trimmed};

verus! {

/// Languages shipped with the app, in display order: (code, native name).
pub const LANGUAGES: [(&'static str, &'static str); 5] = [
    ("en", "English"),
    ("it", "Italiano"),
    ("es", "Español"),
    ("fr", "Français"),
    ("de", "Deutsch"),
];

/// Fallback language.
pub const DEFAULT_LANG: &'static str = "en";

/// Whether `code` is the code of a shipped language.
pub open spec fn supported(code: Seq<char>) -> bool {
    exists|i: int| 0 <= i < 5 && (#[trigger] LANGUAGES[i]).0@ == code
}

/// The native name of a language code; English for an unknown code.
pub open spec fn language_name(code: Seq<char>) -> Seq<char> {
    if exists|i: int| 0 <= i < 5 && (#[trigger] LANGUAGES[i]).0@ == code {
        LANGUAGES[choose|i: int| 0 <= i < 5 && (#[trigger] LANGUAGES[i]).0@ == code].1@
    } else {
        "English"@
    }
}

/// The language codes are pairwise different, so a code names one language.
pub proof fn lemma_codes_distinct()
    ensures
        forall|i: int, j: int|
            0 <= i < 5 && 0 <= j < 5 && i != j ==> (#[trigger] LANGUAGES[i]).0@ != (#[trigger] LANGUAGES[j]).0@,
{
    reveal_strlit("en");
    reveal_strlit("it");
    reveal_strlit("es");
    reveal_strlit("fr");
    reveal_strlit("de");
    assert("en"@[0] == 'e' && "it"@[0] == 'i' && "es"@[0] == 'e' && "fr"@[0] == 'f' && "de"@[0] == 'd');
    assert("en"@[1] == 'n' && "es"@[1] == 's');
}

/// Whether `code` is the code of a shipped language.
pub fn is_supported(code: &str) -> (r: bool)
    ensures
        r == supported(code@),
{
    let mut i: usize = 0;
    while i < 5
        invariant
            i <= 5,
            forall|j: int| 0 <= j < i ==> (#[trigger] LANGUAGES[j]).0@ != code@,
        decreases 5 - i,
    {
        let (c, _) = LANGUAGES[i];
        if str_eq(c, code) {
            return true;
        }
        i = i + 1;
    }
    false
}

/// Native display name for a language code, for the language picker.
pub fn display_name(code: &str) -> (r: &'static str)
    ensures
        r@ == language_name(code@),
{
    let mut i: usize = 0;
    while i < 5
        invariant
            i <= 5,
            forall|j: int| 0 <= j < i ==> (#[trigger] LANGUAGES[j]).0@ != code@,
        decreases 5 - i,
    {
        let (c, name) = LANGUAGES[i];
        if str_eq(c, code) {
            proof {
                lemma_codes_distinct();
                let k = choose|k: int| 0 <= k < 5 && (#[trigger] LANGUAGES[k]).0@ == code@;
                assert(k == i);
            }
            return name;
        }
        i = i + 1;
    }
    "English"
}

/// What `str::to_lowercase` makes of a string (full Unicode case mapping).
pub uninterp spec fn unicode_lowercase(s: Seq<char>) -> Seq<char>;

/// `str::to_lowercase`.
#[verifier::external_body]
fn lowercase(s: &str) -> (r: String)
    ensures
        r@ == unicode_lowercase(s@),
{
    s.to_lowercase()
}

/// The part of a locale tag before its first `-` or `_` (the whole tag when
/// there is none).
pub open spec fn primary_subtag(tag: Seq<char>) -> Seq<char>
    decreases tag.len(),
{
    if tag.len() == 0 {
        tag
    } else if tag.last() == '-' || tag.last() == '_' {
        primary_subtag(tag.drop_last())
    } else if tag.drop_last().contains('-') || tag.drop_last().contains('_') {
        primary_subtag(tag.drop_last())
    } else {
        tag
    }
}

/// The shipped language named by a lower-cased locale tag, else English.
pub open spec fn language_of_tag(lower: Seq<char>) -> Seq<char> {
    if supported(primary_subtag(lower)) {
        primary_subtag(lower)
    } else {
        DEFAULT_LANG@
    }
}

proof fn lemma_primary_prefix(tag: Seq<char>, k: int)
    requires
        0 <= k <= tag.len(),
        forall|j: int| 0 <= j < k ==> tag[j] != '-' && tag[j] != '_',
        k == tag.len() || tag[k] == '-' || tag[k] == '_',
    ensures
        primary_subtag(tag) == tag.take(k),
    decreases tag.len(),
{
    if tag.len() == 0 {
        assert(tag.take(k) =~= tag);
    } else if k == tag.len() {
        assert(!tag.drop_last().contains('-')) by {
            if tag.drop_last().contains('-') {
                let j = choose|j: int| 0 <= j < tag.drop_last().len() && tag.drop_last()[j] == '-';
                assert(tag[j] == '-');
            }
        }
        assert(!tag.drop_last().contains('_')) by {
            if tag.drop_last().contains('_') {
                let j = choose|j: int| 0 <= j < tag.drop_last().len() && tag.drop_last()[j] == '_';
                assert(tag[j] == '_');
            }
        }
        assert(tag.take(k) =~= tag);
    } else {
        let d = tag.drop_last();
        if k == tag.len() - 1 {
            assert(tag.last() == '-' || tag.last() == '_');
            lemma_primary_prefix(d, k);
        } else {
            assert(d[k] == tag[k]);
            assert(d.contains(d[k]));
            lemma_primary_prefix(d, k);
        }
        assert(d.take(k) =~= tag.take(k));
    }
}

/// The language for a lower-cased locale tag such as `it-it`: its primary
/// subtag when that is a shipped language, else English.
pub fn language_from_locale(lower: &str) -> (r: String)
    ensures
        r@ == language_of_tag(lower@),
{
    let cs = chars_of(lower);
    let mut k: usize = 0;
    while k < cs.len() && cs[k] != '-' && cs[k] != '_'
        invariant
            k <= cs@.len(),
            cs@ == lower@,
            forall|j: int| 0 <= j < k ==> cs@[j] != '-' && cs@[j] != '_',
        decreases cs@.len() - k,
    {
        k = k + 1;
    }
    proof {
        lemma_primary_prefix(cs@, k as int);
    }
    let mut head: Vec<char> = Vec::new();
    let mut i: usize = 0;
    while i < k
        invariant
            i <= k <= cs@.len(),
            head@ == cs@.take(i as int),
        decreases k - i,
    {
        head.push(cs[i]);
        proof {
            assert(cs@.take(i + 1) =~= cs@.take(i as int).push(cs@[i as int]));
        }
        i = i + 1;
    }
    let code = string_of(&head);
    if is_supported(code.as_str()) {
        code
    } else {
        String::from_str(DEFAULT_LANG)
    }
}

/// The OS interface language restricted to the shipped ones: the primary
/// subtag of the lower-cased locale (`it-IT` gives `it`), else English.
pub fn os_language(locale: Option<&str>) -> (r: String)
    ensures
        r@ == match locale {
            Some(l) => language_of_tag(unicode_lowercase(l@)),
            None => DEFAULT_LANG@,
        },
{
    match locale {
        Some(l) => {
            let lower = lowercase(l);
            language_from_locale(lower.as_str())
        },
        None => String::from_str(DEFAULT_LANG),
    }
}

/// The language saved in the settings file, when the file names a shipped
/// language (surrounding white space ignored).
pub fn saved_language(contents: &str) -> (r: Option<String>)
    ensures
        match r {
            Some(code) => supported(trimmed(contents@)) && code@ == trimmed(contents@),
            None => !supported(trimmed(contents@)),
        },
{
    let cs = chars_of(contents);
    let t = trim_range(&cs, 0, cs.len());
    proof {
        assert(cs@.subrange(0, cs@.len() as int) =~= cs@);
    }
    let code = string_of(&t);
    if is_supported(code.as_str()) {
        Some(code)
    } else {
        None
    }
}

/// The startup language: the saved choice when it names a shipped language,
/// else the OS language, else English.
pub fn startup_language(saved: Option<&str>, locale: Option<&str>) -> (r: String)
    ensures
        r@ == match saved {
            Some(s) if supported(trimmed(s@)) => trimmed(s@),
            _ => match locale {
                Some(l) => language_of_tag(unicode_lowercase(l@)),
                None => DEFAULT_LANG@,
            },
        },
        supported(r@),
{
    proof {
        reveal_strlit("en");
        assert(LANGUAGES[0].0@ == DEFAULT_LANG@);
    }
    match saved {
        Some(s) => match saved_language(s) {
            Some(code) => code,
            None => os_language(locale),
        },
        None => os_language(locale),
    }
}

} // verus!
