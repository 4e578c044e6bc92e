//! The encyclopedia languages a build can target, keyed by wiki code.

use vstd::prelude::*;

use crate::text::str_eq;

verus! {

/// A supported language edition.
#[derive(Debug, Clone, Copy, PartialEq, Eq, Hash, Structural)]
pub enum WikiLanguage {
    English,
    Cebuano,
    German,
    French,
    Swedish,
    Dutch,
    Russian,
    Spanish,
    Italian,
    Polish,
    EgyptianArabic,
    Chinese,
    Japanese,
    Ukrainian,
    Vietnamese,
}

/// The wiki code of each language.
pub open spec fn spec_wp_code(l: WikiLanguage) -> Seq<char> {
    match l {
        WikiLanguage::English => "en"@,
        WikiLanguage::Cebuano => "ceb"@,
        WikiLanguage::German => "de"@,
        WikiLanguage::French => "fr"@,
        WikiLanguage::Swedish => "sv"@,
        WikiLanguage::Dutch => "nl"@,
        WikiLanguage::Russian => "ru"@,
        WikiLanguage::Spanish => "es"@,
        WikiLanguage::Italian => "it"@,
        WikiLanguage::Polish => "pl"@,
        WikiLanguage::EgyptianArabic => "arz"@,
        WikiLanguage::Chinese => "zh"@,
        WikiLanguage::Japanese => "ja"@,
        WikiLanguage::Ukrainian => "uk"@,
        WikiLanguage::Vietnamese => "vi"@,
    }
}

/// The language a wiki code names, if any.
pub open spec fn spec_from_wp_code(s: Seq<char>) -> Option<WikiLanguage> {
    if s == "en"@ { Some(WikiLanguage::English) }
    else if s == "ceb"@ { Some(WikiLanguage::Cebuano) }
    else if s == "de"@ { Some(WikiLanguage::German) }
    else if s == "fr"@ { Some(WikiLanguage::French) }
    else if s == "sv"@ { Some(WikiLanguage::Swedish) }
    else if s == "nl"@ { Some(WikiLanguage::Dutch) }
    else if s == "ru"@ { Some(WikiLanguage::Russian) }
    else if s == "es"@ { Some(WikiLanguage::Spanish) }
    else if s == "it"@ { Some(WikiLanguage::Italian) }
    else if s == "pl"@ { Some(WikiLanguage::Polish) }
    else if s == "arz"@ { Some(WikiLanguage::EgyptianArabic) }
    else if s == "zh"@ { Some(WikiLanguage::Chinese) }
    else if s == "ja"@ { Some(WikiLanguage::Japanese) }
    else if s == "uk"@ { Some(WikiLanguage::Ukrainian) }
    else if s == "vi"@ { Some(WikiLanguage::Vietnamese) }
    else { None }
}

impl WikiLanguage {
    /// Looks a language up by its wiki code; unknown codes yield `None`.
    pub fn from_wp_code(code: &str) -> (r: Option<WikiLanguage>)
        ensures
            r == spec_from_wp_code(code@),
    {
        if str_eq(code, "en") { Some(WikiLanguage::English) }
        else if str_eq(code, "ceb") { Some(WikiLanguage::Cebuano) }
        else if str_eq(code, "de") { Some(WikiLanguage::German) }
        else if str_eq(code, "fr") { Some(WikiLanguage::French) }
        else if str_eq(code, "sv") { Some(WikiLanguage::Swedish) }
        else if str_eq(code, "nl") { Some(WikiLanguage::Dutch) }
        else if str_eq(code, "ru") { Some(WikiLanguage::Russian) }
        else if str_eq(code, "es") { Some(WikiLanguage::Spanish) }
        else if str_eq(code, "it") { Some(WikiLanguage::Italian) }
        else if str_eq(code, "pl") { Some(WikiLanguage::Polish) }
        else if str_eq(code, "arz") { Some(WikiLanguage::EgyptianArabic) }
        else if str_eq(code, "zh") { Some(WikiLanguage::Chinese) }
        else if str_eq(code, "ja") { Some(WikiLanguage::Japanese) }
        else if str_eq(code, "uk") { Some(WikiLanguage::Ukrainian) }
        else if str_eq(code, "vi") { Some(WikiLanguage::Vietnamese) }
        else { None }
    }

    /// The wiki code used in dump names and URLs for this language.
    pub fn wp_code(&self) -> (r: &'static str)
        ensures
            r@ == spec_wp_code(*self),
    {
        match self {
            WikiLanguage::English => "en",
            WikiLanguage::Cebuano => "ceb",
            WikiLanguage::German => "de",
            WikiLanguage::French => "fr",
            WikiLanguage::Swedish => "sv",
            WikiLanguage::Dutch => "nl",
            WikiLanguage::Russian => "ru",
            WikiLanguage::Spanish => "es",
            WikiLanguage::Italian => "it",
            WikiLanguage::Polish => "pl",
            WikiLanguage::EgyptianArabic => "arz",
            WikiLanguage::Chinese => "zh",
            WikiLanguage::Japanese => "ja",
            WikiLanguage::Ukrainian => "uk",
            WikiLanguage::Vietnamese => "vi",
        }
    }
}

} // verus!
