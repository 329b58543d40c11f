use vstd::prelude::*;

use crate::text::strs_view;

verus! {

/// A language the tool can translate between.
#[derive(Debug, Clone, Copy, PartialEq, Eq, Structural, Hash)]
pub enum Language {
    En,
    EnGB,
    Fa,
}

/// The lower-case code of a language, as the translation service and the
/// output file names use it.
pub open spec fn code_spec(l: Language) -> Seq<char> {
    match l {
        Language::En => "en"@,
        Language::EnGB => "en-gb"@,
        Language::Fa => "fa"@,
    }
}

impl Language {
    /// The language's code; matches `code_spec`.
    pub fn code(&self) -> (r: String)
        ensures
            r@ == code_spec(*self),
    {
        match self {
            Language::En => String::from_str("en"),
            Language::EnGB => String::from_str("en-gb"),
            Language::Fa => String::from_str("fa"),
        }
    }
}

/// Text direction of a target language, as the translation service reports
/// it.
#[derive(Debug, Clone, Copy, PartialEq, Eq, Structural)]
pub enum Direction {
    Ltr,
    Rtl,
}

/// A violation of the translation service's response contract.
#[derive(Debug, Clone, Copy, PartialEq, Eq, Structural)]
pub enum TranslateFault {
    CountMismatch,
    WrongLanguage,
}

/// A handle on the translation service: where it lives and how requests are
/// authenticated.
pub struct TranslationClient {
    pub endpoint: String,
    pub version: String,
    pub key: String,
    pub region: String,
}

impl TranslationClient {
    /// A client for the default service endpoint and protocol version.
    pub fn new(key: String, region: String) -> (r: TranslationClient)
        ensures
            r.endpoint@ == "https://api.cognitive.microsofttranslator.com"@,
            r.version@ == "3.0"@,
            r.key == key,
            r.region == region,
    {
        TranslationClient {
            endpoint: String::from_str("https://api.cognitive.microsofttranslator.com"),
            version: String::from_str("3.0"),
            key: key,
            region: region,
        }
    }
}

/// A returned sentence with a terminal fullstop: the service does not
/// guarantee terminal punctuation, so one is appended where missing.
pub open spec fn finalize_spec(text: Seq<char>) -> Seq<char> {
    if text.len() > 0 && text.last() == '.' {
        text
    } else {
        text + seq!['.']
    }
}

/// What `finalize_translations` must return: the count must match the
/// request, every returned item must be tagged with the requested target
/// language, and each accepted sentence gets a terminal fullstop where the
/// service left it off.
pub open spec fn finalize_post(
    r: Result<Vec<String>, TranslateFault>,
    items: Seq<(Language, String)>,
    expected_count: int,
    target: Language,
) -> bool {
    if items.len() != expected_count {
        r == Result::<Vec<String>, TranslateFault>::Err(TranslateFault::CountMismatch)
    } else if exists|i: int| 0 <= i < items.len() && (#[trigger] items[i]).0 != target {
        r == Result::<Vec<String>, TranslateFault>::Err(TranslateFault::WrongLanguage)
    } else {
        match r {
            Result::Ok(v) => {
                &&& v@.len() == items.len()
                &&& forall|i: int| 0 <= i < items.len() ==> (#[trigger] v@[i])@ == finalize_spec(
                    items[i].1@,
                )
            },
            Result::Err(_) => false,
        }
    }
}

/// Check the translation service's response against the request it answers:
/// one translation per requested sentence, each in the requested target
/// language; append the missing terminal fullstop to each sentence.
pub fn finalize_translations(
    items: &Vec<(Language, String)>,
    expected_count: usize,
    target: Language,
) -> (r: Result<Vec<String>, TranslateFault>)
    ensures
        finalize_post(r, items@, expected_count as int, target),
{
    if items.len() != expected_count {
        return Result::Err(TranslateFault::CountMismatch);
    }
    let mut out: Vec<String> = Vec::new();
    let mut i: usize = 0;
    while i < items.len()
        invariant
            i <= items@.len(),
            items@.len() == expected_count,
            out@.len() == i,
            forall|q: int| 0 <= q < i ==> (#[trigger] items@[q]).0 == target,
            forall|q: int| 0 <= q < i ==> (#[trigger] out@[q])@ == finalize_spec(items@[q].1@),
        decreases items@.len() - i,
    {
        let lang = items[i].0;
        if lang != target {
            proof {
                assert(items@[i as int].0 != target);
            }
            return Result::Err(TranslateFault::WrongLanguage);
        }
        let text = &items[i].1;
        let n = text.as_str().unicode_len();
        let mut sentence = text.clone();
        if !(n > 0 && text.as_str().get_char(n - 1) == '.') {
            proof {
                reveal_strlit(".");
                assert("."@ =~= seq!['.']);
            }
            sentence.append(".");
        }
        out.push(sentence);
        i = i + 1;
    }
    proof {
        assert(!(exists|q: int| 0 <= q < items@.len() && (#[trigger] items@[q]).0 != target));
    }
    Result::Ok(out)
}

} // verus!
