//! Languages and the messages exchanged with the translation API.
use vstd::prelude::*;
use vstd::string::StringExecFns;
use crate::text::same_text;

verus! {

/// A language that the translation API serves.
#[derive(Debug, Clone, Copy, PartialEq, Eq, Structural)]
pub enum Language {
    English,
    Nepali,
    Tamang,
}

/// The code by which the API names a language.
pub open spec fn language_code(l: Language) -> Seq<char> {
    match l {
        Language::English => "en"@,
        Language::Nepali => "ne"@,
        Language::Tamang => "tmg"@,
    }
}

/// The language a code names, or the message that rejects the code.
pub open spec fn parse_language(s: Seq<char>) -> Result<Language, Seq<char>> {
    if s == "en"@ {
        Ok(Language::English)
    } else if s == "ne"@ {
        Ok(Language::Nepali)
    } else if s == "tmg"@ {
        Ok(Language::Tamang)
    } else {
        Err("unknown language: "@ + s)
    }
}

impl Language {
    /// The code by which the API names this language.
    pub fn code(&self) -> (res: &'static str)
        ensures
            res@ == language_code(*self),
    {
        match self {
            Language::English => "en",
            Language::Nepali => "ne",
            Language::Tamang => "tmg",
        }
    }

    /// The language that `s` names: `en`, `ne` or `tmg`.
    pub fn from_code(s: &str) -> (res: Result<Language, String>)
        ensures
            match (res, parse_language(s@)) {
                (Ok(l), Ok(m)) => l == m,
                (Err(e), Err(m)) => e@ == m,
                _ => false,
            },
    {
        if same_text(s, "en") {
            Ok(Language::English)
        } else if same_text(s, "ne") {
            Ok(Language::Nepali)
        } else if same_text(s, "tmg") {
            Ok(Language::Tamang)
        } else {
            let mut msg = String::from_str("unknown language: ");
            msg.append(s);
            Err(msg)
        }
    }
}

impl std::str::FromStr for Language {
    type Err = String;

    fn from_str(s: &str) -> (res: Result<Self, Self::Err>)
        ensures
            match (res, parse_language(s@)) {
                (Ok(l), Ok(m)) => l == m,
                (Err(e), Err(m)) => e@ == m,
                _ => false,
            },
    {
        Language::from_code(s)
    }
}

/// Every language is read back from its own code.
pub proof fn lemma_language_code_roundtrip(l: Language)
    ensures
        parse_language(language_code(l)) == Ok::<Language, Seq<char>>(l),
{
    reveal_strlit("en");
    reveal_strlit("ne");
    reveal_strlit("tmg");
    assert("ne"@[0] != "en"@[0]);
    assert("tmg"@.len() != "en"@.len());
    assert("tmg"@.len() != "ne"@.len());
}

/// Whether the API reports success or failure.
#[derive(Debug, Clone, Copy, PartialEq, Eq, Structural)]
pub enum ResponseStatus {
    Success,
    Fail,
}

/// A request to translate a text between two languages.
#[derive(Debug)]
pub struct TranslationRequest {
    pub text: String,
    pub src_lang: Language,
    pub tgt_lang: Language,
}

/// The API's answer to a [`TranslationRequest`].
#[derive(Debug)]
pub struct TranslationResponse {
    pub message_type: ResponseStatus,
    pub message: String,
    pub src_lang: String,
    pub input: String,
    pub target_lang: String,
    pub output: String,
    pub timestamp: String,
}

/// The body of an API error reply.
#[derive(Debug)]
pub struct ApiError {
    pub message: String,
}

impl TranslationRequest {
    /// A request to translate `text` from `src` into `tgt`.
    pub fn new(text: &str, src: Language, tgt: Language) -> (res: Self)
        ensures
            res.text@ == text@,
            res.src_lang == src,
            res.tgt_lang == tgt,
    {
        TranslationRequest { text: String::from_str(text), src_lang: src, tgt_lang: tgt }
    }
}

} // verus!
