//! Languages the downloader accepts.
//!
//! Only `pt-br` is offered today, but the core uses an enum so that more
//! languages can be added without loose strings in the code.

use vstd::prelude::*;

use crate::infra::error::AppError;
use crate::text::{ascii_lower, chars_eq_str, chars_of, lower_chars, push_str, string_from_chars, trim, trim_str};

verus! {

/// Translation language requested from the chapter feed.
#[derive(Clone, Copy, Debug, PartialEq, Eq, Structural)]
pub enum Language {
    /// Brazilian Portuguese, MangaDex code `pt-br`.
    PortugueseBrazil,
}

/// The MangaDex code of a language.
pub open spec fn language_code(language: Language) -> Seq<char> {
    match language {
        Language::PortugueseBrazil => "pt-br"@,
    }
}

impl Language {
    /// Code expected by the `translatedLanguage[]` parameter of the API.
    pub fn code(self) -> (r: &'static str)
        ensures
            r@ == language_code(self),
    {
        match self {
            Language::PortugueseBrazil => "pt-br",
        }
    }

    /// Readable name shown in the prompts.
    pub fn label(self) -> (r: &'static str)
        ensures
            r@ == "Portuguese (Brazil)"@,
    {
        match self {
            Language::PortugueseBrazil => "Portuguese (Brazil)",
        }
    }
}

/// The languages offered by the prompt and accepted by validation.
pub fn supported_languages() -> (r: Vec<Language>)
    ensures
        r@ == seq![Language::PortugueseBrazil],
{
    let mut r: Vec<Language> = Vec::new();
    r.push(Language::PortugueseBrazil);
    assert(r@ =~= seq![Language::PortugueseBrazil]);
    r
}

/// Whether a trimmed, lower-cased name stands for Brazilian Portuguese.
pub open spec fn names_portuguese_brazil(n: Seq<char>) -> bool {
    n == "pt-br"@ || n == "ptbr"@ || n == "portuguese (brazil)"@ || n == "portuguese-brazil"@
}

pub open spec fn unsupported_language_message(input: Seq<char>) -> Seq<char> {
    "unsupported language '"@ + input + "'. Currently supported: pt-br"@
}

/// Parses a language name.
///
/// A few aliases are accepted for manual use; any language that is not yet
/// implemented is refused.
pub fn parse_language(input: &str) -> (r: Result<Language, AppError>)
    ensures
        names_portuguese_brazil(ascii_lower(trim(input@))) ==> r == Ok::<Language, AppError>(
            Language::PortugueseBrazil,
        ),
        !names_portuguese_brazil(ascii_lower(trim(input@))) ==> (r matches Err(
            AppError::InvalidInput(m),
        ) && m@ == unsupported_language_message(input@)),
{
    let trimmed = trim_str(input);
    let n = lower_chars(trimmed.as_slice());
    let n = n.as_slice();
    if chars_eq_str(n, "pt-br") || chars_eq_str(n, "ptbr") || chars_eq_str(
        n,
        "portuguese (brazil)",
    ) || chars_eq_str(n, "portuguese-brazil") {
        return Ok(Language::PortugueseBrazil);
    }
    let mut m = chars_of("unsupported language '");
    push_str(&mut m, input);
    push_str(&mut m, "'. Currently supported: pt-br");
    Err(AppError::InvalidInput(string_from_chars(m.as_slice())))
}

} // verus!
