//! Translation requests, the provider abstraction and text normalization.
pub mod cache;
pub mod local;
pub mod openai;

use vstd::prelude::*;

use crate::text::{chars_of, collapse_range, normalized, trim_bounds};
use crate::types::Translation;

verus! {

/// A batch translation request.
#[derive(Debug, Clone)]
pub struct TranslateRequest {
    /// Source texts. Order is preserved in the response.
    pub texts: Vec<String>,
    /// BCP-47 / ISO-639 tag; `None` means auto-detect.
    pub source_lang: Option<String>,
    pub target_lang: String,
}

/// Translates one or more texts. Providers must preserve input order in the
/// returned vector and must not mutate inputs.
pub trait TranslationProvider: Send + Sync {
    fn name(&self) -> &'static str;

    fn translate(&self, request: &TranslateRequest) -> Result<Vec<Translation>, TranslateError>;
}

#[derive(Debug)]
pub enum TranslateError {
    /// Non-transient config problem (bad URL, auth rejected, 4xx).
    Config(String),
    /// Network / upstream failure that can be retried.
    Transient(String),
    /// Response could not be parsed.
    Parse(String),
    /// The provider rejected the batch (e.g. too many items).
    BatchTooLarge(String),
}

/// The message shown for an error: a fixed prefix naming its kind, then the detail.
pub open spec fn translate_error_message(e: TranslateError) -> Seq<char> {
    match e {
        TranslateError::Config(d) => "translation config error: "@ + d@,
        TranslateError::Transient(d) => "translation retryable error: "@ + d@,
        TranslateError::Parse(d) => "translation parse error: "@ + d@,
        TranslateError::BatchTooLarge(d) => "translation batch too large: "@ + d@,
    }
}

impl TranslateError {
    /// The human-readable message for this error.
    pub fn message(&self) -> (m: String)
        ensures
            m@ == translate_error_message(*self),
    {
        let (prefix, detail) = match self {
            TranslateError::Config(d) => ("translation config error: ", d),
            TranslateError::Transient(d) => ("translation retryable error: ", d),
            TranslateError::Parse(d) => ("translation parse error: ", d),
            TranslateError::BatchTooLarge(d) => ("translation batch too large: ", d),
        };
        let mut m = String::from_str(prefix);
        m.append(detail.as_str());
        m
    }
}

/// Normalize a source text for use as a cache key: trim and collapse runs of
/// whitespace, preserving case.
pub fn normalize_text(text: &str) -> (out: String)
    ensures
        out@ == normalized(text@),
{
    let cs = chars_of(text);
    assert(cs@.subrange(0, cs.len() as int) == cs@);
    let (start, end) = trim_bounds(&cs, 0, cs.len());
    collapse_range(&cs, start, end)
}

} // verus!
