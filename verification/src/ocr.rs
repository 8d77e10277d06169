//! OCR errors and the recognizer that recognizes nothing. The provider
//! abstraction itself works on frames and text regions with floating-point
//! geometry and lives with the platform code.
use vstd::prelude::*;

verus! {

#[derive(Debug)]
pub enum OcrError {
    UnsupportedLanguage(String),
    Provider(String),
    EmptyFrame,
}

/// The message shown for an OCR error.
pub open spec fn ocr_error_message(e: OcrError) -> Seq<char> {
    match e {
        OcrError::UnsupportedLanguage(l) => "no OCR engine available for language ("@ + l@ + ")"@,
        OcrError::Provider(d) => "OCR failure: "@ + d@,
        OcrError::EmptyFrame => "frame is empty"@,
    }
}

impl OcrError {
    /// The human-readable message for this error.
    pub fn message(&self) -> (m: String)
        ensures
            m@ == ocr_error_message(*self),
    {
        match self {
            OcrError::UnsupportedLanguage(l) => {
                let mut m = String::from_str("no OCR engine available for language (");
                m.append(l.as_str());
                m.append(")");
                m
            },
            OcrError::Provider(d) => {
                let mut m = String::from_str("OCR failure: ");
                m.append(d.as_str());
                m
            },
            OcrError::EmptyFrame => String::from_str("frame is empty"),
        }
    }
}

/// A provider that recognizes nothing. Used as a placeholder when no
/// recognizer can be constructed (e.g. missing OCR language pack) so the
/// pipeline can still start and report the problem instead of crashing.
pub struct NullOcr;

impl Default for NullOcr {
    fn default() -> (n: Self) {
        NullOcr
    }
}

} // verus!
