//! Configuration values that carry no floating point: the translation
//! backend choice and the defaults of the integer, text and flag settings.
pub mod defaults;

use vstd::prelude::*;

use crate::translation::openai::OpenAiConfig;

verus! {

/// Selects the translation backend at runtime.
#[derive(Debug, Clone, PartialEq)]
pub enum TranslationConfig {
    /// Offline echo provider (no API). Verify the pipeline without network.
    Local,
    /// Any OpenAI-compatible HTTP endpoint.
    OpenAi(OpenAiConfig),
}

pub fn default_enabled() -> (b: bool)
    ensures
        b,
{
    true
}

pub fn default_text_color() -> (s: String)
    ensures
        s@ == "#FFFFFF"@,
{
    String::from_str("#FFFFFF")
}

pub fn default_bg_color() -> (s: String)
    ensures
        s@ == "#B0000000"@,
{
    String::from_str("#B0000000")
}

pub fn default_shadow() -> (b: bool)
    ensures
        b,
{
    true
}

pub fn default_font_family() -> (s: String)
    ensures
        s@ == "Microsoft YaHei UI"@,
{
    String::from_str("Microsoft YaHei UI")
}

pub fn default_ocr_cooldown() -> (ms: u64)
    ensures
        ms == 700,
{
    700
}

pub fn default_ocr_retrigger() -> (ms: u64)
    ensures
        ms == 3000,
{
    3000
}

pub fn default_show_stats() -> (b: bool)
    ensures
        !b,
{
    false
}

pub fn default_translation() -> (t: TranslationConfig)
    ensures
        t == TranslationConfig::Local,
{
    TranslationConfig::Local
}

} // verus!
