//! Offline provider. It echoes the (normalized) source text, which verifies
//! the whole pipeline (capture → OCR → overlay) without network.
use vstd::prelude::*;

use super::{normalize_text, TranslateError, TranslateRequest, TranslationProvider};
use crate::text::normalized;
use crate::types::{clone_opt_string, Translation};

verus! {

pub struct LocalProvider {
    pub prefix: &'static str,
}

impl Default for LocalProvider {
    fn default() -> (p: Self)
        ensures
            p.prefix@ == Seq::<char>::empty(),
    {
        let p = LocalProvider { prefix: "" };
        proof {
            reveal_strlit("");
        }
        p
    }
}

/// The echo of `text` under `prefix`.
pub open spec fn echo_translation(prefix: Seq<char>, text: Seq<char>) -> Seq<char> {
    prefix + normalized(text)
}

impl TranslationProvider for LocalProvider {
    fn name(&self) -> (n: &'static str)
        ensures
            n@ == "local"@,
    {
        "local"
    }

    fn translate(&self, request: &TranslateRequest) -> (r: Result<Vec<Translation>, TranslateError>)
        ensures
            r matches Ok(out) && out.len() == request.texts.len() && forall|i: int|
                0 <= i < out.len() ==> {
                    &&& (#[trigger] out[i]).translated_text@ == echo_translation(
                        self.prefix@,
                        request.texts[i]@,
                    )
                    &&& out[i].detected_source_lang == request.source_lang
                    &&& out[i].target_lang == request.target_lang
                },
    {
        let mut out: Vec<Translation> = Vec::new();
        let mut i: usize = 0;
        while i < request.texts.len()
            invariant
                i <= request.texts.len(),
                out.len() == i,
                forall|j: int|
                    0 <= j < i ==> {
                        &&& (#[trigger] out[j]).translated_text@ == echo_translation(
                            self.prefix@,
                            request.texts[j]@,
                        )
                        &&& out[j].detected_source_lang == request.source_lang
                        &&& out[j].target_lang == request.target_lang
                    },
            decreases request.texts.len() - i,
        {
            let norm = normalize_text(request.texts[i].as_str());
            let mut text = String::from_str(self.prefix);
            text.append(norm.as_str());
            out.push(
                Translation {
                    translated_text: text,
                    detected_source_lang: clone_opt_string(&request.source_lang),
                    target_lang: request.target_lang.clone(),
                },
            );
            i = i + 1;
        }
        Ok(out)
    }
}

} // verus!
