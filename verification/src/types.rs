//! Core types shared by the pipeline, the translation providers and the
//! overlay renderer (those without floating-point geometry).
use vstd::prelude::*;

verus! {

/// A translation result for a single source text.
#[derive(Debug, Clone, PartialEq)]
pub struct Translation {
    pub translated_text: String,
    /// ISO-639 language codes, when the provider reports them.
    pub detected_source_lang: Option<String>,
    pub target_lang: String,
}

/// Horizontal alignment used when laying out translated text.
#[derive(Debug, Clone, Copy, PartialEq, Eq, Structural)]
pub enum TextAlign {
    Left,
    Center,
    Right,
}

impl Default for TextAlign {
    fn default() -> (a: Self)
        ensures
            a == TextAlign::Center,
    {
        TextAlign::Center
    }
}

/// A copy of an optional string, equal to it.
pub fn clone_opt_string(o: &Option<String>) -> (r: Option<String>)
    ensures
        r == *o,
{
    match o {
        Some(s) => Some(s.clone()),
        None => None,
    }
}

/// A copy of a vector of strings, equal to it element by element.
pub fn clone_strings(v: &Vec<String>) -> (r: Vec<String>)
    ensures
        r@ == v@,
{
    let mut r: Vec<String> = Vec::new();
    let mut i: usize = 0;
    while i < v.len()
        invariant
            i <= v.len(),
            r@ == v@.take(i as int),
        decreases v.len() - i,
    {
        r.push(v[i].clone());
        assert(v@.take(i + 1) == v@.take(i as int).push(v@[i as int]));
        i = i + 1;
    }
    assert(v@.take(v.len() as int) == v@);
    r
}

} // verus!
