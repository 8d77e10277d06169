//! OpenAI-compatible translation provider: configuration, request checks,
//! the prompt texts, the retry policy and the response parser.
//!
//! A whole batch round-trips in one chat-completion call using a
//! numbered-marker prompt (`[[0]]text\n[[1]]text`). The response parser also
//! accepts a plain JSON array of strings, and one line per item.
use vstd::prelude::*;

use super::{normalize_text, TranslateError, TranslateRequest};
use crate::text::{
    chars_of, decimal, first_match, lemma_collapse_shape, lemma_trim_ends, matches_at, normalized,
    push_decimal, push_str,
    string_from_chars, trim_bounds, trim_ws, find_from,
};
use crate::types::{clone_opt_string, Translation};

verus! {

#[derive(Debug, Clone, PartialEq)]
pub struct OpenAiConfig {
    /// e.g. `https://api.openai.com/v1`
    pub base_url: String,
    pub api_key: String,
    pub model: String,
    pub timeout_secs: u64,
    pub max_retries: u32,
    /// Maximum texts per HTTP batch.
    pub batch_size: usize,
}

pub fn default_timeout() -> (r: u64)
    ensures
        r == 30,
{
    30
}

pub fn default_retries() -> (r: u32)
    ensures
        r == 2,
{
    2
}

pub fn default_batch() -> (r: usize)
    ensures
        r == 8,
{
    8
}

impl Default for OpenAiConfig {
    fn default() -> (c: Self)
        ensures
            c.base_url@ == "https://api.openai.com/v1"@,
            c.api_key@ == ""@,
            c.model@ == "gpt-4o-mini"@,
            c.timeout_secs == 30,
            c.max_retries == 2,
            c.batch_size == 8,
    {
        OpenAiConfig {
            base_url: String::from_str("https://api.openai.com/v1"),
            api_key: String::from_str(""),
            model: String::from_str("gpt-4o-mini"),
            timeout_secs: default_timeout(),
            max_retries: default_retries(),
            batch_size: default_batch(),
        }
    }
}

pub struct OpenAiProvider {
    config: OpenAiConfig,
}

/// `s` without its trailing `c` characters (what `str::trim_end_matches(c)` gives).
pub open spec fn trim_end_char(s: Seq<char>, c: char) -> Seq<char>
    decreases s.len(),
{
    if s.len() > 0 && s.last() == c {
        trim_end_char(s.drop_last(), c)
    } else {
        s
    }
}

/// The chat-completions endpoint under a base URL.
pub open spec fn endpoint_of(base_url: Seq<char>) -> Seq<char> {
    trim_end_char(base_url, '/') + "/chat/completions"@
}

/// The message of a rejected, too large batch.
pub open spec fn batch_too_large_message(requested: nat, batch_size: nat) -> Seq<char> {
    decimal(requested) + " texts requested but batch_size is "@ + decimal(batch_size)
}

/// The wait before retry number `attempt + 1`: 300 ms doubled per attempt.
pub open spec fn backoff_ms(attempt: nat) -> nat {
    300 * vstd::arithmetic::power2::pow2(attempt)
}

impl OpenAiProvider {
    pub closed spec fn config_spec(&self) -> OpenAiConfig {
        self.config
    }

    pub fn new(config: OpenAiConfig) -> (p: Self)
        ensures
            p.config_spec() == config,
    {
        OpenAiProvider { config }
    }

    pub fn config(&self) -> (c: &OpenAiConfig)
        ensures
            *c == self.config_spec(),
    {
        &self.config
    }

    /// Checks a request before anything is sent: `Ok(false)` when there is
    /// nothing to translate, `BatchTooLarge` when it holds more texts than the
    /// batch size, `Ok(true)` otherwise.
    pub fn check_batch(&self, request: &TranslateRequest) -> (r: Result<bool, TranslateError>)
        ensures
            request.texts.len() == 0 ==> r == Ok::<bool, TranslateError>(false),
            request.texts.len() > 0 && request.texts.len() <= self.config_spec().batch_size ==> r
                == Ok::<bool, TranslateError>(true),
            request.texts.len() > 0 && request.texts.len() > self.config_spec().batch_size ==> (
            r matches Err(TranslateError::BatchTooLarge(m)) && m@ == batch_too_large_message(
                request.texts.len() as nat,
                self.config_spec().batch_size as nat,
            )),
    {
        if request.texts.len() == 0 {
            return Ok(false);
        }
        if request.texts.len() > self.config.batch_size {
            let mut m: Vec<char> = Vec::new();
            push_decimal(&mut m, request.texts.len() as u64);
            push_str(&mut m, " texts requested but batch_size is ");
            push_decimal(&mut m, self.config.batch_size as u64);
            assert(m@ =~= batch_too_large_message(
                request.texts.len() as nat,
                self.config.batch_size as nat,
            ));
            return Err(TranslateError::BatchTooLarge(string_from_chars(&m, 0, m.len())));
        }
        Ok(true)
    }

    /// `{base_url}/chat/completions`, with trailing slashes of the base URL dropped.
    pub fn endpoint_url(&self) -> (url: String)
        ensures
            url@ == endpoint_of(self.config_spec().base_url@),
    {
        let cs = chars_of(self.config.base_url.as_str());
        let mut end = cs.len();
        assert(cs@.subrange(0, end as int) == cs@);
        while end > 0 && cs[end - 1] == '/'
            invariant
                end <= cs.len(),
                cs@ == self.config.base_url@,
                trim_end_char(cs@.subrange(0, end as int), '/') == trim_end_char(cs@, '/'),
            decreases end,
        {
            assert(cs@.subrange(0, end as int).drop_last() == cs@.subrange(0, end - 1));
            end = end - 1;
        }
        let mut url = string_from_chars(&cs, 0, end);
        url.append("/chat/completions");
        url
    }

    /// The retry policy after a transient failure of attempt `attempt`
    /// (0-based): `Ok(ms)` to wait `ms` milliseconds and try again while
    /// attempts remain, otherwise the transient error to give up with.
    pub fn after_transient(&self, attempt: u32, error: String) -> (r: Result<u64, TranslateError>)
        requires
            attempt <= self.config_spec().max_retries,
            attempt < self.config_spec().max_retries ==> attempt <= 55,
        ensures
            attempt < self.config_spec().max_retries ==> (r matches Ok(ms) && ms == backoff_ms(
                attempt as nat,
            )),
            attempt == self.config_spec().max_retries ==> (r matches Err(
                TranslateError::Transient(e),
            ) && e == error),
    {
        if attempt < self.config.max_retries {
            let mut factor: u64 = 1;
            let mut k: u32 = 0;
            proof {
                vstd::arithmetic::power2::lemma2_to64();
            }
            while k < attempt
                invariant
                    k <= attempt <= 55,
                    factor == vstd::arithmetic::power2::pow2(k as nat),
                decreases attempt - k,
            {
                proof {
                    vstd::arithmetic::power2::lemma_pow2_unfold((k + 1) as nat);
                    vstd::arithmetic::power2::lemma_pow2_strictly_increases(k as nat, 56);
                    vstd::arithmetic::power2::lemma2_to64_rest();
                }
                factor = factor * 2;
                k = k + 1;
            }
            proof {
                vstd::arithmetic::power2::lemma_pow2_strictly_increases(attempt as nat, 56);
                vstd::arithmetic::power2::lemma2_to64_rest();
                if attempt < 55 {
                    vstd::arithmetic::power2::lemma_pow2_strictly_increases(attempt as nat, 55);
                }
            }
            assert(factor <= 0x80_0000_0000_0000);
            Ok(300 * factor)
        } else {
            Err(TranslateError::Transient(error))
        }
    }
}

/// The error for an HTTP error status: 429 and 5xx are transient, every other
/// status is a configuration problem. The message is `HTTP {code} from {url}`.
pub fn classify_status(code: u16, url: &str) -> (e: TranslateError)
    ensures
        (code == 429 || 500 <= code <= 599) ==> (e matches TranslateError::Transient(m) && m@
            == "HTTP "@ + decimal(code as nat) + " from "@ + url@),
        !(code == 429 || 500 <= code <= 599) ==> (e matches TranslateError::Config(m) && m@
            == "HTTP "@ + decimal(code as nat) + " from "@ + url@),
{
    let mut m: Vec<char> = Vec::new();
    push_str(&mut m, "HTTP ");
    push_decimal(&mut m, code as u64);
    push_str(&mut m, " from ");
    push_str(&mut m, url);
    let text = string_from_chars(&m, 0, m.len());
    assert(m@.subrange(0, m@.len() as int) == m@);
    if code == 429 || (500 <= code && code <= 599) {
        TranslateError::Transient(text)
    } else {
        TranslateError::Config(text)
    }
}

/// The views of a vector of strings.
pub open spec fn strings_view(v: Seq<String>) -> Seq<Seq<char>> {
    v.map_values(|s: String| s@)
}

/// The view of an optional string.
pub open spec fn opt_view(o: Option<String>) -> Option<Seq<char>> {
    match o {
        Some(s) => Some(s@),
        None => None,
    }
}

/// The views of a vector of optional strings.
pub open spec fn opt_strings_view(v: Seq<Option<String>>) -> Seq<Option<Seq<char>>> {
    v.map_values(|o: Option<String>| opt_view(o))
}

/// The numbered marker `[[i]]` that prefixes item `i`.
pub open spec fn marker(i: nat) -> Seq<char> {
    seq!['[', '['] + decimal(i) + seq![']', ']']
}

/// The user message: each text prefixed with its marker, one per line.
pub open spec fn user_prompt_text(texts: Seq<Seq<char>>) -> Seq<char>
    decreases texts.len(),
{
    if texts.len() == 0 {
        seq![]
    } else {
        let k = (texts.len() - 1) as nat;
        let before = user_prompt_text(texts.drop_last());
        let sep = if k > 0 {
            seq!['\n']
        } else {
            Seq::<char>::empty()
        };
        before + sep + marker(k) + texts.last()
    }
}

/// The source language named in the prompt: the request's, or `auto-detect`.
pub open spec fn prompt_source(source_lang: Option<String>) -> Seq<char> {
    match source_lang {
        Some(s) => s@,
        None => "auto-detect"@,
    }
}

/// The system message of a request.
pub open spec fn system_prompt_text(source: Seq<char>, target: Seq<char>) -> Seq<char> {
    "You are a translation engine. Translate the user's text from "@ + source + " to "@ + target
        + ". Return ONLY the translation(s), no explanations. If the user sent multiple items marked as [[index]]text, reply with each translation on its own line prefixed with the same [[index]] marker, preserving order."@
}

/// The system message that tells the model the languages and the marker format.
pub fn system_prompt(request: &TranslateRequest) -> (s: String)
    ensures
        s@ == system_prompt_text(prompt_source(request.source_lang), request.target_lang@),
{
    let mut s = String::from_str("You are a translation engine. Translate the user's text from ");
    match &request.source_lang {
        Some(src) => s.append(src.as_str()),
        None => s.append("auto-detect"),
    }
    s.append(" to ");
    s.append(request.target_lang.as_str());
    s.append(
        ". Return ONLY the translation(s), no explanations. If the user sent multiple items marked as [[index]]text, reply with each translation on its own line prefixed with the same [[index]] marker, preserving order.",
    );
    s
}

/// Appends the marker `[[i]]` to `v`.
fn push_marker(v: &mut Vec<char>, i: usize)
    ensures
        final(v)@ == old(v)@ + marker(i as nat),
{
    v.push('[');
    v.push('[');
    push_decimal(v, i as u64);
    v.push(']');
    v.push(']');
    assert(final(v)@ =~= old(v)@ + marker(i as nat));
}

/// The user message: `[[0]]first\n[[1]]second...`.
pub fn user_prompt(request: &TranslateRequest) -> (s: String)
    ensures
        s@ == user_prompt_text(strings_view(request.texts@)),
{
    let mut v: Vec<char> = Vec::new();
    let mut i: usize = 0;
    let ghost texts = strings_view(request.texts@);
    while i < request.texts.len()
        invariant
            i <= request.texts.len(),
            texts == strings_view(request.texts@),
            v@ == user_prompt_text(texts.take(i as int)),
        decreases request.texts.len() - i,
    {
        let ghost before = v@;
        if i > 0 {
            v.push('\n');
        }
        push_marker(&mut v, i);
        push_str(&mut v, request.texts[i].as_str());
        proof {
            let t = texts.take(i + 1);
            assert(t.drop_last() == texts.take(i as int));
            assert(t.last() == request.texts@[i as int]@);
            if i > 0 {
                assert(v@ =~= before + seq!['\n'] + marker(i as nat) + t.last());
            } else {
                assert(v@ =~= before + Seq::<char>::empty() + marker(i as nat) + t.last());
            }
        }
        i = i + 1;
    }
    assert(texts.take(request.texts.len() as int) == texts);
    string_from_chars(&v, 0, v.len())
}

/// What `serde_json::from_str` makes of `text` when it is a JSON array: per
/// item, its string content when the item is a JSON string, `None` for any
/// other item. `None` when `text` is not JSON or not an array.
pub uninterp spec fn json_array_strings(text: Seq<char>) -> Option<Seq<Option<Seq<char>>>>;

/// Parses `text` with `serde_json::from_str` into a `serde_json::Value`;
/// for an array, returns each item's string content (or `None` for a
/// non-string item). The result is the name `json_array_strings` applied to
/// the text; nothing more is stated of JSON.
#[verifier::external_body]
fn json_string_items(text: &str) -> (r: Option<Vec<Option<String>>>)
    ensures
        r is Some == json_array_strings(text@) is Some,
        r matches Some(v) ==> opt_strings_view(v@) == json_array_strings(text@)->0,
{
    match serde_json::from_str::<serde_json::Value>(text) {
        Ok(serde_json::Value::Array(items)) => Some(
            items.into_iter().map(
                |item|
                    match item {
                        serde_json::Value::String(s) => Some(s),
                        _ => None,
                    },
            ).collect(),
        ),
        _ => None,
    }
}

/// The views of what the JSON parse gave.
pub open spec fn json_view(json: Option<Vec<Option<String>>>) -> Option<Seq<Option<Seq<char>>>> {
    match json {
        Some(v) => Some(opt_strings_view(v@)),
        None => None,
    }
}

/// Every item is a string.
pub open spec fn all_strings(items: Seq<Option<Seq<char>>>) -> bool {
    forall|i: int| 0 <= i < items.len() ==> items[i] is Some
}

/// The item for text `i` in marker form: the text after `[[i]]` up to the
/// next `[[` (or the end), trimmed; the source text when that is empty;
/// `None` when `[[i]]` does not occur.
pub open spec fn marker_segment(t: Seq<char>, i: nat, src: Seq<char>) -> Option<Seq<char>> {
    match first_match(t, marker(i)) {
        Some(pos) => Some(segment_from(t, pos + marker(i).len(), src)),
        None => None,
    }
}

/// The text of `t` from `start` up to the next `[[` (or the end), trimmed;
/// `src` when that is empty.
pub open spec fn segment_from(t: Seq<char>, start: int, src: Seq<char>) -> Seq<char> {
    let rest = t.subrange(start, t.len() as int);
    let end = match first_match(rest, seq!['[', '[']) {
        Some(e) => e,
        None => rest.len() as int,
    };
    let seg = trim_ws(rest.subrange(0, end));
    if seg.len() > 0 {
        seg
    } else {
        src
    }
}

/// The marker-form items for all texts.
pub open spec fn marker_segments(t: Seq<char>, texts: Seq<Seq<char>>) -> Seq<Option<Seq<char>>> {
    Seq::new(texts.len(), |i: int| marker_segment(t, i as nat, texts[i]))
}

/// The pieces of `s` between newline characters (at least one piece).
pub open spec fn split_lines(s: Seq<char>) -> Seq<Seq<char>>
    decreases s.len(),
{
    if s.len() == 0 {
        seq![Seq::<char>::empty()]
    } else {
        let before = split_lines(s.drop_last());
        if s.last() == '\n' {
            before.push(Seq::<char>::empty())
        } else {
            before.update(before.len() - 1, before.last().push(s.last()))
        }
    }
}

/// The lines, trimmed, without the empty ones.
pub open spec fn kept_lines(lines: Seq<Seq<char>>) -> Seq<Seq<char>>
    decreases lines.len(),
{
    if lines.len() == 0 {
        seq![]
    } else {
        let before = kept_lines(lines.drop_last());
        let t = trim_ws(lines.last());
        if t.len() > 0 {
            before.push(t)
        } else {
            before
        }
    }
}

/// The per-text items read from a trimmed response `t`, given what JSON
/// parsing made of it: the JSON array when it has one string per text;
/// otherwise the marker items; when no marker occurs, the non-empty lines
/// when there is one per text.
pub open spec fn response_items(
    json: Option<Seq<Option<Seq<char>>>>,
    t: Seq<char>,
    texts: Seq<Seq<char>>,
) -> Seq<Option<Seq<char>>> {
    let n = texts.len();
    if json is Some && json->0.len() == n && all_strings(json->0) {
        json->0
    } else {
        let m = marker_segments(t, texts);
        if forall|i: int| 0 <= i < n ==> m[i] is None {
            let ls = kept_lines(split_lines(t));
            if ls.len() == n {
                Seq::new(n, |i: int| Some(ls[i]))
            } else {
                m
            }
        } else {
            m
        }
    }
}

/// The final text of one item: the item when its normal form is non-empty,
/// otherwise the source text.
pub open spec fn final_text(item: Option<Seq<char>>, src: Seq<char>) -> Seq<char> {
    match item {
        Some(t) => if normalized(t).len() > 0 {
            t
        } else {
            src
        },
        None => src,
    }
}

/// The translated texts read from a response `content`, given what JSON
/// parsing made of the trimmed content.
pub open spec fn response_texts(
    json: Option<Seq<Option<Seq<char>>>>,
    content: Seq<char>,
    texts: Seq<Seq<char>>,
) -> Seq<Seq<char>> {
    let items = response_items(json, trim_ws(content), texts);
    Seq::new(texts.len(), |i: int| final_text(items[i], texts[i]))
}

/// Each kept line is non-empty and has a non-empty normal form.
proof fn lemma_kept_lines_nonblank(lines: Seq<Seq<char>>)
    ensures
        forall|i: int|
            0 <= i < kept_lines(lines).len() ==> normalized(#[trigger] kept_lines(lines)[i]).len()
                > 0,
    decreases lines.len(),
{
    if lines.len() > 0 {
        lemma_kept_lines_nonblank(lines.drop_last());
        let t = trim_ws(lines.last());
        if t.len() > 0 {
            lemma_trim_ends(lines.last());
            assert(trim_ws(t) == t);
            lemma_collapse_shape(t);
            let before = kept_lines(lines.drop_last());
            assert forall|i: int| 0 <= i < kept_lines(lines).len() implies normalized(
                #[trigger] kept_lines(lines)[i],
            ).len() > 0 by {
                if i < before.len() {
                    assert(kept_lines(lines)[i] == before[i]);
                } else {
                    assert(kept_lines(lines)[i] == t);
                }
            }
        }
    }
}

/// A reply without usable JSON and without any `[[i]]` marker, with exactly
/// one non-blank line per request text (one line for one text too), answers
/// text `i` with its `i`-th non-blank line, trimmed.
pub proof fn law_plain_lines_answer_in_order(
    json: Option<Seq<Option<Seq<char>>>>,
    content: Seq<char>,
    texts: Seq<Seq<char>>,
)
    requires
        !(json is Some && json->0.len() == texts.len() && all_strings(json->0)),
        forall|i: int, p: int|
            0 <= i < texts.len() ==> !#[trigger] matches_at(trim_ws(content), marker(i as nat), p),
        kept_lines(split_lines(trim_ws(content))).len() == texts.len(),
    ensures
        forall|i: int|
            0 <= i < texts.len() ==> #[trigger] response_texts(json, content, texts)[i] == kept_lines(
                split_lines(trim_ws(content)),
            )[i],
{
    let t = trim_ws(content);
    let m = marker_segments(t, texts);
    assert forall|i: int| 0 <= i < texts.len() implies m[i] is None by {
        reveal(first_match);
        assert(!exists|p: int| #[trigger] matches_at(t, marker(i as nat), p));
    }
    lemma_kept_lines_nonblank(split_lines(t));
}

/// A response never loses or adds a text, and never answers with a blank:
/// each request text gets exactly one answer, in order, and an answer that
/// was missing or blank is the source text itself.
pub proof fn law_response_answers_every_text(
    json: Option<Seq<Option<Seq<char>>>>,
    content: Seq<char>,
    texts: Seq<Seq<char>>,
)
    ensures
        response_texts(json, content, texts).len() == texts.len(),
        forall|i: int|
            0 <= i < texts.len() ==> {
                let r = #[trigger] response_texts(json, content, texts)[i];
                r == texts[i] || normalized(r).len() > 0
            },
{
}

/// `out` answers `request` with the given texts, in order, carrying the
/// request's languages.
pub open spec fn translations_with(
    out: Seq<Translation>,
    request: TranslateRequest,
    texts: Seq<Seq<char>>,
) -> bool {
    &&& out.len() == texts.len()
    &&& forall|i: int|
        0 <= i < out.len() ==> {
            &&& (#[trigger] out[i]).translated_text@ == texts[i]
            &&& out[i].detected_source_lang == request.source_lang
            &&& out[i].target_lang == request.target_lang
        }
}

/// The characters `cs[from..to]` as a vector.
fn sub_chars(cs: &Vec<char>, from: usize, to: usize) -> (v: Vec<char>)
    requires
        from <= to <= cs.len(),
    ensures
        v@ == cs@.subrange(from as int, to as int),
{
    let mut v: Vec<char> = Vec::new();
    let mut i = from;
    while i < to
        invariant
            from <= i <= to <= cs.len(),
            v@ == cs@.subrange(from as int, i as int),
        decreases to - i,
    {
        v.push(cs[i]);
        assert(cs@.subrange(from as int, i + 1) == cs@.subrange(from as int, i as int).push(
            cs@[i as int],
        ));
        i = i + 1;
    }
    v
}

/// The segment of `t` that starts at `start` (see `segment_from`).
fn segment_at(t: &Vec<char>, start: usize, src: &String) -> (seg: String)
    requires
        start <= t.len(),
    ensures
        seg@ == segment_from(t@, start as int, src@),
{
    let mut open: Vec<char> = Vec::new();
    open.push('[');
    open.push('[');
    assert(open@ =~= seq!['[', '[']);
    let ghost rest = t@.subrange(start as int, t.len() as int);
    let end = match find_from(t, start, &open) {
        Some(e) => {
            assert(first_match(rest, seq!['[', '[']) == Some(e - start));
            assert(matches_at(rest, open@, e - start));
            e
        },
        None => {
            assert(first_match(rest, seq!['[', '[']) is None);
            t.len()
        },
    };
    assert(rest.subrange(0, end - start) =~= t@.subrange(start as int, end as int));
    let (a, b) = trim_bounds(t, start, end);
    if b > a {
        string_from_chars(t, a, b)
    } else {
        src.clone()
    }
}

/// The marker-form item for text `i` of a trimmed response `t`.
fn marker_slot(t: &Vec<char>, i: usize, src: &String) -> (r: Option<String>)
    ensures
        opt_view(r) == marker_segment(t@, i as nat, src@),
{
    let mut m: Vec<char> = Vec::new();
    push_marker(&mut m, i);
    assert(m@ =~= marker(i as nat));
    assert(t@.subrange(0, t.len() as int) == t@);
    match find_from(t, 0, &m) {
        None => {
            assert(first_match(t@, marker(i as nat)) is None);
            None
        },
        Some(pos) => {
            assert(first_match(t@, marker(i as nat)) == Some(pos as int));
            assert(matches_at(t@, m@, pos as int));
            Some(segment_at(t, pos + m.len(), src))
        },
    }
}

/// The marker-form items for all texts.
fn marker_slots(t: &Vec<char>, texts: &Vec<String>) -> (r: Vec<Option<String>>)
    ensures
        opt_strings_view(r@) == marker_segments(t@, strings_view(texts@)),
{
    let mut r: Vec<Option<String>> = Vec::new();
    let mut i: usize = 0;
    while i < texts.len()
        invariant
            i <= texts.len(),
            r.len() == i,
            forall|j: int| 0 <= j < i ==> opt_view(#[trigger] r@[j]) == marker_segment(
                t@,
                j as nat,
                texts@[j]@,
            ),
        decreases texts.len() - i,
    {
        let slot = marker_slot(t, i, &texts[i]);
        r.push(slot);
        i = i + 1;
    }
    assert(opt_strings_view(r@) =~= marker_segments(t@, strings_view(texts@)));
    r
}

/// The trimmed, non-empty lines of `t`.
fn nonempty_lines(t: &Vec<char>) -> (r: Vec<String>)
    ensures
        strings_view(r@) == kept_lines(split_lines(t@)),
{
    let mut r: Vec<String> = Vec::new();
    let mut start: usize = 0;
    let mut i: usize = 0;
    let ghost mut done: Seq<Seq<char>> = seq![];
    assert(t@.take(0) =~= Seq::<char>::empty());
    assert(t@.subrange(0, 0) =~= Seq::<char>::empty());
    while i < t.len()
        invariant
            start <= i <= t.len(),
            split_lines(t@.take(i as int)) == done.push(t@.subrange(start as int, i as int)),
            strings_view(r@) == kept_lines(done),
        decreases t.len() - i,
    {
        let ghost cur = t@.subrange(start as int, i as int);
        assert(t@.take(i + 1).drop_last() == t@.take(i as int));
        assert(t@.take(i + 1).last() == t@[i as int]);
        if t[i] == '\n' {
            let (a, b) = trim_bounds(t, start, i);
            if b > a {
                let line = string_from_chars(t, a, b);
                r.push(line);
            }
            proof {
                assert(done.push(cur).drop_last() == done);
                assert(done.push(cur).last() == cur);
                assert(strings_view(r@) =~= kept_lines(done.push(cur)));
                done = done.push(cur);
            }
            start = i + 1;
            assert(t@.subrange(start as int, (i + 1) as int) =~= Seq::<char>::empty());
        } else {
            proof {
                let before = split_lines(t@.take(i as int));
                assert(before.len() - 1 == done.len());
                assert(t@.subrange(start as int, i + 1) == cur.push(t@[i as int]));
                assert(before.update(before.len() - 1, before.last().push(t@[i as int])) =~= done.push(
                    t@.subrange(start as int, i + 1),
                ));
            }
        }
        i = i + 1;
    }
    assert(t@.take(t.len() as int) == t@);
    let ghost cur = t@.subrange(start as int, t.len() as int);
    let (a, b) = trim_bounds(t, start, t.len());
    if b > a {
        let line = string_from_chars(t, a, b);
        r.push(line);
    }
    proof {
        assert(done.push(cur).drop_last() == done);
        assert(done.push(cur).last() == cur);
        assert(strings_view(r@) =~= kept_lines(done.push(cur)));
    }
    r
}

/// Whether the JSON items are usable as they are: one string per text.
fn json_usable(items: &Vec<Option<String>>, n: usize) -> (ok: bool)
    ensures
        ok == (items.len() == n && all_strings(opt_strings_view(items@))),
{
    if items.len() != n {
        return false;
    }
    let mut i: usize = 0;
    while i < items.len()
        invariant
            i <= items.len(),
            forall|j: int| 0 <= j < i ==> (#[trigger] items@[j]) is Some,
        decreases items.len() - i,
    {
        if items[i].is_none() {
            assert(opt_strings_view(items@)[i as int] is None);
            return false;
        }
        i = i + 1;
    }
    assert forall|j: int| 0 <= j < items.len() implies opt_strings_view(items@)[j] is Some by {
        assert(items@[j] is Some);
    }
    true
}

/// Whether no item was found.
fn all_missing(items: &Vec<Option<String>>) -> (none: bool)
    ensures
        none == (forall|j: int| 0 <= j < items.len() ==> opt_strings_view(items@)[j] is None),
{
    let mut i: usize = 0;
    while i < items.len()
        invariant
            i <= items.len(),
            forall|j: int| 0 <= j < i ==> (#[trigger] items@[j]) is None,
        decreases items.len() - i,
    {
        if items[i].is_some() {
            assert(opt_strings_view(items@)[i as int] is Some);
            return false;
        }
        i = i + 1;
    }
    assert forall|j: int| 0 <= j < items.len() implies opt_strings_view(items@)[j] is None by {
        assert(items@[j] is None);
    }
    true
}

/// Every line as a present item.
fn lines_as_items(ls: &Vec<String>) -> (r: Vec<Option<String>>)
    ensures
        opt_strings_view(r@) == Seq::new(ls.len() as nat, |i: int| Some(strings_view(ls@)[i])),
{
    let mut r: Vec<Option<String>> = Vec::new();
    let mut k: usize = 0;
    while k < ls.len()
        invariant
            k <= ls.len(),
            r.len() == k,
            forall|j: int| 0 <= j < k ==> opt_view(#[trigger] r@[j]) == Some(ls@[j]@),
        decreases ls.len() - k,
    {
        r.push(Some(ls[k].clone()));
        k = k + 1;
    }
    assert(opt_strings_view(r@) =~= Seq::new(
        ls.len() as nat,
        |i: int| Some(strings_view(ls@)[i]),
    ));
    r
}

/// Builds the translations: each item, or its source text when the item is
/// missing or blank.
fn finish(out: Vec<Option<String>>, request: &TranslateRequest) -> (r: Vec<Translation>)
    requires
        out.len() == request.texts.len(),
    ensures
        translations_with(
            r@,
            *request,
            Seq::new(
                request.texts.len() as nat,
                |i: int| final_text(opt_strings_view(out@)[i], request.texts@[i]@),
            ),
        ),
{
    let ghost want = Seq::new(
        request.texts.len() as nat,
        |i: int| final_text(opt_strings_view(out@)[i], request.texts@[i]@),
    );
    let mut r: Vec<Translation> = Vec::new();
    let mut i: usize = 0;
    while i < request.texts.len()
        invariant
            i <= request.texts.len(),
            out.len() == request.texts.len(),
            want == Seq::new(
                request.texts.len() as nat,
                |i: int| final_text(opt_strings_view(out@)[i], request.texts@[i]@),
            ),
            r.len() == i,
            forall|j: int|
                0 <= j < i ==> {
                    &&& (#[trigger] r@[j]).translated_text@ == want[j]
                    &&& r@[j].detected_source_lang == request.source_lang
                    &&& r@[j].target_lang == request.target_lang
                },
        decreases request.texts.len() - i,
    {
        let translated = match &out[i] {
            Some(t) => {
                let norm = normalize_text(t.as_str());
                if norm.as_str().is_empty() {
                    request.texts[i].clone()
                } else {
                    t.clone()
                }
            },
            None => request.texts[i].clone(),
        };
        assert(translated@ == want[i as int]);
        r.push(
            Translation {
                translated_text: translated,
                detected_source_lang: clone_opt_string(&request.source_lang),
                target_lang: request.target_lang.clone(),
            },
        );
        i = i + 1;
    }
    r
}

/// Reads the translations out of a provider response, given what JSON
/// parsing made of the trimmed response (`json`): see `response_texts`.
/// Missing or blank items fall back to the source text, so a partially formed
/// response never fails.
pub fn translations_from_response(
    json: Option<Vec<Option<String>>>,
    content: &str,
    request: &TranslateRequest,
) -> (r: Vec<Translation>)
    ensures
        translations_with(
            r@,
            *request,
            response_texts(
                json_view(json),
                content@,
                strings_view(request.texts@),
            ),
        ),
{
    let ghost jv = json_view(json);
    let ghost texts = strings_view(request.texts@);
    let n = request.texts.len();
    let cs = chars_of(content);
    assert(cs@.subrange(0, cs.len() as int) == cs@);
    let (a, b) = trim_bounds(&cs, 0, cs.len());
    let t = sub_chars(&cs, a, b);
    let ghost tt = trim_ws(content@);
    assert(t@ == tt);
    let usable = match &json {
        Some(v) => json_usable(v, n),
        None => false,
    };
    let items: Vec<Option<String>> = if usable {
        let v = json.unwrap();
        assert(jv == Some(opt_strings_view(v@)));
        assert(response_items(jv, tt, texts) == opt_strings_view(v@));
        v
    } else {
        assert(!(jv is Some && jv->0.len() == n && all_strings(jv->0)));
        let m = marker_slots(&t, &request.texts);
        assert(opt_strings_view(m@).len() == m@.len());
        assert(m.len() == n);
        if all_missing(&m) {
            let ls = nonempty_lines(&t);
            assert(forall|i: int| 0 <= i < n ==> (#[trigger] marker_segments(tt, texts)[i]) is None) by {
                assert forall|i: int| 0 <= i < n implies (#[trigger] marker_segments(tt, texts)[i]) is None by {
                    assert(opt_strings_view(m@)[i] is None);
                }
            }
            if ls.len() == n {
                let li = lines_as_items(&ls);
                assert(kept_lines(split_lines(tt)).len() == n);
                assert(opt_strings_view(li@) =~= response_items(jv, tt, texts));
                li
            } else {
                assert(opt_strings_view(m@) == response_items(jv, tt, texts));
                m
            }
        } else {
            assert(opt_strings_view(m@) == response_items(jv, tt, texts));
            m
        }
    };
    assert(opt_strings_view(items@) == response_items(jv, tt, texts));
    let r = finish(items, request);
    assert(Seq::new(
        request.texts.len() as nat,
        |i: int| final_text(opt_strings_view(items@)[i], request.texts@[i]@),
    ) =~= response_texts(jv, content@, texts));
    r
}

/// Parse a provider response into per-request translations, preserving
/// order. Accepts a plain JSON array of strings (`["铁剑", ...]`) or marker
/// lines (`[[0]]铁剑\n[[1]]攻击力 +30`), and falls back to the source text
/// for missing items.
pub fn parse_translation_response(content: &str, request: &TranslateRequest) -> (r: Result<
    Vec<Translation>,
    TranslateError,
>)
    ensures
        r matches Ok(v) && translations_with(
            v@,
            *request,
            response_texts(
                json_array_strings(trim_ws(content@)),
                content@,
                strings_view(request.texts@),
            ),
        ),
{
    let cs = chars_of(content);
    assert(cs@.subrange(0, cs.len() as int) == cs@);
    let (a, b) = trim_bounds(&cs, 0, cs.len());
    let trimmed = string_from_chars(&cs, a, b);
    let json = json_string_items(trimmed.as_str());
    Ok(translations_from_response(json, content, request))
}

} // verus!
