# screen_translator_core

The logic of a live screen translator — capture a screen region, recognize
its text, translate what is new, draw the translations over the recognized text —
as a library verified with Verus.

## Layout

- `src/` — the verified library.
  - `cache.rs`: LRU cache with optional time-to-live, modelled as a sequence
    of `(key, value)` pairs in recency order, with its laws (read after
    write, eviction of the least recently used entry, capacity bound).
  - `text.rs`: whitespace trimming and collapsing (the cache-key normal form)
    and small character/string helpers.
  - `translation/`: requests, errors, the echo provider, the translation
    cache keyed by `(source, target, normalized text)`, and the
    OpenAI-compatible provider's logic (batch checks, endpoint, retry
    policy, prompts, response parsing).
  - `session.rs`: the per-region session state — OCR throttling, queueing of
    untranslated text, acceptance of results, failure release, batching.
  - `image.rs`, `diff.rs`: box-filter downscaling and frame signatures.
  - `capture.rs`, `ui.rs`, `layout.rs`, `ocr.rs`, `types.rs`, `config/`:
    capture clipping, region editing values, CJK detection, OCR errors,
    shared types and integer/text configuration defaults.
- `tests/` — tests run against the compiled library.
- `app/` — the program around the library: configuration files (serde),
  floating-point geometry and layout, the HTTP calls, threads and the
  pipeline loop.
