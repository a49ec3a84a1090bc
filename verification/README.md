# reader_core

The text-processing core of an e-book reader, written in Verus: chapter text
cleaning and preprocessing (chapter-title removal, re-segmentation, replace rules,
HTML tag protection), paragraph splitting and formatting, chapter-title parsing,
line-break rules, position tracking, and the decision logic of the caches,
preloading and per-chapter task scheduling.

Layout:

- `src/` — the verified library. Public functions state their results in their
  contracts over spec functions; the laws that relate several functions are public
  proof functions (`lemma_*`). Where a result rests on something outside the
  library, the contract says what holds of every outcome: `ProcessingPipeline::process`
  states that its result is that of a prefix of the stages, all of them or one
  ending with a stage that ran, since where it stops depends on the clock; a
  stage written by a user is held only to what it states of itself. Calls into
  `regex`, `unicode-segmentation`, `lru`, `strsim` and std's hasher go through
  small trusted wrappers in `pattern.rs`, `text_boundary.rs`,
  `preprocessed_cache.rs`, `title_match.rs` and `hashing.rs`.
- `app/` — the runtime around it: tokio task runners that perform the actions
  the library decides (chapter task slots, preload workers, the cache window),
  async wrappers, the error type with its display texts, and the pieces that
  work with floating-point scores (the fuzzy title threshold, format ratios,
  rates).
- `tests/` — tests of the library on concrete values.

Not part of this crate: the glyph layout engine (font metrics, justification and
punctuation compression work in floating point), and Simplified/Traditional
Chinese conversion, whose conversion crate is not available here;
`ProcessOptions::chinese_convert` is carried but not applied.
