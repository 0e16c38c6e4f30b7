# stembed

A library for static embedding models: a WordPiece tokenizer with BERT-style
normalization, a vocabulary, and a compact binary format for models. The
tokenizer, the vocabulary and the binary format are verified with Verus;
the floating-point embedding arithmetic lives in the program under `app/`.

Layout of `src/`:

- `text.rs` — conversions between strings and character vectors, and the
  `split_by` model of `str::split`.
- `token_map.rs` — `TokenMap`, a hash map from tokens to ids whose view is a
  `Map<Seq<char>, usize>`.
- `vocab.rs` — `Vocab`: a token map with the unknown-token id, built from a
  newline-delimited token list.
- `unicode.rs` — the Unicode properties and transformations taken from
  `std`, `unicode_categories` and `unicode_normalization_alignments`.
- `normalizer.rs` — the `Normalizer` trait and `BertNormalizer`.
- `wordpiece.rs` — the `Tokenizer` trait and `WordPieceTokenizer`
  (greedy longest-match-first).
- `weights.rs` — weight types, byte orders, and the split of weight buffers
  into 16- and 32-bit words.
- `model_binary.rs` — `StaticEmbeddingModelBuilder` and the model binary
  format, with proofs that writing then reading, and reading then writing,
  give back what was there.
- `huggingface.rs` — the choice of the module to load from a repository's
  `modules.json`.
