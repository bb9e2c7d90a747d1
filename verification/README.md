# rwkv7

Inference for RWKV-7 language models, with the text and scheduling logic
verified by Verus.

## Layout

- `src/trie.rs`: a byte trie (`TRIE`) with longest-match lookup; `add` and
  `find_longest` are specified over a map from paths to nodes.
- `src/tokenizer.rs`: `TRIE_TOKENIZER`, greedy longest-match encoding and
  decoding, with the round-trip laws (`lemma_decode_encode`,
  `lemma_text_roundtrip`, `lemma_vocab_roundtrip`).
- `src/vocab.rs`: reading one line of a vocabulary file, with an exact
  `i64` parser.
- `src/schedule.rs`: the plan by which sequences of different lengths are fed
  through the model in a batch, and the law that the plan feeds every token
  exactly once (`lemma_schedule_covers`).
- `src/model.rs`: the model's input kinds, weight-name rules, sizes and state
  shapes.
- `src/generation.rs`: cutting generated ids at end-of-text and regrouping
  them per sequence.
- `app/`: the program around the library: loading weights and the vocabulary
  file, the tensor arithmetic (through `tch` and a CUDA kernel), sampling and
  the generation loop.

The tests under `tests/` run the library on concrete values.
