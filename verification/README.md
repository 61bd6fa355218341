# simple_llm

A small next-token language model, split in two:

- `src/` is a Verus library with the parts whose behaviour can be stated and
  proved: the word tokenizer (splitting, vocabulary in first-seen order,
  encoding and decoding), the byte-pair tokenizer (training by most frequent
  pairs, building the vocabulary, encoding by merge priority, decoding), the
  sliding windows that turn tokens into training examples, the command-line
  parser, the snapshot schedule and the ranking of candidate tokens.
  Each public function states what it returns in its `ensures`; the
  round-trip laws of both tokenizers are proof functions
  (`lemma_encode_decode_roundtrip` in each tokenizer module).
- `app/` is the program around it: reading files and arguments, the
  floating-point layers (embedding, causal self-attention, output layer),
  training with SGD and generation.

`tests/` runs the library on concrete inputs.
