# miniinfer

A CPU-first runtime for GPT-2 style language models, split into a verified
core and a thin program around it.

## Layout

- `src/` is the library, verified with Verus. It holds everything that
  decides or arranges rather than computes on floating-point numbers:
  - `tensor`, `layout`, `ops`: tensors and their shape rules, the
    attention head layout (split and merge of heads, the fused q/k/v
    projection), embedding lookups and the operand checks of every kernel;
  - `kv_cache`: the per-layer key/value cache, its capacity rules and its
    payload accounting;
  - `byte_level`, `merges`, `bpe`, `gpt2_tokenizer`, `tokenizer`: GPT-2's
    byte-level BPE tokenizer (with its JSON vocabulary, read through
    `serde_json`) and a whitespace tokenizer, with decode-after-encode
    laws; for GPT-2 the law covers texts whose pre-tokenized words spell
    the whole text;
  - `generation`, `sampling`, `completion`: generation bookkeeping (prompt,
    limits, end of sequence, streaming chunks), the sampler settings and the
    completion endpoint's decisions;
  - `config`, `model`, `weights_index`, `quantized`, `dtype`: the model
    configuration and weight shape checks, the binary weight index and the
    decoding of its bytes, quantized and column-packed `i8` weights;
  - `bench`, `prompt_input`, `text`, `float_bits`: benchmark statistics,
    command-line token lists and the small text and IEEE 754 helpers.
- `app/` is the command-line program: argument parsing, file and network
  I/O, the floating-point kernels and forward pass, the samplers, timing
  and the HTTP server. The checks and decisions that do not depend on
  floating-point values, the clock or I/O are the library's.
- `tests/` runs the library on concrete values.

Floating-point values cross into the library as their IEEE 754 bit patterns
(temperatures, nucleus masses, layer-norm epsilons, quantization scales).
