# ferrite

The core of an inference engine for hybrid transformer and recurrent language models in GGUF
files, written in Rust and verified with Verus. Nothing in it comes from a framework for machine
learning.

## What it does

- Parses GGUF files from their bytes: header, metadata, tensor index.
- Decodes eight formats of weights, as the `gguf` library does: F32, F16, BF16, Q8_0, Q4_K, Q5_K,
  Q6_K and IQ4_XS.
- Encodes and decodes text with byte-pair encoding, by the vocabulary and merges of the file. The
  strings of control and user-defined tokens are special: text is cut at them, and each becomes its
  one token.
- Passes tokens through the model: in every fourth layer grouped-query attention with gated
  output, partial rotary embedding and a key-value cache, in the others a gated delta-rule
  recurrence behind a causal convolution.
- Chooses tokens greedily or by chance, with temperature, top-k and top-p.

## Layout

- `src/` is the verified library.
  - `gguf`, `bytes`, `weights`, `quant`: files and their tensors
  - `shape`, `tensor`, `elementwise`, `arith`: tensors and their arithmetic
  - `config`, `names`, `cache`, `rotary`, `attention`, `feedforward`, `recurrent`, `model`: the
    model
  - `tokenizer`, `merges`, `sequences`: text and tokens
  - `sampler`, `ranking`, `generate`: the choice of tokens
  - `determinism`: where arithmetic is a function, so is everything computed with it
- `tests/` holds its tests.
- `app/` is the program around it: files, memory maps, chance and output.

## Floating point

The library is generic in its element type. Contracts say which values a result may have, in terms
of the values that the operations on elements may give; `arith::Math` stands for the functions that
the operators of Rust do not offer, and promises nothing about them. `app/math.rs` gives the
arithmetic of the machine.
