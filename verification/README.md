# peregrine_model

The decision logic of a mixture-of-experts inference engine that keeps most of
its weights on disk, written in Rust and verified with Verus.

A model of this kind reads experts from storage while it computes, and guesses
ahead of itself. This crate holds the rules by which it decides what to read,
keep, guess and take back, each with a contract and a proof:

- `decode`, `drafts`, `rows`, `ngram`: greedy and speculative decoding, drafting,
  batched verification. Speculation emits what greedy decoding emits, and is used
  only where a rejected draft can be undone.
- `kv`, `seqkv`: per-layer and per-sequence caches: append, rewind, fork, gather,
  export and import.
- `cfg`, `layers`, `container`, `load`: what a checkpoint's shape demands, which
  tensors are read, which buffers and devices a load gets.
- `ram`, `knobs`, `text`, `numa`: memory figures, settings and their spelling.
- `stack`: which layer runs when, and what is warmed beside it.
- `prefetch`, `residency`, `mtp`, `rank`: which experts to read ahead, keep and
  pin.
- `predeval`, `scoring`, `reports`, `traces`, `governor`: measuring predictors,
  reporting, pacing.
- `json`, `artifacts`: the documents beside a checkpoint.
- `model`, `pinned`: the state a running model carries, and what it can be asked.

`src/` is the library; every item in it is verified. The few functions whose
contract is believed and not proved wrap `serde_json` and `Arc`; they are in
`json`, `traces` and `kv`, and each says what it claims. `app/` is the machine
around the library: settings, files, sensors, threads and floating point.
`tests/` runs the library.
