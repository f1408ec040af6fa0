//! Decision logic of a streamed mixture-of-experts inference engine.
//!
//! The engine itself moves tensors between disk, memory and accelerators. This
//! crate holds what it decides: which tokens to draft, which of them stand,
//! which experts to warm, pin or replicate, how wide to run, what a cache is
//! left holding after a rewind. Every function states its result in a contract
//! and Verus proves it.

pub mod artifacts;
pub mod cfg;
pub mod container;
pub mod decode;
pub mod drafts;
pub mod governor;
pub mod json;
pub mod knobs;
pub mod kv;
pub mod layers;
pub mod load;
pub mod model;
pub mod mtp;
pub mod ngram;
pub mod numa;
pub mod pinned;
pub mod predeval;
pub mod prefetch;
pub mod ram;
pub mod rank;
pub mod reports;
pub mod residency;
pub mod rows;
pub mod scoring;
pub mod seqkv;
pub mod stack;
pub mod text;
pub mod traces;
