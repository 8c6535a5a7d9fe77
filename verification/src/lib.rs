//! A CPU-first GPT-2 style inference runtime: tensors, key/value caching,
//! byte-level BPE tokenization and generation bookkeeping, with the
//! floating-point kernels kept outside the verified core.

pub mod error;
pub mod dtype;
pub mod text;
pub mod byte_level;
pub mod merges;
pub mod bpe;
pub mod tokenizer;
pub mod gpt2_tokenizer;
pub mod tensor;
pub mod kv_cache;
pub mod ops;
pub mod layout;
pub mod backend;
pub mod sampling;
pub mod generation;
pub mod float_bits;
pub mod config;
pub mod prompt_input;
pub mod bench;
pub mod completion;
pub mod weights_index;
pub mod model;
pub mod quantized;
