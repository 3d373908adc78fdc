//! Verified core of an LLM inference engine for GGUF model files.

pub mod arith;
pub mod attention;
pub mod bytes;
pub mod cache;
pub mod config;
pub mod determinism;
pub mod elementwise;
pub mod exact;
pub mod exact_attention;
pub mod exact_model;
pub mod exact_quant;
pub mod exact_recurrent;
pub mod exact_rope;
pub mod exact_sampler;
pub mod feedforward;
pub mod generate;
pub mod gguf;
pub mod merges;
pub mod model;
pub mod names;
pub mod quant;
pub mod ranking;
pub mod recurrent;
pub mod rotary;
pub mod sampler;
pub mod sequences;
pub mod shape;
pub mod tensor;
pub mod tokenizer;
pub mod weights;
