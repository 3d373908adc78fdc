//! Hyperparameters of a model.

use crate::gguf::{self, GGUFFile, MetadataValue, Value};
use vstd::hash_map::StringHashMap;
use vstd::prelude::*;

verus! {

/// The hyperparameters of a model. The two that are no integers are held as the encodings of
/// single-precision numbers.
pub struct ModelConfig {
    pub n_layers: usize,
    pub embed_dim: usize,
    pub n_heads: usize,
    pub n_kv_heads: usize,
    pub head_dim: usize,
    pub ffn_dim: usize,
    pub vocab_size: usize,
    pub context_len: usize,
    pub rope_theta: u32,
    pub rms_eps: u32,
    pub rope_dim: usize,
    pub ssm_group_count: usize,
    pub ssm_state_size: usize,
}

/// The encoding of ten million.
pub const DEFAULT_ROPE_THETA: u32 = 0x4B18_9680;

/// The encoding of one millionth.
pub const DEFAULT_RMS_EPS: u32 = 0x3586_37BD;

/// The unsigned number under a key, or a default.
pub open spec fn count_in(metadata: Map<Seq<char>, Value>, key: Seq<char>, default: u64) -> usize {
    if metadata.contains_key(key) {
        match metadata[key] {
            Value::U64(n) => n as usize,
            Value::U32(n) => n as usize,
            _ => default as usize,
        }
    } else {
        default as usize
    }
}

/// The encoding of the single-precision number under a key, or a default.
pub open spec fn bits_in(metadata: Map<Seq<char>, Value>, key: Seq<char>, default: u32) -> u32 {
    if metadata.contains_key(key) {
        match metadata[key] {
            Value::F32(bits) => bits,
            _ => default,
        }
    } else {
        default
    }
}

/// The length of the array under a key, or a default.
pub open spec fn array_len_in(
    metadata: Map<Seq<char>, Value>,
    key: Seq<char>,
    default: usize,
) -> int {
    if metadata.contains_key(key) {
        match metadata[key] {
            Value::Array(items) => items.len() as int,
            _ => default as int,
        }
    } else {
        default as int
    }
}

/// A number under a key counts whether it has 64 bits or 32; where there is none the default does.
pub proof fn law_count(metadata: Map<Seq<char>, Value>, key: Seq<char>, default: u64, n: usize)
    ensures
        metadata.contains_key(key) && metadata[key] == Value::U64(n as u64) ==> count_in(
            metadata,
            key,
            default,
        ) == n,
        metadata.contains_key(key) && metadata[key] == Value::U32(n as u32) && n <= u32::MAX
            ==> count_in(metadata, key, default) == n,
        !metadata.contains_key(key) ==> count_in(metadata, key, default) == default as usize,
        metadata.contains_key(key) && !(metadata[key] is U64) && !(metadata[key] is U32) ==> count_in(
            metadata,
            key,
            default,
        ) == default as usize,
{
}

fn count_of(metadata: &StringHashMap<MetadataValue>, key: &str, default: u64) -> (n: usize)
    ensures
        n == count_in(gguf::metadata_of(metadata@), key@, default),
{
    let n: u64 = match metadata.get(key) {
        Some(v) => match v.as_u64() {
            Some(n) => n,
            None => default,
        },
        None => default,
    };
    n as usize
}

fn bits_of(metadata: &StringHashMap<MetadataValue>, key: &str, default: u32) -> (bits: u32)
    ensures
        bits == bits_in(gguf::metadata_of(metadata@), key@, default),
{
    match metadata.get(key) {
        Some(v) => match v.as_f32() {
            Some(bits) => bits,
            None => default,
        },
        None => default,
    }
}

fn array_len_of(metadata: &StringHashMap<MetadataValue>, key: &str, default: usize) -> (n: usize)
    ensures
        n == array_len_in(gguf::metadata_of(metadata@), key@, default),
{
    match metadata.get(key) {
        Some(v) => match v {
            MetadataValue::Array(items) => items.len(),
            _ => default,
        },
        None => default,
    }
}

impl ModelConfig {
    /// The hyperparameters in the metadata of a file. What is missing there, or of another type,
    /// is as in the model of 0.8 billion parameters.
    pub fn from_gguf(gguf: &GGUFFile) -> (config: Self)
        ensures
            config.n_layers == count_in(gguf@.metadata, "qwen35.block_count"@, 24),
            config.embed_dim == count_in(gguf@.metadata, "qwen35.embedding_length"@, 1024),
            config.n_heads == count_in(gguf@.metadata, "qwen35.attention.head_count"@, 8),
            config.n_kv_heads == count_in(gguf@.metadata, "qwen35.attention.head_count_kv"@, 2),
            config.head_dim == count_in(gguf@.metadata, "qwen35.attention.value_length"@, 256),
            config.ffn_dim == count_in(gguf@.metadata, "qwen35.feed_forward_length"@, 3584),
            config.vocab_size == array_len_in(gguf@.metadata, "tokenizer.ggml.tokens"@, 248320),
            config.context_len == count_in(gguf@.metadata, "qwen35.context_length"@, 262144),
            config.rope_theta == bits_in(
                gguf@.metadata,
                "qwen35.rope.freq_base"@,
                DEFAULT_ROPE_THETA,
            ),
            config.rms_eps == bits_in(
                gguf@.metadata,
                "qwen35.attention.layer_norm_rms_epsilon"@,
                DEFAULT_RMS_EPS,
            ),
            config.rope_dim == count_in(gguf@.metadata, "qwen35.rope.dimension_count"@, 64),
            config.ssm_group_count == count_in(gguf@.metadata, "qwen35.ssm.group_count"@, 16),
            config.ssm_state_size == count_in(gguf@.metadata, "qwen35.ssm.state_size"@, 128),
    {
        let md = &gguf.metadata;
        ModelConfig {
            n_layers: count_of(md, "qwen35.block_count", 24),
            embed_dim: count_of(md, "qwen35.embedding_length", 1024),
            n_heads: count_of(md, "qwen35.attention.head_count", 8),
            n_kv_heads: count_of(md, "qwen35.attention.head_count_kv", 2),
            head_dim: count_of(md, "qwen35.attention.value_length", 256),
            ffn_dim: count_of(md, "qwen35.feed_forward_length", 3584),
            vocab_size: array_len_of(md, "tokenizer.ggml.tokens", 248320),
            context_len: count_of(md, "qwen35.context_length", 262144),
            rope_theta: bits_of(md, "qwen35.rope.freq_base", DEFAULT_ROPE_THETA),
            rms_eps: bits_of(md, "qwen35.attention.layer_norm_rms_epsilon", DEFAULT_RMS_EPS),
            rope_dim: count_of(md, "qwen35.rope.dimension_count", 64),
            ssm_group_count: count_of(md, "qwen35.ssm.group_count", 16),
            ssm_state_size: count_of(md, "qwen35.ssm.state_size", 128),
        }
    }
}

} // verus!
