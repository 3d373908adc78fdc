use ferrite::arith::Math;
use ferrite::cache::{KVCache, SSMState};
use ferrite::config::ModelConfig;
use ferrite::gguf::{parse, GGUFError, GGUF_MAGIC};
use ferrite::model::{attention, ssm_block, transformer_block, Model};
use ferrite::names::block_name_of;
use ferrite::rotary::rope;
use ferrite::tensor::Tensor;
use ferrite::weights::WeightStore;

/// Single-precision arithmetic.
struct StdMath;

impl Math<f32> for StdMath {
    fn from_bits(&self, bits: u32) -> f32 {
        f32::from_bits(bits)
    }

    fn from_half(&self, bits: u16) -> f32 {
        half::f16::from_bits(bits).to_f32()
    }

    fn from_int(&self, n: i32) -> f32 {
        n as f32
    }

    fn from_usize(&self, n: usize) -> f32 {
        n as f32
    }

    fn lowest(&self) -> f32 {
        f32::NEG_INFINITY
    }

    fn max(&self, a: f32, b: f32) -> f32 {
        a.max(b)
    }

    fn exp(&self, x: f32) -> f32 {
        x.exp()
    }

    fn ln(&self, x: f32) -> f32 {
        x.ln()
    }

    fn sqrt(&self, x: f32) -> f32 {
        x.sqrt()
    }

    fn sin(&self, x: f32) -> f32 {
        x.sin()
    }

    fn cos(&self, x: f32) -> f32 {
        x.cos()
    }

    fn pow(&self, base: f32, exponent: f32) -> f32 {
        base.powf(exponent)
    }
}

const EPS: f32 = 1e-6;

fn config() -> ModelConfig {
    ModelConfig {
        n_layers: 4,
        embed_dim: 4,
        n_heads: 2,
        n_kv_heads: 1,
        head_dim: 4,
        ffn_dim: 6,
        vocab_size: 3,
        context_len: 16,
        rope_theta: 100.0f32.to_bits(),
        rms_eps: EPS.to_bits(),
        rope_dim: 2,
        ssm_group_count: 2,
        ssm_state_size: 2,
    }
}

/// Weights without a pattern, of about the size of one.
struct Noise(u32);

impl Noise {
    fn floats(&mut self, n: usize) -> Vec<f32> {
        (0..n)
            .map(|_| {
                self.0 = self.0.wrapping_mul(1664525).wrapping_add(1013904223);
                (self.0 >> 16) as f32 / 32768.0 - 1.0
            })
            .collect()
    }
}

type Weights = Vec<(String, Vec<usize>, Vec<f32>)>;

/// The weights of a model with the configuration above.
fn weights() -> Weights {
    let mut noise = Noise(1);
    let mut all: Weights = Vec::new();
    let mut put = |name: String, dims: Vec<usize>| {
        let n = dims.iter().product();
        all.push((name, dims, noise.floats(n)));
    };
    put("token_embd.weight".to_string(), vec![3, 4]);
    put("output_norm.weight".to_string(), vec![4]);
    for layer in 0..4 {
        let mut block = |suffix: &str, dims: Vec<usize>| {
            put(format!("blk.{}.{}", layer, suffix), dims);
        };
        block("attn_norm.weight", vec![4]);
        if layer == 3 {
            block("attn_q.weight", vec![16, 4]);
            block("attn_k.weight", vec![4, 4]);
            block("attn_v.weight", vec![4, 4]);
            block("attn_output.weight", vec![4, 8]);
            block("attn_q_norm.weight", vec![4]);
            block("attn_k_norm.weight", vec![4]);
            block("post_attention_norm.weight", vec![4]);
            block("ffn_gate.weight", vec![6, 4]);
            block("ffn_up.weight", vec![6, 4]);
            block("ffn_down.weight", vec![4, 6]);
        } else {
            block("attn_qkv.weight", vec![12, 4]);
            block("attn_gate.weight", vec![4, 4]);
            block("ssm_conv1d.weight", vec![12, 4]);
            block("ssm_a", vec![2]);
            block("ssm_alpha.weight", vec![2, 4]);
            block("ssm_beta.weight", vec![2, 4]);
            block("ssm_dt.bias", vec![2]);
            block("ssm_norm.weight", vec![2]);
            block("ssm_out.weight", vec![4, 4]);
        }
    }
    all
}

fn put_str(out: &mut Vec<u8>, s: &str) {
    out.extend_from_slice(&(s.len() as u64).to_le_bytes());
    out.extend_from_slice(s.as_bytes());
}

/// A file of single-precision tensors.
fn file(weights: &Weights) -> Vec<u8> {
    let mut out = Vec::new();
    out.extend_from_slice(&GGUF_MAGIC.to_le_bytes());
    out.extend_from_slice(&3u32.to_le_bytes());
    out.extend_from_slice(&(weights.len() as u64).to_le_bytes());
    out.extend_from_slice(&0u64.to_le_bytes());
    let mut data = Vec::new();
    for (name, dims, xs) in weights {
        put_str(&mut out, name);
        out.extend_from_slice(&(dims.len() as u32).to_le_bytes());
        for d in dims.iter().rev() {
            out.extend_from_slice(&(*d as u64).to_le_bytes());
        }
        out.extend_from_slice(&0u32.to_le_bytes());
        out.extend_from_slice(&(data.len() as u64).to_le_bytes());
        for x in xs {
            data.extend_from_slice(&x.to_le_bytes());
        }
    }
    while out.len() % 32 != 0 {
        out.push(0);
    }
    out.extend_from_slice(&data);
    out
}

fn model(bytes: &[u8]) -> Model<'_, f32, StdMath> {
    Model::new(config(), WeightStore::open(bytes, StdMath).unwrap())
}

fn named<'a>(weights: &'a Weights, name: &str) -> &'a Vec<f32> {
    &weights.iter().find(|w| w.0 == name).unwrap().2
}

fn times(w: &[f32], x: &[f32]) -> Vec<f32> {
    w.chunks(x.len()).map(|row| row.iter().zip(x).fold(0.0, |s, (a, b)| s + a * b)).collect()
}

fn norm(x: &[f32], w: &[f32]) -> Vec<f32> {
    let sq: f32 = x.iter().fold(0.0, |s, a| s + a * a);
    let rms = (sq / x.len() as f32 + EPS).sqrt();
    x.iter().zip(w).map(|(a, b)| a / rms * b).collect()
}

fn sum(a: &[f32], b: &[f32]) -> Vec<f32> {
    a.iter().zip(b).map(|(x, y)| x + y).collect()
}

fn logistic(x: f32) -> f32 {
    1.0 / (1.0 + (-x).exp())
}

fn close(a: &[f32], b: &[f32]) {
    assert_eq!(a.len(), b.len());
    for i in 0..a.len() {
        assert!((a[i] - b[i]).abs() <= 1e-4 * (1.0 + b[i].abs()), "{:?} and {:?}", a, b);
    }
}

/// Turns the first two of four elements.
fn turn(x: &[f32], pos: usize) -> Vec<f32> {
    let (c, s) = ((pos as f32).cos(), (pos as f32).sin());
    vec![x[0] * c - x[1] * s, x[0] * s + x[1] * c, x[2], x[3]]
}

/// Attention in layer 3, over all positions so far.
fn attention_by_hand(w: &Weights, xs: &[Vec<f32>]) -> Vec<f32> {
    let get = |suffix: &str| named(w, &format!("blk.3.{}", suffix));
    let pos = xs.len() - 1;
    let q = times(get("attn_q.weight"), &xs[pos]);
    let keys: Vec<Vec<f32>> = xs
        .iter()
        .enumerate()
        .map(|(t, x)| turn(&norm(&times(get("attn_k.weight"), x), get("attn_k_norm.weight")), t))
        .collect();
    let values: Vec<Vec<f32>> = xs.iter().map(|x| times(get("attn_v.weight"), x)).collect();
    let mut out = Vec::new();
    for h in 0..2 {
        let query = turn(&norm(&q[8 * h..8 * h + 4], get("attn_q_norm.weight")), pos);
        let gate = &q[8 * h + 4..8 * h + 8];
        let scores: Vec<f32> = keys.iter().map(|k| times(k, &query)[0] / 2.0).collect();
        let top = scores.iter().fold(f32::NEG_INFINITY, |a, b| a.max(*b));
        let es: Vec<f32> = scores.iter().map(|s| (s - top).exp()).collect();
        let total: f32 = es.iter().sum();
        for d in 0..4 {
            let x = (0..=pos).fold(0.0, |s, t| s + es[t] / total * values[t][d]);
            out.push(x * logistic(gate[d]));
        }
    }
    times(get("attn_output.weight"), &out)
}

/// A recurrent block on all positions so far, in its layer.
fn recurrence_by_hand(w: &Weights, layer: usize, xs: &[Vec<f32>]) -> Vec<f32> {
    let get = |suffix: &str| named(w, &format!("blk.{}.{}", layer, suffix));
    let mut states = vec![vec![0.0f32; 4]; 2];
    let mut inputs = vec![vec![0.0f32; 12]; 3];
    let mut y = Vec::new();
    for x in xs {
        inputs.push(times(get("attn_qkv.weight"), x));
        let last = &inputs[inputs.len() - 4..];
        let mixed: Vec<f32> = (0..12)
            .map(|c| {
                let v = (0..4).fold(0.0, |s, t| s + get("ssm_conv1d.weight")[4 * c + t] * last[t][c]);
                v * logistic(v)
            })
            .collect();
        let z = times(get("attn_gate.weight"), x);
        let alpha = times(get("ssm_alpha.weight"), x);
        let beta = times(get("ssm_beta.weight"), x);
        let mut out = Vec::new();
        for g in 0..2 {
            let (q, k, v) = (&mixed[2 * g..2 * g + 2], &mixed[4 + 2 * g..], &mixed[8 + 2 * g..]);
            let softplus = (1.0 + (alpha[g] + get("ssm_dt.bias")[g]).exp()).ln();
            let decay = (-(get("ssm_a")[g].exp() * softplus)).exp();
            let s = &mut states[g];
            for e in s.iter_mut() {
                *e *= decay;
            }
            let predicted = [s[0] * k[0] + s[1] * k[1], s[2] * k[0] + s[3] * k[1]];
            for i in 0..2 {
                for j in 0..2 {
                    s[2 * i + j] += (v[i] - predicted[i]) * k[j] * logistic(beta[g]);
                }
            }
            let read = [s[0] * q[0] + s[1] * q[1], s[2] * q[0] + s[3] * q[1]];
            out.extend(norm(&read, get("ssm_norm.weight")));
        }
        let gated: Vec<f32> = out.iter().zip(&z).map(|(a, b)| a * (b * logistic(*b))).collect();
        y = times(get("ssm_out.weight"), &gated);
    }
    y
}

/// The logits behind a text, from the beginning.
fn logits_by_hand(w: &Weights, tokens: &[u32]) -> Vec<f32> {
    let table = named(w, "token_embd.weight");
    let mut xs: Vec<Vec<f32>> =
        tokens.iter().map(|t| table[4 * *t as usize..4 * *t as usize + 4].to_vec()).collect();
    for layer in 0..4 {
        let get = |suffix: &str| named(w, &format!("blk.{}.{}", layer, suffix));
        let normed: Vec<Vec<f32>> = xs.iter().map(|x| norm(x, get("attn_norm.weight"))).collect();
        let mut next = Vec::new();
        for t in 0..xs.len() {
            if layer == 3 {
                let mid = sum(&xs[t], &attention_by_hand(w, &normed[..=t]));
                let n = norm(&mid, get("post_attention_norm.weight"));
                let gate = times(get("ffn_gate.weight"), &n);
                let up = times(get("ffn_up.weight"), &n);
                let h: Vec<f32> = gate.iter().zip(&up).map(|(a, b)| a * logistic(*a) * b).collect();
                next.push(sum(&mid, &times(get("ffn_down.weight"), &h)));
            } else {
                next.push(sum(&xs[t], &recurrence_by_hand(w, layer, &normed[..=t])));
            }
        }
        xs = next;
    }
    let last = norm(&xs[xs.len() - 1], named(w, "output_norm.weight"));
    times(table, &last)
}

#[test]
fn test_model_config_defaults() {
    let cfg = ModelConfig {
        n_layers: 24,
        embed_dim: 1024,
        n_heads: 8,
        n_kv_heads: 2,
        head_dim: 256,
        ffn_dim: 3584,
        vocab_size: 248320,
        context_len: 262144,
        rope_theta: 10_000_000.0f32.to_bits(),
        rms_eps: 1e-6f32.to_bits(),
        rope_dim: 64,
        ssm_group_count: 16,
        ssm_state_size: 128,
    };
    assert_eq!(cfg.n_heads / cfg.n_kv_heads, 4);
    assert_eq!(cfg.ssm_group_count * cfg.ssm_state_size, 2048);
}

#[test]
fn hyperparameters_have_defaults() {
    let mut b = GGUF_MAGIC.to_le_bytes().to_vec();
    b.extend_from_slice(&3u32.to_le_bytes());
    b.extend_from_slice(&[0; 16]);
    let cfg = ModelConfig::from_gguf(&parse(&b).unwrap());
    assert_eq!(cfg.n_layers, 24);
    assert_eq!(cfg.embed_dim, 1024);
    assert_eq!(cfg.n_heads, 8);
    assert_eq!(cfg.n_kv_heads, 2);
    assert_eq!(cfg.head_dim, 256);
    assert_eq!(cfg.ffn_dim, 3584);
    assert_eq!(cfg.vocab_size, 248320);
    assert_eq!(cfg.context_len, 262144);
    assert_eq!(f32::from_bits(cfg.rope_theta), 10_000_000.0);
    assert_eq!(f32::from_bits(cfg.rms_eps), 1e-6);
    assert_eq!(cfg.rope_dim, 64);
    assert_eq!(cfg.ssm_group_count, 16);
    assert_eq!(cfg.ssm_state_size, 128);
    assert!(cfg.is_sound());
}

#[test]
fn hyperparameters_are_read_from_metadata() {
    let counts = [
        "qwen35.block_count",
        "qwen35.embedding_length",
        "qwen35.attention.head_count",
        "qwen35.attention.head_count_kv",
        "qwen35.attention.value_length",
        "qwen35.feed_forward_length",
        "qwen35.context_length",
        "qwen35.rope.dimension_count",
        "qwen35.ssm.group_count",
        "qwen35.ssm.state_size",
    ];
    let mut b = GGUF_MAGIC.to_le_bytes().to_vec();
    b.extend_from_slice(&3u32.to_le_bytes());
    b.extend_from_slice(&0u64.to_le_bytes());
    b.extend_from_slice(&(counts.len() as u64 + 3).to_le_bytes());
    for (i, key) in counts.iter().enumerate() {
        put_str(&mut b, key);
        // numbers of 32 and of 64 bits
        if i % 2 == 0 {
            b.extend_from_slice(&4u32.to_le_bytes());
            b.extend_from_slice(&(i as u32 + 1).to_le_bytes());
        } else {
            b.extend_from_slice(&10u32.to_le_bytes());
            b.extend_from_slice(&(i as u64 + 1).to_le_bytes());
        }
    }
    put_str(&mut b, "qwen35.rope.freq_base");
    b.extend_from_slice(&6u32.to_le_bytes());
    b.extend_from_slice(&5.0f32.to_le_bytes());
    // a number of another type does not count
    put_str(&mut b, "qwen35.attention.layer_norm_rms_epsilon");
    b.extend_from_slice(&12u32.to_le_bytes());
    b.extend_from_slice(&5.0f64.to_le_bytes());
    put_str(&mut b, "tokenizer.ggml.tokens");
    b.extend_from_slice(&9u32.to_le_bytes());
    b.extend_from_slice(&0u32.to_le_bytes());
    b.extend_from_slice(&3u64.to_le_bytes());
    b.extend_from_slice(&[0; 3]);
    let cfg = ModelConfig::from_gguf(&parse(&b).unwrap());
    assert_eq!(cfg.n_layers, 1);
    assert_eq!(cfg.embed_dim, 2);
    assert_eq!(cfg.n_heads, 3);
    assert_eq!(cfg.n_kv_heads, 4);
    assert_eq!(cfg.head_dim, 5);
    assert_eq!(cfg.ffn_dim, 6);
    assert_eq!(cfg.context_len, 7);
    assert_eq!(cfg.rope_dim, 8);
    assert_eq!(cfg.ssm_group_count, 9);
    assert_eq!(cfg.ssm_state_size, 10);
    assert_eq!(f32::from_bits(cfg.rope_theta), 5.0);
    assert_eq!(f32::from_bits(cfg.rms_eps), 1e-6);
    assert_eq!(cfg.vocab_size, 3);
    // three query heads cannot share four key heads
    assert!(!cfg.is_sound());
}

#[test]
fn names_of_block_tensors() {
    assert_eq!(block_name_of(0, "ssm_a"), "blk.0.ssm_a");
    assert_eq!(block_name_of(7, "attn_q.weight"), "blk.7.attn_q.weight");
    assert_eq!(block_name_of(10, "x"), "blk.10.x");
    assert_eq!(block_name_of(2304, ""), "blk.2304.");
}

#[test]
fn queries_and_keys_are_turned_in_halves() {
    let mut cfg = config();
    cfg.rope_dim = 4;
    cfg.head_dim = 5;
    let q = Tensor::from_vec((1..=10).map(|x| x as f32).collect(), vec![2, 5]);
    let k = Tensor::from_vec(vec![1.0f32, 0.0, 0.0, 2.0, 9.0], vec![1, 5]);
    let (qr, kr) = rope(&q, &k, 3, &cfg, &StdMath);
    // the angles are 3 and 3 / sqrt(theta); element 0 goes with element 2, 1 with 3
    let (a, b) = (3.0f32, 3.0f32 / 10.0);
    close(
        qr.data(),
        &[
            1.0 * a.cos() - 3.0 * a.sin(),
            2.0 * b.cos() - 4.0 * b.sin(),
            1.0 * a.sin() + 3.0 * a.cos(),
            2.0 * b.sin() + 4.0 * b.cos(),
            5.0,
            6.0 * a.cos() - 8.0 * a.sin(),
            7.0 * b.cos() - 9.0 * b.sin(),
            6.0 * a.sin() + 8.0 * a.cos(),
            7.0 * b.sin() + 9.0 * b.cos(),
            10.0,
        ],
    );
    close(kr.data(), &[a.cos(), -2.0 * b.sin(), a.sin(), 2.0 * b.cos(), 9.0]);
    // at position zero nothing is turned
    let (q0, k0) = rope(&q, &k, 0, &cfg, &StdMath);
    assert_eq!(q0.data(), q.data());
    assert_eq!(k0.data(), k.data());
}

#[test]
fn the_embedding_is_a_row_of_the_table() {
    let w = weights();
    let bytes = file(&w);
    let mut m = model(&bytes);
    let x = m.embed(2).unwrap();
    assert_eq!(x.data(), &named(&w, "token_embd.weight")[8..12]);
    assert_eq!(x.shape(), &[4]);
    assert!(matches!(m.embed(3), Err(GGUFError::InvalidShape)));
}

#[test]
fn attention_over_several_positions() {
    let w = weights();
    let bytes = file(&w);
    let mut m = model(&bytes);
    let mut cache = KVCache::new(&m.config, 4);
    let mut noise = Noise(77);
    let xs: Vec<Vec<f32>> = (0..3).map(|_| noise.floats(4)).collect();
    for pos in 0..3 {
        let x = Tensor::from_vec(xs[pos].clone(), vec![4]);
        let y = attention(&x, 3, pos, &mut m, &mut cache).unwrap();
        close(y.data(), &attention_by_hand(&w, &xs[..=pos]));
    }
}

#[test]
fn attention_does_not_look_ahead() {
    let w = weights();
    let bytes = file(&w);
    let mut m = model(&bytes);
    let x = Tensor::from_vec(vec![1.0f32, -0.5, 0.25, 2.0], vec![4]);
    let mut fresh = KVCache::new(&m.config, 4);
    let y = attention(&x, 3, 0, &mut m, &mut fresh).unwrap();
    let mut used = KVCache::new(&m.config, 4);
    let ones = Tensor::from_vec(vec![1.0f32; 4], vec![1, 4]);
    for pos in 0..4 {
        used.update(&m.config, 3, pos, &ones, &ones);
    }
    let z = attention(&x, 3, 0, &mut m, &mut used).unwrap();
    assert_eq!(y.data(), z.data());
    let cfg = config();
    assert_eq!(used.get_keys_up_to(3, 4, &cfg).data()[4..], [1.0; 12]);
}

#[test]
fn recurrence_over_several_positions() {
    let w = weights();
    let bytes = file(&w);
    let mut m = model(&bytes);
    let mut state = SSMState::new(&m.config);
    let mut noise = Noise(99);
    let xs: Vec<Vec<f32>> = (0..6).map(|_| noise.floats(4)).collect();
    for pos in 0..6 {
        let x = Tensor::from_vec(xs[pos].clone(), vec![4]);
        let y = ssm_block(&x, 1, &mut m, &mut state).unwrap();
        close(y.data(), &recurrence_by_hand(&w, 1, &xs[..=pos]));
    }
}

#[test]
fn a_transformer_block_keeps_the_shape() {
    let w = weights();
    let bytes = file(&w);
    let mut m = model(&bytes);
    let mut cache = KVCache::new(&m.config, 1);
    let x = Tensor::from_vec(vec![1.0f32, 2.0, 3.0, 4.0], vec![4]);
    let y = transformer_block(&x, 3, 0, &mut m, &mut cache).unwrap();
    assert_eq!(y.shape(), &[4]);
}

#[test]
fn logits_over_several_positions() {
    let w = weights();
    let bytes = file(&w);
    let mut m = model(&bytes);
    let mut cache = KVCache::new(&m.config, 8);
    let mut state = SSMState::new(&m.config);
    let tokens = [2u32, 0, 1, 1, 2];
    for pos in 0..tokens.len() {
        let logits = m.forward(&tokens, pos, &mut cache, &mut state).unwrap();
        assert_eq!(logits.shape(), &[3]);
        close(logits.data(), &logits_by_hand(&w, &tokens[..=pos]));
    }
}

#[test]
fn what_is_carried_matters() {
    let w = weights();
    let bytes = file(&w);
    let mut m = model(&bytes);
    let tokens = [2u32, 2];
    let mut cache = KVCache::new(&m.config, 8);
    let mut state = SSMState::new(&m.config);
    let first = m.forward(&tokens, 0, &mut cache, &mut state).unwrap();
    let keys = cache.get_keys_up_to(3, 1, &m.config);
    let second = m.forward(&tokens, 1, &mut cache, &mut state).unwrap();
    assert_ne!(first.data(), second.data());
    // the keys of the first position stay, and recurrent layers have none
    assert_eq!(cache.get_keys_up_to(3, 1, &m.config).data(), keys.data());
    assert_eq!(cache.get_keys_up_to(0, 2, &m.config).data(), &[0.0; 8]);
    assert_eq!(state.get_group_state(3, 0, &m.config).data(), &[0.0; 4]);
    assert_ne!(state.get_group_state(0, 0, &m.config).data(), &[0.0; 4]);
}

#[test]
fn a_model_without_a_weight_is_refused() {
    let w = weights();
    for i in 0..w.len() {
        let mut part = w.clone();
        part.remove(i);
        let bytes = file(&part);
        let mut m = model(&bytes);
        let mut cache: KVCache<f32> = KVCache::new(&m.config, 1);
        let mut state: SSMState<f32> = SSMState::new(&m.config);
        let r = m.forward(&[0], 0, &mut cache, &mut state);
        assert!(matches!(r, Err(GGUFError::TensorNotFound)), "without {}", w[i].0);
        // and nothing has been done
        assert_eq!(cache.get_keys_up_to(3, 1, &m.config).data(), &[0.0; 4]);
        assert_eq!(state.get_group_state(0, 0, &m.config).data(), &[0.0; 4]);
    }
}

#[test]
fn a_model_with_a_weight_of_another_shape_is_refused() {
    let w = weights();
    for i in 0..w.len() {
        let mut other = w.clone();
        other[i].1 = vec![1];
        other[i].2 = vec![1.0];
        let bytes = file(&other);
        let mut m = model(&bytes);
        let mut cache: KVCache<f32> = KVCache::new(&m.config, 1);
        let mut state: SSMState<f32> = SSMState::new(&m.config);
        let r = m.forward(&[0], 0, &mut cache, &mut state);
        assert!(matches!(r, Err(GGUFError::InvalidShape)), "with another {}", w[i].0);
    }
}

#[test]
fn blocks_report_missing_weights() {
    let bytes = file(&vec![("token_embd.weight".to_string(), vec![3, 4], vec![0.0; 12])]);
    let mut m = model(&bytes);
    let mut cache: KVCache<f32> = KVCache::new(&m.config, 1);
    let mut state: SSMState<f32> = SSMState::new(&m.config);
    let x = Tensor::from_vec(vec![1.0f32; 4], vec![4]);
    assert!(matches!(attention(&x, 3, 0, &mut m, &mut cache), Err(GGUFError::TensorNotFound)));
    assert!(matches!(
        transformer_block(&x, 3, 0, &mut m, &mut cache),
        Err(GGUFError::TensorNotFound)
    ));
    assert!(matches!(ssm_block(&x, 0, &mut m, &mut state), Err(GGUFError::TensorNotFound)));
}

#[test]
fn the_same_text_gives_the_same_logits() {
    let bytes = file(&weights());
    let mut runs: Vec<Vec<f32>> = Vec::new();
    for _ in 0..2 {
        let mut m = model(&bytes);
        let mut cache = KVCache::new(&m.config, 8);
        let mut state = SSMState::new(&m.config);
        let tokens = [1u32, 0, 2];
        let mut all = Vec::new();
        for pos in 0..tokens.len() {
            all.extend_from_slice(m.forward(&tokens, pos, &mut cache, &mut state).unwrap().data());
        }
        runs.push(all);
    }
    assert_eq!(runs[0], runs[1]);
}
