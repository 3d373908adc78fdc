use ferrite::cache::{KVCache, SSMState};
use ferrite::config::ModelConfig;
use ferrite::tensor::Tensor;

fn config() -> ModelConfig {
    ModelConfig {
        n_layers: 2,
        embed_dim: 4,
        n_heads: 2,
        n_kv_heads: 2,
        head_dim: 2,
        ffn_dim: 4,
        vocab_size: 4,
        context_len: 16,
        rope_theta: 0x4B18_9680,
        rms_eps: 0x3586_37BD,
        rope_dim: 2,
        ssm_group_count: 2,
        ssm_state_size: 2,
    }
}

#[test]
fn a_new_cache_holds_zeros() {
    let cfg = config();
    let cache: KVCache<f32> = KVCache::new(&cfg, 3);
    let k = cache.get_keys_up_to(1, 3, &cfg);
    assert_eq!(k.shape(), &[3, 2, 2]);
    assert_eq!(k.data(), &[0.0; 12]);
    assert_eq!(cache.get_values_up_to(0, 0, &cfg).data().len(), 0);
}

#[test]
fn keys_and_values_are_read_back() {
    let cfg = config();
    let mut cache: KVCache<f32> = KVCache::new(&cfg, 3);
    let k = Tensor::from_vec(vec![1.0, 2.0, 3.0, 4.0], vec![2, 2]);
    let v = Tensor::from_vec(vec![5.0, 6.0, 7.0, 8.0], vec![2, 2]);
    cache.update(&cfg, 1, 1, &k, &v);
    assert_eq!(
        cache.get_keys_up_to(1, 2, &cfg).data(),
        &[0.0, 0.0, 0.0, 0.0, 1.0, 2.0, 3.0, 4.0]
    );
    assert_eq!(
        cache.get_values_up_to(1, 3, &cfg).data(),
        &[0.0, 0.0, 0.0, 0.0, 5.0, 6.0, 7.0, 8.0, 0.0, 0.0, 0.0, 0.0]
    );
    assert_eq!(cache.get_keys_up_to(0, 3, &cfg).data(), &[0.0; 12]);
}

#[test]
fn of_a_larger_matrix_the_corner_is_kept() {
    let cfg = config();
    let mut cache: KVCache<f32> = KVCache::new(&cfg, 1);
    let k = Tensor::from_vec((1..=9).map(|x| x as f32).collect(), vec![3, 3]);
    cache.update(&cfg, 0, 0, &k, &k);
    assert_eq!(cache.get_keys_up_to(0, 1, &cfg).data(), &[1.0, 2.0, 4.0, 5.0]);
}

#[test]
fn states_of_groups_are_read_back() {
    let cfg = config();
    let mut state: SSMState<f32> = SSMState::new(&cfg);
    assert_eq!(state.get_group_state(0, 1, &cfg).data(), &[0.0; 4]);
    let s = Tensor::from_vec(vec![1.0, 2.0, 3.0, 4.0], vec![2, 2]);
    state.set_group_state(0, 1, &s, &cfg);
    let back = state.get_group_state(0, 1, &cfg);
    assert_eq!(back.data(), s.data());
    assert_eq!(back.shape(), &[2, 2]);
    assert_eq!(state.get_group_state(0, 0, &cfg).data(), &[0.0; 4]);
    assert_eq!(state.get_group_state(1, 1, &cfg).data(), &[0.0; 4]);
}

#[test]
fn the_latest_inputs_are_remembered() {
    let cfg = config();
    let mut state: SSMState<f32> = SSMState::new(&cfg);
    assert_eq!(state.past(0, 2), &[0.0; 12]);
    for x in [1.0, 2.0, 3.0, 4.0] {
        state.remember(0, &[x; 12], &cfg);
    }
    assert_eq!(state.past(0, 0), &[2.0; 12]);
    assert_eq!(state.past(0, 1), &[3.0; 12]);
    assert_eq!(state.past(0, 2), &[4.0; 12]);
    assert_eq!(state.past(1, 2), &[0.0; 12]);
}
