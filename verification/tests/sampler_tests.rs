use ferrite::arith::Math;
use ferrite::sampler::{
    apply_temperature, candidates_for, greedy, pick, sample, top_k_filter, top_p_filter,
};
use ferrite::tensor::Tensor;
use rand::distr::weighted::WeightedIndex;
use rand::distr::Distribution;

/// Single-precision arithmetic.
struct StdMath;

impl Math<f32> for StdMath {
    fn from_bits(&self, bits: u32) -> f32 {
        f32::from_bits(bits)
    }

    fn from_half(&self, bits: u16) -> f32 {
        half::f16::from_bits(bits).to_f32()
    }

    fn from_int(&self, n: i32) -> f32 {
        n as f32
    }

    fn from_usize(&self, n: usize) -> f32 {
        n as f32
    }

    fn lowest(&self) -> f32 {
        f32::NEG_INFINITY
    }

    fn max(&self, a: f32, b: f32) -> f32 {
        a.max(b)
    }

    fn exp(&self, x: f32) -> f32 {
        x.exp()
    }

    fn ln(&self, x: f32) -> f32 {
        x.ln()
    }

    fn sqrt(&self, x: f32) -> f32 {
        x.sqrt()
    }

    fn sin(&self, x: f32) -> f32 {
        x.sin()
    }

    fn cos(&self, x: f32) -> f32 {
        x.cos()
    }

    fn pow(&self, base: f32, exponent: f32) -> f32 {
        base.powf(exponent)
    }
}

fn draw(weights: Vec<f32>) -> usize {
    let dist = WeightedIndex::new(weights).unwrap();
    dist.sample(&mut rand::rng())
}

#[test]
fn test_greedy_picks_max() {
    let logits = Tensor::from_vec(vec![0.1, 0.5, 3.0, -1.0, 0.2], vec![5]);
    assert_eq!(greedy(&logits, &StdMath), 2);
}

#[test]
fn test_temperature_scaling() {
    let logits = Tensor::from_vec(vec![1.0, 2.0, 3.0], vec![3]);
    let scaled = apply_temperature(&logits, 2.0, &StdMath);
    assert_eq!(scaled.data(), &[0.5, 1.0, 1.5]);
}

#[test]
fn test_top_k_filter() {
    let probs = vec![(0u32, 0.5), (1u32, 0.3), (2u32, 0.2)];
    let filtered = top_k_filter(probs, 2);
    assert_eq!(filtered.len(), 2);
    assert_eq!(filtered[0].0, 0);
    assert_eq!(filtered[1].0, 1);
}

#[test]
fn test_top_p_filter() {
    let probs: Vec<(u32, f32)> = vec![(0u32, 0.5), (1u32, 0.3), (2u32, 0.15), (3u32, 0.05)];
    let filtered = top_p_filter(probs, 0.8);
    assert_eq!(filtered.len(), 2);
}

#[test]
fn test_sample_with_greedy_equivalent() {
    let logits = Tensor::from_vec(vec![0.1, 0.5, 3.0, -1.0, 0.2], vec![5]);
    let sampled = sample(&logits, 1.0, 1, 1.0, &StdMath, draw);
    assert_eq!(sampled, 2);
}

#[test]
fn greedy_takes_the_first_of_the_largest() {
    let logits = Tensor::from_vec(vec![0.5f32, 3.0, 3.0, 3.0], vec![4]);
    assert_eq!(greedy(&logits, &StdMath), 1);
    let none: Tensor<f32> = Tensor::zeros(vec![0]);
    assert_eq!(greedy(&none, &StdMath), 0);
    let low = Tensor::from_vec(vec![f32::NEG_INFINITY, f32::NEG_INFINITY], vec![2]);
    assert_eq!(greedy(&low, &StdMath), 0);
}

#[test]
fn filters_on_short_lists() {
    let probs: Vec<(u32, f32)> = vec![(4, 0.5), (9, 0.25)];
    assert_eq!(top_k_filter(probs.clone(), 5), probs);
    assert_eq!(top_k_filter(probs.clone(), 0), vec![]);
    assert_eq!(top_p_filter(probs.clone(), 2.0), probs);
    assert_eq!(top_p_filter(probs.clone(), 0.0), vec![(4, 0.5)]);
    let empty: Vec<(u32, f32)> = vec![];
    assert_eq!(top_p_filter(empty.clone(), 0.5), empty);
}

#[test]
fn candidates_come_with_the_largest_first() {
    let logits = Tensor::from_vec(vec![0.0f32, 2.0, 1.0, 2.0, -1.0], vec![5]);
    let all = candidates_for(&logits, 1.0, 10, 2.0, &StdMath);
    let ids: Vec<u32> = all.iter().map(|c| c.0).collect();
    // of equal probabilities the lower token comes first
    assert_eq!(ids, vec![1, 3, 2, 0, 4]);
    let sum: f32 = all.iter().map(|c| c.1).sum();
    assert!((sum - 1.0).abs() < 1e-5);
}

#[test]
fn candidates_are_limited_and_normalised() {
    let logits = Tensor::from_vec(vec![1.0f32, 1.0, 1.0, 1.0], vec![4]);
    let two = candidates_for(&logits, 1.0, 2, 1.0, &StdMath);
    assert_eq!(two, vec![(0, 0.5), (1, 0.5)]);
    let half = candidates_for(&logits, 1.0, 4, 0.75, &StdMath);
    assert_eq!(half.len(), 3);
    assert_eq!(pick(&two, 1), 1);
}

#[test]
fn a_low_temperature_sharpens() {
    let logits = Tensor::from_vec(vec![1.0f32, 2.0], vec![2]);
    let warm = candidates_for(&logits, 1.0, 2, 2.0, &StdMath);
    let cold = candidates_for(&logits, 0.1, 2, 2.0, &StdMath);
    assert_eq!(warm[0].0, 1);
    assert!(cold[0].1 > warm[0].1);
}

#[test]
fn the_drawn_candidate_is_returned() {
    let logits = Tensor::from_vec(vec![3.0f32, 1.0, 2.0], vec![3]);
    assert_eq!(sample(&logits, 1.0, 3, 2.0, &StdMath, |w: Vec<f32>| w.len() - 1), 1);
    assert_eq!(sample(&logits, 1.0, 3, 2.0, &StdMath, |_: Vec<f32>| 1), 2);
}

#[test]
fn sorting_many_candidates() {
    let n = 1000usize;
    let xs: Vec<f32> = (0..n).map(|i| ((i * 7919) % 1009) as f32 * 0.01).collect();
    let logits = Tensor::from_vec(xs.clone(), vec![n]);
    let all = candidates_for(&logits, 1.0, n, 2.0, &StdMath);
    assert_eq!(all.len(), n);
    let mut expected: Vec<(u32, f32)> =
        logits.softmax(&StdMath).data().iter().enumerate().map(|(i, &p)| (i as u32, p)).collect();
    expected.sort_by(|a, b| b.1.partial_cmp(&a.1).unwrap());
    for i in 0..n {
        assert_eq!(all[i].0, expected[i].0);
    }
}

#[test]
fn the_same_logits_give_the_same_candidates() {
    let logits = Tensor::from_vec(vec![0.3f32, 0.9, -0.4, 0.9], vec![4]);
    let a = candidates_for(&logits, 0.7, 3, 0.9, &StdMath);
    let b = candidates_for(&logits, 0.7, 3, 0.9, &StdMath);
    assert_eq!(a, b);
}

#[test]
fn one_candidate_is_the_greedy_choice_from_the_probabilities() {
    let logits = Tensor::from_vec(vec![0.3f32, 2.5, -0.4, 2.5, 1.0], vec![5]);
    let probs = apply_temperature(&logits, 0.8, &StdMath).softmax(&StdMath);
    let one = candidates_for(&logits, 0.8, 1, 0.9, &StdMath);
    assert_eq!(one, vec![(greedy(&probs, &StdMath), 1.0)]);
}
