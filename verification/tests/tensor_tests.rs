use ferrite::arith::Math;
use ferrite::tensor::Tensor;

/// Single-precision arithmetic.
struct StdMath;

impl Math<f32> for StdMath {
    fn from_bits(&self, bits: u32) -> f32 {
        f32::from_bits(bits)
    }

    fn from_half(&self, bits: u16) -> f32 {
        half::f16::from_bits(bits).to_f32()
    }

    fn from_int(&self, n: i32) -> f32 {
        n as f32
    }

    fn from_usize(&self, n: usize) -> f32 {
        n as f32
    }

    fn lowest(&self) -> f32 {
        f32::NEG_INFINITY
    }

    fn max(&self, a: f32, b: f32) -> f32 {
        a.max(b)
    }

    fn exp(&self, x: f32) -> f32 {
        x.exp()
    }

    fn ln(&self, x: f32) -> f32 {
        x.ln()
    }

    fn sqrt(&self, x: f32) -> f32 {
        x.sqrt()
    }

    fn sin(&self, x: f32) -> f32 {
        x.sin()
    }

    fn cos(&self, x: f32) -> f32 {
        x.cos()
    }

    fn pow(&self, base: f32, exponent: f32) -> f32 {
        base.powf(exponent)
    }
}

#[test]
fn test_tensor_zeros() {
    let tensor: Tensor<f32> = Tensor::zeros(vec![3, 4]);
    assert_eq!(tensor.numel(), 12);
    assert_eq!(tensor.rank(), 2);
    assert_eq!(tensor.data().len(), 12);
}

#[test]
fn test_tensor_transpose() {
    let tensor = Tensor::from_vec(vec![1., 2., 3., 4., 5., 6.], vec![2, 3]);
    let transposed = tensor.transpose();
    assert_eq!(transposed.shape(), vec![3, 2]);
    assert_eq!(transposed.data(), vec![1., 4., 2., 5., 3., 6.]);
}

#[test]
fn test_tensor_matmul() {
    let a = Tensor::from_vec(vec![1.0, 2.0, 3.0, 4.0, 5.0, 6.0], vec![2, 3]);
    let b = Tensor::from_vec(vec![7.0, 8.0, 9.0, 10.0, 11.0, 12.0], vec![3, 2]);
    let result = a.matmul(&b);
    let expected_shape = vec![2, 2];
    let expected_data: Vec<f32> = vec![58.0, 64.0, 139.0, 154.0];
    assert_eq!(result.shape(), expected_shape);
    for i in 0..result.data().len() {
        let diff: f32 = (result.data()[i] - expected_data[i]).abs();
        assert!(
            diff < 1e-4,
            "Value mismatch at index {}: got {}, expected {} (diff: {})",
            i,
            result.data()[i],
            expected_data[i],
            diff
        );
    }
}

#[test]
fn test_outer() {
    let a = Tensor::from_vec(vec![1.0, 2.0], vec![2]);
    let b = Tensor::from_vec(vec![3.0, 4.0, 5.0], vec![3]);
    let result = a.outer(&b);
    assert_eq!(result.shape(), &[2, 3]);
    assert_eq!(result.data(), &[3.0, 4.0, 5.0, 6.0, 8.0, 10.0]);
}

#[test]
fn zeros_are_zero() {
    let t: Tensor<f32> = Tensor::zeros(vec![2, 2]);
    assert_eq!(t.data(), &[0.0, 0.0, 0.0, 0.0]);
    assert_eq!(t.shape(), &[2, 2]);
}

#[test]
fn a_tensor_without_dimensions_has_one_element() {
    let t = Tensor::from_vec(vec![7.0f32], vec![]);
    assert_eq!(t.rank(), 0);
    assert_eq!(t.numel(), 1);
}

#[test]
fn transposing_twice_gives_back_the_matrix() {
    let t = Tensor::from_vec(vec![1.0f32, 2.0, 3.0, 4.0, 5.0, 6.0], vec![3, 2]);
    let u = t.transpose().transpose();
    assert_eq!(u.data(), t.data());
    assert_eq!(u.shape(), t.shape());
}

#[test]
fn transposing_exchanges_row_and_column() {
    let t = Tensor::from_vec(vec![1.0f32, 2.0, 3.0, 4.0, 5.0, 6.0], vec![3, 2]);
    assert_eq!(t.transpose()[(1, 2)], t[(2, 1)]);
    assert_eq!(t[(2, 1)], 6.0);
}

#[test]
fn an_element_can_be_changed() {
    let mut t: Tensor<f32> = Tensor::zeros(vec![2, 3]);
    *t.index_mut((1, 2)) = 5.0;
    t.data_mut()[0] = 1.0;
    assert_eq!(t.data(), &[1.0, 0.0, 0.0, 0.0, 0.0, 5.0]);
}

#[test]
fn reshaping_keeps_the_elements() {
    let t = Tensor::from_vec(vec![1.0f32, 2.0, 3.0, 4.0, 5.0, 6.0], vec![3, 2]);
    let u = t.clone().reshape(vec![6]);
    assert_eq!(u.data(), t.data());
    assert_eq!(u.shape(), &[6]);
}

#[test]
fn sums_differences_and_products_by_element() {
    let a = Tensor::from_vec(vec![1.0f32, 2.0, 3.0], vec![3]);
    let b = Tensor::from_vec(vec![10.0f32, 20.0, 40.0], vec![3]);
    assert_eq!(a.add(&b).data(), &[11.0, 22.0, 43.0]);
    assert_eq!(b.sub(&a).data(), &[9.0, 18.0, 37.0]);
    assert_eq!(a.mul(&b).data(), &[10.0, 40.0, 120.0]);
    assert_eq!(a.scale(-2.0).data(), &[-2.0, -4.0, -6.0]);
}

#[test]
fn clamping_restricts_to_a_range() {
    let a = Tensor::from_vec(vec![-5.0f32, 0.5, 7.0], vec![3]);
    assert_eq!(a.clamp(-1.0, 2.0).data(), &[-1.0, 0.5, 2.0]);
}

#[test]
fn matrix_times_vector() {
    let w = Tensor::from_vec(vec![1.0f32, 2.0, 3.0, 4.0, 5.0, 6.0], vec![2, 3]);
    let x = Tensor::from_vec(vec![1.0f32, 0.0, -1.0], vec![3]);
    let y = w.matvec(&x);
    assert_eq!(y.shape(), &[2]);
    assert_eq!(y.data(), &[-2.0, -2.0]);
}

#[test]
fn softmax_of_equal_and_of_distant_elements() {
    let a = Tensor::from_vec(vec![3.0f32, 3.0, 3.0, 3.0], vec![4]);
    assert_eq!(a.softmax(&StdMath).data(), &[0.25, 0.25, 0.25, 0.25]);
    let b = Tensor::from_vec(vec![0.0f32, 1000.0], vec![2]);
    assert_eq!(b.softmax(&StdMath).data(), &[0.0, 1.0]);
}

#[test]
fn root_mean_square_norm() {
    let x = Tensor::from_vec(vec![3.0f32, 4.0, 0.0, 0.0], vec![4]);
    let w = Tensor::from_vec(vec![1.0f32, 2.0, 1.0, 1.0], vec![4]);
    // the mean square is 25 / 4, its root 2.5
    assert_eq!(x.rms_norm(&w, 0.0, &StdMath).data(), &[1.2, 3.2, 0.0, 0.0]);
    // with 2.75 added the root is 3
    assert_eq!(x.rms_norm(&w, 2.75, &StdMath).data(), &[1.0, 8.0 / 3.0, 0.0, 0.0]);
}

#[test]
fn activations() {
    let x = Tensor::from_vec(vec![0.0f32, 25.0, -200.0], vec![3]);
    assert_eq!(x.sigmoid(&StdMath).data()[0], 0.5);
    assert_eq!(x.silu(&StdMath).data()[0], 0.0);
    assert_eq!(x.softplus(&StdMath).data()[0], 2.0f32.ln());
    assert_eq!(x.softplus(&StdMath).data()[1], 25.0);
    assert_eq!(x.sigmoid(&StdMath).data()[2], 0.0);
    assert_eq!(x.softplus(&StdMath).data()[2], 0.0);
    assert!((x.silu(&StdMath).data()[1] - 25.0).abs() < 1e-4);
}

#[test]
fn single_precision_numbers_are_read() {
    let mut bytes = Vec::new();
    for x in [1.5f32, -0.25, 1e30] {
        bytes.extend_from_slice(&x.to_le_bytes());
    }
    let t: Tensor<f32> = Tensor::load_f32(&bytes, vec![3], &StdMath);
    assert_eq!(t.data(), &[1.5, -0.25, 1e30]);
}

#[test]
fn half_precision_numbers_are_read() {
    // 1.0, -2.0 and 0.5
    let bytes = [0x00, 0x3C, 0x00, 0xC0, 0x00, 0x38];
    let t: Tensor<f32> = Tensor::load_f16(&bytes, vec![3], &StdMath);
    assert_eq!(t.data(), &[1.0, -2.0, 0.5]);
}

#[test]
fn truncated_single_precision_numbers_are_read() {
    // the upper halves of 1.0 and -2.5
    let bytes = [0x80, 0x3F, 0x20, 0xC0];
    let t: Tensor<f32> = Tensor::load_bf16(&bytes, vec![1, 2], &StdMath);
    assert_eq!(t.data(), &[1.0, -2.5]);
    assert_eq!(t.shape(), &[1, 2]);
}
