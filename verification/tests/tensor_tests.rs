use yudanet::Tensor;

fn t(data: Vec<f32>, shape: Vec<usize>) -> Tensor<f32> {
    Tensor::new(data, shape)
}

// ---------------------------------------------------------------- broadcast

#[test]
fn tensor_test_broadcast_same_shape() {
    let a: Vec<usize> = vec![4, 3];
    let b: Vec<usize> = vec![4, 3];

    let bc: Vec<usize> = Tensor::<f32>::get_broadcast_shape(a.as_slice(), b.as_slice());
    assert_eq!(bc, vec![4, 3]);
}

#[test]
fn tensor_test_broadcast_with_ones_and_different_ndim() {
    let a: Vec<usize> = vec![5, 1, 4];
    let b: Vec<usize> = vec![3, 1];

    let bc: Vec<usize> = Tensor::<f32>::get_broadcast_shape(a.as_slice(), b.as_slice());
    assert_eq!(bc, vec![5, 3, 4]);
}

#[test]
fn tensor_test_reverse_broadcast_same_shape() {
    let mut original_indices: Vec<usize> = vec![0; 2];
    let broadcast_indices: Vec<usize> = vec![2, 2];

    let original_shape: Vec<usize> = vec![3, 1];
    let broadcast_shape: Vec<usize> = vec![3, 3];

    Tensor::<f32>::update_reverse_broadcast(
        &mut original_indices,
        broadcast_indices.as_slice(),
        original_shape.as_slice(),
        broadcast_shape.as_slice(),
    );

    println!("original_indices: {:?}", original_indices);

    assert_eq!(original_indices, vec![2, 0]);
}

#[test]
fn tensor_test_reverse_broadcast_different_shape() {
    let mut original_indices: Vec<usize> = vec![0; 2];
    let broadcast_indices: Vec<usize> = vec![2, 3, 4];

    let original_shape: Vec<usize> = vec![5, 1];
    let broadcast_shape: Vec<usize> = vec![3, 5, 5];

    Tensor::<f32>::update_reverse_broadcast(
        &mut original_indices,
        broadcast_indices.as_slice(),
        original_shape.as_slice(),
        broadcast_shape.as_slice(),
    );

    println!("original_indices: {:?}", original_indices);

    assert_eq!(original_indices, vec![3, 0]);
}

// ---------------------------------------------------------------- broadcast (second suite)

#[test]
fn tests_test_broadcast_same_shape() {
    let a: Vec<usize> = vec![4, 3];
    let b: Vec<usize> = vec![4, 3];

    let bc: Vec<usize> = Tensor::<f32>::get_broadcast_shape(a.as_slice(), b.as_slice());
    assert_eq!(bc, vec![4, 3]);
}

#[test]
fn tests_test_broadcast_with_ones_and_different_ndim() {
    let a: Vec<usize> = vec![5, 1, 4];
    let b: Vec<usize> = vec![3, 1];

    let bc: Vec<usize> = Tensor::<f32>::get_broadcast_shape(a.as_slice(), b.as_slice());
    assert_eq!(bc, vec![5, 3, 4]);
}

#[test]
fn tests_test_reverse_broadcast_same_shape() {
    let mut original_indices: Vec<usize> = vec![0; 2];
    let broadcast_indices: Vec<usize> = vec![2, 2];

    let original_shape: Vec<usize> = vec![3, 1];
    let broadcast_shape: Vec<usize> = vec![3, 3];

    Tensor::<f32>::update_reverse_broadcast(
        &mut original_indices,
        broadcast_indices.as_slice(),
        original_shape.as_slice(),
        broadcast_shape.as_slice(),
    );

    println!("original_indices: {:?}", original_indices);

    assert_eq!(original_indices, vec![2, 0]);
}

#[test]
fn tests_test_reverse_broadcast_different_shape() {
    let mut original_indices: Vec<usize> = vec![0; 2];
    let broadcast_indices: Vec<usize> = vec![2, 3, 4];

    let original_shape: Vec<usize> = vec![5, 1];
    let broadcast_shape: Vec<usize> = vec![3, 5, 5];

    Tensor::<f32>::update_reverse_broadcast(
        &mut original_indices,
        broadcast_indices.as_slice(),
        original_shape.as_slice(),
        broadcast_shape.as_slice(),
    );

    println!("original_indices: {:?}", original_indices);

    assert_eq!(original_indices, vec![3, 0]);
}

// ---------------------------------------------------------------- constructor

#[test]
fn test_new_valid() {
    let t = t(vec![1.0, 2.0, 3.0, 4.0], vec![2, 2]);
    assert_eq!(t.shape(), &[2, 2]);
    assert_eq!(t.strides(), &[2, 1]);
    assert_eq!(t.ndim(), 2);
    assert_eq!(t.len(), 4);
}

#[test]
fn test_zeros() {
    let t: Tensor<f32> = Tensor::zeros(vec![2, 3]);
    assert_eq!(t.len(), 6);
    assert!(t.iter().collect().iter().all(|&x| x == 0.0));
}

#[test]
fn test_ones() {
    let t: Tensor<f32> = Tensor::ones(vec![1, 4]);
    assert_eq!(t.len(), 4);
    assert!(t.iter().collect().iter().all(|&x| x == 1.0));
}

#[test]
fn test_full() {
    let t: Tensor<f32> = Tensor::full(vec![3], 5.5);
    assert_eq!(t.len(), 3);
    assert!(t.iter().collect().iter().all(|&x| (x - 5.5).abs() < 1e-6));
}

// ---------------------------------------------------------------- getter

#[test]
fn test_get_valid() {
    let t = t(vec![1.0, 2.0, 3.0, 4.0], vec![2, 2]);
    assert_eq!(t.get(&[0, 0]), Some(1.0));
    assert_eq!(t.get(&[1, 1]), Some(4.0));
}

#[test]
fn test_get_out_of_bounds() {
    let t = t(vec![1.0, 2.0, 3.0, 4.0], vec![2, 2]);
    assert_eq!(t.get(&[2, 0]), None);
    assert_eq!(t.get(&[0, 2]), None);
}

#[test]
fn test_get_unchecked() {
    let t = t(vec![1.0, 2.0, 3.0, 4.0], vec![2, 2]);
    assert_eq!(t.get_unchecked(&[0, 0]), 1.0);
    assert_eq!(t.get_unchecked(&[1, 1]), 4.0);
}

#[test]
fn test_slice_shape() {
    let t = t(vec![1.0, 2.0, 3.0, 4.0, 5.0, 6.0], vec![2, 3]);
    let s = t.slice(&[0..2, 1..3]);
    assert_eq!(s.shape(), &[2, 2]);
    assert_eq!(s.offset(), 1);
}

#[test]
fn test_slice_value() {
    let t = t(vec![1.0, 2.0, 3.0, 4.0, 5.0, 6.0], vec![2, 3]);
    let s = t.slice(&[1..2, 0..2]);
    assert_eq!(s.get_unchecked(&[0, 0]), 4.0);
    assert_eq!(s.get_unchecked(&[0, 1]), 5.0);
}

// ---------------------------------------------------------------- iter

#[test]
fn test_iter_count() {
    let t = t(vec![1.0, 2.0, 3.0, 4.0, 5.0, 6.0], vec![2, 3]);
    let collected: Vec<f32> = t.iter().collect();
    assert_eq!(collected, vec![1.0, 2.0, 3.0, 4.0, 5.0, 6.0]);
}

#[test]
fn test_iter_strided() {
    let t = t(vec![1.0, 2.0, 3.0, 4.0, 5.0, 6.0], vec![2, 3]);
    let s = t.slice(&[0..2, 0..1]);
    let collected: Vec<f32> = s.iter().collect();
    assert_eq!(collected, vec![1.0, 4.0]);
}

#[test]
fn test_iter_empty_after_end() {
    let t: Tensor<f32> = Tensor::ones(vec![3]);
    let mut iter = t.iter();
    assert!(iter.next().is_some());
    assert!(iter.next().is_some());
    assert!(iter.next().is_some());
    assert!(iter.next().is_none());
}

// ---------------------------------------------------------------- binary

#[test]
fn test_add_same_shape() {
    let a = t(vec![1.0, 2.0, 3.0, 4.0], vec![2, 2]);
    let b = t(vec![5.0, 6.0, 7.0, 8.0], vec![2, 2]);
    let r = a.apply_binary(&b, |a, b| a + b);
    let vals: Vec<f32> = r.iter().collect();
    assert_eq!(vals, vec![6.0, 8.0, 10.0, 12.0]);
}

#[test]
fn test_sub_same_shape() {
    let a = t(vec![5.0, 6.0, 7.0, 8.0], vec![2, 2]);
    let b = t(vec![1.0, 2.0, 3.0, 4.0], vec![2, 2]);
    let r = a.apply_binary(&b, |a, b| a - b);
    let vals: Vec<f32> = r.iter().collect();
    assert_eq!(vals, vec![4.0, 4.0, 4.0, 4.0]);
}

#[test]
fn test_mul_same_shape() {
    let a = t(vec![2.0, 3.0], vec![2]);
    let b = t(vec![4.0, 5.0], vec![2]);
    let r = a.apply_binary(&b, |a, b| a * b);
    let vals: Vec<f32> = r.iter().collect();
    assert_eq!(vals, vec![8.0, 15.0]);
}

#[test]
fn test_div_same_shape() {
    let a = t(vec![10.0, 20.0, 30.0], vec![3]);
    let b = t(vec![2.0, 4.0, 5.0], vec![3]);
    let r = a.apply_binary(&b, |a, b| a / b);
    let vals: Vec<f32> = r.iter().collect();
    assert_eq!(vals, vec![5.0, 5.0, 6.0]);
}

#[test]
fn test_broadcast_scalar() {
    let a = t(vec![1.0, 2.0, 3.0], vec![3]);
    let b = t(vec![10.0], vec![1]);
    let r = a.apply_binary(&b, |a, b| a + b);
    let vals: Vec<f32> = r.iter().collect();
    assert_eq!(vals, vec![11.0, 12.0, 13.0]);
}

#[test]
fn test_broadcast_2d_scalar() {
    let a = t(vec![1.0, 2.0, 3.0, 4.0], vec![2, 2]);
    let b = t(vec![10.0], vec![1]);
    let r = a.apply_binary(&b, |a, b| a * b);
    let vals: Vec<f32> = r.iter().collect();
    assert_eq!(vals, vec![10.0, 20.0, 30.0, 40.0]);
}

#[test]
fn test_broadcast_1d_to_2d() {
    let a = t(vec![1.0, 2.0, 3.0, 4.0], vec![2, 2]);
    let b = t(vec![10.0, 20.0], vec![2]);
    let r = a.apply_binary(&b, |a, b| a + b);
    assert_eq!(r.shape(), &[2, 2]);
    let vals: Vec<f32> = r.iter().collect();
    assert_eq!(vals, vec![11.0, 22.0, 13.0, 24.0]);
}

// ---------------------------------------------------------------- matmul

#[test]
fn test_matmul_2x3_3x2() {
    let a = t(vec![1.0, 2.0, 3.0, 4.0, 5.0, 6.0], vec![2, 3]);
    let b = t(vec![7.0, 8.0, 9.0, 10.0, 11.0, 12.0], vec![3, 2]);
    let c = a.matmul_by(&b, 0.0, |acc, x, y| acc + x * y).unwrap();
    assert_eq!(c.shape(), &[2, 2]);
    let vals: Vec<f32> = c.iter().collect();
    assert_eq!(vals, vec![58.0, 64.0, 139.0, 154.0]);
}

#[test]
fn test_matmul_1x1() {
    let a = t(vec![3.0], vec![1, 1]);
    let b = t(vec![4.0], vec![1, 1]);
    let c = a.matmul_by(&b, 0.0, |acc, x, y| acc + x * y).unwrap();
    assert_eq!(c.get_unchecked(&[0, 0]), 12.0);
}

#[test]
fn test_matmul_not_2d() {
    let a: Tensor<f32> = Tensor::ones(vec![2, 2, 2]);
    let b: Tensor<f32> = Tensor::ones(vec![2, 2]);
    assert!(a.matmul_by(&b, 0.0, |acc, x, y| acc + x * y).is_err());
}

#[test]
fn test_matmul_inner_dim_mismatch() {
    let a: Tensor<f32> = Tensor::ones(vec![2, 3]);
    let b: Tensor<f32> = Tensor::ones(vec![4, 5]);
    assert!(a.matmul_by(&b, 0.0, |acc, x, y| acc + x * y).is_err());
}

// ---------------------------------------------------------------- reduce

fn sum_of(t: &Tensor<f32>) -> f32 {
    t.apply_reduce(0.0, |a, b| a + b)
}

#[test]
fn test_sum_all() {
    let t = t(vec![1.0, 2.0, 3.0, 4.0], vec![2, 2]);
    assert_eq!(sum_of(&t), 10.0);
}

#[test]
fn test_sum_axis_0() {
    let t = t(vec![1.0, 2.0, 3.0, 4.0, 5.0, 6.0], vec![2, 3]);
    let r = t.apply_reduce_axis(0, 0.0, |a, b| a + b).unwrap();
    let vals: Vec<f32> = r.iter().collect();
    assert_eq!(vals, vec![5.0, 7.0, 9.0]);
}

#[test]
fn test_sum_axis_1() {
    let t = t(vec![1.0, 2.0, 3.0, 4.0, 5.0, 6.0], vec![2, 3]);
    let r = t.apply_reduce_axis(1, 0.0, |a, b| a + b).unwrap();
    let vals: Vec<f32> = r.iter().collect();
    assert_eq!(vals, vec![6.0, 15.0]);
}

#[test]
fn test_product_all() {
    let t = t(vec![2.0, 3.0, 4.0], vec![3]);
    assert_eq!(t.apply_reduce(1.0, |a, b| a * b), 24.0);
}

#[test]
fn test_product_axis() {
    let t = t(vec![2.0, 3.0, 4.0, 5.0], vec![2, 2]);
    let r = t.apply_reduce_axis(1, 1.0, |a, b| a * b).unwrap();
    let vals: Vec<f32> = r.iter().collect();
    assert_eq!(vals, vec![6.0, 20.0]);
}

#[test]
fn test_mean() {
    let t = t(vec![1.0, 2.0, 3.0, 4.0], vec![2, 2]);
    assert_eq!(sum_of(&t) / t.len() as f32, 2.5);
}

#[test]
fn test_mean_axis() {
    let t = t(vec![1.0, 2.0, 3.0, 4.0], vec![2, 2]);
    let n = t.shape()[0] as f32;
    let r = t.apply_reduce_axis(0, 0.0, |a, b| a + b).unwrap().apply_unary(|x| x / n);
    let vals: Vec<f32> = r.iter().collect();
    assert_eq!(vals, vec![2.0, 3.0]);
}

#[test]
fn test_max() {
    let t = t(vec![-5.0, 0.0, 3.0, 7.0], vec![4]);
    assert_eq!(t.apply_reduce(f32::NEG_INFINITY, |a, b| a.max(b)), 7.0);
}

#[test]
fn test_max_axis() {
    let t = t(vec![1.0, 5.0, 3.0, 2.0], vec![2, 2]);
    let r = t.apply_reduce_axis(0, f32::NEG_INFINITY, |a, b| a.max(b)).unwrap();
    let vals: Vec<f32> = r.iter().collect();
    assert_eq!(vals, vec![3.0, 5.0]);
}

#[test]
fn test_min() {
    let t = t(vec![-5.0, 0.0, 3.0, 7.0], vec![4]);
    assert_eq!(t.apply_reduce(f32::INFINITY, |a, b| a.min(b)), -5.0);
}

#[test]
fn test_min_axis() {
    let t = t(vec![1.0, 5.0, 3.0, 2.0], vec![2, 2]);
    let r = t.apply_reduce_axis(1, f32::INFINITY, |a, b| a.min(b)).unwrap();
    let vals: Vec<f32> = r.iter().collect();
    assert_eq!(vals, vec![1.0, 2.0]);
}

#[test]
fn test_reduce_axis_out_of_bounds() {
    let t: Tensor<f32> = Tensor::ones(vec![2, 3]);
    assert!(t.apply_reduce_axis(2, 0.0, |a, b| a + b).is_err());
    assert!(t.apply_reduce_axis(3, 0.0, |a, b| a + b).is_err());
}

// ---------------------------------------------------------------- unary

#[test]
fn test_relu_neg() {
    let t = t(vec![-2.0, -1.0, 0.0, 1.0, 2.0], vec![5]);
    let r = t.apply_unary(|x| x.max(0f32));
    let vals: Vec<f32> = r.iter().collect();
    assert_eq!(vals, vec![0.0, 0.0, 0.0, 1.0, 2.0]);
}

#[test]
fn test_relu_strided() {
    let t = t(vec![-2.0, 1.0, -3.0, 4.0], vec![2, 2]);
    let s = t.slice(&[0..2, 0..1]);
    let r = s.apply_unary(|x| x.max(0f32));
    // slice of first column: [[-2], [-3]] → relu → [[0], [0]]
    assert_eq!(r.get_unchecked(&[0, 0]), 0.0);
    assert_eq!(r.get_unchecked(&[1, 0]), 0.0);
}

#[test]
fn test_neg() {
    let t = t(vec![1.0, -2.0, 3.0], vec![3]);
    let r = t.apply_unary(|x| -x);
    let vals: Vec<f32> = r.iter().collect();
    assert_eq!(vals, vec![-1.0, 2.0, -3.0]);
}

#[test]
fn test_exp() {
    let t = t(vec![0.0, 1.0], vec![2]);
    let r = t.apply_unary(|x| x.exp());
    assert!((r.get_unchecked(&[0]) - 1.0).abs() < 1e-5);
    assert!((r.get_unchecked(&[1]) - std::f32::consts::E).abs() < 1e-5);
}

#[test]
fn test_log() {
    let t = t(vec![1.0, std::f32::consts::E], vec![2]);
    let r = t.apply_unary(|x| x.ln());
    assert!((r.get_unchecked(&[0]) - 0.0).abs() < 1e-5);
    assert!((r.get_unchecked(&[1]) - 1.0).abs() < 1e-5);
}

#[test]
fn test_sigmoid() {
    let t = t(vec![0.0, 100.0], vec![2]);
    let r = t.apply_unary(|x| 1.0 / (1.0 + (-x).exp()));
    assert!((r.get_unchecked(&[0]) - 0.5).abs() < 1e-5);
    assert!((r.get_unchecked(&[1]) - 1.0).abs() < 1e-5);
}

#[test]
fn test_tanh() {
    let t = t(vec![0.0], vec![1]);
    let r = t.apply_unary(|x| x.tanh());
    assert!((r.get_unchecked(&[0]) - 0.0).abs() < 1e-5);
}

#[test]
fn test_add_scalar() {
    let t = t(vec![1.0, 2.0], vec![2]);
    let r = t.apply_unary(|x| x + 10.0);
    assert_eq!(r.get_unchecked(&[0]), 11.0);
    assert_eq!(r.get_unchecked(&[1]), 12.0);
}

#[test]
fn test_mult_scalar() {
    let t = t(vec![1.0, 2.0, 3.0], vec![3]);
    let r = t.apply_unary(|x| x * 3.0);
    let vals: Vec<f32> = r.iter().collect();
    assert_eq!(vals, vec![3.0, 6.0, 9.0]);
}

#[test]
fn test_div_scalar() {
    let t = t(vec![2.0, 4.0, 6.0], vec![3]);
    let r = t.apply_unary(|x| x / 2.0);
    let vals: Vec<f32> = r.iter().collect();
    assert_eq!(vals, vec![1.0, 2.0, 3.0]);
}

// ---------------------------------------------------------------- view

#[test]
fn test_transpose_shape() {
    let t = t(vec![1.0, 2.0, 3.0, 4.0, 5.0, 6.0], vec![2, 3]);
    let r = t.transpose(0, 1).unwrap();
    assert_eq!(r.shape(), &[3, 2]);
    assert_eq!(r.strides(), &[1, 3]);
}

#[test]
fn test_transpose_value() {
    let t = t(vec![1.0, 2.0, 3.0, 4.0], vec![2, 2]);
    let r = t.transpose(0, 1).unwrap();
    assert_eq!(r.get_unchecked(&[0, 0]), 1.0);
    assert_eq!(r.get_unchecked(&[1, 0]), 2.0);
    assert_eq!(r.get_unchecked(&[0, 1]), 3.0);
}

#[test]
fn test_transpose_out_of_bounds() {
    let t: Tensor<f32> = Tensor::ones(vec![2, 3]);
    assert!(t.transpose(0, 2).is_err());
    assert!(t.transpose(2, 0).is_err());
}

#[test]
fn test_permute_shape() {
    let t = t((0..24).map(|x| x as f32).collect(), vec![2, 3, 4]);
    let r = t.permute(&[2, 0, 1]).unwrap();
    assert_eq!(r.shape(), &[4, 2, 3]);
}

#[test]
fn test_permute_duplicate_axes() {
    let t: Tensor<f32> = Tensor::ones(vec![2, 3, 4]);
    assert!(t.permute(&[0, 0, 1]).is_err());
    assert!(t.permute(&[0, 1, 0]).is_err());
}

#[test]
fn test_permute_axis_out_of_bounds() {
    let t: Tensor<f32> = Tensor::ones(vec![2, 3]);
    assert!(t.permute(&[0, 2]).is_err());
}

#[test]
fn test_reshape_contiguous() {
    let t = t((0..6).map(|x| x as f32).collect(), vec![2, 3]);
    let r = t.reshape(&[6]).unwrap();
    assert_eq!(r.shape(), &[6]);
    assert_eq!(r.strides(), &[1]);
}

#[test]
fn test_reshape_non_contiguous() {
    let t = t((0..6).map(|x| x as f32).collect(), vec![2, 3]);
    let s = t.slice(&[0..2, 0..2]);
    let r = s.reshape(&[4]).unwrap();
    assert_eq!(r.shape(), &[4]);
    assert_eq!(r.iter().collect(), vec![0.0, 1.0, 3.0, 4.0]);
}

#[test]
fn test_reshape_wrong_size() {
    let t = t(vec![1.0, 2.0, 3.0, 4.0], vec![2, 2]);
    assert!(t.reshape(&[3]).is_err());
    assert!(t.reshape(&[2, 3]).is_err());
}

// ---------------------------------------------------------------- util

#[test]
fn test_compute_strides() {
    assert_eq!(Tensor::<f32>::compute_strides(&[2, 3]), vec![3, 1]);
    assert_eq!(Tensor::<f32>::compute_strides(&[2, 3, 4]), vec![12, 4, 1]);
    assert_eq!(Tensor::<f32>::compute_strides(&[5]), vec![1]);
}

#[test]
fn test_is_contiguous() {
    let t = t(vec![1.0, 2.0, 3.0, 4.0], vec![2, 2]);
    assert!(t.is_contiguous());
}

#[test]
fn test_is_not_contiguous_after_slice() {
    let t = t(vec![1.0, 2.0, 3.0, 4.0, 5.0, 6.0], vec![2, 3]);
    let s = t.slice(&[0..2, 0..1]);
    assert!(!s.is_contiguous());
}

#[test]
fn test_to_contiguous() {
    let t = t(vec![1.0, 2.0, 3.0, 4.0, 5.0, 6.0], vec![2, 3]);
    let s = t.slice(&[0..2, 0..1]);
    let c = s.to_contiguous();
    assert!(c.is_contiguous());
    assert_eq!(c.shape(), &[2, 1]);
    assert_eq!(c.strides(), &[1, 1]);
}

#[test]
fn test_update_indices_from_index() {
    let mut indices = vec![0, 0, 0];
    Tensor::<f32>::update_indices_from_index(&mut indices, 10, &[2, 3, 4]);
    // 10 = 0*12 + 2*4 + 2*1 → (0, 2, 2)
    assert_eq!(indices, vec![0, 2, 2]);

    let mut indices = vec![0, 0];
    Tensor::<f32>::update_indices_from_index(&mut indices, 5, &[2, 3]);
    // 5 = 1*3 + 2*1 → (1, 2)
    assert_eq!(indices, vec![1, 2]);
}

#[test]
fn test_flat_index() {
    let t = t(vec![1.0, 2.0, 3.0, 4.0], vec![2, 2]);
    assert_eq!(t.flat_index(&[0, 0]), Some(0));
    assert_eq!(t.flat_index(&[1, 0]), Some(2));
    assert_eq!(t.flat_index(&[1, 1]), Some(3));
}

#[test]
fn test_flat_index_out_of_bounds() {
    let t = t(vec![1.0, 2.0, 3.0, 4.0], vec![2, 2]);
    assert_eq!(t.flat_index(&[2, 0]), None);
    assert_eq!(t.flat_index(&[0, 2]), None);
    assert_eq!(t.flat_index(&[0]), None);
    assert_eq!(t.flat_index(&[0, 0, 0]), None);
}
