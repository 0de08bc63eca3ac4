use yudanet::Tensor;

const TILE_SIZE: usize = 32;

fn mul_add(acc: f32, a: f32, b: f32) -> f32 {
    acc + a * b
}

fn relu(x: f32) -> f32 {
    x.max(0.0)
}

fn matmul_relu(a: &Tensor<f32>, b: &Tensor<f32>) -> Result<Tensor<f32>, String> {
    a.matmul_relu_tiled_by(b, TILE_SIZE, 0.0, mul_add, relu)
}

#[test]
fn test_matmul_relu_negative() {
    let a = Tensor::new(vec![-1.0, 2.0, -3.0, 4.0, -5.0, 6.0], vec![2, 3]);
    let b = Tensor::new(vec![1.0, -1.0, -1.0, 1.0, 1.0, -1.0], vec![3, 2]);

    let c = matmul_relu(&a, &b).unwrap();
    assert_eq!(c.shape(), &[2, 2]);
    let vals: Vec<f32> = c.iter().collect();
    assert_eq!(vals, vec![0.0, 6.0, 15.0, 0.0]);
}

#[test]
fn test_matmul_relu_multi_tile() {
    let a: Tensor<f32> = Tensor::ones(vec![64, 64]);
    let b = Tensor::new(vec![-1.0; 64 * 64], vec![64, 64]);
    let c = matmul_relu(&a, &b).unwrap();

    for i in 0..64 {
        for j in 0..64 {
            assert_eq!(c.get_unchecked(&[i, j]), 0.0);
        }
    }
}

#[test]
fn test_matmul_relu_all_positive() {
    let a: Tensor<f32> = Tensor::ones(vec![4, 4]);
    let b: Tensor<f32> = Tensor::ones(vec![4, 4]);
    let c = matmul_relu(&a, &b).unwrap();
    for i in 0..4 {
        for j in 0..4 {
            assert_eq!(c.get_unchecked(&[i, j]), 4.0);
        }
    }
}

#[test]
fn matmul_relu_small_tiles_match_large_tiles() {
    let a = Tensor::new((0..35).map(|i| (i as f32) - 17.0).collect(), vec![5, 7]);
    let b = Tensor::new((0..21).map(|i| 10.0 - (i as f32)).collect(), vec![7, 3]);
    let big = a.matmul_relu_tiled_by(&b, 32, 0.0, mul_add, relu).unwrap();
    for tile in 1..8 {
        let small = a.matmul_relu_tiled_by(&b, tile, 0.0, mul_add, relu).unwrap();
        let x: Vec<f32> = small.iter().collect();
        let y: Vec<f32> = big.iter().collect();
        assert_eq!(x, y);
    }
}

#[test]
fn matmul_relu_equals_matmul_then_relu() {
    let a = Tensor::new(vec![1.0, -2.0, 3.0, -4.0, 5.0, -6.0], vec![3, 2]);
    let b = Tensor::new(vec![2.0, -1.0, 0.5, -3.0, 1.0, 4.0], vec![2, 3]);
    let fused = matmul_relu(&a, &b).unwrap();
    let plain = a.matmul_by(&b, 0.0, mul_add).unwrap().apply_unary(relu);
    assert_eq!(fused.shape(), plain.shape());
    let x: Vec<f32> = fused.iter().collect();
    let y: Vec<f32> = plain.iter().collect();
    assert_eq!(x, y);
}

#[test]
fn matmul_relu_on_strided_operands() {
    let base = Tensor::new(vec![1.0, 2.0, 3.0, 4.0, 5.0, 6.0], vec![2, 3]);
    let a = base.transpose(0, 1).unwrap();
    let b = Tensor::new(vec![1.0, -1.0, -1.0, 1.0], vec![2, 2]);
    let c = matmul_relu(&a, &b).unwrap();
    assert_eq!(c.shape(), &[3, 2]);
    let vals: Vec<f32> = c.iter().collect();
    assert_eq!(vals, vec![0.0, 3.0, 0.0, 3.0, 0.0, 3.0]);
}

#[test]
fn matmul_relu_errors() {
    let a: Tensor<f32> = Tensor::ones(vec![2, 2, 2]);
    let b: Tensor<f32> = Tensor::ones(vec![2, 2]);
    assert_eq!(
        matmul_relu(&a, &b).err().unwrap(),
        "Both tensors must be 2-dimensional for matrix multiplication."
    );
    let a: Tensor<f32> = Tensor::ones(vec![2, 3]);
    let b: Tensor<f32> = Tensor::ones(vec![4, 5]);
    assert_eq!(
        matmul_relu(&a, &b).err().unwrap(),
        "Inner dimensions must match for matrix multiplication."
    );
}

#[test]
fn matmul_relu_row_tiles_cover_the_product() {
    let a = Tensor::new((0..12).map(|i| (i as f32) - 6.0).collect(), vec![4, 3]);
    let b = Tensor::new(vec![1.0, 2.0, -1.0, 0.0, 3.0, -2.0], vec![3, 2]);
    let whole = matmul_relu(&a, &b).unwrap();
    let expected: Vec<f32> = whole.iter().collect();
    let mut rows: Vec<f32> = Vec::new();
    let mut ii = 0;
    while ii < 4 {
        let block = a.matmul_relu_row_tile_by(&b, ii, 3, 0.0, &mul_add, &relu);
        rows.extend(block);
        ii += 3;
    }
    assert_eq!(rows, expected);
    let first = a.matmul_relu_row_tile_by(&b, 0, 3, 0.0, &mul_add, &relu);
    assert_eq!(first.len(), 6);
    let last = a.matmul_relu_row_tile_by(&b, 3, 3, 0.0, &mul_add, &relu);
    assert_eq!(last.len(), 2);
}
