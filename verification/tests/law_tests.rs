use std::ops::Range;

use yudanet::tensor::broadcast::shapes_broadcast;
use yudanet::tensor::util::{padded_len, shape_len};
use yudanet::Tensor;

fn two(x: f32) -> String {
    format!("{:.2}", x)
}

fn values(t: &Tensor<f32>) -> Vec<f32> {
    t.iter().collect()
}

#[test]
fn display_of_a_vector() {
    let t = Tensor::new(vec![1.0f32, -2.5, 3.25], vec![3]);
    assert_eq!(t.to_string_with(two), "Tensor[1.00, -2.50, 3.25]");
}

#[test]
fn display_of_a_matrix() {
    let t = Tensor::new(vec![1.0f32, 2.0, 3.0, 4.0], vec![2, 2]);
    assert_eq!(t.to_string_with(two), "Tensor[[1.00, 2.00],\n       [3.00, 4.00]]");
}

#[test]
fn display_of_a_cube() {
    let t = Tensor::new((1..=8).map(|x| x as f32).collect(), vec![2, 2, 2]);
    let expected = "Tensor[[[1.00, 2.00],\n        [3.00, 4.00]],\n\n       [[5.00, 6.00],\n        [7.00, 8.00]]]";
    assert_eq!(t.to_string_with(two), expected);
}

#[test]
fn display_of_a_view() {
    let t = Tensor::new((1..=16).map(|x| x as f32).collect(), vec![4, 4]);
    let ranges: Vec<Range<usize>> = vec![1..3, 1..3];
    let s = t.slice(ranges.as_slice());
    assert_eq!(s.to_string_with(two), "Tensor[[6.00, 7.00],\n       [10.00, 11.00]]");
}

#[test]
fn display_of_an_empty_axis() {
    let t: Tensor<f32> = Tensor::zeros(vec![0]);
    assert_eq!(t.to_string_with(two), "Tensor[]");
}

#[test]
fn broadcasting_is_symmetric() {
    let pairs: Vec<(Vec<usize>, Vec<usize>)> = vec![
        (vec![5, 1, 4], vec![3, 1]),
        (vec![1], vec![2, 2]),
        (vec![4, 3], vec![4, 3]),
        (vec![2, 1, 1], vec![1, 7]),
    ];
    for (a, b) in pairs {
        assert!(shapes_broadcast(a.as_slice(), b.as_slice()));
        assert!(shapes_broadcast(b.as_slice(), a.as_slice()));
        let ab = Tensor::<f32>::get_broadcast_shape(a.as_slice(), b.as_slice());
        let ba = Tensor::<f32>::get_broadcast_shape(b.as_slice(), a.as_slice());
        assert_eq!(ab, ba);
    }
}

#[test]
fn broadcasting_a_shape_with_itself_keeps_it() {
    let a: Vec<usize> = vec![3, 1, 5];
    assert_eq!(Tensor::<f32>::get_broadcast_shape(a.as_slice(), a.as_slice()), a);
}

#[test]
fn shapes_that_do_not_broadcast() {
    let a: Vec<usize> = vec![5, 6, 4];
    let b: Vec<usize> = vec![3, 3];
    assert!(!shapes_broadcast(a.as_slice(), b.as_slice()));
    let c: Vec<usize> = vec![2, 3];
    let d: Vec<usize> = vec![3, 2];
    assert!(!shapes_broadcast(c.as_slice(), d.as_slice()));
}

#[test]
fn sizes_and_padded_sizes() {
    assert_eq!(shape_len(&[2, 3, 4]), 24);
    assert_eq!(shape_len(&[2, 0, 4]), 0);
    assert_eq!(padded_len(&[2, 0, 4]), Some(8));
    assert_eq!(padded_len(&[usize::MAX, 2]), None);
    assert_eq!(padded_len(&[usize::MAX, 0]), Some(usize::MAX));
}

#[test]
fn transposing_twice_gives_back_the_tensor() {
    let t = Tensor::new((0..24).map(|x| x as f32).collect(), vec![2, 3, 4]);
    let back = t.transpose(0, 2).unwrap().transpose(0, 2).unwrap();
    assert_eq!(back.shape(), t.shape());
    assert_eq!(back.strides(), t.strides());
    assert_eq!(back.offset(), t.offset());
    assert_eq!(values(&back), values(&t));
}

#[test]
fn transpose_error_messages() {
    let t: Tensor<f32> = Tensor::ones(vec![2, 2]);
    assert_eq!(t.transpose(2, 0).err().unwrap(), "Axis a out of bounds");
    assert_eq!(t.transpose(0, 2).err().unwrap(), "Axis b out of bounds");
}

#[test]
fn permute_error_messages() {
    let t: Tensor<f32> = Tensor::ones(vec![2, 3, 4]);
    assert_eq!(
        t.permute(&[0, 1]).err().unwrap(),
        "Axes length must match tensor dimensions"
    );
    assert_eq!(t.permute(&[0, 1, 3]).err().unwrap(), "Axis out of bounds");
    assert_eq!(t.permute(&[0, 1, 1]).err().unwrap(), "Axes must be unique");
}

#[test]
fn permute_moves_the_elements() {
    let t = Tensor::new((0..6).map(|x| x as f32).collect(), vec![2, 3]);
    let p = t.permute(&[1, 0]).unwrap();
    assert_eq!(p.shape(), &[3, 2]);
    assert_eq!(values(&p), vec![0.0, 3.0, 1.0, 4.0, 2.0, 5.0]);
    let back = p.permute(&[1, 0]).unwrap();
    assert_eq!(values(&back), values(&t));
}

#[test]
fn reshape_keeps_row_major_order() {
    let t = Tensor::new((0..12).map(|x| x as f32).collect(), vec![3, 4]);
    let r = t.reshape(&[2, 6]).unwrap();
    assert_eq!(r.shape(), &[2, 6]);
    assert_eq!(r.strides(), &[6, 1]);
    assert_eq!(values(&r), values(&t));
    assert_eq!(
        t.reshape(&[5, 2]).err().unwrap(),
        "New shape must have the same number of elements"
    );
}

#[test]
fn reshape_of_a_slice_copies_it() {
    let t = Tensor::new((0..12).map(|x| x as f32).collect(), vec![3, 4]);
    let ranges: Vec<Range<usize>> = vec![0..2, 1..3];
    let s = t.slice(ranges.as_slice());
    assert!(!s.is_contiguous());
    let r = s.reshape(&[4]).unwrap();
    assert_eq!(values(&r), vec![1.0, 2.0, 5.0, 6.0]);
}

#[test]
fn reduce_axis_error_message() {
    let t: Tensor<f32> = Tensor::ones(vec![2, 2]);
    assert_eq!(
        t.apply_reduce_axis(2, 0.0, |a, b| a + b).err().unwrap(),
        "Axis out of bounds"
    );
}

#[test]
fn reduce_axis_folds_in_order() {
    let t = Tensor::new(vec![1.0f32, 2.0, 3.0, 4.0, 5.0, 6.0], vec![2, 3]);
    let first = t.apply_reduce_axis(1, 0.0, |acc, x| if acc == 0.0 { x } else { acc }).unwrap();
    assert_eq!(values(&first), vec![1.0, 4.0]);
    let last = t.apply_reduce_axis(0, 0.0, |_acc, x| x).unwrap();
    assert_eq!(values(&last), vec![4.0, 5.0, 6.0]);
}

#[test]
fn unravel_and_flat_index_agree() {
    let t = Tensor::new((0..24).map(|x| x as f32).collect(), vec![2, 3, 4]);
    let mut idx: Vec<usize> = vec![0; 3];
    for k in 0..24 {
        Tensor::<f32>::update_indices_from_index(&mut idx, k, t.shape());
        assert_eq!(t.flat_index(idx.as_slice()), Some(k));
        assert_eq!(t.flat_index_unchecked(idx.as_slice()), k);
        assert_eq!(t.get(idx.as_slice()), Some(k as f32));
    }
}

#[test]
fn unary_on_a_transposed_tensor_follows_storage() {
    let t = Tensor::new(vec![1.0f32, 2.0, 3.0, 4.0], vec![2, 2]);
    let tr = t.transpose(0, 1).unwrap();
    assert!(tr.is_contiguous());
    let doubled = tr.apply_unary(|x| x * 2.0);
    assert_eq!(doubled.data().clone(), vec![2.0, 4.0, 6.0, 8.0]);
}

#[test]
fn binary_broadcasts_both_ways() {
    let a = Tensor::new(vec![1.0f32, 2.0, 3.0], vec![3, 1]);
    let b = Tensor::new(vec![10.0f32, 20.0], vec![2]);
    let c = a.apply_binary(&b, |x, y| x + y);
    assert_eq!(c.shape(), &[3, 2]);
    assert_eq!(values(&c), vec![11.0, 21.0, 12.0, 22.0, 13.0, 23.0]);
    let d = b.apply_binary(&a, |x, y| x + y);
    assert_eq!(values(&d), values(&c));
}

#[test]
fn to_contiguous_of_a_slice() {
    let t = Tensor::new((0..6).map(|x| x as f32).collect(), vec![2, 3]);
    let ranges: Vec<Range<usize>> = vec![0..2, 1..3];
    let c = t.slice(ranges.as_slice()).to_contiguous();
    assert!(c.is_contiguous());
    assert_eq!(c.offset(), 0);
    assert_eq!(c.strides(), &[2, 1]);
    assert_eq!(c.data().clone(), vec![1.0, 2.0, 4.0, 5.0]);
}

#[test]
fn iterating_past_the_end_stays_empty() {
    let t = Tensor::new(vec![1.0f32], vec![1]);
    let mut it = t.iter();
    assert_eq!(it.next(), Some(1.0));
    assert_eq!(it.next(), None);
    assert_eq!(it.next(), None);
}

#[test]
fn slice_offsets_count_from_the_start_of_storage() {
    let t = Tensor::new((1..=16).map(|x| x as f32).collect(), vec![4, 4]);
    let outer: Vec<Range<usize>> = vec![1..3, 1..3];
    let s = t.slice(outer.as_slice());
    assert_eq!(s.offset(), 5);
    let inner: Vec<Range<usize>> = vec![0..1, 1..2];
    let s2 = s.slice(inner.as_slice());
    assert_eq!(s2.offset(), 1);
    assert_eq!(s2.shape(), &[1, 1]);
    assert_eq!(s2.get_unchecked(&[0, 0]), 2.0);
    let checked = s.checked_slice(inner.as_slice()).unwrap();
    assert_eq!(checked.offset(), 1);
}

#[test]
fn reverse_broadcast_reads_only_the_leading_indices() {
    let mut original_indices: Vec<usize> = vec![9; 3];
    let broadcast_indices: Vec<usize> = vec![1, 2, 7, 7];
    let original_shape: Vec<usize> = vec![1, 3];
    let broadcast_shape: Vec<usize> = vec![2, 3];
    Tensor::<f32>::update_reverse_broadcast(
        &mut original_indices,
        broadcast_indices.as_slice(),
        original_shape.as_slice(),
        broadcast_shape.as_slice(),
    );
    assert_eq!(original_indices, vec![0, 2, 9]);
}

#[test]
fn permuting_back_with_the_inverse_gives_back_the_tensor() {
    let t = Tensor::new((0..24).map(|x| x as f32).collect(), vec![2, 3, 4]);
    let p = t.permute(&[2, 0, 1]).unwrap();
    assert_eq!(p.shape(), &[4, 2, 3]);
    let back = p.permute(&[1, 2, 0]).unwrap();
    assert_eq!(back.shape(), t.shape());
    assert_eq!(back.strides(), t.strides());
    assert_eq!(back.offset(), t.offset());
    assert_eq!(values(&back), values(&t));
}
