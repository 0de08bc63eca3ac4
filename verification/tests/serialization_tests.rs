use std::ops::Range;

use yudanet::tensor::serialization::LoadError;
use yudanet::Tensor;

fn enc(x: f32) -> [u8; 4] {
    x.to_le_bytes()
}

fn dec(b: [u8; 4]) -> f32 {
    f32::from_le_bytes(b)
}

fn header(shape: &[u64]) -> Vec<u8> {
    let mut bytes: Vec<u8> = b"yn\0\0\0\0\0\0".to_vec();
    bytes.extend_from_slice(&(shape.len() as u32).to_le_bytes());
    for d in shape {
        bytes.extend_from_slice(&d.to_le_bytes());
    }
    bytes
}

#[test]
fn test_save_load_roundtrip() {
    let t = Tensor::new(vec![1.0, 2.0, 3.0, 4.0, 5.0, 6.0], vec![2, 3]);
    let bytes = t.to_bytes(enc);
    let loaded = Tensor::from_bytes(bytes.as_slice(), dec).unwrap();
    assert_eq!(loaded.shape(), &[2, 3]);
    let orig: Vec<f32> = t.iter().collect();
    let loaded_vals: Vec<f32> = loaded.iter().collect();
    assert_eq!(orig, loaded_vals);
}

#[test]
fn test_save_load_strided() {
    let t = Tensor::new(vec![1.0, 2.0, 3.0, 4.0, 5.0, 6.0], vec![2, 3]);
    let ranges: Vec<Range<usize>> = vec![0..2, 0..1];
    let s = t.slice(ranges.as_slice());
    let bytes = s.to_bytes(enc);
    let loaded = Tensor::from_bytes(bytes.as_slice(), dec).unwrap();
    assert_eq!(loaded.shape(), &[2, 1]);
    let orig: Vec<f32> = t.slice(ranges.as_slice()).iter().collect();
    let loaded_vals: Vec<f32> = loaded.iter().collect();
    assert_eq!(orig, loaded_vals);
}

#[test]
fn test_load_invalid_magic() {
    let mut bytes: Vec<u8> = b"BAD\0\0\0\0\0".to_vec();
    bytes.extend_from_slice(&[1u8; 4]);
    assert!(Tensor::from_bytes(bytes.as_slice(), dec).is_err());
}

#[test]
fn saved_bytes_are_exact() {
    let t = Tensor::new(vec![1.0f32, 2.0], vec![2]);
    let bytes = t.to_bytes(enc);
    let mut expected = header(&[2]);
    expected.extend_from_slice(&[0, 0, 0x80, 0x3f, 0, 0, 0, 0x40]);
    assert_eq!(bytes, expected);
    assert_eq!(bytes.len(), 8 + 4 + 8 + 8);
}

#[test]
fn saved_bytes_follow_row_major_order_of_a_view() {
    let t = Tensor::new(vec![1.0f32, 2.0, 3.0, 4.0], vec![2, 2]);
    let tr = t.transpose(0, 1).unwrap();
    let bytes = tr.to_bytes(enc);
    let mut expected = header(&[2, 2]);
    for x in [1.0f32, 3.0, 2.0, 4.0] {
        expected.extend_from_slice(&x.to_le_bytes());
    }
    assert_eq!(bytes, expected);
}

#[test]
fn load_reports_invalid_magic() {
    let mut bytes: Vec<u8> = b"BAD\0\0\0\0\0".to_vec();
    bytes.extend_from_slice(&[1u8; 4]);
    assert!(matches!(
        Tensor::from_bytes(bytes.as_slice(), dec),
        Err(LoadError::InvalidMagic)
    ));
}

#[test]
fn load_reports_unexpected_end() {
    let empty: Vec<u8> = Vec::new();
    assert!(matches!(
        Tensor::from_bytes(empty.as_slice(), dec),
        Err(LoadError::UnexpectedEof)
    ));
    let short: Vec<u8> = b"yn\0".to_vec();
    assert!(matches!(
        Tensor::from_bytes(short.as_slice(), dec),
        Err(LoadError::UnexpectedEof)
    ));
    let magic_only: Vec<u8> = b"yn\0\0\0\0\0\0".to_vec();
    assert!(matches!(
        Tensor::from_bytes(magic_only.as_slice(), dec),
        Err(LoadError::UnexpectedEof)
    ));
    let mut missing_dim = header(&[2, 3]);
    missing_dim.truncate(20);
    assert!(matches!(
        Tensor::from_bytes(missing_dim.as_slice(), dec),
        Err(LoadError::UnexpectedEof)
    ));
    let mut missing_data = header(&[2, 3]);
    missing_data.extend_from_slice(&[0u8; 4 * 5 + 3]);
    assert!(matches!(
        Tensor::from_bytes(missing_data.as_slice(), dec),
        Err(LoadError::UnexpectedEof)
    ));
}

#[test]
fn load_ignores_trailing_bytes() {
    let t = Tensor::new(vec![7.0f32, 8.0, 9.0], vec![3, 1]);
    let mut bytes = t.to_bytes(enc);
    bytes.extend_from_slice(&[0xff; 5]);
    let loaded = Tensor::from_bytes(bytes.as_slice(), dec).unwrap();
    assert_eq!(loaded.shape(), &[3, 1]);
    let vals: Vec<f32> = loaded.iter().collect();
    assert_eq!(vals, vec![7.0, 8.0, 9.0]);
}

#[test]
fn load_of_empty_tensor() {
    let bytes = header(&[0, 4]);
    let loaded = Tensor::from_bytes(bytes.as_slice(), dec).unwrap();
    assert_eq!(loaded.shape(), &[0, 4]);
    assert_eq!(loaded.len(), 0);
}

#[test]
fn checked_load_refuses_what_has_no_tensor() {
    let mut no_axes = header(&[]);
    no_axes.extend_from_slice(&1.0f32.to_le_bytes());
    assert!(Tensor::checked_from_bytes(no_axes.as_slice(), dec).is_none());

    let no_axes_short = header(&[]);
    assert!(matches!(
        Tensor::checked_from_bytes(no_axes_short.as_slice(), dec),
        Some(Err(LoadError::UnexpectedEof))
    ));

    let huge = header(&[1u64 << 40, 1u64 << 40]);
    assert!(Tensor::checked_from_bytes(huge.as_slice(), dec).is_none());

    let t = Tensor::new(vec![1.0f32, 2.0], vec![1, 2]);
    let bytes = t.to_bytes(enc);
    let loaded = Tensor::checked_from_bytes(bytes.as_slice(), dec).unwrap().unwrap();
    let vals: Vec<f32> = loaded.iter().collect();
    assert_eq!(vals, vec![1.0, 2.0]);

    let bad: Vec<u8> = b"nope".to_vec();
    assert!(matches!(
        Tensor::checked_from_bytes(bad.as_slice(), dec),
        Some(Err(LoadError::UnexpectedEof))
    ));
}
