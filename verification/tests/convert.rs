use vfbow::convert::{convert_chunks, convert_le, InvalidChunkSizeError};

#[test]
fn test_convert_f32() {
    let bytes = [0, 0, 0, 0, 0, 0, 0, 64]; // two f32: 0.0 and 2.0
    let words: Vec<u32> = convert_le(&bytes).unwrap();
    let result: Vec<f32> = words.into_iter().map(f32::from_bits).collect();
    assert_eq!(&result, &[0.0f32, 2.0f32]);
}

#[test]
fn test_invalid_multiple() {
    let not_multiple_of_4 = [0, 1, 2, 3, 4, 5];
    assert!(convert_le::<u32>(&not_multiple_of_4).is_err(), "Should have returned an error");
    assert!(convert_le::<u32>(&[]).is_ok(), "Zero is valid");
}

#[test]
fn test_invalid_args() {
    // A width that divides no length of the input is refused
    assert_eq!(convert_chunks(&[1, 2, 3, 4], 3), Err(InvalidChunkSizeError));
}

#[test]
fn test_convert_u32() {
    let bytes = [1, 0, 0, 0, 2, 0, 0, 0]; // two u32: 1 and 2
    let result: Vec<u32> = convert_le(&bytes).unwrap();
    assert_eq!(&result, &[1u32, 2u32]);
}

#[test]
fn test_convert_u64() {
    let bytes = [1, 0, 0, 0, 0, 0, 0, 0, 2, 0, 0, 0, 0, 0, 0, 0xFF]; // two u64: 1 and 2
    let result: Vec<u64> = convert_le(&bytes).unwrap();
    assert_eq!(&result, &[1u64, 0xFF00000000000002u64]);
}

#[test]
fn convert_u16_values() {
    let result: Vec<u16> = convert_le(&[0x34, 0x12, 0xff, 0x00]).unwrap();
    assert_eq!(result, vec![0x1234u16, 0x00ff]);
}

#[test]
fn convert_chunks_splits_in_order() {
    let chunks = convert_chunks(&[1, 2, 3, 4, 5, 6], 2).unwrap();
    assert_eq!(chunks, vec![vec![1, 2], vec![3, 4], vec![5, 6]]);
    assert_eq!(convert_chunks(&[], 3).unwrap(), Vec::<Vec<u8>>::new());
}

#[test]
fn convert_u64_odd_length_fails() {
    assert_eq!(convert_le::<u64>(&[0; 12]), Err(InvalidChunkSizeError));
}
