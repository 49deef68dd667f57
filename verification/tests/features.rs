use vfbow::features::distance::{count_ones_u8, hamming_distance};
use vfbow::features::f32::FeaturesF32;
use vfbow::features::u8::FeaturesU8;
use vfbow::features::FeaturesGeneric;
use vfbow::{DescriptorType, FormatError, InvalidDescriptorType};

#[test]
fn descriptor_type_codes() {
    assert_eq!(DescriptorType::Uint8.type_code(), 0);
    assert_eq!(DescriptorType::Float32.type_code(), 5);
    assert_eq!(DescriptorType::try_from_code(0), Ok(DescriptorType::Uint8));
    assert_eq!(DescriptorType::try_from_code(5), Ok(DescriptorType::Float32));
    assert_eq!(DescriptorType::try_from_code(3), Err(InvalidDescriptorType(3)));
}

#[test]
fn descriptor_type_names() {
    assert_eq!(DescriptorType::Uint8.name(), "u8");
    assert_eq!(DescriptorType::Float32.name(), "f32");
    assert_eq!(DescriptorType::Uint8.numpy_name(), "np.uint8");
    assert_eq!(DescriptorType::Float32.display_name(true), "np.float32");
    assert_eq!(DescriptorType::Float32.display_name(false), "f32");
    assert_eq!(DescriptorType::Uint8.element_size(), 1);
    assert_eq!(DescriptorType::Float32.element_size(), 4);
}

#[test]
fn hamming_distances() {
    assert_eq!(count_ones_u8(0), 0);
    assert_eq!(count_ones_u8(0xff), 8);
    assert_eq!(count_ones_u8(0b1010_0110), 4);
    assert_eq!(hamming_distance(&[0, 0xff, 0x0f], &[0, 0, 0xff]), 12);
    assert_eq!(hamming_distance(&[7], &[7]), 0);
}

#[test]
fn u8_storage_layouts() {
    assert_eq!(FeaturesU8::new(0, 32).storage(), "array8_32");
    assert_eq!(FeaturesU8::new(0, 61).storage(), "array8_61");
    assert_eq!(FeaturesU8::new(0, 64).storage(), "array8_64");
    assert_eq!(FeaturesU8::new(0, 5).storage(), "generic");
}

#[test]
fn u8_features_roundtrip() {
    let mut f = FeaturesU8::new(3, 3);
    f.insert(&[vec![1, 2, 3], vec![4, 5, 6]]);
    f.push(vec![7, 8, 9]);
    assert_eq!(f.len(), 3);
    assert_eq!(f.feature_len(), 3);
    assert_eq!(f.get(1), Some(vec![4, 5, 6]));
    assert_eq!(f.get(3), None);

    let mut buf = vec![9u8];
    f.write_to(&mut buf).unwrap();
    assert_eq!(&buf[1..5], &3u32.to_le_bytes());
    assert_eq!(&buf[5..9], &3u32.to_le_bytes());
    assert_eq!(&buf[9..], &[1, 2, 3, 4, 5, 6, 7, 8, 9]);

    let mut pos = 1usize;
    let g = FeaturesU8::read_from(&buf, &mut pos).unwrap();
    assert_eq!(pos, buf.len());
    assert_eq!(g.len(), 3);
    assert_eq!(g.get(0), Some(vec![1, 2, 3]));
    assert_eq!(g.get(2), Some(vec![7, 8, 9]));

    let mut pos = 1usize;
    assert_eq!(FeaturesU8::read_from(&buf[..buf.len() - 1], &mut pos).err(), Some(FormatError::UnexpectedEof));
}

#[test]
fn f32_features_roundtrip() {
    let mut f = FeaturesF32::new(2, 2);
    f.push(vec![1.0f32.to_bits(), 2.5f32.to_bits()]);
    f.insert(&[vec![(-3.0f32).to_bits(), 0]]);
    assert_eq!(f.len(), 2);
    let mut buf = Vec::new();
    f.write_to(&mut buf).unwrap();
    assert_eq!(buf.len(), 8 + 2 * 2 * 4);
    assert_eq!(&buf[8..12], &1.0f32.to_le_bytes());

    let mut pos = 0usize;
    let g = FeaturesF32::read_from(&buf, &mut pos).unwrap();
    assert_eq!(pos, buf.len());
    let row: Vec<f32> = g.get(1).unwrap().into_iter().map(f32::from_bits).collect();
    assert_eq!(row, vec![-3.0f32, 0.0]);
}

#[test]
fn generic_features_roundtrip() {
    let mut f = FeaturesGeneric::new(1, DescriptorType::Uint8, 2);
    f.insert_u8(&[vec![10, 20]]);
    assert_eq!(f.len(), 1);
    assert_eq!(f.desc_type(), DescriptorType::Uint8);
    let mut buf = Vec::new();
    f.write_to(&mut buf).unwrap();
    assert_eq!(&buf[..4], &0u32.to_le_bytes());
    let mut pos = 0usize;
    let g = FeaturesGeneric::read_from(&buf, &mut pos).unwrap();
    assert_eq!(pos, buf.len());
    assert_eq!(g.feature_len(), 2);
    assert_eq!(g.desc_type(), DescriptorType::Uint8);

    let mut bad = buf.clone();
    bad[0] = 9;
    let mut pos = 0usize;
    assert_eq!(FeaturesGeneric::read_from(&bad, &mut pos).err(), Some(FormatError::InvalidDescriptorType(9)));
}
