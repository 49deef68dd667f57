use vfbow::vocabulary::params::{NAME_FIELD_LEN, PARAMS_ENCODED_LEN};
use vfbow::{DescriptorType, FormatError, VocabularyParams};

#[test]
fn roundtrip_params() {
    let params = VocabularyParams::empty();
    let mut buffer = Vec::new();
    params.write_to(&mut buffer).unwrap();

    let mut pos = 0usize;
    let params2 = VocabularyParams::read_from(&buffer, &mut pos).unwrap();
    assert!(pos == buffer.len(), "Underflowed {} bytes", buffer.len() - pos);
    assert_eq!(params, params2);
}

#[test]
fn params_encoding_layout() {
    let mut params = VocabularyParams::empty();
    params.set(8, 10, DescriptorType::Float32, 128, 3, "orb");
    let mut buffer = vec![0xAAu8];
    params.write_to(&mut buffer).unwrap();
    assert_eq!(buffer.len(), 1 + PARAMS_ENCODED_LEN);
    let body = &buffer[1..];
    assert_eq!(&body[..3], b"orb");
    assert!(body[3..NAME_FIELD_LEN].iter().all(|b| *b == 0));
    // alignment, nblocks, total_size, type code, desc_size, k
    assert_eq!(&body[50..54], &8u32.to_le_bytes());
    assert_eq!(&body[54..58], &3u32.to_le_bytes());
    assert_eq!(&body[58..66], &0u64.to_le_bytes());
    assert_eq!(&body[66..70], &5u32.to_le_bytes());
    assert_eq!(&body[70..74], &128u32.to_le_bytes());
    assert_eq!(&body[74..78], &10u32.to_le_bytes());

    let mut pos = 1usize;
    let back = VocabularyParams::read_from(&buffer, &mut pos).unwrap();
    assert_eq!(pos, buffer.len());
    assert_eq!(back, params);
    assert_eq!(back.desc_name.as_str(), "orb");
}

#[test]
fn params_name_is_truncated_to_whole_characters() {
    let mut params = VocabularyParams::empty();
    let long: String = std::iter::repeat('a').take(60).collect();
    params.set_name(&long);
    assert_eq!(params.desc_name.as_str().len(), 49);

    // A two-byte character that would end past byte 49 is dropped
    let mut name: String = std::iter::repeat('b').take(48).collect();
    name.push('é');
    params.set_name(&name);
    assert_eq!(params.desc_name.as_str(), &name[..48]);

    params.set_name("short");
    assert_eq!(params.desc_name.as_str(), "short");
}

#[test]
fn params_read_errors() {
    let params = VocabularyParams::empty();
    let mut buffer = Vec::new();
    params.write_to(&mut buffer).unwrap();

    // Truncated input
    let mut pos = 0usize;
    assert_eq!(VocabularyParams::read_from(&buffer[..40], &mut pos), Err(FormatError::UnexpectedEof));

    // Unknown descriptor type code
    let mut bad = buffer.clone();
    bad[66..70].copy_from_slice(&7u32.to_le_bytes());
    let mut pos = 0usize;
    assert_eq!(VocabularyParams::read_from(&bad, &mut pos), Err(FormatError::InvalidDescriptorType(7)));

    // A name that is not UTF-8
    let mut bad = buffer.clone();
    bad[0] = 0xff;
    let mut pos = 0usize;
    assert_eq!(VocabularyParams::read_from(&bad, &mut pos), Err(FormatError::InvalidUtf8));
}

#[test]
fn params_write_overflow() {
    let mut params = VocabularyParams::empty();
    params.alignment = (u32::MAX as usize) + 1;
    let mut buffer = Vec::new();
    assert_eq!(params.write_to(&mut buffer), Err(FormatError::ValueOverflow));
}
