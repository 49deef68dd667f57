use vfbow::feature_file::{parse_feature_file, FeatureArrays, FeatureFileError, CV_32FC1, CV_8UC1};

fn file_header(name: &[u8], count: u64) -> Vec<u8> {
    let mut b = Vec::new();
    b.extend_from_slice(&(name.len() as u32).to_le_bytes());
    b.extend_from_slice(name);
    b.extend_from_slice(&count.to_le_bytes());
    b
}

fn array_header(b: &mut Vec<u8>, cols: u32, rows: u32, dty: u32) {
    b.extend_from_slice(&cols.to_le_bytes());
    b.extend_from_slice(&rows.to_le_bytes());
    b.extend_from_slice(&dty.to_le_bytes());
}

#[test]
fn feature_file_u8_arrays() {
    let mut b = file_header(b"orb", 2);
    array_header(&mut b, 2, 3, CV_8UC1);
    b.extend_from_slice(&[1, 2, 3, 4, 5, 6]);
    array_header(&mut b, 2, 1, CV_8UC1);
    b.extend_from_slice(&[7, 8]);
    let (name, arrays) = parse_feature_file(&b).unwrap();
    assert_eq!(name, "orb");
    match arrays {
        FeatureArrays::U8(ms) => {
            assert_eq!(ms.len(), 2);
            assert_eq!(ms[0].ncols, 2);
            assert_eq!(ms[0].rows, vec![vec![1, 2], vec![3, 4], vec![5, 6]]);
            assert_eq!(ms[1].rows, vec![vec![7, 8]]);
        },
        FeatureArrays::F32(_) => panic!("expected u8 arrays"),
    }
}

#[test]
fn feature_file_f32_arrays() {
    let mut b = file_header(b"surf", 1);
    array_header(&mut b, 2, 1, CV_32FC1);
    b.extend_from_slice(&1.5f32.to_le_bytes());
    b.extend_from_slice(&(-2.0f32).to_le_bytes());
    let (name, arrays) = parse_feature_file(&b).unwrap();
    assert_eq!(name, "surf");
    match arrays {
        FeatureArrays::F32(ms) => {
            assert_eq!(ms.len(), 1);
            let row: Vec<f32> = ms[0].rows[0].iter().map(|x| f32::from_bits(*x)).collect();
            assert_eq!(row, vec![1.5, -2.0]);
        },
        FeatureArrays::U8(_) => panic!("expected f32 arrays"),
    }
}

#[test]
fn feature_file_errors() {
    assert_eq!(parse_feature_file(&[1, 0]).err(), Some(FeatureFileError::UnexpectedEof));
    assert_eq!(parse_feature_file(&file_header(&[0xff, 0xfe], 1)).err(), Some(FeatureFileError::InvalidName));
    assert_eq!(parse_feature_file(&file_header(b"x", 0)).err(), Some(FeatureFileError::NoFeatures));

    let mut b = file_header(b"x", 1);
    array_header(&mut b, 1, 1, 3);
    b.push(0);
    assert_eq!(parse_feature_file(&b).err(), Some(FeatureFileError::UnexpectedType(3)));

    let mut b = file_header(b"x", 2);
    array_header(&mut b, 1, 1, CV_8UC1);
    b.push(9);
    array_header(&mut b, 1, 1, CV_32FC1);
    b.extend_from_slice(&[0, 0, 0, 0]);
    assert_eq!(parse_feature_file(&b).err(), Some(FeatureFileError::InconsistentTypes));

    let mut b = file_header(b"x", 1);
    array_header(&mut b, 4, 4, CV_8UC1);
    b.extend_from_slice(&[0; 15]);
    assert_eq!(parse_feature_file(&b).err(), Some(FeatureFileError::UnexpectedEof));

    // More arrays announced than the file holds
    let mut b = file_header(b"x", 2);
    array_header(&mut b, 1, 1, CV_8UC1);
    b.push(9);
    assert_eq!(parse_feature_file(&b).err(), Some(FeatureFileError::UnexpectedEof));
}
