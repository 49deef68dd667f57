use vfbow::creator::bounds::depth_limit_fits;
use vfbow::creator::feature::FeatureInfo;
use vfbow::vocabulary::format::VFBOW_MAGIC;
use vfbow::{
    CreateVocabularyError, DescriptorType, Matrix, VocabElement, VocabularyCreator, VocabularyCreatorParams,
};

fn matrix(ncols: usize, rows: &[&[u8]]) -> Matrix<u8> {
    Matrix { ncols, rows: rows.iter().map(|r| r.to_vec()).collect() }
}

#[test]
fn creator_params_default() {
    let p = VocabularyCreatorParams::default();
    assert_eq!(p.k, 32);
    assert_eq!(p.L, None);
    assert_eq!(p.nthreads, 1);
    assert_eq!(p.max_iters, 11);
    assert!(!p.verbose);
}

#[test]
fn prefer_alignment_u8() {
    let c = VocabularyCreator::new(VocabularyCreatorParams::default());
    assert_eq!(c.prefer_alignment::<u8>(32), 16);
    assert_eq!(c.prefer_alignment::<u8>(24), 8);
    assert_eq!(c.prefer_alignment::<u8>(61), 1);
    assert_eq!(<u8 as VocabElement>::min_alignment(), 8);
    assert_eq!(<u8 as VocabElement>::descriptor_type(), DescriptorType::Uint8);
}

#[test]
fn feature_info_errors() {
    assert_eq!(FeatureInfo::create(vec![]).err(), Some(CreateVocabularyError::NoFeatures));
    // Arrays without elements are left out
    assert_eq!(
        FeatureInfo::create(vec![matrix(3, &[]), matrix(0, &[])]).err(),
        Some(CreateVocabularyError::NoFeatures)
    );
    // An array of rows without columns
    assert_eq!(
        FeatureInfo::create(vec![matrix(3, &[]), matrix(0, &[&[]])]).err(),
        Some(CreateVocabularyError::EmptyFeature)
    );
    assert_eq!(
        FeatureInfo::create(vec![matrix(2, &[&[1, 2]]), matrix(0, &[&[], &[]])]).err(),
        Some(CreateVocabularyError::EmptyFeature)
    );
    assert_eq!(
        FeatureInfo::create(vec![matrix(2, &[&[1, 2]]), matrix(3, &[&[1, 2, 3]])]).err(),
        Some(CreateVocabularyError::ArrayDimMismatch)
    );
}

#[test]
fn feature_info_lists_rows_in_order() {
    let info = FeatureInfo::create(vec![matrix(2, &[&[1, 2], &[3, 4]]), matrix(5, &[]), matrix(2, &[&[5, 6]])]).unwrap();
    assert_eq!(info.len(), 3);
    assert_eq!(info.feature_len(), 2);
    assert_eq!(info.get(0), &[1, 2]);
    assert_eq!(info.get(2), &[5, 6]);
}

#[test]
fn mean_value_is_bit_majority() {
    let info = FeatureInfo::create(vec![matrix(1, &[&[0b1111], &[0b0011], &[0b0001]])]).unwrap();
    // A bit set in at least two of the three
    assert_eq!(info.mean_value(&[0, 1, 2]), vec![0b0011]);
    // With two features a bit set in one of them is enough
    assert_eq!(info.mean_value(&[0, 1]), vec![0b1111]);
    // The mean of a single feature is that feature
    assert_eq!(info.mean_value(&[1]), vec![0b0011]);
    assert_eq!(info.mean_value(&[]), vec![0]);
    let two = FeatureInfo::create(vec![matrix(2, &[&[0b1010_1010, 0xFF]])]).unwrap();
    assert_eq!(two.mean_value(&[0]), vec![0b1010_1010, 0xFF]);
    assert_eq!(two.mean_value(&[0, 0, 0]), vec![0b1010_1010, 0xFF]);
}

#[test]
fn create_errors() {
    let c = VocabularyCreator::new(VocabularyCreatorParams::default());
    assert_eq!(c.create(vec![], "x").err(), Some(CreateVocabularyError::NoFeatures));
    assert_eq!(
        c.create(vec![matrix(1, &[&[1]]), matrix(2, &[&[1, 2]])], "x").err(),
        Some(CreateVocabularyError::ArrayDimMismatch)
    );
}

#[test]
fn create_small_vocabulary() {
    let c = VocabularyCreator::new(VocabularyCreatorParams { k: 4, ..VocabularyCreatorParams::default() });
    let v = c.create(vec![matrix(2, &[&[1, 2], &[3, 4]]), matrix(2, &[&[5, 6]])], "orb").unwrap();
    assert_eq!(v.desc_name(), "orb");
    assert_eq!(v.k(), 4);
    assert_eq!(v.size(), 1);
    assert_eq!(v.desc_size(), 2);
    assert_eq!(v.num_features(), 3);
    assert_eq!(v.params.alignment, 8);
    assert!(v.tree_in_bounds());

    // Each training feature is its own word
    let data = matrix(2, &[&[1, 2], &[3, 4], &[5, 6], &[5, 6]]);
    let (counts, _) = v.transform(&data, None).unwrap();
    let mut items = counts.items();
    items.sort();
    assert_eq!(items, vec![(0, 1), (1, 1), (2, 2)]);

    // A vocabulary whose root has no branches can be written
    let mut out = Vec::new();
    v.write_to(&mut out).unwrap();
    assert_eq!(&out[..8], &VFBOW_MAGIC.to_le_bytes());
    let n = out.len();
    assert_eq!(&out[n - 12..n - 8], &v.root.base.to_le_bytes());
    assert_eq!(&out[n - 8..n - 4], &3u32.to_le_bytes());
    assert_eq!(&out[n - 4..], &0u32.to_le_bytes());
}

#[test]
fn create_tree_vocabulary() {
    let params = VocabularyCreatorParams { k: 2, ..VocabularyCreatorParams::default() };
    let c = VocabularyCreator::new(params);
    // Two clear clusters, whichever first center is drawn
    let rows: [&[u8]; 4] = [&[0x00], &[0x01], &[0xFF], &[0xFE]];
    let v = c.create(vec![matrix(1, &rows)], "bin").unwrap();
    assert_eq!(v.k(), 2);
    assert_eq!(v.size(), 3);
    assert_eq!(v.num_features(), 6);
    assert!(v.tree_in_bounds());
    assert_eq!(v.root.num_children(), 2);

    let (counts, groups) = v.transform(&matrix(1, &rows), None).unwrap();
    let mut items = counts.items();
    items.sort();
    assert_eq!(items, vec![(2, 1), (3, 1), (4, 1), (5, 1)]);
    let mut entries = groups.entries();
    entries.sort();
    assert_eq!(entries, vec![(2, vec![0, 1]), (4, vec![2, 3])]);
}

#[test]
fn create_is_deterministic() {
    let params = VocabularyCreatorParams { k: 2, ..VocabularyCreatorParams::default() };
    let c = VocabularyCreator::new(params);
    let rows: [&[u8]; 4] = [&[0x10], &[0x11], &[0xEF], &[0xEE]];
    let a = c.create(vec![matrix(1, &rows)], "a").unwrap();
    let b = c.create(vec![matrix(1, &rows)], "a").unwrap();
    assert_eq!(format!("{:?}", a), format!("{:?}", b));
}

#[test]
fn create_depth_limit() {
    // With a depth limit of zero the root's clusters stay single leaves
    let params = VocabularyCreatorParams { k: 2, L: Some(0), ..VocabularyCreatorParams::default() };
    let c = VocabularyCreator::new(params);
    let rows: [&[u8]; 4] = [&[0x00], &[0x01], &[0xFF], &[0xFE]];
    let v = c.create(vec![matrix(1, &rows)], "bin").unwrap();
    assert_eq!(v.size(), 1);
    assert_eq!(v.num_features(), 2);
    assert_eq!(v.root.num_children(), 0);
}

#[test]
fn create_f32_flat_vocabulary() {
    let c = VocabularyCreator::new(VocabularyCreatorParams { k: 4, ..VocabularyCreatorParams::default() });
    let bits = |v: &[f32]| v.iter().map(|x| x.to_bits()).collect::<Vec<u32>>();
    let m1 = Matrix { ncols: 2, rows: vec![bits(&[1.0, 2.0]), bits(&[3.0, 4.0])] };
    let m2 = Matrix { ncols: 2, rows: vec![bits(&[-1.0, 0.5])] };
    let v = c.create_f32(vec![m1, Matrix { ncols: 9, rows: vec![] }, m2], "surf").unwrap();
    assert_eq!(v.desc_type(), DescriptorType::Float32);
    assert_eq!(v.desc_size(), 8);
    assert_eq!(v.params.alignment, 32);
    assert_eq!(v.size(), 1);
    assert_eq!(v.k(), 4);
    assert_eq!(v.num_features(), 3);
    assert_eq!((v.root.base, v.root.n), (0, 3));
    assert_eq!(v.desc_name(), "surf");
    assert_eq!(
        c.create_f32(vec![Matrix { ncols: 1, rows: vec![vec![0]] }, Matrix { ncols: 2, rows: vec![vec![0, 0]] }], "x").err(),
        Some(CreateVocabularyError::ArrayDimMismatch)
    );
    assert_eq!(c.create_f32(vec![], "x").err(), Some(CreateVocabularyError::NoFeatures));
}

#[test]
fn create_zero_columns_is_empty_feature() {
    let c = VocabularyCreator::new(VocabularyCreatorParams::default());
    assert_eq!(c.create(vec![matrix(0, &[&[], &[], &[]])], "orb").err(), Some(CreateVocabularyError::EmptyFeature));
    assert_eq!(
        c.create_f32(vec![Matrix { ncols: 0, rows: vec![vec![], vec![], vec![]] }], "orb").err(),
        Some(CreateVocabularyError::EmptyFeature)
    );
}

#[test]
fn depth_limit_fits_words_in_32_bits() {
    // 10 * (1 + 10 + ... + 10^6) words
    assert!(depth_limit_fits(10, 6));
    assert!(depth_limit_fits(2, 30));
    assert!(!depth_limit_fits(2, 31));
    assert!(!depth_limit_fits(0, 1));
    assert!(depth_limit_fits(u32::MAX, 0));
    assert!(!depth_limit_fits(u32::MAX, 1));
}
