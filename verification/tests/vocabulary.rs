use vfbow::features::f32::FeaturesF32;
use vfbow::features::u8::FeaturesU8;
use vfbow::features::FeaturesGeneric;
use vfbow::vocabulary::Node;
use vfbow::{DescriptorType, Matrix, TransformError, Vocabulary, VocabularyParams};

/// A two-level tree over one-byte features: the root's first child is a
/// branch (words 3 and 4 below it), its other two children are leaves
fn small_vocabulary() -> Vocabulary {
    let mut features = FeaturesU8::new(5, 1);
    features.insert(&[vec![0x00], vec![0xF0], vec![0xFF], vec![0x01], vec![0x03]]);
    let mut params = VocabularyParams::empty();
    params.set(8, 3, DescriptorType::Uint8, 1, 2, "tiny");
    let branch = Node { base: 3, n: 2, children: None };
    let root = Node { base: 0, n: 3, children: Some(vec![branch]) };
    Vocabulary { params, root, features: FeaturesGeneric::Uint8(features) }
}

fn rows(values: &[u8]) -> Matrix<u8> {
    Matrix { ncols: 1, rows: values.iter().map(|v| vec![*v]).collect() }
}

#[test]
fn vocabulary_getters() {
    let v = small_vocabulary();
    assert_eq!(v.desc_name(), "tiny");
    assert_eq!(v.num_features(), 5);
    assert_eq!(v.desc_type(), DescriptorType::Uint8);
    assert_eq!(v.desc_size(), 1);
    assert_eq!(v.k(), 3);
    assert_eq!(v.size(), 2);
    assert!(v.tree_in_bounds());
    assert_eq!(v.root.num_children(), 1);
    assert_eq!(Node::empty().num_children(), 0);
}

#[test]
fn tree_out_of_bounds_is_detected() {
    let mut v = small_vocabulary();
    v.root = Node { base: 3, n: 3, children: None };
    assert!(!v.tree_in_bounds());
    v.root = Node { base: 0, n: 0, children: None };
    assert!(!v.tree_in_bounds());
}

#[test]
fn transform_counts_words() {
    let v = small_vocabulary();
    let (counts, groups) = v.transform(&rows(&[0x00, 0xF0, 0x03, 0x02]), None).unwrap();
    let mut items = counts.items();
    items.sort();
    assert_eq!(items, vec![(1, 1), (3, 1), (4, 2)]);
    let mut entries = groups.entries();
    entries.sort();
    assert_eq!(entries, vec![(0, vec![1]), (3, vec![0, 2, 3])]);
}

#[test]
fn transform_groups_at_level() {
    let v = small_vocabulary();
    let data = rows(&[0x00, 0xF0, 0x03, 0x02]);
    let (_, groups) = v.transform(&data, Some(0)).unwrap();
    let mut entries = groups.entries();
    entries.sort();
    assert_eq!(entries, vec![(0, vec![0, 1, 2, 3])]);

    let (_, groups) = v.transform(&data, Some(1)).unwrap();
    let mut entries = groups.entries();
    entries.sort();
    assert_eq!(entries, vec![(0, vec![1]), (3, vec![0, 2, 3])]);
}

#[test]
fn transform_errors() {
    let v = small_vocabulary();
    let empty = Matrix::<u8> { ncols: 1, rows: Vec::new() };
    assert_eq!(v.transform(&empty, None).err(), Some(TransformError::NoInputData));
    let wide = Matrix { ncols: 2, rows: vec![vec![0u8, 0]] };
    assert_eq!(
        v.transform(&wide, None).err(),
        Some(TransformError::SizeMismatch { vocab_flen: 1, feature_len: 2 })
    );
}

#[test]
fn transform_one_paths() {
    let v = small_vocabulary();
    // The path runs from the root to the block where the leaf was found,
    // and the leaf is the word that transform counts
    let p = v.transform_one(&[0x03], None).unwrap();
    let r = p.as_ref();
    assert_eq!(r.word_ids(), vec![4]);
    assert_eq!(r.words_u8(), vec![vec![0x03]]);
    let (counts, _) = v.transform(&rows(&[0x03]), None).unwrap();
    assert_eq!(counts.items(), vec![(4, 1)]);
    // The enclosing node is the block of the leaf, then the root
    let parent = r.parent().unwrap();
    assert_eq!(parent.word_ids(), vec![3, 4]);
    let grandparent = parent.parent().unwrap();
    assert_eq!(grandparent.word_ids(), vec![0, 1, 2]);
    assert!(grandparent.parent().is_none());

    // A leaf of the root
    let p = v.transform_one(&[0xF8], None).unwrap();
    assert_eq!(p.as_ref().word_ids(), vec![1]);

    // Stopping at depth 1, in the branch below the root
    let p = v.transform_one(&[0x03], Some(1)).unwrap();
    assert_eq!(p.as_ref().word_ids(), vec![3, 4]);
    assert_eq!(p.as_ref().words_u8(), vec![vec![0x01], vec![0x03]]);
    assert_eq!(p.as_ref().parent().unwrap().word_ids(), vec![0, 1, 2]);

    // At depth 0 the path holds the root, whose children are the words
    let p = v.transform_one(&[0x03], Some(0)).unwrap();
    assert_eq!(p.as_ref().word_ids(), vec![0, 1, 2]);
    assert!(p.as_ref().parent().is_none());

    assert_eq!(
        v.transform_one(&[1, 2], None).err(),
        Some(TransformError::SizeMismatch { vocab_flen: 1, feature_len: 2 })
    );
}

#[test]
fn transform_type_mismatch() {
    let mut features = FeaturesF32::new(2, 1);
    features.insert(&[vec![0u32], vec![1.0f32.to_bits()]]);
    let mut params = VocabularyParams::empty();
    params.set(32, 2, DescriptorType::Float32, 4, 1, "f");
    let v = Vocabulary { params, root: Node { base: 0, n: 2, children: None }, features: FeaturesGeneric::Float32(features) };
    let m = Matrix { ncols: 4, rows: vec![vec![0, 0, 0, 0]] };
    assert_eq!(v.transform(&m, None).err(), Some(TransformError::DTypeMismatch));
    assert_eq!(v.transform_one(&[0, 0, 0, 0], None).err(), Some(TransformError::DTypeMismatch));
}

#[test]
fn transform_keyed_follows_the_keys() {
    let v = small_vocabulary();
    // Keys for the five words of the vocabulary. Each feature is nearest to
    // child 0 of the root, a branch; below it the first feature takes word
    // 3, the second word 4, and the third, tied, the first of the two
    let keys = vec![
        vec![1, 5, 5, 9, 9],
        vec![0, 3, 3, 7, 2],
        vec![4, 4, 9, 1, 1],
    ];
    let (counts, groups) = v.transform_keyed(keys.clone(), None).unwrap();
    let mut items = counts.items();
    items.sort();
    assert_eq!(items, vec![(3, 2), (4, 1)]);
    let mut entries = groups.entries();
    entries.sort();
    assert_eq!(entries, vec![(3, vec![0, 1, 2])]);
    let (_, groups) = v.transform_keyed(keys, Some(0)).unwrap();
    assert_eq!(groups.entries(), vec![(0, vec![0, 1, 2])]);
    assert_eq!(v.transform_keyed(vec![], None).err(), Some(TransformError::NoInputData));
}
