use std::sync::Arc;
use vfbow::db::{database_read_panics, Database, InvertedEntries, InvertedEntry, DB_SER_VERSION};
use vfbow::features::u8::FeaturesU8;
use vfbow::features::FeaturesGeneric;
use vfbow::vocabulary::Node;
use vfbow::{Bow, DescriptorType, Features, FormatError, Vocabulary, VocabularyParams};

/// A vocabulary of three one-byte words under the root
fn flat_vocabulary() -> Vocabulary {
    let mut features = FeaturesU8::new(3, 1);
    features.insert(&[vec![0x00], vec![0x0F], vec![0xFF]]);
    let mut params = VocabularyParams::empty();
    params.set(8, 3, DescriptorType::Uint8, 1, 1, "flat");
    Vocabulary { params, root: Node { base: 0, n: 3, children: None }, features: FeaturesGeneric::Uint8(features) }
}

fn one() -> u32 {
    1.0f32.to_bits()
}

fn bow(items: &[(u32, u32)]) -> Bow {
    let mut b = Bow::with_capacity(items.len());
    for (w, v) in items {
        b.set(*w, *v);
    }
    b
}

#[test]
fn database_new_and_insert() {
    let mut db = Database::new(Arc::new(flat_vocabulary()), true, 2);
    assert!(db.is_empty());
    assert_eq!(db.len(), 0);
    assert!(db.using_direct_index());
    assert_eq!(db.direct_index_levels(), Some(2));
    assert_eq!(db.num_rows(), 3);
    assert_eq!(db.vocabulary().desc_name(), "flat");

    let mut fv = Features::new();
    fv.insert(0, 0);
    let id = db.insert(&bow(&[(0, one()), (2, 2.0f32.to_bits())]), fv);
    assert_eq!(id, 0);
    let id = db.insert(&bow(&[(2, one())]), Features::new());
    assert_eq!(id, 1);
    assert_eq!(db.len(), 2);
    assert!(!db.is_empty());

    assert_eq!(db.features(0).unwrap().get(0), Some(&vec![0]));
    assert_eq!(db.features(1).unwrap().len(), 0);
    assert!(db.features(2).is_none());

    assert_eq!(db.inverted_row(0).unwrap(), &[InvertedEntry { entry_id: 0, word_weight: one() }]);
    assert_eq!(db.inverted_row(1).unwrap().len(), 0);
    assert_eq!(db.inverted_row(2).unwrap().len(), 2);
    assert!(db.inverted_row(3).is_none());
    assert_eq!(db.inverted_entry(2, 0), Some(InvertedEntry { entry_id: 0, word_weight: 2.0f32.to_bits() }));
    assert_eq!(db.inverted_entry(2, 1), Some(InvertedEntry { entry_id: 1, word_weight: one() }));
    assert_eq!(db.inverted_entry(1, 0), None);
    assert_eq!(db.inverted_entry(7, 0), None);

    db.clear();
    assert!(db.is_empty());
    assert_eq!(db.inverted_row(2).unwrap().len(), 0);
    assert!(db.using_direct_index());
}

#[test]
fn database_without_direct_index() {
    let mut db = Database::new(Arc::new(flat_vocabulary()), false, 0);
    assert!(!db.using_direct_index());
    assert_eq!(db.insert(&bow(&[(1, one())]), Features::new()), 0);
    assert_eq!(db.insert(&bow(&[(1, one())]), Features::new()), 1);
    assert_eq!(db.len(), 2);
    assert!(db.features(0).is_none());
}

#[test]
fn inverted_entries_lookup() {
    // Long rows are searched by bisection
    let mut row = InvertedEntries::new();
    for id in 0..200usize {
        row.push(3 * id, id as u32);
    }
    assert_eq!(row.len(), 200);
    assert_eq!(row.get(300), Some(&InvertedEntry { entry_id: 300, word_weight: 100 }));
    assert_eq!(row.get(0), Some(&InvertedEntry { entry_id: 0, word_weight: 0 }));
    assert_eq!(row.get(597), Some(&InvertedEntry { entry_id: 597, word_weight: 199 }));
    assert_eq!(row.get(301), None);
    assert_eq!(row.get(1000), None);

    let mut short = InvertedEntries::new();
    short.push(2, 7);
    short.push(5, 8);
    assert_eq!(short.get(5), Some(&InvertedEntry { entry_id: 5, word_weight: 8 }));
    assert_eq!(short.get(3), None);
    short.clear();
    assert_eq!(short.len(), 0);
}

#[test]
fn database_write_layout() {
    let mut db = Database::new(Arc::new(flat_vocabulary()), true, 1);
    let mut fv = Features::new();
    fv.insert(0, 4);
    db.insert(&bow(&[(1, one())]), fv);
    let mut out = Vec::new();
    db.write_to(&mut out).unwrap();
    assert_eq!(&out[..8], &DB_SER_VERSION.to_le_bytes());
    assert_eq!(&out[8..12], &1u32.to_le_bytes()); // entries
    assert_eq!(&out[12..16], &1u32.to_le_bytes()); // levels
    assert_eq!(&out[16..20], &3u32.to_le_bytes()); // words
    assert_eq!(out[20], 1); // direct index
    assert_eq!(&out[21..33], &[0, 0, 0, 0, 1, 0, 0, 0, 0, 0, 0, 0]); // row lengths
    assert_eq!(&out[33..37], &0u32.to_le_bytes()); // entry id
    assert_eq!(&out[37..41], &1.0f32.to_le_bytes()); // weight
    // features of the entry: one node (0) with one index (4)
    assert_eq!(&out[41..57], &[1, 0, 0, 0, 0, 0, 0, 0, 1, 0, 0, 0, 4, 0, 0, 0]);
}

#[test]
fn database_read_errors() {
    let mut warnings = Vec::new();
    let mut pos = 0usize;
    assert_eq!(Database::read_from(&[0; 4], &mut pos, &mut warnings).err(), Some(FormatError::UnexpectedEof));

    let mut pos = 0usize;
    assert_eq!(
        Database::read_from(&[0; 30], &mut pos, &mut warnings).err(),
        Some(FormatError::DatabaseHeaderMismatch)
    );

    let mut bytes = DB_SER_VERSION.to_le_bytes().to_vec();
    bytes.extend_from_slice(&[0; 12]);
    bytes.push(2);
    let mut pos = 0usize;
    assert_eq!(Database::read_from(&bytes, &mut pos, &mut warnings).err(), Some(FormatError::InvalidFlag(2)));

    // The body is complete but the vocabulary is missing
    let mut bytes = DB_SER_VERSION.to_le_bytes().to_vec();
    bytes.extend_from_slice(&[0; 12]);
    bytes.push(0);
    let mut pos = 0usize;
    assert_eq!(Database::read_from(&bytes, &mut pos, &mut warnings).err(), Some(FormatError::UnexpectedEof));
}

#[test]
fn database_read_with_fbow_vocabulary() {
    // A database of one entry (word 1, weight 1.0) without direct index,
    // followed by an FBOW vocabulary of a single block of two leaves
    let mut bytes = DB_SER_VERSION.to_le_bytes().to_vec();
    bytes.extend_from_slice(&1u32.to_le_bytes());
    bytes.extend_from_slice(&0u32.to_le_bytes());
    bytes.extend_from_slice(&2u32.to_le_bytes());
    bytes.push(0);
    bytes.extend_from_slice(&0u32.to_le_bytes());
    bytes.extend_from_slice(&1u32.to_le_bytes());
    bytes.extend_from_slice(&0u32.to_le_bytes());
    bytes.extend_from_slice(&1.0f32.to_le_bytes());
    bytes.extend_from_slice(&vfbow::vocabulary::format::FBOW_MAGIC.to_le_bytes());
    let mut field = [0u8; 50];
    field[..2].copy_from_slice(b"db");
    bytes.extend_from_slice(&field);
    bytes.extend_from_slice(&[0, 0]);
    bytes.extend_from_slice(&8u32.to_le_bytes());
    bytes.extend_from_slice(&1u32.to_le_bytes());
    bytes.extend_from_slice(&[0, 0, 0, 0]);
    for v in [8u64, 40, 8, 24, 40] {
        bytes.extend_from_slice(&v.to_le_bytes());
    }
    bytes.extend_from_slice(&0u32.to_le_bytes());
    bytes.extend_from_slice(&1u32.to_le_bytes());
    bytes.extend_from_slice(&2u32.to_le_bytes());
    bytes.extend_from_slice(&[0, 0, 0, 0]);
    bytes.extend_from_slice(&2u16.to_le_bytes());
    bytes.extend_from_slice(&1u16.to_le_bytes());
    bytes.extend_from_slice(&0u32.to_le_bytes());
    bytes.extend_from_slice(&[0x00, 0, 0, 0, 0, 0, 0, 0, 0xFF, 0, 0, 0, 0, 0, 0, 0]);
    for id in [0x8000_0000u32, 0x8000_0001] {
        bytes.extend_from_slice(&id.to_le_bytes());
        bytes.extend_from_slice(&1.0f32.to_le_bytes());
    }

    let mut pos = 0usize;
    let mut warnings = Vec::new();
    let db = Database::read_from(&bytes, &mut pos, &mut warnings).unwrap();
    assert!(warnings.is_empty());
    assert_eq!(db.len(), 1);
    assert!(!db.using_direct_index());
    assert_eq!(db.num_rows(), 2);
    assert_eq!(db.inverted_entry(1, 0), Some(InvertedEntry { entry_id: 0, word_weight: 1.0f32.to_bits() }));
    assert_eq!(db.vocabulary().desc_name(), "db");
    assert_eq!(db.vocabulary().num_features(), 2);
}

#[test]
fn direct_index_levels_only_with_direct_index() {
    let db = Database::new(Arc::new(flat_vocabulary()), false, 3);
    assert_eq!(db.direct_index_levels(), None);
    assert_eq!(db.levels(), 3);
    let db = Database::new(Arc::new(flat_vocabulary()), true, 3);
    assert_eq!(db.direct_index_levels(), Some(3));
}

#[test]
fn database_roundtrip() {
    let mut db = Database::new(Arc::new(flat_vocabulary()), true, 1);
    let mut fv = Features::new();
    fv.insert(0, 4);
    fv.insert(0, 5);
    db.insert(&bow(&[(1, one()), (2, 2.0f32.to_bits())]), fv);
    db.insert(&bow(&[(2, one())]), Features::new());
    let mut out = Vec::new();
    db.write_to(&mut out).unwrap();
    let mut pos = 0usize;
    let mut warnings = Vec::new();
    let mut back = Database::read_from(&out, &mut pos, &mut warnings).unwrap();
    assert!(warnings.is_empty());
    assert_eq!(pos, out.len());
    assert_eq!(back.len(), 2);
    assert!(back.using_direct_index());
    assert_eq!(back.direct_index_levels(), Some(1));
    assert_eq!(back.features(0).unwrap().get(0).map(|v| v.as_slice()), Some(&[4u32, 5][..]));
    assert_eq!(back.inverted_entry(2, 1), Some(InvertedEntry { entry_id: 1, word_weight: one() }));
    assert_eq!(back.inverted_entry(2, 0), Some(InvertedEntry { entry_id: 0, word_weight: 2.0f32.to_bits() }));
    assert_eq!(back.vocabulary().desc_name(), "flat");
    assert_eq!(back.vocabulary().num_features(), 3);
    // A database read back takes new entries
    assert_eq!(back.insert(&bow(&[(0, one())]), Features::new()), 2);
    assert_eq!(back.inverted_entry(0, 2), Some(InvertedEntry { entry_id: 2, word_weight: one() }));
}

#[test]
fn matching_entries_stop_at_max_id() {
    let mut db = Database::new(Arc::new(flat_vocabulary()), false, 0);
    db.insert(&bow(&[(1, one())]), Features::new());
    db.insert(&bow(&[(1, 2.0f32.to_bits()), (2, one())]), Features::new());
    db.insert(&bow(&[(1, one())]), Features::new());
    let q = 3.0f32.to_bits();
    let query = bow(&[(1, q)]);
    assert_eq!(
        db.matching_entries(&query, None),
        vec![(q, 0, one()), (q, 1, 2.0f32.to_bits()), (q, 2, one())]
    );
    assert_eq!(db.matching_entries(&query, Some(2)), vec![(q, 0, one()), (q, 1, 2.0f32.to_bits())]);
    assert_eq!(db.matching_entries(&query, Some(0)), vec![]);
    // Words without a row match nothing
    assert_eq!(db.matching_entries(&bow(&[(7, q)]), None), vec![]);
}

#[test]
fn database_read_panics_is_decided() {
    let mut db = Database::new(Arc::new(flat_vocabulary()), false, 0);
    db.insert(&bow(&[(1, one())]), Features::new());
    let mut out = Vec::new();
    db.write_to(&mut out).unwrap();
    assert!(!database_read_panics(&out, 0));
    let n = out.len();
    out[n - 4] = 1;
    assert!(database_read_panics(&out, 0));
    assert!(!database_read_panics(&out[..10], 0));
}
