use vfbow::creator::kmeans::vhash;
use vfbow::{Bow, Deserialize, Features, FormatError, Serialize, WordCounts};

#[test]
fn word_counts_update() {
    let mut c = WordCounts::with_capacity(4);
    assert_eq!(c.len(), 0);
    c.update(3);
    c.update(7);
    c.update(3);
    assert_eq!(c.len(), 2);
    assert_eq!(c.get(3), 2);
    assert_eq!(c.get(7), 1);
    assert_eq!(c.get(1), 0);
    let mut items = c.items();
    items.sort();
    assert_eq!(items, vec![(3, 2), (7, 1)]);
}

#[test]
fn features_insert_and_clear() {
    let mut f = Features::new();
    f.insert(4, 0);
    f.insert(4, 2);
    f.insert(9, 1);
    assert_eq!(f.len(), 2);
    assert_eq!(f.get(4), Some(&vec![0, 2]));
    assert_eq!(f.get(9), Some(&vec![1]));
    assert_eq!(f.get(5), None);
    let mut entries = f.entries();
    entries.sort();
    assert_eq!(entries, vec![(4, vec![0, 2]), (9, vec![1])]);
    f.clear();
    assert_eq!(f.len(), 0);
}

#[test]
fn features_roundtrip() {
    let mut f = Features::with_capacity(2);
    f.insert(1, 10);
    f.insert(1, 11);
    f.insert(2, 12);
    let mut buf = vec![0xee];
    f.write_to(&mut buf).unwrap();
    assert_eq!(buf.len(), 1 + 4 + (4 + 4 + 8) + (4 + 4 + 4));

    let mut pos = 1usize;
    let mut dups = Vec::new();
    let g = Features::read_with_duplicates(&buf, &mut pos, &mut dups).unwrap();
    assert_eq!(pos, buf.len());
    assert!(dups.is_empty());
    assert_eq!(g.len(), 2);
    assert_eq!(g.get(1), Some(&vec![10, 11]));
    assert_eq!(g.get(2), Some(&vec![12]));
}

#[test]
fn features_read_duplicates_keep_last() {
    let mut buf = Vec::new();
    buf.extend_from_slice(&2u32.to_le_bytes());
    for value in [5u32, 6] {
        buf.extend_from_slice(&8u32.to_le_bytes());
        buf.extend_from_slice(&1u32.to_le_bytes());
        buf.extend_from_slice(&value.to_le_bytes());
    }
    let mut pos = 0usize;
    let mut dups = Vec::new();
    let g = Features::read_with_duplicates(&buf, &mut pos, &mut dups).unwrap();
    assert_eq!(dups, vec![8]);
    assert_eq!(g.len(), 1);
    assert_eq!(g.get(8), Some(&vec![6]));

    let mut pos = 0usize;
    let mut dups = Vec::new();
    assert_eq!(Features::read_with_duplicates(&buf[..10], &mut pos, &mut dups).err(), Some(FormatError::UnexpectedEof));
}

#[test]
fn features_hash_single_entry() {
    let mut f = Features::new();
    f.insert(5, 7);
    assert_eq!(f.hash(), 175247769105);
    assert_eq!(Features::new().hash(), 0);
}

#[test]
fn vhash_values() {
    assert_eq!(vhash(&[]), 0);
    assert_eq!(vhash(&[vec![0]]), 2654435832);
    assert_eq!(vhash(&[vec![1], vec![2, 3]]), 11093831645433);
}

#[test]
fn features_keys_and_common_nodes() {
    let mut a = Features::new();
    a.insert(1, 0);
    a.insert(2, 1);
    a.insert(3, 2);
    let mut b = Features::new();
    b.insert(3, 5);
    b.insert(1, 6);
    b.insert(9, 7);
    let mut keys = a.keys();
    keys.sort();
    assert_eq!(keys, vec![1, 2, 3]);
    let mut common = a.common_nodes(&b);
    common.sort();
    assert_eq!(common, vec![1, 3]);
    let mut common = b.common_nodes(&a);
    common.sort();
    assert_eq!(common, vec![1, 3]);
    assert!(a.common_nodes(&Features::new()).is_empty());
}

#[test]
fn features_trait_roundtrip() {
    let mut f = Features::new();
    f.insert(2, 3);
    let mut buf = Vec::new();
    Serialize::write_to(&f, &mut buf).unwrap();
    let mut pos = 0usize;
    let g: Features = Deserialize::read_from(&buf, &mut pos).unwrap();
    assert_eq!(pos, buf.len());
    assert_eq!(g.get(2), Some(&vec![3]));
}

#[test]
fn bow_set_get_remove() {
    let mut b = Bow::with_capacity(2);
    b.set(4, 1.5f32.to_bits());
    b.set(9, 2.0f32.to_bits());
    b.set(4, 3.0f32.to_bits());
    assert_eq!(b.len(), 2);
    assert_eq!(b.get(4).map(f32::from_bits), Some(3.0));
    assert_eq!(b.remove(9).map(f32::from_bits), Some(2.0));
    assert_eq!(b.remove(9), None);
    assert_eq!(b.get(9), None);
    b.clear();
    assert_eq!(b.len(), 0);
}

#[test]
fn bow_roundtrip_and_duplicates() {
    let mut b = Bow::with_capacity(2);
    b.set(7, 0.25f32.to_bits());
    b.set(1, 4.0f32.to_bits());
    let mut buf = vec![0xAB];
    b.write_to(&mut buf).unwrap();
    assert_eq!(buf.len(), 1 + 4 + 2 * 8);
    let mut pos = 1usize;
    let c = Bow::read_from(&buf, &mut pos).unwrap();
    assert_eq!(pos, buf.len());
    let mut items = c.items();
    items.sort();
    assert_eq!(items, vec![(1, 4.0f32.to_bits()), (7, 0.25f32.to_bits())]);

    let mut dup = Vec::new();
    dup.extend_from_slice(&2u32.to_le_bytes());
    for _ in 0..2 {
        dup.extend_from_slice(&5u32.to_le_bytes());
        dup.extend_from_slice(&1.0f32.to_le_bytes());
    }
    let mut pos = 0usize;
    assert_eq!(Bow::read_from(&dup, &mut pos).err(), Some(FormatError::DuplicateKey(5)));
}
