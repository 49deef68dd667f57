use vfbow::vocabulary::format::vocabulary_read_panics;
use vfbow::features::u8::FeaturesU8;
use vfbow::features::FeaturesGeneric;
use vfbow::vocabulary::Node;
use vfbow::VocabularyParams;
use vfbow::vocabulary::format::FBOW_MAGIC;
use vfbow::{
    DescriptorType, FormatError, Matrix, ParseValidationMode, ParseWarning, Vocabulary, VocabularyReadOptions,
};

const LEAF: u32 = 0x8000_0000;
const ONE: u32 = 0x3f80_0000;

/// An FBOW header for `u8` descriptors of one byte (padded to 8), with `k`
/// children per block of room
fn header(name: &[u8], nblocks: u32, k: u32) -> Vec<u8> {
    let feature_off: u64 = 8;
    let child_off: u64 = feature_off + 8 * k as u64;
    let block_size: u64 = child_off + 8 * k as u64;
    let mut h = Vec::new();
    h.extend_from_slice(&FBOW_MAGIC.to_le_bytes());
    let mut field = [0u8; 50];
    field[..name.len()].copy_from_slice(name);
    h.extend_from_slice(&field);
    h.extend_from_slice(&[0, 0]);
    h.extend_from_slice(&8u32.to_le_bytes()); // alignment
    h.extend_from_slice(&nblocks.to_le_bytes());
    h.extend_from_slice(&[0, 0, 0, 0]);
    h.extend_from_slice(&8u64.to_le_bytes()); // padded descriptor size
    h.extend_from_slice(&block_size.to_le_bytes());
    h.extend_from_slice(&feature_off.to_le_bytes());
    h.extend_from_slice(&child_off.to_le_bytes());
    h.extend_from_slice(&(block_size * nblocks as u64).to_le_bytes());
    h.extend_from_slice(&0u32.to_le_bytes()); // u8 descriptors
    h.extend_from_slice(&1u32.to_le_bytes()); // descriptor size
    h.extend_from_slice(&k.to_le_bytes());
    h.extend_from_slice(&[0, 0, 0, 0]);
    h
}

/// A block of `k` children of room holding `children` (id or leaf marker,
/// weight bits, one-byte feature); `n` is the declared child count
fn block(k: u32, n: u16, leaf: u16, parent: u32, children: &[(u32, u32, u8)]) -> Vec<u8> {
    let mut b = Vec::new();
    b.extend_from_slice(&n.to_le_bytes());
    b.extend_from_slice(&leaf.to_le_bytes());
    b.extend_from_slice(&parent.to_le_bytes());
    for i in 0..k as usize {
        let mut f = [0u8; 8];
        if let Some(c) = children.get(i) {
            f[0] = c.2;
        }
        b.extend_from_slice(&f);
    }
    for i in 0..k as usize {
        let (id, w) = children.get(i).map(|c| (c.0, c.1)).unwrap_or((0, 0));
        b.extend_from_slice(&id.to_le_bytes());
        b.extend_from_slice(&w.to_le_bytes());
    }
    b
}

fn read(bytes: &[u8], mode: ParseValidationMode) -> (Result<Vocabulary, FormatError>, Vec<ParseWarning>) {
    let mut pos = 0usize;
    let mut warnings = Vec::new();
    let r = Vocabulary::read_from(bytes, &mut pos, VocabularyReadOptions::all(mode), &mut warnings);
    (r, warnings)
}

fn words(v: &Vocabulary, values: &[u8]) -> Vec<(u32, u32)> {
    let m = Matrix { ncols: 1, rows: values.iter().map(|x| vec![*x]).collect() };
    let (counts, _) = v.transform(&m, None).unwrap();
    let mut items = counts.items();
    items.sort();
    items
}

#[test]
fn fbow_single_block() {
    let mut file = header(b"tiny", 1, 2);
    file.extend(block(2, 2, 1, 0, &[(LEAF, ONE, 0x00), (LEAF | 1, ONE, 0xFF)]));
    let (r, warnings) = read(&file, ParseValidationMode::Strict);
    let v = r.unwrap();
    assert!(warnings.is_empty());
    assert_eq!(v.desc_name(), "tiny");
    assert_eq!(v.desc_type(), DescriptorType::Uint8);
    assert_eq!(v.desc_size(), 1);
    assert_eq!(v.k(), 2);
    assert_eq!(v.size(), 1);
    assert_eq!(v.num_features(), 2);
    assert_eq!(v.root.base, 0);
    assert_eq!(v.root.n, 2);
    assert_eq!(v.root.num_children(), 0);
    assert_eq!(words(&v, &[0x01, 0xFE, 0xF8]), vec![(0, 1), (1, 2)]);
    // A tie goes to the first child
    assert_eq!(words(&v, &[0xF0]), vec![(0, 1)]);
}

#[test]
fn fbow_two_blocks() {
    let mut file = header(b"two", 2, 2);
    file.extend(block(2, 2, 0, 0, &[(1, ONE, 0x00), (LEAF, ONE, 0xFF)]));
    file.extend(block(2, 2, 1, 0, &[(LEAF, ONE, 0x01), (LEAF | 1, ONE, 0x03)]));
    let (r, warnings) = read(&file, ParseValidationMode::Strict);
    let v = r.unwrap();
    assert!(warnings.is_empty());
    assert_eq!(v.num_features(), 4);
    assert_eq!(v.size(), 2);
    assert_eq!(v.root.num_children(), 1);
    let child = &v.root.children.as_ref().unwrap()[0];
    assert_eq!((child.base, child.n), (2, 2));
    assert!(v.tree_in_bounds());
    assert_eq!(words(&v, &[0x02, 0xFE]), vec![(1, 1), (3, 1)]);
}

#[test]
fn fbow_weight_warning() {
    let half = 0x3f00_0000;
    let mut file = header(b"w", 1, 2);
    file.extend(block(2, 2, 1, 0, &[(LEAF, half, 0x00), (LEAF | 1, ONE, 0xFF)]));
    let (r, warnings) = read(&file, ParseValidationMode::Warn);
    assert!(r.is_ok());
    assert_eq!(warnings, vec![ParseWarning::InvalidWeight { block: 0, bits: half }]);

    let (r, warnings) = read(&file, ParseValidationMode::Strict);
    assert_eq!(r.err(), Some(FormatError::Rejected(ParseWarning::InvalidWeight { block: 0, bits: half })));
    assert!(warnings.is_empty());

    let (r, warnings) = read(&file, ParseValidationMode::Ignore);
    assert!(r.is_ok());
    assert!(warnings.is_empty());
}

#[test]
fn fbow_too_many_children() {
    let mut file = header(b"k", 1, 2);
    file.extend(block(2, 3, 1, 0, &[(LEAF, ONE, 0x00), (LEAF | 1, ONE, 0xFF)]));
    let (r, warnings) = read(&file, ParseValidationMode::Warn);
    let v = r.unwrap();
    assert_eq!(warnings, vec![ParseWarning::TooManyChildren { block: 0, n: 3, k: 2 }]);
    assert_eq!(v.root.n, 2);
}

#[test]
fn fbow_child_out_of_bounds() {
    let mut file = header(b"o", 1, 2);
    file.extend(block(2, 2, 0, 0, &[(5, ONE, 0x00), (LEAF | 1, ONE, 0xFF)]));
    let (r, warnings) = read(&file, ParseValidationMode::Warn);
    let v = r.unwrap();
    assert_eq!(warnings, vec![ParseWarning::ChildOutOfBounds { block: 0, child: 5, nblocks: 1 }]);
    assert_eq!(v.root.num_children(), 0);
    assert_eq!(v.root.n, 2);

    let (r, _) = read(&file, ParseValidationMode::Strict);
    assert_eq!(
        r.err(),
        Some(FormatError::Rejected(ParseWarning::ChildOutOfBounds { block: 0, child: 5, nblocks: 1 }))
    );
}

#[test]
fn fbow_name_not_terminated() {
    let name = [b'a'; 50];
    let mut file = header(&name, 1, 2);
    file.extend(block(2, 2, 1, 0, &[(LEAF, ONE, 0x00), (LEAF | 1, ONE, 0xFF)]));
    let (r, warnings) = read(&file, ParseValidationMode::Warn);
    let v = r.unwrap();
    assert_eq!(warnings, vec![ParseWarning::NameNotTerminated]);
    assert_eq!(v.desc_name(), &"a".repeat(49));

    let (r, _) = read(&file, ParseValidationMode::Strict);
    assert_eq!(r.err(), Some(FormatError::Rejected(ParseWarning::NameNotTerminated)));
}

#[test]
fn fbow_invalid_leaf_flag() {
    let mut file = header(b"f", 1, 2);
    file.extend(block(2, 2, 7, 0, &[(LEAF, ONE, 0x00), (LEAF | 1, ONE, 0xFF)]));
    let (r, warnings) = read(&file, ParseValidationMode::Warn);
    assert!(r.is_ok());
    assert_eq!(warnings, vec![ParseWarning::InvalidLeafFlag { value: 7 }]);
}

#[test]
fn fbow_header_errors() {
    let (r, _) = read(&[1, 2, 3], ParseValidationMode::Warn);
    assert_eq!(r.err(), Some(FormatError::UnexpectedEof));

    let (r, _) = read(&0x1234u64.to_le_bytes(), ParseValidationMode::Warn);
    assert_eq!(r.err(), Some(FormatError::InvalidSignature(0x1234)));

    let mut file = header(b"t", 1, 2);
    file[8 + 96..8 + 104].copy_from_slice(&1u64.to_le_bytes()); // total size
    let (r, _) = read(&file, ParseValidationMode::Warn);
    assert_eq!(r.err(), Some(FormatError::InconsistentTotalSize));

    let mut file = header(b"t", 1, 2);
    file[8 + 104..8 + 108].copy_from_slice(&2u32.to_le_bytes()); // type code
    let (r, _) = read(&file, ParseValidationMode::Warn);
    assert_eq!(r.err(), Some(FormatError::InvalidDescriptorType(2)));

    let mut file = header(b"t", 1, 2);
    file[8 + 52..8 + 56].copy_from_slice(&3u32.to_le_bytes()); // alignment
    let (r, _) = read(&file, ParseValidationMode::Warn);
    assert_eq!(r.err(), Some(FormatError::MisalignedDescriptor));

    // The header is complete but the block is missing
    let file = header(b"t", 1, 2);
    let (r, _) = read(&file, ParseValidationMode::Warn);
    assert_eq!(r.err(), Some(FormatError::UnexpectedEof));
}

#[test]
fn fbow_nonzero_padding() {
    let mut good = header(b"pad", 1, 2);
    good.extend(block(2, 2, 1, 0, &[(LEAF, ONE, 0x00), (LEAF | 1, ONE, 0xFF)]));
    for (at, offset) in [(50usize, 50u32), (61, 60), (119, 116)] {
        let mut file = good.clone();
        file[8 + at] = 7;
        let (r, warnings) = read(&file, ParseValidationMode::Strict);
        assert_eq!(r.err(), Some(FormatError::Rejected(ParseWarning::NonzeroPadding { offset })));
        assert!(warnings.is_empty());
        let (r, warnings) = read(&file, ParseValidationMode::Warn);
        assert_eq!(r.unwrap().num_features(), 2);
        assert_eq!(warnings, vec![ParseWarning::NonzeroPadding { offset }]);
        let (r, warnings) = read(&file, ParseValidationMode::Ignore);
        let v = r.unwrap();
        assert!(warnings.is_empty());
        assert_eq!(v.desc_name(), "pad");
        assert_eq!((v.k(), v.size(), v.desc_size()), (2, 1, 1));
    }
}

#[test]
fn vfbow_roundtrip() {
    let mut features = FeaturesU8::new(3, 1);
    features.insert(&[vec![0x00], vec![0x0F], vec![0xFF]]);
    let mut params = VocabularyParams::empty();
    params.set(8, 3, DescriptorType::Uint8, 1, 1, "flat");
    let v = Vocabulary { params, root: Node { base: 0, n: 3, children: None }, features: FeaturesGeneric::Uint8(features) };
    let mut out = Vec::new();
    v.write_to(&mut out).unwrap();
    let (r, warnings) = read(&out, ParseValidationMode::Strict);
    let back = r.unwrap();
    assert!(warnings.is_empty());
    assert_eq!(back.desc_name(), "flat");
    assert_eq!((back.k(), back.size(), back.desc_size(), back.num_features()), (3, 1, 1, 3));
    assert_eq!(back.desc_type(), DescriptorType::Uint8);
    assert_eq!((back.root.base, back.root.n), (0, 3));
    assert!(back.root.children.is_none());
    assert_eq!(words(&back, &[0x01, 0x0E, 0xFE, 0xF0]), words(&v, &[0x01, 0x0E, 0xFE, 0xF0]));
    // A record cut short
    let (r, _) = read(&out[..out.len() - 1], ParseValidationMode::Strict);
    assert_eq!(r.err(), Some(FormatError::UnexpectedEof));
}

#[test]
fn fbow_child_equal_to_block_count_is_a_leaf() {
    // Block 0 of one names block 1: there is no such block
    let mut file = header(b"e", 1, 2);
    file.extend(block(2, 2, 0, 0, &[(1, ONE, 0x00), (LEAF | 1, ONE, 0xFF)]));
    let (r, warnings) = read(&file, ParseValidationMode::Ignore);
    let v = r.unwrap();
    assert!(warnings.is_empty());
    assert_eq!(v.num_features(), 2);
    assert_eq!(v.root.num_children(), 0);
    assert_eq!(words(&v, &[0x00]), vec![(0, 1)]);
    let (r, warnings) = read(&file, ParseValidationMode::Warn);
    assert!(r.is_ok());
    assert_eq!(warnings, vec![ParseWarning::ChildOutOfBounds { block: 0, child: 1, nblocks: 1 }]);
    let (r, _) = read(&file, ParseValidationMode::Strict);
    assert_eq!(
        r.err(),
        Some(FormatError::Rejected(ParseWarning::ChildOutOfBounds { block: 0, child: 1, nblocks: 1 }))
    );
}

#[test]
fn fbow_self_reference_is_a_cycle() {
    // Block 0 names itself, and the second block is named by nobody
    let mut file = header(b"c", 2, 2);
    file.extend(block(2, 2, 0, 0, &[(0, ONE, 0x00), (LEAF | 1, ONE, 0xFF)]));
    file.extend(block(2, 2, 1, 0, &[(LEAF, ONE, 0x01), (LEAF | 1, ONE, 0x03)]));
    let (r, _) = read(&file, ParseValidationMode::Strict);
    assert_eq!(r.err(), Some(FormatError::Rejected(ParseWarning::BlockCycle { block: 0, child: 0 })));
    // Taken as a leaf, the reference leaves block 1 unreached
    let (r, warnings) = read(&file, ParseValidationMode::Warn);
    assert_eq!(r.err(), Some(FormatError::MissingBlock(1)));
    assert_eq!(warnings, vec![ParseWarning::BlockCycle { block: 0, child: 0 }]);
}

#[test]
fn fbow_unreached_block_is_missing() {
    let mut file = header(b"m", 2, 2);
    file.extend(block(2, 2, 1, 0, &[(LEAF, ONE, 0x00), (LEAF | 1, ONE, 0xFF)]));
    file.extend(block(2, 2, 1, 0, &[(LEAF, ONE, 0x01), (LEAF | 1, ONE, 0x03)]));
    let (r, _) = read(&file, ParseValidationMode::Ignore);
    assert_eq!(r.err(), Some(FormatError::MissingBlock(1)));
}

#[test]
fn fbow_block_layout_errors() {
    // The header allows three children, but the blocks have room for two
    let mut file = header(b"l", 1, 2);
    file[8 + 112..8 + 116].copy_from_slice(&3u32.to_le_bytes());
    file.extend(block(2, 3, 1, 0, &[(LEAF, ONE, 0x00), (LEAF | 1, ONE, 0xFF)]));
    let (r, _) = read(&file, ParseValidationMode::Strict);
    assert_eq!(r.err(), Some(FormatError::InvalidBlockLayout));

    // The block count times the block size overflows 64 bits
    let mut file = header(b"o", 2, 2);
    file[8 + 72..8 + 80].copy_from_slice(&u64::MAX.to_le_bytes());
    let (r, _) = read(&file, ParseValidationMode::Strict);
    assert_eq!(r.err(), Some(FormatError::InconsistentTotalSize));

    // Descriptors of no bytes
    let mut file = header(b"z", 1, 2);
    file[8 + 108..8 + 112].copy_from_slice(&0u32.to_le_bytes());
    file.extend(block(2, 2, 1, 0, &[(LEAF, ONE, 0x00), (LEAF | 1, ONE, 0xFF)]));
    let (r, _) = read(&file, ParseValidationMode::Strict);
    assert_eq!(r.err(), Some(FormatError::EmptyDescriptor));
}

#[test]
fn fbow_repeated_reference() {
    let mut file = header(b"r", 2, 2);
    file.extend(block(2, 2, 0, 0, &[(1, ONE, 0x00), (1, ONE, 0xFF)]));
    file.extend(block(2, 2, 1, 0, &[(LEAF, ONE, 0x01), (LEAF | 1, ONE, 0x03)]));
    let (r, _) = read(&file, ParseValidationMode::Ignore);
    assert_eq!(r.err(), Some(FormatError::RepeatedReference(0)));
}

#[test]
fn read_panics_is_decided() {

    let options = VocabularyReadOptions::all(ParseValidationMode::Strict);
    let mut file = header(b"tiny", 1, 2);
    file.extend(block(2, 2, 1, 0, &[(LEAF, ONE, 0x00), (LEAF | 1, ONE, 0xFF)]));
    assert!(!vocabulary_read_panics(&file, 0, options));
    assert!(!vocabulary_read_panics(&file[..20], 0, options));

    let mut features = FeaturesU8::new(1, 1);
    features.insert(&[vec![0x00]]);
    let mut params = VocabularyParams::empty();
    params.set(8, 3, DescriptorType::Uint8, 1, 1, "v");
    let v = Vocabulary { params, root: Node { base: 0, n: 1, children: None }, features: FeaturesGeneric::Uint8(features) };
    let mut out = Vec::new();
    v.write_to(&mut out).unwrap();
    assert!(!vocabulary_read_panics(&out, 0, options));
    // A root with branches cannot be read
    let n = out.len();
    out[n - 4] = 1;
    assert!(vocabulary_read_panics(&out, 0, options));
}
