//! Reading vocabularies in the FBOW format
//!
//! An FBOW file is a 120-byte header followed by `nblocks` blocks of
//! `block_size_bytes_wp` bytes. Each block holds up to `k` children: a leaf
//! flag and a child count, the children's features (each padded to
//! `desc_size_bytes_wp` bytes) and, for each child, a block id or leaf
//! marker and a weight. Block 0 is the root; every other block is the branch
//! child of exactly one earlier block.
use vstd::prelude::*;
use vstd::bytes::*;
use vstd::utf8::*;
use arrayvec::ArrayString;
use crate::dtype::{DescriptorType, spec_from_type_code};
use crate::serde::{FormatError, spec_window, u32_at, read_bytes, read_u16, read_u32, read_u64};
use crate::text::{chars50, first_nul, lemma_first_nul, find_nul, str_from_utf8, name50_new, name50_from, name50_from_byte_string, name50_as_str, utf8_len};
use crate::features::u8::FeaturesU8;
use crate::features::f32::FeaturesF32;
use crate::features::FeaturesGeneric;
use super::{Node, Vocabulary};
use super::params::{VocabularyParams, ParamsView, truncated_name, spec_read_params, spec_read_params_panics};
use crate::features::{spec_read_features, spec_read_features_panics};
use super::options::{ParseValidationMode, ReadFbowOptions, ParseWarning, spec_emit, lemma_emit_push, lemma_emit_append, report};

verus! {

broadcast use vstd::utf8::encode_utf8_valid_utf8, vstd::utf8::encode_utf8_decode_utf8,
    vstd::utf8::decode_utf8_encode_utf8;

/// Number of bytes of the FBOW header (after the signature)
pub const FBOW_HEADER_LEN: usize = 120;

/// Number of bytes of a block header: child count, leaf flag, parent id
pub const BLOCK_HEADER_LEN: usize = 8;

/// Number of bytes of a child's information: block id or leaf marker, weight
pub const CHILD_INFO_LEN: usize = 8;

/// Bit pattern of the `f32` weight 1.0
pub const WEIGHT_ONE_BITS: u32 = 0x3f80_0000;

/// The little-endian `u16` at byte `at` of `src`
pub open spec fn u16_at(src: Seq<u8>, at: int) -> u16 {
    spec_u16_from_le_bytes(spec_window(src, at, 2))
}

/// The little-endian `u64` at byte `at` of `src`
pub open spec fn u64_at(src: Seq<u8>, at: int) -> u64 {
    spec_u64_from_le_bytes(spec_window(src, at, 8))
}

/// Every byte is zero
pub open spec fn all_zero(b: Seq<u8>) -> bool {
    forall|i: int| 0 <= i < b.len() ==> b[i] == 0
}

/// What a sequence of irregularities gives to a step whose value is `ok`:
/// the warnings reported, and the value or the rejection of the first
/// strict irregularity
pub open spec fn spec_outcome<T>(events: Seq<(ParseWarning, ParseValidationMode)>, ok: T) -> (Seq<ParseWarning>, Result<T, FormatError>) {
    let e = spec_emit(events);
    (e.0, match e.1 {
        Some(w) => Err(FormatError::Rejected(w)),
        None => Ok(ok),
    })
}

/// Reading the 50-byte name field `b`: the characters before the first NUL;
/// without a NUL, all 50 bytes; a name that is not UTF-8 is read as empty.
/// The irregularities are checked under `mode`.
pub open spec fn spec_desc_name(b: Seq<u8>, mode: ParseValidationMode) -> (Seq<ParseWarning>, Result<Seq<char>, FormatError>) {
    let k = first_nul(b);
    if k < b.len() {
        if valid_utf8(b.take(k)) {
            (Seq::empty(), Ok(decode_utf8(b.take(k))))
        } else {
            spec_outcome(seq![(ParseWarning::InvalidName, mode)], Seq::<char>::empty())
        }
    } else if valid_utf8(b) {
        spec_outcome(seq![(ParseWarning::NameNotTerminated, mode)], decode_utf8(b))
    } else {
        spec_outcome(seq![(ParseWarning::NameNotTerminated, mode), (ParseWarning::InvalidName, mode)], Seq::<char>::empty())
    }
}

/// Read a descriptor name from its 50-byte field
fn parse_desc_name(desc_bytes: &[u8; 50], options: &ReadFbowOptions, warnings: &mut Vec<ParseWarning>) -> (r: Result<ArrayString<50>, FormatError>)
    ensures
        final(warnings)@ == old(warnings)@ + spec_desc_name(desc_bytes@, options.invalid_name).0,
        match spec_desc_name(desc_bytes@, options.invalid_name).1 {
            Ok(name) => r is Ok && chars50(r->Ok_0) == name,
            Err(e) => r == Err::<ArrayString<50>, FormatError>(e),
        },
{
    let mode = options.invalid_name;
    let bytes: &[u8] = desc_bytes.as_slice();
    let k = find_nul(bytes);
    let ghost b = desc_bytes@;
    proof {
        lemma_first_nul(b);
        reveal_with_fuel(spec_emit, 3);
    }
    if k < bytes.len() {
        let prefix = vstd::slice::slice_subrange(bytes, 0, k);
        assert(prefix@ =~= b.take(k as int));
        match str_from_utf8(prefix) {
            Some(s) => {
                proof {
                    assert(encode_utf8(s@) == b.take(k as int));
                    assert(utf8_len(s@) <= 50);
                }
                match name50_from(s) {
                    Some(name) => {
                        assert(warnings@ =~= old(warnings)@ + Seq::<ParseWarning>::empty());
                        Ok(name)
                    },
                    None => vstd::pervasive::unreached(),
                }
            },
            None => {
                report(ParseWarning::InvalidName, mode, warnings)?;
                Ok(name50_new())
            },
        }
    } else {
        report(ParseWarning::NameNotTerminated, mode, warnings)?;
        match name50_from_byte_string(desc_bytes) {
            Some(name) => Ok(name),
            None => {
                report(ParseWarning::InvalidName, mode, warnings)?;
                Ok(name50_new())
            },
        }
    }
}

/// Reading the `n` padding bytes at `at`, byte `offset` of the header: they
/// should be zero; a padding that is not is an irregularity checked under `mode`
pub open spec fn spec_padding(src: Seq<u8>, at: int, n: int, offset: u32, mode: ParseValidationMode) -> (Seq<ParseWarning>, Result<(), FormatError>) {
    if at + n > src.len() {
        (Seq::empty(), Err(FormatError::UnexpectedEof))
    } else if all_zero(spec_window(src, at, n)) {
        (Seq::empty(), Ok(()))
    } else {
        spec_outcome(seq![(ParseWarning::NonzeroPadding { offset }, mode)], ())
    }
}

/// Read the `n` padding bytes at `*pos`, at byte `offset` of the header,
/// reporting a padding that is not zero as `mode` says
fn read_padding(src: &[u8], pos: &mut usize, offset: u32, n: usize, mode: ParseValidationMode, warnings: &mut Vec<ParseWarning>) -> (r: Result<(), FormatError>)
    ensures
        final(warnings)@ == old(warnings)@ + spec_padding(src@, *old(pos) as int, n as int, offset, mode).0,
        match spec_padding(src@, *old(pos) as int, n as int, offset, mode).1 {
            Ok(_) => r is Ok && *final(pos) == *old(pos) + n,
            Err(e) => r == Err::<(), FormatError>(e),
        },
{
    let ghost start = *pos as int;
    let bytes = match read_bytes(src, pos, n) {
        Ok(b) => b,
        Err(e) => {
            assert(warnings@ =~= old(warnings)@ + Seq::<ParseWarning>::empty());
            return Err(e);
        },
    };
    let mut i: usize = 0;
    let mut zero = true;
    while i < bytes.len()
        invariant
            i <= bytes@.len(),
            zero == all_zero(bytes@.take(i as int)),
        decreases bytes@.len() - i,
    {
        assert(bytes@.take(i + 1)[i as int] == bytes@[i as int]);
        if bytes[i] != 0 {
            assert(!all_zero(bytes@.take(i + 1)));
            zero = false;
        } else if zero {
            assert(all_zero(bytes@.take(i + 1)));
        } else {
            assert(!all_zero(bytes@.take(i as int)));
            let ghost j = choose|j: int| 0 <= j < i && bytes@.take(i as int)[j] != 0;
            assert(bytes@.take(i + 1)[j] != 0);
        }
        i = i + 1;
    }
    assert(bytes@.take(i as int) =~= bytes@);
    if !zero {
        proof {
            reveal_with_fuel(spec_emit, 2);
        }
        let r = report(ParseWarning::NonzeroPadding { offset }, mode, warnings);
        assert(mode == ParseValidationMode::Warn ==> warnings@ =~= old(warnings)@ + seq![ParseWarning::NonzeroPadding { offset }]);
        assert(mode != ParseValidationMode::Warn ==> warnings@ =~= old(warnings)@ + Seq::<ParseWarning>::empty());
        r?;
    } else {
        assert(warnings@ =~= old(warnings)@ + Seq::<ParseWarning>::empty());
    }
    Ok(())
}

/// The FBOW header
pub struct FbowParams {
    /// Descriptor name. May be empty; up to 50 bytes when the field has no NUL
    pub desc_name: ArrayString<50>,
    /// Memory alignment of each feature
    pub alignment: u32,
    /// Total number of blocks
    pub nblocks: u32,
    /// Size of a descriptor, padding included
    pub desc_size_bytes_wp: u64,
    /// Size of a block, padding included
    pub block_size_bytes_wp: u64,
    /// Where the features start within a block
    pub feature_off_start: u64,
    /// Where the children's information starts within a block
    pub child_off_start: u64,
    /// Size of all the blocks
    pub total_size: u64,
    /// Descriptor type
    pub desc_type: DescriptorType,
    /// Descriptor size in bytes, padding excluded
    pub desc_size: u32,
    /// Number of children per block
    pub m_k: u32,
}

/// Mathematical model of [`FbowParams`]
pub struct FbowParamsView {
    pub name: Seq<char>,
    pub alignment: u32,
    pub nblocks: u32,
    pub desc_size_bytes_wp: u64,
    pub block_size_bytes_wp: u64,
    pub feature_off_start: u64,
    pub child_off_start: u64,
    pub total_size: u64,
    pub desc_type: DescriptorType,
    pub desc_size: u32,
    pub m_k: u32,
}

impl View for FbowParams {
    type V = FbowParamsView;

    open spec fn view(&self) -> FbowParamsView {
        FbowParamsView {
            name: chars50(self.desc_name),
            alignment: self.alignment,
            nblocks: self.nblocks,
            desc_size_bytes_wp: self.desc_size_bytes_wp,
            block_size_bytes_wp: self.block_size_bytes_wp,
            feature_off_start: self.feature_off_start,
            child_off_start: self.child_off_start,
            total_size: self.total_size,
            desc_type: self.desc_type,
            desc_size: self.desc_size,
            m_k: self.m_k,
        }
    }
}

/// The header fields as they stand at `pos`
pub open spec fn spec_header_fields(src: Seq<u8>, pos: int, name: Seq<char>, dt: DescriptorType) -> FbowParamsView {
    FbowParamsView {
        name: name,
        alignment: u32_at(src, pos + 52),
        nblocks: u32_at(src, pos + 56),
        desc_size_bytes_wp: u64_at(src, pos + 64),
        block_size_bytes_wp: u64_at(src, pos + 72),
        feature_off_start: u64_at(src, pos + 80),
        child_off_start: u64_at(src, pos + 88),
        total_size: u64_at(src, pos + 96),
        desc_type: dt,
        desc_size: u32_at(src, pos + 108),
        m_k: u32_at(src, pos + 112),
    }
}

/// The first consistency check that the header fails, if any
pub open spec fn spec_header_fault(h: FbowParamsView) -> Option<FormatError> {
    if h.nblocks * h.block_size_bytes_wp != h.total_size {
        Some(FormatError::InconsistentTotalSize)
    } else if !(if h.alignment == 0 { h.desc_size_bytes_wp == 0 } else { h.desc_size_bytes_wp % (h.alignment as u64) == 0 }) {
        Some(FormatError::MisalignedDescriptor)
    } else if h.desc_size_bytes_wp < BLOCK_HEADER_LEN {
        Some(FormatError::DescriptorTooSmall)
    } else if !(BLOCK_HEADER_LEN <= h.feature_off_start && h.feature_off_start < h.block_size_bytes_wp) {
        Some(FormatError::InvalidFeatureOffset)
    } else if !(h.feature_off_start <= h.child_off_start && h.child_off_start < h.block_size_bytes_wp) {
        Some(FormatError::InvalidChildOffset)
    } else {
        None
    }
}

/// Reading the FBOW header at `pos`: the warnings reported, and the header
/// or the error. The header is 50 bytes of name, 2 of padding, the alignment
/// and block count (`u32`), 4 bytes of padding, the padded descriptor size,
/// block size, feature offset, child offset and total size (`u64`), the
/// descriptor type, size and `k` (`u32`), and 4 bytes of padding. Paddings
/// that are not zero are checked under the option for them.
pub open spec fn spec_header(src: Seq<u8>, pos: int, options: ReadFbowOptions) -> (Seq<ParseWarning>, Result<FbowParamsView, FormatError>) {
    if pos + 50 > src.len() {
        (Seq::empty(), Err(FormatError::UnexpectedEof))
    } else {
        let name = spec_desc_name(src.subrange(pos, pos + 50), options.invalid_name);
        match name.1 {
            Err(e) => (name.0, Err(e)),
            Ok(chars) => {
                let p1 = spec_padding(src, pos + 50, 2, 50, options.nonzero_padding);
                let w1 = name.0 + p1.0;
                match p1.1 {
                    Err(e) => (w1, Err(e)),
                    Ok(_) => if pos + 60 > src.len() {
                        (w1, Err(FormatError::UnexpectedEof))
                    } else {
                        let p2 = spec_padding(src, pos + 60, 4, 60, options.nonzero_padding);
                        let w2 = w1 + p2.0;
                        match p2.1 {
                            Err(e) => (w2, Err(e)),
                            Ok(_) => if pos + 108 > src.len() {
                                (w2, Err(FormatError::UnexpectedEof))
                            } else {
                                match spec_from_type_code(u32_at(src, pos + 104)) {
                                    None => (w2, Err(FormatError::InvalidDescriptorType(u32_at(src, pos + 104)))),
                                    Some(dt) => if pos + 116 > src.len() {
                                        (w2, Err(FormatError::UnexpectedEof))
                                    } else {
                                        let p3 = spec_padding(src, pos + 116, 4, 116, options.nonzero_padding);
                                        let w3 = w2 + p3.0;
                                        match p3.1 {
                                            Err(e) => (w3, Err(e)),
                                            Ok(_) => {
                                                let h = spec_header_fields(src, pos, chars, dt);
                                                (w3, match spec_header_fault(h) {
                                                    Some(e) => Err(e),
                                                    None => Ok(h),
                                                })
                                            },
                                        }
                                    },
                                }
                            },
                        }
                    },
                }
            },
        }
    }
}

impl FbowParams {
    /// Read the FBOW header at `*pos`
    pub fn read_from(src: &[u8], pos: &mut usize, options: &ReadFbowOptions, warnings: &mut Vec<ParseWarning>) -> (r: Result<Self, FormatError>)
        ensures
            final(warnings)@ == old(warnings)@ + spec_header(src@, *old(pos) as int, *options).0,
            match spec_header(src@, *old(pos) as int, *options).1 {
                Ok(h) => r is Ok && r->Ok_0@ == h && *final(pos) == *old(pos) + FBOW_HEADER_LEN,
                Err(e) => r == Err::<Self, FormatError>(e),
            },
    {
        let ghost start = *pos as int;
        let ghost s = src@;
        let name_bytes = read_bytes(src, pos, 50)?;
        let mut field = [0u8; 50];
        let mut i: usize = 0;
        while i < 50
            invariant
                i <= 50,
                name_bytes@ == spec_window(s, start, 50),
                name_bytes@.len() == 50,
                forall|j: int| 0 <= j < i ==> field@[j] == name_bytes@[j],
            decreases 50 - i,
        {
            field[i] = name_bytes[i];
            i = i + 1;
        }
        assert(field@ =~= s.subrange(start, start + 50));
        let desc_name = parse_desc_name(&field, options, warnings)?;
        let ghost w0 = warnings@;
        read_padding(src, pos, 50, 2, options.nonzero_padding, warnings)?;
        let ghost w1 = warnings@;
        let alignment = read_u32(src, pos)?;
        let nblocks = read_u32(src, pos)?;
        read_padding(src, pos, 60, 4, options.nonzero_padding, warnings)?;
        let ghost w2 = warnings@;
        let desc_size_bytes_wp = read_u64(src, pos)?;
        let block_size_bytes_wp = read_u64(src, pos)?;
        let feature_off_start = read_u64(src, pos)?;
        let child_off_start = read_u64(src, pos)?;
        let total_size = read_u64(src, pos)?;
        let code = read_u32(src, pos)?;
        let desc_type = match DescriptorType::try_from_code(code) {
            Ok(dt) => dt,
            Err(_) => return Err(FormatError::InvalidDescriptorType(code)),
        };
        let desc_size = read_u32(src, pos)?;
        let m_k = read_u32(src, pos)?;
        read_padding(src, pos, 116, 4, options.nonzero_padding, warnings)?;
        let params = FbowParams {
            desc_name,
            alignment,
            nblocks,
            desc_size_bytes_wp,
            block_size_bytes_wp,
            feature_off_start,
            child_off_start,
            total_size,
            desc_type,
            desc_size,
            m_k,
        };
        assert(params@ == spec_header_fields(s, start, chars50(desc_name), desc_type));
        if (nblocks as u64) > 0 && block_size_bytes_wp > u64::MAX / (nblocks as u64) {
            proof {
                assert((nblocks as int) * (block_size_bytes_wp as int) > u64::MAX) by (nonlinear_arith)
                    requires
                        nblocks > 0,
                        block_size_bytes_wp > (u64::MAX as int) / (nblocks as int);
            }
            return Err(FormatError::InconsistentTotalSize);
        }
        proof {
            assert((nblocks as int) * (block_size_bytes_wp as int) <= u64::MAX) by (nonlinear_arith)
                requires
                    nblocks == 0 || block_size_bytes_wp <= (u64::MAX as int) / (nblocks as int);
        }
        if (nblocks as u64) * block_size_bytes_wp != total_size {
            return Err(FormatError::InconsistentTotalSize);
        }
        let aligned = if alignment == 0 { desc_size_bytes_wp == 0 } else { desc_size_bytes_wp % (alignment as u64) == 0 };
        if !aligned {
            return Err(FormatError::MisalignedDescriptor);
        }
        if desc_size_bytes_wp < BLOCK_HEADER_LEN as u64 {
            return Err(FormatError::DescriptorTooSmall);
        }
        if !(BLOCK_HEADER_LEN as u64 <= feature_off_start && feature_off_start < block_size_bytes_wp) {
            return Err(FormatError::InvalidFeatureOffset);
        }
        if !(feature_off_start <= child_off_start && child_off_start < block_size_bytes_wp) {
            return Err(FormatError::InvalidChildOffset);
        }
        Ok(params)
    }
}

/// Take `n` bytes of `data` at `*pos`, advancing `*pos` past them
pub fn take_bytes<'a>(data: &'a [u8], pos: &mut usize, n: usize) -> (b: &'a [u8])
    requires
        *old(pos) + n <= data@.len(),
    ensures
        b@ == spec_window(data@, *old(pos) as int, n as int),
        *final(pos) == *old(pos) + n,
{
    let len = data.len();
    assert(*pos + n <= len);
    let b = vstd::slice::slice_subrange(data, *pos, *pos + n);
    *pos = *pos + n;
    b
}

/// A child of a block: a block id (or, with the top bit set, a leaf marker),
/// a weight given by the bits of its `f32`, and the child's feature
pub struct ChildInfo {
    /// Block id of a branch child; the top bit marks a leaf
    pub id_or_childblock: u32,
    /// Bits of the child's `f32` weight
    pub weight_bits: u32,
    /// The child's feature, padding excluded
    pub feature: Vec<u8>,
}

impl ChildInfo {
    /// Whether the child is marked as a leaf
    pub fn is_leaf(&self) -> (b: bool)
        ensures
            b == (self.id_or_childblock >= 0x8000_0000),
    {
        let id = self.id_or_childblock;
        assert((id & 0x8000_0000u32 != 0) == (id >= 0x8000_0000u32)) by (bit_vector);
        id & 0x8000_0000u32 != 0
    }
}

/// A block of an FBOW file
pub struct Block {
    /// Number of children (at most `k`)
    pub n: u32,
    /// The block's leaf flag
    pub leaf: bool,
    /// Id of the parent block
    pub parent_id: u32,
    /// The children
    pub children: Vec<ChildInfo>,
}

/// Mathematical model of [`Block`]: each child is its id, weight bits and feature
pub struct BlockView {
    pub n: u32,
    pub leaf: bool,
    pub parent_id: u32,
    pub children: Seq<(u32, u32, Seq<u8>)>,
}

/// The children as their ids, weight bits and features
pub open spec fn spec_children_view(cs: Seq<ChildInfo>) -> Seq<(u32, u32, Seq<u8>)> {
    cs.map_values(|c: ChildInfo| (c.id_or_childblock, c.weight_bits, c.feature@))
}

impl View for Block {
    type V = BlockView;

    open spec fn view(&self) -> BlockView {
        BlockView {
            n: self.n,
            leaf: self.leaf,
            parent_id: self.parent_id,
            children: spec_children_view(self.children@),
        }
    }
}

/// Reading the 8-byte header `b` of block `bi`: the child count (capped at
/// `k`), the leaf flag (a value other than 0 or 1 counts as a leaf) and the
/// parent id
pub open spec fn spec_block_header(b: Seq<u8>, bi: u32, k: u32, options: ReadFbowOptions) -> (Seq<ParseWarning>, Result<(u32, bool, u32), FormatError>) {
    let raw_n = u16_at(b, 0) as u32;
    let raw_leaf = u16_at(b, 2);
    let too_many = if raw_n > k {
        seq![(ParseWarning::TooManyChildren { block: bi, n: raw_n, k: k }, options.too_many_children)]
    } else {
        Seq::empty()
    };
    let bad_leaf = if raw_leaf > 1 {
        seq![(ParseWarning::InvalidLeafFlag { value: raw_leaf }, options.inconsistent_block)]
    } else {
        Seq::empty()
    };
    spec_outcome(too_many + bad_leaf, (if raw_n > k { k } else { raw_n }, raw_leaf != 0, u32_at(b, 4)))
}

/// The `n` children of the block `b`: their ids and weights from the
/// information area, and the first `desc_size` bytes of their padded features
pub open spec fn spec_block_children(b: Seq<u8>, h: FbowParamsView, n: nat) -> Seq<(u32, u32, Seq<u8>)> {
    Seq::new(n, |i: int| (
        u32_at(b, h.child_off_start + 8 * i),
        u32_at(b, h.child_off_start + 8 * i + 4),
        b.subrange(h.feature_off_start + i * h.desc_size_bytes_wp, h.feature_off_start + i * h.desc_size_bytes_wp + h.desc_size),
    ))
}

/// The children of a block of `n` children do not fit it: the information
/// or the features run past the block, the padded features are empty, or a
/// feature is longer than its padding
pub open spec fn spec_block_misfit(h: FbowParamsView, n: nat) -> bool {
    ||| h.child_off_start + 8 * n > h.block_size_bytes_wp
    ||| h.desc_size_bytes_wp > usize::MAX
    ||| h.desc_size_bytes_wp == 0
    ||| h.feature_off_start + h.desc_size_bytes_wp * n > h.block_size_bytes_wp
    ||| n > 0 && h.desc_size > h.desc_size_bytes_wp
}

/// Every child's feature has `len` bytes
pub open spec fn features_have_len(children: Seq<(u32, u32, Seq<u8>)>, len: nat) -> bool {
    forall|i: int| 0 <= i < children.len() ==> (#[trigger] children[i]).2.len() == len
}

impl Block {
    /// Read the 8-byte header of block `bi`
    pub fn parse_header(data: &[u8], bi: u32, params: &FbowParams, options: &ReadFbowOptions, warnings: &mut Vec<ParseWarning>) -> (r: Result<(u32, bool, u32), FormatError>)
        requires
            data@.len() == BLOCK_HEADER_LEN,
        ensures
            final(warnings)@ == old(warnings)@ + spec_block_header(data@, bi, params.m_k, *options).0,
            r == spec_block_header(data@, bi, params.m_k, *options).1,
            r is Ok ==> r->Ok_0.0 <= 0xffff,
    {
        let ghost b = data@;
        let ghost start = warnings@;
        let mut p: usize = 0;
        let raw_n = u16_from_le_bytes(take_bytes(data, &mut p, 2)) as u32;
        let ghost too_many = if raw_n > params.m_k {
            seq![(ParseWarning::TooManyChildren { block: bi, n: raw_n, k: params.m_k }, options.too_many_children)]
        } else {
            Seq::empty()
        };
        proof {
            reveal_with_fuel(spec_emit, 2);
            assert(seq![(ParseWarning::TooManyChildren { block: bi, n: raw_n, k: params.m_k }, options.too_many_children)].drop_first()
                =~= Seq::<(ParseWarning, ParseValidationMode)>::empty());
        }
        let n = if raw_n > params.m_k {
            report(ParseWarning::TooManyChildren { block: bi, n: raw_n, k: params.m_k }, options.too_many_children, warnings)?;
            params.m_k
        } else {
            raw_n
        };
        assert(warnings@ == start + spec_emit(too_many).0 && spec_emit(too_many).1 is None);
        let raw_leaf = u16_from_le_bytes(take_bytes(data, &mut p, 2));
        let ghost bad_leaf = if raw_leaf > 1 {
            seq![(ParseWarning::InvalidLeafFlag { value: raw_leaf }, options.inconsistent_block)]
        } else {
            Seq::empty()
        };
        proof {
            lemma_emit_append(too_many, bad_leaf);
            assert(seq![(ParseWarning::InvalidLeafFlag { value: raw_leaf }, options.inconsistent_block)].drop_first()
                =~= Seq::<(ParseWarning, ParseValidationMode)>::empty());
        }
        let leaf = if raw_leaf == 0 {
            false
        } else if raw_leaf == 1 {
            true
        } else {
            let r = report(ParseWarning::InvalidLeafFlag { value: raw_leaf }, options.inconsistent_block, warnings);
            match r {
                Ok(()) => {},
                Err(e) => {
                    assert(start + spec_emit(too_many).0 + Seq::<ParseWarning>::empty() =~= start + spec_emit(too_many).0);
                    return Err(e);
                },
            }
            true
        };
        proof {
            assert(warnings@ =~= start + (spec_emit(too_many).0 + spec_emit(bad_leaf).0));
        }
        let parent_id = u32_from_le_bytes(take_bytes(data, &mut p, 4));
        Ok((n, leaf, parent_id))
    }
}

/// Parsing the block `b` (of id `bi`): the warnings reported, and the block or the error
pub open spec fn spec_block(b: Seq<u8>, h: FbowParamsView, bi: u32, options: ReadFbowOptions) -> (Seq<ParseWarning>, Result<BlockView, FormatError>) {
    let hd = spec_block_header(b.take(BLOCK_HEADER_LEN as int), bi, h.m_k, options);
    (hd.0, match hd.1 {
        Ok((n, leaf, parent_id)) => if spec_block_misfit(h, n as nat) {
            Err(FormatError::InvalidBlockLayout)
        } else {
            Ok(BlockView { n, leaf, parent_id, children: spec_block_children(b, h, n as nat) })
        },
        Err(e) => Err(e),
    })
}

impl Block {
    /// Parse block `bi` from its bytes `data`
    pub fn parse(data: &[u8], bi: u32, params: &FbowParams, options: &ReadFbowOptions, warnings: &mut Vec<ParseWarning>) -> (r: Result<Block, FormatError>)
        requires
            data@.len() == params.block_size_bytes_wp,
            BLOCK_HEADER_LEN <= data@.len(),
        ensures
            final(warnings)@ == old(warnings)@ + spec_block(data@, params@, bi, *options).0,
            match spec_block(data@, params@, bi, *options).1 {
                Ok(v) => r is Ok && r->Ok_0@ == v,
                Err(e) => r == Err::<Block, FormatError>(e),
            },
            r is Ok ==> features_have_len(r->Ok_0@.children, params.desc_size as nat),
    {
        let header = vstd::slice::slice_subrange(data, 0, BLOCK_HEADER_LEN);
        assert(header@ =~= data@.take(BLOCK_HEADER_LEN as int));
        let (n, leaf, parent_id) = Self::parse_header(header, bi, params, options, warnings)?;
        let ghost h = params@;
        let ghost b = data@;
        let len = data.len();
        let nn = n as usize;
        if params.child_off_start > len as u64 || (CHILD_INFO_LEN * nn) as u64 > len as u64 - params.child_off_start {
            return Err(FormatError::InvalidBlockLayout);
        }
        let info_start = params.child_off_start as usize;
        if params.desc_size_bytes_wp > usize::MAX as u64 || params.desc_size_bytes_wp == 0 {
            return Err(FormatError::InvalidBlockLayout);
        }
        let flp = params.desc_size_bytes_wp as usize;
        if params.feature_off_start > len as u64 {
            proof {
                assert(flp * nn >= 0) by (nonlinear_arith);
            }
            return Err(FormatError::InvalidBlockLayout);
        }
        let fstart = params.feature_off_start as usize;
        if nn > 0 && flp > (len - fstart) / nn {
            proof {
                assert(flp * nn > len - fstart) by (nonlinear_arith)
                    requires
                        nn > 0,
                        flp > (len - fstart) / (nn as int);
            }
            return Err(FormatError::InvalidBlockLayout);
        }
        proof {
            assert(nn == 0 || flp * nn <= len - fstart) by (nonlinear_arith)
                requires
                    nn == 0 || flp <= (len - fstart) / (nn as int);
        }
        let ds = params.desc_size as usize;
        if nn > 0 && ds > flp {
            return Err(FormatError::InvalidBlockLayout);
        }
        let ghost kids = spec_block_children(b, h, n as nat);
        let mut children: Vec<ChildInfo> = Vec::with_capacity(nn);
        let mut i: usize = 0;
        while i < nn
            invariant
                i <= nn,
                nn == n,
                len == b.len(),
                b == data@,
                h == params@,
                info_start == h.child_off_start,
                fstart == h.feature_off_start,
                flp == h.desc_size_bytes_wp,
                ds == h.desc_size,
                info_start + 8 * nn <= len,
                nn == 0 || flp * nn <= len - fstart,
                nn == 0 || ds <= flp,
                fstart <= len,
                kids == spec_block_children(b, h, n as nat),
                spec_children_view(children@) == kids.take(i as int),
                features_have_len(spec_children_view(children@), ds as nat),
            decreases nn - i,
        {
            let mut p: usize = info_start + CHILD_INFO_LEN * i;
            let id_or_childblock = u32_from_le_bytes(take_bytes(data, &mut p, 4));
            let weight_bits = u32_from_le_bytes(take_bytes(data, &mut p, 4));
            proof {
                assert(i * flp + ds <= nn * flp) by (nonlinear_arith)
                    requires
                        i < nn,
                        ds <= flp;
                assert(flp * nn == nn * flp) by (nonlinear_arith);
            }
            let fo = fstart + i * flp;
            let feature = crate::features::u8::copy_bytes(vstd::slice::slice_subrange(data, fo, fo + ds));
            let ghost before = children@;
            assert(spec_children_view(before).len() == before.len());
            assert(before.len() == i);
            children.push(ChildInfo { id_or_childblock, weight_bits, feature });
            i = i + 1;
            proof {
                assert(kids[i - 1] == (id_or_childblock, weight_bits, feature@));
                assert forall|j: int| 0 <= j < i - 1 implies
                    spec_children_view(children@)[j] == kids.take(i as int)[j] by {
                    assert(children@[j] == before[j]);
                    assert(spec_children_view(before)[j] == kids.take(i - 1)[j]);
                }
                assert(spec_children_view(children@) =~= kids.take(i as int));
            }
        }
        assert(kids.take(nn as int) =~= kids);
        Ok(Block { n, leaf, parent_id, children })
    }
}

/// Reading the first `count` blocks, which start at `start`: the warnings
/// reported, and the blocks or the error
pub open spec fn spec_blocks(src: Seq<u8>, start: int, h: FbowParamsView, options: ReadFbowOptions, count: nat) -> (Seq<ParseWarning>, Result<Seq<BlockView>, FormatError>)
    decreases count,
{
    if count == 0 {
        (Seq::empty(), Ok(Seq::empty()))
    } else {
        let prev = spec_blocks(src, start, h, options, (count - 1) as nat);
        match prev.1 {
            Err(e) => (prev.0, Err(e)),
            Ok(bs) => {
                let at = start + (count - 1) * h.block_size_bytes_wp;
                if at + h.block_size_bytes_wp > src.len() {
                    (prev.0, Err(FormatError::UnexpectedEof))
                } else {
                    let blk = spec_block(src.subrange(at, at + h.block_size_bytes_wp), h, (count - 1) as u32, options);
                    (prev.0 + blk.0, match blk.1 {
                        Ok(v) => Ok(bs.push(v)),
                        Err(e) => Err(e),
                    })
                }
            },
        }
    }
}


/// How a child of a block is taken
#[derive(Clone, Copy, Debug, PartialEq, Eq, Structural)]
pub enum ChildKind {
    /// A leaf, as marked
    Leaf,
    /// A branch: the block it refers to comes later
    Branch,
    /// Marked as a branch, but refers to no block (its id is the number of
    /// blocks or more); taken as a leaf
    OutOfBounds,
    /// Marked as a branch, but refers back to its own block or an earlier
    /// one; taken as a leaf
    Cycle,
}

/// How the child `id` of block `block` is taken, among `nblocks` blocks
pub open spec fn spec_child_kind(id: u32, block: nat, nblocks: nat) -> ChildKind {
    if id >= 0x8000_0000 {
        ChildKind::Leaf
    } else if nblocks <= id {
        ChildKind::OutOfBounds
    } else if id <= block {
        ChildKind::Cycle
    } else {
        ChildKind::Branch
    }
}

/// The irregular weights of the children of block `block`, in order
pub open spec fn spec_weight_events(children: Seq<(u32, u32, Seq<u8>)>, block: u32, mode: ParseValidationMode) -> Seq<(ParseWarning, ParseValidationMode)>
    decreases children.len(),
{
    if children.len() == 0 {
        Seq::empty()
    } else {
        let prev = spec_weight_events(children.drop_last(), block, mode);
        if children.last().1 != WEIGHT_ONE_BITS {
            prev.push((ParseWarning::InvalidWeight { block: block, bits: children.last().1 }, mode))
        } else {
            prev
        }
    }
}

/// The irregular references of the children of block `block`, in order
pub open spec fn spec_child_events(children: Seq<(u32, u32, Seq<u8>)>, block: nat, nblocks: nat, options: ReadFbowOptions) -> Seq<(ParseWarning, ParseValidationMode)>
    decreases children.len(),
{
    if children.len() == 0 {
        Seq::empty()
    } else {
        let prev = spec_child_events(children.drop_last(), block, nblocks, options);
        let id = children.last().0;
        match spec_child_kind(id, block, nblocks) {
            ChildKind::OutOfBounds => prev.push((ParseWarning::ChildOutOfBounds { block: block as u32, child: id, nblocks: nblocks as u32 }, options.invalid_child)),
            ChildKind::Cycle => prev.push((ParseWarning::BlockCycle { block: block as u32, child: id }, options.block_cycle)),
            _ => prev,
        }
    }
}

/// The ids of the branch children, in order
pub open spec fn spec_branch_ids(children: Seq<(u32, u32, Seq<u8>)>, block: nat, nblocks: nat) -> Seq<u32>
    decreases children.len(),
{
    if children.len() == 0 {
        Seq::empty()
    } else {
        let prev = spec_branch_ids(children.drop_last(), block, nblocks);
        if spec_child_kind(children.last().0, block, nblocks) == ChildKind::Branch {
            prev.push(children.last().0)
        } else {
            prev
        }
    }
}

/// The features of the children of kind branch (`branch`) or of the others
pub open spec fn spec_child_features(children: Seq<(u32, u32, Seq<u8>)>, block: nat, nblocks: nat, branch: bool) -> Seq<Seq<u8>>
    decreases children.len(),
{
    if children.len() == 0 {
        Seq::empty()
    } else {
        let prev = spec_child_features(children.drop_last(), block, nblocks, branch);
        if (spec_child_kind(children.last().0, block, nblocks) == ChildKind::Branch) == branch {
            prev.push(children.last().2)
        } else {
            prev
        }
    }
}

/// Irregularities that are all ignored give nothing
pub proof fn lemma_emit_ignored(events: Seq<(ParseWarning, ParseValidationMode)>)
    requires
        forall|i: int| 0 <= i < events.len() ==> (#[trigger] events[i]).1 == ParseValidationMode::Ignore,
    ensures
        spec_emit(events) == (Seq::<ParseWarning>::empty(), None::<ParseWarning>),
    decreases events.len(),
{
    if events.len() > 0 {
        assert forall|i: int| 0 <= i < events.drop_first().len() implies (#[trigger] events.drop_first()[i]).1 == ParseValidationMode::Ignore by {
            assert(events.drop_first()[i] == events[i + 1]);
        }
        lemma_emit_ignored(events.drop_first());
    }
}

proof fn lemma_weight_events_mode(children: Seq<(u32, u32, Seq<u8>)>, block: u32, mode: ParseValidationMode)
    ensures
        forall|i: int| 0 <= i < spec_weight_events(children, block, mode).len() ==>
            (#[trigger] spec_weight_events(children, block, mode)[i]).1 == mode,
    decreases children.len(),
{
    if children.len() > 0 {
        lemma_weight_events_mode(children.drop_last(), block, mode);
    }
}

/// A sequence with a strict irregularity gives the same as any sequence it
/// begins
pub proof fn lemma_emit_strict_prefix(a: Seq<(ParseWarning, ParseValidationMode)>, c: Seq<(ParseWarning, ParseValidationMode)>)
    requires
        a.len() <= c.len(),
        a == c.take(a.len() as int),
        spec_emit(a).1 is Some,
    ensures
        spec_emit(c) == spec_emit(a),
    decreases a.len(),
{
    assert(a[0] == c[0]);
    if a[0].1 != ParseValidationMode::Strict {
        assert(a.drop_first() =~= c.drop_first().take(a.len() - 1));
        lemma_emit_strict_prefix(a.drop_first(), c.drop_first());
    }
}

proof fn lemma_child_events_prefix(cs: Seq<(u32, u32, Seq<u8>)>, k: int, b: nat, nb: nat, options: ReadFbowOptions)
    requires
        0 <= k <= cs.len(),
    ensures
        spec_child_events(cs.take(k), b, nb, options).len() <= spec_child_events(cs, b, nb, options).len(),
        spec_child_events(cs.take(k), b, nb, options)
            == spec_child_events(cs, b, nb, options).take(spec_child_events(cs.take(k), b, nb, options).len() as int),
    decreases cs.len() - k,
{
    if k < cs.len() {
        assert(cs.drop_last().take(k) =~= cs.take(k));
        lemma_child_events_prefix(cs.drop_last(), k, b, nb, options);
        let a = spec_child_events(cs.take(k), b, nb, options);
        let m = spec_child_events(cs.drop_last(), b, nb, options);
        let c = spec_child_events(cs, b, nb, options);
        assert(c.take(a.len() as int) =~= m.take(a.len() as int));
    } else {
        assert(cs.take(k) =~= cs);
        let c = spec_child_events(cs, b, nb, options);
        assert(c.take(c.len() as int) =~= c);
    }
}

proof fn lemma_weight_events_prefix(cs: Seq<(u32, u32, Seq<u8>)>, k: int, block: u32, mode: ParseValidationMode)
    requires
        0 <= k <= cs.len(),
    ensures
        spec_weight_events(cs.take(k), block, mode).len() <= spec_weight_events(cs, block, mode).len(),
        spec_weight_events(cs.take(k), block, mode)
            == spec_weight_events(cs, block, mode).take(spec_weight_events(cs.take(k), block, mode).len() as int),
    decreases cs.len() - k,
{
    if k < cs.len() {
        assert(cs.drop_last().take(k) =~= cs.take(k));
        lemma_weight_events_prefix(cs.drop_last(), k, block, mode);
        let a = spec_weight_events(cs.take(k), block, mode);
        let m = spec_weight_events(cs.drop_last(), block, mode);
        let c = spec_weight_events(cs, block, mode);
        assert(c.take(a.len() as int) =~= m.take(a.len() as int));
    } else {
        assert(cs.take(k) =~= cs);
        let c = spec_weight_events(cs, block, mode);
        assert(c.take(c.len() as int) =~= c);
    }
}

/// Check the weights of the children of block `block`
fn check_weights(children: &Vec<ChildInfo>, block: u32, mode: ParseValidationMode, warnings: &mut Vec<ParseWarning>) -> (r: Result<(), FormatError>)
    ensures
        final(warnings)@ == old(warnings)@ + spec_emit(spec_weight_events(spec_children_view(children@), block, mode)).0,
        r == (match spec_emit(spec_weight_events(spec_children_view(children@), block, mode)).1 {
            Some(w) => Err::<(), FormatError>(FormatError::Rejected(w)),
            None => Ok(()),
        }),
{
    let ghost cs = spec_children_view(children@);
    if mode == ParseValidationMode::Ignore {
        proof {
            lemma_weight_events_mode(cs, block, mode);
            lemma_emit_ignored(spec_weight_events(cs, block, mode));
        }
        assert(warnings@ =~= old(warnings)@ + Seq::<ParseWarning>::empty());
        return Ok(());
    }
    let ghost start = warnings@;
    let mut i: usize = 0;
    while i < children.len()
        invariant
            i <= children@.len(),
            cs == spec_children_view(children@),
            start == old(warnings)@,
            spec_emit(spec_weight_events(cs.take(i as int), block, mode)).1 is None,
            warnings@ == start + spec_emit(spec_weight_events(cs.take(i as int), block, mode)).0,
        decreases children@.len() - i,
    {
        let ghost prev = spec_weight_events(cs.take(i as int), block, mode);
        proof {
            assert(cs.take(i + 1).drop_last() =~= cs.take(i as int));
            assert(cs.take(i + 1).last() == cs[i as int]);
        }
        let bits = children[i].weight_bits;
        if bits != WEIGHT_ONE_BITS {
            proof {
                lemma_emit_push(prev, ParseWarning::InvalidWeight { block, bits }, mode);
            }
            let r = report(ParseWarning::InvalidWeight { block, bits }, mode, warnings);
            if r.is_err() {
                proof {
                    assert(mode == ParseValidationMode::Strict);
                    assert(spec_weight_events(cs.take(i + 1), block, mode) == prev.push((ParseWarning::InvalidWeight { block, bits }, mode)));
                    assert(spec_emit(spec_weight_events(cs.take(i + 1), block, mode)) == (spec_emit(prev).0, Some(ParseWarning::InvalidWeight { block, bits })));
                    lemma_weight_events_prefix(cs, i + 1, block, mode);
                    lemma_emit_strict_prefix(spec_weight_events(cs.take(i + 1), block, mode), spec_weight_events(cs, block, mode));
                    assert(spec_emit(spec_weight_events(cs, block, mode)) == (spec_emit(prev).0, Some(ParseWarning::InvalidWeight { block, bits })));
                    assert(warnings@ =~= start + spec_emit(prev).0);
                }
                return r;
            }
            assert(warnings@ =~= start + spec_emit(spec_weight_events(cs.take(i + 1), block, mode)).0);
        }
        i = i + 1;
    }
    assert(cs.take(i as int) =~= cs);
    Ok(())
}

/// What classifying the children of a block gives: the branch ids, the
/// branch features and the leaf features
pub struct Classified {
    /// Ids of the blocks of the branch children
    pub branch_ids: Vec<u32>,
    /// Features of the branch children
    pub branch_features: Vec<Vec<u8>>,
    /// Features of the leaf children
    pub leaf_features: Vec<Vec<u8>>,
}

/// Sort the children of block `block` (among `nblocks`) into branches and
/// leaves, reporting the references that are taken as leaves
fn classify_children(children: &Vec<ChildInfo>, block: usize, nblocks: usize, options: &ReadFbowOptions, warnings: &mut Vec<ParseWarning>) -> (r: Result<Classified, FormatError>)
    requires
        nblocks <= u32::MAX,
        block < nblocks,
    ensures
        final(warnings)@ == old(warnings)@ + spec_emit(spec_child_events(spec_children_view(children@), block as nat, nblocks as nat, *options)).0,
        match spec_emit(spec_child_events(spec_children_view(children@), block as nat, nblocks as nat, *options)).1 {
            Some(w) => r == Err::<Classified, FormatError>(FormatError::Rejected(w)),
            None => r is Ok
                && r->Ok_0.branch_ids@ == spec_branch_ids(spec_children_view(children@), block as nat, nblocks as nat)
                && r->Ok_0.branch_features@.map_values(|f: Vec<u8>| f@) == spec_child_features(spec_children_view(children@), block as nat, nblocks as nat, true)
                && r->Ok_0.leaf_features@.map_values(|f: Vec<u8>| f@) == spec_child_features(spec_children_view(children@), block as nat, nblocks as nat, false),
        },
{
    let ghost cs = spec_children_view(children@);
    let ghost start = warnings@;
    let ghost b = block as nat;
    let ghost nb = nblocks as nat;
    let mut branch_ids: Vec<u32> = Vec::new();
    let mut branch_features: Vec<Vec<u8>> = Vec::new();
    let mut leaf_features: Vec<Vec<u8>> = Vec::new();
    let mut i: usize = 0;
    while i < children.len()
        invariant
            i <= children@.len(),
            cs == spec_children_view(children@),
            start == old(warnings)@,
            nblocks <= u32::MAX,
            block < nblocks,
            b == block,
            nb == nblocks,
            spec_emit(spec_child_events(cs.take(i as int), b, nb, *options)).1 is None,
            warnings@ == start + spec_emit(spec_child_events(cs.take(i as int), b, nb, *options)).0,
            branch_ids@ == spec_branch_ids(cs.take(i as int), b, nb),
            branch_features@.map_values(|f: Vec<u8>| f@) == spec_child_features(cs.take(i as int), b, nb, true),
            leaf_features@.map_values(|f: Vec<u8>| f@) == spec_child_features(cs.take(i as int), b, nb, false),
        decreases children@.len() - i,
    {
        let ghost t = cs.take(i as int);
        let ghost t1 = cs.take(i + 1);
        proof {
            assert(t1.drop_last() =~= t);
            assert(t1.last() == cs[i as int]);
        }
        let c = &children[i];
        let id = c.id_or_childblock;
        let feature = crate::features::u8::copy_bytes(c.feature.as_slice());
        let is_branch = if c.is_leaf() {
            false
        } else if nblocks <= id as usize {
            let w = ParseWarning::ChildOutOfBounds { block: block as u32, child: id, nblocks: nblocks as u32 };
            proof {
                lemma_emit_push(spec_child_events(t, b, nb, *options), w, options.invalid_child);
            }
            let r = report(w, options.invalid_child, warnings);
            if r.is_err() {
                proof {
                    lemma_child_events_prefix(cs, i + 1, b, nb, *options);
                    lemma_emit_strict_prefix(spec_child_events(t1, b, nb, *options), spec_child_events(cs, b, nb, *options));
                }
                return Err(FormatError::Rejected(w));
            }
            false
        } else if (id as usize) <= block {
            let w = ParseWarning::BlockCycle { block: block as u32, child: id };
            proof {
                lemma_emit_push(spec_child_events(t, b, nb, *options), w, options.block_cycle);
            }
            let r = report(w, options.block_cycle, warnings);
            if r.is_err() {
                proof {
                    lemma_child_events_prefix(cs, i + 1, b, nb, *options);
                    lemma_emit_strict_prefix(spec_child_events(t1, b, nb, *options), spec_child_events(cs, b, nb, *options));
                }
                return Err(FormatError::Rejected(w));
            }
            false
        } else {
            true
        };
        assert(is_branch == (spec_child_kind(id, b, nb) == ChildKind::Branch));
        if is_branch {
            branch_ids.push(id);
            branch_features.push(feature);
        } else {
            leaf_features.push(feature);
        }
        i = i + 1;
        proof {
            assert(branch_features@.map_values(|f: Vec<u8>| f@) =~= spec_child_features(t1, b, nb, true));
            assert(leaf_features@.map_values(|f: Vec<u8>| f@) =~= spec_child_features(t1, b, nb, false));
        }
    }
    assert(cs.take(i as int) =~= cs);
    Ok(Classified { branch_ids, branch_features, leaf_features })
}

/// A block as the tree is built from it: the id of its first child word,
/// its number of children, and the blocks of its branch children in order
pub struct LinkEntry {
    pub base: nat,
    pub n: nat,
    pub branches: Seq<u32>,
}

/// The state of building the tree after some blocks: the next word id, the
/// blocks referred to but not yet reached, the blocks built and the features
/// of their children (for each block, those of its branches, then those of
/// its leaves)
pub struct LinkState {
    pub next_id: nat,
    pub pending: Set<nat>,
    pub entries: Seq<LinkEntry>,
    pub features: Seq<Seq<u8>>,
}

/// What building the tree from a block, or from several, gives
pub enum LinkStep {
    /// The new state, and the warnings reported
    Next(Seq<ParseWarning>, LinkState),
    /// The error, and the warnings reported before it
    Fail(Seq<ParseWarning>, FormatError),
    /// A panic
    Panic,
}

/// The ids `br` are distinct, and none is in `pending`
pub open spec fn spec_fresh(br: Seq<u32>, pending: Set<nat>) -> bool {
    &&& forall|i: int, k: int| 0 <= i < k < br.len() ==> br[i] != br[k]
    &&& forall|i: int| 0 <= i < br.len() ==> !pending.contains(br[i] as nat)
}

/// The ids of `br`, as a set
pub open spec fn spec_id_set(br: Seq<u32>) -> Set<nat> {
    Set::new(|t: nat| exists|i: int| 0 <= i < br.len() && br[i] as nat == t)
}

/// Building the tree from block `j` of `nblocks`, in state `st`: its weights
/// are checked, it must have been referred to (else it is missing), its children are sorted into
/// branches and leaves, it gets the next `n` word ids, its children's
/// features are stored, and its branch children become pending (each block
/// may be referred to once only, and the word ids must fit in 32 bits).
pub open spec fn spec_link_block(st: LinkState, j: nat, blk: BlockView, options: ReadFbowOptions, nblocks: nat) -> LinkStep {
    let we = spec_emit(spec_weight_events(blk.children, j as u32, options.invalid_weight));
    if we.1 is Some {
        LinkStep::Fail(we.0, FormatError::Rejected(we.1->Some_0))
    } else if !st.pending.contains(j) {
        LinkStep::Fail(we.0, FormatError::MissingBlock(j as u32))
    } else {
        let ce = spec_emit(spec_child_events(blk.children, j, nblocks, options));
        if ce.1 is Some {
            LinkStep::Fail(we.0 + ce.0, FormatError::Rejected(ce.1->Some_0))
        } else {
            let br = spec_branch_ids(blk.children, j, nblocks);
            let n = blk.children.len();
            let rest = st.pending.remove(j);
            if st.next_id + n > u32::MAX {
                LinkStep::Fail(we.0 + ce.0, FormatError::TooManyWords)
            } else if !spec_fresh(br, rest) {
                LinkStep::Fail(we.0 + ce.0, FormatError::RepeatedReference(j as u32))
            } else {
                LinkStep::Next(we.0 + ce.0, LinkState {
                    next_id: st.next_id + n,
                    pending: rest.union(spec_id_set(br)),
                    entries: st.entries.push(LinkEntry { base: st.next_id, n: n, branches: br }),
                    features: st.features + spec_child_features(blk.children, j, nblocks, true)
                        + spec_child_features(blk.children, j, nblocks, false),
                })
            }
        }
    }
}

/// Building the tree from the first `count` blocks, starting from the root
/// block (id 0) pending
pub open spec fn spec_link(blocks: Seq<BlockView>, options: ReadFbowOptions, count: nat) -> LinkStep
    decreases count,
{
    if count == 0 {
        LinkStep::Next(Seq::empty(), LinkState {
            next_id: 0,
            pending: set![0nat],
            entries: Seq::empty(),
            features: Seq::empty(),
        })
    } else {
        match spec_link(blocks, options, (count - 1) as nat) {
            LinkStep::Next(ws, st) => match spec_link_block(st, (count - 1) as nat, blocks[count - 1], options, blocks.len()) {
                LinkStep::Next(ws2, st2) => LinkStep::Next(ws + ws2, st2),
                LinkStep::Fail(ws2, e) => LinkStep::Fail(ws + ws2, e),
                LinkStep::Panic => LinkStep::Panic,
            },
            other => other,
        }
    }
}

/// Building the tree from all the blocks: a zero descriptor size is an
/// error, so is a file without blocks (the root block is missing), and a
/// block that is referred to but never reached panics
pub open spec fn spec_link_all(blocks: Seq<BlockView>, options: ReadFbowOptions, desc_size: nat) -> LinkStep {
    if desc_size == 0 {
        LinkStep::Fail(Seq::empty(), FormatError::EmptyDescriptor)
    } else if blocks.len() == 0 {
        LinkStep::Fail(Seq::empty(), FormatError::MissingBlock(0))
    } else {
        match spec_link(blocks, options, blocks.len()) {
            LinkStep::Next(ws, st) => if st.pending == Set::<nat>::empty() {
                LinkStep::Next(ws, st)
            } else {
                LinkStep::Panic
            },
            other => other,
        }
    }
}

/// Once building stops, it stays stopped
proof fn lemma_link_stopped(blocks: Seq<BlockView>, options: ReadFbowOptions, k: nat, m: nat)
    requires
        k <= m,
        !(spec_link(blocks, options, k) is Next),
    ensures
        spec_link(blocks, options, m) == spec_link(blocks, options, k),
    decreases m - k,
{
    if k < m {
        lemma_link_stopped(blocks, options, k, (m - 1) as nat);
    }
}

/// The blocks, as their models
pub open spec fn spec_blocks_view(bs: Seq<Block>) -> Seq<BlockView> {
    bs.map_values(|b: Block| b@)
}

/// A block of the tree being built
pub struct BlockEntry {
    /// Id of the first child word
    pub base: u32,
    /// Number of children
    pub n: u32,
    /// Blocks of the branch children
    pub branches: Vec<u32>,
}

/// The entries, as their models
pub open spec fn spec_entries_view(es: Seq<BlockEntry>) -> Seq<LinkEntry> {
    es.map_values(|e: BlockEntry| LinkEntry { base: e.base as nat, n: e.n as nat, branches: e.branches@ })
}

proof fn lemma_branch_ids_range(cs: Seq<(u32, u32, Seq<u8>)>, b: nat, nb: nat)
    ensures
        forall|i: int| 0 <= i < spec_branch_ids(cs, b, nb).len() ==>
            b < #[trigger] spec_branch_ids(cs, b, nb)[i] < nb,
    decreases cs.len(),
{
    if cs.len() > 0 {
        lemma_branch_ids_range(cs.drop_last(), b, nb);
        let prev = spec_branch_ids(cs.drop_last(), b, nb);
        let r = spec_branch_ids(cs, b, nb);
        assert forall|i: int| 0 <= i < r.len() implies b < #[trigger] r[i] < nb by {
            if i < prev.len() {
                assert(r[i] == prev[i]);
            }
        }
    }
}

proof fn lemma_child_features_len(cs: Seq<(u32, u32, Seq<u8>)>, b: nat, nb: nat, branch: bool, len: nat)
    requires
        features_have_len(cs, len),
    ensures
        forall|i: int| 0 <= i < spec_child_features(cs, b, nb, branch).len() ==>
            (#[trigger] spec_child_features(cs, b, nb, branch)[i]).len() == len,
    decreases cs.len(),
{
    if cs.len() > 0 {
        assert(features_have_len(cs.drop_last(), len)) by {
            assert forall|i: int| 0 <= i < cs.drop_last().len() implies (#[trigger] cs.drop_last()[i]).2.len() == len by {
                assert(cs.drop_last()[i] == cs[i]);
            }
        }
        lemma_child_features_len(cs.drop_last(), b, nb, branch, len);
        assert(cs.last() == cs[cs.len() - 1]);
        let prev = spec_child_features(cs.drop_last(), b, nb, branch);
        let r = spec_child_features(cs, b, nb, branch);
        assert forall|i: int| 0 <= i < r.len() implies (#[trigger] r[i]).len() == len by {
            if i < prev.len() {
                assert(r[i] == prev[i]);
            }
        }
    }
}

/// After building from the first `count` blocks, the blocks referred to but
/// not reached all come later
proof fn lemma_link_pending(blocks: Seq<BlockView>, o: ReadFbowOptions, count: nat)
    requires
        0 < blocks.len(),
        count <= blocks.len(),
    ensures
        spec_link(blocks, o, count) matches LinkStep::Next(_, st)
            ==> forall|t: nat| st.pending.contains(t) ==> count <= t < blocks.len(),
    decreases count,
{
    if count > 0 {
        let j = (count - 1) as nat;
        lemma_link_pending(blocks, o, j);
        if let LinkStep::Next(ws, st) = spec_link(blocks, o, j) {
            let blk = blocks[j as int];
            lemma_branch_ids_range(blk.children, j, blocks.len());
            if let LinkStep::Next(ws2, st2) = spec_link_block(st, j, blk, o, blocks.len()) {
                let br = spec_branch_ids(blk.children, j, blocks.len());
                assert forall|t: nat| st2.pending.contains(t) implies count <= t < blocks.len() by {
                    if spec_id_set(br).contains(t) {
                        let m = choose|m: int| 0 <= m < br.len() && br[m] as nat == t;
                    }
                }
            }
        }
    }
}

/// Building the tree of an FBOW file of `u8` features never panics: every
/// block referred to is reached
pub proof fn lemma_link_all_total(blocks: Seq<BlockView>, o: ReadFbowOptions, desc_size: nat)
    ensures
        !(spec_link_all(blocks, o, desc_size) is Panic),
{
    if desc_size > 0 && blocks.len() > 0 {
        lemma_link_pending(blocks, o, blocks.len());
        if let LinkStep::Next(ws, st) = spec_link(blocks, o, blocks.len()) {
            assert(st.pending =~= Set::<nat>::empty());
        }
        lemma_link_not_panic(blocks, o, blocks.len());
    }
}

/// Building the tree from blocks of `u8` features stops on errors only
proof fn lemma_link_not_panic(blocks: Seq<BlockView>, o: ReadFbowOptions, count: nat)
    ensures
        !(spec_link(blocks, o, count) is Panic),
    decreases count,
{
    if count > 0 {
        lemma_link_not_panic(blocks, o, (count - 1) as nat);
    }
}

/// Reading an FBOW file never panics: every input is read or refused
pub proof fn lemma_read_fbow_total(src: Seq<u8>, pos: int, o: ReadFbowOptions)
    ensures
        !spec_read_fbow_panics(src, pos, o),
{
    if let Ok(h) = spec_header(src, pos, o).1 {
        if let Ok(blocks) = spec_blocks(src, pos + FBOW_HEADER_LEN, h, o, h.nblocks as nat).1 {
            lemma_link_all_total(blocks, o, h.desc_size as nat);
        }
    }
}

/// Every block's branch children come after it and are blocks
pub open spec fn entries_ordered(entries: Seq<LinkEntry>) -> bool {
    forall|i: int, k: int| 0 <= i < entries.len() && 0 <= k < entries[i].branches.len() ==>
        i < #[trigger] entries[i].branches[k] < entries.len()
}

/// Build the tree from the blocks of an FBOW file of `u8` features: the
/// block entries and the features
fn link_u8(blocks: &Vec<Block>, desc_size: usize, options: &ReadFbowOptions, warnings: &mut Vec<ParseWarning>) -> (r: Result<(Vec<BlockEntry>, FeaturesU8), FormatError>)
    requires
        blocks@.len() <= u32::MAX,
        blocks@.len() < usize::MAX,
        forall|i: int| 0 <= i < blocks@.len() ==> features_have_len((#[trigger] blocks@[i])@.children, desc_size as nat),
        !(spec_link_all(spec_blocks_view(blocks@), *options, desc_size as nat) is Panic),
    ensures
        match spec_link_all(spec_blocks_view(blocks@), *options, desc_size as nat) {
            LinkStep::Next(ws, st) => {
                &&& r is Ok
                &&& final(warnings)@ == old(warnings)@ + ws
                &&& spec_entries_view(r->Ok_0.0@) == st.entries
                &&& entries_ordered(st.entries)
                &&& r->Ok_0.1.wf()
                &&& r->Ok_0.1@ == st.features
                &&& r->Ok_0.1.spec_feature_len() == desc_size
                &&& st.entries.len() == blocks@.len()
                &&& blocks@.len() > 0
            },
            LinkStep::Fail(ws, e) => r == Err::<(Vec<BlockEntry>, FeaturesU8), FormatError>(e) && final(warnings)@ == old(warnings)@ + ws,
            LinkStep::Panic => true,
        },
{
    let ghost views = spec_blocks_view(blocks@);
    let nblocks = blocks.len();
    if desc_size == 0 {
        assert(warnings@ =~= old(warnings)@ + Seq::<ParseWarning>::empty());
        return Err(FormatError::EmptyDescriptor);
    }
    if nblocks == 0 {
        assert(warnings@ =~= old(warnings)@ + Seq::<ParseWarning>::empty());
        return Err(FormatError::MissingBlock(0));
    }
    let mut features = FeaturesU8::new(nblocks, desc_size);
    let mut pending: Vec<bool> = Vec::with_capacity(nblocks + 1);
    let mut t: usize = 0;
    while t <= nblocks
        invariant
            t <= nblocks + 1,
            nblocks < usize::MAX,
            pending@.len() == t,
            forall|i: int| 0 <= i < t ==> pending@[i] == (i == 0),
        decreases nblocks + 1 - t,
    {
        pending.push(t == 0);
        t = t + 1;
    }
    let ghost start = warnings@;
    let ghost mut ws: Seq<ParseWarning> = Seq::empty();
    let ghost mut st = LinkState { next_id: 0, pending: set![0nat], entries: Seq::empty(), features: Seq::empty() };
    let mut entries: Vec<BlockEntry> = Vec::with_capacity(nblocks);
    let mut next_id: u32 = 0;
    let mut j: usize = 0;
    assert(spec_entries_view(entries@) =~= st.entries);
    while j < nblocks
        invariant
            j <= nblocks,
            nblocks == blocks@.len(),
            nblocks <= u32::MAX,
            views == spec_blocks_view(blocks@),
            forall|i: int| 0 <= i < blocks@.len() ==> features_have_len((#[trigger] blocks@[i])@.children, desc_size as nat),
            desc_size > 0,
            !(spec_link_all(views, *options, desc_size as nat) is Panic),
            spec_link(views, *options, j as nat) == LinkStep::Next(ws, st),
            start == old(warnings)@,
            warnings@ == start + ws,
            spec_entries_view(entries@) == st.entries,
            st.entries.len() == j,
            features.wf(),
            features@ == st.features,
            features.spec_feature_len() == desc_size,
            next_id == st.next_id,
            pending@.len() == nblocks + 1,
            forall|i: int| 0 <= i <= nblocks ==> (pending@[i] <==> st.pending.contains(i as nat)),
            forall|i: nat| st.pending.contains(i) ==> i <= nblocks,
            forall|i: int, k: int| 0 <= i < j && 0 <= k < st.entries[i].branches.len() ==> {
                let t = #[trigger] st.entries[i].branches[k] as nat;
                &&& i <= t <= nblocks
                &&& (t == i || t >= j ==> st.pending.contains(t))
            },
        decreases nblocks - j,
    {
        let ghost blk = views[j as int];
        assert(blk == blocks@[j as int]@);
        let children = &blocks[j].children;
        assert(spec_children_view(children@) == blk.children);
        let ghost step = spec_link_block(st, j as nat, blk, *options, nblocks as nat);
        proof {
            assert(spec_link(views, *options, (j + 1) as nat) == match step {
                LinkStep::Next(ws2, st2) => LinkStep::Next(ws + ws2, st2),
                LinkStep::Fail(ws2, e) => LinkStep::Fail(ws + ws2, e),
                LinkStep::Panic => LinkStep::Panic,
            });
            if !(step is Next) {
                lemma_link_stopped(views, *options, (j + 1) as nat, nblocks as nat);
            }
        }
        let w = check_weights(children, j as u32, options.invalid_weight, warnings);
        if w.is_err() {
            assert(warnings@ =~= start + (ws + spec_emit(spec_weight_events(blk.children, j as u32, options.invalid_weight)).0));
            return Err(w.unwrap_err());
        }
        let ghost we = spec_emit(spec_weight_events(blk.children, j as u32, options.invalid_weight)).0;
        if !pending[j] {
            assert(warnings@ =~= start + (ws + we));
            return Err(FormatError::MissingBlock(j as u32));
        }
        pending.set(j, false);
        let cl = classify_children(children, j, nblocks, options, warnings);
        let cl = match cl {
            Ok(cl) => cl,
            Err(e) => {
                assert(warnings@ =~= start + (ws + (we + spec_emit(spec_child_events(blk.children, j as nat, nblocks as nat, *options)).0)));
                return Err(e);
            },
        };
        let ghost ce = spec_emit(spec_child_events(blk.children, j as nat, nblocks as nat, *options)).0;
        let ghost br = spec_branch_ids(blk.children, j as nat, nblocks as nat);
        let ghost rest = st.pending.remove(j as nat);
        let n = children.len();
        if n as u64 > 0xffff_ffffu64 - next_id as u64 {
            assert(warnings@ =~= start + (ws + (we + ce)));
            return Err(FormatError::TooManyWords);
        }
        let base = next_id;
        next_id = next_id + n as u32;
        proof {
            lemma_child_features_len(blk.children, j as nat, nblocks as nat, true, desc_size as nat);
            lemma_child_features_len(blk.children, j as nat, nblocks as nat, false, desc_size as nat);
            lemma_branch_ids_range(blk.children, j as nat, nblocks as nat);
        }
        proof {
            let bf = spec_child_features(blk.children, j as nat, nblocks as nat, true);
            let lf = spec_child_features(blk.children, j as nat, nblocks as nat, false);
            assert forall|i: int| 0 <= i < cl.branch_features@.len() implies (#[trigger] cl.branch_features@[i])@.len() == desc_size by {
                assert(cl.branch_features@.map_values(|f: Vec<u8>| f@)[i] == bf[i]);
            }
            assert forall|i: int| 0 <= i < cl.leaf_features@.len() implies (#[trigger] cl.leaf_features@[i])@.len() == desc_size by {
                assert(cl.leaf_features@.map_values(|f: Vec<u8>| f@)[i] == lf[i]);
            }
        }
        features.insert(cl.branch_features.as_slice());
        features.insert(cl.leaf_features.as_slice());
        proof {
            assert(warnings@ =~= start + (ws + (we + ce)));
            if let LinkStep::Fail(w2, e) = step {
                assert(spec_link_all(views, *options, desc_size as nat) == LinkStep::Fail(ws + w2, e));
            }
        }
        let mut k: usize = 0;
        while k < cl.branch_ids.len()
            invariant
                k <= cl.branch_ids@.len(),
                warnings@ == start + (ws + (we + ce)),
                start == old(warnings)@,
                views == spec_blocks_view(blocks@),
                we == spec_emit(spec_weight_events(blk.children, j as u32, options.invalid_weight)).0,
                ce == spec_emit(spec_child_events(blk.children, j as nat, nblocks as nat, *options)).0,
                step is Fail ==> spec_link_all(views, *options, desc_size as nat) == LinkStep::Fail(ws + step->Fail_0, step->Fail_1),
                cl.branch_ids@ == br,
                br == spec_branch_ids(blk.children, j as nat, nblocks as nat),
                pending@.len() == nblocks + 1,
                forall|i: int| 0 <= i < br.len() ==> j <= #[trigger] br[i] <= nblocks,
                step == spec_link_block(st, j as nat, blk, *options, nblocks as nat),
                !(step is Panic),
                st.pending.contains(j as nat),
                rest == st.pending.remove(j as nat),
                spec_emit(spec_weight_events(blk.children, j as u32, options.invalid_weight)).1 is None,
                spec_emit(spec_child_events(blk.children, j as nat, nblocks as nat, *options)).1 is None,
                st.next_id + blk.children.len() <= u32::MAX,
                forall|i: int, m: int| 0 <= i < m < k ==> br[i] != br[m],
                forall|i: int| 0 <= i < k ==> !rest.contains(br[i] as nat),
                forall|i: int| 0 <= i <= nblocks ==> (pending@[i] <==> (rest.contains(i as nat)
                    || exists|m: int| 0 <= m < k && br[m] as nat == i)),
            decreases br.len() - k,
        {
            let tk = cl.branch_ids[k] as usize;
            if pending[tk] {
                proof {
                    assert(br[k as int] as nat == tk);
                    if rest.contains(tk as nat) {
                        assert(!spec_fresh(br, rest));
                    } else {
                        let m = choose|m: int| 0 <= m < k && br[m] as nat == tk;
                        assert(br[m] == br[k as int]);
                        assert(!spec_fresh(br, rest));
                    }
                    assert(step == LinkStep::Fail(we + ce, FormatError::RepeatedReference(j as u32)));
                }
                return Err(FormatError::RepeatedReference(j as u32));
            }
            pending.set(tk, true);
            k = k + 1;
        }
        let ghost st2 = LinkState {
            next_id: st.next_id + blk.children.len(),
            pending: rest.union(spec_id_set(br)),
            entries: st.entries.push(LinkEntry { base: st.next_id, n: blk.children.len(), branches: br }),
            features: st.features + spec_child_features(blk.children, j as nat, nblocks as nat, true)
                + spec_child_features(blk.children, j as nat, nblocks as nat, false),
        };
        proof {
            assert(spec_fresh(br, rest));
            assert(step == LinkStep::Next(we + ce, st2));
        }
        let ghost old_entries = entries@;
        entries.push(BlockEntry { base, n: n as u32, branches: cl.branch_ids });
        proof {
            assert(spec_entries_view(entries@) =~= st2.entries) by {
                assert(spec_entries_view(old_entries) == st.entries);
                assert forall|i: int| 0 <= i < entries@.len() implies #[trigger] spec_entries_view(entries@)[i] == st2.entries[i] by {
                    if i < old_entries.len() {
                        assert(entries@[i] == old_entries[i]);
                        assert(spec_entries_view(old_entries)[i] == st.entries[i]);
                    }
                }
            }
            assert(features@ =~= st2.features);
            assert forall|i: int| 0 <= i <= nblocks implies (pending@[i] <==> st2.pending.contains(i as nat)) by {
                if pending@[i] {
                    if !rest.contains(i as nat) {
                        let m = choose|m: int| 0 <= m < br.len() && br[m] as nat == i;
                        assert(spec_id_set(br).contains(i as nat));
                    }
                } else if spec_id_set(br).contains(i as nat) {
                    let m = choose|m: int| 0 <= m < br.len() && br[m] as nat == i;
                }
            }
            assert forall|i: nat| st2.pending.contains(i) implies i <= nblocks by {
                if spec_id_set(br).contains(i) {
                    let m = choose|m: int| 0 <= m < br.len() && br[m] as nat == i;
                }
            }
            assert forall|i: int, k2: int| 0 <= i < j + 1 && 0 <= k2 < st2.entries[i].branches.len() implies {
                let t = #[trigger] st2.entries[i].branches[k2] as nat;
                &&& i <= t <= nblocks
                &&& (t == i || t >= j + 1 ==> st2.pending.contains(t))
            } by {
                let t = st2.entries[i].branches[k2] as nat;
                if i < j {
                    assert(st2.entries[i] == st.entries[i]);
                    if t == i || t >= j + 1 {
                        assert(st.pending.contains(t));
                        assert(t != j);
                        assert(rest.contains(t));
                    }
                } else {
                    assert(st2.entries[i].branches == br);
                    assert(spec_id_set(br).contains(t));
                }
            }
            ws = ws + (we + ce);
            st = st2;
        }
        j = j + 1;
        assert(warnings@ =~= start + ws);
    }
    let mut t: usize = 0;
    while t <= nblocks
        invariant
            t <= nblocks + 1,
            nblocks < usize::MAX,
            nblocks == blocks@.len(),
            pending@.len() == nblocks + 1,
            forall|i: int| 0 <= i < t ==> !pending@[i],
            forall|i: int| 0 <= i <= nblocks ==> (pending@[i] <==> st.pending.contains(i as nat)),
            spec_link(views, *options, nblocks as nat) == LinkStep::Next(ws, st),
            views == spec_blocks_view(blocks@),
            views.len() == nblocks,
            nblocks > 0,
            desc_size > 0,
            !(spec_link_all(views, *options, desc_size as nat) is Panic),
        decreases nblocks + 1 - t,
    {
        if pending[t] {
            proof {
                assert(st.pending.contains(t as nat));
                assert(spec_link_all(views, *options, desc_size as nat) is Panic);
            }
            return vstd::pervasive::unreached();
        }
        t = t + 1;
    }
    proof {
        assert(st.pending =~= Set::<nat>::empty()) by {
            assert forall|i: nat| !st.pending.contains(i) by {
                if st.pending.contains(i) {
                    assert(!pending@[i as int]);
                }
            }
        }
        if nblocks == 0 {
            assert(!pending@[0]);
            assert(st.pending.contains(0nat));
        }
        assert forall|i: int, k: int| 0 <= i < st.entries.len() && 0 <= k < st.entries[i].branches.len() implies
            i < #[trigger] st.entries[i].branches[k] < st.entries.len() by {
            let t = st.entries[i].branches[k] as nat;
            if t == i || t >= nblocks {
                assert(st.pending.contains(t));
            }
        }
    }
    Ok((entries, features))
}

/// `node` is the tree built from block `j` of `entries`: the node has the
/// block's first word id and child count, and one subtree for each branch
/// child, in order
pub open spec fn tree_matches(node: Node, entries: Seq<LinkEntry>, j: nat) -> bool
    decreases node,
{
    &&& j < entries.len()
    &&& node.base == entries[j as int].base
    &&& node.n == entries[j as int].n
    &&& match node.children {
        None => entries[j as int].branches.len() == 0,
        Some(ch) => {
            &&& entries[j as int].branches.len() > 0
            &&& ch@.len() == entries[j as int].branches.len()
            &&& forall|i: int| 0 <= i < ch@.len() ==> tree_matches(#[trigger] ch@[i], entries, entries[j as int].branches[i] as nat)
        },
    }
}

/// Build the subtree of block `j`
pub fn build_node(entries: &Vec<BlockEntry>, j: usize) -> (node: Node)
    requires
        j < entries@.len(),
        entries_ordered(spec_entries_view(entries@)),
    ensures
        tree_matches(node, spec_entries_view(entries@), j as nat),
    decreases entries@.len() - j,
{
    let ghost ev = spec_entries_view(entries@);
    let e = &entries[j];
    assert(ev[j as int] == LinkEntry { base: e.base as nat, n: e.n as nat, branches: e.branches@ });
    if e.branches.len() == 0 {
        return Node { base: e.base, n: e.n, children: None };
    }
    let mut children: Vec<Node> = Vec::with_capacity(e.branches.len());
    let mut i: usize = 0;
    while i < e.branches.len()
        invariant
            i <= e.branches@.len(),
            j < entries@.len(),
            ev == spec_entries_view(entries@),
            entries_ordered(ev),
            ev[j as int].branches == e.branches@,
            children@.len() == i,
            forall|k: int| 0 <= k < i ==> tree_matches(#[trigger] children@[k], ev, e.branches@[k] as nat),
        decreases e.branches@.len() - i,
    {
        let t = e.branches[i] as usize;
        assert(j < ev[j as int].branches[i as int] < ev.len());
        let child = build_node(entries, t);
        children.push(child);
        i = i + 1;
    }
    Node { base: e.base, n: e.n, children: Some(children) }
}

/// Building the tree from the blocks of a file of `f32` features: the
/// descriptors must have bytes and the root block must be there, and its
/// children cannot be stored (the features hold a quarter of the elements
/// that the storage, made for the header's descriptor size, expects), so no
/// second block is ever referred to
pub open spec fn spec_link_f32(blocks: Seq<BlockView>, options: ReadFbowOptions, desc_size: nat) -> LinkStep {
    if desc_size == 0 {
        LinkStep::Fail(Seq::empty(), FormatError::EmptyDescriptor)
    } else if blocks.len() == 0 {
        LinkStep::Fail(Seq::empty(), FormatError::MissingBlock(0))
    } else {
        let w0 = spec_emit(spec_weight_events(blocks[0].children, 0, options.invalid_weight));
        if w0.1 is Some {
            LinkStep::Fail(w0.0, FormatError::Rejected(w0.1->Some_0))
        } else if blocks[0].children.len() > 0 {
            LinkStep::Fail(w0.0, FormatError::UnsupportedFloatTree)
        } else if blocks.len() == 1 {
            LinkStep::Next(w0.0, LinkState {
                next_id: 0,
                pending: Set::empty(),
                entries: seq![LinkEntry { base: 0, n: 0, branches: Seq::empty() }],
                features: Seq::empty(),
            })
        } else {
            let w1 = spec_emit(spec_weight_events(blocks[1].children, 1, options.invalid_weight));
            if w1.1 is Some {
                LinkStep::Fail(w0.0 + w1.0, FormatError::Rejected(w1.1->Some_0))
            } else {
                LinkStep::Fail(w0.0 + w1.0, FormatError::MissingBlock(1))
            }
        }
    }
}

/// Check the blocks of a file of `f32` features, which can only hold an
/// empty root
fn link_f32(blocks: &Vec<Block>, desc_size: usize, options: &ReadFbowOptions, warnings: &mut Vec<ParseWarning>) -> (r: Result<(), FormatError>)
    ensures
        !(spec_link_f32(spec_blocks_view(blocks@), *options, desc_size as nat) is Panic),
        match spec_link_f32(spec_blocks_view(blocks@), *options, desc_size as nat) {
            LinkStep::Next(ws, st) => r is Ok && final(warnings)@ == old(warnings)@ + ws,
            LinkStep::Fail(ws, e) => r == Err::<(), FormatError>(e) && final(warnings)@ == old(warnings)@ + ws,
            LinkStep::Panic => true,
        },
{
    let ghost views = spec_blocks_view(blocks@);
    if desc_size == 0 {
        assert(warnings@ =~= old(warnings)@ + Seq::<ParseWarning>::empty());
        return Err(FormatError::EmptyDescriptor);
    }
    if blocks.len() == 0 {
        assert(warnings@ =~= old(warnings)@ + Seq::<ParseWarning>::empty());
        return Err(FormatError::MissingBlock(0));
    }
    assert(views[0] == blocks@[0]@);
    check_weights(&blocks[0].children, 0, options.invalid_weight, warnings)?;
    if blocks[0].children.len() > 0 {
        return Err(FormatError::UnsupportedFloatTree);
    }
    if blocks.len() == 1 {
        return Ok(());
    }
    assert(views[1] == blocks@[1]@);
    let ghost mid = warnings@;
    let r = check_weights(&blocks[1].children, 1, options.invalid_weight, warnings);
    assert(warnings@ =~= old(warnings)@ + (spec_emit(spec_weight_events(views[0].children, 0, options.invalid_weight)).0
        + spec_emit(spec_weight_events(views[1].children, 1, options.invalid_weight)).0));
    r?;
    Err(FormatError::MissingBlock(1))
}

/// What reading an FBOW vocabulary gives: its header, and the tree built
/// from its blocks
pub struct FbowRead {
    pub header: FbowParamsView,
    pub link: LinkState,
}

/// Building the tree from the blocks read, by descriptor type
pub open spec fn spec_link_typed(blocks: Seq<BlockView>, options: ReadFbowOptions, h: FbowParamsView) -> LinkStep {
    match h.desc_type {
        DescriptorType::Uint8 => spec_link_all(blocks, options, h.desc_size as nat),
        DescriptorType::Float32 => spec_link_f32(blocks, options, h.desc_size as nat),
    }
}

/// Reading an FBOW vocabulary at `pos` (after its signature): the warnings
/// reported, and what was read or the error
pub open spec fn spec_read_fbow(src: Seq<u8>, pos: int, options: ReadFbowOptions) -> (Seq<ParseWarning>, Result<FbowRead, FormatError>) {
    let hd = spec_header(src, pos, options);
    match hd.1 {
        Err(e) => (hd.0, Err(e)),
        Ok(h) => {
            let bl = spec_blocks(src, pos + FBOW_HEADER_LEN, h, options, h.nblocks as nat);
            match bl.1 {
                Err(e) => (hd.0 + bl.0, Err(e)),
                Ok(blocks) => match spec_link_typed(blocks, options, h) {
                    LinkStep::Next(ws, st) => (hd.0 + bl.0 + ws, Ok(FbowRead { header: h, link: st })),
                    LinkStep::Fail(ws, e) => (hd.0 + bl.0 + ws, Err(e)),
                    LinkStep::Panic => (hd.0 + bl.0, Err(FormatError::UnexpectedEof)),
                },
            }
        },
    }
}

/// Reading an FBOW vocabulary at `pos` panics
pub open spec fn spec_read_fbow_panics(src: Seq<u8>, pos: int, options: ReadFbowOptions) -> bool {
    match spec_header(src, pos, options).1 {
        Ok(h) => match spec_blocks(src, pos + FBOW_HEADER_LEN, h, options, h.nblocks as nat).1 {
            Ok(blocks) => spec_link_typed(blocks, options, h) is Panic,
            Err(_) => false,
        },
        Err(_) => false,
    }
}

/// `v` is the vocabulary made of what was read: the header's name (cut to
/// 49 bytes), descriptor type and size, `k` and number of blocks; the tree built from block 0;
/// and the features stored
pub open spec fn vocabulary_matches(v: Vocabulary, r: FbowRead) -> bool {
    &&& v.params.wf()
    &&& v.params@ == (ParamsView {
        name: truncated_name(r.header.name),
        alignment: 0,
        nblocks: r.header.nblocks,
        total_size: 0,
        desc_type: r.header.desc_type,
        desc_size: r.header.desc_size as nat,
        m_k: r.header.m_k,
    })
    &&& tree_matches(v.root, r.link.entries, 0)
    &&& v.features.wf()
    &&& v.features.spec_desc_type() == r.header.desc_type
    &&& v.features.spec_feature_len() == r.header.desc_size
    &&& match v.features {
        FeaturesGeneric::Uint8(f) => f@ == r.link.features,
        FeaturesGeneric::Float32(f) => f@.len() == 0,
    }
}

/// Once reading the blocks fails, it stays failed
proof fn lemma_blocks_stopped(src: Seq<u8>, start: int, h: FbowParamsView, options: ReadFbowOptions, k: nat, m: nat)
    requires
        k <= m,
        spec_blocks(src, start, h, options, k).1 is Err,
    ensures
        spec_blocks(src, start, h, options, m) == spec_blocks(src, start, h, options, k),
    decreases m - k,
{
    if k < m {
        lemma_blocks_stopped(src, start, h, options, k, (m - 1) as nat);
    }
}


impl Vocabulary {
    /// Read an FBOW vocabulary at `*pos` (after its signature), reporting
    /// irregularities as `options` says
    pub fn read_fbow(src: &[u8], pos: &mut usize, options: &ReadFbowOptions, warnings: &mut Vec<ParseWarning>) -> (r: Result<Vocabulary, FormatError>)
        ensures
            final(warnings)@ == old(warnings)@ + spec_read_fbow(src@, *old(pos) as int, *options).0,
            match spec_read_fbow(src@, *old(pos) as int, *options).1 {
                Ok(fr) => r is Ok && vocabulary_matches(r->Ok_0, fr),
                Err(e) => r == Err::<Vocabulary, FormatError>(e),
            },
    {
        proof {
            lemma_read_fbow_total(src@, *pos as int, *options);
        }
        let ghost start = *pos as int;
        let ghost s = src@;
        let params = FbowParams::read_from(src, pos, options, warnings)?;
        let ghost h = params@;
        let ghost hw = spec_header(s, start, *options).0;
        let ghost body = start + FBOW_HEADER_LEN;
        let nblocks = params.nblocks;
        let mut blocks: Vec<Block> = Vec::new();
        let mut bi: u32 = 0;
        let ghost mut at: int = body;
        assert(spec_blocks_view(blocks@) =~= Seq::<BlockView>::empty());
        while bi < nblocks
            invariant
                bi <= nblocks,
                nblocks == h.nblocks,
                h == params@,
                s == src@,
                start == *old(pos) as int,
                body == start + FBOW_HEADER_LEN,
                spec_header(s, start, *options).1 == Ok::<FbowParamsView, FormatError>(h),
                hw == spec_header(s, start, *options).0,
                !spec_read_fbow_panics(s, start, *options),
                spec_blocks(s, body, h, *options, bi as nat).1 == Ok::<Seq<BlockView>, FormatError>(spec_blocks_view(blocks@)),
                warnings@ == old(warnings)@ + hw + spec_blocks(s, body, h, *options, bi as nat).0,
                at == body + bi * h.block_size_bytes_wp,
                *pos == at,
                at <= s.len(),
                forall|i: int| 0 <= i < blocks@.len() ==> features_have_len((#[trigger] blocks@[i])@.children, h.desc_size as nat),
                blocks@.len() == bi,
            decreases nblocks - bi,
        {
            let remaining = src.len() - *pos;
            if params.block_size_bytes_wp > remaining as u64 {
                proof {
                    assert(body + ((bi + 1) as nat - 1) * h.block_size_bytes_wp == at);
                    assert(spec_blocks(s, body, h, *options, (bi + 1) as nat) == (spec_blocks(s, body, h, *options, bi as nat).0,
                        Err::<Seq<BlockView>, FormatError>(FormatError::UnexpectedEof)));
                    lemma_blocks_stopped(s, body, h, *options, (bi + 1) as nat, nblocks as nat);
                    assert(warnings@ =~= old(warnings)@ + hw + spec_blocks(s, body, h, *options, (bi + 1) as nat).0);
                }
                return Err(FormatError::UnexpectedEof);
            }
            let bs = params.block_size_bytes_wp as usize;
            let data = vstd::slice::slice_subrange(src, *pos, *pos + bs);
            let ghost before = warnings@;
            let parsed = Block::parse(data, bi, &params, options, warnings);
            let b = match parsed {
                Ok(b) => b,
                Err(e) => {
                    proof {
                        lemma_blocks_stopped(s, body, h, *options, (bi + 1) as nat, nblocks as nat);
                        assert(warnings@ =~= old(warnings)@ + hw + spec_blocks(s, body, h, *options, (bi + 1) as nat).0);
                    }
                    return Err(e);
                },
            };
            *pos = *pos + bs;
            let ghost old_blocks = blocks@;
            blocks.push(b);
            bi = bi + 1;
            proof {
                at = at + h.block_size_bytes_wp;
                assert(at == body + bi * h.block_size_bytes_wp) by (nonlinear_arith)
                    requires
                        at == body + (bi - 1) * h.block_size_bytes_wp + h.block_size_bytes_wp;
                assert(spec_blocks_view(blocks@) =~= spec_blocks_view(old_blocks).push(b@));
                assert(warnings@ =~= old(warnings)@ + hw + spec_blocks(s, body, h, *options, bi as nat).0);
            }
        }
        let ghost views = spec_blocks_view(blocks@);
        proof {
            assert(views.len() == nblocks);
        }
        let mut vp = VocabularyParams::empty();
        vp.set_name(name50_as_str(&params.desc_name));
        vp.desc_type = params.desc_type;
        vp.m_k = params.m_k;
        vp.desc_size = params.desc_size as usize;
        vp.nblocks = params.nblocks;
        match params.desc_type {
            DescriptorType::Uint8 => {
                if blocks.len() >= usize::MAX {
                    proof {
                        assert(h.block_size_bytes_wp >= 1);
                        assert(blocks@.len() < usize::MAX) by (nonlinear_arith)
                            requires
                                at == body + blocks@.len() * h.block_size_bytes_wp,
                                at <= usize::MAX,
                                body >= 1,
                                h.block_size_bytes_wp >= 1;
                    }
                    return vstd::pervasive::unreached();
                }
                let linked = link_u8(&blocks, params.desc_size as usize, options, warnings);
                let (entries, features) = match linked {
                    Ok(v) => v,
                    Err(e) => {
                        assert(warnings@ =~= old(warnings)@ + spec_read_fbow(s, start, *options).0);
                        return Err(e);
                    },
                };
                let root = build_node(&entries, 0);
                assert(warnings@ =~= old(warnings)@ + spec_read_fbow(s, start, *options).0);
                Ok(Vocabulary { params: vp, root, features: FeaturesGeneric::Uint8(features) })
            },
            DescriptorType::Float32 => {
                let linked = link_f32(&blocks, params.desc_size as usize, options, warnings);
                match linked {
                    Ok(()) => {},
                    Err(e) => {
                        assert(warnings@ =~= old(warnings)@ + spec_read_fbow(s, start, *options).0);
                        return Err(e);
                    },
                }
                let features = FeaturesF32::new(nblocks as usize, params.desc_size as usize);
                let root = Node { base: 0, n: 0, children: None };
                assert(warnings@ =~= old(warnings)@ + spec_read_fbow(s, start, *options).0);
                Ok(Vocabulary { params: vp, root, features: FeaturesGeneric::Float32(features) })
            },
        }
    }
}

/// Every check of `o` has the mode `m`
pub open spec fn all_checks(o: ReadFbowOptions, m: ParseValidationMode) -> bool {
    &&& o.invalid_name == m
    &&& o.nonzero_padding == m
    &&& o.too_many_children == m
    &&& o.inconsistent_block == m
    &&& o.invalid_weight == m
    &&& o.block_cycle == m
    &&& o.invalid_child == m
}

/// The result is no rejection of an irregularity
pub open spec fn not_rejected<T>(r: Result<T, FormatError>) -> bool {
    !(r matches Err(FormatError::Rejected(_)))
}

/// Irregularities all checked under one mode `m`: unless warned about, none
/// is reported; unless strict, none is rejected
proof fn lemma_emit_uniform(events: Seq<(ParseWarning, ParseValidationMode)>, m: ParseValidationMode)
    requires
        forall|i: int| 0 <= i < events.len() ==> (#[trigger] events[i]).1 == m,
    ensures
        m != ParseValidationMode::Warn ==> spec_emit(events).0 == Seq::<ParseWarning>::empty(),
        m != ParseValidationMode::Strict ==> spec_emit(events).1 is None,
    decreases events.len(),
{
    if events.len() > 0 {
        assert forall|i: int| 0 <= i < events.drop_first().len() implies (#[trigger] events.drop_first()[i]).1 == m by {
            assert(events.drop_first()[i] == events[i + 1]);
        }
        lemma_emit_uniform(events.drop_first(), m);
        assert(events[0].1 == m);
    }
}

/// The outcome of irregularities all checked under one mode
proof fn lemma_outcome_uniform<T>(events: Seq<(ParseWarning, ParseValidationMode)>, ok: T, m: ParseValidationMode)
    requires
        forall|i: int| 0 <= i < events.len() ==> (#[trigger] events[i]).1 == m,
    ensures
        m != ParseValidationMode::Warn ==> spec_outcome(events, ok).0 == Seq::<ParseWarning>::empty(),
        m != ParseValidationMode::Strict ==> spec_outcome(events, ok).1 == Ok::<T, FormatError>(ok),
{
    lemma_emit_uniform(events, m);
}

/// The irregular references of a block are checked under the modes for
/// references out of bounds and back to earlier blocks
proof fn lemma_child_events_uniform(cs: Seq<(u32, u32, Seq<u8>)>, b: nat, nb: nat, o: ReadFbowOptions, m: ParseValidationMode)
    requires
        all_checks(o, m),
    ensures
        forall|i: int| 0 <= i < spec_child_events(cs, b, nb, o).len() ==> (#[trigger] spec_child_events(cs, b, nb, o)[i]).1 == m,
    decreases cs.len(),
{
    if cs.len() > 0 {
        lemma_child_events_uniform(cs.drop_last(), b, nb, o, m);
    }
}

/// Reading blocks with every check under one mode
proof fn lemma_blocks_uniform(src: Seq<u8>, start: int, h: FbowParamsView, o: ReadFbowOptions, m: ParseValidationMode, count: nat)
    requires
        all_checks(o, m),
    ensures
        m != ParseValidationMode::Warn ==> spec_blocks(src, start, h, o, count).0 == Seq::<ParseWarning>::empty(),
        m != ParseValidationMode::Strict ==> not_rejected(spec_blocks(src, start, h, o, count).1),
    decreases count,
{
    if count > 0 {
        lemma_blocks_uniform(src, start, h, o, m, (count - 1) as nat);
        let at = start + (count - 1) * h.block_size_bytes_wp;
        if spec_blocks(src, start, h, o, (count - 1) as nat).1 is Ok && at + h.block_size_bytes_wp <= src.len() {
            let b = src.subrange(at, at + h.block_size_bytes_wp).take(BLOCK_HEADER_LEN as int);
            let raw_n = u16_at(b, 0) as u32;
            let raw_leaf = u16_at(b, 2);
            let too_many = if raw_n > h.m_k {
                seq![(ParseWarning::TooManyChildren { block: (count - 1) as u32, n: raw_n, k: h.m_k }, o.too_many_children)]
            } else {
                Seq::empty()
            };
            let bad_leaf = if raw_leaf > 1 {
                seq![(ParseWarning::InvalidLeafFlag { value: raw_leaf }, o.inconsistent_block)]
            } else {
                Seq::empty()
            };
            let events = too_many + bad_leaf;
            assert forall|i: int| 0 <= i < events.len() implies (#[trigger] events[i]).1 == m by {
                if i < too_many.len() {
                    assert(events[i] == too_many[i]);
                } else {
                    assert(events[i] == bad_leaf[i - too_many.len()]);
                }
            }
            lemma_outcome_uniform(events, (if raw_n > h.m_k { h.m_k } else { raw_n }, raw_leaf != 0, u32_at(b, 4)), m);
            assert(spec_blocks(src, start, h, o, (count - 1) as nat).0 + Seq::<ParseWarning>::empty()
                =~= spec_blocks(src, start, h, o, (count - 1) as nat).0);
        }
    }
}

/// The warnings of a step of building the tree
pub open spec fn step_warnings(step: LinkStep) -> Seq<ParseWarning> {
    match step {
        LinkStep::Next(ws, _) => ws,
        LinkStep::Fail(ws, _) => ws,
        LinkStep::Panic => Seq::empty(),
    }
}

/// Building the tree with every check under one mode: unless warned about,
/// no irregularity is reported; unless strict, building fails on none
proof fn lemma_link_uniform(blocks: Seq<BlockView>, o: ReadFbowOptions, m: ParseValidationMode, count: nat)
    requires
        all_checks(o, m),
    ensures
        m != ParseValidationMode::Warn ==> step_warnings(spec_link(blocks, o, count)) == Seq::<ParseWarning>::empty(),
        m != ParseValidationMode::Strict ==> !(spec_link(blocks, o, count) matches LinkStep::Fail(_, FormatError::Rejected(_))),
    decreases count,
{
    if count > 0 {
        lemma_link_uniform(blocks, o, m, (count - 1) as nat);
        if let LinkStep::Next(ws, st) = spec_link(blocks, o, (count - 1) as nat) {
            let j = (count - 1) as nat;
            let blk = blocks[count - 1];
            lemma_weight_events_mode(blk.children, j as u32, o.invalid_weight);
            lemma_emit_uniform(spec_weight_events(blk.children, j as u32, o.invalid_weight), m);
            lemma_child_events_uniform(blk.children, j, blocks.len(), o, m);
            lemma_emit_uniform(spec_child_events(blk.children, j, blocks.len(), o), m);
            assert(Seq::<ParseWarning>::empty() + Seq::<ParseWarning>::empty() =~= Seq::<ParseWarning>::empty());
            assert(Seq::<ParseWarning>::empty() + (Seq::<ParseWarning>::empty() + Seq::<ParseWarning>::empty()) =~= Seq::<ParseWarning>::empty());
        }
    }
}

/// Reading an FBOW vocabulary with every check under one mode `m`: unless
/// warned about, no irregularity is reported; unless strict, reading fails
/// on none
pub proof fn lemma_read_fbow_uniform(src: Seq<u8>, pos: int, o: ReadFbowOptions, m: ParseValidationMode)
    requires
        all_checks(o, m),
    ensures
        m != ParseValidationMode::Warn ==> spec_read_fbow(src, pos, o).0 == Seq::<ParseWarning>::empty(),
        m != ParseValidationMode::Strict ==> not_rejected(spec_read_fbow(src, pos, o).1),
{
    let e = Seq::<ParseWarning>::empty();
    if pos + 50 <= src.len() {
        let b = src.subrange(pos, pos + 50);
        lemma_outcome_uniform(seq![(ParseWarning::InvalidName, m)], Seq::<char>::empty(), m);
        lemma_outcome_uniform(seq![(ParseWarning::NameNotTerminated, m)], decode_utf8(b), m);
        lemma_outcome_uniform(seq![(ParseWarning::NameNotTerminated, m), (ParseWarning::InvalidName, m)], Seq::<char>::empty(), m);
        lemma_outcome_uniform(seq![(ParseWarning::NonzeroPadding { offset: 50 }, m)], (), m);
        lemma_outcome_uniform(seq![(ParseWarning::NonzeroPadding { offset: 60 }, m)], (), m);
        lemma_outcome_uniform(seq![(ParseWarning::NonzeroPadding { offset: 116 }, m)], (), m);
        assert(e + e =~= e);
        assert(e + e + e =~= e);
        assert(e + e + e + e =~= e);
    }
    let hd = spec_header(src, pos, o);
    if let Ok(h) = hd.1 {
        let start = pos + FBOW_HEADER_LEN;
        lemma_blocks_uniform(src, start, h, o, m, h.nblocks as nat);
        let bl = spec_blocks(src, start, h, o, h.nblocks as nat);
        if let Ok(blocks) = bl.1 {
            match h.desc_type {
                DescriptorType::Uint8 => {
                    lemma_link_uniform(blocks, o, m, blocks.len());
                },
                DescriptorType::Float32 => {
                    if blocks.len() > 0 {
                        lemma_weight_events_mode(blocks[0].children, 0, o.invalid_weight);
                        lemma_emit_uniform(spec_weight_events(blocks[0].children, 0, o.invalid_weight), m);
                        if blocks.len() > 1 {
                            lemma_weight_events_mode(blocks[1].children, 1, o.invalid_weight);
                            lemma_emit_uniform(spec_weight_events(blocks[1].children, 1, o.invalid_weight), m);
                        }
                    }
                },
            }
            assert(e + e + e =~= e);
            assert(e + e =~= e);
        }
        assert(e + e =~= e);
    }
}

} // verus!
