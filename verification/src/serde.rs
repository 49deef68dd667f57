//! Little-endian encoding of the integers that the file formats are made of
use vstd::prelude::*;
use vstd::bytes::*;

verus! {

/// Errors while encoding or decoding the binary formats
#[derive(Clone, Copy, Debug, PartialEq, Eq, Structural)]
pub enum FormatError {
    /// The input ended before the value was complete
    UnexpectedEof,
    /// A length does not fit in the 32 bits that the format gives it
    ValueOverflow,
    /// A descriptor type code that is neither 0 (`u8`) nor 5 (`f32`)
    InvalidDescriptorType(u32),
    /// The file starts with an unknown signature
    InvalidSignature(u64),
    /// A name is not valid UTF-8
    InvalidUtf8,
    /// FBOW header: the number of blocks times the block size is not the total size
    InconsistentTotalSize,
    /// FBOW header: the padded descriptor size is not a multiple of the alignment
    MisalignedDescriptor,
    /// FBOW header: the padded descriptor size is smaller than a block header
    DescriptorTooSmall,
    /// FBOW header: the features do not start between the block header and the block end
    InvalidFeatureOffset,
    /// FBOW header: the children do not start between the features and the block end
    InvalidChildOffset,
    /// FBOW block: its children's information or features run past its end,
    /// the padded feature size is zero, or a feature is longer than its padding
    InvalidBlockLayout,
    /// FBOW: the descriptors have zero bytes
    EmptyDescriptor,
    /// FBOW: the blocks hold more words than 32-bit ids can number
    TooManyWords,
    /// FBOW: block `b` refers to a block that an earlier child already refers to
    RepeatedReference(u32),
    /// FBOW: the root of a vocabulary of `f32` features has children, which
    /// cannot be stored
    UnsupportedFloatTree,
    /// An irregularity that the read options make an error
    Rejected(crate::vocabulary::options::ParseWarning),
    /// A block that no earlier block refers to
    MissingBlock(u32),
    /// A descriptor byte length that is not a multiple of the element size
    InvalidChunkSize,
    /// A database file that does not start with the database signature
    DatabaseHeaderMismatch,
    /// A flag byte that is neither 0 nor 1
    InvalidFlag(u8),
    /// A bag of words that lists a word twice
    DuplicateKey(u32),
}

/// Write an `u32` as 4 little-endian bytes
pub fn write_u32(value: u32, dst: &mut Vec<u8>)
    ensures
        final(dst)@ == old(dst)@ + spec_u32_to_le_bytes(value),
{
    let bytes = u32_to_le_bytes(value);
    let mut i: usize = 0;
    let ghost start = dst@;
    while i < bytes.len()
        invariant
            i <= bytes@.len(),
            bytes@ == spec_u32_to_le_bytes(value),
            dst@ == start + bytes@.take(i as int),
        decreases bytes@.len() - i,
    {
        dst.push(bytes[i]);
        i = i + 1;
        assert(bytes@.take(i as int) == bytes@.take(i - 1) + seq![bytes@[i - 1]]);
    }
    assert(bytes@.take(i as int) == bytes@);
}

/// Write an `u64` as 8 little-endian bytes
pub fn write_u64(value: u64, dst: &mut Vec<u8>)
    ensures
        final(dst)@ == old(dst)@ + spec_u64_to_le_bytes(value),
{
    let bytes = u64_to_le_bytes(value);
    let mut i: usize = 0;
    let ghost start = dst@;
    while i < bytes.len()
        invariant
            i <= bytes@.len(),
            bytes@ == spec_u64_to_le_bytes(value),
            dst@ == start + bytes@.take(i as int),
        decreases bytes@.len() - i,
    {
        dst.push(bytes[i]);
        i = i + 1;
        assert(bytes@.take(i as int) == bytes@.take(i - 1) + seq![bytes@[i - 1]]);
    }
    assert(bytes@.take(i as int) == bytes@);
}

/// Write an `usize` as 4 little-endian bytes; fails if it does not fit in 32 bits
pub fn write_u32ish(value: usize, dst: &mut Vec<u8>) -> (res: Result<(), FormatError>)
    ensures
        value <= u32::MAX ==> res is Ok && final(dst)@ == old(dst)@ + spec_u32_to_le_bytes(value as u32),
        value > u32::MAX ==> res == Err::<(), FormatError>(FormatError::ValueOverflow) && final(dst)@ == old(dst)@,
{
    if value > 0xffff_ffffusize {
        Err(FormatError::ValueOverflow)
    } else {
        write_u32(value as u32, dst);
        Ok(())
    }
}

/// Append bytes
pub fn write_bytes(bytes: &[u8], dst: &mut Vec<u8>)
    ensures
        final(dst)@ == old(dst)@ + bytes@,
{
    let mut i: usize = 0;
    let ghost start = dst@;
    while i < bytes.len()
        invariant
            i <= bytes@.len(),
            dst@ == start + bytes@.take(i as int),
        decreases bytes@.len() - i,
    {
        dst.push(bytes[i]);
        i = i + 1;
        assert(bytes@.take(i as int) == bytes@.take(i - 1) + seq![bytes@[i - 1]]);
    }
    assert(bytes@.take(i as int) == bytes@);
}

/// Bytes `pos..pos+n` of `src`
pub open spec fn spec_window(src: Seq<u8>, pos: int, n: int) -> Seq<u8> {
    src.subrange(pos, pos + n)
}

/// The little-endian `u32` at byte `at` of `src`
pub open spec fn u32_at(src: Seq<u8>, at: int) -> u32 {
    spec_u32_from_le_bytes(spec_window(src, at, 4))
}

/// Read `n` bytes from `src` at `*pos`, advancing `*pos`
pub fn read_bytes(src: &[u8], pos: &mut usize, n: usize) -> (res: Result<Vec<u8>, FormatError>)
    ensures
        *old(pos) + n <= src@.len() ==> res is Ok && res->Ok_0@ == spec_window(src@, *old(pos) as int, n as int)
            && *final(pos) == *old(pos) + n,
        *old(pos) + n > src@.len() ==> res == Err::<Vec<u8>, FormatError>(FormatError::UnexpectedEof)
            && *final(pos) == *old(pos),
{
    if n > src.len() || *pos > src.len() - n {
        return Err(FormatError::UnexpectedEof);
    }
    let start = *pos;
    let mut out: Vec<u8> = Vec::with_capacity(n);
    let mut i: usize = 0;
    while i < n
        invariant
            i <= n,
            start + n <= src@.len(),
            src@.len() == src.len(),
            out@ == src@.subrange(start as int, start + i),
        decreases n - i,
    {
        out.push(src[start + i]);
        i = i + 1;
        assert(out@ == src@.subrange(start as int, start + i));
    }
    *pos = start + n;
    Ok(out)
}

/// Read a little-endian `u16`
pub fn read_u16(src: &[u8], pos: &mut usize) -> (res: Result<u16, FormatError>)
    ensures
        *old(pos) + 2 <= src@.len() ==> res == Ok::<u16, FormatError>(spec_u16_from_le_bytes(spec_window(src@, *old(pos) as int, 2)))
            && *final(pos) == *old(pos) + 2,
        *old(pos) + 2 > src@.len() ==> res == Err::<u16, FormatError>(FormatError::UnexpectedEof) && *final(pos) == *old(pos),
{
    let bytes = read_bytes(src, pos, 2)?;
    Ok(u16_from_le_bytes(bytes.as_slice()))
}

/// Read a little-endian `u32`
pub fn read_u32(src: &[u8], pos: &mut usize) -> (res: Result<u32, FormatError>)
    ensures
        *old(pos) + 4 <= src@.len() ==> res == Ok::<u32, FormatError>(spec_u32_from_le_bytes(spec_window(src@, *old(pos) as int, 4)))
            && *final(pos) == *old(pos) + 4,
        *old(pos) + 4 > src@.len() ==> res == Err::<u32, FormatError>(FormatError::UnexpectedEof) && *final(pos) == *old(pos),
{
    let bytes = read_bytes(src, pos, 4)?;
    Ok(u32_from_le_bytes(bytes.as_slice()))
}

/// Read a little-endian `u64`
pub fn read_u64(src: &[u8], pos: &mut usize) -> (res: Result<u64, FormatError>)
    ensures
        *old(pos) + 8 <= src@.len() ==> res == Ok::<u64, FormatError>(spec_u64_from_le_bytes(spec_window(src@, *old(pos) as int, 8)))
            && *final(pos) == *old(pos) + 8,
        *old(pos) + 8 > src@.len() ==> res == Err::<u64, FormatError>(FormatError::UnexpectedEof) && *final(pos) == *old(pos),
{
    let bytes = read_bytes(src, pos, 8)?;
    Ok(u64_from_le_bytes(bytes.as_slice()))
}

/// Read a little-endian `u32` as an `usize`
pub fn read_u32ish(src: &[u8], pos: &mut usize) -> (res: Result<usize, FormatError>)
    ensures
        *old(pos) + 4 <= src@.len() ==> res is Ok && res->Ok_0 == spec_u32_from_le_bytes(spec_window(src@, *old(pos) as int, 4))
            && *final(pos) == *old(pos) + 4,
        *old(pos) + 4 > src@.len() ==> res == Err::<usize, FormatError>(FormatError::UnexpectedEof) && *final(pos) == *old(pos),
{
    let raw = read_u32(src, pos)?;
    Ok(raw as usize)
}

/// Reading back what `write_u32` wrote gives the value written
pub proof fn lemma_u32_roundtrip(value: u32)
    ensures
        spec_u32_to_le_bytes(value).len() == 4,
        spec_u32_from_le_bytes(spec_u32_to_le_bytes(value)) == value,
{
    lemma_auto_spec_u32_to_from_le_bytes();
    assert(spec_u32_to_le_bytes(value).len() == 4);
}

/// Reading back what `write_u64` wrote gives the value written
pub proof fn lemma_u64_roundtrip(value: u64)
    ensures
        spec_u64_to_le_bytes(value).len() == 8,
        spec_u64_from_le_bytes(spec_u64_to_le_bytes(value)) == value,
{
    lemma_auto_spec_u64_to_from_le_bytes();
    assert(spec_u64_to_le_bytes(value).len() == 8);
}

/// Write to a byte buffer
pub trait Serialize {
    /// Append the encoding of `self` to `dst`
    fn write_to(&self, dst: &mut Vec<u8>) -> Result<(), FormatError>;
}

/// Read from a byte buffer
pub trait Deserialize: Sized {
    /// The inputs on which reading does not panic
    spec fn spec_readable(src: Seq<u8>, pos: int) -> bool;

    /// Decode a value from `src` at `*pos`, advancing `*pos` past it
    fn read_from(src: &[u8], pos: &mut usize) -> Result<Self, FormatError>
        requires
            Self::spec_readable(src@, *old(pos) as int),
    ;
}

/// A type that can hash itself
pub trait SelfHash {
    /// Returns an identifying hash
    fn hash(&self) -> u64;
}

} // verus!
