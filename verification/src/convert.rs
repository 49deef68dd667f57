//! Helpers for converting byte slices into sequences of little-endian values
use vstd::prelude::*;
use vstd::bytes::*;

verus! {

/// Error from [`convert_le`] when the slice length is not a multiple of the target type size
#[derive(Clone, Copy, Debug, PartialEq, Eq, Structural)]
pub struct InvalidChunkSizeError;

/// The `i`-th chunk of `width` bytes of `src`
pub open spec fn spec_chunk(src: Seq<u8>, width: nat, i: int) -> Seq<u8> {
    src.subrange(i * width, i * width + width)
}

/// `src` cut into consecutive chunks of `width` bytes
pub open spec fn spec_chunks(src: Seq<u8>, width: nat) -> Seq<Seq<u8>>
    recommends
        width > 0,
{
    Seq::new(src.len() / width, |i: int| spec_chunk(src, width, i))
}

proof fn lemma_chunk_bounds(len: nat, width: nat, i: int)
    requires
        width > 0,
        0 <= i < len / width,
    ensures
        0 <= i * width,
        i * width + width <= len,
{
    assert(0 <= i * width) by (nonlinear_arith)
        requires
            0 <= i,
            width > 0,
    ;
    assert(i * width + width <= (len / width) * width) by (nonlinear_arith)
        requires
            i + 1 <= len / width,
            width > 0,
    ;
    assert((len / width) * width <= len) by (nonlinear_arith)
        requires
            width > 0,
    ;
}

/// Split `src` into chunks of `width` bytes
///
/// Returns an error if the length of `src` is not a multiple of `width`
pub fn convert_chunks(src: &[u8], width: usize) -> (res: Result<Vec<Vec<u8>>, InvalidChunkSizeError>)
    requires
        width > 0,
    ensures
        src@.len() % (width as nat) != 0 ==> res == Err::<Vec<Vec<u8>>, InvalidChunkSizeError>(InvalidChunkSizeError),
        src@.len() % (width as nat) == 0 ==> res is Ok
            && res->Ok_0@.len() == src@.len() / (width as nat)
            && forall|i: int| 0 <= i < res->Ok_0@.len() ==> #[trigger] res->Ok_0@[i]@ == spec_chunk(src@, width as nat, i),
{
    if src.len() % width != 0 {
        return Err(InvalidChunkSizeError);
    }
    let count = src.len() / width;
    let mut out: Vec<Vec<u8>> = Vec::with_capacity(count);
    let mut i: usize = 0;
    while i < count
        invariant
            i <= count,
            count == src@.len() / (width as nat),
            width > 0,
            src@.len() == src.len(),
            out@.len() == i,
            forall|j: int| 0 <= j < i ==> #[trigger] out@[j]@ == spec_chunk(src@, width as nat, j),
        decreases count - i,
    {
        proof {
            lemma_chunk_bounds(src@.len(), width as nat, i as int);
        }
        let start = i * width;
        let mut chunk: Vec<u8> = Vec::with_capacity(width);
        let mut k: usize = 0;
        while k < width
            invariant
                k <= width,
                start == i * width,
                start + width <= src@.len(),
                src@.len() == src.len(),
                chunk@ == src@.subrange(start as int, start + k),
            decreases width - k,
        {
            chunk.push(src[start + k]);
            k = k + 1;
            assert(chunk@ == src@.subrange(start as int, start + k));
        }
        out.push(chunk);
        i = i + 1;
    }
    Ok(out)
}

/// Types that can be constructed from little-endian bytes
pub trait FromLEBytes: Sized {
    /// Number of bytes of the encoding
    spec fn spec_width() -> nat;

    /// The value that `spec_width()` little-endian bytes encode
    spec fn spec_from_le(bytes: Seq<u8>) -> Self;

    /// Number of bytes of the encoding
    fn width() -> (w: usize)
        ensures
            w == Self::spec_width(),
            w > 0,
    ;

    /// Read `Self` from little-endian bytes
    fn from_le_bytes(bytes: &[u8]) -> (v: Self)
        requires
            bytes@.len() == Self::spec_width(),
        ensures
            v == Self::spec_from_le(bytes@),
    ;
}

impl FromLEBytes for u16 {
    open spec fn spec_width() -> nat {
        2
    }

    open spec fn spec_from_le(bytes: Seq<u8>) -> u16 {
        spec_u16_from_le_bytes(bytes)
    }

    fn width() -> (w: usize) {
        2
    }

    fn from_le_bytes(bytes: &[u8]) -> (v: u16) {
        u16_from_le_bytes(bytes)
    }
}

impl FromLEBytes for u32 {
    open spec fn spec_width() -> nat {
        4
    }

    open spec fn spec_from_le(bytes: Seq<u8>) -> u32 {
        spec_u32_from_le_bytes(bytes)
    }

    fn width() -> (w: usize) {
        4
    }

    fn from_le_bytes(bytes: &[u8]) -> (v: u32) {
        u32_from_le_bytes(bytes)
    }
}

impl FromLEBytes for u64 {
    open spec fn spec_width() -> nat {
        8
    }

    open spec fn spec_from_le(bytes: Seq<u8>) -> u64 {
        spec_u64_from_le_bytes(bytes)
    }

    fn width() -> (w: usize) {
        8
    }

    fn from_le_bytes(bytes: &[u8]) -> (v: u64) {
        u64_from_le_bytes(bytes)
    }
}

/// The values that the consecutive chunks of `src` encode
pub open spec fn spec_convert_le<T: FromLEBytes>(src: Seq<u8>) -> Seq<T> {
    spec_chunks(src, T::spec_width()).map_values(|c: Seq<u8>| T::spec_from_le(c))
}

/// Convert a byte slice to the values of type `T` that it holds, assuming little-endian byte order
///
/// Returns an error if the length of the slice is not a multiple of the size of `T`
pub fn convert_le<T: FromLEBytes>(src: &[u8]) -> (res: Result<Vec<T>, InvalidChunkSizeError>)
    ensures
        src@.len() % T::spec_width() != 0 ==> res == Err::<Vec<T>, InvalidChunkSizeError>(InvalidChunkSizeError),
        src@.len() % T::spec_width() == 0 ==> res is Ok && res->Ok_0@ == spec_convert_le::<T>(src@),
{
    let width = T::width();
    let chunks = convert_chunks(src, width)?;
    let mut out: Vec<T> = Vec::with_capacity(chunks.len());
    let mut i: usize = 0;
    while i < chunks.len()
        invariant
            i <= chunks@.len(),
            width == T::spec_width(),
            width > 0,
            chunks@.len() == src@.len() / (width as nat),
            forall|j: int| 0 <= j < chunks@.len() ==> #[trigger] chunks@[j]@ == spec_chunk(src@, width as nat, j),
            out@.len() == i,
            forall|j: int| 0 <= j < i ==> #[trigger] out@[j] == T::spec_from_le(spec_chunk(src@, width as nat, j)),
        decreases chunks@.len() - i,
    {
        proof {
            lemma_chunk_bounds(src@.len(), width as nat, i as int);
        }
        let v = T::from_le_bytes(chunks[i].as_slice());
        out.push(v);
        i = i + 1;
    }
    assert(out@ =~= spec_convert_le::<T>(src@));
    Ok(out)
}

} // verus!
