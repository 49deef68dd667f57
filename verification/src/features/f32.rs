//! Storage of `f32` features, held as the IEEE-754 bit patterns of their elements
//!
//! The library stores and encodes the features; the Euclidean distances between
//! them are floating-point computations that its callers make.
use vstd::prelude::*;
use vstd::bytes::*;
use crate::serde::{u32_at, FormatError, spec_window, write_u32, write_u32ish, read_u32ish, read_bytes};
use crate::convert::{convert_le, spec_convert_le};
use crate::features::u8::rows_have_len;

verus! {

broadcast use vstd::seq_lib::group_seq_properties;

/// Layout chosen for a feature length: a fixed-size array for the 64-element
/// SURF descriptors, a generic one otherwise
#[derive(Clone, Copy, Debug, PartialEq, Eq, Structural)]
pub enum StorageF32 {
    /// `[f32; 64]`
    Array64,
    /// Any other length
    Generic,
}

/// The layout used for features of `feature_len` elements
pub open spec fn spec_storage_f32_for(feature_len: nat) -> StorageF32 {
    if feature_len == 64 {
        StorageF32::Array64
    } else {
        StorageF32::Generic
    }
}

/// Rows of 32-bit words, each of the same length
pub open spec fn words_have_len(rows: Seq<Seq<u32>>, len: nat) -> bool {
    forall|i: int| 0 <= i < rows.len() ==> (#[trigger] rows[i]).len() == len
}

/// Features stored as `f32` descriptors (by bit pattern) of a fixed length
#[derive(Debug)]
pub struct FeaturesF32 {
    storage: StorageF32,
    feature_len: usize,
    rows: Vec<Vec<u32>>,
}

impl View for FeaturesF32 {
    type V = Seq<Seq<u32>>;

    closed spec fn view(&self) -> Seq<Seq<u32>> {
        self.rows@.map_values(|r: Vec<u32>| r@)
    }
}

/// A copy of `src`
pub fn copy_words(src: &[u32]) -> (v: Vec<u32>)
    ensures
        v@ == src@,
{
    let mut v: Vec<u32> = Vec::with_capacity(src.len());
    let mut i: usize = 0;
    while i < src.len()
        invariant
            i <= src@.len(),
            v@ == src@.take(i as int),
        decreases src@.len() - i,
    {
        v.push(src[i]);
        i = i + 1;
        assert(v@ =~= src@.take(i as int));
    }
    assert(v@ =~= src@);
    v
}

impl FeaturesF32 {
    /// Number of elements of every feature
    pub closed spec fn spec_feature_len(&self) -> nat {
        self.feature_len as nat
    }

    /// The storage layout
    pub closed spec fn spec_storage(&self) -> StorageF32 {
        self.storage
    }

    /// Invariant: a non-zero feature length that every feature has, and the
    /// layout that belongs to it
    pub closed spec fn wf(&self) -> bool {
        &&& self.feature_len > 0
        &&& self.storage == spec_storage_f32_for(self.feature_len as nat)
        &&& words_have_len(self@, self.feature_len as nat)
    }

    /// What the invariant says of the features: their length is not zero
    /// and every feature has it
    pub proof fn lemma_wf(&self)
        requires
            self.wf(),
        ensures
            self.spec_feature_len() > 0,
            words_have_len(self@, self.spec_feature_len()),
    {
    }

    proof fn lemma_view(&self)
        ensures
            self@.len() == self.rows@.len(),
            forall|i: int| 0 <= i < self.rows@.len() ==> #[trigger] self@[i] == self.rows@[i]@,
    {
    }

    /// Create empty storage for features of `feature_len` elements; panics on a zero length
    pub fn new(capacity: usize, feature_len: usize) -> (f: Self)
        requires
            feature_len != 0,
        ensures
            f.wf(),
            f@ == Seq::<Seq<u32>>::empty(),
            f.spec_feature_len() == feature_len,
            f.spec_storage() == spec_storage_f32_for(feature_len as nat),
    {
        let storage = if feature_len == 64 {
            StorageF32::Array64
        } else {
            StorageF32::Generic
        };
        let f = Self { storage, feature_len, rows: Vec::with_capacity(capacity) };
        assert(f@ =~= Seq::<Seq<u32>>::empty());
        f
    }

    /// Feature length in elements
    pub fn feature_len(&self) -> (n: usize)
        ensures
            n == self.spec_feature_len(),
    {
        self.feature_len
    }

    /// Name of the storage layout
    pub fn storage(&self) -> (name: &'static str)
        ensures
            name@ == (match self.spec_storage() {
                StorageF32::Array64 => "array_64"@,
                StorageF32::Generic => "generic"@,
            }),
    {
        match self.storage {
            StorageF32::Array64 => "array_64",
            StorageF32::Generic => "generic",
        }
    }

    /// Number of features
    pub fn len(&self) -> (n: usize)
        ensures
            n == self@.len(),
    {
        self.rows.len()
    }

    /// Insert one feature of `feature_len` elements (given by bit pattern)
    pub fn push(&mut self, feature: Vec<u32>)
        requires
            old(self).wf(),
            feature@.len() == old(self).spec_feature_len(),
        ensures
            final(self).wf(),
            final(self)@ == old(self)@.push(feature@),
            final(self).spec_feature_len() == old(self).spec_feature_len(),
            final(self).spec_storage() == old(self).spec_storage(),
    {
        self.rows.push(feature);
        assert(self@ =~= old(self)@.push(feature@));
    }

    /// Insert features; each must be `feature_len` elements long (else it panics)
    pub fn insert(&mut self, features: &[Vec<u32>])
        requires
            old(self).wf(),
            forall|i: int| 0 <= i < features@.len() ==> (#[trigger] features@[i])@.len() == old(self).spec_feature_len(),
        ensures
            final(self).wf(),
            final(self)@ == old(self)@ + features@.map_values(|r: Vec<u32>| r@),
            final(self).spec_feature_len() == old(self).spec_feature_len(),
            final(self).spec_storage() == old(self).spec_storage(),
    {
        let ghost start = self@;
        let mut i: usize = 0;
        while i < features.len()
            invariant
                i <= features@.len(),
                self.wf(),
                self.feature_len == old(self).feature_len,
                self.storage == old(self).storage,
                forall|j: int| 0 <= j < features@.len() ==> (#[trigger] features@[j])@.len() == self.feature_len,
                self@ == start + features@.take(i as int).map_values(|r: Vec<u32>| r@),
            decreases features@.len() - i,
        {
            let row = copy_words(features[i].as_slice());
            self.push(row);
            i = i + 1;
            assert(self@ =~= start + features@.take(i as int).map_values(|r: Vec<u32>| r@));
        }
        assert(features@.take(i as int) =~= features@);
    }

    /// The feature at `index` (by bit pattern), if any
    pub fn get(&self, index: usize) -> (r: Option<Vec<u32>>)
        ensures
            index < self@.len() ==> r is Some && r->Some_0@ == self@[index as int],
            index >= self@.len() ==> r is None,
    {
        if index < self.rows.len() {
            Some(copy_words(self.rows[index].as_slice()))
        } else {
            None
        }
    }
}

/// The little-endian bytes of the elements of a feature
pub open spec fn spec_words_bytes(words: Seq<u32>) -> Seq<u8>
    decreases words.len(),
{
    if words.len() == 0 {
        Seq::empty()
    } else {
        spec_words_bytes(words.drop_last()) + spec_u32_to_le_bytes(words.last())
    }
}

/// The encoding of `f32` features: the number of features, the feature length,
/// then the little-endian bytes of every element of every feature
pub open spec fn spec_encode_f32(feature_len: nat, rows: Seq<Seq<u32>>) -> Seq<u8> {
    spec_u32_to_le_bytes(rows.len() as u32) + spec_u32_to_le_bytes(feature_len as u32)
        + rows.map_values(|r: Seq<u32>| spec_words_bytes(r)).flatten()
}

/// Reading `f32` features panics: the features are complete but their length is zero
pub open spec fn spec_read_f32_panics(src: Seq<u8>, pos: int) -> bool {
    &&& pos + 8 <= src.len()
    &&& u32_at(src, pos + 4) == 0
}

/// The `n` features of `fl` elements each whose bytes start at `body`
pub open spec fn spec_f32_rows(src: Seq<u8>, body: int, n: nat, fl: nat) -> Seq<Seq<u32>> {
    Seq::new(n, |i: int| spec_convert_le::<u32>(spec_window(src, body + i * (4 * fl), (4 * fl) as int)))
}

/// Result of reading `f32` features at `pos`: the features (by bit pattern),
/// their length and the position after them
pub open spec fn spec_read_f32(src: Seq<u8>, pos: int) -> Result<(Seq<Seq<u32>>, nat, int), FormatError> {
    if pos + 8 > src.len() {
        Err(FormatError::UnexpectedEof)
    } else {
        let n = u32_at(src, pos) as nat;
        let fl = u32_at(src, pos + 4) as nat;
        if pos + 8 + n * (4 * fl) > src.len() {
            Err(FormatError::UnexpectedEof)
        } else {
            Ok((spec_f32_rows(src, pos + 8, n, fl), fl, pos + 8 + n * (4 * fl)))
        }
    }
}

proof fn lemma_mul_step(i: int, fl: int)
    requires
        0 <= i,
        0 <= fl,
    ensures
        (i + 1) * fl == i * fl + fl,
        0 <= i * fl,
{
    assert((i + 1) * fl == i * fl + fl) by (nonlinear_arith);
    assert(0 <= i * fl) by (nonlinear_arith)
        requires
            0 <= i,
            0 <= fl,
    ;
}

proof fn lemma_mul_mono(i: int, n: int, fl: int)
    requires
        0 <= i <= n,
        0 <= fl,
    ensures
        i * fl <= n * fl,
{
    assert(i * fl <= n * fl) by (nonlinear_arith)
        requires
            0 <= i <= n,
            0 <= fl,
    ;
}

/// Append the little-endian bytes of `words`
pub(crate) fn write_words(words: &[u32], dst: &mut Vec<u8>)
    ensures
        final(dst)@ == old(dst)@ + spec_words_bytes(words@),
{
    let ghost start = dst@;
    let mut i: usize = 0;
    while i < words.len()
        invariant
            i <= words@.len(),
            dst@ == start + spec_words_bytes(words@.take(i as int)),
        decreases words@.len() - i,
    {
        proof {
            assert(words@.take(i + 1).drop_last() =~= words@.take(i as int));
        }
        write_u32(words[i], dst);
        i = i + 1;
    }
    assert(words@.take(i as int) =~= words@);
}

impl FeaturesF32 {
    /// Append the encoding of the features to `dst`
    pub fn write_to(&self, dst: &mut Vec<u8>) -> (res: Result<(), FormatError>)
        requires
            self.wf(),
        ensures
            self.spec_feature_len() <= u32::MAX && self@.len() <= u32::MAX ==> res is Ok
                && final(dst)@ == old(dst)@ + spec_encode_f32(self.spec_feature_len(), self@),
            !(self.spec_feature_len() <= u32::MAX && self@.len() <= u32::MAX) ==> res == Err::<(), FormatError>(FormatError::ValueOverflow),
    {
        write_u32ish(self.rows.len(), dst)?;
        write_u32ish(self.feature_len, dst)?;
        let ghost mid = dst@;
        let ghost enc_rows = self@.map_values(|r: Seq<u32>| spec_words_bytes(r));
        let mut i: usize = 0;
        while i < self.rows.len()
            invariant
                i <= self.rows@.len(),
                self.wf(),
                enc_rows == self@.map_values(|r: Seq<u32>| spec_words_bytes(r)),
                dst@ == mid + enc_rows.take(i as int).flatten(),
            decreases self.rows@.len() - i,
        {
            proof {
                self.lemma_view();
                broadcast use Seq::lemma_flatten_push;
                assert(enc_rows.take(i + 1) =~= enc_rows.take(i as int).push(enc_rows[i as int]));
            }
            write_words(self.rows[i].as_slice(), dst);
            i = i + 1;
        }
        assert(enc_rows.take(i as int) =~= enc_rows);
        Ok(())
    }

    /// Read features from `src` at `*pos`
    pub fn read_from(src: &[u8], pos: &mut usize) -> (res: Result<Self, FormatError>)
        requires
            !spec_read_f32_panics(src@, *old(pos) as int),
        ensures
            match spec_read_f32(src@, *old(pos) as int) {
                Ok((rows, fl, next)) => res is Ok && res->Ok_0.wf() && res->Ok_0@ == rows
                    && res->Ok_0.spec_feature_len() == fl && *final(pos) == next,
                Err(e) => res == Err::<Self, FormatError>(e),
            },
    {
        let ghost p0 = *pos as int;
        let len = read_u32ish(src, pos)?;
        let feature_len = read_u32ish(src, pos)?;
        let ghost body = *pos as int;
        let ghost fl4 = 4 * feature_len as int;
        assert(len == u32_at(src@, p0) && feature_len == u32_at(src@, p0 + 4));
        assert(src@.len() == src.len());
        if feature_len > (usize::MAX / 4) {
            // The byte length of a feature overflows usize: the input can hold no feature
            if len == 0 {
                assert(spec_f32_rows(src@, body, 0, feature_len as nat) =~= Seq::<Seq<u32>>::empty());
                assert(0 * (4 * (feature_len as nat)) == 0);
                return Ok(Self::new(0, feature_len));
            }
            proof {
                lemma_mul_mono(1, len as int, fl4);
            }
            return Err(FormatError::UnexpectedEof);
        }
        let row_bytes = feature_len * 4;
        assert(0 * fl4 == 0);
        let mut rows: Vec<Vec<u32>> = Vec::with_capacity(len);
        let mut i: usize = 0;
        while i < len
            invariant_except_break
                i <= len,
                body == p0 + 8,
                p0 == *old(pos),
                body <= src@.len(),
                *pos <= src@.len(),
                len == u32_at(src@, p0),
                feature_len == u32_at(src@, p0 + 4),
                fl4 == 4 * feature_len,
                i * fl4 <= len * fl4,
                row_bytes == fl4,
                *pos == body + i * fl4,
                rows@.len() == i,
                forall|j: int| 0 <= j < i ==> (#[trigger] rows@[j])@ == spec_convert_le::<u32>(spec_window(src@, body + j * fl4, fl4)),
                forall|j: int| 0 <= j < i ==> (#[trigger] rows@[j])@.len() == feature_len,
            ensures
                i == len,
                *pos == body + len * fl4,
                *pos <= src@.len(),
                rows@.len() == len,
                forall|j: int| 0 <= j < len ==> (#[trigger] rows@[j])@ == spec_convert_le::<u32>(spec_window(src@, body + j * fl4, fl4)),
                forall|j: int| 0 <= j < len ==> (#[trigger] rows@[j])@.len() == feature_len,
            decreases len - i,
        {
            proof {
                lemma_mul_step(i as int, fl4);
                lemma_mul_mono(i + 1, len as int, fl4);
            }
            let bytes = match read_bytes(src, pos, row_bytes) {
                Ok(b) => b,
                Err(e) => {
                    proof {
                        lemma_mul_mono(i + 1, len as int, fl4);
                        assert(body + (i + 1) * fl4 > src@.len());
                        assert(body + len * fl4 > src@.len());
                        assert(len * fl4 == (len as nat) * (4 * (feature_len as nat)));
                        assert(e == FormatError::UnexpectedEof);
                        assert(spec_read_f32(src@, p0) == Err::<(Seq<Seq<u32>>, nat, int), FormatError>(FormatError::UnexpectedEof));
                    }
                    return Err(e);
                }
            };
            let words = match convert_le::<u32>(bytes.as_slice()) {
                Ok(w) => w,
                Err(_) => {
                    return Err(FormatError::InvalidChunkSize);
                }
            };
            proof {
                assert((4 * feature_len as int) % 4 == 0);
                assert(bytes@.len() % 4 == 0);
                assert(spec_convert_le::<u32>(bytes@).len() == feature_len);
            }
            rows.push(words);
            i = i + 1;
            proof {
                lemma_mul_mono(i as int, len as int, fl4);
            }
        }
        let mut result = Self::new(len, feature_len);
        result.insert(rows.as_slice());
        assert(result@ =~= spec_f32_rows(src@, body, len as nat, feature_len as nat));
        assert(len * fl4 == (len as nat) * (4 * (feature_len as nat)));
        assert(*pos == p0 + 8 + (len as nat) * (4 * (feature_len as nat)));
        assert(!(p0 + 8 > src@.len()));
        assert(!(p0 + 8 + (len as nat) * (4 * (feature_len as nat)) > src@.len()));
        assert(result.wf());
        assert(result.spec_feature_len() == feature_len);
        Ok(result)
    }
}

/// The bytes of the words `v` are four per word, word `i` in bytes `4i..4i+4`
pub proof fn lemma_words_bytes_chunks(v: Seq<u32>)
    ensures
        spec_words_bytes(v).len() == 4 * v.len(),
        forall|i: int| 0 <= i < v.len() ==> #[trigger] spec_words_bytes(v).subrange(4 * i, 4 * i + 4) == spec_u32_to_le_bytes(v[i]),
    decreases v.len(),
{
    lemma_auto_spec_u32_to_from_le_bytes();
    if v.len() > 0 {
        let p = v.drop_last();
        lemma_words_bytes_chunks(p);
        let b = spec_words_bytes(v);
        assert(b == spec_words_bytes(p) + spec_u32_to_le_bytes(v.last()));
        assert forall|i: int| 0 <= i < v.len() implies #[trigger] b.subrange(4 * i, 4 * i + 4) == spec_u32_to_le_bytes(v[i]) by {
            if i < v.len() - 1 {
                assert(b.subrange(4 * i, 4 * i + 4) =~= spec_words_bytes(p).subrange(4 * i, 4 * i + 4));
                assert(p[i] == v[i]);
            } else {
                assert(b.subrange(4 * i, 4 * i + 4) =~= spec_u32_to_le_bytes(v.last()));
            }
        }
    }
}

/// Reading back the little-endian bytes of words gives the words
pub proof fn lemma_words_roundtrip(v: Seq<u32>)
    ensures
        spec_convert_le::<u32>(spec_words_bytes(v)) == v,
{
    lemma_words_bytes_chunks(v);
    lemma_auto_spec_u32_to_from_le_bytes();
    let b = spec_words_bytes(v);
    assert(b.len() / 4 == v.len());
    let got = spec_convert_le::<u32>(b);
    assert forall|i: int| 0 <= i < v.len() implies got[i] == v[i] by {
        assert(crate::convert::spec_chunk(b, 4, i) == b.subrange(4 * i, 4 * i + 4));
    }
    assert(got =~= v);
}

/// Reading back the encoding of `f32` features gives the features written
pub proof fn lemma_f32_roundtrip(feature_len: nat, rows: Seq<Seq<u32>>, pre: Seq<u8>, post: Seq<u8>)
    requires
        0 < feature_len <= u32::MAX,
        rows.len() <= u32::MAX,
        forall|i: int| 0 <= i < rows.len() ==> (#[trigger] rows[i]).len() == feature_len,
    ensures
        !spec_read_f32_panics(pre + spec_encode_f32(feature_len, rows) + post, pre.len() as int),
        spec_read_f32(pre + spec_encode_f32(feature_len, rows) + post, pre.len() as int)
            == Ok::<(Seq<Seq<u32>>, nat, int), FormatError>((rows, feature_len, (pre.len() + spec_encode_f32(feature_len, rows).len()) as int)),
{
    lemma_auto_spec_u32_to_from_le_bytes();
    let enc_rows = rows.map_values(|r: Seq<u32>| spec_words_bytes(r));
    let c = enc_rows.flatten();
    let enc = spec_encode_f32(feature_len, rows);
    let src = pre + enc + post;
    let b = pre.len() as int;
    let fl4 = 4 * feature_len;
    assert(spec_window(src, b, 4) =~= spec_u32_to_le_bytes(rows.len() as u32));
    assert(spec_window(src, b + 4, 4) =~= spec_u32_to_le_bytes(feature_len as u32));
    assert forall|i: int| 0 <= i < enc_rows.len() implies (#[trigger] enc_rows[i]).len() == fl4 by {
        lemma_words_bytes_chunks(rows[i]);
    }
    lemma_flatten_uniform(enc_rows, fl4);
    assert(enc.len() == 8 + rows.len() * fl4);
    let got = spec_f32_rows(src, b + 8, rows.len(), feature_len);
    assert forall|i: int| 0 <= i < rows.len() implies got[i] == rows[i] by {
        lemma_mul_step(i, fl4 as int);
        lemma_mul_mono(i + 1, rows.len() as int, fl4 as int);
        assert(spec_window(src, b + 8 + i * fl4, fl4 as int) =~= c.subrange(i * fl4, i * fl4 + fl4));
        assert(c.subrange(i * fl4, i * fl4 + fl4) == enc_rows[i]);
        lemma_words_roundtrip(rows[i]);
    }
    assert(got =~= rows);
}

/// A flattening of pieces of `w` bytes each: its length, and where each piece lies
proof fn lemma_flatten_uniform(pieces: Seq<Seq<u8>>, w: nat)
    requires
        forall|i: int| 0 <= i < pieces.len() ==> (#[trigger] pieces[i]).len() == w,
    ensures
        pieces.flatten().len() == pieces.len() * w,
        forall|i: int| 0 <= i < pieces.len() ==> #[trigger] pieces.flatten().subrange(i * w, i * w + w) == pieces[i],
    decreases pieces.len(),
{
    broadcast use Seq::lemma_flatten_push;
    if pieces.len() > 0 {
        let p = pieces.drop_last();
        assert forall|i: int| 0 <= i < p.len() implies (#[trigger] p[i]).len() == w by {
            assert(p[i] == pieces[i]);
        }
        lemma_flatten_uniform(p, w);
        assert(pieces =~= p.push(pieces.last()));
        assert(pieces.flatten() == p.flatten() + pieces.last());
        assert(pieces.len() * w == p.len() * w + w) by (nonlinear_arith)
            requires
                pieces.len() == p.len() + 1,
        ;
        assert forall|i: int| 0 <= i < pieces.len() implies #[trigger] pieces.flatten().subrange(i * w, i * w + w) == pieces[i] by {
            lemma_mul_step(i, w as int);
            lemma_mul_mono(i + 1, pieces.len() as int, w as int);
            if i < pieces.len() - 1 {
                lemma_mul_mono(i + 1, p.len() as int, w as int);
                assert(pieces.flatten().subrange(i * w, i * w + w) =~= p.flatten().subrange(i * w, i * w + w));
                assert(p[i] == pieces[i]);
            } else {
                assert(i * w == p.len() * w);
                assert(pieces.flatten().subrange(i * w, i * w + w) =~= pieces.last());
            }
        }
    }
}

} // verus!
