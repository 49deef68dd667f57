//! Storage of `u8` (binary) features, compared by Hamming distance
use vstd::prelude::*;
use vstd::bytes::*;
use crate::serde::{u32_at, FormatError, spec_window, write_u32ish, write_bytes, read_u32ish, read_bytes, Serialize, Deserialize};
use crate::features::distance::{hamming, hamming_distance, first_argmin, lemma_first_argmin, is_first_argmin, DistanceQuery};

verus! {

broadcast use vstd::seq_lib::group_seq_properties;

/// Layout chosen for a feature length: fixed-size packings for the common
/// descriptor lengths (ORB: 32 bytes, AKAZE: 61 bytes, 64 bytes) and a generic one
#[derive(Clone, Copy, Debug, PartialEq, Eq, Structural)]
pub enum StorageU8 {
    /// `[u64; 4]`
    Array32,
    /// `[u64; 8]`
    Array64,
    /// `[u64; 8]` holding 61 bytes and 3 bytes of zero padding
    Array61,
    /// Any other length
    Generic,
}

/// The layout used for features of `feature_len` bytes
pub open spec fn spec_storage_for(feature_len: nat) -> StorageU8 {
    if feature_len == 64 {
        StorageU8::Array64
    } else if feature_len == 61 {
        StorageU8::Array61
    } else if feature_len == 32 {
        StorageU8::Array32
    } else {
        StorageU8::Generic
    }
}

/// Features stored as `u8` descriptors of a fixed length
#[derive(Debug)]
pub struct FeaturesU8 {
    storage: StorageU8,
    feature_len: usize,
    rows: Vec<Vec<u8>>,
}

/// All the rows have `len` bytes
pub open spec fn rows_have_len(rows: Seq<Seq<u8>>, len: nat) -> bool {
    forall|i: int| 0 <= i < rows.len() ==> (#[trigger] rows[i]).len() == len
}

impl View for FeaturesU8 {
    type V = Seq<Seq<u8>>;

    closed spec fn view(&self) -> Seq<Seq<u8>> {
        self.rows@.map_values(|r: Vec<u8>| r@)
    }
}

impl FeaturesU8 {
    /// Length in bytes of every feature
    pub closed spec fn spec_feature_len(&self) -> nat {
        self.feature_len as nat
    }

    /// The storage layout
    pub closed spec fn spec_storage(&self) -> StorageU8 {
        self.storage
    }

    /// Invariant: a non-zero feature length that every feature has, and the
    /// layout that belongs to it
    pub closed spec fn wf(&self) -> bool {
        &&& self.feature_len > 0
        &&& self.storage == spec_storage_for(self.feature_len as nat)
        &&& rows_have_len(self@, self.feature_len as nat)
    }

    /// What the invariant says of the features: their length is not zero
    /// and every feature has it
    pub proof fn lemma_wf(&self)
        requires
            self.wf(),
        ensures
            self.spec_feature_len() > 0,
            rows_have_len(self@, self.spec_feature_len()),
    {
    }

    proof fn lemma_view(&self)
        ensures
            self@.len() == self.rows@.len(),
            forall|i: int| 0 <= i < self.rows@.len() ==> #[trigger] self@[i] == self.rows@[i]@,
    {
    }

    /// Create empty storage for features of `feature_len` bytes; panics on a zero length
    pub fn new(capacity: usize, feature_len: usize) -> (f: Self)
        requires
            feature_len != 0,
        ensures
            f.wf(),
            f@ == Seq::<Seq<u8>>::empty(),
            f.spec_feature_len() == feature_len,
            f.spec_storage() == spec_storage_for(feature_len as nat),
    {
        let storage = if feature_len == 64 {
            StorageU8::Array64
        } else if feature_len == 61 {
            StorageU8::Array61
        } else if feature_len == 32 {
            StorageU8::Array32
        } else {
            StorageU8::Generic
        };
        let f = Self { storage, feature_len, rows: Vec::with_capacity(capacity) };
        assert(f@ =~= Seq::<Seq<u8>>::empty());
        f
    }

    /// Feature length in bytes
    pub fn feature_len(&self) -> (n: usize)
        ensures
            n == self.spec_feature_len(),
    {
        self.feature_len
    }

    /// Name of the storage layout
    pub fn storage(&self) -> (name: &'static str)
        ensures
            name@ == (match self.spec_storage() {
                StorageU8::Array32 => "array8_32"@,
                StorageU8::Array61 => "array8_61"@,
                StorageU8::Array64 => "array8_64"@,
                StorageU8::Generic => "generic"@,
            }),
    {
        match self.storage {
            StorageU8::Array32 => "array8_32",
            StorageU8::Array61 => "array8_61",
            StorageU8::Array64 => "array8_64",
            StorageU8::Generic => "generic",
        }
    }

    /// Number of features
    pub fn len(&self) -> (n: usize)
        ensures
            n == self@.len(),
    {
        self.rows.len()
    }

    /// Insert features; each must be `feature_len` bytes long (else it panics)
    pub fn insert(&mut self, features: &[Vec<u8>])
        requires
            old(self).wf(),
            forall|i: int| 0 <= i < features@.len() ==> (#[trigger] features@[i])@.len() == old(self).spec_feature_len(),
        ensures
            final(self).wf(),
            final(self)@ == old(self)@ + features@.map_values(|r: Vec<u8>| r@),
            final(self).spec_feature_len() == old(self).spec_feature_len(),
            final(self).spec_storage() == old(self).spec_storage(),
    {
        let ghost start = self@;
        let mut i: usize = 0;
        while i < features.len()
            invariant
                i <= features@.len(),
                self.wf(),
                self.feature_len == old(self).feature_len,
                self.storage == old(self).storage,
                forall|j: int| 0 <= j < features@.len() ==> (#[trigger] features@[j])@.len() == self.feature_len,
                self@ == start + features@.take(i as int).map_values(|r: Vec<u8>| r@),
            decreases features@.len() - i,
        {
            let row = copy_bytes(features[i].as_slice());
            self.push(row);
            i = i + 1;
            assert(self@ =~= start + features@.take(i as int).map_values(|r: Vec<u8>| r@));
        }
        assert(features@.take(i as int) =~= features@);
    }

    /// Insert one feature of `feature_len` bytes
    pub fn push(&mut self, feature: Vec<u8>)
        requires
            old(self).wf(),
            feature@.len() == old(self).spec_feature_len(),
        ensures
            final(self).wf(),
            final(self)@ == old(self)@.push(feature@),
            final(self).spec_feature_len() == old(self).spec_feature_len(),
            final(self).spec_storage() == old(self).spec_storage(),
    {
        self.rows.push(feature);
        assert(self@ =~= old(self)@.push(feature@));
    }

    /// The feature at `index`, if any; reading a feature out of the padded
    /// 61-byte layout is not implemented (it panics)
    pub fn get(&self, index: usize) -> (r: Option<Vec<u8>>)
        requires
            !(self.spec_storage() == StorageU8::Array61 && index < self@.len()),
        ensures
            index < self@.len() ==> r is Some && r->Some_0@ == self@[index as int],
            index >= self@.len() ==> r is None,
    {
        if index < self.rows.len() {
            Some(copy_bytes(self.rows[index].as_slice()))
        } else {
            None
        }
    }

    /// A query for the features nearest to `value`, which must be `feature_len` bytes long
    pub fn query<'a>(&'a self, value: &[u8]) -> (q: QueryU8<'a>)
        requires
            self.wf(),
            value@.len() == self.spec_feature_len(),
            self.spec_feature_len() <= 0x1fff_ffff,
        ensures
            q.features() == self,
            q.value() == value@,
    {
        let v = copy_bytes(value);
        QueryU8 { features: self, value: v }
    }
}

/// A copy of `src`
pub fn copy_bytes(src: &[u8]) -> (v: Vec<u8>)
    ensures
        v@ == src@,
{
    let mut v: Vec<u8> = Vec::with_capacity(src.len());
    let mut i: usize = 0;
    while i < src.len()
        invariant
            i <= src@.len(),
            v@ == src@.take(i as int),
        decreases src@.len() - i,
    {
        v.push(src[i]);
        i = i + 1;
        assert(v@ =~= src@.take(i as int));
    }
    assert(v@ =~= src@);
    v
}

/// Hamming distances from `value` to the features `offset..offset+len` of `rows`
pub open spec fn distances(rows: Seq<Seq<u8>>, value: Seq<u8>, offset: nat, len: nat) -> Seq<nat> {
    Seq::new(len, |i: int| hamming(value, rows[offset + i]))
}

/// A nearest-feature query over [`FeaturesU8`]
pub struct QueryU8<'a> {
    features: &'a FeaturesU8,
    value: Vec<u8>,
}

impl<'a> QueryU8<'a> {
    /// The features searched
    pub closed spec fn features(&self) -> &'a FeaturesU8 {
        self.features
    }

    /// The value queried
    pub closed spec fn value(&self) -> Seq<u8> {
        self.value@
    }

    #[verifier::type_invariant]
    closed spec fn inv(&self) -> bool {
        &&& self.features.wf()
        &&& self.value@.len() == self.features.feature_len
        &&& self.features.feature_len <= 0x1fff_ffff
    }
}

impl<'a> DistanceQuery for QueryU8<'a> {
    open spec fn spec_num_features(&self) -> nat {
        self.features()@.len()
    }

    /// The first feature at least distance from the value
    open spec fn spec_min_index(&self, offset: nat, len: nat) -> nat {
        first_argmin(distances(self.features()@, self.value(), offset, len))
    }

    fn min_index(&self, offset: usize, len: usize) -> (r: usize) {
        proof {
            use_type_invariant(self);
        }
        let ghost d = distances(self.features@, self.value@, offset as nat, len as nat);
        proof {
            assert(self.spec_num_features() == self.features@.len());
            self.features.lemma_view();
            assert(self.features@[offset as int] == self.features.rows@[offset as int]@);
        }
        let nrows: usize = self.features.rows.len();
        let mut best: usize = 0;
        let mut best_dist: u32 = hamming_distance(self.value.as_slice(), self.features.rows[offset].as_slice());
        let mut i: usize = 1;
        while i < len
            invariant
                1 <= i <= len,
                best < i,
                offset + len <= self.features@.len(),
                self.features.wf(),
                self.value@.len() == self.features.feature_len,
                self.features.feature_len <= 0x1fff_ffff,
                d == distances(self.features@, self.value@, offset as nat, len as nat),
                best_dist == d[best as int],
                offset + len <= nrows,
                nrows == self.features.rows@.len(),
                is_first_argmin(d.take(i as int), best as int),
            decreases len - i,
        {
            proof {
                self.features.lemma_view();
                assert(self.features@[offset + i] == self.features.rows@[offset + i]@);
            }
            let di = hamming_distance(self.value.as_slice(), self.features.rows[offset + i].as_slice());
            proof {
                assert(d.take(i + 1).drop_last() =~= d.take(i as int));
            }
            if di < best_dist {
                best = i;
                best_dist = di;
            }
            i = i + 1;
            proof {
                let t = d.take(i as int);
                let p = d.take(i - 1);
                assert forall|j: int| 0 <= j < t.len() - 1 implies t[j] == #[trigger] p[j] by {}
                assert forall|j: int| 0 <= j < t.len() implies t[best as int] <= #[trigger] t[j] by {
                    if j < t.len() - 1 {
                        assert(p[j] == t[j]);
                    }
                }
                assert forall|j: int| 0 <= j < best implies t[best as int] < #[trigger] t[j] by {
                    if j < t.len() - 1 {
                        assert(p[j] == t[j]);
                    }
                }
            }
        }
        proof {
            assert(d.take(len as int) =~= d);
            crate::features::distance::lemma_first_argmin_unique(d, best as int);
        }
        best
    }
}

/// The rows laid one after the other
pub open spec fn spec_concat(rows: Seq<Seq<u8>>) -> Seq<u8> {
    rows.flatten()
}

/// The encoding of `u8` features: the feature length, the number of features,
/// then the bytes of every feature
pub open spec fn spec_encode_u8(feature_len: nat, rows: Seq<Seq<u8>>) -> Seq<u8> {
    spec_u32_to_le_bytes(feature_len as u32) + spec_u32_to_le_bytes(rows.len() as u32) + spec_concat(rows)
}

/// The `i`-th of consecutive windows of `len` bytes starting at `start`
pub open spec fn spec_row_at(src: Seq<u8>, start: int, len: nat, i: int) -> Seq<u8> {
    spec_window(src, start + i * len, len as int)
}

/// Reading `u8` features panics: the header is complete but the feature length
/// is zero, or the input ends inside the features
pub open spec fn spec_read_u8_panics(src: Seq<u8>, pos: int) -> bool {
    &&& pos + 8 <= src.len()
    &&& (u32_at(src, pos) == 0 || pos + 8 + u32_at(src, pos + 4) * u32_at(src, pos) > src.len())
}

/// Result of reading `u8` features at `pos`: the features, their length and the position after them
pub open spec fn spec_read_u8(src: Seq<u8>, pos: int) -> Result<(Seq<Seq<u8>>, nat, int), FormatError> {
    if pos + 8 > src.len() {
        Err(FormatError::UnexpectedEof)
    } else {
        let fl = u32_at(src, pos) as nat;
        let n = u32_at(src, pos + 4) as nat;
        Ok((Seq::new(n, |i: int| spec_row_at(src, pos + 8, fl, i)), fl, pos + 8 + n * fl))
    }
}

proof fn lemma_mul_step(i: int, fl: int)
    requires
        0 <= i,
        0 <= fl,
    ensures
        (i + 1) * fl == i * fl + fl,
        0 <= i * fl,
{
    assert((i + 1) * fl == i * fl + fl) by (nonlinear_arith);
    assert(0 <= i * fl) by (nonlinear_arith)
        requires
            0 <= i,
            0 <= fl,
    ;
}

proof fn lemma_mul_mono(i: int, n: int, fl: int)
    requires
        0 <= i <= n,
        0 <= fl,
    ensures
        i * fl <= n * fl,
{
    assert(i * fl <= n * fl) by (nonlinear_arith)
        requires
            0 <= i <= n,
            0 <= fl,
    ;
}

/// Rows that all have `fl` bytes, laid one after the other, are found back at
/// multiples of `fl`
pub proof fn lemma_concat_rows(rows: Seq<Seq<u8>>, fl: nat)
    requires
        rows_have_len(rows, fl),
    ensures
        spec_concat(rows).len() == rows.len() * fl,
        forall|i: int| 0 <= i < rows.len() ==> #[trigger] spec_concat(rows).subrange(i * fl, i * fl + fl) == rows[i],
    decreases rows.len(),
{
    broadcast use Seq::lemma_flatten_push;
    if rows.len() == 0 {
        assert(spec_concat(rows) =~= Seq::<u8>::empty());
    } else {
        let init = rows.drop_last();
        assert(rows =~= init.push(rows.last()));
        lemma_concat_rows(init, fl);
        let c = spec_concat(rows);
        let ci = spec_concat(init);
        assert(c =~= ci + rows.last());
        lemma_mul_step(init.len() as int, fl as int);
        assert forall|i: int| 0 <= i < rows.len() implies #[trigger] spec_concat(rows).subrange(i * fl, i * fl + fl) == rows[i] by {
            lemma_mul_step(i, fl as int);
            if i < init.len() {
                lemma_mul_mono(i + 1, init.len() as int, fl as int);
                assert(c.subrange(i * fl, i * fl + fl) =~= ci.subrange(i * fl, i * fl + fl));
                assert(init[i] == rows[i]);
            } else {
                assert(c.subrange(i * fl, i * fl + fl) =~= rows.last());
            }
        }
    }
}

impl FeaturesU8 {
    /// Append the encoding of the features to `dst`
    ///
    /// Writing features out of the padded 61-byte layout is not implemented (it panics)
    pub fn write_to(&self, dst: &mut Vec<u8>) -> (res: Result<(), FormatError>)
        requires
            self.wf(),
            !(self.spec_storage() == StorageU8::Array61 && self@.len() > 0),
        ensures
            self.spec_feature_len() <= u32::MAX && self@.len() <= u32::MAX ==> res is Ok
                && final(dst)@ == old(dst)@ + spec_encode_u8(self.spec_feature_len(), self@),
            !(self.spec_feature_len() <= u32::MAX && self@.len() <= u32::MAX) ==> res == Err::<(), FormatError>(FormatError::ValueOverflow),
    {
        let ghost start = dst@;
        write_u32ish(self.feature_len, dst)?;
        write_u32ish(self.rows.len(), dst)?;
        let ghost mid = dst@;
        let mut i: usize = 0;
        while i < self.rows.len()
            invariant
                i <= self.rows@.len(),
                self.wf(),
                dst@ == mid + spec_concat(self@.take(i as int)),
            decreases self.rows@.len() - i,
        {
            proof {
                self.lemma_view();
                broadcast use Seq::lemma_flatten_push;
                assert(self@.take(i + 1) =~= self@.take(i as int).push(self@[i as int]));
            }
            write_bytes(self.rows[i].as_slice(), dst);
            i = i + 1;
        }
        assert(self@.take(i as int) =~= self@);
        Ok(())
    }

    /// Read features from `src` at `*pos`
    pub fn read_from(src: &[u8], pos: &mut usize) -> (res: Result<Self, FormatError>)
        requires
            !spec_read_u8_panics(src@, *old(pos) as int),
        ensures
            match spec_read_u8(src@, *old(pos) as int) {
                Ok((rows, fl, next)) => res is Ok && res->Ok_0.wf() && res->Ok_0@ == rows
                    && res->Ok_0.spec_feature_len() == fl && *final(pos) == next,
                Err(e) => res == Err::<Self, FormatError>(e),
            },
    {
        let ghost p0 = *pos as int;
        let feature_len = read_u32ish(src, pos)?;
        let num_features = read_u32ish(src, pos)?;
        let ghost body = *pos as int;
        let mut result = Self::new(num_features, feature_len);
        let mut i: usize = 0;
        while i < num_features
            invariant
                i <= num_features,
                body == p0 + 8,
                feature_len > 0,
                body + num_features * feature_len <= src@.len(),
                *pos == body + i * feature_len,
                result.wf(),
                result.spec_feature_len() == feature_len,
                result@ == Seq::new(i as nat, |j: int| spec_row_at(src@, body, feature_len as nat, j)),
            decreases num_features - i,
        {
            proof {
                lemma_mul_step(i as int, feature_len as int);
                lemma_mul_mono(i + 1, num_features as int, feature_len as int);
            }
            let row = read_bytes(src, pos, feature_len)?;
            result.push(row);
            i = i + 1;
            assert(result@ =~= Seq::new(i as nat, |j: int| spec_row_at(src@, body, feature_len as nat, j)));
        }
        Ok(result)
    }
}

/// Reading back the encoding of `u8` features gives the features written
pub proof fn lemma_u8_roundtrip(feature_len: nat, rows: Seq<Seq<u8>>, pre: Seq<u8>, post: Seq<u8>)
    requires
        0 < feature_len <= u32::MAX,
        rows.len() <= u32::MAX,
        rows_have_len(rows, feature_len),
    ensures
        !spec_read_u8_panics(pre + spec_encode_u8(feature_len, rows) + post, pre.len() as int),
        spec_read_u8(pre + spec_encode_u8(feature_len, rows) + post, pre.len() as int)
            == Ok::<(Seq<Seq<u8>>, nat, int), FormatError>((rows, feature_len, (pre.len() + spec_encode_u8(feature_len, rows).len()) as int)),
{
    let enc = spec_encode_u8(feature_len, rows);
    let src = pre + enc + post;
    let b = pre.len() as int;
    crate::serde::lemma_u32_roundtrip(feature_len as u32);
    crate::serde::lemma_u32_roundtrip(rows.len() as u32);
    lemma_concat_rows(rows, feature_len);
    let c = spec_concat(rows);
    assert(spec_window(src, b, 4) =~= spec_u32_to_le_bytes(feature_len as u32));
    assert(spec_window(src, b + 4, 4) =~= spec_u32_to_le_bytes(rows.len() as u32));
    assert(enc.len() == 8 + rows.len() * feature_len);
    let got = Seq::new(rows.len(), |i: int| spec_row_at(src, b + 8, feature_len, i));
    assert forall|i: int| 0 <= i < rows.len() implies got[i] == rows[i] by {
        lemma_mul_step(i, feature_len as int);
        lemma_mul_mono(i + 1, rows.len() as int, feature_len as int);
        assert(spec_row_at(src, b + 8, feature_len, i) =~= c.subrange(i * feature_len, i * feature_len + feature_len));
    }
    assert(got =~= rows);
}

} // verus!
