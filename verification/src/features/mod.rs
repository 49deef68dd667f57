//! Storage of the features (visual words) of a vocabulary
use vstd::prelude::*;
use vstd::bytes::*;
use crate::dtype::{DescriptorType, spec_type_code, spec_from_type_code};
use crate::serde::{u32_at, spec_window, FormatError, write_u32, read_u32};

pub mod distance;
pub mod u8;
pub mod f32;
pub mod keyed;

use self::u8::{FeaturesU8, QueryU8, StorageU8, rows_have_len, spec_read_u8, spec_read_u8_panics, spec_encode_u8};
use self::f32::{FeaturesF32, spec_read_f32, spec_read_f32_panics, spec_encode_f32, words_have_len, lemma_f32_roundtrip};

verus! {

/// Features of either element type
#[derive(Debug)]
pub enum FeaturesGeneric {
    Float32(FeaturesF32),
    Uint8(FeaturesU8),
}

impl FeaturesGeneric {
    /// Invariant of the storage held
    pub open spec fn wf(&self) -> bool {
        match self {
            FeaturesGeneric::Float32(f) => f.wf(),
            FeaturesGeneric::Uint8(f) => f.wf(),
        }
    }

    /// Number of features
    pub open spec fn spec_len(&self) -> nat {
        match self {
            FeaturesGeneric::Float32(f) => f@.len(),
            FeaturesGeneric::Uint8(f) => f@.len(),
        }
    }

    /// Element type of the features
    pub open spec fn spec_desc_type(&self) -> DescriptorType {
        match self {
            FeaturesGeneric::Float32(_) => DescriptorType::Float32,
            FeaturesGeneric::Uint8(_) => DescriptorType::Uint8,
        }
    }

    /// Number of elements of each feature
    pub open spec fn spec_feature_len(&self) -> nat {
        match self {
            FeaturesGeneric::Float32(f) => f.spec_feature_len(),
            FeaturesGeneric::Uint8(f) => f.spec_feature_len(),
        }
    }

    /// Empty storage for features of the given type and length; panics on a zero length
    pub fn new(capacity: usize, dt: DescriptorType, feature_len: usize) -> (f: Self)
        requires
            feature_len != 0,
        ensures
            f.wf(),
            f.spec_len() == 0,
            f.spec_desc_type() == dt,
            f.spec_feature_len() == feature_len,
    {
        match dt {
            DescriptorType::Uint8 => FeaturesGeneric::Uint8(FeaturesU8::new(capacity, feature_len)),
            DescriptorType::Float32 => FeaturesGeneric::Float32(FeaturesF32::new(capacity, feature_len)),
        }
    }

    /// Number of features
    pub fn len(&self) -> (n: usize)
        ensures
            n == self.spec_len(),
    {
        match self {
            FeaturesGeneric::Float32(f) => f.len(),
            FeaturesGeneric::Uint8(f) => f.len(),
        }
    }

    /// Number of elements of each feature
    pub fn feature_len(&self) -> (n: usize)
        ensures
            n == self.spec_feature_len(),
    {
        match self {
            FeaturesGeneric::Float32(f) => f.feature_len(),
            FeaturesGeneric::Uint8(f) => f.feature_len(),
        }
    }

    /// Element type of the features
    pub fn desc_type(&self) -> (dt: DescriptorType)
        ensures
            dt == self.spec_desc_type(),
    {
        match self {
            FeaturesGeneric::Float32(_) => DescriptorType::Float32,
            FeaturesGeneric::Uint8(_) => DescriptorType::Uint8,
        }
    }

    /// Insert `u8` features; inserting into `f32` storage panics
    pub fn insert_u8(&mut self, features: &[Vec<u8>])
        requires
            old(self).wf(),
            *old(self) is Uint8,
            forall|i: int| 0 <= i < features@.len() ==> (#[trigger] features@[i])@.len() == old(self).spec_feature_len(),
        ensures
            final(self).wf(),
            *final(self) is Uint8,
            final(self)->Uint8_0@ == old(self)->Uint8_0@ + features@.map_values(|r: Vec<u8>| r@),
            final(self).spec_feature_len() == old(self).spec_feature_len(),
            final(self)->Uint8_0.spec_storage() == old(self)->Uint8_0.spec_storage(),
    {
        match self {
            FeaturesGeneric::Uint8(f) => f.insert(features),
            FeaturesGeneric::Float32(_) => {},
        }
    }

    /// Insert `f32` features (by bit pattern); inserting into `u8` storage panics
    pub fn insert_f32(&mut self, features: &[Vec<u32>])
        requires
            old(self).wf(),
            *old(self) is Float32,
            forall|i: int| 0 <= i < features@.len() ==> (#[trigger] features@[i])@.len() == old(self).spec_feature_len(),
        ensures
            final(self).wf(),
            *final(self) is Float32,
            final(self)->Float32_0@ == old(self)->Float32_0@ + features@.map_values(|r: Vec<u32>| r@),
            final(self).spec_feature_len() == old(self).spec_feature_len(),
    {
        match self {
            FeaturesGeneric::Float32(f) => f.insert(features),
            FeaturesGeneric::Uint8(_) => {},
        }
    }

    /// A query for the `u8` features nearest to `value`; querying `f32` storage
    /// with `u8` values panics
    pub fn query_u8<'a>(&'a self, value: &[u8]) -> (q: QueryU8<'a>)
        requires
            self.wf(),
            *self is Uint8,
            value@.len() == self.spec_feature_len(),
            self.spec_feature_len() <= 0x1fff_ffff,
        ensures
            q.features() == self->Uint8_0,
            q.value() == value@,
    {
        match self {
            FeaturesGeneric::Uint8(f) => f.query(value),
            FeaturesGeneric::Float32(_) => vstd::pervasive::unreached(),
        }
    }
}

/// The encoding of features: their type code, then the encoding of the typed storage
pub open spec fn spec_encode_features(f: FeaturesGeneric) -> Seq<u8> {
    match f {
        FeaturesGeneric::Float32(g) => spec_u32_to_le_bytes(spec_type_code(DescriptorType::Float32))
            + spec_encode_f32(g.spec_feature_len(), g@),
        FeaturesGeneric::Uint8(g) => spec_u32_to_le_bytes(spec_type_code(DescriptorType::Uint8))
            + spec_encode_u8(g.spec_feature_len(), g@),
    }
}

/// Whether features can be written: the counts fit in 32 bits
pub open spec fn spec_features_encodable(f: FeaturesGeneric) -> bool {
    f.spec_feature_len() <= u32::MAX && f.spec_len() <= u32::MAX
}

/// Writing features panics: they are `u8` features in the padded 61-byte layout
pub open spec fn spec_write_features_panics(f: FeaturesGeneric) -> bool {
    f matches FeaturesGeneric::Uint8(g) && g.spec_storage() == StorageU8::Array61 && g@.len() > 0
}

/// Reading features at `pos` panics
pub open spec fn spec_read_features_panics(src: Seq<u8>, pos: int) -> bool {
    &&& pos + 4 <= src.len()
    &&& match spec_from_type_code(u32_at(src, pos)) {
        Some(DescriptorType::Uint8) => spec_read_u8_panics(src, pos + 4),
        Some(DescriptorType::Float32) => spec_read_f32_panics(src, pos + 4),
        None => false,
    }
}

/// What reading features at `pos` gives: the type, the feature length, the
/// features of that type and the position after them, or the error
pub enum FeaturesRead {
    Uint8(Seq<Seq<u8>>, nat, int),
    Float32(Seq<Seq<u32>>, nat, int),
}

/// Result of reading features at `pos`
pub open spec fn spec_read_features(src: Seq<u8>, pos: int) -> Result<FeaturesRead, FormatError> {
    if pos + 4 > src.len() {
        Err(FormatError::UnexpectedEof)
    } else {
        match spec_from_type_code(u32_at(src, pos)) {
            None => Err(FormatError::InvalidDescriptorType(u32_at(src, pos))),
            Some(DescriptorType::Uint8) => match spec_read_u8(src, pos + 4) {
                Ok((rows, fl, next)) => Ok(FeaturesRead::Uint8(rows, fl, next)),
                Err(e) => Err(e),
            },
            Some(DescriptorType::Float32) => match spec_read_f32(src, pos + 4) {
                Ok((rows, fl, next)) => Ok(FeaturesRead::Float32(rows, fl, next)),
                Err(e) => Err(e),
            },
        }
    }
}

/// `f` holds what was read
pub open spec fn spec_features_match(f: FeaturesGeneric, r: FeaturesRead) -> bool {
    match (f, r) {
        (FeaturesGeneric::Uint8(g), FeaturesRead::Uint8(rows, fl, _)) => g@ == rows && g.spec_feature_len() == fl,
        (FeaturesGeneric::Float32(g), FeaturesRead::Float32(rows, fl, _)) => g@ == rows && g.spec_feature_len() == fl,
        _ => false,
    }
}

/// Position after what was read
pub open spec fn spec_read_end(r: FeaturesRead) -> int {
    match r {
        FeaturesRead::Uint8(_, _, next) => next,
        FeaturesRead::Float32(_, _, next) => next,
    }
}

impl FeaturesGeneric {
    /// Append the encoding of the features to `dst`
    pub fn write_to(&self, dst: &mut Vec<u8>) -> (res: Result<(), FormatError>)
        requires
            self.wf(),
            !spec_write_features_panics(*self),
        ensures
            spec_features_encodable(*self) ==> res is Ok && final(dst)@ == old(dst)@ + spec_encode_features(*self),
            !spec_features_encodable(*self) ==> res == Err::<(), FormatError>(FormatError::ValueOverflow),
    {
        let ghost start = dst@;
        match self {
            FeaturesGeneric::Float32(f) => {
                write_u32(DescriptorType::Float32.type_code(), dst);
                let r = f.write_to(dst);
                assert(r is Ok ==> dst@ =~= start + spec_encode_features(*self));
                r
            },
            FeaturesGeneric::Uint8(f) => {
                write_u32(DescriptorType::Uint8.type_code(), dst);
                let r = f.write_to(dst);
                assert(r is Ok ==> dst@ =~= start + spec_encode_features(*self));
                r
            },
        }
    }

    /// Read features from `src` at `*pos`
    pub fn read_from(src: &[u8], pos: &mut usize) -> (res: Result<Self, FormatError>)
        requires
            !spec_read_features_panics(src@, *old(pos) as int),
        ensures
            match spec_read_features(src@, *old(pos) as int) {
                Ok(r) => res is Ok && res->Ok_0.wf() && spec_features_match(res->Ok_0, r) && *final(pos) == spec_read_end(r),
                Err(e) => res == Err::<Self, FormatError>(e),
            },
    {
        let code = read_u32(src, pos)?;
        match DescriptorType::try_from_code(code) {
            Err(_) => Err(FormatError::InvalidDescriptorType(code)),
            Ok(DescriptorType::Uint8) => {
                let f = FeaturesU8::read_from(src, pos)?;
                Ok(FeaturesGeneric::Uint8(f))
            },
            Ok(DescriptorType::Float32) => {
                let f = FeaturesF32::read_from(src, pos)?;
                Ok(FeaturesGeneric::Float32(f))
            },
        }
    }
}

/// Reading back the encoding of features gives features of the same type
/// holding the same rows, and the position right after them
pub proof fn lemma_features_generic_roundtrip(f: FeaturesGeneric, pre: Seq<u8>, post: Seq<u8>)
    requires
        f.wf(),
        spec_features_encodable(f),
    ensures
        !spec_read_features_panics(pre + spec_encode_features(f) + post, pre.len() as int),
        spec_read_features(pre + spec_encode_features(f) + post, pre.len() as int) matches Ok(r)
            && spec_features_match(f, r) && spec_read_end(r) == pre.len() + spec_encode_features(f).len(),
{
    lemma_auto_spec_u32_to_from_le_bytes();
    let src = pre + spec_encode_features(f) + post;
    let b = pre.len() as int;
    match f {
        FeaturesGeneric::Uint8(g) => {
            g.lemma_wf();
            let code = spec_u32_to_le_bytes(spec_type_code(DescriptorType::Uint8));
            assert(spec_window(src, b, 4) =~= code);
            let enc = spec_encode_u8(g.spec_feature_len(), g@);
            assert(src =~= (pre + code) + enc + post);
            self::u8::lemma_u8_roundtrip(g.spec_feature_len(), g@, pre + code, post);
        },
        FeaturesGeneric::Float32(g) => {
            g.lemma_wf();
            let code = spec_u32_to_le_bytes(spec_type_code(DescriptorType::Float32));
            assert(spec_window(src, b, 4) =~= code);
            let enc = spec_encode_f32(g.spec_feature_len(), g@);
            assert(src =~= (pre + code) + enc + post);
            lemma_f32_roundtrip(g.spec_feature_len(), g@, pre + code, post);
        },
    }
}

} // verus!
