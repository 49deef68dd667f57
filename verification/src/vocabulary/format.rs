//! Reading and writing vocabularies: the FBOW and VFBOW formats, told apart
//! by their 8-byte signature
use vstd::prelude::*;
use vstd::bytes::*;
use crate::serde::spec_window;
use crate::dtype::DescriptorType;
use crate::text::{find_nul, str_from_utf8};
use crate::serde::{FormatError, read_u32, read_u64, write_u32, write_u32ish, write_u64, u32_at};
use crate::features::{FeaturesGeneric, FeaturesRead, spec_read_features, spec_read_features_panics, spec_encode_features,
    spec_features_encodable, spec_write_features_panics, spec_features_match, spec_read_end,
    lemma_features_generic_roundtrip};
use super::{Vocabulary, VocabularyParams, Node};
use super::params::{ParamsView, spec_read_params, spec_read_params_panics, spec_encodable, spec_encode_params,
    spec_roundtrips, lemma_params_roundtrip};
use super::options::{VocabularyReadOptions, ReadFbowOptions, ParseWarning, spec_fbow_options};
use super::fbow::{FbowRead, u64_at, spec_read_fbow, vocabulary_matches, lemma_read_fbow_uniform, not_rejected};
use super::options::ParseValidationMode;

verus! {

/// Signature of the FBOW format
pub const FBOW_MAGIC: u64 = 55824124;

/// Signature of the VFBOW format
pub const VFBOW_MAGIC: u64 = 5546449913086866150;

/// What reading a VFBOW vocabulary gives: its parameters and features, and
/// the first word id and number of children of its root
pub struct VfbowRead {
    pub params: ParamsView,
    pub features: FeaturesRead,
    pub base: u32,
    pub n: u32,
}

/// What reading a vocabulary gives, by format
pub enum VocabularyRead {
    Fbow(FbowRead),
    Vfbow(VfbowRead),
}

/// `v` is the vocabulary made of what was read
pub open spec fn read_matches(v: Vocabulary, r: VocabularyRead) -> bool {
    match r {
        VocabularyRead::Fbow(fr) => vocabulary_matches(v, fr),
        VocabularyRead::Vfbow(vr) => {
            &&& v.params.wf()
            &&& v.params@ == vr.params
            &&& v.features.wf()
            &&& spec_features_match(v.features, vr.features)
            &&& v.root == (Node { base: vr.base, n: vr.n, children: None })
        },
    }
}

/// Reading a vocabulary at `pos`: the warnings reported, and what was read
/// or the error. An FBOW file is read as such. A VFBOW file holds the
/// parameters, the features and the root's record: its first word id, its
/// number of children and its number of branches, which must be zero (the
/// format gives branches no encoding).
pub open spec fn spec_read_vocabulary(src: Seq<u8>, pos: int, options: VocabularyReadOptions) -> (Seq<ParseWarning>, Result<VocabularyRead, FormatError>) {
    if pos + 8 > src.len() {
        (Seq::empty(), Err(FormatError::UnexpectedEof))
    } else if u64_at(src, pos) == FBOW_MAGIC {
        let r = spec_read_fbow(src, pos + 8, spec_fbow_options(options));
        (r.0, match r.1 {
            Ok(fr) => Ok(VocabularyRead::Fbow(fr)),
            Err(e) => Err(e),
        })
    } else if u64_at(src, pos) == VFBOW_MAGIC {
        (Seq::empty(), match spec_read_params(src, pos + 8) {
            Err(e) => Err(e),
            Ok((p, next)) => match spec_read_features(src, next) {
                Err(e) => Err(e),
                Ok(fr) => {
                    let at = spec_read_end(fr);
                    if at + 12 > src.len() {
                        Err(FormatError::UnexpectedEof)
                    } else {
                        Ok(VocabularyRead::Vfbow(VfbowRead { params: p, features: fr, base: u32_at(src, at), n: u32_at(src, at + 4) }))
                    }
                },
            },
        })
    } else {
        (Seq::empty(), Err(FormatError::InvalidSignature(u64_at(src, pos))))
    }
}

/// Reading a vocabulary at `pos` panics. An FBOW file never does; a VFBOW
/// file does when its parameters or its features cannot be held, or when
/// its root has branches, whose encoding is not implemented
pub open spec fn spec_read_vocabulary_panics(src: Seq<u8>, pos: int, options: VocabularyReadOptions) -> bool {
    &&& pos + 8 <= src.len()
    &&& u64_at(src, pos) == VFBOW_MAGIC
    &&& (spec_read_params_panics(src, pos + 8) || match spec_read_params(src, pos + 8) {
        Ok((_, next)) => spec_read_features_panics(src, next) || match spec_read_features(src, next) {
            Ok(fr) => spec_read_end(fr) + 12 <= src.len() && u32_at(src, spec_read_end(fr) + 8) != 0,
            Err(_) => false,
        },
        Err(_) => false,
    })
}

/// Whether the `u8` or `f32` features at `pos` cannot be held
fn features_read_panics(src: &[u8], pos: usize) -> (b: bool)
    ensures
        b == spec_read_features_panics(src@, pos as int),
{
    if pos > src.len() || src.len() - pos < 4 {
        return false;
    }
    let mut p = pos;
    let code = match read_u32(src, &mut p) {
        Ok(c) => c,
        Err(_) => { return false; },
    };
    match DescriptorType::try_from_code(code) {
        Err(_) => false,
        Ok(DescriptorType::Uint8) => {
            if src.len() - pos < 12 {
                return false;
            }
            let fl = match read_u32(src, &mut p) {
                Ok(v) => v,
                Err(_) => { return false; },
            };
            let n = match read_u32(src, &mut p) {
                Ok(v) => v,
                Err(_) => { return false; },
            };
            proof {
                assert((n as int) * (fl as int) <= u32::MAX * u32::MAX) by (nonlinear_arith);
            }
            fl == 0 || (n as u128) * (fl as u128) > (src.len() - pos - 12) as u128
        },
        Ok(DescriptorType::Float32) => {
            if src.len() - pos < 12 {
                return false;
            }
            let _fl = match read_u32(src, &mut p) {
                Ok(v) => v,
                Err(_) => { return false; },
            };
            let n = match read_u32(src, &mut p) {
                Ok(v) => v,
                Err(_) => { return false; },
            };
            n == 0
        },
    }
}

/// Whether reading a vocabulary at `pos` panics, which [`Vocabulary::read_from`]
/// rules out
pub fn vocabulary_read_panics(src: &[u8], pos: usize, options: VocabularyReadOptions) -> (b: bool)
    ensures
        b == spec_read_vocabulary_panics(src@, pos as int, options),
{
    if pos > src.len() || src.len() - pos < 8 {
        return false;
    }
    let mut p = pos;
    let magic = match read_u64(src, &mut p) {
        Ok(m) => m,
        Err(_) => { return false; },
    };
    if magic != VFBOW_MAGIC {
        return false;
    }
    let ghost after_magic = p as int;
    if src.len() - p >= 50 {
        let field = vstd::slice::slice_subrange(src, p, p + 50);
        assert(field@ =~= spec_window(src@, after_magic, 50));
        if find_nul(field) == 50 {
            if let Some(_) = str_from_utf8(field) {
                return true;
            }
        }
    }
    let params = VocabularyParams::read_from(src, &mut p);
    if params.is_err() {
        return false;
    }
    if features_read_panics(src, p) {
        return true;
    }
    let features = FeaturesGeneric::read_from(src, &mut p);
    if features.is_err() {
        return false;
    }
    if p > src.len() || src.len() - p < 12 {
        return false;
    }
    let mut q = p + 8;
    match read_u32(src, &mut q) {
        Ok(branches) => branches != 0,
        Err(_) => false,
    }
}

/// The record of the root node: its first word id, its number of children,
/// and its number of branches
pub open spec fn spec_encode_root(root: Node) -> Seq<u8> {
    spec_u32_to_le_bytes(root.base) + spec_u32_to_le_bytes(root.n) + spec_u32_to_le_bytes(match root.children {
        Some(ch) => ch@.len() as u32,
        None => 0,
    })
}

/// The VFBOW encoding of a vocabulary whose root has no branches
pub open spec fn spec_encode_vocabulary(v: Vocabulary) -> Seq<u8> {
    spec_u64_to_le_bytes(VFBOW_MAGIC) + spec_encode_params(v.params@) + spec_encode_features(v.features) + spec_encode_root(v.root)
}

/// Writing a vocabulary panics: its features cannot be written, or its root
/// has branches (writing the nodes below the root is not implemented)
pub open spec fn spec_write_vocabulary_panics(v: Vocabulary) -> bool {
    &&& spec_encodable(v.params@)
    &&& {
        ||| spec_write_features_panics(v.features)
        ||| spec_features_encodable(v.features) && (v.root.children matches Some(ch) && ch@.len() > 0)
    }
}

impl Vocabulary {
    /// Write the vocabulary in the VFBOW format: the signature, the
    /// parameters, the features and the root node
    pub fn write_to(&self, dst: &mut Vec<u8>) -> (res: Result<(), FormatError>)
        requires
            self.features.wf(),
            !spec_write_vocabulary_panics(*self),
        ensures
            spec_encodable(self.params@) && spec_features_encodable(self.features) ==>
                res is Ok && final(dst)@ == old(dst)@ + spec_encode_vocabulary(*self),
            !(spec_encodable(self.params@) && spec_features_encodable(self.features)) ==>
                res == Err::<(), FormatError>(FormatError::ValueOverflow),
    {
        let ghost start = dst@;
        write_u64(VFBOW_MAGIC, dst);
        self.params.write_to(dst)?;
        self.features.write_to(dst)?;
        let ghost mid = dst@;
        write_u32(self.root.base, dst);
        write_u32(self.root.n, dst);
        match &self.root.children {
            Some(children) => {
                write_u32ish(children.len(), dst)?;
                if children.len() > 0 {
                    return vstd::pervasive::unreached();
                }
            },
            None => {
                write_u32ish(0, dst);
            },
        }
        assert(dst@ =~= start + spec_encode_vocabulary(*self));
        Ok(())
    }

    /// Read a vocabulary at `*pos`, in the FBOW or the VFBOW format,
    /// reporting irregularities of an FBOW file as `options` says
    pub fn read_from(src: &[u8], pos: &mut usize, options: VocabularyReadOptions, warnings: &mut Vec<ParseWarning>) -> (r: Result<Self, FormatError>)
        requires
            !spec_read_vocabulary_panics(src@, *old(pos) as int, options),
        ensures
            final(warnings)@ == old(warnings)@ + spec_read_vocabulary(src@, *old(pos) as int, options).0,
            match spec_read_vocabulary(src@, *old(pos) as int, options).1 {
                Ok(vr) => r is Ok && read_matches(r->Ok_0, vr),
                Err(e) => r == Err::<Self, FormatError>(e),
            },
    {
        let magic = read_u64(src, pos)?;
        if magic == FBOW_MAGIC {
            let fbow_options: ReadFbowOptions = ReadFbowOptions::from(options);
            Self::read_fbow(src, pos, &fbow_options, warnings)
        } else if magic == VFBOW_MAGIC {
            assert(warnings@ =~= old(warnings)@ + Seq::<ParseWarning>::empty());
            let params = VocabularyParams::read_from(src, pos)?;
            let features = FeaturesGeneric::read_from(src, pos)?;
            let base = read_u32(src, pos)?;
            let n = read_u32(src, pos)?;
            let branches = read_u32(src, pos)?;
            if branches != 0 {
                return vstd::pervasive::unreached();
            }
            Ok(Vocabulary { params, root: Node { base, n, children: None }, features })
        } else {
            Err(FormatError::InvalidSignature(magic))
        }
    }
}

/// Reading a vocabulary with both options set to one mode `m`: unless `m`
/// is to warn, no warning is reported (ignored irregularities are silent,
/// strict ones are errors); unless `m` is strict, reading fails on no
/// irregularity, only on input that cannot be read at all
pub proof fn lemma_read_uniform(src: Seq<u8>, pos: int, options: VocabularyReadOptions, m: ParseValidationMode)
    requires
        options.too_many_children == m,
        options.inconsistent_block == m,
    ensures
        m != ParseValidationMode::Warn ==> spec_read_vocabulary(src, pos, options).0 == Seq::<ParseWarning>::empty(),
        m != ParseValidationMode::Strict ==> not_rejected(spec_read_vocabulary(src, pos, options).1),
{
    if pos + 8 <= src.len() && u64_at(src, pos) == FBOW_MAGIC {
        lemma_read_fbow_uniform(src, pos + 8, spec_fbow_options(options), m);
    }
}


/// A vocabulary whose root has no branches, read back from its encoding
/// wherever it stands, is read as it was written: without a panic or a
/// warning, with its parameters, its features and its root
pub proof fn lemma_vocabulary_roundtrip(v: Vocabulary, pre: Seq<u8>, post: Seq<u8>, options: VocabularyReadOptions)
    requires
        spec_roundtrips(v.params@),
        v.features.wf(),
        spec_features_encodable(v.features),
        v.root.children is None,
    ensures
        !spec_read_vocabulary_panics(pre + spec_encode_vocabulary(v) + post, pre.len() as int, options),
        spec_read_vocabulary(pre + spec_encode_vocabulary(v) + post, pre.len() as int, options).0 == Seq::<ParseWarning>::empty(),
        spec_read_vocabulary(pre + spec_encode_vocabulary(v) + post, pre.len() as int, options).1 matches Ok(VocabularyRead::Vfbow(vr))
            && vr.params == v.params@
            && spec_features_match(v.features, vr.features)
            && forall|w: Vocabulary| read_matches(w, VocabularyRead::Vfbow(vr)) ==>
                w.params@ == v.params@ && w.root == v.root && spec_features_match(w.features, vr.features),
{
    lemma_auto_spec_u64_to_from_le_bytes();
    lemma_auto_spec_u32_to_from_le_bytes();
    let magic = spec_u64_to_le_bytes(VFBOW_MAGIC);
    let pb = spec_encode_params(v.params@);
    let fb = spec_encode_features(v.features);
    let rb = spec_encode_root(v.root);
    let src = pre + spec_encode_vocabulary(v) + post;
    let b = pre.len() as int;
    assert(src =~= pre + magic + pb + fb + rb + post);
    assert(spec_window(src, b, 8) =~= magic);
    assert(u64_at(src, b) == VFBOW_MAGIC);
    lemma_params_roundtrip(v.params@, pre + magic, fb + rb + post);
    assert(src =~= (pre + magic) + pb + (fb + rb + post));
    let p8 = pre + magic + pb;
    lemma_features_generic_roundtrip(v.features, p8, rb + post);
    assert(src =~= p8 + fb + (rb + post));
    let fr = spec_read_features(src, b + 8 + 78)->Ok_0;
    let at = spec_read_end(fr);
    assert(at == b + 8 + 78 + fb.len());
    assert(spec_window(src, at, 4) =~= spec_u32_to_le_bytes(v.root.base));
    assert(spec_window(src, at + 4, 4) =~= spec_u32_to_le_bytes(v.root.n));
    assert(spec_window(src, at + 8, 4) =~= spec_u32_to_le_bytes(0u32));
    assert(u32_at(src, at + 8) == 0);
}

} // verus!
