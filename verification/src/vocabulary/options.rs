//! How irregular data is treated when a vocabulary is read
use vstd::prelude::*;
use vstd::std_specs::convert::FromSpecImpl;
use crate::serde::FormatError;

verus! {

/// How an irregularity in the data being read is treated
#[derive(Clone, Copy, Debug, PartialEq, Eq, Structural, PartialOrd, Ord)]
pub enum ParseValidationMode {
    /// Silently accept invalid data
    Ignore,
    /// Report a warning and accept the data
    Warn,
    /// Return an error on invalid data
    Strict,
}

/// Options for reading a vocabulary
#[derive(Clone, Copy, Debug)]
#[non_exhaustive]
pub struct VocabularyReadOptions {
    /// A block declares more children than there is room for
    pub too_many_children: ParseValidationMode,
    /// Any other inconsistency within the blocks
    pub inconsistent_block: ParseValidationMode,
}

impl VocabularyReadOptions {
    /// The same mode for every check
    pub fn all(mode: ParseValidationMode) -> (o: Self)
        ensures
            o.too_many_children == mode,
            o.inconsistent_block == mode,
    {
        VocabularyReadOptions { too_many_children: mode, inconsistent_block: mode }
    }
}

/// The default options: warn about every irregularity
pub open spec fn spec_default_read_options() -> VocabularyReadOptions {
    VocabularyReadOptions { too_many_children: ParseValidationMode::Warn, inconsistent_block: ParseValidationMode::Warn }
}

impl Default for VocabularyReadOptions {
    /// Warn about every irregularity
    fn default() -> (o: Self)
        ensures
            o == spec_default_read_options(),
    {
        Self::all(ParseValidationMode::Warn)
    }
}

/// The checks made while reading an FBOW file, each with its mode
#[derive(Clone, Copy, Debug)]
pub struct ReadFbowOptions {
    /// The descriptor name is not terminated by a NUL byte, or is not UTF-8
    pub invalid_name: ParseValidationMode,
    /// Padding bytes are not zero
    pub nonzero_padding: ParseValidationMode,
    /// A block declares more children than there is room for
    pub too_many_children: ParseValidationMode,
    /// A block's leaf flag is neither 0 nor 1
    pub inconsistent_block: ParseValidationMode,
    /// A child's weight is not 1
    pub invalid_weight: ParseValidationMode,
    /// A child refers back to an earlier block
    pub block_cycle: ParseValidationMode,
    /// A child refers past the last block
    pub invalid_child: ParseValidationMode,
}

/// The FBOW checks under `value`: too many children by its own mode, every
/// other check by the mode for inconsistent blocks
pub open spec fn spec_fbow_options(value: VocabularyReadOptions) -> ReadFbowOptions {
    ReadFbowOptions {
        invalid_name: value.inconsistent_block,
        nonzero_padding: value.inconsistent_block,
        inconsistent_block: value.inconsistent_block,
        too_many_children: value.too_many_children,
        invalid_weight: value.inconsistent_block,
        block_cycle: value.inconsistent_block,
        invalid_child: value.inconsistent_block,
    }
}

impl From<VocabularyReadOptions> for ReadFbowOptions {
    fn from(value: VocabularyReadOptions) -> (o: Self) {
        ReadFbowOptions {
            invalid_name: value.inconsistent_block,
            nonzero_padding: value.inconsistent_block,
            inconsistent_block: value.inconsistent_block,
            too_many_children: value.too_many_children,
            invalid_weight: value.inconsistent_block,
            block_cycle: value.inconsistent_block,
            invalid_child: value.inconsistent_block,
        }
    }
}

impl FromSpecImpl<VocabularyReadOptions> for ReadFbowOptions {
    open spec fn obeys_from_spec() -> bool {
        true
    }

    open spec fn from_spec(value: VocabularyReadOptions) -> ReadFbowOptions {
        spec_fbow_options(value)
    }
}

/// An irregularity found while reading a vocabulary
#[derive(Clone, Copy, Debug, PartialEq, Eq, Structural)]
pub enum ParseWarning {
    /// The descriptor name has no NUL terminator
    NameNotTerminated,
    /// The descriptor name is not valid UTF-8 (it is read as empty)
    InvalidName,
    /// A padding of the header at byte `offset` is not zero
    NonzeroPadding { offset: u32 },
    /// Block `block` declares `n` children, more than the `k` there is room for
    TooManyChildren { block: u32, n: u32, k: u32 },
    /// A block's leaf flag is `value`, neither 0 nor 1
    InvalidLeafFlag { value: u16 },
    /// A child of block `block` has a weight (given by its bits) other than 1
    InvalidWeight { block: u32, bits: u32 },
    /// A child of block `block` refers to block `child`, past the last block
    ChildOutOfBounds { block: u32, child: u32, nblocks: u32 },
    /// A child of block `block` refers back to the earlier block `child`
    BlockCycle { block: u32, child: u32 },
}

/// What a sequence of irregularities, each with the mode of its check, gives:
/// the warnings reported before the first strict one, and that one if any
pub open spec fn spec_emit(events: Seq<(ParseWarning, ParseValidationMode)>) -> (Seq<ParseWarning>, Option<ParseWarning>)
    decreases events.len(),
{
    if events.len() == 0 {
        (Seq::empty(), None)
    } else {
        let rest = spec_emit(events.drop_first());
        match events[0].1 {
            ParseValidationMode::Strict => (Seq::empty(), Some(events[0].0)),
            ParseValidationMode::Warn => (seq![events[0].0] + rest.0, rest.1),
            ParseValidationMode::Ignore => rest,
        }
    }
}

/// A sequence with no strict irregularity, followed by another
pub proof fn lemma_emit_append(a: Seq<(ParseWarning, ParseValidationMode)>, b: Seq<(ParseWarning, ParseValidationMode)>)
    requires
        spec_emit(a).1 is None,
    ensures
        spec_emit(a + b) == (spec_emit(a).0 + spec_emit(b).0, spec_emit(b).1),
    decreases a.len(),
{
    if a.len() == 0 {
        assert(a + b =~= b);
        assert(spec_emit(a).0 + spec_emit(b).0 =~= spec_emit(b).0);
    } else {
        assert((a + b).drop_first() =~= a.drop_first() + b);
        lemma_emit_append(a.drop_first(), b);
        if a[0].1 == ParseValidationMode::Warn {
            assert(seq![a[0].0] + (spec_emit(a.drop_first()).0 + spec_emit(b).0)
                =~= (seq![a[0].0] + spec_emit(a.drop_first()).0) + spec_emit(b).0);
        }
    }
}

/// Appending one irregularity to a sequence that had no strict one
pub proof fn lemma_emit_push(events: Seq<(ParseWarning, ParseValidationMode)>, w: ParseWarning, m: ParseValidationMode)
    requires
        spec_emit(events).1 is None,
    ensures
        spec_emit(events.push((w, m))) == (match m {
            ParseValidationMode::Strict => (spec_emit(events).0, Some(w)),
            ParseValidationMode::Warn => (spec_emit(events).0.push(w), None::<ParseWarning>),
            ParseValidationMode::Ignore => spec_emit(events),
        }),
{
    let one = seq![(w, m)];
    assert(events.push((w, m)) =~= events + one);
    lemma_emit_append(events, one);
    assert(one.drop_first() =~= Seq::<(ParseWarning, ParseValidationMode)>::empty());
    assert(spec_emit(one.drop_first()) == (Seq::<ParseWarning>::empty(), None::<ParseWarning>));
    let e = spec_emit(events).0;
    assert(e + Seq::<ParseWarning>::empty() =~= e);
    assert(e + (seq![w] + Seq::<ParseWarning>::empty()) =~= e.push(w));
}

/// Report the irregularity `w` under `mode`: an error when strict, a warning
/// appended to `warnings` when warned, nothing when ignored
pub fn report(w: ParseWarning, mode: ParseValidationMode, warnings: &mut Vec<ParseWarning>) -> (r: Result<(), FormatError>)
    ensures
        mode == ParseValidationMode::Strict ==> r == Err::<(), FormatError>(FormatError::Rejected(w))
            && final(warnings)@ == old(warnings)@,
        mode == ParseValidationMode::Warn ==> r is Ok && final(warnings)@ == old(warnings)@.push(w),
        mode == ParseValidationMode::Ignore ==> r is Ok && final(warnings)@ == old(warnings)@,
{
    match mode {
        ParseValidationMode::Strict => Err(FormatError::Rejected(w)),
        ParseValidationMode::Warn => {
            warnings.push(w);
            Ok(())
        },
        ParseValidationMode::Ignore => Ok(()),
    }
}

} // verus!
