//! Bag-of-visual-words vocabularies: vocabulary trees of binary or float
//! descriptors, the FBOW file format, and vocabulary creation by
//! hierarchical k-means.
use vstd::prelude::*;

pub mod dtype;
pub mod serde;
pub mod convert;
pub mod text;
pub mod scoring;
pub mod features;
pub mod bow;
pub mod matrix;
pub mod vocabulary;
pub mod creator;
pub mod db;
pub mod feature_file;
pub mod view;

pub use dtype::{DescriptorType, InvalidDescriptorType};
pub use serde::{Serialize, Deserialize, SelfHash, FormatError};
pub use scoring::{Scoring, LNorm};
pub use bow::{WordCounts, Features, Bow};
pub use db::Database;
pub use matrix::Matrix;
pub use vocabulary::{Vocabulary, VocabularyParams, TransformError, NodePath, NodeRef, ParseValidationMode, VocabularyReadOptions, ParseWarning};
pub use creator::{VocabularyCreator, VocabularyCreatorParams, CreateVocabularyError, VocabElement};

verus! {

} // verus!
