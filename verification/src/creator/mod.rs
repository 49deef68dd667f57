//! Creating a vocabulary from training features by hierarchical k-means
use vstd::prelude::*;
use crate::dtype::DescriptorType;
use crate::matrix::Matrix;
use crate::features::FeaturesGeneric;
use crate::vocabulary::{Vocabulary, VocabularyParams, ParamsView};
use crate::vocabulary::params::truncated_name;
use crate::vocabulary::fbow::{tree_matches, build_node};
use self::feature::{FeatureInfo, spec_feature_info, spec_kept, gather_rows, rows_view};
use crate::features::f32::FeaturesF32;
use crate::vocabulary::Node;
use self::kmeans::InnerParams;
use self::tree::{CNode, CreateSpec, built, finishes};
use self::layout::{is_bfs, bfs_entries, features_of, build_blocks, is_block, word_count, block_count};
use self::rng::rng_from_seed;

pub mod rng;
pub mod feature;
pub mod kmeans;
pub mod tree;
pub mod layout;
pub mod bounds;

verus! {

/// Parameters for [creating](VocabularyCreator) a vocabulary
#[allow(non_snake_case)]
#[derive(Clone, Debug, PartialEq, Eq, Structural)]
pub struct VocabularyCreatorParams {
    /// Branching factor
    pub k: u32,
    /// Maximum tree depth
    pub L: Option<u32>,
    /// Number of threads to use while computing
    ///
    /// 0 => system autodetect
    /// 1 => single-threaded
    pub nthreads: usize,
    /// Maximum number of k-means iterations
    pub max_iters: usize,
    /// Print debug information
    pub verbose: bool,
}

impl Default for VocabularyCreatorParams {
    fn default() -> (p: Self)
        ensures
            p.k == 32,
            p.L is None,
            p.nthreads == 1,
            p.max_iters == 11,
            !p.verbose,
    {
        VocabularyCreatorParams { k: 32, L: None, nthreads: 1, max_iters: 11, verbose: false }
    }
}

/// Errors that can occur when creating a vocabulary
///
/// See [VocabularyCreator::create]
#[derive(Clone, Copy, Debug, PartialEq, Eq, Structural)]
pub enum CreateVocabularyError {
    /// No features (the input list was empty)
    NoFeatures,
    /// One of the provided arrays had zero columns
    EmptyFeature,
    /// One of the provided arrays had a different number of columns than the others
    ArrayDimMismatch,
}

/// An element type that vocabularies can be created from
pub trait VocabElement {
    /// Alignment of the features in the vocabulary made
    fn min_alignment() -> (a: usize)
        ensures
            a > 0,
    ;

    /// Descriptor type of the vocabulary made
    fn descriptor_type() -> DescriptorType;

    /// The alignment preferred for features of `ncols` elements
    spec fn preferred_alignment(ncols: usize) -> usize;

    /// Alignment preferred for features of `ncols` elements
    fn prefer_alignment(ncols: usize) -> (a: usize)
        requires
            ncols > 0,
        ensures
            a == Self::preferred_alignment(ncols),
            a > 0,
    ;
}

impl VocabElement for u8 {
    fn min_alignment() -> (a: usize)
        ensures
            a == 8,
    {
        8
    }

    fn descriptor_type() -> (dt: DescriptorType)
        ensures
            dt == DescriptorType::Uint8,
    {
        DescriptorType::Uint8
    }

    /// The widest of 16 (`u128`), 8 (`u64`) and 1 (`u8`) that divides the length
    open spec fn preferred_alignment(ncols: usize) -> usize {
        if ncols % 16 == 0 { 16usize } else if ncols % 8 == 0 { 8usize } else { 1usize }
    }

    /// The widest of 16 (`u128`), 8 (`u64`) and 1 (`u8`) that divides the length
    fn prefer_alignment(ncols: usize) -> (a: usize)
        ensures
            a == (if ncols % 16 == 0 { 16usize } else if ncols % 8 == 0 { 8usize } else { 1usize }),
    {
        if ncols % 16 == 0 {
            16
        } else if ncols % 8 == 0 {
            8
        } else {
            1
        }
    }
}

/// This class creates the vocabulary
pub struct VocabularyCreator {
    /// The parameters
    pub params: VocabularyCreatorParams,
}

impl VocabularyCreator {
    /// Most threads the creation uses
    pub const MAX_THREADS: usize = 100;

    /// Construct with given parameters
    pub fn new(params: VocabularyCreatorParams) -> (c: Self)
        ensures
            c.params == params,
    {
        VocabularyCreator { params }
    }

    /// Alignment preferred for features of `ncols` elements of type `T`
    pub fn prefer_alignment<T: VocabElement>(&self, ncols: usize) -> (a: usize)
        requires
            ncols > 0,
        ensures
            a == T::preferred_alignment(ncols),
            a > 0,
    {
        T::prefer_alignment(ncols)
    }
}

/// The inputs of creating a vocabulary from the training features `fs`
/// (of `d` bytes each) as the specification sees them
pub open spec fn spec_create(params: VocabularyCreatorParams, fs: Seq<Seq<u8>>, d: nat) -> CreateSpec {
    CreateSpec {
        fs: fs,
        d: d,
        k: params.k as nat,
        max_iters: params.max_iters as nat,
        max_depth: match params.L {
            Some(l) => Some(l as nat),
            None => None,
        },
    }
}

/// Every training feature, by index
pub open spec fn all_indices(n: nat) -> Seq<u32> {
    Seq::new(n, |i: int| i as u32)
}

/// Creating a vocabulary from the training features `fs` finishes without a
/// panic: `k` is not zero, the features and their distances fit the
/// counters, the construction ends whatever first centers are drawn, and
/// every tree it can make numbers its words and blocks in 32 bits
pub open spec fn create_ok(params: VocabularyCreatorParams, fs: Seq<Seq<u8>>, d: nat) -> bool {
    let cs = spec_create(params, fs, d);
    &&& params.k > 0
    &&& d <= 0x1fff_ffff
    &&& fs.len() <= u32::MAX
    &&& exists|fuel: nat| fuel < usize::MAX && #[trigger] finishes(cs, all_indices(fs.len()), 0, fuel)
    &&& forall|t: CNode| #[trigger] built(cs, t, all_indices(fs.len()), Seq::empty(), 0) ==>
        word_count(t) <= u32::MAX && block_count(t) <= u32::MAX
}

/// `v` is the vocabulary laid out from the tree of clusters `root`: its
/// blocks in breadth-first order, numbered in that order, with the features
/// of their children, and the parameters of a `u8` vocabulary named `name`
/// with features of `d` bytes, `k` children per node and one block per node
pub open spec fn vocabulary_of_tree(v: Vocabulary, root: CNode, name: Seq<char>, d: nat, k: u32) -> bool {
    exists|order: Seq<CNode>| {
        &&& is_bfs(root, order)
        &&& tree_matches(v.root, bfs_entries(order), 0)
        &&& v.features is Uint8
        &&& v.features.wf()
        &&& v.features.spec_feature_len() == d
        &&& v.features->Uint8_0@ == features_of(order)
        &&& v.params.wf()
        &&& v.params@ == (ParamsView {
            name: truncated_name(name),
            alignment: 8,
            nblocks: order.len() as u32,
            total_size: 0,
            desc_type: DescriptorType::Uint8,
            desc_size: d,
            m_k: k,
        })
    }
}

impl VocabularyCreator {
    /// Make the vocabulary of the tree of clusters `root`, of features of
    /// `desc_cols` bytes
    pub fn build_vocabulary(&self, root: CNode, desc_name: &str, desc_cols: usize) -> (r: Result<Vocabulary, CreateVocabularyError>)
        requires
            is_block(root),
            desc_cols > 0,
            tree::kid_features_len(root, desc_cols as nat),
            word_count(root) <= u32::MAX,
            block_count(root) <= u32::MAX,
        ensures
            r is Ok && vocabulary_of_tree(r->Ok_0, root, desc_name@, desc_cols as nat, self.params.k),
    {
        let (entries, features, nblocks) = build_blocks(&root, desc_cols);
        let tree = build_node(&entries, 0);
        let mut params = VocabularyParams::empty();
        let desc_size = desc_cols * DescriptorType::Uint8.element_size();
        params.set(<u8 as VocabElement>::min_alignment(), self.params.k, <u8 as VocabElement>::descriptor_type(), desc_size, nblocks, desc_name);
        let v = Vocabulary { params, root: tree, features: FeaturesGeneric::Uint8(features) };
        proof {
            let order = choose|order: Seq<CNode>| {
                &&& is_bfs(root, order)
                &&& crate::vocabulary::fbow::spec_entries_view(entries@) == bfs_entries(order)
                &&& features@ == features_of(order)
                &&& nblocks == order.len()
            };
            assert(v.features->Uint8_0@ == features_of(order));
        }
        Ok(v)
    }

    /// Create vocabulary from a set of `u8` features: each matrix holds the
    /// features of an image
    ///
    /// The features are clustered by hierarchical k-means: a cluster of more
    /// than `k` features is split into `k` clusters (the first center drawn
    /// from a generator seeded with zeros), down to depth `L`; the tree is
    /// then laid out breadth first.
    pub fn create(&self, features: Vec<Matrix<u8>>, desc_name: &str) -> (r: Result<Vocabulary, CreateVocabularyError>)
        requires
            forall|i: int| 0 <= i < features@.len() ==> (#[trigger] features@[i]).wf(),
            spec_feature_info(features@) matches Ok(fs) ==> create_ok(self.params, fs, spec_kept(features@)[0].ncols as nat),
        ensures
            match spec_feature_info(features@) {
                Err(e) => r == Err::<Vocabulary, CreateVocabularyError>(e),
                Ok(fs) => {
                    let d = spec_kept(features@)[0].ncols as nat;
                    &&& r is Ok
                    &&& exists|t: CNode| built(spec_create(self.params, fs, d), t, all_indices(fs.len()), Seq::empty(), 0)
                        && vocabulary_of_tree(r->Ok_0, t, desc_name@, d, self.params.k)
                }
            },
    {
        let info = FeatureInfo::create(features)?;
        let n = info.len();
        let ghost fs = info@;
        let ghost d = info.spec_feature_len();
        let ghost cs = spec_create(self.params, fs, d);
        let mut root_findices: Vec<u32> = Vec::with_capacity(n);
        let mut i: usize = 0;
        while i < n
            invariant
                i <= n,
                n == fs.len(),
                n <= u32::MAX,
                root_findices@ == all_indices(i as nat),
            decreases n - i,
        {
            root_findices.push(i as u32);
            i = i + 1;
            assert(root_findices@ =~= all_indices(i as nat));
        }
        let desc_cols = info.feature_len();
        let inner = InnerParams { k: self.params.k, max_iters: self.params.max_iters, features: info };
        assert(inner.spec_of(self.params.L) == cs);
        let mut rng = rng_from_seed([0u8; 32]);
        let ghost fuel = choose|fuel: nat| fuel < usize::MAX && #[trigger] finishes(cs, all_indices(fs.len()), 0, fuel);
        inner.features.rows_len_fact();
        proof {
            assert(kmeans::indices_ok(fs, root_findices@));
            assert(kmeans::features_ok(fs, d));
        }
        let empty_feature: Vec<u8> = Vec::new();
        assert(empty_feature@ =~= Seq::<u8>::empty());
        let root = inner.process(&mut rng, empty_feature, root_findices, 0, self.params.L, Ghost(fuel));
        proof {
            assert(is_block(root));
        }
        let r = self.build_vocabulary(root, desc_name, desc_cols);
        r
    }
}

/// `v` is the vocabulary whose root holds the `f32` features `rows` (by
/// bit pattern, `d` elements each) as its leaves, in order: one block, and
/// the parameters of an `f32` vocabulary named `name` with `k` children per node
pub open spec fn flat_f32_vocabulary(v: Vocabulary, rows: Seq<Seq<u32>>, name: Seq<char>, d: nat, k: u32) -> bool {
    &&& v.root.base == 0
    &&& v.root.n == rows.len()
    &&& v.root.children is None
    &&& v.features is Float32
    &&& v.features.wf()
    &&& v.features.spec_feature_len() == d
    &&& v.features->Float32_0@ == rows
    &&& v.params.wf()
    &&& v.params@ == (ParamsView {
        name: truncated_name(name),
        alignment: 32,
        nblocks: 1,
        total_size: 0,
        desc_type: DescriptorType::Float32,
        desc_size: 4 * d,
        m_k: k,
    })
}

impl VocabularyCreator {
    /// Create a vocabulary from a set of `f32` features (by bit pattern):
    /// each matrix holds the features of an image. With no more than `k`
    /// features, they become the leaves of the root; clustering more of them
    /// needs distances between `f32` features, which are not implemented (it
    /// panics, which `requires` rules out).
    pub fn create_f32(&self, features: Vec<Matrix<u32>>, desc_name: &str) -> (r: Result<Vocabulary, CreateVocabularyError>)
        requires
            forall|i: int| 0 <= i < features@.len() ==> (#[trigger] features@[i]).wf(),
            spec_feature_info(features@) matches Ok(rows) ==> rows.len() <= self.params.k
                && 4 * spec_kept(features@)[0].ncols <= usize::MAX,
        ensures
            match spec_feature_info(features@) {
                Err(e) => r == Err::<Vocabulary, CreateVocabularyError>(e),
                Ok(rows) => r is Ok && flat_f32_vocabulary(r->Ok_0, rows, desc_name@, spec_kept(features@)[0].ncols as nat, self.params.k),
            },
    {
        let (rows, desc_cols) = gather_rows(features)?;
        let mut stored = FeaturesF32::new(rows.len(), desc_cols);
        stored.insert(rows.as_slice());
        assert(rows@.map_values(|r: Vec<u32>| r@) =~= rows_view(rows@));
        let mut params = VocabularyParams::empty();
        let desc_size = desc_cols * DescriptorType::Float32.element_size();
        params.set(32, self.params.k, DescriptorType::Float32, desc_size, 1, desc_name);
        let root = Node { base: 0, n: rows.len() as u32, children: None };
        Ok(Vocabulary { params, root, features: FeaturesGeneric::Float32(stored) })
    }
}

} // verus!
