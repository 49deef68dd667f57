//! Vocabulary data structure: a tree of visual words
use vstd::prelude::*;
use crate::dtype::DescriptorType;
use crate::features::FeaturesGeneric;
use crate::features::distance::DistanceQuery;
use crate::features::keyed::{KeyedQuery, key_window};
use crate::bow::{WordCounts, Features};
use crate::text::{chars49, name49_as_str};
use crate::matrix::Matrix;
use crate::features::u8::{distances, QueryU8};
use crate::features::distance::{first_argmin, lemma_first_argmin};

pub mod params;
pub mod node;
pub mod options;
pub mod fbow;
pub mod format;

pub use params::{VocabularyParams, ParamsView};
pub use node::{NodePath, NodeRef, spec_word_ids};
pub use options::{ParseValidationMode, VocabularyReadOptions, ReadFbowOptions, ParseWarning};

verus! {

/// A node in the vocabulary tree
///
/// Its `n` children are the words `base..base+n`; the first ones (as many as
/// `children` holds) are branches with a subtree each, the others are leaves.
#[derive(Debug)]
pub struct Node {
    /// Node ID (feature index of the first child)
    pub base: u32,
    /// Number of children (branches + leaves)
    pub n: u32,
    /// Child branches
    pub children: Option<Vec<Node>>,
}

impl Node {
    /// Create empty node
    pub fn empty() -> (node: Self)
        ensures
            node.base == 0,
            node.n == 0,
            node.children is None,
    {
        Node { base: 0, n: 0, children: None }
    }

    /// Number of children nodes (branches)
    pub fn num_children(&self) -> (k: usize)
        ensures
            k == spec_num_children(*self),
    {
        match &self.children {
            None => 0,
            Some(children) => children.len(),
        }
    }
}

/// Number of branches of a node
pub open spec fn spec_num_children(node: Node) -> nat {
    match node.children {
        None => 0,
        Some(ch) => ch@.len(),
    }
}

/// The branch that child `c` of `node` is, if it is one
pub open spec fn spec_branch(node: Node, c: nat) -> Option<Node> {
    match node.children {
        Some(ch) => if c < ch@.len() { Some(ch@[c as int]) } else { None },
        None => None,
    }
}

/// Descending the tree from `node` with query `q` does not panic: every node
/// reached has children, lies within the features, and has word ids that fit
/// in 32 bits
pub open spec fn descent_ok(node: Node, mi: spec_fn(nat, nat) -> nat, nf: nat) -> bool
    decreases node,
{
    &&& node.n > 0
    &&& node.base + node.n <= nf
    &&& node.base + node.n <= u32::MAX + 1
    &&& match node.children {
        Some(ch) => {
            let c = mi(node.base as nat, node.n as nat);
            c < ch@.len() ==> descent_ok(ch@[c as int], mi, nf)
        },
        None => true,
    }
}

/// The word (leaf) that descending from `node` with query `q` ends at: at each
/// node, the child nearest to the value; a branch is descended into, a leaf
/// is the result
pub open spec fn spec_word(node: Node, mi: spec_fn(nat, nat) -> nat) -> int
    decreases node,
{
    let c = mi(node.base as nat, node.n as nat);
    match node.children {
        Some(ch) => if c < ch@.len() { spec_word(ch@[c as int], mi) } else { node.base + c },
        None => node.base + c,
    }
}

/// The node whose id features are grouped under when descending from `node`
/// with query `q`: the node at depth `level` when the descent reaches it, else
/// the node the word was found in
pub open spec fn spec_group(node: Node, mi: spec_fn(nat, nat) -> nat, level: Option<nat>) -> u32
    decreases node,
{
    if level == Some(0nat) {
        node.base
    } else {
        let c = mi(node.base as nat, node.n as nat);
        let next = match level {
            Some(l) => Some((l - 1) as nat),
            None => None,
        };
        match node.children {
            Some(ch) => if c < ch@.len() { spec_group(ch@[c as int], mi, next) } else { node.base },
            None => node.base,
        }
    }
}

/// Descending from `node` until depth `level` (or a leaf) does not panic
pub open spec fn descent_one_ok(node: Node, mi: spec_fn(nat, nat) -> nat, nf: nat, level: Option<nat>) -> bool
    decreases node,
{
    if level == Some(0nat) {
        true
    } else {
        let next = match level {
            Some(l) => Some((l - 1) as nat),
            None => None,
        };
        &&& node.n > 0
        &&& node.base + node.n <= nf
        &&& match node.children {
            Some(ch) => {
                let c = mi(node.base as nat, node.n as nat);
                c < ch@.len() ==> descent_one_ok(ch@[c as int], mi, nf, next)
            },
            None => true,
        }
    }
}

/// Path of a single-feature descent from `node`: the child index taken at each
/// branch, and the child index of the leaf found (none when the descent
/// stopped at depth `level`)
pub open spec fn spec_path(node: Node, mi: spec_fn(nat, nat) -> nat, level: Option<nat>) -> (Seq<nat>, Option<u32>)
    decreases node,
{
    if level == Some(0nat) {
        (Seq::empty(), None)
    } else {
        let c = mi(node.base as nat, node.n as nat);
        let next = match level {
            Some(l) => Some((l - 1) as nat),
            None => None,
        };
        match node.children {
            Some(ch) => if c < ch@.len() {
                let r = spec_path(ch@[c as int], mi, next);
                (seq![c] + r.0, r.1)
            } else {
                (Seq::empty(), Some(c as u32))
            },
            None => (Seq::empty(), Some(c as u32)),
        }
    }
}

/// Error during feature transformation
///
/// See [Vocabulary::transform], [Vocabulary::transform_one]
#[derive(Clone, Copy, Debug, PartialEq, Eq, Structural)]
pub enum TransformError {
    /// No input data
    NoInputData,
    /// Feature size does not match vocabulary
    SizeMismatch {
        /// Vocabulary feature length
        vocab_flen: usize,
        /// Input feature length
        feature_len: usize,
    },
    /// Feature type does not match vocabulary (e.g., u8 vs f32)
    DTypeMismatch,
}

/// Main class to represent a vocabulary of visual words
#[derive(Debug)]
pub struct Vocabulary {
    /// Vocabulary parameters
    pub params: VocabularyParams,
    /// Root node
    pub root: Node,
    /// Features data
    pub features: FeaturesGeneric,
}

/// The nearest-child function of a query
pub open spec fn query_fn<Q: DistanceQuery>(q: Q) -> spec_fn(nat, nat) -> nat {
    |o: nat, l: nat| q.spec_min_index(o, l)
}

/// The counts of the words `words`
pub open spec fn spec_word_counts(words: Seq<u32>) -> Map<u32, u32>
    decreases words.len(),
{
    if words.len() == 0 {
        Map::empty()
    } else {
        let m = spec_word_counts(words.drop_last());
        let w = words.last();
        m.insert(w, (if m.contains_key(w) { m[w] + 1 } else { 1 }) as u32)
    }
}

/// For each group node of `groups`, the indices at which it stands, in order
pub open spec fn spec_groups(groups: Seq<u32>) -> Map<u32, Seq<u32>>
    decreases groups.len(),
{
    if groups.len() == 0 {
        Map::empty()
    } else {
        let m = spec_groups(groups.drop_last());
        let g = groups.last();
        m.insert(g, (if m.contains_key(g) { m[g] } else { Seq::<u32>::empty() }).push((groups.len() - 1) as u32))
    }
}

/// Descend from `node`, returning the word the descent ends at and the group node
fn descend<Q: DistanceQuery>(node: &Node, q: &Q, level: Option<usize>) -> (r: (u32, u32))
    requires
        descent_ok(*node, query_fn(*q), q.spec_num_features()),
    ensures
        r.0 == spec_word(*node, query_fn(*q)),
        r.1 == spec_group(*node, query_fn(*q), match level { Some(l) => Some(l as nat), None => None }),
    decreases node,
{
    let c = q.min_index(node.base as usize, node.n as usize);
    let child_idx = c as u32;
    let next = match level {
        Some(l) => if l == 0 { None } else { Some(l - 1) },
        None => None,
    };
    match &node.children {
        Some(children) => {
            if c < children.len() {
                let (word, group) = descend(&children[c], q, next);
                if level == Some(0usize) {
                    return (word, node.base);
                }
                return (word, group);
            }
        },
        None => {},
    }
    (node.base + child_idx, node.base)
}

/// The nearest-child function of Hamming queries for `value` over `rows`: the
/// first feature at least distance
pub open spec fn hamming_fn(rows: Seq<Seq<u8>>, value: Seq<u8>) -> spec_fn(nat, nat) -> nat {
    |o: nat, l: nat| first_argmin(distances(rows, value, o, l))
}

/// Every node of the tree has children, lies within the `nf` features and has
/// word ids that fit in 32 bits; then no descent panics
pub open spec fn tree_ok(node: Node, nf: nat) -> bool
    decreases node,
{
    &&& node.n > 0
    &&& node.base + node.n <= nf
    &&& node.base + node.n <= u32::MAX + 1
    &&& match node.children {
        Some(ch) => forall|i: int| 0 <= i < ch@.len() ==> tree_ok(#[trigger] ch@[i], nf),
        None => true,
    }
}

/// A tree every node of which is sound lets every descent through it finish
pub proof fn lemma_tree_ok_descent(node: Node, nf: nat, mi: spec_fn(nat, nat) -> nat)
    requires
        tree_ok(node, nf),
    ensures
        descent_ok(node, mi, nf),
    decreases node,
{
    match node.children {
        Some(ch) => {
            let c = mi(node.base as nat, node.n as nat);
            if c < ch@.len() {
                lemma_tree_ok_descent(ch@[c as int], nf, mi);
            }
        },
        None => {},
    }
}

/// Whether every node of the tree below `node` is sound
fn check_tree(node: &Node, nf: usize) -> (ok: bool)
    ensures
        ok == tree_ok(*node, nf as nat),
    decreases node,
{
    if node.n == 0 || node.base as u64 + node.n as u64 > nf as u64 || node.base as u64 + node.n as u64 > 0x1_0000_0000u64 {
        return false;
    }
    match &node.children {
        Some(children) => {
            let mut i: usize = 0;
            while i < children.len()
                invariant
                    i <= children@.len(),
                    node.children == Some(*children),
                    node.n > 0,
                    node.base + node.n <= nf,
                    node.base + node.n <= u32::MAX + 1,
                    forall|j: int| 0 <= j < i ==> tree_ok(#[trigger] children@[j], nf as nat),
                decreases children@.len() - i,
            {
                proof {
                    assert(decreases_to!(*node => node.children));
                    assert(decreases_to!(node.children => node.children->0));
                    assert(decreases_to!(*children => children@));
                    assert(decreases_to!(children@ => children@[i as int]));
                }
                if !check_tree(&children[i], nf) {
                    assert(!tree_ok(children@[i as int], nf as nat));
                    assert(!tree_ok(*node, nf as nat));
                    return false;
                }
                i = i + 1;
            }
            true
        },
        None => true,
    }
}

impl Vocabulary {
    /// The descriptor name
    pub fn desc_name(&self) -> (name: &str)
        ensures
            name@ == chars49(self.params.desc_name),
    {
        name49_as_str(&self.params.desc_name)
    }

    /// Number of features
    pub fn num_features(&self) -> (n: usize)
        ensures
            n == self.features.spec_len(),
    {
        self.features.len()
    }

    /// The feature storage
    pub fn features(&self) -> (f: &FeaturesGeneric)
        ensures
            *f == self.features,
    {
        &self.features
    }

    /// Returns the descriptor type
    pub fn desc_type(&self) -> (dt: DescriptorType)
        ensures
            dt == self.params.desc_type,
    {
        self.params.desc_type
    }

    /// Returns desc size in bytes or 0 if not set
    pub fn desc_size(&self) -> (n: usize)
        ensures
            n == self.params.desc_size,
    {
        self.params.desc_size
    }

    /// Returns the branching factor (number of children per node)
    pub fn k(&self) -> (k: u32)
        ensures
            k == self.params.m_k,
    {
        self.params.m_k
    }

    /// Total number of blocks
    pub fn size(&self) -> (n: u32)
        ensures
            n == self.params.nblocks,
    {
        self.params.nblocks
    }

    /// Whether every node of the tree has children and lies within the
    /// features, so that no descent through it panics
    pub fn tree_in_bounds(&self) -> (ok: bool)
        ensures
            ok == tree_ok(self.root, self.features.spec_len()),
    {
        check_tree(&self.root, self.features.len())
    }

    /// Descend the tree with each query, returning the word counts and, for
    /// each group node (the node at depth `max_level`, or the node where the
    /// word was found when the tree is not that deep), the indices of the
    /// queries that went through it
    pub fn transform_queries<Q: DistanceQuery>(&self, queries: &[Q], max_level: Option<usize>) -> (r: (WordCounts, Features))
        requires
            queries@.len() <= u32::MAX,
            forall|i: int| 0 <= i < queries@.len() ==>
                descent_ok(self.root, query_fn(#[trigger] queries@[i]), queries@[i].spec_num_features()),
        ensures
            r.0@ == spec_word_counts(Seq::new(queries@.len(), |i: int| spec_word(self.root, query_fn(queries@[i])) as u32)),
            r.1@ == spec_groups(Seq::new(queries@.len(), |i: int| spec_group(self.root, query_fn(queries@[i]), spec_level(max_level)))),
    {
        let ghost level = match max_level { Some(l) => Some(l as nat), None => None };
        let ghost words = Seq::new(queries@.len(), |i: int| spec_word(self.root, query_fn(queries@[i])) as u32);
        let ghost groups = Seq::new(queries@.len(), |i: int| spec_group(self.root, query_fn(queries@[i]), level));
        let mut counts = WordCounts::with_capacity(queries.len());
        let mut feats = Features::with_capacity(queries.len());
        let mut idx: usize = 0;
        while idx < queries.len()
            invariant
                idx <= queries@.len(),
                queries@.len() <= u32::MAX,
                level == match max_level { Some(l) => Some(l as nat), None => None },
                words == Seq::new(queries@.len(), |i: int| spec_word(self.root, query_fn(queries@[i])) as u32),
                groups == Seq::new(queries@.len(), |i: int| spec_group(self.root, query_fn(queries@[i]), level)),
                forall|i: int| 0 <= i < queries@.len() ==>
                    descent_ok(self.root, query_fn(#[trigger] queries@[i]), queries@[i].spec_num_features()),
                counts@ == spec_word_counts(words.take(idx as int)),
                feats@ == spec_groups(groups.take(idx as int)),
                forall|w: u32| #[trigger] counts@.contains_key(w) ==> counts@[w] <= idx,
            decreases queries@.len() - idx,
        {
            let (word, group) = descend(&self.root, &queries[idx], max_level);
            proof {
                let wt = words.take(idx + 1);
                let gt = groups.take(idx + 1);
                assert(wt.drop_last() =~= words.take(idx as int));
                assert(gt.drop_last() =~= groups.take(idx as int));
                assert(wt.last() == word);
                assert(gt.last() == group);
                assert((gt.len() - 1) as u32 == idx as u32);
            }
            counts.update(word);
            feats.insert(group, idx as u32);
            idx = idx + 1;
        }
        assert(words.take(idx as int) =~= words);
        assert(groups.take(idx as int) =~= groups);
        assert(groups =~= Seq::new(queries@.len(), |i: int| spec_group(self.root, query_fn(queries@[i]), spec_level(max_level))));
        (counts, feats)
    }
}


/// Optional depth as a ghost value
pub open spec fn spec_level(level: Option<usize>) -> Option<nat> {
    match level {
        Some(l) => Some(l as nat),
        None => None,
    }
}

/// The node reached from `node` by following the child indices `idxs`
pub open spec fn spec_node_at(node: Node, idxs: Seq<nat>) -> Node
    decreases idxs.len(),
{
    if idxs.len() == 0 {
        node
    } else {
        match spec_branch(node, idxs[0]) {
            Some(child) => spec_node_at(child, idxs.drop_first()),
            None => node,
        }
    }
}

impl Vocabulary {
    /// The `u8` features of the vocabulary (none when its features are `f32`)
    pub open spec fn spec_u8_features(&self) -> Seq<Seq<u8>> {
        match self.features {
            FeaturesGeneric::Uint8(f) => f@,
            FeaturesGeneric::Float32(_) => Seq::empty(),
        }
    }

    /// Transforming the `u8` features `values` of `ncols` bytes each finishes
    /// without a panic: the vocabulary holds `u8` features of that length, the
    /// ids fit in 32 bits, and every descent stays within the tree
    pub open spec fn transform_u8_ok(&self, values: Seq<Seq<u8>>, ncols: nat) -> bool {
        &&& self.features is Uint8
        &&& self.features.spec_feature_len() == ncols
        &&& ncols <= 0x1fff_ffff
        &&& values.len() <= u32::MAX
        &&& forall|i: int| 0 <= i < values.len() ==>
            descent_ok(self.root, hamming_fn(self.spec_u8_features(), #[trigger] values[i]), self.spec_u8_features().len())
    }

    /// The word each of `values` is assigned to
    pub open spec fn spec_words_u8(&self, values: Seq<Seq<u8>>) -> Seq<u32> {
        Seq::new(values.len(), |i: int| spec_word(self.root, hamming_fn(self.spec_u8_features(), values[i])) as u32)
    }

    /// The group node each of `values` is assigned to
    pub open spec fn spec_groups_u8(&self, values: Seq<Seq<u8>>, level: Option<nat>) -> Seq<u32> {
        Seq::new(values.len(), |i: int| spec_group(self.root, hamming_fn(self.spec_u8_features(), values[i]), level))
    }

    /// Transform `u8` features (one per row of `features`) into the counts of
    /// their visual words and, for each group node, the rows that went through
    /// it. The group node of a row is the node at depth `max_level` on its
    /// descent, or the node its word was found in when the descent ends higher.
    pub fn transform(&self, features: &Matrix<u8>, max_level: Option<usize>) -> (r: Result<(WordCounts, Features), TransformError>)
        requires
            features.wf(),
            self.features.wf(),
            features.rows@.len() > 0 && features.ncols == self.params.desc_size && self.features is Uint8
                ==> self.transform_u8_ok(features.spec_rows(), features.ncols as nat),
        ensures
            features.rows@.len() == 0 ==> r == Err::<(WordCounts, Features), TransformError>(TransformError::NoInputData),
            features.rows@.len() > 0 && features.ncols != self.params.desc_size ==> r == Err::<(WordCounts, Features), TransformError>(
                TransformError::SizeMismatch { vocab_flen: self.params.desc_size, feature_len: features.ncols }),
            features.rows@.len() > 0 && features.ncols == self.params.desc_size && !(self.features is Uint8)
                ==> r == Err::<(WordCounts, Features), TransformError>(TransformError::DTypeMismatch),
            features.rows@.len() > 0 && features.ncols == self.params.desc_size && self.features is Uint8 ==> {
                &&& r is Ok
                &&& r->Ok_0.0@ == spec_word_counts(self.spec_words_u8(features.spec_rows()))
                &&& r->Ok_0.1@ == spec_groups(self.spec_groups_u8(features.spec_rows(), spec_level(max_level)))
            },
    {
        let nrows = features.nrows();
        if nrows == 0 {
            return Err(TransformError::NoInputData);
        }
        if features.ncols() != self.params.desc_size {
            return Err(TransformError::SizeMismatch { vocab_flen: self.params.desc_size, feature_len: features.ncols() });
        }
        if let FeaturesGeneric::Float32(_) = &self.features {
            return Err(TransformError::DTypeMismatch);
        }
        let ghost rows = features.spec_rows();
        let ghost fs = self.spec_u8_features();
        let mut queries: Vec<QueryU8> = Vec::with_capacity(nrows);
        let mut i: usize = 0;
        while i < nrows
            invariant
                i <= nrows,
                nrows == features.rows@.len(),
                features.wf(),
                self.features.wf(),
                rows == features.spec_rows(),
                fs == self.spec_u8_features(),
                self.transform_u8_ok(rows, features.ncols as nat),
                queries@.len() == i,
                forall|j: int| 0 <= j < i ==> (#[trigger] queries@[j]).features() == self.features->Uint8_0
                    && queries@[j].value() == rows[j],
            decreases nrows - i,
        {
            let q = self.features.query_u8(features.rows[i].as_slice());
            queries.push(q);
            i = i + 1;
        }
        proof {
            assert forall|j: int| 0 <= j < queries@.len() implies
                descent_ok(self.root, query_fn(#[trigger] queries@[j]), queries@[j].spec_num_features()) by {
                assert(query_fn(queries@[j]) =~= hamming_fn(fs, rows[j]));
                assert(descent_ok(self.root, hamming_fn(fs, rows[j]), fs.len()));
            }
        }
        let r = self.transform_queries(queries.as_slice(), max_level);
        proof {
            assert forall|j: int| 0 <= j < queries@.len() implies query_fn(#[trigger] queries@[j]) == hamming_fn(fs, rows[j]) by {
                assert(query_fn(queries@[j]) =~= hamming_fn(fs, rows[j]));
            }
            assert(Seq::new(queries@.len(), |j: int| spec_word(self.root, query_fn(queries@[j])) as u32)
                =~= self.spec_words_u8(rows));
            assert(Seq::new(queries@.len(), |j: int| spec_group(self.root, query_fn(queries@[j]), spec_level(max_level)))
                =~= self.spec_groups_u8(rows, spec_level(max_level)));
        }
        Ok(r)
    }
}


/// The nearest-child function of a query whose features have the keys `keys`
pub open spec fn keyed_fn(keys: Seq<u32>) -> spec_fn(nat, nat) -> nat {
    |o: nat, l: nat| first_argmin(key_window(keys, o, l))
}

impl Vocabulary {
    /// Transform features whose distances to the words of the vocabulary
    /// are given: for each feature, one key per word (a smaller key for a
    /// nearer word, the first of least key being the nearest). Returns the
    /// counts of their words and, for each group node, the features that
    /// went through it, as [`Vocabulary::transform`] does.
    pub fn transform_keyed(&self, keys: Vec<Vec<u32>>, max_level: Option<usize>) -> (r: Result<(WordCounts, Features), TransformError>)
        requires
            keys@.len() <= u32::MAX,
            forall|i: int| 0 <= i < keys@.len() ==> (#[trigger] keys@[i])@.len() == self.features.spec_len(),
            keys@.len() > 0 ==> tree_ok(self.root, self.features.spec_len()),
        ensures
            keys@.len() == 0 ==> r == Err::<(WordCounts, Features), TransformError>(TransformError::NoInputData),
            keys@.len() > 0 ==> {
                &&& r is Ok
                &&& r->Ok_0.0@ == spec_word_counts(Seq::new(keys@.len(), |i: int| spec_word(self.root, keyed_fn(keys@[i]@)) as u32))
                &&& r->Ok_0.1@ == spec_groups(Seq::new(keys@.len(), |i: int| spec_group(self.root, keyed_fn(keys@[i]@), spec_level(max_level))))
            },
    {
        let n = keys.len();
        if n == 0 {
            return Err(TransformError::NoInputData);
        }
        let ghost all = keys@;
        let ghost nf = self.features.spec_len();
        let mut queries: Vec<KeyedQuery> = Vec::with_capacity(n);
        let mut rest = keys;
        let mut pending: Vec<Vec<u32>> = Vec::with_capacity(n);
        while rest.len() > 0
            invariant
                pending@.len() + rest@.len() == all.len(),
                rest@ == all.take(rest@.len() as int),
                forall|q: int| 0 <= q < pending@.len() ==> #[trigger] pending@[q] == all[all.len() - 1 - q],
            decreases rest@.len(),
        {
            let ghost before = rest@;
            let v = rest.pop().unwrap();
            assert(v == before[before.len() - 1]);
            assert(rest@ =~= all.take(rest@.len() as int));
            pending.push(v);
        }
        let mut i: usize = 0;
        while i < n
            invariant
                i <= n,
                n == all.len(),
                pending@.len() == n - i,
                forall|q: int| 0 <= q < pending@.len() ==> #[trigger] pending@[q] == all[n - 1 - q],
                queries@.len() == i,
                forall|q: int| 0 <= q < i ==> (#[trigger] queries@[q]).keys == all[q],
            decreases n - i,
        {
            let ghost before = pending@;
            let v = pending.pop().unwrap();
            assert(v == all[i as int]);
            assert forall|q: int| 0 <= q < pending@.len() implies #[trigger] pending@[q] == all[n - 1 - q] by {
                assert(pending@[q] == before[q]);
            }
            queries.push(KeyedQuery { keys: v });
            i = i + 1;
        }
        proof {
            assert forall|q: int| 0 <= q < queries@.len() implies
                descent_ok(self.root, query_fn(#[trigger] queries@[q]), queries@[q].spec_num_features()) by {
                assert(query_fn(queries@[q]) =~= keyed_fn(all[q]@));
                lemma_tree_ok_descent(self.root, nf, keyed_fn(all[q]@));
            }
        }
        let r = self.transform_queries(queries.as_slice(), max_level);
        proof {
            assert forall|q: int| 0 <= q < queries@.len() implies query_fn(#[trigger] queries@[q]) == keyed_fn(all[q]@) by {
                assert(query_fn(queries@[q]) =~= keyed_fn(all[q]@));
            }
            assert(Seq::new(queries@.len(), |j: int| spec_word(self.root, query_fn(queries@[j])) as u32)
                =~= Seq::new(all.len(), |j: int| spec_word(self.root, keyed_fn(all[j]@)) as u32));
            assert(Seq::new(queries@.len(), |j: int| spec_group(self.root, query_fn(queries@[j]), spec_level(max_level)))
                =~= Seq::new(all.len(), |j: int| spec_group(self.root, keyed_fn(all[j]@), spec_level(max_level))));
        }
        Ok(r)
    }
}

/// Descend from `node` until depth `level` or a leaf, appending to `path`
/// every node the descent goes through, the last one included; returns the
/// child index of the leaf found
fn descend_path<'a, Q: DistanceQuery>(node: &'a Node, q: &Q, level: Option<usize>, path: &mut Vec<&'a Node>) -> (r: Option<u32>)
    requires
        descent_one_ok(*node, query_fn(*q), q.spec_num_features(), spec_level(level)),
    ensures
        r == spec_path(*node, query_fn(*q), spec_level(level)).1,
        final(path)@.len() == old(path)@.len() + spec_path(*node, query_fn(*q), spec_level(level)).0.len() + 1,
        forall|j: int| 0 <= j < old(path)@.len() ==> final(path)@[j] == old(path)@[j],
        forall|j: int| 0 <= j <= spec_path(*node, query_fn(*q), spec_level(level)).0.len() ==>
            *final(path)@[old(path)@.len() + j] == spec_node_at(*node, spec_path(*node, query_fn(*q), spec_level(level)).0.take(j)),
    decreases node,
{
    let ghost before = path@;
    path.push(node);
    let ghost mid = path@;
    proof {
        assert(Seq::<nat>::empty().take(0) =~= Seq::<nat>::empty());
    }
    if level == Some(0usize) {
        assert(spec_path(*node, query_fn(*q), spec_level(level)).0 =~= Seq::<nat>::empty());
        assert(spec_path(*node, query_fn(*q), spec_level(level)).0.take(0) =~= Seq::<nat>::empty());
        return None;
    }
    let c = q.min_index(node.base as usize, node.n as usize);
    let next = match level {
        Some(l) => Some(l - 1),
        None => None,
    };
    assert(spec_level(next) == match spec_level(level) { Some(l) => Some((l - 1) as nat), None => None::<nat> });
    match &node.children {
        Some(children) => {
            if c < children.len() {
                let r = descend_path(&children[c], q, next, path);
                proof {
                    let ghost mi = query_fn(*q);
                    let sub = spec_path(children@[c as int], mi, spec_level(next)).0;
                    let full = spec_path(*node, mi, spec_level(level)).0;
                    assert(full =~= seq![c as nat] + sub);
                    assert(spec_branch(*node, c as nat) == Some(children@[c as int]));
                    assert forall|j: int| 0 <= j <= full.len() implies
                        *path@[before.len() + j] == spec_node_at(*node, full.take(j)) by {
                        if j == 0 {
                            assert(full.take(0) =~= Seq::<nat>::empty());
                            assert(path@[before.len() as int] == mid[before.len() as int]);
                        } else {
                            assert(full.take(j).drop_first() =~= sub.take(j - 1));
                            assert(full.take(j)[0] == c as nat);
                            assert(before.len() + j == mid.len() + (j - 1));
                        }
                    }
                    assert forall|j: int| 0 <= j < before.len() implies path@[j] == before[j] by {
                        assert(path@[j] == mid[j]);
                    }
                }
                return r;
            }
        },
        None => {},
    }
    proof {
        assert(spec_path(*node, query_fn(*q), spec_level(level)).0 =~= Seq::<nat>::empty());
        assert(spec_path(*node, query_fn(*q), spec_level(level)).0.take(0) =~= Seq::<nat>::empty());
    }
    Some(c as u32)
}

/// Without a depth limit, the descent ends at a leaf of the last node of its
/// path, and that leaf is the word the descent finds
pub proof fn lemma_path_word(node: Node, mi: spec_fn(nat, nat) -> nat, nf: nat)
    requires
        descent_one_ok(node, mi, nf, None),
        forall|o: nat, l: nat| l > 0 ==> #[trigger] mi(o, l) < l,
    ensures
        spec_path(node, mi, None).1 matches Some(c)
            && spec_node_at(node, spec_path(node, mi, None).0).base + c == spec_word(node, mi),
    decreases node,
{
    let c = mi(node.base as nat, node.n as nat);
    assert(c < node.n);
    match node.children {
        Some(ch) => {
            if c < ch@.len() {
                lemma_path_word(ch@[c as int], mi, nf);
                let sub = spec_path(ch@[c as int], mi, None).0;
                let full = spec_path(node, mi, None).0;
                assert(full =~= seq![c] + sub);
                assert(full[0] == c);
                assert(full.drop_first() =~= sub);
                assert(spec_branch(node, c) == Some(ch@[c as int]));
                assert(spec_node_at(node, full) == spec_node_at(ch@[c as int], sub));
            } else {
                assert(spec_path(node, mi, None).0 =~= Seq::<nat>::empty());
            }
        },
        None => {
            assert(spec_path(node, mi, None).0 =~= Seq::<nat>::empty());
        },
    }
}

impl Vocabulary {
    /// Transforming the `u8` feature `value` with one descent to depth
    /// `level` finishes without a panic
    pub open spec fn transform_one_u8_ok(&self, value: Seq<u8>, level: Option<nat>) -> bool {
        &&& self.features is Uint8
        &&& self.features.spec_feature_len() == value.len()
        &&& value.len() <= 0x1fff_ffff
        &&& descent_one_ok(self.root, hamming_fn(self.spec_u8_features(), value), self.spec_u8_features().len(), level)
    }

    /// The path of the descent of the `u8` feature `value` to depth `level`
    pub open spec fn spec_path_u8(&self, value: Seq<u8>, level: Option<nat>) -> (Seq<nat>, Option<u32>) {
        spec_path(self.root, hamming_fn(self.spec_u8_features(), value), level)
    }

    /// Transform a single `u8` feature, returning the path it took: the
    /// nodes it went through, from the root to the block where it stopped,
    /// and the leaf of that block it found, or none when it stopped at depth
    /// `max_level`. Without a depth limit the leaf is the word that
    /// [`Vocabulary::transform`] counts.
    pub fn transform_one<'a>(&'a self, feature: &[u8], max_level: Option<usize>) -> (r: Result<NodePath<'a>, TransformError>)
        requires
            self.features.wf(),
            feature@.len() == self.params.desc_size && self.features is Uint8 ==> self.transform_one_u8_ok(feature@, spec_level(max_level)),
        ensures
            feature@.len() != self.params.desc_size ==> r == Err::<NodePath<'a>, TransformError>(
                TransformError::SizeMismatch { vocab_flen: self.params.desc_size, feature_len: feature@.len() as usize }),
            feature@.len() == self.params.desc_size && !(self.features is Uint8)
                ==> r == Err::<NodePath<'a>, TransformError>(TransformError::DTypeMismatch),
            feature@.len() == self.params.desc_size && self.features is Uint8 ==> {
                let p = self.spec_path_u8(feature@, spec_level(max_level));
                &&& r is Ok
                &&& r->Ok_0.vocab() == *self
                &&& r->Ok_0.child_offset() == p.1
                &&& r->Ok_0.nodes() == Seq::new(p.0.len() + 1, |j: int| spec_node_at(self.root, p.0.take(j)))
                &&& max_level is None ==> (r->Ok_0.child_offset() matches Some(c)
                    && r->Ok_0.nodes().last().base + c == spec_word(self.root, hamming_fn(self.spec_u8_features(), feature@)))
            },
    {
        if feature.len() != self.params.desc_size {
            return Err(TransformError::SizeMismatch { feature_len: feature.len(), vocab_flen: self.params.desc_size });
        }
        if let FeaturesGeneric::Float32(_) = &self.features {
            return Err(TransformError::DTypeMismatch);
        }
        let mut path: Vec<&Node> = Vec::with_capacity(match max_level { Some(l) => l, None => 0 });
        let q = self.features.query_u8(feature);
        let ghost fs = self.spec_u8_features();
        assert(query_fn(q) =~= hamming_fn(fs, feature@));
        let child_offset = descend_path(&self.root, &q, max_level, &mut path);
        let ghost p = self.spec_path_u8(feature@, spec_level(max_level));
        assert(path@.map_values(|n: &Node| *n) =~= Seq::new(p.0.len() + 1, |j: int| spec_node_at(self.root, p.0.take(j))));
        proof {
            let mi = hamming_fn(fs, feature@);
            assert forall|o: nat, l: nat| l > 0 implies #[trigger] mi(o, l) < l by {
                lemma_first_argmin(distances(fs, feature@, o, l));
            }
            if max_level is None {
                lemma_path_word(self.root, mi, fs.len());
            }
            assert(p.0.take(p.0.len() as int) =~= p.0);
        }
        Ok(NodePath::new(self, path, child_offset))
    }
}

} // verus!
