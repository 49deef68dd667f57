//! The tree of clusters that a vocabulary is made from
use vstd::prelude::*;
use super::kmeans::{InnerParams, TerminalLeaf, Leaf, BranchNode, LevelView, spec_create_level, indices_ok, features_ok,
    terminals_view, leaves_view, spec_assign, spec_initial_centers, spec_kmeans, lemma_assign_indices_level};
use rand::rngs::StdRng;

verus! {

/// A node of the tree of clusters
pub enum CNode {
    /// A cluster split into clusters
    Branch { feature: Vec<u8>, children: Vec<CNode> },
    /// A cluster that the depth limit leaves unsplit
    Leaf { feature: Vec<u8>, findices: Vec<u32> },
    /// A training feature
    Terminal { feature: Vec<u8>, feat_idx: u32 },
    /// A cluster of at most `k` features, each a leaf
    TerminalBranch { feature: Vec<u8>, children: Vec<TerminalLeaf> },
}

/// The fixed inputs of a creation, as the specification sees them
pub struct CreateSpec {
    /// The training features
    pub fs: Seq<Seq<u8>>,
    /// Their length
    pub d: nat,
    /// Branching factor
    pub k: nat,
    /// Maximum number of k-means iterations
    pub max_iters: nat,
    /// Maximum depth
    pub max_depth: Option<nat>,
}

/// The children of a node at `depth` are split further
pub open spec fn splits_below(cs: CreateSpec, depth: nat) -> bool {
    match cs.max_depth {
        Some(l) => depth < l,
        None => true,
    }
}

/// `node` is a tree that the creation can make from the features `fi`, for
/// a cluster of center `feature` at `depth`: at most `k` features become a
/// terminal branch of them; more are clustered by k-means (from some first
/// center) and each cluster is made into a tree the same way, or, below
/// the depth limit, left as it is
pub open spec fn built(cs: CreateSpec, node: CNode, fi: Seq<u32>, feature: Seq<u8>, depth: nat) -> bool
    decreases node,
{
    if fi.len() <= cs.k {
        &&& node matches CNode::TerminalBranch { feature: f, children }
        &&& f@ == feature
        &&& terminals_view(children@) == Seq::new(fi.len(), |i: int| (cs.fs[fi[i] as int], fi[i]))
    } else {
        match node {
            CNode::Branch { feature: f, children } => {
                &&& f@ == feature
                &&& exists|first: nat| #![trigger spec_create_level(cs.fs, fi, cs.k, cs.max_iters, cs.d, first)] {
                    &&& first < fi.len()
                    &&& spec_create_level(cs.fs, fi, cs.k, cs.max_iters, cs.d, first) matches LevelView::Intermediate(lv)
                    &&& children@.len() == lv.len()
                    &&& forall|c: int| 0 <= c < lv.len() ==> {
                        if splits_below(cs, depth) {
                            built(cs, #[trigger] children@[c], lv[c].1, lv[c].0, depth + 1)
                        } else {
                            children@[c] matches CNode::Leaf { feature: lf, findices: li } && lf@ == lv[c].0 && li@ == lv[c].1
                        }
                    }
                }
            },
            _ => false,
        }
    }
}

/// How the depth limit shapes the tree: a cluster of more than `k` features
/// made at depth `d` is split by k-means into `k` clusters, and those are
/// split further (each made into a block of its own, never left a leaf)
/// exactly when there is no depth limit or `d` is below it; at the limit
/// they all stay unsplit leaves
pub proof fn lemma_split_depth(cs: CreateSpec, t: CNode, fi: Seq<u32>, f: Seq<u8>, d: nat)
    requires
        built(cs, t, fi, f, d),
        fi.len() > cs.k,
        cs.k > 0,
        indices_ok(cs.fs, fi),
        features_ok(cs.fs, cs.d),
    ensures
        t matches CNode::Branch { children, .. } && children@.len() == cs.k
            && forall|c: int| 0 <= c < children@.len() ==>
                ((#[trigger] children@[c] is Leaf) <==> (cs.max_depth matches Some(l) && d >= l)),
{
    if let CNode::Branch { children, .. } = t {
        let first = choose|first: nat| {
            &&& first < fi.len()
            &&& #[trigger] spec_create_level(cs.fs, fi, cs.k, cs.max_iters, cs.d, first) matches LevelView::Intermediate(lv)
            &&& children@.len() == lv.len()
            &&& forall|c: int| 0 <= c < lv.len() ==> {
                if splits_below(cs, d) {
                    built(cs, #[trigger] children@[c], lv[c].1, lv[c].0, d + 1)
                } else {
                    children@[c] matches CNode::Leaf { feature: lf, findices: li } && lf@ == lv[c].0 && li@ == lv[c].1
                }
            }
        };
        lemma_assign_indices_level(cs.fs, fi, cs.k, cs.max_iters, cs.d, first);
        let lv = spec_create_level(cs.fs, fi, cs.k, cs.max_iters, cs.d, first)->Intermediate_0;
        assert forall|c: int| 0 <= c < children@.len() implies
            ((#[trigger] children@[c] is Leaf) <==> (cs.max_depth matches Some(l) && d >= l)) by {
            if splits_below(cs, d) {
                let ch = children@[c];
                assert(built(cs, ch, lv[c].1, lv[c].0, d + 1));
                if lv[c].1.len() <= cs.k {
                    assert(ch is TerminalBranch);
                } else {
                    assert(ch is Branch);
                }
            }
        }
    }
}

/// Whatever the first centers drawn, making the tree from the features `fi`
/// at `depth` ends within `fuel` levels of k-means
pub open spec fn finishes(cs: CreateSpec, fi: Seq<u32>, depth: nat, fuel: nat) -> bool
    decreases fuel,
{
    ||| fi.len() <= cs.k
    ||| !splits_below(cs, depth)
    ||| fuel > 0 && forall|first: nat| first < fi.len() ==>
        (#[trigger] spec_create_level(cs.fs, fi, cs.k, cs.max_iters, cs.d, first) matches LevelView::Intermediate(lv)
            && forall|c: int| 0 <= c < lv.len() ==> finishes(cs, #[trigger] lv[c].1, depth + 1, (fuel - 1) as nat))
}

/// Every feature held in the tree has `d` bytes
pub open spec fn tree_features_len(node: CNode, d: nat) -> bool
    decreases node,
{
    match node {
        CNode::Branch { feature, children } => feature@.len() == d
            && forall|c: int| 0 <= c < children@.len() ==> tree_features_len(#[trigger] children@[c], d),
        CNode::Leaf { feature, .. } => feature@.len() == d,
        CNode::Terminal { feature, .. } => feature@.len() == d,
        CNode::TerminalBranch { feature, children } => feature@.len() == d
            && forall|c: int| 0 <= c < children@.len() ==> (#[trigger] children@[c]).feature@.len() == d,
    }
}

/// The trees of the children of a node hold features of `d` bytes
pub open spec fn kid_features_len(n: CNode, d: nat) -> bool {
    match n {
        CNode::Branch { children, .. } => forall|c: int| 0 <= c < children@.len() ==> tree_features_len(#[trigger] children@[c], d),
        CNode::TerminalBranch { children, .. } => forall|c: int| 0 <= c < children@.len() ==> (#[trigger] children@[c]).feature@.len() == d,
        _ => true,
    }
}

impl InnerParams {
    /// The creation's inputs as the specification sees them, with depth limit `max_depth`
    pub open spec fn spec_of(&self, max_depth: Option<u32>) -> CreateSpec {
        CreateSpec {
            fs: self.fs(),
            d: self.d(),
            k: self.k as nat,
            max_iters: self.max_iters as nat,
            max_depth: match max_depth {
                Some(l) => Some(l as nat),
                None => None,
            },
        }
    }

    /// Make the tree of the cluster of center `feature` and features
    /// `findices`, at `depth`: one level, then, above the depth limit, the
    /// tree of each cluster, the last cluster first
    pub fn process(&self, rng: &mut StdRng, feature: Vec<u8>, findices: Vec<u32>, depth: usize, max_depth: Option<u32>, Ghost(fuel): Ghost<nat>) -> (node: CNode)
        requires
            self.k > 0,
            depth + fuel < usize::MAX,
            indices_ok(self.fs(), findices@),
            features_ok(self.fs(), self.d()),
            feature@.len() == self.d() || depth == 0,
            finishes(self.spec_of(max_depth), findices@, depth as nat, fuel),
        ensures
            built(self.spec_of(max_depth), node, findices@, feature@, depth as nat),
            depth > 0 ==> tree_features_len(node, self.d()),
            kid_features_len(node, self.d()),
        decreases fuel,
    {
        let ghost cs = self.spec_of(max_depth);
        let level = self.create_level(rng, findices.as_slice());
        let ghost lview = level.view();
        match level {
            BranchNode::Terminal(children) => {
                proof {
                    assert(lview == LevelView::Terminal(terminals_view(children@)));
                    assert(findices@.len() <= self.k);
                    assert(lview == spec_create_level(self.fs(), findices@, self.k as nat, self.max_iters as nat, self.d(), 0));
                    assert(terminals_view(children@) == Seq::new(findices@.len(), |i: int| (self.fs()[findices@[i] as int], findices@[i])));
                    assert(terminals_view(children@).len() == children@.len());
                    assert(children@.len() == findices@.len());
                    assert forall|c: int| 0 <= c < children@.len() implies (#[trigger] children@[c]).feature@.len() == self.d() by {
                        assert(terminals_view(children@)[c].0 == children@[c].feature@);
                        assert(findices@[c] < self.fs().len());
                    }
                }
                let node = CNode::TerminalBranch { feature, children };
                node
            },
            BranchNode::Intermediate(children) => {
                let ghost lv = leaves_view(children@);
                let ghost first = choose|first: nat| first < findices@.len()
                    && BranchNode::Intermediate(children).view() == spec_create_level(self.fs(), findices@, self.k as nat, self.max_iters as nat, self.d(), first);
                proof {
                    assert(findices@.len() > self.k);
                    lemma_assign_indices_level(self.fs(), findices@, self.k as nat, self.max_iters as nat, self.d(), first);
                }
                let split = match max_depth {
                    Some(l) => depth < l as usize,
                    None => true,
                };
                if !split {
                    let mut out: Vec<CNode> = Vec::new();
                    let mut rest = children;
                    let ghost n = lv.len();
                    while rest.len() > 0
                        invariant
                            out@.len() + rest@.len() == n,
                            n == lv.len(),
                            leaves_view(rest@) == lv.skip(out@.len() as int),
                            forall|c: int| 0 <= c < out@.len() ==> ((#[trigger] out@[c]) matches CNode::Leaf { feature: lf, findices: li }
                                && lf@ == lv[c].0 && li@ == lv[c].1),
                        decreases rest@.len(),
                    {
                        let ghost rb = rest@;
                        let ghost ob = out@;
                        let leaf = rest.remove(0);
                        proof {
                            assert(leaves_view(rb)[0] == (leaf.feature@, leaf.findices@));
                            assert(lv.skip(ob.len() as int)[0] == lv[ob.len() as int]);
                            assert(leaves_view(rest@) =~= lv.skip(ob.len() as int + 1)) by {
                                assert forall|q: int| 0 <= q < rest@.len() implies #[trigger] leaves_view(rest@)[q] == lv.skip(ob.len() as int + 1)[q] by {
                                    assert(rest@[q] == rb[q + 1]);
                                    assert(leaves_view(rb)[q + 1] == lv.skip(ob.len() as int)[q + 1]);
                                }
                            }
                        }
                        out.push(CNode::Leaf { feature: leaf.feature, findices: leaf.findices });
                        proof {
                            assert forall|c: int| 0 <= c < out@.len() implies ((#[trigger] out@[c]) matches CNode::Leaf { feature: lf, findices: li }
                                && lf@ == lv[c].0 && li@ == lv[c].1) by {
                                if c < ob.len() {
                                    assert(out@[c] == ob[c]);
                                }
                            }
                        }
                    }
                    let node = CNode::Branch { feature, children: out };
                    proof {
                        assert(spec_create_level(cs.fs, findices@, cs.k, cs.max_iters, cs.d, first) matches LevelView::Intermediate(l2) && l2 == lv);
                        assert(!splits_below(cs, depth as nat));
                        assert forall|c: int| 0 <= c < out@.len() implies tree_features_len(#[trigger] out@[c], self.d()) by {
                            assert(lv[c].0.len() == self.d());
                        }
                    }
                    return node;
                }
                // Split each cluster further, the last one first
                let k = children.len();
                proof {
                    assert(splits_below(cs, depth as nat));
                    assert(fuel > 0);
                    assert(spec_create_level(cs.fs, findices@, cs.k, cs.max_iters, cs.d, first) matches LevelView::Intermediate(l2) && l2 == lv);
                }
                let mut stack = children;
                let mut done: Vec<CNode> = Vec::new();
                while stack.len() > 0
                    invariant
                        stack@.len() + done@.len() == k,
                        k == lv.len(),
                        fuel > 0,
                        depth + fuel < usize::MAX,
                        self.k > 0,
                        features_ok(self.fs(), self.d()),
                        cs == self.spec_of(max_depth),
                        forall|c: int| 0 <= c < k ==> finishes(cs, (#[trigger] lv[c]).1, (depth + 1) as nat, (fuel - 1) as nat),
                        forall|c: int| 0 <= c < k ==> indices_ok(self.fs(), (#[trigger] lv[c]).1) && lv[c].0.len() == self.d(),
                        leaves_view(stack@) == lv.take(stack@.len() as int),
                        forall|c: int| 0 <= c < done@.len() ==> built(cs, #[trigger] done@[c], lv[k - 1 - c].1, lv[k - 1 - c].0, (depth + 1) as nat),
                        forall|c: int| 0 <= c < done@.len() ==> tree_features_len(#[trigger] done@[c], self.d()),
                    decreases stack@.len(),
                {
                    let ghost sb = stack@;
                    let ghost db = done@;
                    let leaf = stack.pop().unwrap();
                    let ghost c0 = sb.len() - 1;
                    proof {
                        assert(leaves_view(sb)[c0] == (leaf.feature@, leaf.findices@));
                        assert(lv.take(sb.len() as int)[c0] == lv[c0]);
                        assert(leaves_view(stack@) =~= lv.take(stack@.len() as int)) by {
                            assert forall|q: int| 0 <= q < stack@.len() implies #[trigger] leaves_view(stack@)[q] == lv.take(stack@.len() as int)[q] by {
                                assert(stack@[q] == sb[q]);
                                assert(leaves_view(sb)[q] == lv.take(sb.len() as int)[q]);
                            }
                        }
                        assert(k - 1 - db.len() == c0);
                    }
                    let child = self.process(rng, leaf.feature, leaf.findices, depth + 1, max_depth, Ghost((fuel - 1) as nat));
                    done.push(child);
                    proof {
                        assert forall|c: int| 0 <= c < done@.len() implies built(cs, #[trigger] done@[c], lv[k - 1 - c].1, lv[k - 1 - c].0, (depth + 1) as nat)
                            && tree_features_len(done@[c], self.d()) by {
                            if c < db.len() {
                                assert(done@[c] == db[c]);
                            }
                        }
                    }
                }
                let mut out: Vec<CNode> = Vec::new();
                while done.len() > 0
                    invariant
                        done@.len() + out@.len() == k,
                        k == lv.len(),
                        forall|c: int| 0 <= c < out@.len() ==> built(cs, #[trigger] out@[c], lv[c].1, lv[c].0, (depth + 1) as nat),
                        forall|c: int| 0 <= c < done@.len() ==> built(cs, #[trigger] done@[c], lv[k - 1 - c].1, lv[k - 1 - c].0, (depth + 1) as nat),
                        forall|c: int| 0 <= c < out@.len() ==> tree_features_len(#[trigger] out@[c], self.d()),
                        forall|c: int| 0 <= c < done@.len() ==> tree_features_len(#[trigger] done@[c], self.d()),
                    decreases done@.len(),
                {
                    let ghost db = done@;
                    let ghost ob = out@;
                    let child = done.pop().unwrap();
                    out.push(child);
                    proof {
                        assert(child == db[db.len() - 1]);
                        assert(k - 1 - (db.len() - 1) == ob.len());
                        assert forall|c: int| 0 <= c < out@.len() implies built(cs, #[trigger] out@[c], lv[c].1, lv[c].0, (depth + 1) as nat)
                            && tree_features_len(out@[c], self.d()) by {
                            if c < ob.len() {
                                assert(out@[c] == ob[c]);
                            }
                        }
                        assert forall|c: int| 0 <= c < done@.len() implies built(cs, #[trigger] done@[c], lv[k - 1 - c].1, lv[k - 1 - c].0, (depth + 1) as nat)
                            && tree_features_len(done@[c], self.d()) by {
                            assert(done@[c] == db[c]);
                        }
                    }
                }
                let node = CNode::Branch { feature, children: out };
                proof {
                    assert(spec_create_level(cs.fs, findices@, cs.k, cs.max_iters, cs.d, first) matches LevelView::Intermediate(l2) && l2 == lv);
                }
                node
            },
        }
    }
}

} // verus!
