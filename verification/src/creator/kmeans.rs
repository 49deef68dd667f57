//! One level of the vocabulary tree: k-means clustering of a set of features
use vstd::prelude::*;
use vstd::wrapping::u64_specs::{wrapping_add, wrapping_mul};
use crate::features::distance::{hamming, hamming_distance, first_argmin};
use super::feature::{FeatureInfo, spec_mean};
use super::rng::random_below;
use rand::rngs::StdRng;

verus! {

/// The vectors, as sequences
pub open spec fn vecs_u32(v: Seq<Vec<u32>>) -> Seq<Seq<u32>> {
    v.map_values(|x: Vec<u32>| x@)
}

/// The vectors, as sequences
pub open spec fn vecs_u8(v: Seq<Vec<u8>>) -> Seq<Seq<u8>> {
    v.map_values(|x: Vec<u8>| x@)
}

/// The position of the last largest value of `d` (0 when `d` is empty)
pub open spec fn last_argmax(d: Seq<nat>) -> nat
    decreases d.len(),
{
    if d.len() <= 1 {
        0
    } else {
        let m = last_argmax(d.drop_last());
        if d.last() >= d[m as int] {
            (d.len() - 1) as nat
        } else {
            m
        }
    }
}

/// The first centers after `s` steps from the first one, `fi[first]`, and
/// the distances of the features `fi` summed over those centers: each step
/// adds the distances to the last center, and picks the feature at the
/// largest sum (the last one on ties)
pub open spec fn spec_centers_state(fs: Seq<Seq<u8>>, fi: Seq<u32>, first: nat, s: nat) -> (Seq<u32>, Seq<nat>)
    decreases s,
{
    if s == 0 {
        (seq![fi[first as int]], Seq::new(fi.len(), |i: int| 0nat))
    } else {
        let prev = spec_centers_state(fs, fi, first, (s - 1) as nat);
        let last = prev.0.last();
        let d = Seq::new(fi.len(), |i: int| prev.1[i] + hamming(fs[last as int], fs[fi[i] as int]));
        (prev.0.push(fi[last_argmax(d) as int]), d)
    }
}

/// The `k` initial centers, starting from the feature `fi[first]`
pub open spec fn spec_initial_centers(fs: Seq<Seq<u8>>, fi: Seq<u32>, k: nat, first: nat) -> Seq<u32> {
    spec_centers_state(fs, fi, first, if k > 0 { (k - 1) as nat } else { 0 }).0
}

/// The center nearest to the feature `x`: the first one at the least distance
pub open spec fn nearest_center(centers: Seq<Seq<u8>>, x: Seq<u8>) -> nat {
    first_argmin(Seq::new(centers.len(), |c: int| hamming(centers[c], x)))
}

/// The features `fi` sorted into the clusters of their nearest centers, in order
pub open spec fn spec_assign(fs: Seq<Seq<u8>>, fi: Seq<u32>, centers: Seq<Seq<u8>>) -> Seq<Seq<u32>>
    decreases fi.len(),
{
    if fi.len() == 0 {
        Seq::new(centers.len(), |c: int| Seq::<u32>::empty())
    } else {
        let a = spec_assign(fs, fi.drop_last(), centers);
        let c = nearest_center(centers, fs[fi.last() as int]) as int;
        a.update(c, a[c].push(fi.last()))
    }
}

/// The mean of each cluster
pub open spec fn spec_means(fs: Seq<Seq<u8>>, a: Seq<Seq<u32>>, d: nat) -> Seq<Seq<u8>> {
    Seq::new(a.len(), |c: int| spec_mean(fs, a[c], d))
}

/// The sizes of the clusters, weighted by their positions, summed (wrapping)
pub open spec fn spec_vhash_sizes(v: Seq<Seq<u32>>) -> u64
    decreases v.len(),
{
    if v.len() == 0 {
        0
    } else {
        wrapping_add(spec_vhash_sizes(v.drop_last()), wrapping_mul(v.last().len() as u64, v.len() as u64))
    }
}

/// Mixing the values `vals` into `seed`, in order
pub open spec fn spec_vhash_mix(seed: u64, vals: Seq<u32>) -> u64
    decreases vals.len(),
{
    if vals.len() == 0 {
        seed
    } else {
        let s = spec_vhash_mix(seed, vals.drop_last());
        s ^ wrapping_add(wrapping_add((vals.last() + 0x9e37_79b9) as u64, s << 6u64), s >> 2u64)
    }
}

/// The values of all the clusters, in order
pub open spec fn spec_flatten(v: Seq<Seq<u32>>) -> Seq<u32>
    decreases v.len(),
{
    if v.len() == 0 {
        Seq::empty()
    } else {
        spec_flatten(v.drop_last()) + v.last()
    }
}

/// The hash of an assignment to clusters
pub open spec fn spec_vhash(v: Seq<Seq<u32>>) -> u64 {
    spec_vhash_mix(spec_vhash_sizes(v), spec_flatten(v))
}

/// The centers after at most `iters` k-means iterations from the centers
/// `cf`: each assigns the features to their nearest centers and moves the
/// centers to the means of their clusters; the iterations stop early when
/// the hash of the assignment equals the one before (`prev`)
pub open spec fn spec_kmeans(fs: Seq<Seq<u8>>, fi: Seq<u32>, cf: Seq<Seq<u8>>, iters: nat, prev: u64, d: nat) -> Seq<Seq<u8>>
    decreases iters,
{
    if iters == 0 {
        cf
    } else {
        let a = spec_assign(fs, fi, cf);
        let cf2 = spec_means(fs, a, d);
        let h = spec_vhash(a);
        if h == prev {
            cf2
        } else {
            spec_kmeans(fs, fi, cf2, (iters - 1) as nat, h, d)
        }
    }
}

/// Hash of the cluster assignment, to tell whether it changed
pub fn vhash(v_vec: &[Vec<u32>]) -> (seed: u64)
    ensures
        seed == spec_vhash(vecs_u32(v_vec@)),
{
    let ghost vs = vecs_u32(v_vec@);
    let mut seed: u64 = 0;
    let mut i: usize = 0;
    while i < v_vec.len()
        invariant
            i <= v_vec@.len(),
            vs == vecs_u32(v_vec@),
            seed == spec_vhash_sizes(vs.take(i as int)),
        decreases v_vec@.len() - i,
    {
        proof {
            assert(vs.take(i + 1).drop_last() =~= vs.take(i as int));
            assert(vs.take(i + 1).last() == v_vec@[i as int]@);
        }
        seed = seed.wrapping_add((v_vec[i].len() as u64).wrapping_mul(i as u64 + 1));
        i = i + 1;
    }
    assert(vs.take(i as int) =~= vs);
    let ghost sizes = seed;
    let mut i: usize = 0;
    while i < v_vec.len()
        invariant
            i <= v_vec@.len(),
            vs == vecs_u32(v_vec@),
            seed == spec_vhash_mix(sizes, spec_flatten(vs.take(i as int))),
        decreases v_vec@.len() - i,
    {
        let v = &v_vec[i];
        let ghost before = spec_flatten(vs.take(i as int));
        proof {
            assert(vs.take(i + 1).drop_last() =~= vs.take(i as int));
            assert(vs.take(i + 1).last() == v@);
        }
        let mut j: usize = 0;
        while j < v.len()
            invariant
                j <= v@.len(),
                seed == spec_vhash_mix(sizes, before + v@.take(j as int)),
            decreases v@.len() - j,
        {
            let x = v[j];
            proof {
                assert((before + v@.take(j + 1)).drop_last() =~= before + v@.take(j as int));
                assert((before + v@.take(j + 1)).last() == x);
            }
            seed = seed ^ ((x as u64) + 0x9e37_79b9u64).wrapping_add(seed << 6u64).wrapping_add(seed >> 2u64);
            j = j + 1;
        }
        assert(v@.take(j as int) =~= v@);
        i = i + 1;
    }
    assert(vs.take(i as int) =~= vs);
    seed
}

/// The index of the center nearest to `x`
fn nearest(centers: &Vec<Vec<u8>>, x: &[u8]) -> (c: usize)
    requires
        centers@.len() > 0,
        forall|i: int| 0 <= i < centers@.len() ==> (#[trigger] centers@[i])@.len() == x@.len(),
        x@.len() <= 0x1fff_ffff,
    ensures
        c == nearest_center(vecs_u8(centers@), x@),
        c < centers@.len(),
{
    let ghost cs = vecs_u8(centers@);
    let ghost d = Seq::new(cs.len(), |c: int| hamming(cs[c], x@));
    let mut best: usize = 0;
    let mut best_dist: u32 = hamming_distance(centers[0].as_slice(), x);
    proof {
        assert(d.take(1).drop_last().len() == 0);
    }
    let mut c: usize = 1;
    while c < centers.len()
        invariant
            1 <= c <= centers@.len(),
            best < c,
            cs == vecs_u8(centers@),
            d == Seq::new(cs.len(), |c: int| hamming(cs[c], x@)),
            forall|i: int| 0 <= i < centers@.len() ==> (#[trigger] centers@[i])@.len() == x@.len(),
            x@.len() <= 0x1fff_ffff,
            best == first_argmin(d.take(c as int)),
            best_dist == d[best as int],
        decreases centers@.len() - c,
    {
        let dc = hamming_distance(centers[c].as_slice(), x);
        proof {
            assert(d.take(c + 1).drop_last() =~= d.take(c as int));
            assert(d.take(c + 1).last() == d[c as int]);
            assert(d.take(c + 1)[best as int] == d[best as int]);
        }
        if dc < best_dist {
            best = c;
            best_dist = dc;
        }
        c = c + 1;
    }
    assert(d.take(c as int) =~= d);
    best
}

/// The parameters and features of a vocabulary creation
pub struct InnerParams {
    /// Branching factor
    pub k: u32,
    /// Maximum number of k-means iterations
    pub max_iters: usize,
    /// The training features
    pub features: FeatureInfo,
}

/// The features `fi` are features of `fs`
pub open spec fn indices_ok(fs: Seq<Seq<u8>>, fi: Seq<u32>) -> bool {
    forall|i: int| 0 <= i < fi.len() ==> (#[trigger] fi[i]) < fs.len()
}

/// The features have `d` bytes each, few enough for their distances to be counted in 32 bits
pub open spec fn features_ok(fs: Seq<Seq<u8>>, d: nat) -> bool {
    &&& 0 < d <= 0x1fff_ffff
    &&& forall|i: int| 0 <= i < fs.len() ==> (#[trigger] fs[i]).len() == d
}

impl InnerParams {
    /// The training features
    pub open spec fn fs(&self) -> Seq<Seq<u8>> {
        self.features@
    }

    /// Their length
    pub open spec fn d(&self) -> nat {
        self.features.spec_feature_len()
    }

    /// The `k` initial centers among the features `findices`, starting from
    /// `findices[first]`: each next center is the feature farthest from the
    /// centers chosen so far, by summed distance
    pub fn centers_from(&self, findices: &[u32], first: usize) -> (centers: Vec<u32>)
        requires
            first < findices@.len(),
            indices_ok(self.fs(), findices@),
            features_ok(self.fs(), self.d()),
        ensures
            centers@ == spec_initial_centers(self.fs(), findices@, self.k as nat, first as nat),
    {
        let ghost fs = self.fs();
        let ghost fi = findices@;
        let n = findices.len();
        let k = self.k as usize;
        let mut distances: Vec<u64> = Vec::with_capacity(n);
        let mut i: usize = 0;
        while i < n
            invariant
                i <= n,
                distances@.len() == i,
                forall|q: int| 0 <= q < i ==> distances@[q] == 0,
            decreases n - i,
        {
            distances.push(0);
            i = i + 1;
        }
        let mut centers: Vec<u32> = Vec::with_capacity(k);
        let mut last_feature = findices[first];
        centers.push(last_feature);
        let ghost mut s: nat = 0;
        proof {
            assert(centers@ =~= spec_centers_state(fs, fi, first as nat, 0).0);
        }
        while centers.len() < k
            invariant
                fs == self.fs(),
                fi == findices@,
                n == fi.len(),
                first < n,
                k == self.k,
                indices_ok(fs, fi),
                features_ok(fs, self.d()),
                centers@.len() == s + 1,
                s < k || k == 0,
                k == 0 ==> s == 0,
                centers@ == spec_centers_state(fs, fi, first as nat, s).0,
                distances@.len() == n,
                forall|q: int| 0 <= q < n ==> distances@[q] == #[trigger] spec_centers_state(fs, fi, first as nat, s).1[q],
                forall|q: int| 0 <= q < n ==> distances@[q] <= s * 0xffff_ffff,
                spec_centers_state(fs, fi, first as nat, s).1.len() == n,
                last_feature == centers@.last(),
                last_feature < fs.len(),
            decreases k - centers@.len(),
        {
            let ghost prev = spec_centers_state(fs, fi, first as nat, s);
            let ghost dnew = Seq::new(fi.len(), |q: int| prev.1[q] + hamming(fs[last_feature as int], fs[fi[q] as int]));
            let last_center_feat = self.features.get(last_feature as usize);
            let mut best: usize = 0;
            let mut best_dist: u64 = 0;
            let mut idx: usize = 0;
            while idx < n
                invariant
                    idx <= n,
                    n == fi.len(),
                    fs == self.fs(),
                    fi == findices@,
                    indices_ok(fs, fi),
                    features_ok(fs, self.d()),
                    last_center_feat@ == fs[last_feature as int],
                    last_feature < fs.len(),
                    s < 0xffff_ffff,
                    distances@.len() == n,
                    prev.1.len() == n,
                    dnew == Seq::new(fi.len(), |q: int| prev.1[q] + hamming(fs[last_feature as int], fs[fi[q] as int])),
                    forall|q: int| 0 <= q < idx ==> distances@[q] == dnew[q],
                    forall|q: int| idx <= q < n ==> distances@[q] == prev.1[q],
                    forall|q: int| 0 <= q < idx ==> distances@[q] <= (s + 1) * 0xffff_ffff,
                    forall|q: int| idx <= q < n ==> distances@[q] <= s * 0xffff_ffff,
                    idx > 0 ==> best == last_argmax(dnew.take(idx as int)) && best < idx && best_dist == dnew[best as int],
                decreases n - idx,
            {
                let f = self.features.get(findices[idx] as usize);
                let dd = hamming_distance(last_center_feat, f);
                let cur = distances[idx];
                proof {
                    assert(cur <= s * 0xffff_ffff);
                    assert(s * 0xffff_ffff + 0xffff_ffff == (s + 1) * 0xffff_ffff) by (nonlinear_arith);
                    assert((s + 1) * 0xffff_ffff <= 0xffff_ffff * 0xffff_ffff) by (nonlinear_arith)
                        requires
                            s < 0xffff_ffff;
                }
                let total = cur + dd as u64;
                distances.set(idx, total);
                proof {
                    assert(dnew.take(idx + 1).drop_last() =~= dnew.take(idx as int));
                    assert(dnew.take(idx + 1).last() == dnew[idx as int]);
                    if idx > 0 {
                        assert(dnew.take(idx + 1)[best as int] == dnew[best as int]);
                    }
                }
                if idx == 0 || total >= best_dist {
                    best = idx;
                    best_dist = total;
                }
                idx = idx + 1;
            }
            assert(dnew.take(n as int) =~= dnew);
            proof {
                assert(n > 0);
            }
            last_feature = findices[best];
            centers.push(last_feature);
            proof {
                s = s + 1;
                assert(centers@ =~= spec_centers_state(fs, fi, first as nat, s).0);
            }
        }
        proof {
            if k == 0 {
                assert(s == 0);
            }
        }
        centers
    }

    /// The `k` initial centers among the features `findices`, starting from
    /// one drawn at random
    pub fn initial_cluster_centers(&self, rng: &mut StdRng, findices: &[u32]) -> (centers: Vec<u32>)
        requires
            findices@.len() > 0,
            indices_ok(self.fs(), findices@),
            features_ok(self.fs(), self.d()),
        ensures
            exists|first: nat| first < findices@.len()
                && centers@ == spec_initial_centers(self.fs(), findices@, self.k as nat, first),
    {
        let rand_idx = random_below(rng, findices.len());
        self.centers_from(findices, rand_idx)
    }
}

/// The features of one level: the features themselves when there are at
/// most `k`, else `k` clusters, each with its center's feature
pub enum LevelView {
    Terminal(Seq<(Seq<u8>, u32)>),
    Intermediate(Seq<(Seq<u8>, Seq<u32>)>),
}

/// Making one level of the tree from the features `fi`: at most `k` features
/// are leaves each; more are clustered by k-means from the initial centers
/// that start at `fi[first]`
pub open spec fn spec_create_level(fs: Seq<Seq<u8>>, fi: Seq<u32>, k: nat, max_iters: nat, d: nat, first: nat) -> LevelView {
    if fi.len() <= k {
        LevelView::Terminal(Seq::new(fi.len(), |i: int| (fs[fi[i] as int], fi[i])))
    } else {
        let centers = spec_initial_centers(fs, fi, k, first);
        let cf0 = Seq::new(centers.len(), |c: int| fs[centers[c] as int]);
        let cf = spec_kmeans(fs, fi, cf0, max_iters, 0, d);
        let a = spec_assign(fs, fi, cf);
        LevelView::Intermediate(Seq::new(cf.len(), |c: int| (cf[c], a[c])))
    }
}

/// A leaf of a level that is not split: a training feature
pub struct TerminalLeaf {
    /// The feature
    pub feature: Vec<u8>,
    /// Its index among the training features
    pub feat_idx: u32,
}

/// A cluster, which may be split further
pub struct Leaf {
    /// The feature of the cluster's center
    pub feature: Vec<u8>,
    /// Indices of the training features of the cluster
    pub findices: Vec<u32>,
}

/// One level of the tree
pub enum BranchNode {
    /// The features themselves
    Terminal(Vec<TerminalLeaf>),
    /// Clusters
    Intermediate(Vec<Leaf>),
}

/// The leaves, as their features and indices
pub open spec fn terminals_view(v: Seq<TerminalLeaf>) -> Seq<(Seq<u8>, u32)> {
    v.map_values(|t: TerminalLeaf| (t.feature@, t.feat_idx))
}

/// The clusters, as their centers' features and their features
pub open spec fn leaves_view(v: Seq<Leaf>) -> Seq<(Seq<u8>, Seq<u32>)> {
    v.map_values(|l: Leaf| (l.feature@, l.findices@))
}

impl BranchNode {
    /// The level, as features and clusters
    pub open spec fn view(&self) -> LevelView {
        match self {
            BranchNode::Terminal(v) => LevelView::Terminal(terminals_view(v@)),
            BranchNode::Intermediate(v) => LevelView::Intermediate(leaves_view(v@)),
        }
    }
}

proof fn lemma_assign_len(fs: Seq<Seq<u8>>, fi: Seq<u32>, centers: Seq<Seq<u8>>)
    requires
        centers.len() > 0,
    ensures
        spec_assign(fs, fi, centers).len() == centers.len(),
    decreases fi.len(),
{
    if fi.len() > 0 {
        lemma_assign_len(fs, fi.drop_last(), centers);
        lemma_first_argmin_below(Seq::new(centers.len(), |c: int| hamming(centers[c], fs[fi.last() as int])));
    }
}

proof fn lemma_assign_indices(fs: Seq<Seq<u8>>, fi: Seq<u32>, centers: Seq<Seq<u8>>)
    requires
        indices_ok(fs, fi),
        centers.len() > 0,
    ensures
        forall|c: int| 0 <= c < centers.len() ==> indices_ok(fs, #[trigger] spec_assign(fs, fi, centers)[c]),
    decreases fi.len(),
{
    lemma_assign_len(fs, fi, centers);
    if fi.len() > 0 {
        let p = fi.drop_last();
        assert(indices_ok(fs, p)) by {
            assert forall|i: int| 0 <= i < p.len() implies (#[trigger] p[i]) < fs.len() by {
                assert(p[i] == fi[i]);
            }
        }
        lemma_assign_indices(fs, p, centers);
        lemma_assign_len(fs, p, centers);
        lemma_first_argmin_below(Seq::new(centers.len(), |c: int| hamming(centers[c], fs[fi.last() as int])));
        let a = spec_assign(fs, p, centers);
        let n = nearest_center(centers, fs[fi.last() as int]) as int;
        assert forall|c: int| 0 <= c < centers.len() implies indices_ok(fs, #[trigger] spec_assign(fs, fi, centers)[c]) by {
            if c == n {
                let v = a[c].push(fi.last());
                assert forall|i: int| 0 <= i < v.len() implies (#[trigger] v[i]) < fs.len() by {
                    if i < a[c].len() {
                        assert(v[i] == a[c][i]);
                    }
                }
            }
        }
    }
}

/// The first least value of a non-empty sequence stands in it
proof fn lemma_first_argmin_below(d: Seq<nat>)
    requires
        d.len() > 0,
    ensures
        first_argmin(d) < d.len(),
{
    crate::features::distance::lemma_first_argmin(d);
}

impl InnerParams {
    /// Sort the features `findices` into the clusters of their nearest centers
    pub fn assign_to_clusters(&self, findices: &[u32], center_features: &Vec<Vec<u8>>, assignments: &mut Vec<Vec<u32>>)
        requires
            old(assignments)@.len() == center_features@.len(),
            center_features@.len() > 0,
            forall|c: int| 0 <= c < center_features@.len() ==> (#[trigger] center_features@[c])@.len() == self.d(),
            indices_ok(self.fs(), findices@),
            features_ok(self.fs(), self.d()),
        ensures
            vecs_u32(final(assignments)@) == spec_assign(self.fs(), findices@, vecs_u8(center_features@)),
    {
        let ghost fs = self.fs();
        let ghost cs = vecs_u8(center_features@);
        let k = assignments.len();
        let mut c: usize = 0;
        while c < k
            invariant
                c <= k,
                assignments@.len() == k,
                forall|q: int| 0 <= q < c ==> (#[trigger] assignments@[q])@.len() == 0,
            decreases k - c,
        {
            assignments.set(c, Vec::new());
            c = c + 1;
        }
        proof {
            assert(findices@.take(0) =~= Seq::<u32>::empty());
            assert forall|q: int| 0 <= q < k implies #[trigger] vecs_u32(assignments@)[q] =~= Seq::<u32>::empty() by {
                assert(assignments@[q]@.len() == 0);
            }
            assert(vecs_u32(assignments@) =~= spec_assign(fs, findices@.take(0), cs));
        }
        let mut i: usize = 0;
        while i < findices.len()
            invariant
                i <= findices@.len(),
                fs == self.fs(),
                cs == vecs_u8(center_features@),
                cs.len() > 0,
                assignments@.len() == cs.len(),
                forall|q: int| 0 <= q < center_features@.len() ==> (#[trigger] center_features@[q])@.len() == self.d(),
                indices_ok(fs, findices@),
                features_ok(fs, self.d()),
                vecs_u32(assignments@) == spec_assign(fs, findices@.take(i as int), cs),
            decreases findices@.len() - i,
        {
            let fi = findices[i];
            let feature = self.features.get(fi as usize);
            let c = nearest(center_features, feature);
            let ghost before = vecs_u32(assignments@);
            let mut tmp: Vec<u32> = Vec::new();
            assignments.set_and_swap(c, &mut tmp);
            tmp.push(fi);
            assignments.set_and_swap(c, &mut tmp);
            proof {
                let t = findices@.take(i + 1);
                assert(t.drop_last() =~= findices@.take(i as int));
                assert(t.last() == fi);
                assert(vecs_u32(assignments@) =~= before.update(c as int, before[c as int].push(fi)));
            }
            i = i + 1;
        }
        assert(findices@.take(i as int) =~= findices@);
    }

    /// The mean of each cluster
    pub fn recompute_centers(&self, assignments: &Vec<Vec<u32>>) -> (centers: Vec<Vec<u8>>)
        requires
            forall|c: int| 0 <= c < assignments@.len() ==> indices_ok(self.fs(), #[trigger] assignments@[c]@),
        ensures
            vecs_u8(centers@) == spec_means(self.fs(), vecs_u32(assignments@), self.d()),
            forall|c: int| 0 <= c < centers@.len() ==> (#[trigger] centers@[c])@.len() == self.d(),
    {
        let mut centers: Vec<Vec<u8>> = Vec::with_capacity(assignments.len());
        let mut c: usize = 0;
        while c < assignments.len()
            invariant
                c <= assignments@.len(),
                centers@.len() == c,
                forall|q: int| 0 <= q < assignments@.len() ==> indices_ok(self.fs(), #[trigger] assignments@[q]@),
                vecs_u8(centers@) == spec_means(self.fs(), vecs_u32(assignments@), self.d()).take(c as int),
                forall|q: int| 0 <= q < centers@.len() ==> (#[trigger] centers@[q])@.len() == self.d(),
            decreases assignments@.len() - c,
        {
            let m = self.features.mean_value(assignments[c].as_slice());
            let ghost before = centers@;
            centers.push(m);
            c = c + 1;
            proof {
                let target = spec_means(self.fs(), vecs_u32(assignments@), self.d());
                assert(target[c - 1] == spec_mean(self.fs(), assignments@[c - 1]@, self.d()));
                assert forall|q: int| 0 <= q < c implies #[trigger] vecs_u8(centers@)[q] == target.take(c as int)[q] by {
                    if q < c - 1 {
                        assert(centers@[q] == before[q]);
                        assert(vecs_u8(before)[q] == target.take(c - 1)[q]);
                    }
                }
                assert(vecs_u8(centers@) =~= target.take(c as int));
            }
        }
        assert(spec_means(self.fs(), vecs_u32(assignments@), self.d()).take(c as int) =~= spec_means(self.fs(), vecs_u32(assignments@), self.d()));
        centers
    }

    /// One level of the tree from the features `feature_idxs`, the k-means
    /// starting at `feature_idxs[first]` when there are more than `k`
    pub fn create_level_from(&self, feature_idxs: &[u32], first: usize) -> (node: BranchNode)
        requires
            self.k > 0,
            first < feature_idxs@.len(),
            feature_idxs@.len() > self.k,
            indices_ok(self.fs(), feature_idxs@),
            features_ok(self.fs(), self.d()),
        ensures
            node.view() == spec_create_level(self.fs(), feature_idxs@, self.k as nat, self.max_iters as nat, self.d(), first as nat),
    {
        let ghost fs = self.fs();
        let ghost fi = feature_idxs@;
        let k = self.k as usize;
        let capacity = feature_idxs.len() / k;
        let mut assignments: Vec<Vec<u32>> = Vec::with_capacity(k);
        let mut c: usize = 0;
        while c < k
            invariant
                c <= k,
                assignments@.len() == c,
            decreases k - c,
        {
            assignments.push(Vec::with_capacity(capacity));
            c = c + 1;
        }
        let centers = self.centers_from(feature_idxs, first);
        let ghost cs0 = spec_initial_centers(fs, fi, k as nat, first as nat);
        proof {
            assert(spec_centers_state(fs, fi, first as nat, (k - 1) as nat).0.len() == k) by {
                lemma_centers_state_len(fs, fi, first as nat, (k - 1) as nat);
            }
            lemma_centers_state_indices(fs, fi, first as nat, (k - 1) as nat);
        }
        let mut center_features: Vec<Vec<u8>> = Vec::with_capacity(k);
        let mut c: usize = 0;
        while c < centers.len()
            invariant
                c <= centers@.len(),
                centers@ == cs0,
                cs0.len() == k,
                fs == self.fs(),
                forall|q: int| 0 <= q < cs0.len() ==> (#[trigger] cs0[q]) < fs.len(),
                features_ok(fs, self.d()),
                center_features@.len() == c,
                vecs_u8(center_features@) == Seq::new(cs0.len(), |q: int| fs[cs0[q] as int]).take(c as int),
                forall|q: int| 0 <= q < c ==> (#[trigger] center_features@[q])@.len() == self.d(),
            decreases centers@.len() - c,
        {
            let f = self.features.get(centers[c] as usize);
            let ghost before = center_features@;
            center_features.push(crate::features::u8::copy_bytes(f));
            c = c + 1;
            proof {
                let target = Seq::new(cs0.len(), |q: int| fs[cs0[q] as int]);
                assert forall|q: int| 0 <= q < c implies #[trigger] vecs_u8(center_features@)[q] == target.take(c as int)[q] by {
                    if q < c - 1 {
                        assert(center_features@[q] == before[q]);
                        assert(vecs_u8(before)[q] == target.take(c - 1)[q]);
                    }
                }
                assert(vecs_u8(center_features@) =~= target.take(c as int));
            }
        }
        assert(vecs_u8(center_features@) =~= Seq::new(cs0.len(), |q: int| fs[cs0[q] as int]));
        let ghost target = spec_kmeans(fs, fi, vecs_u8(center_features@), self.max_iters as nat, 0, self.d());
        let mut prev_hash: u64 = 0;
        let mut iter: usize = 0;
        while iter < self.max_iters
            invariant_except_break
                iter <= self.max_iters,
                spec_kmeans(fs, fi, vecs_u8(center_features@), (self.max_iters - iter) as nat, prev_hash, self.d()) == target,
            invariant
                fs == self.fs(),
                fi == feature_idxs@,
                indices_ok(fs, fi),
                features_ok(fs, self.d()),
                center_features@.len() == k,
                k > 0,
                assignments@.len() == k,
                forall|q: int| 0 <= q < center_features@.len() ==> (#[trigger] center_features@[q])@.len() == self.d(),
            ensures
                vecs_u8(center_features@) == target,
            decreases self.max_iters - iter,
        {
            self.assign_to_clusters(feature_idxs, &center_features, &mut assignments);
            proof {
                lemma_assign_indices(fs, fi, vecs_u8(center_features@));
                lemma_assign_len(fs, fi, vecs_u8(center_features@));
                assert forall|q: int| 0 <= q < assignments@.len() implies indices_ok(fs, #[trigger] assignments@[q]@) by {
                    assert(assignments@[q]@ == vecs_u32(assignments@)[q]);
                }
            }
            let ghost a = spec_assign(fs, fi, vecs_u8(center_features@));
            let next = self.recompute_centers(&assignments);
            let cur_hash = vhash(assignments.as_slice());
            proof {
                assert(spec_means(fs, a, self.d()).len() == k);
            }
            center_features = next;
            if cur_hash == prev_hash {
                break;
            }
            prev_hash = cur_hash;
            iter = iter + 1;
        }
        self.assign_to_clusters(feature_idxs, &center_features, &mut assignments);
        let ghost a = spec_assign(fs, fi, target);
        proof {
            lemma_assign_len(fs, fi, target);
        }
        let mut children: Vec<Leaf> = Vec::with_capacity(k);
        let mut assignments = assignments;
        let mut center_features = center_features;
        let ghost cf_all = vecs_u8(center_features@);
        let ghost a_all = vecs_u32(assignments@);
        while center_features.len() > 0
            invariant
                center_features@.len() == assignments@.len(),
                center_features@.len() + children@.len() == k,
                cf_all.len() == k,
                a_all.len() == k,
                vecs_u8(center_features@) == cf_all.skip(children@.len() as int),
                vecs_u32(assignments@) == a_all.skip(children@.len() as int),
                leaves_view(children@)
                    == Seq::new(k as nat, |c: int| (cf_all[c], a_all[c])).take(children@.len() as int),
            decreases center_features@.len(),
        {
            let ghost n0 = children@.len();
            let ghost cfb = center_features@;
            let ghost ab = assignments@;
            let ghost chb = children@;
            let feature = center_features.remove(0);
            let findices = assignments.remove(0);
            proof {
                assert(vecs_u8(cfb)[0] == cfb[0]@);
                assert(cf_all.skip(n0 as int)[0] == cf_all[n0 as int]);
                assert(feature@ == cf_all[n0 as int]);
                assert(vecs_u32(ab)[0] == ab[0]@);
                assert(a_all.skip(n0 as int)[0] == a_all[n0 as int]);
                assert(findices@ == a_all[n0 as int]);
            }
            children.push(Leaf { feature, findices });
            proof {
                let target = Seq::new(k as nat, |c: int| (cf_all[c], a_all[c]));
                assert forall|q: int| 0 <= q < children@.len() implies #[trigger] leaves_view(children@)[q] == target.take(children@.len() as int)[q] by {
                    if q < n0 {
                        assert(children@[q] == chb[q]);
                        assert(leaves_view(chb)[q] == target.take(n0 as int)[q]);
                    }
                }
                assert forall|q: int| 0 <= q < center_features@.len() implies #[trigger] vecs_u8(center_features@)[q] == cf_all.skip(children@.len() as int)[q] by {
                    assert(center_features@[q] == cfb[q + 1]);
                    assert(vecs_u8(cfb)[q + 1] == cf_all.skip(n0 as int)[q + 1]);
                }
                assert forall|q: int| 0 <= q < assignments@.len() implies #[trigger] vecs_u32(assignments@)[q] == a_all.skip(children@.len() as int)[q] by {
                    assert(assignments@[q] == ab[q + 1]);
                    assert(vecs_u32(ab)[q + 1] == a_all.skip(n0 as int)[q + 1]);
                }
                assert(vecs_u8(center_features@) =~= cf_all.skip(children@.len() as int));
                assert(vecs_u32(assignments@) =~= a_all.skip(children@.len() as int));
                assert(leaves_view(children@)
                    =~= Seq::new(k as nat, |c: int| (cf_all[c], a_all[c])).take(children@.len() as int));
            }
        }
        assert(Seq::new(k as nat, |c: int| (cf_all[c], a_all[c])).take(k as int) =~= Seq::new(k as nat, |c: int| (cf_all[c], a_all[c])));
        BranchNode::Intermediate(children)
    }

    /// One level of the tree from the features `feature_idxs`: the features
    /// themselves when there are at most `k`, else their clusters by k-means
    /// from a first center drawn at random
    pub fn create_level(&self, rng: &mut StdRng, feature_idxs: &[u32]) -> (node: BranchNode)
        requires
            self.k > 0 || feature_idxs@.len() == 0,
            indices_ok(self.fs(), feature_idxs@),
            features_ok(self.fs(), self.d()),
        ensures
            feature_idxs@.len() <= self.k ==> node.view() == spec_create_level(self.fs(), feature_idxs@, self.k as nat, self.max_iters as nat, self.d(), 0),
            feature_idxs@.len() > self.k ==> exists|first: nat| first < feature_idxs@.len()
                && node.view() == spec_create_level(self.fs(), feature_idxs@, self.k as nat, self.max_iters as nat, self.d(), first),
    {
        let ghost fs = self.fs();
        if feature_idxs.len() <= self.k as usize {
            let mut children: Vec<TerminalLeaf> = Vec::with_capacity(feature_idxs.len());
            let mut i: usize = 0;
            while i < feature_idxs.len()
                invariant
                    i <= feature_idxs@.len(),
                    children@.len() == i,
                    fs == self.fs(),
                    indices_ok(fs, feature_idxs@),
                    terminals_view(children@)
                        == Seq::new(feature_idxs@.len(), |q: int| (fs[feature_idxs@[q] as int], feature_idxs@[q])).take(i as int),
                decreases feature_idxs@.len() - i,
            {
                let fi = feature_idxs[i];
                let f = self.features.get(fi as usize);
                let ghost chb = children@;
                children.push(TerminalLeaf { feature: crate::features::u8::copy_bytes(f), feat_idx: fi });
                i = i + 1;
                proof {
                    let target = Seq::new(feature_idxs@.len(), |q: int| (fs[feature_idxs@[q] as int], feature_idxs@[q]));
                    assert forall|q: int| 0 <= q < i implies #[trigger] terminals_view(children@)[q] == target.take(i as int)[q] by {
                        if q < i - 1 {
                            assert(children@[q] == chb[q]);
                            assert(terminals_view(chb)[q] == target.take(i - 1)[q]);
                        }
                    }
                }
                assert(terminals_view(children@)
                    =~= Seq::new(feature_idxs@.len(), |q: int| (fs[feature_idxs@[q] as int], feature_idxs@[q])).take(i as int));
            }
            assert(Seq::new(feature_idxs@.len(), |q: int| (fs[feature_idxs@[q] as int], feature_idxs@[q])).take(i as int)
                =~= Seq::new(feature_idxs@.len(), |q: int| (fs[feature_idxs@[q] as int], feature_idxs@[q])));
            return BranchNode::Terminal(children);
        }
        let first = random_below(rng, feature_idxs.len());
        self.create_level_from(feature_idxs, first)
    }
}

proof fn lemma_centers_state_len(fs: Seq<Seq<u8>>, fi: Seq<u32>, first: nat, s: nat)
    ensures
        spec_centers_state(fs, fi, first, s).0.len() == s + 1,
        spec_centers_state(fs, fi, first, s).1.len() == fi.len(),
    decreases s,
{
    if s > 0 {
        lemma_centers_state_len(fs, fi, first, (s - 1) as nat);
    }
}

proof fn lemma_last_argmax_below(d: Seq<nat>)
    ensures
        d.len() > 0 ==> last_argmax(d) < d.len(),
    decreases d.len(),
{
    if d.len() > 1 {
        lemma_last_argmax_below(d.drop_last());
    }
}

proof fn lemma_centers_state_indices(fs: Seq<Seq<u8>>, fi: Seq<u32>, first: nat, s: nat)
    requires
        first < fi.len(),
        indices_ok(fs, fi),
    ensures
        forall|q: int| 0 <= q < spec_centers_state(fs, fi, first, s).0.len() ==>
            (#[trigger] spec_centers_state(fs, fi, first, s).0[q]) < fs.len(),
    decreases s,
{
    lemma_centers_state_len(fs, fi, first, s);
    if s > 0 {
        lemma_centers_state_indices(fs, fi, first, (s - 1) as nat);
        let prev = spec_centers_state(fs, fi, first, (s - 1) as nat);
        lemma_centers_state_len(fs, fi, first, (s - 1) as nat);
        let last = prev.0.last();
        let d = Seq::new(fi.len(), |i: int| prev.1[i] + hamming(fs[last as int], fs[fi[i] as int]));
        lemma_last_argmax_below(d);
        let cur = spec_centers_state(fs, fi, first, s).0;
        assert forall|q: int| 0 <= q < cur.len() implies (#[trigger] cur[q]) < fs.len() by {
            if q < prev.0.len() {
                assert(cur[q] == prev.0[q]);
            }
        }
    }
}

proof fn lemma_means_shape(fs: Seq<Seq<u8>>, a: Seq<Seq<u32>>, d: nat)
    ensures
        spec_means(fs, a, d).len() == a.len(),
        forall|c: int| 0 <= c < a.len() ==> (#[trigger] spec_means(fs, a, d)[c]).len() == d,
{
}

proof fn lemma_kmeans_shape(fs: Seq<Seq<u8>>, fi: Seq<u32>, cf: Seq<Seq<u8>>, iters: nat, prev: u64, d: nat)
    requires
        cf.len() > 0,
        forall|c: int| 0 <= c < cf.len() ==> (#[trigger] cf[c]).len() == d,
    ensures
        spec_kmeans(fs, fi, cf, iters, prev, d).len() == cf.len(),
        forall|c: int| 0 <= c < cf.len() ==> (#[trigger] spec_kmeans(fs, fi, cf, iters, prev, d)[c]).len() == d,
    decreases iters,
{
    if iters > 0 {
        let a = spec_assign(fs, fi, cf);
        lemma_assign_len(fs, fi, cf);
        lemma_means_shape(fs, a, d);
        let cf2 = spec_means(fs, a, d);
        if spec_vhash(a) != prev {
            lemma_kmeans_shape(fs, fi, cf2, (iters - 1) as nat, spec_vhash(a), d);
        }
    }
}

/// The clusters of a level have `k` centers of `d` bytes, and hold features of `fs`
pub proof fn lemma_assign_indices_level(fs: Seq<Seq<u8>>, fi: Seq<u32>, k: nat, max_iters: nat, d: nat, first: nat)
    requires
        fi.len() > k,
        k > 0,
        first < fi.len(),
        indices_ok(fs, fi),
        features_ok(fs, d),
    ensures
        spec_create_level(fs, fi, k, max_iters, d, first) matches LevelView::Intermediate(lv) && {
            &&& lv.len() == k
            &&& forall|c: int| 0 <= c < k ==> indices_ok(fs, (#[trigger] lv[c]).1) && lv[c].0.len() == d
        },
{
    let centers = spec_initial_centers(fs, fi, k, first);
    lemma_centers_state_len(fs, fi, first, (k - 1) as nat);
    lemma_centers_state_indices(fs, fi, first, (k - 1) as nat);
    let cf0 = Seq::new(centers.len(), |c: int| fs[centers[c] as int]);
    assert forall|c: int| 0 <= c < cf0.len() implies (#[trigger] cf0[c]).len() == d by {
        assert(centers[c] < fs.len());
    }
    lemma_kmeans_shape(fs, fi, cf0, max_iters, 0, d);
    let cf = spec_kmeans(fs, fi, cf0, max_iters, 0, d);
    lemma_assign_len(fs, fi, cf);
    lemma_assign_indices(fs, fi, cf);
}

} // verus!
