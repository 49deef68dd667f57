//! With a depth limit, creating a vocabulary always ends, and its tree has
//! at most as many blocks as a full tree of that depth
use vstd::prelude::*;
use crate::matrix::Matrix;
use super::VocabularyCreatorParams;
use super::feature::{spec_feature_info, spec_kept, spec_all_rows};
use super::kmeans::{spec_create_level, LevelView, lemma_assign_indices_level, indices_ok, features_ok, terminals_view};
use super::tree::{CNode, CreateSpec, built, finishes};
use super::layout::{word_count, block_count, word_counts, block_counts};
use super::{create_ok, spec_create, all_indices};

verus! {

/// The most blocks of a tree whose branches have `k` children, `m` levels
/// of branches deep
pub open spec fn max_blocks(k: nat, m: nat) -> nat
    decreases m,
{
    if m == 0 {
        1
    } else {
        1 + k * max_blocks(k, (m - 1) as nat)
    }
}

/// A full tree has a block for each of its levels at least
proof fn lemma_max_blocks_depth(k: nat, m: nat)
    requires
        k > 0,
    ensures
        max_blocks(k, m) >= m + 1,
    decreases m,
{
    if m > 0 {
        lemma_max_blocks_depth(k, (m - 1) as nat);
        let sub = max_blocks(k, (m - 1) as nat);
        assert(k * sub >= sub) by (nonlinear_arith)
            requires
                k > 0;
    }
}

/// Under the depth limit `l`, making the tree of the features `fi` at
/// `depth` ends within the levels left
proof fn lemma_finishes_within_depth(cs: CreateSpec, fi: Seq<u32>, depth: nat, l: nat)
    requires
        cs.max_depth == Some(l),
        depth <= l,
        cs.k > 0,
        indices_ok(cs.fs, fi),
        features_ok(cs.fs, cs.d),
    ensures
        finishes(cs, fi, depth, (l - depth) as nat),
    decreases l - depth,
{
    if fi.len() > cs.k && depth < l {
        assert forall|first: nat| first < fi.len() implies
            (#[trigger] spec_create_level(cs.fs, fi, cs.k, cs.max_iters, cs.d, first) matches LevelView::Intermediate(lv)
                && forall|c: int| 0 <= c < lv.len() ==> finishes(cs, #[trigger] lv[c].1, depth + 1, (l - depth - 1) as nat)) by {
            lemma_assign_indices_level(cs.fs, fi, cs.k, cs.max_iters, cs.d, first);
            let lv = spec_create_level(cs.fs, fi, cs.k, cs.max_iters, cs.d, first)->Intermediate_0;
            assert forall|c: int| 0 <= c < lv.len() implies finishes(cs, #[trigger] lv[c].1, depth + 1, (l - depth - 1) as nat) by {
                lemma_finishes_within_depth(cs, lv[c].1, depth + 1, l);
            }
        }
    }
}

/// Trees each of at most `bb` blocks and `wb` words
proof fn lemma_counts_bounded(s: Seq<CNode>, bb: nat, wb: nat)
    requires
        forall|i: int| 0 <= i < s.len() ==> block_count(#[trigger] s[i]) <= bb && word_count(s[i]) <= wb,
    ensures
        block_counts(s) <= s.len() * bb,
        word_counts(s) <= s.len() * wb,
    decreases s.len(),
{
    if s.len() > 0 {
        lemma_counts_bounded(s.drop_last(), bb, wb);
        assert(block_count(s[s.len() - 1]) <= bb);
        assert((s.len() - 1) * bb + bb == s.len() * bb) by (nonlinear_arith);
        assert((s.len() - 1) * wb + wb == s.len() * wb) by (nonlinear_arith);
    }
}

/// Under the depth limit `l`, a tree made from the features `fi` at `depth`
/// has at most as many blocks as a full tree of the levels left, and `k`
/// words per block
proof fn lemma_built_counts(cs: CreateSpec, t: CNode, fi: Seq<u32>, f: Seq<u8>, depth: nat, l: nat)
    requires
        cs.max_depth == Some(l),
        depth <= l,
        cs.k > 0,
        indices_ok(cs.fs, fi),
        features_ok(cs.fs, cs.d),
        built(cs, t, fi, f, depth),
    ensures
        block_count(t) <= max_blocks(cs.k, (l - depth) as nat),
        word_count(t) <= cs.k * max_blocks(cs.k, (l - depth) as nat),
    decreases t,
{
    let m = (l - depth) as nat;
    let mb = max_blocks(cs.k, m);
    assert(mb >= 1);
    assert(cs.k <= cs.k * mb) by (nonlinear_arith)
        requires
            mb >= 1;
    if fi.len() <= cs.k {
        if let CNode::TerminalBranch { children, .. } = t {
            assert(terminals_view(children@).len() == children@.len());
        }
    } else {
        if let CNode::Branch { children, .. } = t {
            let first = choose|first: nat| {
                &&& first < fi.len()
                &&& #[trigger] spec_create_level(cs.fs, fi, cs.k, cs.max_iters, cs.d, first) matches LevelView::Intermediate(lv)
                &&& children@.len() == lv.len()
                &&& forall|c: int| 0 <= c < lv.len() ==> {
                    if depth < l {
                        built(cs, #[trigger] children@[c], lv[c].1, lv[c].0, depth + 1)
                    } else {
                        children@[c] matches CNode::Leaf { feature: lf, findices: li } && lf@ == lv[c].0 && li@ == lv[c].1
                    }
                }
            };
            lemma_assign_indices_level(cs.fs, fi, cs.k, cs.max_iters, cs.d, first);
            let lv = spec_create_level(cs.fs, fi, cs.k, cs.max_iters, cs.d, first)->Intermediate_0;
            assert(children@.len() == cs.k);
            if depth < l {
                let sub = max_blocks(cs.k, (m - 1) as nat);
                assert forall|c: int| 0 <= c < children@.len() implies
                    block_count(#[trigger] children@[c]) <= sub && word_count(children@[c]) <= cs.k * sub by {
                    assert(decreases_to!(t => children));
                    assert(decreases_to!(children => children@));
                    assert(decreases_to!(children@ => children@[c]));
                    lemma_built_counts(cs, children@[c], lv[c].1, lv[c].0, depth + 1, l);
                }
                lemma_counts_bounded(children@, sub, cs.k * sub);
                assert(mb == 1 + cs.k * sub);
                assert(children@.len() * (cs.k * sub) == cs.k * (cs.k * sub)) by (nonlinear_arith)
                    requires
                        children@.len() == cs.k;
                assert(cs.k + cs.k * (cs.k * sub) == cs.k * mb) by (nonlinear_arith)
                    requires
                        mb == 1 + cs.k * sub;
            } else {
                assert forall|c: int| 0 <= c < children@.len() implies
                    block_count(#[trigger] children@[c]) <= 0 && word_count(children@[c]) <= 0 by {
                    assert(children@[c] is Leaf);
                }
                lemma_counts_bounded(children@, 0, 0);
                assert(children@.len() * 0 == 0);
            }
        }
    }
}

/// Every training feature has `d` bytes, when the matrices all have `d` columns
proof fn lemma_all_rows_len(ms: Seq<Matrix<u8>>, d: nat)
    requires
        forall|i: int| 0 <= i < ms.len() ==> (#[trigger] ms[i]).wf() && ms[i].ncols == d,
    ensures
        forall|j: int| 0 <= j < spec_all_rows(ms).len() ==> (#[trigger] spec_all_rows(ms)[j]).len() == d,
    decreases ms.len(),
{
    if ms.len() > 0 {
        lemma_all_rows_len(ms.drop_last(), d);
        let last = ms[ms.len() - 1];
        assert(last.wf());
        let prev = spec_all_rows(ms.drop_last());
        assert forall|j: int| 0 <= j < spec_all_rows(ms).len() implies (#[trigger] spec_all_rows(ms)[j]).len() == d by {
            if j >= prev.len() {
                assert(spec_all_rows(ms)[j] == last.spec_rows()[j - prev.len()]);
                assert(last.rows@[j - prev.len()]@.len() == d);
            } else {
                assert(spec_all_rows(ms)[j] == prev[j]);
            }
        }
    }
}

/// With a depth limit `L`, creating a vocabulary from the matrices
/// `features` never panics, provided `k` is not zero, the features and
/// their bytes fit the counters, and a full tree of depth `L` numbers its
/// words in 32 bits: the creation ends whatever first centers are drawn,
/// and every tree it can make fits
pub proof fn lemma_create_ok(params: VocabularyCreatorParams, features: Seq<Matrix<u8>>)
    requires
        forall|i: int| 0 <= i < features.len() ==> (#[trigger] features[i]).wf(),
        spec_feature_info(features) is Ok,
        spec_feature_info(features)->Ok_0.len() <= u32::MAX,
        spec_kept(features)[0].ncols <= 0x1fff_ffff,
        params.k > 0,
        params.L is Some,
        params.k * max_blocks(params.k as nat, params.L->Some_0 as nat) <= u32::MAX,
    ensures
        create_ok(params, spec_feature_info(features)->Ok_0, spec_kept(features)[0].ncols as nat),
{
    let fs = spec_feature_info(features)->Ok_0;
    let kept = spec_kept(features);
    let d = kept[0].ncols as nat;
    let cs = spec_create(params, fs, d);
    let l = params.L->Some_0 as nat;
    let fi = all_indices(fs.len());
    lemma_kept_wf(features);
    assert forall|i: int| 0 <= i < kept.len() implies (#[trigger] kept[i]).wf() && kept[i].ncols == d by {
        if kept[i].ncols != d {
            assert(kept[i].ncols != kept[0].ncols);
        }
    }
    lemma_all_rows_len(kept, d);
    assert(kept[0].ncols != 0);
    assert(features_ok(fs, d));
    assert(indices_ok(fs, fi));
    lemma_finishes_within_depth(cs, fi, 0, l);
    lemma_max_blocks_depth(params.k as nat, l);
    assert(params.k * max_blocks(params.k as nat, l) >= max_blocks(params.k as nat, l)) by (nonlinear_arith)
        requires
            params.k > 0;
    assert(l < usize::MAX);
    assert(finishes(cs, fi, 0, l));
    let mb = max_blocks(params.k as nat, l);
    assert forall|t: CNode| #[trigger] built(cs, t, fi, Seq::empty(), 0) implies
        word_count(t) <= u32::MAX && block_count(t) <= u32::MAX by {
        lemma_built_counts(cs, t, fi, Seq::empty(), 0, l);
        assert(mb <= params.k * mb) by (nonlinear_arith)
            requires
                params.k > 0;
    }
}

/// The matrices kept are among those given
proof fn lemma_kept_wf(ms: Seq<Matrix<u8>>)
    requires
        forall|i: int| 0 <= i < ms.len() ==> (#[trigger] ms[i]).wf(),
    ensures
        forall|i: int| 0 <= i < spec_kept(ms).len() ==> (#[trigger] spec_kept(ms)[i]).wf(),
    decreases ms.len(),
{
    if ms.len() > 0 {
        lemma_kept_wf(ms.drop_first());
        let rest = spec_kept(ms.drop_first());
        assert forall|i: int| 0 <= i < rest.len() implies (#[trigger] rest[i]).wf() by {}
        if ms[0].rows@.len() > 0 {
            assert forall|i: int| 0 <= i < spec_kept(ms).len() implies (#[trigger] spec_kept(ms)[i]).wf() by {
                if i > 0 {
                    assert(spec_kept(ms)[i] == rest[i - 1]);
                }
            }
        }
    }
}


/// Full trees grow with their depth
proof fn lemma_max_blocks_mono(k: nat, i: nat, j: nat)
    requires
        k > 0,
        i <= j,
    ensures
        max_blocks(k, i) <= max_blocks(k, j),
    decreases j - i,
{
    if i < j {
        lemma_max_blocks_mono(k, i, (j - 1) as nat);
        let sub = max_blocks(k, (j - 1) as nat);
        assert(k * sub >= sub) by (nonlinear_arith)
            requires
                k > 0;
    }
}

/// Whether `k` is not zero and a full tree of depth `l` with `k` children
/// per block numbers its words in 32 bits, as creating a vocabulary with
/// that branching factor and depth limit needs
pub fn depth_limit_fits(k: u32, l: u32) -> (b: bool)
    ensures
        b == (k > 0 && k * max_blocks(k as nat, l as nat) <= u32::MAX),
{
    if k == 0 {
        return false;
    }
    let kk = k as u64;
    let mut mb: u64 = 1;
    let mut i: u32 = 0;
    if kk * mb > 0xffff_ffffu64 {
        return false;
    }
    while i < l
        invariant
            i <= l,
            kk == k,
            k > 0,
            mb == max_blocks(k as nat, i as nat),
            kk * mb <= u32::MAX,
        decreases l - i,
    {
        mb = 1 + kk * mb;
        i = i + 1;
        assert(mb <= 0x1_0000_0000);
        proof {
            assert(kk * mb <= 0xffff_ffff * 0x1_0000_0000) by (nonlinear_arith)
                requires
                    kk <= 0xffff_ffff,
                    mb <= 0x1_0000_0000;
        }
        if kk * mb > 0xffff_ffffu64 {
            proof {
                lemma_max_blocks_mono(k as nat, i as nat, l as nat);
                assert(k * max_blocks(k as nat, l as nat) >= k * mb) by (nonlinear_arith)
                    requires
                        max_blocks(k as nat, l as nat) >= mb;
            }
            return false;
        }
    }
    true
}

} // verus!
