//! Turning the tree of clusters into the blocks of a vocabulary, breadth first
use vstd::prelude::*;
use crate::features::u8::FeaturesU8;
use crate::vocabulary::fbow::{BlockEntry, LinkEntry, spec_entries_view, entries_ordered};
use super::tree::{CNode, tree_features_len, kid_features_len};
use super::kmeans::vecs_u8;

verus! {

/// A node that becomes a block: a split cluster, or a terminal one
pub open spec fn is_block(n: CNode) -> bool {
    n is Branch || n is TerminalBranch
}

/// The feature of a node
pub open spec fn node_feature(n: CNode) -> Seq<u8> {
    match n {
        CNode::Branch { feature, .. } => feature@,
        CNode::Leaf { feature, .. } => feature@,
        CNode::Terminal { feature, .. } => feature@,
        CNode::TerminalBranch { feature, .. } => feature@,
    }
}

/// Number of children of a node
pub open spec fn num_children(n: CNode) -> nat {
    match n {
        CNode::Branch { children, .. } => children@.len(),
        CNode::TerminalBranch { children, .. } => children@.len(),
        _ => 0,
    }
}

/// The nodes of `s` that become blocks, in order
pub open spec fn block_nodes(s: Seq<CNode>) -> Seq<CNode>
    decreases s.len(),
{
    if s.len() == 0 {
        Seq::empty()
    } else if is_block(s.last()) {
        block_nodes(s.drop_last()).push(s.last())
    } else {
        block_nodes(s.drop_last())
    }
}

/// The features of the nodes of `s` that become blocks (`blocks`) or of the others
pub open spec fn node_features(s: Seq<CNode>, blocks: bool) -> Seq<Seq<u8>>
    decreases s.len(),
{
    if s.len() == 0 {
        Seq::empty()
    } else if is_block(s.last()) == blocks {
        node_features(s.drop_last(), blocks).push(node_feature(s.last()))
    } else {
        node_features(s.drop_last(), blocks)
    }
}

/// The children of a node that become blocks
pub open spec fn block_kids(n: CNode) -> Seq<CNode> {
    match n {
        CNode::Branch { children, .. } => block_nodes(children@),
        _ => Seq::empty(),
    }
}

/// The features of the children of a node: first those that become blocks,
/// then the leaves
pub open spec fn kid_features(n: CNode) -> Seq<Seq<u8>> {
    match n {
        CNode::Branch { children, .. } => node_features(children@, true) + node_features(children@, false),
        CNode::TerminalBranch { children, .. } => children@.map_values(|t: super::kmeans::TerminalLeaf| t.feature@),
        _ => Seq::empty(),
    }
}

/// Number of blocks of a tree
pub open spec fn block_count(n: CNode) -> nat
    decreases n, 0nat,
{
    match n {
        CNode::Branch { children, .. } => 1 + block_counts(children@),
        CNode::TerminalBranch { .. } => 1,
        _ => 0,
    }
}

/// Number of blocks of the trees of `s`
pub open spec fn block_counts(s: Seq<CNode>) -> nat
    decreases s, 1nat,
{
    if s.len() == 0 {
        0
    } else {
        block_counts(s.drop_last()) + block_count(s[s.len() - 1])
    }
}

/// Number of words of a tree: the children of all its blocks
pub open spec fn word_count(n: CNode) -> nat
    decreases n, 0nat,
{
    match n {
        CNode::Branch { children, .. } => children@.len() + word_counts(children@),
        CNode::TerminalBranch { children, .. } => children@.len(),
        _ => 0,
    }
}

/// Number of words of the trees of `s`
pub open spec fn word_counts(s: Seq<CNode>) -> nat
    decreases s, 1nat,
{
    if s.len() == 0 {
        0
    } else {
        word_counts(s.drop_last()) + word_count(s[s.len() - 1])
    }
}

/// Sum of the numbers of block children of the nodes of `s`
pub open spec fn kids_sum(s: Seq<CNode>) -> nat
    decreases s.len(),
{
    if s.len() == 0 {
        0
    } else {
        kids_sum(s.drop_last()) + block_kids(s.last()).len()
    }
}

/// Sum of the numbers of children of the nodes of `s`
pub open spec fn children_sum(s: Seq<CNode>) -> nat
    decreases s.len(),
{
    if s.len() == 0 {
        0
    } else {
        children_sum(s.drop_last()) + num_children(s.last())
    }
}

/// The features of the children of the nodes of `s`, node after node
pub open spec fn features_of(s: Seq<CNode>) -> Seq<Seq<u8>>
    decreases s.len(),
{
    if s.len() == 0 {
        Seq::empty()
    } else {
        features_of(s.drop_last()) + kid_features(s.last())
    }
}

/// `order` is the breadth-first order of the blocks of the tree `root`:
/// the root first, and the block children of each node, in order, right
/// after those of the nodes before it
pub open spec fn is_bfs(root: CNode, order: Seq<CNode>) -> bool {
    &&& order.len() > 0
    &&& order[0] == root
    &&& order.len() == 1 + kids_sum(order)
    &&& forall|p: int, i: int| 0 <= p < order.len() && 0 <= i < block_kids(order[p]).len() ==>
        order[1 + kids_sum(order.take(p)) + i] == #[trigger] block_kids(order[p])[i]
}

/// The blocks of the nodes of `order`, numbered in that order: the first
/// word ids follow the children of the nodes before, and the block children
/// are the positions where they stand
pub open spec fn bfs_entries(order: Seq<CNode>) -> Seq<LinkEntry> {
    Seq::new(order.len(), |p: int| LinkEntry {
        base: children_sum(order.take(p)),
        n: num_children(order[p]),
        branches: Seq::new(block_kids(order[p]).len(), |i: int| (1 + kids_sum(order.take(p)) + i) as u32),
    })
}

/// The nodes referred to
pub open spec fn refs_view(s: Seq<&CNode>) -> Seq<CNode> {
    s.map_values(|r: &CNode| *r)
}

proof fn lemma_block_counts_append(a: Seq<CNode>, b: Seq<CNode>)
    ensures
        block_counts(a + b) == block_counts(a) + block_counts(b),
        word_counts(a + b) == word_counts(a) + word_counts(b),
    decreases b.len(),
{
    if b.len() == 0 {
        assert(a + b =~= a);
    } else {
        assert((a + b).drop_last() =~= a + b.drop_last());
        assert((a + b)[(a + b).len() - 1] == b[b.len() - 1]);
        lemma_block_counts_append(a, b.drop_last());
    }
}

proof fn lemma_block_counts_first(s: Seq<CNode>)
    requires
        s.len() > 0,
    ensures
        block_counts(s) == block_count(s[0]) + block_counts(s.drop_first()),
        word_counts(s) == word_count(s[0]) + word_counts(s.drop_first()),
{
    let one = seq![s[0]];
    assert(s =~= one + s.drop_first());
    lemma_block_counts_append(one, s.drop_first());
    assert(one.drop_last() =~= Seq::<CNode>::empty());
    assert(block_counts(one.drop_last()) == 0);
    assert(word_counts(one.drop_last()) == 0);
    assert(one[one.len() - 1] == s[0]);
    assert(block_counts(one) == block_count(s[0]));
    assert(word_counts(one) == word_count(s[0]));
}

proof fn lemma_block_nodes_counts(s: Seq<CNode>)
    ensures
        block_counts(block_nodes(s)) == block_counts(s),
        word_counts(block_nodes(s)) == word_counts(s),
        forall|i: int| 0 <= i < block_nodes(s).len() ==> is_block(#[trigger] block_nodes(s)[i]),
        block_nodes(s).len() <= s.len(),
    decreases s.len(),
{
    if s.len() > 0 {
        lemma_block_nodes_counts(s.drop_last());
        let p = block_nodes(s.drop_last());
        assert(block_counts(s) == block_counts(s.drop_last()) + block_count(s[s.len() - 1]));
        assert(word_counts(s) == word_counts(s.drop_last()) + word_count(s[s.len() - 1]));
        if !is_block(s.last()) {
            assert(block_count(s[s.len() - 1]) == 0);
            assert(word_count(s[s.len() - 1]) == 0);
        }
        if is_block(s.last()) {
            let q = p.push(s.last());
            assert(q.drop_last() =~= p);
            assert(q[q.len() - 1] == s.last());
            assert forall|i: int| 0 <= i < q.len() implies is_block(#[trigger] q[i]) by {
                if i < p.len() {
                    assert(q[i] == p[i]);
                }
            }
        }
    }
}

proof fn lemma_counts_at_least_len(s: Seq<CNode>)
    requires
        forall|i: int| 0 <= i < s.len() ==> is_block(#[trigger] s[i]),
    ensures
        block_counts(s) >= s.len(),
    decreases s.len(),
{
    if s.len() > 0 {
        assert forall|i: int| 0 <= i < s.drop_last().len() implies is_block(#[trigger] s.drop_last()[i]) by {
            assert(s.drop_last()[i] == s[i]);
        }
        lemma_counts_at_least_len(s.drop_last());
        assert(is_block(s[s.len() - 1]));
        assert(block_counts(s) == block_counts(s.drop_last()) + block_count(s[s.len() - 1]));
        assert(block_count(s[s.len() - 1]) >= 1);
    }
}

proof fn lemma_node_counts(n: CNode)
    requires
        is_block(n),
    ensures
        block_count(n) == 1 + block_counts(block_kids(n)),
        word_count(n) == num_children(n) + word_counts(block_kids(n)),
{
    match n {
        CNode::Branch { children, .. } => {
            lemma_block_nodes_counts(children@);
        },
        _ => {},
    }
}

proof fn lemma_block_nodes_prefix(s: Seq<CNode>, k: int)
    requires
        0 <= k <= s.len(),
    ensures
        block_nodes(s.take(k)).len() <= block_nodes(s).len(),
        block_nodes(s.take(k)) == block_nodes(s).take(block_nodes(s.take(k)).len() as int),
    decreases s.len() - k,
{
    if k < s.len() {
        assert(s.drop_last().take(k) =~= s.take(k));
        lemma_block_nodes_prefix(s.drop_last(), k);
        let a = block_nodes(s.take(k));
        let m = block_nodes(s.drop_last());
        let c = block_nodes(s);
        assert(c.take(a.len() as int) =~= m.take(a.len() as int));
    } else {
        assert(s.take(k) =~= s);
        let c = block_nodes(s);
        assert(c.take(c.len() as int) =~= c);
    }
}

proof fn lemma_block_nodes_members(s: Seq<CNode>)
    ensures
        forall|i: int| 0 <= i < block_nodes(s).len() ==> exists|j: int| 0 <= j < s.len() && s[j] == #[trigger] block_nodes(s)[i],
    decreases s.len(),
{
    if s.len() > 0 {
        lemma_block_nodes_members(s.drop_last());
        let p = block_nodes(s.drop_last());
        let q = block_nodes(s);
        assert forall|i: int| 0 <= i < q.len() implies exists|j: int| 0 <= j < s.len() && s[j] == #[trigger] q[i] by {
            if i < p.len() {
                assert(q[i] == p[i]);
                let j = choose|j: int| 0 <= j < s.drop_last().len() && s.drop_last()[j] == p[i];
                assert(s[j] == s.drop_last()[j]);
            } else {
                assert(q[i] == s[s.len() - 1]);
            }
        }
    }
}

proof fn lemma_tree_kid_features(n: CNode, d: nat)
    requires
        tree_features_len(n, d),
    ensures
        kid_features_len(n, d),
{
}

proof fn lemma_kids_sum_prefix(s: Seq<CNode>, k: int)
    requires
        0 <= k <= s.len(),
    ensures
        kids_sum(s.take(k)) <= kids_sum(s),
    decreases s.len() - k,
{
    if k < s.len() {
        assert(s.drop_last().take(k) =~= s.take(k));
        lemma_kids_sum_prefix(s.drop_last(), k);
    } else {
        assert(s.take(k) =~= s);
    }
}

/// Lay the tree of clusters `root` out as blocks, breadth first: the block
/// entries, the features of the children of each block (first those that
/// are blocks, then the leaves), and the number of blocks
pub fn build_blocks(root: &CNode, d: usize) -> (r: (Vec<BlockEntry>, FeaturesU8, u32))
    requires
        is_block(*root),
        d > 0,
        kid_features_len(*root, d as nat),
        word_count(*root) <= u32::MAX,
        block_count(*root) <= u32::MAX,
    ensures
        exists|order: Seq<CNode>| {
            &&& is_bfs(*root, order)
            &&& spec_entries_view(r.0@) == bfs_entries(order)
            &&& r.1@ == features_of(order)
            &&& r.2 == order.len()
        },
        entries_ordered(spec_entries_view(r.0@)),
        r.0@.len() > 0,
        r.1.wf(),
        r.1.spec_feature_len() == d,
        r.2 == block_count(*root),
{
    let mut order: Vec<&CNode> = Vec::new();
    order.push(root);
    let mut entries: Vec<BlockEntry> = Vec::new();
    let mut features = FeaturesU8::new(0, d);
    let mut next_id: u32 = 0;
    let mut p: usize = 0;
    proof {
        assert(refs_view(order@).skip(0) =~= seq![*root]);
        lemma_block_counts_first(seq![*root]);
        assert(seq![*root].drop_first() =~= Seq::<CNode>::empty());
        assert(refs_view(order@).take(0) =~= Seq::<CNode>::empty());
        assert(spec_entries_view(entries@) =~= bfs_entries(refs_view(order@).take(0)));
    }
    while p < order.len()
        invariant
            p <= order@.len(),
            d > 0,
            refs_view(order@)[0] == *root,
            forall|q: int| 0 <= q < order@.len() ==> is_block(#[trigger] refs_view(order@)[q]),
            forall|q: int| 0 <= q < order@.len() ==> kid_features_len(#[trigger] refs_view(order@)[q], d as nat),
            order@.len() == 1 + kids_sum(refs_view(order@).take(p as int)),
            forall|q: int, i: int| 0 <= q < p && 0 <= i < block_kids(refs_view(order@)[q]).len() ==>
                refs_view(order@)[1 + kids_sum(refs_view(order@).take(q)) + i] == #[trigger] block_kids(refs_view(order@)[q])[i],
            forall|q: int| 0 <= q < p ==> q < 1 + #[trigger] kids_sum(refs_view(order@).take(q)),
            spec_entries_view(entries@) == bfs_entries(refs_view(order@).take(p as int)),
            features.wf(),
            features.spec_feature_len() == d,
            features@ == features_of(refs_view(order@).take(p as int)),
            next_id == children_sum(refs_view(order@).take(p as int)),
            next_id + word_counts(refs_view(order@).skip(p as int)) == word_count(*root),
            p + block_counts(refs_view(order@).skip(p as int)) == block_count(*root),
            word_count(*root) <= u32::MAX,
            block_count(*root) <= u32::MAX,
        decreases block_counts(refs_view(order@).skip(p as int)),
    {
        let ghost view = refs_view(order@);
        let ghost node = view[p as int];
        let node_ref: &CNode = order[p];
        assert(*node_ref == node);
        let ghost kids = block_kids(node);
        proof {
            lemma_node_counts(node);
            lemma_block_counts_first(view.skip(p as int));
            assert(view.skip(p as int)[0] == node);
            assert(view.skip(p as int).drop_first() =~= view.skip(p + 1));
            assert forall|i: int| 0 <= i < view.skip(p + 1).len() implies is_block(#[trigger] view.skip(p + 1)[i]) by {
                assert(view.skip(p + 1)[i] == view[p + 1 + i]);
            }
            lemma_counts_at_least_len(view.skip(p + 1));
            match node {
                CNode::Branch { children, .. } => {
                    lemma_block_nodes_counts(children@);
                    lemma_counts_at_least_len(block_nodes(children@));
                },
                _ => {},
            }
            assert(order@.len() + kids.len() <= block_count(*root));
        }
        let ghost start_len = order@.len();
        let base = next_id;
        let n: usize;
        let mut branches: Vec<u32> = Vec::new();
        match node_ref {
            CNode::Branch { children, .. } => {
                n = children.len();
                let mut block_feats: Vec<Vec<u8>> = Vec::new();
                let mut leaf_feats: Vec<Vec<u8>> = Vec::new();
                proof {
                    lemma_block_nodes_members(children@);
                    assert(children@.take(0) =~= Seq::<CNode>::empty());
                    assert(branches@ =~= Seq::new(0, |i: int| (start_len + i) as u32));
                }
                let mut c: usize = 0;
                while c < n
                    invariant
                        c <= n,
                        n == children@.len(),
                        kids == block_nodes(children@),
                        d > 0,
                        forall|q: int| 0 <= q < children@.len() ==> tree_features_len(#[trigger] children@[q], d as nat),
                        start_len + kids.len() <= block_count(*root),
                        block_count(*root) <= u32::MAX,
                        order@.len() == start_len + block_nodes(children@.take(c as int)).len(),
                        view.len() == start_len,
                        forall|q: int| 0 <= q < start_len ==> #[trigger] refs_view(order@)[q] == view[q],
                        forall|i: int| 0 <= i < block_nodes(children@.take(c as int)).len() ==>
                            refs_view(order@)[start_len + i] == #[trigger] block_nodes(children@.take(c as int))[i],
                        branches@ == Seq::new(block_nodes(children@.take(c as int)).len(), |i: int| (start_len + i) as u32),
                        vecs_u8(block_feats@) == node_features(children@.take(c as int), true),
                        vecs_u8(leaf_feats@) == node_features(children@.take(c as int), false),
                        forall|q: int| 0 <= q < block_feats@.len() ==> (#[trigger] block_feats@[q])@.len() == d,
                        forall|q: int| 0 <= q < leaf_feats@.len() ==> (#[trigger] leaf_feats@[q])@.len() == d,
                    decreases n - c,
                {
                    let child: &CNode = &children[c];
                    let ghost tc = children@.take(c as int);
                    let ghost tc1 = children@.take(c + 1);
                    let ghost ob = order@;
                    let ghost bb = branches@;
                    let ghost bf = block_feats@;
                    let ghost lf = leaf_feats@;
                    proof {
                        assert(tc1.drop_last() =~= tc);
                        assert(tc1.last() == children@[c as int]);
                        assert(tree_features_len(*child, d as nat));
                        lemma_block_nodes_prefix(children@, c + 1);
                    }
                    let is_blk = match child {
                        CNode::Branch { .. } => true,
                        CNode::TerminalBranch { .. } => true,
                        _ => false,
                    };
                    let feature: &Vec<u8> = match child {
                        CNode::Branch { feature, .. } => feature,
                        CNode::Leaf { feature, .. } => feature,
                        CNode::Terminal { feature, .. } => feature,
                        CNode::TerminalBranch { feature, .. } => feature,
                    };
                    assert(feature@ == node_feature(*child));
                    let f = crate::features::u8::copy_bytes(feature.as_slice());
                    if is_blk {
                        branches.push(order.len() as u32);
                        order.push(child);
                        block_feats.push(f);
                        proof {
                            assert(block_nodes(tc1) == block_nodes(tc).push(*child));
                            assert forall|q: int| 0 <= q < start_len implies #[trigger] refs_view(order@)[q] == view[q] by {
                                assert(order@[q] == ob[q]);
                                assert(refs_view(ob)[q] == view[q]);
                            }
                            assert forall|i: int| 0 <= i < block_nodes(tc1).len() implies
                                refs_view(order@)[start_len + i] == #[trigger] block_nodes(tc1)[i] by {
                                if i < block_nodes(tc).len() {
                                    assert(order@[start_len + i] == ob[start_len + i]);
                                }
                            }
                            assert(branches@ =~= Seq::new(block_nodes(tc1).len(), |i: int| (start_len + i) as u32));
                            assert(vecs_u8(block_feats@) =~= node_features(tc1, true)) by {
                                assert(block_feats@ == bf.push(f));
                                assert forall|q: int| 0 <= q < bf.len() implies #[trigger] vecs_u8(block_feats@)[q] == vecs_u8(bf)[q] by {
                                    assert(block_feats@[q] == bf[q]);
                                }
                            }
                            assert(vecs_u8(leaf_feats@) == node_features(tc1, false));
                        }
                    } else {
                        leaf_feats.push(f);
                        proof {
                            assert(block_nodes(tc1) == block_nodes(tc));
                            assert(vecs_u8(leaf_feats@) =~= node_features(tc1, false)) by {
                                assert(leaf_feats@ == lf.push(f));
                                assert forall|q: int| 0 <= q < lf.len() implies #[trigger] vecs_u8(leaf_feats@)[q] == vecs_u8(lf)[q] by {
                                    assert(leaf_feats@[q] == lf[q]);
                                }
                            }
                            assert(vecs_u8(block_feats@) == node_features(tc1, true));
                        }
                    }
                    c = c + 1;
                }
                proof {
                    assert(children@.take(c as int) =~= children@);
                    assert forall|q: int| 0 <= q < block_feats@.len() implies (#[trigger] block_feats@[q])@.len() == d by {}
                }
                features.insert(block_feats.as_slice());
                features.insert(leaf_feats.as_slice());
                proof {
                    assert(features@ =~= features_of(view.take(p as int)) + (node_features(children@, true) + node_features(children@, false)));
                }
            },
            CNode::TerminalBranch { children, .. } => {
                n = children.len();
                let mut leaf_feats: Vec<Vec<u8>> = Vec::new();
                let mut c: usize = 0;
                while c < n
                    invariant
                        c <= n,
                        n == children@.len(),
                        forall|q: int| 0 <= q < children@.len() ==> (#[trigger] children@[q]).feature@.len() == d,
                        leaf_feats@.len() == c,
                        forall|q: int| 0 <= q < c ==> (#[trigger] leaf_feats@[q])@ == children@[q].feature@,
                        forall|q: int| 0 <= q < c ==> (#[trigger] leaf_feats@[q])@.len() == d,
                    decreases n - c,
                {
                    leaf_feats.push(crate::features::u8::copy_bytes(children[c].feature.as_slice()));
                    c = c + 1;
                }
                features.insert(leaf_feats.as_slice());
                proof {
                    assert(vecs_u8(leaf_feats@) =~= children@.map_values(|t: super::kmeans::TerminalLeaf| t.feature@));
                    assert(features@ =~= features_of(view.take(p as int)) + kid_features(node));
                    assert(branches@ =~= Seq::new(0, |i: int| (start_len + i) as u32));
                }
            },
            _ => {
                return vstd::pervasive::unreached();
            },
        }
        let ghost eb = entries@;
        assert(spec_entries_view(eb).len() == eb.len());
        assert(eb.len() == p);
        entries.push(BlockEntry { base, n: n as u32, branches });
        next_id = next_id + n as u32;
        p = p + 1;
        proof {
            let view2 = refs_view(order@);
            assert(view2.take(p as int) =~= view.take(p as int));
            assert(view.take(p as int).drop_last() =~= view.take(p - 1));
            assert(view.take(p as int).last() == node);
            assert(view2 =~= view + kids);
            assert(view2.skip(p as int) =~= view.skip(p as int) + kids);
            lemma_block_counts_append(view.skip(p as int), kids);
            assert(spec_entries_view(entries@) =~= bfs_entries(view2.take(p as int))) by {
                let be = bfs_entries(view2.take(p as int));
                assert forall|q: int| 0 <= q < p implies #[trigger] spec_entries_view(entries@)[q] == be[q] by {
                    assert(view2.take(p as int).take(q) =~= view.take(p - 1).take(q));
                    if q < p - 1 {
                        assert(entries@[q] == eb[q]);
                        assert(spec_entries_view(eb)[q] == bfs_entries(view.take(p - 1))[q]);
                    } else {
                        assert(view.take(p - 1).take(q) =~= view.take(p - 1));
                    }
                }
            }
            assert forall|q: int, i: int| 0 <= q < p && 0 <= i < block_kids(view2[q]).len() implies
                view2[1 + kids_sum(view2.take(q)) + i] == #[trigger] block_kids(view2[q])[i] by {
                assert(view2.take(q) =~= view.take(q));
                assert(view2[q] == view[q]);
                if q == p - 1 {
                    assert(view2[start_len + i] == kids[i]);
                } else {
                    lemma_kids_sum_prefix(view.take(p - 1), q + 1);
                    assert(view.take(p - 1).take(q + 1) =~= view.take(q + 1));
                    assert(view.take(q + 1).drop_last() =~= view.take(q));
                    assert(view.take(q + 1).last() == view[q]);
                    assert(1 + kids_sum(view.take(q)) + i < view.len());
                }
            }
            assert forall|q: int| 0 <= q < p implies q < 1 + #[trigger] kids_sum(view2.take(q)) by {
                assert(view2.take(q) =~= view.take(q));
            }
            assert forall|q: int| 0 <= q < order@.len() implies is_block(#[trigger] refs_view(order@)[q])
                && kid_features_len(refs_view(order@)[q], d as nat) by {
                if q >= start_len {
                    let i = q - start_len;
                    match node {
                        CNode::Branch { children, .. } => {
                            lemma_block_nodes_counts(children@);
                            let j = choose|j: int| 0 <= j < children@.len() && children@[j] == #[trigger] block_nodes(children@)[i];
                            lemma_tree_kid_features(children@[j], d as nat);
                        },
                        _ => {},
                    }
                }
            }
        }
    }
    proof {
        let view = refs_view(order@);
        assert(view.take(p as int) =~= view);
        lemma_kids_sum_prefix(view, 0);
        assert forall|q: int, k: int| 0 <= q < spec_entries_view(entries@).len() && 0 <= k < spec_entries_view(entries@)[q].branches.len() implies
            q < #[trigger] spec_entries_view(entries@)[q].branches[k] < spec_entries_view(entries@).len() by {
            lemma_kids_sum_prefix(view, q + 1);
            assert(view.take(q + 1).drop_last() =~= view.take(q));
            assert(view.take(q + 1).last() == view[q]);
        }
        assert(view.skip(p as int) =~= Seq::<CNode>::empty());
    }
    let nblocks = order.len() as u32;
    (entries, features, nblocks)
}

} // verus!
