//! Listing the keys, values or items of a bag of words or of grouped
//! features, in the order the map gives them, by key, or by value
use vstd::prelude::*;
use vstd::multiset::Multiset;
use vstd::seq_lib::{to_multiset_build, to_multiset_insert, to_multiset_len, to_multiset_contains};
use crate::bow::{Bow, Features, lists_weights, lists_entries};

verus! {

/// What a view lists
#[derive(Clone, Copy, Debug, PartialEq, Eq, Structural)]
pub enum ViewMode {
    /// The keys
    Keys,
    /// The values
    Values,
    /// The key and value pairs
    Items,
}

/// How a view is sorted
#[derive(Clone, Copy, Debug, PartialEq, Eq, Structural)]
pub enum SortMode {
    /// By key
    Keys,
    /// By value
    Values,
    /// In the order of the map
    Unsorted,
}

impl ViewMode {
    /// The sort of a view when sorting is asked without saying how: values
    /// by value, keys and items by key
    pub fn default_sort(&self) -> (s: SortMode)
        ensures
            s == (if *self == ViewMode::Values { SortMode::Values } else { SortMode::Keys }),
    {
        match self {
            ViewMode::Keys => SortMode::Keys,
            ViewMode::Values => SortMode::Values,
            ViewMode::Items => SortMode::Keys,
        }
    }
}

/// A view that cannot be sorted as asked
#[derive(Clone, Copy, Debug, PartialEq, Eq, Structural)]
pub enum ViewError {
    /// A view of the keys of a bag of words, sorted by value
    KeysByValue,
    /// A view of grouped features, sorted by value
    FeaturesByValue,
}

/// A listed view: the keys, or the values or items of a bag of words
/// (weights by their `f32` bits), or of grouped features
pub enum ListOutput {
    Keys(Vec<u32>),
    ValueB(Vec<u32>),
    ItemB(Vec<(u32, u32)>),
    ValueF(Vec<Vec<u32>>),
    ItemF(Vec<(u32, Vec<u32>)>),
}

/// The key that orders `f32` values given by their bits as their total order
/// does: negative values (sign bit set) below positive ones, each by magnitude
pub open spec fn spec_order_key(bits: u32) -> u32 {
    if bits >= 0x8000_0000 {
        (0xffff_ffff - bits) as u32
    } else {
        (bits + 0x8000_0000) as u32
    }
}

/// The order key of the `f32` value of bits `bits`
pub fn order_key(bits: u32) -> (k: u32)
    ensures
        k == spec_order_key(bits),
{
    if bits >= 0x8000_0000 {
        0xffff_ffff - bits
    } else {
        bits + 0x8000_0000
    }
}

/// `s` in reverse order
pub open spec fn spec_reversed<A>(s: Seq<A>) -> Seq<A> {
    Seq::new(s.len(), |i: int| s[s.len() - 1 - i])
}

/// The pairs are in the order of their first components
pub open spec fn sorted_by_first<T>(s: Seq<(u32, T)>) -> bool {
    forall|i: int, j: int| 0 <= i < j < s.len() ==> s[i].0 <= s[j].0
}

/// The weights are in the order of their values
pub open spec fn sorted_by_value(s: Seq<(u32, u32)>) -> bool {
    forall|i: int, j: int| 0 <= i < j < s.len() ==> spec_order_key(s[i].1) <= spec_order_key(s[j].1)
}

/// No two pairs have the same first component
pub open spec fn keys_unique<T>(s: Seq<(u32, T)>) -> bool {
    forall|i: int, j: int| 0 <= i < j < s.len() ==> (#[trigger] s[i]).0 != (#[trigger] s[j]).0
}

/// A rearrangement of pairs of distinct keys has distinct keys, the same
/// length and the same pairs
proof fn lemma_perm_keys<T>(a: Seq<(u32, T)>, b: Seq<(u32, T)>)
    requires
        a.to_multiset() == b.to_multiset(),
        keys_unique(a),
    ensures
        b.len() == a.len(),
        keys_unique(b),
        forall|x: (u32, T)| a.contains(x) <==> b.contains(x),
{
    broadcast use vstd::multiset::group_multiset_axioms;
    to_multiset_len(a);
    to_multiset_len(b);
    assert forall|x: (u32, T)| a.contains(x) <==> b.contains(x) by {
        to_multiset_contains(a, x);
        to_multiset_contains(b, x);
    }
    assert(a.no_duplicates()) by {
        assert forall|i: int, j: int| 0 <= i < a.len() && 0 <= j < a.len() && i != j implies a[i] != a[j] by {
            if i < j {
                assert(a[i].0 != a[j].0);
            } else {
                assert(a[j].0 != a[i].0);
            }
        }
    }
    a.lemma_multiset_has_no_duplicates();
    b.lemma_multiset_has_no_duplicates_conv();
    assert forall|i: int, j: int| 0 <= i < j < b.len() implies (#[trigger] b[i]).0 != (#[trigger] b[j]).0 by {
        if b[i].0 == b[j].0 {
            assert(b.contains(b[i]));
            assert(b.contains(b[j]));
            let k = choose|k: int| 0 <= k < a.len() && a[k] == b[i];
            let l = choose|l: int| 0 <= l < a.len() && a[l] == b[j];
            if k != l {
                if k < l {
                    assert(a[k].0 != a[l].0);
                } else {
                    assert(a[l].0 != a[k].0);
                }
            }
            assert(b[i] == b[j]);
        }
    }
}

/// A sequence with no elements makes the empty multiset
proof fn lemma_empty_multiset<A>(s: Seq<A>)
    requires
        s.len() == 0,
    ensures
        s.to_multiset() =~= Multiset::<A>::empty(),
{
    to_multiset_len(s);
    vstd::multiset::lemma_multiset_empty_len(s.to_multiset());
}

/// Sort pairs by their first components
fn sort_by_first<T>(items: Vec<(u32, T)>) -> (r: Vec<(u32, T)>)
    ensures
        sorted_by_first(r@),
        r@.to_multiset() == items@.to_multiset(),
{
    broadcast use vstd::multiset::group_multiset_axioms;
    let ghost orig = items@;
    let mut rest = items;
    let mut out: Vec<(u32, T)> = Vec::new();
    proof { lemma_empty_multiset(out@); }
    assert(out@.to_multiset().add(rest@.to_multiset()) =~= orig.to_multiset());
    while rest.len() > 0
        invariant
            sorted_by_first(out@),
            out@.to_multiset().add(rest@.to_multiset()) == orig.to_multiset(),
        decreases rest@.len(),
    {
        let ghost before = rest@;
        let x = match rest.pop() {
            Some(x) => x,
            None => { return out; },
        };
        proof {
            assert(before =~= rest@.push(x));
            to_multiset_build(rest@, x);
        }
        let k = x.0;
        let mut p: usize = 0;
        while p < out.len() && out[p].0 <= k
            invariant
                p <= out@.len(),
                forall|i: int| 0 <= i < p ==> out@[i].0 <= k,
            decreases out@.len() - p,
        {
            p = p + 1;
        }
        let ghost ob = out@;
        proof {
            assert forall|i: int| p <= i < ob.len() implies ob[i].0 > k by {
                assert(ob[p as int].0 > k);
                if i > p {
                    assert(ob[p as int].0 <= ob[i].0);
                }
            }
        }
        out.insert(p, x);
        proof {
            to_multiset_insert(ob, p as int, x);
            assert(out@.to_multiset().add(rest@.to_multiset()) =~= orig.to_multiset());
            assert forall|i: int, j: int| 0 <= i < j < out@.len() implies out@[i].0 <= out@[j].0 by {
                if j < p {
                    assert(out@[i] == ob[i] && out@[j] == ob[j]);
                } else if j == p {
                    assert(out@[i] == ob[i]);
                } else if i < p {
                    assert(out@[i] == ob[i] && out@[j] == ob[j - 1]);
                } else if i == p {
                    assert(out@[j] == ob[j - 1]);
                } else {
                    assert(out@[i] == ob[i - 1] && out@[j] == ob[j - 1]);
                }
            }
        }
    }
    proof { lemma_empty_multiset(rest@); }
    assert(out@.to_multiset() =~= orig.to_multiset());
    out
}

/// Sort weights by their values (given by their bits)
fn sort_by_value(items: Vec<(u32, u32)>) -> (r: Vec<(u32, u32)>)
    ensures
        sorted_by_value(r@),
        r@.to_multiset() == items@.to_multiset(),
{
    broadcast use vstd::multiset::group_multiset_axioms;
    let ghost orig = items@;
    let mut rest = items;
    let mut out: Vec<(u32, u32)> = Vec::new();
    proof { lemma_empty_multiset(out@); }
    assert(out@.to_multiset().add(rest@.to_multiset()) =~= orig.to_multiset());
    while rest.len() > 0
        invariant
            sorted_by_value(out@),
            out@.to_multiset().add(rest@.to_multiset()) == orig.to_multiset(),
        decreases rest@.len(),
    {
        let ghost before = rest@;
        let x = match rest.pop() {
            Some(x) => x,
            None => { return out; },
        };
        proof {
            assert(before =~= rest@.push(x));
            to_multiset_build(rest@, x);
        }
        let k = order_key(x.1);
        let mut p: usize = 0;
        while p < out.len() && order_key(out[p].1) <= k
            invariant
                p <= out@.len(),
                k == spec_order_key(x.1),
                forall|i: int| 0 <= i < p ==> spec_order_key(out@[i].1) <= k,
            decreases out@.len() - p,
        {
            p = p + 1;
        }
        let ghost ob = out@;
        proof {
            assert forall|i: int| p <= i < ob.len() implies spec_order_key(ob[i].1) > k by {
                assert(spec_order_key(ob[p as int].1) > k);
                if i > p {
                    assert(spec_order_key(ob[p as int].1) <= spec_order_key(ob[i].1));
                }
            }
        }
        out.insert(p, x);
        proof {
            to_multiset_insert(ob, p as int, x);
            assert(out@.to_multiset().add(rest@.to_multiset()) =~= orig.to_multiset());
            assert forall|i: int, j: int| 0 <= i < j < out@.len() implies spec_order_key(out@[i].1) <= spec_order_key(out@[j].1) by {
                if j < p {
                    assert(out@[i] == ob[i] && out@[j] == ob[j]);
                } else if j == p {
                    assert(out@[i] == ob[i]);
                } else if i < p {
                    assert(out@[i] == ob[i] && out@[j] == ob[j - 1]);
                } else if i == p {
                    assert(out@[j] == ob[j - 1]);
                } else {
                    assert(out@[i] == ob[i - 1] && out@[j] == ob[j - 1]);
                }
            }
        }
    }
    proof { lemma_empty_multiset(rest@); }
    assert(out@.to_multiset() =~= orig.to_multiset());
    out
}

/// Reverse the elements of `v`
fn reverse_vec<T>(v: Vec<T>) -> (r: Vec<T>)
    ensures
        r@ == spec_reversed(v@),
{
    let ghost orig = v@;
    let mut rest = v;
    let mut out: Vec<T> = Vec::new();
    while rest.len() > 0
        invariant
            rest@ == orig.take(rest@.len() as int),
            rest@.len() <= orig.len(),
            out@.len() + rest@.len() == orig.len(),
            forall|i: int| 0 <= i < out@.len() ==> #[trigger] out@[i] == orig[orig.len() - 1 - i],
        decreases rest@.len(),
    {
        let ghost before = rest@;
        let x = match rest.pop() {
            Some(x) => x,
            None => { return out; },
        };
        assert(x == orig[before.len() - 1]);
        assert(rest@ =~= orig.take(rest@.len() as int));
        out.push(x);
    }
    assert(out@ =~= spec_reversed(orig));
    out
}

/// The pairs `v`, reversed when asked
pub open spec fn maybe_reversed<A>(v: Seq<A>, reversed: bool) -> Seq<A> {
    if reversed { spec_reversed(v) } else { v }
}

/// The weights `v` are in the order `sort` asks
pub open spec fn bow_sorted(v: Seq<(u32, u32)>, sort: SortMode) -> bool {
    match sort {
        SortMode::Keys => sorted_by_first(v),
        SortMode::Values => sorted_by_value(v),
        SortMode::Unsorted => true,
    }
}

/// `r` lists the weights `v` as `mode` says: their words, their values, or both
pub open spec fn bow_output(v: Seq<(u32, u32)>, mode: ViewMode, r: ListOutput) -> bool {
    match mode {
        ViewMode::Keys => r matches ListOutput::Keys(ks) && ks@ == v.map_values(|e: (u32, u32)| e.0),
        ViewMode::Values => r matches ListOutput::ValueB(vs) && vs@ == v.map_values(|e: (u32, u32)| e.1),
        ViewMode::Items => r matches ListOutput::ItemB(its) && its@ == v,
    }
}

/// A rearrangement of a listing of a bag is a listing of it
proof fn lemma_perm_lists_weights(m: Map<u32, u32>, a: Seq<(u32, u32)>, b: Seq<(u32, u32)>)
    requires
        lists_weights(m, a),
        a.to_multiset() == b.to_multiset(),
    ensures
        lists_weights(m, b),
{
    lemma_perm_keys(a, b);
    assert forall|i: int| 0 <= i < b.len() implies m.contains_key(#[trigger] b[i].0) && m[b[i].0] == b[i].1 by {
        assert(b.contains(b[i]));
        let k = choose|k: int| 0 <= k < a.len() && a[k] == b[i];
    }
    assert forall|k: u32| #[trigger] m.contains_key(k) implies exists|i: int| 0 <= i < b.len() && #[trigger] b[i].0 == k by {
        let i = choose|i: int| 0 <= i < a.len() && #[trigger] a[i].0 == k;
        assert(a.contains(a[i]));
        assert(b.contains(a[i]));
    }
}

/// List the words, weights or both of the bag `bow`, sorted by word or by
/// weight (by the total order of `f32`) or in the order of the map, then
/// reversed when asked. The words of a bag cannot be sorted by weight.
pub fn list_bow(bow: &Bow, mode: ViewMode, sort: SortMode, reversed: bool) -> (r: Result<ListOutput, ViewError>)
    ensures
        mode == ViewMode::Keys && sort == SortMode::Values ==> r == Err::<ListOutput, ViewError>(ViewError::KeysByValue),
        !(mode == ViewMode::Keys && sort == SortMode::Values) ==> r is Ok && exists|v: Seq<(u32, u32)>| #![trigger lists_weights(bow@, v)] {
            &&& lists_weights(bow@, v)
            &&& bow_sorted(v, sort)
            &&& bow_output(maybe_reversed(v, reversed), mode, r->Ok_0)
        },
{
    if mode == ViewMode::Keys && sort == SortMode::Values {
        return Err(ViewError::KeysByValue);
    }
    let items = bow.items();
    let listed = match sort {
        SortMode::Keys => {
            let s = sort_by_first(items);
            proof {
                lemma_perm_lists_weights(bow@, items@, s@);
            }
            s
        },
        SortMode::Values => {
            let s = sort_by_value(items);
            proof {
                lemma_perm_lists_weights(bow@, items@, s@);
            }
            s
        },
        SortMode::Unsorted => items,
    };
    let ghost v = listed@;
    assert(lists_weights(bow@, v) && bow_sorted(v, sort));
    let listed = if reversed { reverse_vec(listed) } else { listed };
    assert(listed@ == maybe_reversed(v, reversed));
    let out = match mode {
        ViewMode::Items => ListOutput::ItemB(listed),
        ViewMode::Keys => {
            let mut ks: Vec<u32> = Vec::with_capacity(listed.len());
            let mut i: usize = 0;
            while i < listed.len()
                invariant
                    i <= listed@.len(),
                    ks@ == listed@.take(i as int).map_values(|e: (u32, u32)| e.0),
                decreases listed@.len() - i,
            {
                ks.push(listed[i].0);
                i = i + 1;
                assert(ks@ =~= listed@.take(i as int).map_values(|e: (u32, u32)| e.0));
            }
            assert(listed@.take(i as int) =~= listed@);
            ListOutput::Keys(ks)
        },
        ViewMode::Values => {
            let mut vs: Vec<u32> = Vec::with_capacity(listed.len());
            let mut i: usize = 0;
            while i < listed.len()
                invariant
                    i <= listed@.len(),
                    vs@ == listed@.take(i as int).map_values(|e: (u32, u32)| e.1),
                decreases listed@.len() - i,
            {
                vs.push(listed[i].1);
                i = i + 1;
                assert(vs@ =~= listed@.take(i as int).map_values(|e: (u32, u32)| e.1));
            }
            assert(listed@.take(i as int) =~= listed@);
            ListOutput::ValueB(vs)
        },
    };
    Ok(out)
}

/// The entries `es`, by their views
pub open spec fn entries_view(es: Seq<(u32, Vec<u32>)>) -> Seq<(u32, Seq<u32>)> {
    es.map_values(|e: (u32, Vec<u32>)| (e.0, e.1@))
}

/// `r` lists the entries `es` as `mode` says: their nodes, their feature
/// indices, or both
pub open spec fn features_output(es: Seq<(u32, Seq<u32>)>, mode: ViewMode, r: ListOutput) -> bool {
    match mode {
        ViewMode::Keys => r matches ListOutput::Keys(ks) && ks@ == es.map_values(|e: (u32, Seq<u32>)| e.0),
        ViewMode::Values => r matches ListOutput::ValueF(vs) && vs@.map_values(|x: Vec<u32>| x@) == es.map_values(|e: (u32, Seq<u32>)| e.1),
        ViewMode::Items => r matches ListOutput::ItemF(its) && entries_view(its@) == es,
    }
}

/// List the nodes, feature indices or both of the grouped features `f`,
/// sorted by node or in the order of the map, then reversed when asked.
/// Grouped features cannot be sorted by value.
pub fn list_features(f: &Features, mode: ViewMode, sort: SortMode, reversed: bool) -> (r: Result<ListOutput, ViewError>)
    ensures
        sort == SortMode::Values ==> r == Err::<ListOutput, ViewError>(ViewError::FeaturesByValue),
        sort != SortMode::Values ==> r is Ok && exists|es: Seq<(u32, Seq<u32>)>| #![trigger lists_entries(f@, es)] {
            &&& lists_entries(f@, es)
            &&& (sort == SortMode::Keys ==> sorted_by_first(es))
            &&& features_output(maybe_reversed(es, reversed), mode, r->Ok_0)
        },
{
    if sort == SortMode::Values {
        return Err(ViewError::FeaturesByValue);
    }
    let entries = f.entries();
    let listed = if sort == SortMode::Keys {
        let s = sort_by_first(entries);
        proof {
            let a = entries@;
            let b = s@;
            let m = f@;
            assert(keys_unique(a)) by {
                assert forall|i: int, j: int| 0 <= i < j < a.len() implies (#[trigger] a[i]).0 != (#[trigger] a[j]).0 by {
                    assert(entries_view(a)[i].0 == a[i].0 && entries_view(a)[j].0 == a[j].0);
                }
            }
            lemma_perm_keys(a, b);
            let ea = entries_view(a);
            let eb = entries_view(b);
            assert forall|i: int| 0 <= i < eb.len() implies m.contains_key(#[trigger] eb[i].0) && m[eb[i].0] == eb[i].1 by {
                assert(b.contains(b[i]));
                let k = choose|k: int| 0 <= k < a.len() && a[k] == b[i];
                assert(ea[k] == eb[i]);
            }
            assert forall|i: int, j: int| 0 <= i < j < eb.len() implies (#[trigger] eb[i]).0 != (#[trigger] eb[j]).0 by {
                assert(b[i].0 != b[j].0);
            }
            assert forall|k: u32| #[trigger] m.contains_key(k) implies exists|i: int| 0 <= i < eb.len() && #[trigger] eb[i].0 == k by {
                let i = choose|i: int| 0 <= i < ea.len() && #[trigger] ea[i].0 == k;
                assert(a.contains(a[i]));
                assert(b.contains(a[i]));
                let l = choose|l: int| 0 <= l < b.len() && b[l] == a[i];
                assert(eb[l].0 == k);
            }
            assert(lists_entries(m, eb));
            assert forall|i: int, j: int| 0 <= i < j < eb.len() implies eb[i].0 <= eb[j].0 by {
                assert(b[i].0 <= b[j].0);
            }
            assert(sorted_by_first(eb));
        }
        s
    } else {
        entries
    };
    let ghost es = entries_view(listed@);
    assert(lists_entries(f@, es));
    assert(sort == SortMode::Keys ==> sorted_by_first(es));
    let listed = if reversed { reverse_vec(listed) } else { listed };
    assert(entries_view(listed@) =~= maybe_reversed(es, reversed));
    let ghost rs = maybe_reversed(es, reversed);
    let out = match mode {
        ViewMode::Items => ListOutput::ItemF(listed),
        ViewMode::Keys => {
            let mut ks: Vec<u32> = Vec::with_capacity(listed.len());
            let mut i: usize = 0;
            while i < listed.len()
                invariant
                    i <= listed@.len(),
                    rs == entries_view(listed@),
                    ks@ == rs.take(i as int).map_values(|e: (u32, Seq<u32>)| e.0),
                decreases listed@.len() - i,
            {
                ks.push(listed[i].0);
                i = i + 1;
                assert(ks@ =~= rs.take(i as int).map_values(|e: (u32, Seq<u32>)| e.0));
            }
            assert(rs.take(i as int) =~= rs);
            ListOutput::Keys(ks)
        },
        ViewMode::Values => {
            let mut vs: Vec<Vec<u32>> = Vec::with_capacity(listed.len());
            let ghost all = listed@;
            let mut i: usize = 0;
            let n = listed.len();
            let mut pending = reverse_vec(listed);
            while i < n
                invariant
                    i <= n,
                    n == all.len(),
                    rs == entries_view(all),
                    pending@.len() == n - i,
                    forall|q: int| 0 <= q < pending@.len() ==> #[trigger] pending@[q] == all[n - 1 - q],
                    vs@.map_values(|x: Vec<u32>| x@) == rs.take(i as int).map_values(|e: (u32, Seq<u32>)| e.1),
                decreases n - i,
            {
                let ghost before = pending@;
                let e = pending.pop().unwrap();
                assert(e == before[before.len() - 1]);
                assert(e == all[i as int]);
                assert forall|q: int| 0 <= q < pending@.len() implies #[trigger] pending@[q] == all[n - 1 - q] by {
                    assert(pending@[q] == before[q]);
                }
                let ghost old_vs = vs@;
                assert(rs[i as int] == (all[i as int].0, all[i as int].1@));
                vs.push(e.1);
                proof {
                    assert(vs@.map_values(|x: Vec<u32>| x@) =~= old_vs.map_values(|x: Vec<u32>| x@).push(e.1@));
                    assert(rs.take(i + 1) =~= rs.take(i as int).push(rs[i as int]));
                    assert(rs.take(i + 1).map_values(|e: (u32, Seq<u32>)| e.1)
                        =~= rs.take(i as int).map_values(|e: (u32, Seq<u32>)| e.1).push(rs[i as int].1));
                }
                i = i + 1;
                assert(vs@.map_values(|x: Vec<u32>| x@) =~= rs.take(i as int).map_values(|e: (u32, Seq<u32>)| e.1));
            }
            assert(rs.take(n as int) =~= rs);
            ListOutput::ValueF(vs)
        },
    };
    assert(features_output(rs, mode, out));
    assert(rs == maybe_reversed(es, reversed));
    assert({
        &&& lists_entries(f@, es)
        &&& (sort == SortMode::Keys ==> sorted_by_first(es))
        &&& features_output(maybe_reversed(es, reversed), mode, out)
    });
    Ok(out)
}

} // verus!
