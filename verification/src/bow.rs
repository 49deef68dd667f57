//! The results of a transform: counts of visual words, and the features grouped by node
use vstd::prelude::*;
use std::collections::HashMap;
use vstd::std_specs::iter::IteratorSpec;
use vstd::bytes::*;
use crate::serde::{FormatError, u32_at, spec_window, write_u32, write_u32ish, read_u32, read_u32ish, Serialize, Deserialize, SelfHash};
use crate::convert::{convert_le, spec_convert_le};
use crate::features::f32::{spec_words_bytes, write_words, copy_words, lemma_words_bytes_chunks, lemma_words_roundtrip};
use crate::creator::kmeans::spec_vhash_mix;

verus! {

broadcast use vstd::std_specs::hash::group_hash_axioms;

/// For each visual word, the number of features that were assigned to it
///
/// The weight of a word in a bag of words is this count.
#[derive(Debug)]
pub struct WordCounts(HashMap<u32, u32>);

impl View for WordCounts {
    type V = Map<u32, u32>;

    closed spec fn view(&self) -> Map<u32, u32> {
        self.0@
    }
}

impl WordCounts {
    /// Empty counts, with room for `capacity` words
    pub fn with_capacity(capacity: usize) -> (c: Self)
        ensures
            c@ == Map::<u32, u32>::empty(),
    {
        WordCounts(HashMap::with_capacity(capacity))
    }

    /// Number of distinct words
    pub fn len(&self) -> (n: usize)
        ensures
            n == self@.len(),
    {
        self.0.len()
    }

    /// Count of `word` (0 when it was never seen)
    pub fn get(&self, word: u32) -> (c: u32)
        ensures
            c == (if self@.contains_key(word) { self@[word] } else { 0 }),
    {
        match self.0.get(&word) {
            Some(c) => *c,
            None => 0,
        }
    }

    /// Add one to the count of `word`
    pub fn update(&mut self, word: u32)
        requires
            !old(self)@.contains_key(word) || old(self)@[word] < u32::MAX,
        ensures
            final(self)@ == old(self)@.insert(word, (if old(self)@.contains_key(word) { old(self)@[word] + 1 } else { 1 }) as u32),
    {
        let c = match self.0.get(&word) {
            Some(c) => *c,
            None => 0,
        };
        self.0.insert(word, c + 1);
    }

    /// The words and their counts, in the map's iteration order
    pub fn items(&self) -> (v: Vec<(u32, u32)>)
        ensures
            v@.len() == self@.len(),
            forall|i: int| 0 <= i < v@.len() ==> self@.contains_key(#[trigger] v@[i].0) && self@[v@[i].0] == v@[i].1,
            forall|w: u32| self@.contains_key(w) ==> exists|i: int| 0 <= i < v@.len() && #[trigger] v@[i].0 == w,
    {
        let mut out: Vec<(u32, u32)> = Vec::with_capacity(self.0.len());
        let ghost m = self@;
        let ghost s0 = vstd::std_specs::hash::spec_hash_map_iter(&self.0).remaining();
        for (k, v) in it: self.0.iter()
            invariant
                m == self@,
                it.seq() == s0,
                out@.len() == it.index(),
                forall|i: int| 0 <= i < out@.len() ==> out@[i] == (*it.seq()[i].0, *it.seq()[i].1),
        {
            out.push((*k, *v));
        }
        proof {
            assert forall|w: u32| m.contains_key(w) implies exists|i: int| 0 <= i < out@.len() && #[trigger] out@[i].0 == w by {
                let s = s0;
                assert(s.contains((&w, &m[w])));
                let i = choose|i: int| 0 <= i < s.len() && s[i] == (&w, &m[w]);
                assert(out@[i].0 == w);
            }
        }
        out
    }
}

/// Bag of words: the weight of each word, by the bit pattern of its `f32` value
///
/// Weights are added, scaled and compared by the caller; the library keeps,
/// encodes and decodes them.
#[derive(Debug)]
pub struct Bow(HashMap<u32, u32>);

impl View for Bow {
    type V = Map<u32, u32>;

    closed spec fn view(&self) -> Map<u32, u32> {
        self.0@
    }
}

/// `v` lists the words and weights of `m`, each word once, in some order
pub open spec fn lists_weights(m: Map<u32, u32>, v: Seq<(u32, u32)>) -> bool {
    &&& v.len() == m.dom().len()
    &&& forall|i: int| 0 <= i < v.len() ==> m.contains_key(#[trigger] v[i].0) && m[v[i].0] == v[i].1
    &&& forall|i: int, j: int| 0 <= i < j < v.len() ==> (#[trigger] v[i]).0 != (#[trigger] v[j]).0
    &&& forall|k: u32| #[trigger] m.contains_key(k) ==> exists|i: int| 0 <= i < v.len() && #[trigger] v[i].0 == k
}

/// The encoding of listed weights: each word and the bits of its weight
pub open spec fn spec_encode_weights(v: Seq<(u32, u32)>) -> Seq<u8>
    decreases v.len(),
{
    if v.len() == 0 {
        Seq::empty()
    } else {
        spec_encode_weights(v.drop_last()) + spec_u32_to_le_bytes(v.last().0) + spec_u32_to_le_bytes(v.last().1)
    }
}

/// The map of listed weights
pub open spec fn spec_weights_map(v: Seq<(u32, u32)>) -> Map<u32, u32>
    decreases v.len(),
{
    if v.len() == 0 {
        Map::empty()
    } else {
        spec_weights_map(v.drop_last()).insert(v.last().0, v.last().1)
    }
}

/// Reading `n` words and weights at `pos`: the pairs and the position after
/// them; a word read twice is an error
pub open spec fn spec_read_weights(src: Seq<u8>, pos: int, n: nat) -> Result<(Seq<(u32, u32)>, int), FormatError>
    decreases n,
{
    if n == 0 {
        Ok((Seq::empty(), pos))
    } else {
        match spec_read_weights(src, pos, (n - 1) as nat) {
            Err(e) => Err(e),
            Ok((v, p)) => if p + 8 > src.len() {
                Err(FormatError::UnexpectedEof)
            } else if spec_weights_map(v).contains_key(u32_at(src, p)) {
                Err(FormatError::DuplicateKey(u32_at(src, p)))
            } else {
                Ok((v.push((u32_at(src, p), u32_at(src, p + 4))), p + 8))
            },
        }
    }
}

impl Bow {
    /// Empty bag, with room for `capacity` words
    pub fn with_capacity(capacity: usize) -> (b: Self)
        ensures
            b@ == Map::<u32, u32>::empty(),
    {
        Bow(HashMap::with_capacity(capacity))
    }

    /// Number of words in this bag of words
    pub fn len(&self) -> (n: usize)
        ensures
            n == self@.len(),
    {
        self.0.len()
    }

    /// Remove every word
    pub fn clear(&mut self)
        ensures
            final(self)@ == Map::<u32, u32>::empty(),
    {
        self.0.clear();
    }

    /// The weight of `key`, if present
    pub fn get(&self, key: u32) -> (w: Option<u32>)
        ensures
            self@.contains_key(key) ==> w == Some(self@[key]),
            !self@.contains_key(key) ==> w is None,
    {
        match self.0.get(&key) {
            Some(w) => Some(*w),
            None => None,
        }
    }

    /// Set the weight of `key`
    pub fn set(&mut self, key: u32, weight: u32)
        ensures
            final(self)@ == old(self)@.insert(key, weight),
    {
        self.0.insert(key, weight);
    }

    /// Remove `key`, returning its weight if it was present
    pub fn remove(&mut self, key: u32) -> (w: Option<u32>)
        ensures
            final(self)@ == old(self)@.remove(key),
            old(self)@.contains_key(key) ==> w == Some(old(self)@[key]),
            !old(self)@.contains_key(key) ==> w is None,
    {
        self.0.remove(&key)
    }

    /// The words and their weights, in the map's iteration order
    pub fn items(&self) -> (v: Vec<(u32, u32)>)
        ensures
            lists_weights(self@, v@),
    {
        let mut out: Vec<(u32, u32)> = Vec::with_capacity(self.0.len());
        let ghost m = self@;
        let ghost s0 = vstd::std_specs::hash::spec_hash_map_iter(&self.0).remaining();
        for (k, w) in it: self.0.iter()
            invariant
                m == self@,
                it.seq() == s0,
                out@.len() == it.index(),
                forall|i: int| 0 <= i < out@.len() ==> out@[i] == (*it.seq()[i].0, *it.seq()[i].1),
        {
            out.push((*k, *w));
        }
        proof {
            assert(s0.no_duplicates());
            assert(out@.len() == m.dom().len()) by {
                assert(self.0@.dom() =~= m.dom());
            }
            assert forall|i: int| 0 <= i < out@.len() implies m.contains_key(#[trigger] out@[i].0) && m[out@[i].0] == out@[i].1 by {
                assert(m.contains_key(*s0[i].0) && m[*s0[i].0] == *s0[i].1);
            }
            assert forall|i: int, j: int| 0 <= i < j < out@.len() implies (#[trigger] out@[i]).0 != (#[trigger] out@[j]).0 by {
                if out@[i].0 == out@[j].0 {
                    assert(m[*s0[i].0] == *s0[i].1);
                    assert(m[*s0[j].0] == *s0[j].1);
                    assert(s0[i] == s0[j]);
                }
            }
            assert forall|k: u32| #[trigger] m.contains_key(k) implies exists|i: int| 0 <= i < out@.len() && #[trigger] out@[i].0 == k by {
                assert(s0.contains((&k, &m[k])));
                let i = choose|i: int| 0 <= i < s0.len() && s0[i] == (&k, &m[k]);
                assert(out@[i].0 == k);
            }
        }
        out
    }

    /// Write the number of words, then each word and the bits of its
    /// weight, in the map's iteration order
    pub fn write_to(&self, dst: &mut Vec<u8>) -> (r: Result<(), FormatError>)
        ensures
            exists|v: Seq<(u32, u32)>| {
                &&& lists_weights(self@, v)
                &&& v.len() <= u32::MAX ==> r is Ok && final(dst)@ == old(dst)@ + spec_u32_to_le_bytes(v.len() as u32) + spec_encode_weights(v)
                &&& v.len() > u32::MAX ==> r == Err::<(), FormatError>(FormatError::ValueOverflow)
            },
    {
        let items = self.items();
        let ghost start = dst@;
        let r = write_u32ish(items.len(), dst);
        if r.is_err() {
            return r;
        }
        let ghost mid = dst@;
        let mut i: usize = 0;
        while i < items.len()
            invariant
                i <= items@.len(),
                dst@ == mid + spec_encode_weights(items@.take(i as int)),
            decreases items@.len() - i,
        {
            let (k, w) = items[i];
            write_u32(k, dst);
            write_u32(w, dst);
            proof {
                assert(items@.take(i + 1).drop_last() =~= items@.take(i as int));
                assert(dst@ =~= mid + spec_encode_weights(items@.take(i + 1)));
            }
            i = i + 1;
        }
        assert(items@.take(i as int) =~= items@);
        Ok(())
    }

    /// Read a bag of words at `*pos`
    pub fn read_from(src: &[u8], pos: &mut usize) -> (r: Result<Self, FormatError>)
        ensures
            *old(pos) + 4 > src@.len() ==> r == Err::<Self, FormatError>(FormatError::UnexpectedEof),
            *old(pos) + 4 <= src@.len() ==> match spec_read_weights(src@, *old(pos) + 4, u32_at(src@, *old(pos) as int) as nat) {
                Ok((v, end)) => r is Ok && r->Ok_0@ == spec_weights_map(v) && *final(pos) == end,
                Err(e) => r == Err::<Self, FormatError>(e),
            },
    {
        let ghost s = src@;
        let ghost start = *pos as int;
        let len = read_u32ish(src, pos)?;
        let ghost body = *pos as int;
        let mut result = Bow::with_capacity(len);
        let mut i: usize = 0;
        while i < len
            invariant
                i <= len,
                s == src@,
                len == u32_at(s, start),
                body == start + 4,
                start + 4 <= s.len(),
                start == *old(pos) as int,
                spec_read_weights(s, body, i as nat) matches Ok((v, end)) && result@ == spec_weights_map(v) && *pos == end,
            decreases len - i,
        {
            let ghost (v0, p0) = spec_read_weights(s, body, i as nat)->Ok_0;
            let key = match read_u32(src, pos) {
                Ok(k) => k,
                Err(e) => {
                    proof {
                        lemma_read_weights_stopped(s, body, (i + 1) as nat, len as nat);
                    }
                    return Err(e);
                },
            };
            let weight = match read_u32(src, pos) {
                Ok(w) => w,
                Err(e) => {
                    proof {
                        lemma_read_weights_stopped(s, body, (i + 1) as nat, len as nat);
                    }
                    return Err(e);
                },
            };
            if result.0.contains_key(&key) {
                proof {
                    assert(result.0@.contains_key(key) == result@.contains_key(key));
                    lemma_read_weights_stopped(s, body, (i + 1) as nat, len as nat);
                }
                return Err(FormatError::DuplicateKey(key));
            }
            proof {
                assert(result.0@.contains_key(key) == result@.contains_key(key));
                assert(key == u32_at(s, p0) && weight == u32_at(s, p0 + 4));
                let v1 = v0.push((key, weight));
                assert(v1.drop_last() =~= v0);
                assert(spec_read_weights(s, body, (i + 1) as nat) == Ok::<(Seq<(u32, u32)>, int), FormatError>((v1, p0 + 8)));
            }
            result.0.insert(key, weight);
            i = i + 1;
        }
        Ok(result)
    }
}

/// Once reading weights fails, it stays failed
proof fn lemma_read_weights_stopped(src: Seq<u8>, pos: int, k: nat, m: nat)
    requires
        k <= m,
        spec_read_weights(src, pos, k) is Err,
    ensures
        spec_read_weights(src, pos, m) == spec_read_weights(src, pos, k),
    decreases m - k,
{
    if k < m {
        lemma_read_weights_stopped(src, pos, k, (m - 1) as nat);
    }
}

/// Reading back encoded weights, wherever they stand, gives the pairs and
/// the position right after them (the words being distinct)
proof fn lemma_read_encoded_weights(v: Seq<(u32, u32)>, pre: Seq<u8>, post: Seq<u8>)
    requires
        forall|i: int, j: int| 0 <= i < j < v.len() ==> (#[trigger] v[i]).0 != (#[trigger] v[j]).0,
    ensures
        spec_encode_weights(v).len() == 8 * v.len(),
        spec_read_weights(pre + spec_encode_weights(v) + post, pre.len() as int, v.len())
            == Ok::<(Seq<(u32, u32)>, int), FormatError>((v, (pre.len() + 8 * v.len()) as int)),
        forall|k: u32| spec_weights_map(v).contains_key(k) <==> exists|i: int| 0 <= i < v.len() && #[trigger] v[i].0 == k,
        forall|i: int| 0 <= i < v.len() ==> spec_weights_map(v)[#[trigger] v[i].0] == v[i].1,
    decreases v.len(),
{
    lemma_auto_spec_u32_to_from_le_bytes();
    if v.len() > 0 {
        let p = v.drop_last();
        let last = v.last();
        let tail = spec_u32_to_le_bytes(last.0) + spec_u32_to_le_bytes(last.1);
        assert forall|i: int, j: int| 0 <= i < j < p.len() implies (#[trigger] p[i]).0 != (#[trigger] p[j]).0 by {
            assert(p[i] == v[i] && p[j] == v[j]);
        }
        lemma_read_encoded_weights(p, pre, tail + post);
        let src = pre + spec_encode_weights(v) + post;
        assert(src =~= pre + spec_encode_weights(p) + (tail + post));
        let q = (pre.len() + 8 * p.len()) as int;
        assert(spec_window(src, q, 4) =~= spec_u32_to_le_bytes(last.0));
        assert(spec_window(src, q + 4, 4) =~= spec_u32_to_le_bytes(last.1));
        if spec_weights_map(p).contains_key(last.0) {
            let i = choose|i: int| 0 <= i < p.len() && #[trigger] p[i].0 == last.0;
            assert(v[i].0 != v[v.len() - 1].0);
        }
        assert(v =~= p.push((u32_at(src, q), u32_at(src, q + 4))));
        assert forall|k: u32| spec_weights_map(v).contains_key(k) <==> exists|i: int| 0 <= i < v.len() && #[trigger] v[i].0 == k by {
            if spec_weights_map(v).contains_key(k) && k != last.0 {
                let i = choose|i: int| 0 <= i < p.len() && #[trigger] p[i].0 == k;
                assert(v[i] == p[i]);
            }
            if exists|i: int| 0 <= i < v.len() && #[trigger] v[i].0 == k {
                let i = choose|i: int| 0 <= i < v.len() && #[trigger] v[i].0 == k;
                if i < v.len() - 1 {
                    assert(p[i] == v[i]);
                }
            }
        }
        assert forall|i: int| 0 <= i < v.len() implies spec_weights_map(v)[#[trigger] v[i].0] == v[i].1 by {
            if i < v.len() - 1 {
                assert(p[i] == v[i]);
                assert(v[i].0 != v[v.len() - 1].0);
            }
        }
    } else {
        assert(v =~= Seq::<(u32, u32)>::empty());
    }
}

/// Reading back what [`Bow::write_to`] wrote, as it lists the bag `m` in
/// some order, gives the bag itself, and ends right after what was written:
/// a count and 8 bytes per word
pub proof fn lemma_bow_roundtrip(m: Map<u32, u32>, v: Seq<(u32, u32)>, pre: Seq<u8>, post: Seq<u8>)
    requires
        lists_weights(m, v),
        v.len() <= u32::MAX,
    ensures
        spec_encode_weights(v).len() == 8 * v.len(),
        ({
            let src = pre + spec_u32_to_le_bytes(v.len() as u32) + spec_encode_weights(v) + post;
            &&& pre.len() + 4 <= src.len()
            &&& u32_at(src, pre.len() as int) == v.len()
            &&& spec_read_weights(src, pre.len() + 4 as int, v.len()) matches Ok((w, end)) && spec_weights_map(w) == m
                && end == pre.len() + 4 + 8 * v.len()
        }),
{
    lemma_auto_spec_u32_to_from_le_bytes();
    let head = pre + spec_u32_to_le_bytes(v.len() as u32);
    let src = pre + spec_u32_to_le_bytes(v.len() as u32) + spec_encode_weights(v) + post;
    assert(spec_window(src, pre.len() as int, 4) =~= spec_u32_to_le_bytes(v.len() as u32));
    lemma_read_encoded_weights(v, head, post);
    assert(src =~= head + spec_encode_weights(v) + post);
    assert(spec_weights_map(v) =~= m) by {
        assert forall|k: u32| spec_weights_map(v).contains_key(k) <==> m.contains_key(k) by {
            if m.contains_key(k) {
                let i = choose|i: int| 0 <= i < v.len() && #[trigger] v[i].0 == k;
            }
        }
        assert forall|k: u32| #[trigger] m.contains_key(k) implies spec_weights_map(v)[k] == m[k] by {
            let i = choose|i: int| 0 <= i < v.len() && #[trigger] v[i].0 == k;
        }
    }
}

impl Deserialize for Bow {
    open spec fn spec_readable(src: Seq<u8>, pos: int) -> bool {
        true
    }

    fn read_from(src: &[u8], pos: &mut usize) -> (r: Result<Self, FormatError>)
        ensures
            *old(pos) + 4 > src@.len() ==> r == Err::<Self, FormatError>(FormatError::UnexpectedEof),
            *old(pos) + 4 <= src@.len() ==> match spec_read_weights(src@, *old(pos) + 4, u32_at(src@, *old(pos) as int) as nat) {
                Ok((v, end)) => r is Ok && r->Ok_0@ == spec_weights_map(v) && *final(pos) == end,
                Err(e) => r == Err::<Self, FormatError>(e),
            },
    {
        Bow::read_from(src, pos)
    }
}

impl Serialize for Bow {
    fn write_to(&self, dst: &mut Vec<u8>) -> (r: Result<(), FormatError>)
        ensures
            exists|v: Seq<(u32, u32)>| {
                &&& lists_weights(self@, v)
                &&& v.len() <= u32::MAX ==> r is Ok && final(dst)@ == old(dst)@ + spec_u32_to_le_bytes(v.len() as u32) + spec_encode_weights(v)
                &&& v.len() > u32::MAX ==> r == Err::<(), FormatError>(FormatError::ValueOverflow)
            },
    {
        Bow::write_to(self, dst)
    }
}

/// For each node of the vocabulary tree, the indices of the features that were assigned to it
#[derive(Debug)]
pub struct Features(HashMap<u32, Vec<u32>>);

impl View for Features {
    type V = Map<u32, Seq<u32>>;

    closed spec fn view(&self) -> Map<u32, Seq<u32>> {
        self.0@.map_values(|v: Vec<u32>| v@)
    }
}

impl Features {
    /// Empty features
    pub fn new() -> (f: Self)
        ensures
            f@ == Map::<u32, Seq<u32>>::empty(),
    {
        let f = Features(HashMap::new());
        assert(f@ =~= Map::<u32, Seq<u32>>::empty());
        f
    }

    /// Empty features, with room for `capacity` nodes
    pub fn with_capacity(capacity: usize) -> (f: Self)
        ensures
            f@ == Map::<u32, Seq<u32>>::empty(),
    {
        let f = Features(HashMap::with_capacity(capacity));
        assert(f@ =~= Map::<u32, Seq<u32>>::empty());
        f
    }

    /// Record that feature `value` was assigned to node `key`
    pub fn insert(&mut self, key: u32, value: u32)
        ensures
            final(self)@ == old(self)@.insert(key, (if old(self)@.contains_key(key) { old(self)@[key] } else { Seq::<u32>::empty() }).push(value)),
    {
        let ghost before = self@;
        match self.0.remove(&key) {
            Some(mut values) => {
                values.push(value);
                self.0.insert(key, values);
            },
            None => {
                let mut values: Vec<u32> = Vec::new();
                values.push(value);
                self.0.insert(key, values);
            },
        }
        assert(self@ =~= before.insert(key, (if before.contains_key(key) { before[key] } else { Seq::<u32>::empty() }).push(value)));
    }

    /// Number of nodes
    pub fn len(&self) -> (n: usize)
        ensures
            n == self@.len(),
    {
        proof {
            assert(self.0@.dom() =~= self@.dom());
        }
        self.0.len()
    }

    /// Remove everything
    pub fn clear(&mut self)
        ensures
            final(self)@ == Map::<u32, Seq<u32>>::empty(),
    {
        self.0.clear();
        assert(self@ =~= Map::<u32, Seq<u32>>::empty());
    }

    /// The feature indices assigned to `key`, if any
    pub fn get(&self, key: u32) -> (v: Option<&Vec<u32>>)
        ensures
            self@.contains_key(key) ==> v is Some && v->Some_0@ == self@[key],
            !self@.contains_key(key) ==> v is None,
    {
        self.0.get(&key)
    }
}

/// `es` lists the entries of `m`, each once, in some order
pub open spec fn lists_entries(m: Map<u32, Seq<u32>>, es: Seq<(u32, Seq<u32>)>) -> bool {
    &&& es.len() == m.dom().len()
    &&& forall|i: int| 0 <= i < es.len() ==> m.contains_key(#[trigger] es[i].0) && m[es[i].0] == es[i].1
    &&& forall|i: int, j: int| 0 <= i < j < es.len() ==> (#[trigger] es[i]).0 != (#[trigger] es[j]).0
    &&& forall|k: u32| #[trigger] m.contains_key(k) ==> exists|i: int| 0 <= i < es.len() && #[trigger] es[i].0 == k
}

/// The encoding of one entry: the node, the number of feature indices, and the indices
pub open spec fn spec_encode_entry(e: (u32, Seq<u32>)) -> Seq<u8> {
    spec_u32_to_le_bytes(e.0) + spec_u32_to_le_bytes(e.1.len() as u32) + spec_words_bytes(e.1)
}

/// The encodings of the entries, one after the other
pub open spec fn spec_encode_entries(es: Seq<(u32, Seq<u32>)>) -> Seq<u8>
    decreases es.len(),
{
    if es.len() == 0 {
        Seq::empty()
    } else {
        spec_encode_entries(es.drop_last()) + spec_encode_entry(es.last())
    }
}

/// Every count of the entries fits in 32 bits
pub open spec fn entries_encodable(es: Seq<(u32, Seq<u32>)>) -> bool {
    &&& es.len() <= u32::MAX
    &&& forall|i: int| 0 <= i < es.len() ==> (#[trigger] es[i]).1.len() <= u32::MAX
}

/// Reading `count` entries at `pos`: the entries and the position after them, or the error
pub open spec fn spec_read_entries(src: Seq<u8>, pos: int, count: nat) -> Result<(Seq<(u32, Seq<u32>)>, int), FormatError>
    decreases count,
{
    if count == 0 {
        Ok((Seq::empty(), pos))
    } else {
        match spec_read_entries(src, pos, (count - 1) as nat) {
            Err(e) => Err(e),
            Ok((es, p)) => if p + 8 > src.len() {
                Err(FormatError::UnexpectedEof)
            } else {
                let n = u32_at(src, p + 4);
                if p + 8 + 4 * n > src.len() {
                    Err(FormatError::UnexpectedEof)
                } else {
                    Ok((es.push((u32_at(src, p), spec_convert_le::<u32>(spec_window(src, p + 8, 4 * n)))), p + 8 + 4 * n))
                }
            },
        }
    }
}

/// The map of the entries, a later entry of a node replacing an earlier one
pub open spec fn spec_map_of(es: Seq<(u32, Seq<u32>)>) -> Map<u32, Seq<u32>>
    decreases es.len(),
{
    if es.len() == 0 {
        Map::empty()
    } else {
        spec_map_of(es.drop_last()).insert(es.last().0, es.last().1)
    }
}

/// The nodes that an entry repeats, in order
pub open spec fn spec_duplicates(es: Seq<(u32, Seq<u32>)>) -> Seq<u32>
    decreases es.len(),
{
    if es.len() == 0 {
        Seq::empty()
    } else if spec_map_of(es.drop_last()).contains_key(es.last().0) {
        spec_duplicates(es.drop_last()).push(es.last().0)
    } else {
        spec_duplicates(es.drop_last())
    }
}

/// The values the hash mixes in: each node, then its feature indices
pub open spec fn spec_hash_values(es: Seq<(u32, Seq<u32>)>) -> Seq<u32>
    decreases es.len(),
{
    if es.len() == 0 {
        Seq::empty()
    } else {
        spec_hash_values(es.drop_last()) + seq![es.last().0] + es.last().1
    }
}

impl Features {
    /// The entries, in the map's iteration order
    pub fn entries(&self) -> (v: Vec<(u32, Vec<u32>)>)
        ensures
            lists_entries(self@, v@.map_values(|e: (u32, Vec<u32>)| (e.0, e.1@))),
    {
        let mut out: Vec<(u32, Vec<u32>)> = Vec::with_capacity(self.0.len());
        let ghost m = self.0@;
        let ghost s0 = vstd::std_specs::hash::spec_hash_map_iter(&self.0).remaining();
        for (k, v) in it: self.0.iter()
            invariant
                m == self.0@,
                it.seq() == s0,
                out@.len() == it.index(),
                forall|i: int| 0 <= i < out@.len() ==> out@[i].0 == *it.seq()[i].0 && out@[i].1@ == (*it.seq()[i].1)@,
        {
            out.push((*k, copy_words(v.as_slice())));
        }
        let ghost es = out@.map_values(|e: (u32, Vec<u32>)| (e.0, e.1@));
        proof {
            assert(s0.no_duplicates());
            assert(es.len() == self@.dom().len()) by {
                assert(self@.dom() =~= m.dom());
            }
            assert forall|i: int| 0 <= i < es.len() implies self@.contains_key(#[trigger] es[i].0) && self@[es[i].0] == es[i].1 by {
                assert(m.contains_key(*s0[i].0) && m[*s0[i].0] == *s0[i].1);
            }
            assert forall|i: int, j: int| 0 <= i < j < es.len() implies (#[trigger] es[i]).0 != (#[trigger] es[j]).0 by {
                if es[i].0 == es[j].0 {
                    assert(m[*s0[i].0] == *s0[i].1);
                    assert(m[*s0[j].0] == *s0[j].1);
                    assert(s0[i] == s0[j]);
                }
            }
            assert forall|k: u32| #[trigger] self@.contains_key(k) implies exists|i: int| 0 <= i < es.len() && #[trigger] es[i].0 == k by {
                assert(m.contains_key(k));
                assert(s0.contains((&k, &m[k])));
                let i = choose|i: int| 0 <= i < s0.len() && s0[i] == (&k, &m[k]);
                assert(es[i].0 == k);
            }
        }
        out
    }
}

/// Append the encodings of the entries to `dst`
fn write_entries(es: &Vec<(u32, Vec<u32>)>, dst: &mut Vec<u8>) -> (r: Result<(), FormatError>)
    ensures
        entries_encodable(es@.map_values(|e: (u32, Vec<u32>)| (e.0, e.1@))) ==>
            r is Ok && final(dst)@ == old(dst)@ + spec_encode_entries(es@.map_values(|e: (u32, Vec<u32>)| (e.0, e.1@))),
        !entries_encodable(es@.map_values(|e: (u32, Vec<u32>)| (e.0, e.1@))) ==> r == Err::<(), FormatError>(FormatError::ValueOverflow),
{
    let ghost v = es@.map_values(|e: (u32, Vec<u32>)| (e.0, e.1@));
    let ghost start = dst@;
    if es.len() > 0xffff_ffffusize {
        return Err(FormatError::ValueOverflow);
    }
    let mut i: usize = 0;
    while i < es.len()
        invariant
            i <= es@.len(),
            es@.len() <= u32::MAX,
            v == es@.map_values(|e: (u32, Vec<u32>)| (e.0, e.1@)),
            forall|j: int| 0 <= j < i ==> (#[trigger] v[j]).1.len() <= u32::MAX,
            dst@ == start + spec_encode_entries(v.take(i as int)),
        decreases es@.len() - i,
    {
        let (k, vals) = &es[i];
        write_u32(*k, dst);
        let r = write_u32ish(vals.len(), dst);
        if r.is_err() {
            assert(!entries_encodable(v));
            return r;
        }
        write_words(vals.as_slice(), dst);
        proof {
            assert(v.take(i + 1).drop_last() =~= v.take(i as int));
            assert(v.take(i + 1).last() == v[i as int]);
            assert(dst@ =~= start + spec_encode_entries(v.take(i + 1)));
        }
        i = i + 1;
    }
    assert(v.take(i as int) =~= v);
    Ok(())
}

impl Features {
    /// Write the entries, in the map's iteration order: their number, then
    /// each node, its number of feature indices and the indices
    pub fn write_to(&self, dst: &mut Vec<u8>) -> (r: Result<(), FormatError>)
        ensures
            exists|es: Seq<(u32, Seq<u32>)>| {
                &&& lists_entries(self@, es)
                &&& entries_encodable(es) ==> r is Ok && final(dst)@ == old(dst)@ + spec_u32_to_le_bytes(es.len() as u32) + spec_encode_entries(es)
                &&& !entries_encodable(es) ==> r == Err::<(), FormatError>(FormatError::ValueOverflow)
            },
    {
        let es = self.entries();
        let ghost v = es@.map_values(|e: (u32, Vec<u32>)| (e.0, e.1@));
        let ghost start = dst@;
        let r = write_u32ish(es.len(), dst);
        if r.is_err() {
            assert(!entries_encodable(v));
            return r;
        }
        let r = write_entries(&es, dst);
        assert(entries_encodable(v) ==> dst@ =~= start + spec_u32_to_le_bytes(v.len() as u32) + spec_encode_entries(v));
        r
    }

    /// Read entries at `*pos`, a later entry of a node replacing an earlier
    /// one; the nodes that entries repeat are appended to `duplicates`
    pub fn read_with_duplicates(src: &[u8], pos: &mut usize, duplicates: &mut Vec<u32>) -> (r: Result<Self, FormatError>)
        ensures
            *old(pos) + 4 > src@.len() ==> r == Err::<Self, FormatError>(FormatError::UnexpectedEof),
            *old(pos) + 4 <= src@.len() ==> match spec_read_entries(src@, *old(pos) + 4, u32_at(src@, *old(pos) as int) as nat) {
                Ok((es, end)) => r is Ok && r->Ok_0@ == spec_map_of(es) && *final(pos) == end
                    && final(duplicates)@ == old(duplicates)@ + spec_duplicates(es),
                Err(e) => r == Err::<Self, FormatError>(e),
            },
    {
        let ghost s = src@;
        let ghost start = *pos as int;
        let len = read_u32ish(src, pos)?;
        let ghost body = *pos as int;
        let mut result = Features::with_capacity(len);
        let ghost dup0 = duplicates@;
        let mut i: usize = 0;
        while i < len
            invariant
                i <= len,
                s == src@,
                len == u32_at(s, start),
                body == start + 4,
                start + 4 <= s.len(),
                dup0 == old(duplicates)@,
                start == *old(pos) as int,
                spec_read_entries(s, body, i as nat) matches Ok((es, end)) && {
                    &&& result@ == spec_map_of(es)
                    &&& *pos == end
                    &&& duplicates@ == dup0 + spec_duplicates(es)
                },
                *pos <= s.len(),
            decreases len - i,
        {
            let ghost prev = spec_read_entries(s, body, i as nat);
            let key = match read_u32(src, pos) {
                Ok(k) => k,
                Err(e) => {
                    proof {
                        lemma_read_entries_stopped(s, body, (i + 1) as nat, len as nat);
                    }
                    return Err(e);
                },
            };
            let values_len = match read_u32ish(src, pos) {
                Ok(n) => n,
                Err(e) => {
                    proof {
                        lemma_read_entries_stopped(s, body, (i + 1) as nat, len as nat);
                    }
                    return Err(e);
                },
            };
            let remaining = src.len() - *pos;
            if values_len > remaining / 4 {
                proof {
                    lemma_read_entries_stopped(s, body, (i + 1) as nat, len as nat);
                }
                return Err(FormatError::UnexpectedEof);
            }
            let bytes = vstd::slice::slice_subrange(src, *pos, *pos + 4 * values_len);
            *pos = *pos + 4 * values_len;
            let values = match convert_le::<u32>(bytes) {
                Ok(v) => v,
                Err(_) => return vstd::pervasive::unreached(),
            };
            let ghost before = result@;
            let old_value = result.0.insert(key, values);
            proof {
                assert(result@ =~= before.insert(key, spec_convert_le::<u32>(bytes@)));
            }
            if old_value.is_some() {
                duplicates.push(key);
            }
            i = i + 1;
            proof {
                let es = prev->Ok_0.0;
                let es2 = es.push((key, spec_convert_le::<u32>(bytes@)));
                assert(es2.drop_last() =~= es);
                assert(before.contains_key(key) == old_value.is_some());
            }
        }
        Ok(result)
    }

    /// Hash of the entries, in the map's iteration order: each node and then
    /// its feature indices mixed into the seed (with wrapping arithmetic)
    pub fn hash(&self) -> (h: u64)
        ensures
            exists|es: Seq<(u32, Seq<u32>)>| lists_entries(self@, es) && h == spec_vhash_mix(0, spec_hash_values(es)),
    {
        let es = self.entries();
        let ghost v = es@.map_values(|e: (u32, Vec<u32>)| (e.0, e.1@));
        let mut seed: u64 = 0;
        let mut i: usize = 0;
        while i < es.len()
            invariant
                i <= es@.len(),
                v == es@.map_values(|e: (u32, Vec<u32>)| (e.0, e.1@)),
                seed == spec_vhash_mix(0, spec_hash_values(v.take(i as int))),
            decreases es@.len() - i,
        {
            let (key, values) = &es[i];
            let ghost before = spec_hash_values(v.take(i as int));
            proof {
                assert(v.take(i + 1).drop_last() =~= v.take(i as int));
                assert(v.take(i + 1).last() == v[i as int]);
                assert((before + seq![*key]).drop_last() =~= before);
            }
            seed = seed ^ ((*key as u64) + 0x9e37_79b9u64).wrapping_add(seed << 6u64).wrapping_add(seed >> 2u64);
            let mut j: usize = 0;
            while j < values.len()
                invariant
                    j <= values@.len(),
                    seed == spec_vhash_mix(0, before + seq![*key] + values@.take(j as int)),
                decreases values@.len() - j,
            {
                let x = values[j];
                proof {
                    assert((before + seq![*key] + values@.take(j + 1)).drop_last() =~= before + seq![*key] + values@.take(j as int));
                    assert((before + seq![*key] + values@.take(j + 1)).last() == x);
                }
                seed = seed ^ ((x as u64) + 0x9e37_79b9u64).wrapping_add(seed << 6u64).wrapping_add(seed >> 2u64);
                j = j + 1;
            }
            assert(values@.take(j as int) =~= values@);
            i = i + 1;
            assert(spec_hash_values(v.take(i as int)) =~= before + seq![*key] + values@);
        }
        assert(v.take(i as int) =~= v);
        seed
    }
}

impl Features {
    /// The nodes, each once, in the map's iteration order
    pub fn keys(&self) -> (v: Vec<u32>)
        ensures
            v@.no_duplicates(),
            forall|k: u32| v@.contains(k) <==> self@.contains_key(k),
    {
        let es = self.entries();
        let ghost ev = es@.map_values(|e: (u32, Vec<u32>)| (e.0, e.1@));
        let mut out: Vec<u32> = Vec::with_capacity(es.len());
        let mut i: usize = 0;
        while i < es.len()
            invariant
                i <= es@.len(),
                ev == es@.map_values(|e: (u32, Vec<u32>)| (e.0, e.1@)),
                lists_entries(self@, ev),
                out@ == ev.take(i as int).map_values(|e: (u32, Seq<u32>)| e.0),
            decreases es@.len() - i,
        {
            out.push(es[i].0);
            i = i + 1;
            assert(out@ =~= ev.take(i as int).map_values(|e: (u32, Seq<u32>)| e.0));
        }
        assert(ev.take(i as int) =~= ev);
        proof {
            assert forall|a: int, b: int| 0 <= a < out@.len() && 0 <= b < out@.len() && a != b implies out@[a] != out@[b] by {
                if a < b {
                    assert(ev[a].0 != ev[b].0);
                } else {
                    assert(ev[b].0 != ev[a].0);
                }
            }
            assert forall|k: u32| out@.contains(k) <==> self@.contains_key(k) by {
                if self@.contains_key(k) {
                    let i = choose|i: int| 0 <= i < ev.len() && #[trigger] ev[i].0 == k;
                    assert(out@[i] == k);
                }
                if out@.contains(k) {
                    let i = choose|i: int| 0 <= i < out@.len() && out@[i] == k;
                    assert(ev[i].0 == k);
                }
            }
        }
        out
    }

    /// The nodes present both here and in `other`, each once, found by
    /// walking the smaller of the two maps
    pub fn common_nodes(&self, other: &Features) -> (v: Vec<u32>)
        ensures
            v@.no_duplicates(),
            forall|k: u32| v@.contains(k) <==> self@.contains_key(k) && other@.contains_key(k),
    {
        let (small, big) = if self.len() <= other.len() { (self, other) } else { (other, self) };
        let ks = small.keys();
        let mut out: Vec<u32> = Vec::new();
        let mut i: usize = 0;
        while i < ks.len()
            invariant
                i <= ks@.len(),
                ks@.no_duplicates(),
                out@.no_duplicates(),
                forall|j: int| 0 <= j < out@.len() ==> big@.contains_key(#[trigger] out@[j])
                    && exists|t: int| 0 <= t < i && ks@[t] == out@[j],
                forall|t: int| 0 <= t < i && big@.contains_key(#[trigger] ks@[t]) ==> out@.contains(ks@[t]),
            decreases ks@.len() - i,
        {
            let k = ks[i];
            let found = big.0.contains_key(&k);
            proof {
                assert(big.0@.contains_key(k) == big@.contains_key(k));
            }
            let ghost prev = out@;
            if found {
                proof {
                    assert forall|j: int| 0 <= j < prev.len() implies prev[j] != k by {
                        let t = choose|t: int| 0 <= t < i && ks@[t] == prev[j];
                        if prev[j] == k {
                            assert(ks@[t] == ks@[i as int]);
                        }
                    }
                }
                out.push(k);
                proof {
                    assert forall|j: int| 0 <= j < out@.len() implies big@.contains_key(#[trigger] out@[j])
                        && exists|t: int| 0 <= t < i + 1 && ks@[t] == out@[j] by {
                        if j < prev.len() {
                            assert(out@[j] == prev[j]);
                            let t = choose|t: int| 0 <= t < i && ks@[t] == prev[j];
                        } else {
                            assert(ks@[i as int] == out@[j]);
                        }
                    }
                    assert forall|t: int| 0 <= t < i + 1 && big@.contains_key(#[trigger] ks@[t]) implies out@.contains(ks@[t]) by {
                        if t < i {
                            let j = choose|j: int| 0 <= j < prev.len() && prev[j] == ks@[t];
                            assert(out@[j] == prev[j]);
                        } else {
                            assert(out@[out@.len() - 1] == k);
                        }
                    }
                }
            } else {
                proof {
                    assert forall|j: int| 0 <= j < out@.len() implies big@.contains_key(#[trigger] out@[j])
                        && exists|t: int| 0 <= t < i + 1 && ks@[t] == out@[j] by {
                        let t = choose|t: int| 0 <= t < i && ks@[t] == out@[j];
                    }
                }
            }
            i = i + 1;
        }
        proof {
            assert forall|k: u32| out@.contains(k) <==> self@.contains_key(k) && other@.contains_key(k) by {
                if out@.contains(k) {
                    let j = choose|j: int| 0 <= j < out@.len() && out@[j] == k;
                    assert(big@.contains_key(out@[j]));
                    let t = choose|t: int| 0 <= t < ks@.len() && ks@[t] == out@[j];
                    assert(ks@.contains(k));
                }
                if self@.contains_key(k) && other@.contains_key(k) {
                    assert(small@.contains_key(k));
                    assert(ks@.contains(k));
                    let t = choose|t: int| 0 <= t < ks@.len() && ks@[t] == k;
                    assert(big@.contains_key(ks@[t]));
                }
            }
        }
        out
    }
}

impl Serialize for Features {
    fn write_to(&self, dst: &mut Vec<u8>) -> (r: Result<(), FormatError>)
        ensures
            exists|es: Seq<(u32, Seq<u32>)>| {
                &&& lists_entries(self@, es)
                &&& entries_encodable(es) ==> r is Ok && final(dst)@ == old(dst)@ + spec_u32_to_le_bytes(es.len() as u32) + spec_encode_entries(es)
                &&& !entries_encodable(es) ==> r == Err::<(), FormatError>(FormatError::ValueOverflow)
            },
    {
        Features::write_to(self, dst)
    }
}

impl Deserialize for Features {
    open spec fn spec_readable(src: Seq<u8>, pos: int) -> bool {
        true
    }

    /// Read entries at `*pos`; a later entry of a node replaces an earlier one
    fn read_from(src: &[u8], pos: &mut usize) -> (r: Result<Self, FormatError>)
        ensures
            *old(pos) + 4 > src@.len() ==> r == Err::<Self, FormatError>(FormatError::UnexpectedEof),
            *old(pos) + 4 <= src@.len() ==> match spec_read_entries(src@, *old(pos) + 4, u32_at(src@, *old(pos) as int) as nat) {
                Ok((es, end)) => r is Ok && r->Ok_0@ == spec_map_of(es) && *final(pos) == end,
                Err(e) => r == Err::<Self, FormatError>(e),
            },
    {
        let mut duplicates: Vec<u32> = Vec::new();
        Features::read_with_duplicates(src, pos, &mut duplicates)
    }
}

impl SelfHash for Features {
    fn hash(&self) -> (h: u64)
        ensures
            exists|es: Seq<(u32, Seq<u32>)>| lists_entries(self@, es) && h == spec_vhash_mix(0, spec_hash_values(es)),
    {
        Features::hash(self)
    }
}

/// Once reading entries fails, it stays failed
proof fn lemma_read_entries_stopped(src: Seq<u8>, pos: int, k: nat, m: nat)
    requires
        k <= m,
        spec_read_entries(src, pos, k) is Err,
    ensures
        spec_read_entries(src, pos, m) == spec_read_entries(src, pos, k),
    decreases m - k,
{
    if k < m {
        lemma_read_entries_stopped(src, pos, k, (m - 1) as nat);
    }
}

/// Reading back encoded entries, wherever they stand, gives the entries
/// and the position right after them
proof fn lemma_read_encoded_entries(es: Seq<(u32, Seq<u32>)>, pre: Seq<u8>, post: Seq<u8>)
    requires
        entries_encodable(es),
    ensures
        spec_read_entries(pre + spec_encode_entries(es) + post, pre.len() as int, es.len())
            == Ok::<(Seq<(u32, Seq<u32>)>, int), FormatError>((es, (pre.len() + spec_encode_entries(es).len()) as int)),
    decreases es.len(),
{
    if es.len() > 0 {
        let p = es.drop_last();
        let last = es.last();
        let tail = spec_encode_entry(last) + post;
        assert(entries_encodable(p)) by {
            assert forall|i: int| 0 <= i < p.len() implies (#[trigger] p[i]).1.len() <= u32::MAX by {
                assert(p[i] == es[i]);
            }
        }
        lemma_read_encoded_entries(p, pre, tail);
        let src = pre + spec_encode_entries(es) + post;
        assert(src =~= pre + spec_encode_entries(p) + tail);
        let q = (pre.len() + spec_encode_entries(p).len()) as int;
        lemma_auto_spec_u32_to_from_le_bytes();
        lemma_words_bytes_chunks(last.1);
        lemma_words_roundtrip(last.1);
        let n = last.1.len() as int;
        assert(spec_window(src, q, 4) =~= spec_u32_to_le_bytes(last.0));
        assert(spec_window(src, q + 4, 4) =~= spec_u32_to_le_bytes(n as u32));
        assert(u32_at(src, q + 4) == n);
        assert(spec_window(src, q + 8, 4 * n) =~= spec_words_bytes(last.1));
        assert(spec_encode_entry(last).len() == 8 + 4 * n);
        assert(spec_encode_entries(es) == spec_encode_entries(p) + spec_encode_entry(last));
        assert(q + 8 + 4 * n <= src.len());
        assert(es =~= p.push((last.0, last.1)));
        assert(spec_read_entries(src, pre.len() as int, p.len()) == Ok::<(Seq<(u32, Seq<u32>)>, int), FormatError>((p, q)));
        assert(spec_read_entries(src, pre.len() as int, es.len()) == Ok::<(Seq<(u32, Seq<u32>)>, int), FormatError>(
            (p.push((u32_at(src, q), spec_convert_le::<u32>(spec_window(src, q + 8, 4 * u32_at(src, q + 4))))), q + 8 + 4 * n)));
    } else {
        assert(es =~= Seq::<(u32, Seq<u32>)>::empty());
    }
}

/// The map of entries whose nodes are distinct holds each entry
proof fn lemma_map_of_distinct(es: Seq<(u32, Seq<u32>)>)
    requires
        forall|i: int, j: int| 0 <= i < j < es.len() ==> (#[trigger] es[i]).0 != (#[trigger] es[j]).0,
    ensures
        forall|i: int| 0 <= i < es.len() ==> spec_map_of(es).contains_key(#[trigger] es[i].0) && spec_map_of(es)[es[i].0] == es[i].1,
        forall|k: u32| #[trigger] spec_map_of(es).contains_key(k) ==> exists|i: int| 0 <= i < es.len() && #[trigger] es[i].0 == k,
        spec_duplicates(es) == Seq::<u32>::empty(),
    decreases es.len(),
{
    if es.len() > 0 {
        let p = es.drop_last();
        assert forall|i: int, j: int| 0 <= i < j < p.len() implies (#[trigger] p[i]).0 != (#[trigger] p[j]).0 by {
            assert(p[i] == es[i] && p[j] == es[j]);
        }
        lemma_map_of_distinct(p);
        let last = es.last();
        if spec_map_of(p).contains_key(last.0) {
            let i = choose|i: int| 0 <= i < p.len() && #[trigger] p[i].0 == last.0;
            assert(es[i].0 != es[es.len() - 1].0);
        }
        assert forall|i: int| 0 <= i < es.len() implies spec_map_of(es).contains_key(#[trigger] es[i].0) && spec_map_of(es)[es[i].0] == es[i].1 by {
            if i < es.len() - 1 {
                assert(p[i] == es[i]);
                assert(es[i].0 != es[es.len() - 1].0);
            }
        }
        assert forall|k: u32| #[trigger] spec_map_of(es).contains_key(k) implies exists|i: int| 0 <= i < es.len() && #[trigger] es[i].0 == k by {
            if k != last.0 {
                let i = choose|i: int| 0 <= i < p.len() && #[trigger] p[i].0 == k;
                assert(es[i] == p[i]);
            } else {
                assert(es[es.len() - 1].0 == k);
            }
        }
    }
}

/// Reading back what [`Features::write_to`] wrote, as it lists the map `m`
/// in some order, gives the map itself, with no node repeated
pub proof fn lemma_features_roundtrip(m: Map<u32, Seq<u32>>, es: Seq<(u32, Seq<u32>)>, pre: Seq<u8>, post: Seq<u8>)
    requires
        lists_entries(m, es),
        entries_encodable(es),
    ensures
        ({
            let src = pre + spec_u32_to_le_bytes(es.len() as u32) + spec_encode_entries(es) + post;
            &&& pre.len() + 4 <= src.len()
            &&& u32_at(src, pre.len() as int) == es.len()
            &&& spec_read_entries(src, pre.len() + 4 as int, es.len()) == Ok::<(Seq<(u32, Seq<u32>)>, int), FormatError>(
                (es, (pre.len() + 4 + spec_encode_entries(es).len()) as int))
        }),
        spec_map_of(es) == m,
        spec_duplicates(es) == Seq::<u32>::empty(),
{
    let head = pre + spec_u32_to_le_bytes(es.len() as u32);
    let src = pre + spec_u32_to_le_bytes(es.len() as u32) + spec_encode_entries(es) + post;
    lemma_auto_spec_u32_to_from_le_bytes();
    assert(spec_window(src, pre.len() as int, 4) =~= spec_u32_to_le_bytes(es.len() as u32));
    lemma_read_encoded_entries(es, head, post);
    assert(src =~= head + spec_encode_entries(es) + post);
    lemma_map_of_distinct(es);
    assert(spec_map_of(es) =~= m) by {
        assert forall|k: u32| spec_map_of(es).contains_key(k) <==> m.contains_key(k) by {
            if m.contains_key(k) {
                let i = choose|i: int| 0 <= i < es.len() && #[trigger] es[i].0 == k;
            }
            if spec_map_of(es).contains_key(k) {
                let i = choose|i: int| 0 <= i < es.len() && #[trigger] es[i].0 == k;
            }
        }
        assert forall|k: u32| #[trigger] m.contains_key(k) implies spec_map_of(es)[k] == m[k] by {
            let i = choose|i: int| 0 <= i < es.len() && #[trigger] es[i].0 == k;
        }
    }
}

} // verus!
