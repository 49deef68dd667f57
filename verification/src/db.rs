//! A database of bags of words: an inverted index from words to the entries
//! that hold them, and optionally a direct index of each entry's features
//!
//! Word weights are `f32` values, held here by their bit patterns; the
//! scoring of queries, which computes with them, is left to the caller.
use vstd::prelude::*;
use vstd::bytes::*;
use std::sync::Arc;
use crate::bow::{Bow, lists_weights, Features, lists_entries, entries_encodable, spec_encode_entries, spec_read_entries, spec_map_of, lemma_features_roundtrip};
use crate::serde::{FormatError, u32_at, spec_window, write_u32, write_u32ish, write_u64, read_u32, read_u32ish, read_u64, read_bytes};
use crate::vocabulary::{Vocabulary, VocabularyReadOptions, ParseWarning};
use crate::vocabulary::options::spec_default_read_options;
use crate::vocabulary::fbow::u64_at;
use crate::vocabulary::format::{spec_encode_vocabulary, spec_write_vocabulary_panics, spec_read_vocabulary, spec_read_vocabulary_panics, VocabularyRead, read_matches, lemma_vocabulary_roundtrip};
use crate::vocabulary::params::{spec_encodable, spec_roundtrips};
use crate::features::{spec_features_encodable, spec_features_match};

verus! {

/// Up to this many entries a row is searched linearly, beyond it by bisection
pub const BINARY_SEARCH_THRESHOLD: usize = 64;

/// A single entry of an inverted row: an entry of the database and the
/// weight (by its `f32` bit pattern) that the word has in it
#[derive(Clone, Copy, Debug, PartialEq, Eq, Structural)]
pub struct InvertedEntry {
    /// Database entry id
    pub entry_id: usize,
    /// Bit pattern of the `f32` weight of the word in the entry
    pub word_weight: u32,
}

/// The entries holding one word, by ascending entry id
#[derive(Clone, Debug)]
pub struct InvertedEntries(Vec<InvertedEntry>);

/// The entry ids rise strictly
pub open spec fn entries_sorted(es: Seq<InvertedEntry>) -> bool {
    forall|i: int, j: int| 0 <= i < j < es.len() ==> (#[trigger] es[i]).entry_id < (#[trigger] es[j]).entry_id
}

/// The entry of `es` with id `id`, if any
pub open spec fn spec_lookup(es: Seq<InvertedEntry>, id: usize) -> Option<InvertedEntry> {
    if exists|i: int| 0 <= i < es.len() && (#[trigger] es[i]).entry_id == id {
        Some(es[choose|i: int| 0 <= i < es.len() && (#[trigger] es[i]).entry_id == id])
    } else {
        None
    }
}

/// In sorted entries an id is found at one place only
proof fn lemma_sorted_unique(es: Seq<InvertedEntry>, i: int)
    requires
        entries_sorted(es),
        0 <= i < es.len(),
    ensures
        spec_lookup(es, es[i].entry_id) == Some(es[i]),
{
    let id = es[i].entry_id;
    assert(exists|k: int| 0 <= k < es.len() && (#[trigger] es[k]).entry_id == id);
    let k = choose|k: int| 0 <= k < es.len() && (#[trigger] es[k]).entry_id == id;
    if k < i {
        assert(es[k].entry_id < es[i].entry_id);
    } else if i < k {
        assert(es[i].entry_id < es[k].entry_id);
    }
}

impl View for InvertedEntries {
    type V = Seq<InvertedEntry>;

    closed spec fn view(&self) -> Seq<InvertedEntry> {
        self.0@
    }
}

impl InvertedEntries {
    /// Empty row
    pub fn new() -> (r: Self)
        ensures
            r@ == Seq::<InvertedEntry>::empty(),
    {
        InvertedEntries(Vec::new())
    }

    /// Number of entries
    pub fn len(&self) -> (n: usize)
        ensures
            n == self@.len(),
    {
        self.0.len()
    }

    /// The entries
    pub fn as_slice(&self) -> (s: &[InvertedEntry])
        ensures
            s@ == self@,
    {
        self.0.as_slice()
    }

    /// The entry of `entry_id`, if the row holds one (the row must be sorted)
    pub fn get(&self, entry_id: usize) -> (r: Option<&InvertedEntry>)
        requires
            entries_sorted(self@),
        ensures
            match r {
                Some(e) => spec_lookup(self@, entry_id) == Some(*e),
                None => spec_lookup(self@, entry_id) is None,
            },
    {
        let es = &self.0;
        let ghost s = es@;
        if es.len() <= BINARY_SEARCH_THRESHOLD {
            let mut i: usize = 0;
            while i < es.len()
                invariant
                    i <= s.len(),
                    s == es@,
                    s == self@,
                    entries_sorted(s),
                    forall|k: int| 0 <= k < i ==> (#[trigger] s[k]).entry_id < entry_id,
                decreases s.len() - i,
            {
                if es[i].entry_id == entry_id {
                    proof {
                        lemma_sorted_unique(s, i as int);
                        assert(s == self@);
                    }
                    return Some(&es[i]);
                } else if es[i].entry_id > entry_id {
                    // Sorted: nothing further on can match
                    proof {
                        assert forall|k: int| 0 <= k < s.len() implies (#[trigger] s[k]).entry_id != entry_id by {
                            if k > i {
                                assert(s[i as int].entry_id < s[k].entry_id);
                            }
                        }
                        assert(s == self@);
                    }
                    return None;
                }
                i = i + 1;
            }
            assert(s == self@);
            None
        } else {
            let mut lo: usize = 0;
            let mut hi: usize = es.len();
            while lo < hi
                invariant
                    lo <= hi <= s.len(),
                    s == es@,
                    s == self@,
                    entries_sorted(s),
                    forall|k: int| 0 <= k < lo ==> (#[trigger] s[k]).entry_id < entry_id,
                    forall|k: int| hi <= k < s.len() ==> (#[trigger] s[k]).entry_id > entry_id,
                decreases hi - lo,
            {
                let mid = lo + (hi - lo) / 2;
                let m = es[mid].entry_id;
                if m == entry_id {
                    proof {
                        lemma_sorted_unique(s, mid as int);
                        assert(s == self@);
                    }
                    return Some(&es[mid]);
                } else if m < entry_id {
                    proof {
                        assert forall|k: int| 0 <= k < mid + 1 implies (#[trigger] s[k]).entry_id < entry_id by {
                            if k < mid {
                                assert(s[k].entry_id < s[mid as int].entry_id);
                            }
                        }
                    }
                    lo = mid + 1;
                } else {
                    proof {
                        assert forall|k: int| mid <= k < s.len() implies (#[trigger] s[k]).entry_id > entry_id by {
                            if k > mid {
                                assert(s[mid as int].entry_id < s[k].entry_id);
                            }
                        }
                    }
                    hi = mid;
                }
            }
            assert(s == self@);
            None
        }
    }

    /// Append an entry; the row stays sorted when its id is above every id
    /// of the row
    pub fn push(&mut self, entry_id: usize, word_weight: u32)
        ensures
            final(self)@ == old(self)@.push(InvertedEntry { entry_id, word_weight }),
    {
        self.0.push(InvertedEntry { entry_id, word_weight });
    }

    /// Remove every entry
    pub fn clear(&mut self)
        ensures
            final(self)@ == Seq::<InvertedEntry>::empty(),
    {
        self.0.clear();
    }
}

/// The direct index: the features of every entry, or only their count
pub enum DirectIndex {
    /// The features of each entry, by entry id
    Direct(Vec<Features>),
    /// Number of entries
    CountId(usize),
}

impl DirectIndex {
    /// Number of entries
    pub open spec fn spec_len(&self) -> nat {
        match self {
            DirectIndex::Direct(v) => v@.len(),
            DirectIndex::CountId(c) => *c as nat,
        }
    }

    /// The features of the entries, when they are kept
    pub open spec fn spec_features(&self) -> Option<Seq<Map<u32, Seq<u32>>>> {
        match self {
            DirectIndex::Direct(v) => Some(v@.map_values(|f: Features| f@)),
            DirectIndex::CountId(_) => None,
        }
    }

    /// Number of entries
    pub fn len(&self) -> (n: usize)
        ensures
            n == self.spec_len(),
    {
        match self {
            DirectIndex::Direct(v) => v.len(),
            DirectIndex::CountId(c) => *c,
        }
    }

    /// Forget every entry
    pub fn clear(&mut self)
        ensures
            final(self).spec_len() == 0,
            old(self).spec_features() is Some ==> final(self).spec_features() == Some(Seq::<Map<u32, Seq<u32>>>::empty()),
            old(self).spec_features() is None ==> final(self).spec_features() is None,
    {
        match self {
            DirectIndex::Direct(v) => {
                v.clear();
                assert(v@.map_values(|f: Features| f@) =~= Seq::<Map<u32, Seq<u32>>>::empty());
            },
            DirectIndex::CountId(id) => {
                *id = 0;
            },
        }
    }
}

/// A database can be used to keep track of previously-seen features and query them
pub struct Database {
    /// Associated vocabulary
    vocabulary: Arc<Vocabulary>,
    /// Levels to go up the vocabulary tree to select nodes to store in the direct index
    levels: usize,
    /// Direct index
    direct: DirectIndex,
    /// Inverted index: for each word, the entries that hold it
    inverted: Vec<InvertedEntries>,
}

/// The rows after entry `id` was added with the words and weights `bow`
pub open spec fn spec_insert_rows(rows: Seq<Seq<InvertedEntry>>, bow: Seq<(u32, u32)>, id: usize) -> Seq<Seq<InvertedEntry>>
    decreases bow.len(),
{
    if bow.len() == 0 {
        rows
    } else {
        let prev = spec_insert_rows(rows, bow.drop_last(), id);
        let (w, weight) = bow.last();
        prev.update(w as int, prev[w as int].push(InvertedEntry { entry_id: id, word_weight: weight }))
    }
}

/// The words of `bow` are distinct and each has a row
pub open spec fn bow_insertable(bow: Seq<(u32, u32)>, nrows: nat) -> bool {
    &&& forall|i: int| 0 <= i < bow.len() ==> (#[trigger] bow[i]).0 < nrows
    &&& forall|i: int, j: int| 0 <= i < j < bow.len() ==> (#[trigger] bow[i]).0 != (#[trigger] bow[j]).0
}


/// The entries of `row` before the first whose id is `max_id` or more
pub open spec fn entries_below(row: Seq<InvertedEntry>, max_id: Option<usize>) -> Seq<InvertedEntry>
    decreases row.len(),
{
    if row.len() == 0 {
        Seq::empty()
    } else if max_id matches Some(m) && m <= row[0].entry_id {
        Seq::empty()
    } else {
        seq![row[0]] + entries_below(row.drop_first(), max_id)
    }
}

/// The matches of the word `w` of weight `q` in a query: each entry of its
/// row below `max_id`, with the query weight, the entry id and the entry weight
pub open spec fn word_matches(rows: Seq<Seq<InvertedEntry>>, w: u32, q: u32, max_id: Option<usize>) -> Seq<(u32, usize, u32)> {
    if (w as int) < rows.len() {
        entries_below(rows[w as int], max_id).map_values(|e: InvertedEntry| (q, e.entry_id, e.word_weight))
    } else {
        Seq::empty()
    }
}

/// The matches of the words listed in `v`, in that order
pub open spec fn spec_matches(rows: Seq<Seq<InvertedEntry>>, v: Seq<(u32, u32)>, max_id: Option<usize>) -> Seq<(u32, usize, u32)>
    decreases v.len(),
{
    if v.len() == 0 {
        Seq::empty()
    } else {
        spec_matches(rows, v.drop_last(), max_id) + word_matches(rows, v.last().0, v.last().1, max_id)
    }
}

/// The entry id `id` is below `max_id` (every id is, without a limit)
pub open spec fn below_max(id: usize, max_id: Option<usize>) -> bool {
    match max_id {
        Some(m) => id < m,
        None => true,
    }
}

/// Entry `k` of `row` is reached when listing the row up to `max_id`: it and
/// every entry before it are below `max_id`
pub open spec fn reached(row: Seq<InvertedEntry>, k: int, max_id: Option<usize>) -> bool {
    &&& 0 <= k < row.len()
    &&& forall|j: int| 0 <= j <= k ==> below_max(#[trigger] row[j].entry_id, max_id)
}

/// The entries of a row below `max_id` are a prefix of it: those before
/// the first entry that is not below
proof fn lemma_entries_below_prefix(row: Seq<InvertedEntry>, max_id: Option<usize>) -> (n: int)
    ensures
        0 <= n <= row.len(),
        entries_below(row, max_id) == row.take(n),
        forall|j: int| 0 <= j < n ==> below_max(#[trigger] row[j].entry_id, max_id),
        n < row.len() ==> !below_max(row[n].entry_id, max_id),
    decreases row.len(),
{
    if row.len() == 0 {
        assert(row.take(0) =~= Seq::<InvertedEntry>::empty());
        0
    } else if !below_max(row[0].entry_id, max_id) {
        assert(row.take(0) =~= Seq::<InvertedEntry>::empty());
        0
    } else {
        let rest = row.drop_first();
        let m = lemma_entries_below_prefix(rest, max_id);
        assert(row.take(m + 1) =~= seq![row[0]] + rest.take(m));
        assert forall|j: int| 0 <= j < m + 1 implies below_max(#[trigger] row[j].entry_id, max_id) by {
            if j > 0 {
                assert(row[j] == rest[j - 1]);
            }
        }
        if m + 1 < row.len() {
            assert(row[m + 1] == rest[m]);
        }
        m + 1
    }
}

/// The matches of a query, for the words listed in `v` with their query
/// weights: every entry reached in the row of every listed word that has a
/// row appears, with the word's query weight, the entry id and the entry
/// weight; and every match is such an entry of a listed word
pub proof fn lemma_matches_law(rows: Seq<Seq<InvertedEntry>>, v: Seq<(u32, u32)>, max_id: Option<usize>)
    ensures
        forall|i: int, k: int|
            #![trigger v[i], reached(rows[v[i].0 as int], k, max_id)]
            0 <= i < v.len() && (v[i].0 as int) < rows.len() && reached(rows[v[i].0 as int], k, max_id) ==>
            spec_matches(rows, v, max_id).contains((v[i].1, rows[v[i].0 as int][k].entry_id, rows[v[i].0 as int][k].word_weight)),
        forall|x: (u32, usize, u32)| #[trigger] spec_matches(rows, v, max_id).contains(x) ==>
            exists|i: int, k: int|
                #![trigger v[i], reached(rows[v[i].0 as int], k, max_id)]
                0 <= i < v.len() && (v[i].0 as int) < rows.len() && reached(rows[v[i].0 as int], k, max_id)
                && x == (v[i].1, rows[v[i].0 as int][k].entry_id, rows[v[i].0 as int][k].word_weight),
    decreases v.len(),
{
    if v.len() > 0 {
        let p = v.drop_last();
        let last = v.last();
        lemma_matches_law(rows, p, max_id);
        let sp = spec_matches(rows, p, max_id);
        let wm = word_matches(rows, last.0, last.1, max_id);
        let all = spec_matches(rows, v, max_id);
        assert(all == sp + wm);
        let w = last.0 as int;
        assert forall|i: int, k: int|
            #![trigger v[i], reached(rows[v[i].0 as int], k, max_id)]
            0 <= i < v.len() && (v[i].0 as int) < rows.len() && reached(rows[v[i].0 as int], k, max_id) implies
            all.contains((v[i].1, rows[v[i].0 as int][k].entry_id, rows[v[i].0 as int][k].word_weight)) by {
            let e = (v[i].1, rows[v[i].0 as int][k].entry_id, rows[v[i].0 as int][k].word_weight);
            if i < p.len() {
                assert(p[i] == v[i]);
                assert(sp.contains(e));
                let t = choose|t: int| 0 <= t < sp.len() && sp[t] == e;
                assert(all[t] == e);
            } else {
                assert(v[i] == last);
                let row = rows[w];
                let n = lemma_entries_below_prefix(row, max_id);
                if k >= n {
                    assert(below_max(row[n].entry_id, max_id));
                }
                assert(entries_below(row, max_id)[k] == row[k]);
                assert(wm[k] == e);
                assert(all[sp.len() + k] == e);
            }
        }
        assert forall|x: (u32, usize, u32)| #[trigger] all.contains(x) implies
            exists|i: int, k: int|
                #![trigger v[i], reached(rows[v[i].0 as int], k, max_id)]
                0 <= i < v.len() && (v[i].0 as int) < rows.len() && reached(rows[v[i].0 as int], k, max_id)
                && x == (v[i].1, rows[v[i].0 as int][k].entry_id, rows[v[i].0 as int][k].word_weight) by {
            let t = choose|t: int| 0 <= t < all.len() && all[t] == x;
            if t < sp.len() {
                assert(sp[t] == x);
                assert(sp.contains(x));
                let (i, k) = choose|i: int, k: int|
                    #![trigger p[i], reached(rows[p[i].0 as int], k, max_id)]
                    0 <= i < p.len() && (p[i].0 as int) < rows.len() && reached(rows[p[i].0 as int], k, max_id)
                    && x == (p[i].1, rows[p[i].0 as int][k].entry_id, rows[p[i].0 as int][k].word_weight);
                assert(p[i] == v[i]);
            } else {
                let k = t - sp.len();
                assert(wm[k] == x);
                assert(w < rows.len());
                let row = rows[w];
                let n = lemma_entries_below_prefix(row, max_id);
                assert(entries_below(row, max_id)[k] == row[k]);
                assert(reached(row, k, max_id));
                assert(v[v.len() - 1] == last);
                assert(reached(rows[v[v.len() - 1].0 as int], k, max_id));
            }
        }
    }
}

/// One step of taking the entries of a row below `max_id`
proof fn lemma_entries_below_step(row: Seq<InvertedEntry>, j: int, max_id: Option<usize>)
    requires
        0 <= j < row.len(),
    ensures
        entries_below(row.skip(j), max_id) == (if max_id matches Some(m) && m <= row[j].entry_id {
            Seq::<InvertedEntry>::empty()
        } else {
            seq![row[j]] + entries_below(row.skip(j + 1), max_id)
        }),
{
    assert(row.skip(j)[0] == row[j]);
    assert(row.skip(j).drop_first() =~= row.skip(j + 1));
}

impl Database {
    /// The vocabulary
    pub closed spec fn spec_vocabulary(&self) -> Vocabulary {
        *self.vocabulary
    }

    /// Levels gone up the tree to select the nodes stored in the direct index
    pub closed spec fn spec_levels(&self) -> nat {
        self.levels as nat
    }

    /// Number of entries
    pub closed spec fn spec_len(&self) -> nat {
        self.direct.spec_len()
    }

    /// The features of each entry, when the direct index is used
    pub closed spec fn spec_direct(&self) -> Option<Seq<Map<u32, Seq<u32>>>> {
        self.direct.spec_features()
    }

    /// The inverted rows, by word id
    pub closed spec fn spec_rows(&self) -> Seq<Seq<InvertedEntry>> {
        self.inverted@.map_values(|r: InvertedEntries| r@)
    }

    /// With a direct index, it holds the features of every entry
    pub proof fn lemma_direct_len(&self)
        ensures
            self.spec_direct() matches Some(ds) ==> ds.len() == self.spec_len(),
    {
    }

    /// Every inverted row is sorted by entry id
    pub open spec fn wf(&self) -> bool {
        forall|w: int| 0 <= w < self.spec_rows().len() ==> entries_sorted(#[trigger] self.spec_rows()[w])
    }

    /// Every entry id in the rows is below the number of entries, so that
    /// the next entry can be added
    pub open spec fn insertable(&self) -> bool {
        forall|w: int, i: int| 0 <= w < self.spec_rows().len() && 0 <= i < self.spec_rows()[w].len() ==>
            (#[trigger] self.spec_rows()[w][i]).entry_id < self.spec_len()
    }

    /// Creates a database with the given vocabulary
    ///
    /// With `use_direct`, a direct index stores the features of each entry;
    /// `levels` is the number of levels to go up the vocabulary tree to
    /// select the node ids stored in it when adding images
    pub fn new(vocabulary: Arc<Vocabulary>, use_direct: bool, levels: usize) -> (db: Self)
        ensures
            db.wf(),
            db.insertable(),
            db.spec_vocabulary() == *vocabulary,
            db.spec_levels() == levels,
            db.spec_len() == 0,
            use_direct ==> db.spec_direct() == Some(Seq::<Map<u32, Seq<u32>>>::empty()),
            !use_direct ==> db.spec_direct() is None,
            db.spec_rows() == Seq::new(vocabulary.features.spec_len(), |w: int| Seq::<InvertedEntry>::empty()),
    {
        let n = vocabulary.num_features();
        let mut inverted: Vec<InvertedEntries> = Vec::with_capacity(n);
        let mut i: usize = 0;
        while i < n
            invariant
                i <= n,
                inverted@.len() == i,
                forall|w: int| 0 <= w < i ==> (#[trigger] inverted@[w])@ == Seq::<InvertedEntry>::empty(),
            decreases n - i,
        {
            inverted.push(InvertedEntries::new());
            i = i + 1;
        }
        let direct = if use_direct {
            DirectIndex::Direct(Vec::new())
        } else {
            DirectIndex::CountId(0)
        };
        let db = Database { vocabulary, levels, direct, inverted };
        assert(db.spec_rows() =~= Seq::new(n as nat, |w: int| Seq::<InvertedEntry>::empty()));
        proof {
            if use_direct {
                assert(db.spec_direct()->Some_0 =~= Seq::<Map<u32, Seq<u32>>>::empty());
            }
        }
        db
    }

    /// Returns true if there are no entries in this database
    pub fn is_empty(&self) -> (b: bool)
        ensures
            b == (self.spec_len() == 0),
    {
        match &self.direct {
            DirectIndex::Direct(vec) => vec.len() == 0,
            DirectIndex::CountId(c) => *c == 0,
        }
    }

    /// The number of entries
    pub fn len(&self) -> (n: usize)
        ensures
            n == self.spec_len(),
    {
        self.direct.len()
    }

    /// The vocabulary used for this database
    pub fn vocabulary(&self) -> (v: &Arc<Vocabulary>)
        ensures
            **v == self.spec_vocabulary(),
    {
        &self.vocabulary
    }

    /// Checks if the direct index is being used
    pub fn using_direct_index(&self) -> (b: bool)
        ensures
            b == self.spec_direct() is Some,
    {
        match self.direct {
            DirectIndex::CountId(..) => false,
            DirectIndex::Direct(..) => true,
        }
    }

    /// Levels gone up the vocabulary tree to select the node ids of an entry
    pub fn levels(&self) -> (l: usize)
        ensures
            l == self.spec_levels(),
    {
        self.levels
    }

    /// Returns the direct index levels when the direct index is used, and
    /// `None` otherwise
    pub fn direct_index_levels(&self) -> (l: Option<usize>)
        ensures
            l == (if self.spec_direct() is Some { Some(self.spec_levels() as usize) } else { None }),
    {
        match self.direct {
            DirectIndex::CountId(..) => None,
            DirectIndex::Direct(..) => Some(self.levels),
        }
    }

    /// Get the features for an entry
    pub fn features(&self, entry_id: usize) -> (f: Option<&Features>)
        ensures
            match self.spec_direct() {
                Some(ds) => if entry_id < ds.len() { f is Some && f->Some_0@ == ds[entry_id as int] } else { f is None },
                None => f is None,
            },
    {
        match &self.direct {
            DirectIndex::CountId(..) => None,
            DirectIndex::Direct(dfile) => {
                if entry_id < dfile.len() {
                    Some(&dfile[entry_id])
                } else {
                    None
                }
            },
        }
    }

    /// Number of inverted rows (one per word)
    pub fn num_rows(&self) -> (n: usize)
        ensures
            n == self.spec_rows().len(),
    {
        self.inverted.len()
    }

    /// The entries holding word `word_id`, by ascending entry id; none when
    /// the word has no row
    pub fn inverted_row(&self, word_id: u32) -> (r: Option<&[InvertedEntry]>)
        ensures
            (word_id as int) < self.spec_rows().len() ==> r is Some && r->Some_0@ == self.spec_rows()[word_id as int],
            (word_id as int) >= self.spec_rows().len() ==> r is None,
    {
        if (word_id as usize) < self.inverted.len() {
            Some(self.inverted[word_id as usize].as_slice())
        } else {
            None
        }
    }

    /// The entries listed under the words of `query`: for each word, in the
    /// order in which the bag lists them, the entries of its row up to the
    /// first whose id is `max_id` or more, each with the weight of the word
    /// in the query, its id and its weight (weights by their `f32` bits)
    pub fn matching_entries(&self, query: &Bow, max_id: Option<usize>) -> (r: Vec<(u32, usize, u32)>)
        ensures
            exists|v: Seq<(u32, u32)>| lists_weights(query@, v) && r@ == spec_matches(self.spec_rows(), v, max_id),
            forall|w: u32, k: int|
                #![trigger query@[w], reached(self.spec_rows()[w as int], k, max_id)]
                query@.contains_key(w) && (w as int) < self.spec_rows().len() && reached(self.spec_rows()[w as int], k, max_id) ==>
                r@.contains((query@[w], self.spec_rows()[w as int][k].entry_id, self.spec_rows()[w as int][k].word_weight)),
            forall|x: (u32, usize, u32)| #[trigger] r@.contains(x) ==>
                exists|w: u32, k: int|
                    #![trigger query@[w], reached(self.spec_rows()[w as int], k, max_id)]
                    query@.contains_key(w) && (w as int) < self.spec_rows().len() && reached(self.spec_rows()[w as int], k, max_id)
                    && x == (query@[w], self.spec_rows()[w as int][k].entry_id, self.spec_rows()[w as int][k].word_weight),
    {
        let items = query.items();
        let ghost rows = self.spec_rows();
        let mut out: Vec<(u32, usize, u32)> = Vec::new();
        let mut i: usize = 0;
        while i < items.len()
            invariant
                i <= items@.len(),
                rows == self.spec_rows(),
                out@ == spec_matches(rows, items@.take(i as int), max_id),
            decreases items@.len() - i,
        {
            let (w, q) = items[i];
            let ghost base = out@;
            match self.inverted_row(w) {
                Some(row) => {
                    let mut j: usize = 0;
                    assert(row@.take(0) =~= Seq::<InvertedEntry>::empty());
                    assert(row@.skip(0) =~= row@);
                    while j < row.len()
                        invariant_except_break
                            j <= row@.len(),
                            entries_below(row@, max_id) == row@.take(j as int) + entries_below(row@.skip(j as int), max_id),
                            out@ == base + Seq::new(j as nat, |k: int| (q, row@[k].entry_id, row@[k].word_weight)),
                        ensures
                            j <= row@.len(),
                            entries_below(row@, max_id) == row@.take(j as int),
                            out@ == base + Seq::new(j as nat, |k: int| (q, row@[k].entry_id, row@[k].word_weight)),
                        decreases row@.len() - j,
                    {
                        let e = row[j];
                        proof {
                            lemma_entries_below_step(row@, j as int, max_id);
                        }
                        match max_id {
                            Some(m) => {
                                if m <= e.entry_id {
                                    assert(row@.take(j as int) + Seq::<InvertedEntry>::empty() =~= row@.take(j as int));
                                    break;
                                }
                            },
                            None => {},
                        }
                        out.push((q, e.entry_id, e.word_weight));
                        proof {
                            assert(row@.take(j + 1) =~= row@.take(j as int).push(row@[j as int]));
                            assert(row@.take(j as int) + (seq![row@[j as int]] + entries_below(row@.skip(j + 1), max_id))
                                =~= row@.take(j + 1) + entries_below(row@.skip(j + 1), max_id));
                        }
                        j = j + 1;
                        assert(out@ =~= base + Seq::new(j as nat, |k: int| (q, row@[k].entry_id, row@[k].word_weight)));
                    }
                    proof {
                        if j == row@.len() {
                            assert(row@.skip(j as int) =~= Seq::<InvertedEntry>::empty());
                            assert(row@.take(j as int) =~= row@);
                        }
                        assert(row@ == rows[w as int]);
                        assert(Seq::new(j as nat, |k: int| (q, row@[k].entry_id, row@[k].word_weight))
                            =~= entries_below(row@, max_id).map_values(|e: InvertedEntry| (q, e.entry_id, e.word_weight)));
                    }
                },
                None => {
                    assert(out@ =~= base + Seq::<(u32, usize, u32)>::empty());
                },
            }
            proof {
                assert(items@.take(i + 1).drop_last() =~= items@.take(i as int));
                assert(items@.take(i + 1).last() == (w, q));
            }
            i = i + 1;
        }
        assert(items@.take(i as int) =~= items@);
        proof {
            let v = items@;
            let m = query@;
            lemma_matches_law(rows, v, max_id);
            assert forall|w: u32, k: int|
                #![trigger m[w], reached(rows[w as int], k, max_id)]
                m.contains_key(w) && (w as int) < rows.len() && reached(rows[w as int], k, max_id) implies
                out@.contains((m[w], rows[w as int][k].entry_id, rows[w as int][k].word_weight)) by {
                let t = choose|t: int| 0 <= t < v.len() && #[trigger] v[t].0 == w;
                assert(m[v[t].0] == v[t].1);
                assert(reached(rows[v[t].0 as int], k, max_id));
            }
            assert forall|x: (u32, usize, u32)| #[trigger] out@.contains(x) implies
                exists|w: u32, k: int|
                    #![trigger m[w], reached(rows[w as int], k, max_id)]
                    m.contains_key(w) && (w as int) < rows.len() && reached(rows[w as int], k, max_id)
                    && x == (m[w], rows[w as int][k].entry_id, rows[w as int][k].word_weight) by {
                let (t, k) = choose|t: int, k: int|
                    #![trigger v[t], reached(rows[v[t].0 as int], k, max_id)]
                    0 <= t < v.len() && (v[t].0 as int) < rows.len() && reached(rows[v[t].0 as int], k, max_id)
                    && x == (v[t].1, rows[v[t].0 as int][k].entry_id, rows[v[t].0 as int][k].word_weight);
                assert(m.contains_key(v[t].0) && m[v[t].0] == v[t].1);
                let w = v[t].0;
                assert(m[w] == v[t].1);
                assert(reached(rows[w as int], k, max_id));
            }
        }
        out
    }

    /// The entry `entry_id` in the row of word `word_id`, if any
    pub fn inverted_entry(&self, word_id: u32, entry_id: usize) -> (r: Option<InvertedEntry>)
        requires
            self.wf(),
        ensures
            (word_id as int) < self.spec_rows().len() ==> r == spec_lookup(self.spec_rows()[word_id as int], entry_id),
            (word_id as int) >= self.spec_rows().len() ==> r is None,
    {
        if (word_id as usize) < self.inverted.len() {
            let row = &self.inverted[word_id as usize];
            assert(row@ == self.spec_rows()[word_id as int]);
            match row.get(entry_id) {
                Some(e) => Some(*e),
                None => None,
            }
        } else {
            None
        }
    }

    /// Clear all stored entries; the vocabulary is kept
    pub fn clear(&mut self)
        ensures
            final(self).wf(),
            final(self).insertable(),
            final(self).spec_len() == 0,
            final(self).spec_vocabulary() == old(self).spec_vocabulary(),
            final(self).spec_levels() == old(self).spec_levels(),
            old(self).spec_direct() is Some ==> final(self).spec_direct() == Some(Seq::<Map<u32, Seq<u32>>>::empty()),
            old(self).spec_direct() is None ==> final(self).spec_direct() is None,
            final(self).spec_rows() == Seq::new(old(self).spec_rows().len(), |w: int| Seq::<InvertedEntry>::empty()),
    {
        self.direct.clear();
        let n = self.inverted.len();
        let mut i: usize = 0;
        while i < n
            invariant
                i <= n,
                n == self.inverted@.len(),
                forall|w: int| 0 <= w < i ==> (#[trigger] self.inverted@[w])@ == Seq::<InvertedEntry>::empty(),
                self.spec_len() == 0,
                self.spec_vocabulary() == old(self).spec_vocabulary(),
                self.spec_levels() == old(self).spec_levels(),
                old(self).spec_direct() is Some ==> self.spec_direct() == Some(Seq::<Map<u32, Seq<u32>>>::empty()),
                old(self).spec_direct() is None ==> self.spec_direct() is None,
            decreases n - i,
        {
            self.inverted[i].clear();
            i = i + 1;
        }
        assert(self.spec_rows() =~= Seq::new(n as nat, |w: int| Seq::<InvertedEntry>::empty()));
    }

    /// Insert an entry: the words of its bag of words `bow` with their
    /// weights, and, when the direct index is used, its features `fv`.
    /// Returns the id of the new entry; its words are added to the inverted
    /// rows in the bag's iteration order.
    pub fn insert(&mut self, bow: &Bow, fv: Features) -> (entry_id: usize)
        requires
            old(self).spec_len() < usize::MAX,
            forall|w: u32| #[trigger] bow@.contains_key(w) ==> (w as int) < old(self).spec_rows().len(),
        ensures
            entry_id == old(self).spec_len(),
            old(self).wf() && old(self).insertable() ==> final(self).wf() && final(self).insertable(),
            final(self).spec_len() == old(self).spec_len() + 1,
            final(self).spec_direct() matches Some(ds) ==> ds.len() == final(self).spec_len() && ds[entry_id as int] == fv@,
            final(self).spec_vocabulary() == old(self).spec_vocabulary(),
            final(self).spec_levels() == old(self).spec_levels(),
            match old(self).spec_direct() {
                Some(ds) => final(self).spec_direct() == Some(ds.push(fv@)),
                None => final(self).spec_direct() is None,
            },
            exists|v: Seq<(u32, u32)>| lists_weights(bow@, v) && final(self).spec_rows() == spec_insert_rows(old(self).spec_rows(), v, entry_id),
    {
        let items = bow.items();
        proof {
            assert forall|i: int| 0 <= i < items@.len() implies (#[trigger] items@[i]).0 < old(self).spec_rows().len() by {
                assert(bow@.contains_key(items@[i].0));
            }
        }
        self.insert_items(items.as_slice(), fv)
    }

    /// Insert an entry given by the listed words and weights `bow`
    fn insert_items(&mut self, bow: &[(u32, u32)], fv: Features) -> (entry_id: usize)
        requires
            old(self).spec_len() < usize::MAX,
            bow_insertable(bow@, old(self).spec_rows().len()),
        ensures
            entry_id == old(self).spec_len(),
            old(self).wf() && old(self).insertable() ==> final(self).wf() && final(self).insertable(),
            final(self).spec_len() == old(self).spec_len() + 1,
            final(self).spec_direct() matches Some(ds) ==> ds.len() == final(self).spec_len() && ds[entry_id as int] == fv@,
            final(self).spec_vocabulary() == old(self).spec_vocabulary(),
            final(self).spec_levels() == old(self).spec_levels(),
            match old(self).spec_direct() {
                Some(ds) => final(self).spec_direct() == Some(ds.push(fv@)),
                None => final(self).spec_direct() is None,
            },
            final(self).spec_rows() == spec_insert_rows(old(self).spec_rows(), bow@, entry_id),
    {
        let ghost rows0 = self.spec_rows();
        let ghost len0 = self.spec_len();
        let entry_id = match &mut self.direct {
            DirectIndex::Direct(vec) => {
                let id = vec.len();
                vec.push(fv);
                proof {
                    assert(vec@.map_values(|f: Features| f@) =~= old(self).spec_direct()->Some_0.push(fv@));
                }
                id
            },
            DirectIndex::CountId(next_id) => {
                let id = *next_id;
                *next_id = *next_id + 1;
                id
            },
        };
        let mut i: usize = 0;
        while i < bow.len()
            invariant
                i <= bow@.len(),
                entry_id == len0,
                self.spec_len() == len0 + 1,
                self.spec_vocabulary() == old(self).spec_vocabulary(),
                self.spec_levels() == old(self).spec_levels(),
                self.spec_direct() == (match old(self).spec_direct() {
                    Some(ds) => Some(ds.push(fv@)),
                    None => None,
                }),
                bow_insertable(bow@, rows0.len()),
                self.inverted@.len() == rows0.len(),
                self.spec_rows() == spec_insert_rows(rows0, bow@.take(i as int), entry_id),
                rows0 == old(self).spec_rows(),
                len0 == old(self).spec_len(),
            decreases bow@.len() - i,
        {
            let (word_id, word_weight) = bow[i];
            let w = word_id as usize;
            let ghost pre = bow@.take(i as int);
            proof {
                assert forall|j: int| 0 <= j < pre.len() implies (#[trigger] pre[j]).0 < rows0.len() && pre[j].0 != w as int by {
                    assert(pre[j] == bow@[j]);
                    assert(bow@[j].0 != bow@[i as int].0);
                }
                lemma_insert_rows_untouched(rows0, pre, entry_id, w as int);
            }
            assert(self.inverted@[w as int]@ == rows0[w as int]);
            self.inverted[w].push(entry_id, word_weight);
            proof {
                assert(bow@.take(i + 1).drop_last() =~= pre);
                assert(self.spec_rows() =~= spec_insert_rows(rows0, bow@.take(i + 1), entry_id));
            }
            i = i + 1;
        }
        proof {
            assert(bow@.take(i as int) =~= bow@);
            if old(self).wf() && old(self).insertable() {
                lemma_insert_rows_shape(rows0, bow@, entry_id);
            }
        }
        entry_id
    }
}

/// Adding entry `id` leaves each row either as it was or with the entry
/// appended, and sorted rows with smaller ids stay sorted
proof fn lemma_insert_rows_shape(rows: Seq<Seq<InvertedEntry>>, bow: Seq<(u32, u32)>, id: usize)
    requires
        bow_insertable(bow, rows.len()),
        forall|w: int| 0 <= w < rows.len() ==> entries_sorted(#[trigger] rows[w]),
        forall|w: int, k: int| 0 <= w < rows.len() && 0 <= k < rows[w].len() ==> (#[trigger] rows[w][k]).entry_id < id,
    ensures
        spec_insert_rows(rows, bow, id).len() == rows.len(),
        forall|w: int| 0 <= w < rows.len() ==> entries_sorted(#[trigger] spec_insert_rows(rows, bow, id)[w]),
        forall|w: int, k: int| 0 <= w < rows.len() && 0 <= k < spec_insert_rows(rows, bow, id)[w].len() ==>
            (#[trigger] spec_insert_rows(rows, bow, id)[w][k]).entry_id <= id,
        forall|w: int| 0 <= w < rows.len() ==> {
            ||| #[trigger] spec_insert_rows(rows, bow, id)[w] == rows[w]
            ||| spec_insert_rows(rows, bow, id)[w] == rows[w].push(InvertedEntry { entry_id: id, word_weight: spec_insert_rows(rows, bow, id)[w].last().word_weight })
        },
    decreases bow.len(),
{
    if bow.len() > 0 {
        let prefix = bow.drop_last();
        assert(bow_insertable(prefix, rows.len())) by {
            assert forall|i: int, j: int| 0 <= i < j < prefix.len() implies (#[trigger] prefix[i]).0 != (#[trigger] prefix[j]).0 by {
                assert(prefix[i] == bow[i] && prefix[j] == bow[j]);
            }
            assert forall|i: int| 0 <= i < prefix.len() implies (#[trigger] prefix[i]).0 < rows.len() by {
                assert(prefix[i] == bow[i]);
            }
        }
        lemma_insert_rows_shape(rows, prefix, id);
        assert forall|i: int| 0 <= i < prefix.len() implies (#[trigger] prefix[i]).0 < rows.len() && prefix[i].0 != bow.last().0 by {
            assert(prefix[i] == bow[i]);
            assert(bow[i].0 != bow[bow.len() - 1].0);
        }
        lemma_insert_rows_untouched(rows, prefix, id, bow.last().0 as int);
        let prev = spec_insert_rows(rows, prefix, id);
        let (w, weight) = bow.last();
        assert(prev[w as int] == rows[w as int]);
        let res = spec_insert_rows(rows, bow, id);
        assert forall|v: int| 0 <= v < rows.len() implies entries_sorted(#[trigger] res[v]) by {
            if v == w as int {
                assert(res[v] == rows[v].push(InvertedEntry { entry_id: id, word_weight: weight }));
                assert forall|i: int, j: int| 0 <= i < j < res[v].len() implies (#[trigger] res[v][i]).entry_id < (#[trigger] res[v][j]).entry_id by {
                    if j == res[v].len() - 1 {
                        assert(rows[v][i].entry_id < id);
                    } else {
                        assert(res[v][i] == rows[v][i] && res[v][j] == rows[v][j]);
                    }
                }
            }
        }
        assert forall|v: int| 0 <= v < rows.len() implies {
            ||| #[trigger] res[v] == rows[v]
            ||| res[v] == rows[v].push(InvertedEntry { entry_id: id, word_weight: res[v].last().word_weight })
        } by {
            if v == w as int {
                assert(res[v] == rows[v].push(InvertedEntry { entry_id: id, word_weight: weight }));
            }
        }
    }
}

/// A row whose word is not among the words added stays as it was
proof fn lemma_insert_rows_untouched(rows: Seq<Seq<InvertedEntry>>, bow: Seq<(u32, u32)>, id: usize, w: int)
    requires
        0 <= w < rows.len(),
        forall|i: int| 0 <= i < bow.len() ==> (#[trigger] bow[i]).0 < rows.len() && bow[i].0 != w,
    ensures
        spec_insert_rows(rows, bow, id).len() == rows.len(),
        spec_insert_rows(rows, bow, id)[w] == rows[w],
    decreases bow.len(),
{
    if bow.len() > 0 {
        let prefix = bow.drop_last();
        assert forall|i: int| 0 <= i < prefix.len() implies (#[trigger] prefix[i]).0 < rows.len() && prefix[i].0 != w by {
            assert(prefix[i] == bow[i]);
        }
        lemma_insert_rows_untouched(rows, prefix, id, w);
        assert(bow[bow.len() - 1].0 != w);
    }
}

/// A lookup in the row with the entry just appended finds it
proof fn lemma_lookup_last(row: Seq<InvertedEntry>, e: InvertedEntry)
    requires
        forall|k: int| 0 <= k < row.len() ==> (#[trigger] row[k]).entry_id < e.entry_id,
    ensures
        spec_lookup(row.push(e), e.entry_id) == Some(e),
{
    let r = row.push(e);
    assert(r[row.len() as int] == e);
    assert(exists|i: int| 0 <= i < r.len() && (#[trigger] r[i]).entry_id == e.entry_id);
    let k = choose|i: int| 0 <= i < r.len() && (#[trigger] r[i]).entry_id == e.entry_id;
    if k < row.len() {
        assert(r[k] == row[k]);
    }
}

/// What a database holds of an entry just added: looking the entry up in
/// the row of each of its words gives that word's weight, and it is found
/// in no other row (the rows held only smaller entry ids before)
pub proof fn lemma_insert_then_lookup(rows: Seq<Seq<InvertedEntry>>, bow: Seq<(u32, u32)>, id: usize)
    requires
        bow_insertable(bow, rows.len()),
        forall|w: int, k: int| 0 <= w < rows.len() && 0 <= k < rows[w].len() ==> (#[trigger] rows[w][k]).entry_id < id,
    ensures
        forall|i: int| 0 <= i < bow.len() ==> spec_lookup(spec_insert_rows(rows, bow, id)[(#[trigger] bow[i]).0 as int], id)
            == Some(InvertedEntry { entry_id: id, word_weight: bow[i].1 }),
        forall|w: int| 0 <= w < rows.len() && (forall|i: int| 0 <= i < bow.len() ==> (#[trigger] bow[i]).0 != w) ==>
            spec_lookup(#[trigger] spec_insert_rows(rows, bow, id)[w], id) is None,
    decreases bow.len(),
{
    if bow.len() > 0 {
        let prefix = bow.drop_last();
        let (lw, weight) = bow.last();
        assert(bow_insertable(prefix, rows.len())) by {
            assert forall|i: int, j: int| 0 <= i < j < prefix.len() implies (#[trigger] prefix[i]).0 != (#[trigger] prefix[j]).0 by {
                assert(prefix[i] == bow[i] && prefix[j] == bow[j]);
            }
            assert forall|i: int| 0 <= i < prefix.len() implies (#[trigger] prefix[i]).0 < rows.len() by {
                assert(prefix[i] == bow[i]);
            }
        }
        lemma_insert_then_lookup(rows, prefix, id);
        assert forall|i: int| 0 <= i < prefix.len() implies (#[trigger] prefix[i]).0 < rows.len() && prefix[i].0 != lw by {
            assert(prefix[i] == bow[i]);
            assert(bow[i].0 != bow[bow.len() - 1].0);
        }
        lemma_insert_rows_untouched(rows, prefix, id, lw as int);
        let prev = spec_insert_rows(rows, prefix, id);
        let res = spec_insert_rows(rows, bow, id);
        let e = InvertedEntry { entry_id: id, word_weight: weight };
        assert(res[lw as int] == rows[lw as int].push(e));
        lemma_lookup_last(rows[lw as int], e);
        assert forall|i: int| 0 <= i < bow.len() implies spec_lookup(res[(#[trigger] bow[i]).0 as int], id)
            == Some(InvertedEntry { entry_id: id, word_weight: bow[i].1 }) by {
            if i < bow.len() - 1 {
                assert(prefix[i] == bow[i]);
                assert(bow[i].0 != lw);
                assert(res[bow[i].0 as int] == prev[bow[i].0 as int]);
            }
        }
        assert forall|w: int| 0 <= w < rows.len() && (forall|i: int| 0 <= i < bow.len() ==> (#[trigger] bow[i]).0 != w) implies
            spec_lookup(#[trigger] res[w], id) is None by {
            assert(bow[bow.len() - 1].0 != w);
            assert forall|i: int| 0 <= i < prefix.len() implies (#[trigger] prefix[i]).0 != w by {
                assert(prefix[i] == bow[i]);
            }
            assert(res[w] == prev[w]);
        }
    } else {
        assert forall|w: int| 0 <= w < rows.len() && (forall|i: int| 0 <= i < bow.len() ==> (#[trigger] bow[i]).0 != w) implies
            spec_lookup(#[trigger] spec_insert_rows(rows, bow, id)[w], id) is None by {
            assert(spec_insert_rows(rows, bow, id)[w] == rows[w]);
            if exists|i: int| 0 <= i < rows[w].len() && (#[trigger] rows[w][i]).entry_id == id {
                let i = choose|i: int| 0 <= i < rows[w].len() && (#[trigger] rows[w][i]).entry_id == id;
                assert(rows[w][i].entry_id < id);
            }
        }
    }
}

/// Signature of the database format
pub const DB_SER_VERSION: u64 = 0x8a6f8867c2a89411;

/// The start of the database encoding: the signature, the number of
/// entries, the levels, the number of words and the direct index flag
pub open spec fn spec_encode_db_header(len: nat, levels: nat, nwords: nat, direct: bool) -> Seq<u8> {
    spec_u64_to_le_bytes(DB_SER_VERSION) + spec_u32_to_le_bytes(len as u32) + spec_u32_to_le_bytes(levels as u32)
        + spec_u32_to_le_bytes(nwords as u32) + seq![if direct { 1u8 } else { 0u8 }]
}

/// The lengths of the rows, one after the other
pub open spec fn spec_encode_row_lens(rows: Seq<Seq<InvertedEntry>>) -> Seq<u8>
    decreases rows.len(),
{
    if rows.len() == 0 {
        Seq::empty()
    } else {
        spec_encode_row_lens(rows.drop_last()) + spec_u32_to_le_bytes(rows.last().len() as u32)
    }
}

/// The entries of a row: each entry id and weight
pub open spec fn spec_encode_row(row: Seq<InvertedEntry>) -> Seq<u8>
    decreases row.len(),
{
    if row.len() == 0 {
        Seq::empty()
    } else {
        spec_encode_row(row.drop_last()) + spec_u32_to_le_bytes(row.last().entry_id as u32)
            + spec_u32_to_le_bytes(row.last().word_weight)
    }
}

/// The entries of every row, row after row
pub open spec fn spec_encode_rows(rows: Seq<Seq<InvertedEntry>>) -> Seq<u8>
    decreases rows.len(),
{
    if rows.len() == 0 {
        Seq::empty()
    } else {
        spec_encode_rows(rows.drop_last()) + spec_encode_row(rows.last())
    }
}

/// The encoding of a node-to-features map listed as `es`: the number of
/// entries, then the entries
pub open spec fn spec_encode_feature_entries(es: Seq<(u32, Seq<u32>)>) -> Seq<u8> {
    spec_u32_to_le_bytes(es.len() as u32) + spec_encode_entries(es)
}

/// The encodings of the features of several entries, one after the other
pub open spec fn spec_encode_direct(ess: Seq<Seq<(u32, Seq<u32>)>>) -> Seq<u8>
    decreases ess.len(),
{
    if ess.len() == 0 {
        Seq::empty()
    } else {
        spec_encode_direct(ess.drop_last()) + spec_encode_feature_entries(ess.last())
    }
}

/// Every count of the map fits in 32 bits
pub open spec fn map_encodable(m: Map<u32, Seq<u32>>) -> bool {
    &&& m.dom().len() <= u32::MAX
    &&& forall|k: u32| #[trigger] m.contains_key(k) ==> m[k].len() <= u32::MAX
}

/// Every row length fits in 32 bits
pub open spec fn row_lens_fit(rows: Seq<Seq<InvertedEntry>>) -> bool {
    forall|w: int| 0 <= w < rows.len() ==> (#[trigger] rows[w]).len() <= u32::MAX
}

/// Every entry id of the rows fits in 32 bits
pub open spec fn row_ids_fit(rows: Seq<Seq<InvertedEntry>>) -> bool {
    forall|w: int, i: int| 0 <= w < rows.len() && 0 <= i < rows[w].len() ==> (#[trigger] rows[w][i]).entry_id <= u32::MAX
}

/// Every count and id of the rows fits in 32 bits
pub open spec fn rows_encodable(rows: Seq<Seq<InvertedEntry>>) -> bool {
    row_lens_fit(rows) && row_ids_fit(rows)
}

/// Listing a map does not change whether its counts fit
proof fn lemma_listed_encodable(m: Map<u32, Seq<u32>>, es: Seq<(u32, Seq<u32>)>)
    requires
        lists_entries(m, es),
    ensures
        entries_encodable(es) == map_encodable(m),
{
    if map_encodable(m) {
        assert forall|i: int| 0 <= i < es.len() implies (#[trigger] es[i]).1.len() <= u32::MAX by {
            assert(m.contains_key(es[i].0));
        }
    }
    if entries_encodable(es) {
        assert forall|k: u32| #[trigger] m.contains_key(k) implies m[k].len() <= u32::MAX by {
            let i = choose|i: int| 0 <= i < es.len() && #[trigger] es[i].0 == k;
        }
    }
}

impl Database {
    /// Everything in the database can be written: the counts and ids fit in
    /// 32 bits, and so do those of the vocabulary
    pub open spec fn spec_encodable(&self) -> bool {
        &&& self.spec_len() <= u32::MAX
        &&& self.spec_levels() <= u32::MAX
        &&& self.spec_vocabulary().features.spec_len() <= u32::MAX
        &&& rows_encodable(self.spec_rows())
        &&& (self.spec_direct() matches Some(ds) ==> forall|i: int| 0 <= i < ds.len() ==> map_encodable(#[trigger] ds[i]))
        &&& spec_encodable(self.spec_vocabulary().params@)
        &&& spec_features_encodable(self.spec_vocabulary().features)
    }

    /// The encoding of the database when the features of its entries are
    /// listed as `ess`
    pub open spec fn spec_encode(&self, ess: Seq<Seq<(u32, Seq<u32>)>>) -> Seq<u8> {
        spec_encode_db_header(self.spec_len(), self.spec_levels(), self.spec_vocabulary().features.spec_len(), self.spec_direct() is Some)
            + spec_encode_row_lens(self.spec_rows()) + spec_encode_rows(self.spec_rows())
            + spec_encode_direct(ess) + spec_encode_vocabulary(self.spec_vocabulary())
    }

    /// `ess` lists the features of every entry (none without a direct index)
    pub open spec fn lists_direct(&self, ess: Seq<Seq<(u32, Seq<u32>)>>) -> bool {
        match self.spec_direct() {
            Some(ds) => ess.len() == ds.len() && forall|i: int| 0 <= i < ds.len() ==> lists_entries(ds[i], #[trigger] ess[i]),
            None => ess.len() == 0,
        }
    }

    /// Write the database: the header, the inverted index (the row lengths,
    /// then the entries), the features of each entry when the direct index
    /// is used, and the vocabulary
    pub fn write_to(&self, dst: &mut Vec<u8>) -> (res: Result<(), FormatError>)
        requires
            self.spec_vocabulary().features.wf(),
            !spec_write_vocabulary_panics(self.spec_vocabulary()),
        ensures
            self.spec_encodable() ==> res is Ok && exists|ess: Seq<Seq<(u32, Seq<u32>)>>|
                self.lists_direct(ess) && final(dst)@ == old(dst)@ + self.spec_encode(ess),
            !self.spec_encodable() ==> res == Err::<(), FormatError>(FormatError::ValueOverflow),
    {
        let ghost start = dst@;
        write_u64(DB_SER_VERSION, dst);
        write_u32ish(self.len(), dst)?;
        write_u32ish(self.levels, dst)?;
        write_u32ish(self.vocabulary.num_features(), dst)?;
        dst.push(if self.using_direct_index() { 1u8 } else { 0u8 });
        let ghost head = dst@;
        assert(head =~= start + spec_encode_db_header(self.spec_len(), self.spec_levels(), self.spec_vocabulary().features.spec_len(), self.spec_direct() is Some));
        assert(self.inverted@.map_values(|e: InvertedEntries| e@) =~= self.spec_rows());
        let r = write_row_lens(&self.inverted, dst);
        if r.is_err() {
            return r;
        }
        let ghost lens = dst@;
        let r = write_rows(&self.inverted, dst);
        if r.is_err() {
            return r;
        }
        let ghost mid = dst@;
        assert(mid == head + spec_encode_row_lens(self.spec_rows()) + spec_encode_rows(self.spec_rows()));
        let ghost mut ess: Seq<Seq<(u32, Seq<u32>)>> = Seq::empty();
        match &self.direct {
            DirectIndex::Direct(direct) => {
                let r = write_direct(direct, dst);
                match r {
                    Ok(()) => {},
                    Err(e) => {
                        proof {
                            let ds = self.spec_direct()->Some_0;
                            assert(ds == direct@.map_values(|f: Features| f@));
                            let k = choose|k: int| 0 <= k < direct@.len() && !map_encodable(#[trigger] direct@[k]@);
                            assert(ds[k] == direct@[k]@);
                        }
                        return Err(e);
                    },
                }
                proof {
                    ess = choose|ess: Seq<Seq<(u32, Seq<u32>)>>| ess.len() == direct@.len()
                        && (forall|i: int| 0 <= i < direct@.len() ==> lists_entries(direct@[i]@, #[trigger] ess[i]))
                        && dst@ == mid + spec_encode_direct(ess);
                }
            },
            DirectIndex::CountId(_) => {
                assert(dst@ =~= mid + spec_encode_direct(ess));
            },
        }
        let ghost tail = dst@;
        assert(tail == mid + spec_encode_direct(ess));
        let r = self.vocabulary.write_to(dst);
        proof {
            if r is Ok {
                assert(self.lists_direct(ess));
                assert(dst@ =~= start + self.spec_encode(ess));
            }
        }
        r
    }
}

/// Append the lengths of the rows
fn write_row_lens(rows: &Vec<InvertedEntries>, dst: &mut Vec<u8>) -> (r: Result<(), FormatError>)
    ensures
        r is Ok <==> row_lens_fit(rows@.map_values(|e: InvertedEntries| e@)),
        r is Ok ==> final(dst)@ == old(dst)@ + spec_encode_row_lens(rows@.map_values(|e: InvertedEntries| e@)),
        r is Err ==> r == Err::<(), FormatError>(FormatError::ValueOverflow),
{
    let ghost v = rows@.map_values(|e: InvertedEntries| e@);
    let ghost start = dst@;
    let mut i: usize = 0;
    while i < rows.len()
        invariant
            i <= rows@.len(),
            v == rows@.map_values(|e: InvertedEntries| e@),
            forall|w: int| 0 <= w < i ==> (#[trigger] rows@[w])@.len() <= u32::MAX,
            dst@ == start + spec_encode_row_lens(v.take(i as int)),
        decreases rows@.len() - i,
    {
        let r = write_u32ish(rows[i].len(), dst);
        if r.is_err() {
            assert(!row_lens_fit(v)) by {
                assert(v[i as int].len() > u32::MAX);
            }
            return r;
        }
        proof {
            assert(v.take(i + 1).drop_last() =~= v.take(i as int));
            assert(dst@ =~= start + spec_encode_row_lens(v.take(i + 1)));
        }
        i = i + 1;
    }
    assert(v.take(i as int) =~= v);
    assert(row_lens_fit(v)) by {
        assert forall|w: int| 0 <= w < v.len() implies (#[trigger] v[w]).len() <= u32::MAX by {
            assert(v[w] == rows@[w]@);
        }
    }
    Ok(())
}

/// Append the entries of one row
fn write_row(row: &InvertedEntries, dst: &mut Vec<u8>) -> (r: Result<(), FormatError>)
    ensures
        (forall|i: int| 0 <= i < row@.len() ==> (#[trigger] row@[i]).entry_id <= u32::MAX) ==> r is Ok
            && final(dst)@ == old(dst)@ + spec_encode_row(row@),
        !(forall|i: int| 0 <= i < row@.len() ==> (#[trigger] row@[i]).entry_id <= u32::MAX) ==> r == Err::<(), FormatError>(FormatError::ValueOverflow),
{
    let es = row.as_slice();
    let ghost start = dst@;
    let mut i: usize = 0;
    while i < es.len()
        invariant
            i <= es@.len(),
            es@ == row@,
            forall|k: int| 0 <= k < i ==> (#[trigger] es@[k]).entry_id <= u32::MAX,
            dst@ == start + spec_encode_row(es@.take(i as int)),
        decreases es@.len() - i,
    {
        let e = es[i];
        let r = write_u32ish(e.entry_id, dst);
        if r.is_err() {
            return r;
        }
        write_u32(e.word_weight, dst);
        proof {
            assert(es@.take(i + 1).drop_last() =~= es@.take(i as int));
            assert(dst@ =~= start + spec_encode_row(es@.take(i + 1)));
        }
        i = i + 1;
    }
    assert(es@.take(i as int) =~= es@);
    Ok(())
}

/// Append the entries of every row
fn write_rows(rows: &Vec<InvertedEntries>, dst: &mut Vec<u8>) -> (r: Result<(), FormatError>)
    ensures
        r is Ok <==> row_ids_fit(rows@.map_values(|e: InvertedEntries| e@)),
        r is Ok ==> final(dst)@ == old(dst)@ + spec_encode_rows(rows@.map_values(|e: InvertedEntries| e@)),
        r is Err ==> r == Err::<(), FormatError>(FormatError::ValueOverflow),
{
    let ghost v = rows@.map_values(|e: InvertedEntries| e@);
    let ghost start = dst@;
    let mut i: usize = 0;
    while i < rows.len()
        invariant
            i <= rows@.len(),
            v == rows@.map_values(|e: InvertedEntries| e@),
            dst@ == start + spec_encode_rows(v.take(i as int)),
            forall|w: int, k: int| 0 <= w < i && 0 <= k < v[w].len() ==> (#[trigger] v[w][k]).entry_id <= u32::MAX,
        decreases rows@.len() - i,
    {
        let r = write_row(&rows[i], dst);
        if r.is_err() {
            assert(!row_ids_fit(v)) by {
                assert(v[i as int] == rows@[i as int]@);
                let k = choose|k: int| 0 <= k < rows@[i as int]@.len() && !((#[trigger] rows@[i as int]@[k]).entry_id <= u32::MAX);
                assert(v[i as int][k] == rows@[i as int]@[k]);
            }
            return r;
        }
        assert(v[i as int] == rows@[i as int]@);
        proof {
            assert(v.take(i + 1).drop_last() =~= v.take(i as int));
            assert(dst@ =~= start + spec_encode_rows(v.take(i + 1)));
        }
        i = i + 1;
    }
    assert(v.take(i as int) =~= v);
    assert(row_ids_fit(v));
    Ok(())
}

/// Append the features of each entry
fn write_direct(direct: &Vec<Features>, dst: &mut Vec<u8>) -> (r: Result<(), FormatError>)
    ensures
        r is Ok <==> (forall|i: int| 0 <= i < direct@.len() ==> map_encodable(#[trigger] direct@[i]@)),
        r is Ok ==> exists|ess: Seq<Seq<(u32, Seq<u32>)>>| ess.len() == direct@.len()
                && (forall|i: int| 0 <= i < direct@.len() ==> lists_entries(direct@[i]@, #[trigger] ess[i]))
                && final(dst)@ == old(dst)@ + spec_encode_direct(ess),
        r is Err ==> r == Err::<(), FormatError>(FormatError::ValueOverflow),
{
    let ghost start = dst@;
    let ghost mut ess: Seq<Seq<(u32, Seq<u32>)>> = Seq::empty();
    let mut i: usize = 0;
    while i < direct.len()
        invariant
            i <= direct@.len(),
            ess.len() == i,
            forall|k: int| 0 <= k < i ==> lists_entries(direct@[k]@, #[trigger] ess[k]),
            forall|k: int| 0 <= k < i ==> map_encodable(#[trigger] direct@[k]@),
            dst@ == start + spec_encode_direct(ess),
        decreases direct@.len() - i,
    {
        let ghost before = dst@;
        let r = direct[i].write_to(dst);
        let ghost es = choose|es: Seq<(u32, Seq<u32>)>| {
            &&& lists_entries(direct@[i as int]@, es)
            &&& entries_encodable(es) ==> r is Ok && dst@ == before + spec_u32_to_le_bytes(es.len() as u32) + spec_encode_entries(es)
            &&& !entries_encodable(es) ==> r == Err::<(), FormatError>(FormatError::ValueOverflow)
        };
        proof {
            lemma_listed_encodable(direct@[i as int]@, es);
        }
        if r.is_err() {
            return r;
        }
        proof {
            let ess2 = ess.push(es);
            assert(ess2.drop_last() =~= ess);
            assert(dst@ =~= start + spec_encode_direct(ess2));
            ess = ess2;
        }
        i = i + 1;
    }
    Ok(())
}

/// Reading `n` row lengths at `pos`: the lengths and the position after them
pub open spec fn spec_read_row_lens(src: Seq<u8>, pos: int, n: nat) -> Result<(Seq<nat>, int), FormatError>
    decreases n,
{
    if n == 0 {
        Ok((Seq::empty(), pos))
    } else {
        match spec_read_row_lens(src, pos, (n - 1) as nat) {
            Err(e) => Err(e),
            Ok((ls, p)) => if p + 4 > src.len() {
                Err(FormatError::UnexpectedEof)
            } else {
                Ok((ls.push(u32_at(src, p) as nat), p + 4))
            },
        }
    }
}

/// Reading the `n` entries of a row at `pos`: each entry id and weight
pub open spec fn spec_read_row(src: Seq<u8>, pos: int, n: nat) -> Result<(Seq<InvertedEntry>, int), FormatError>
    decreases n,
{
    if n == 0 {
        Ok((Seq::empty(), pos))
    } else {
        match spec_read_row(src, pos, (n - 1) as nat) {
            Err(e) => Err(e),
            Ok((es, p)) => if p + 8 > src.len() {
                Err(FormatError::UnexpectedEof)
            } else {
                Ok((es.push(InvertedEntry { entry_id: u32_at(src, p) as usize, word_weight: u32_at(src, p + 4) }), p + 8))
            },
        }
    }
}

/// Reading rows of the lengths `lens` at `pos`, one after the other
pub open spec fn spec_read_rows(src: Seq<u8>, pos: int, lens: Seq<nat>) -> Result<(Seq<Seq<InvertedEntry>>, int), FormatError>
    decreases lens.len(),
{
    if lens.len() == 0 {
        Ok((Seq::empty(), pos))
    } else {
        match spec_read_rows(src, pos, lens.drop_last()) {
            Err(e) => Err(e),
            Ok((rows, p)) => match spec_read_row(src, p, lens.last()) {
                Err(e) => Err(e),
                Ok((row, q)) => Ok((rows.push(row), q)),
            },
        }
    }
}

/// Reading the features of `n` entries at `pos`, one after the other
pub open spec fn spec_read_direct(src: Seq<u8>, pos: int, n: nat) -> Result<(Seq<Map<u32, Seq<u32>>>, int), FormatError>
    decreases n,
{
    if n == 0 {
        Ok((Seq::empty(), pos))
    } else {
        match spec_read_direct(src, pos, (n - 1) as nat) {
            Err(e) => Err(e),
            Ok((ds, p)) => if p + 4 > src.len() {
                Err(FormatError::UnexpectedEof)
            } else {
                match spec_read_entries(src, p + 4, u32_at(src, p) as nat) {
                    Err(e) => Err(e),
                    Ok((es, q)) => Ok((ds.push(spec_map_of(es)), q)),
                }
            },
        }
    }
}

/// What a database file holds before its vocabulary
pub struct DbBody {
    pub len: nat,
    pub levels: nat,
    pub direct: Option<Seq<Map<u32, Seq<u32>>>>,
    pub rows: Seq<Seq<InvertedEntry>>,
}

/// Reading a database at `pos` up to its vocabulary: the signature, the
/// number of entries, the levels, the number of words, the direct index
/// flag, the row lengths, the rows and the features of each entry when
/// the flag is set; and the position of the vocabulary
pub open spec fn spec_read_db_body(src: Seq<u8>, pos: int) -> Result<(DbBody, int), FormatError> {
    if pos + 8 > src.len() {
        Err(FormatError::UnexpectedEof)
    } else if u64_at(src, pos) != DB_SER_VERSION {
        Err(FormatError::DatabaseHeaderMismatch)
    } else if pos + 21 > src.len() {
        Err(FormatError::UnexpectedEof)
    } else if src[pos + 20] > 1 {
        Err(FormatError::InvalidFlag(src[pos + 20]))
    } else {
        let len = u32_at(src, pos + 8) as nat;
        let levels = u32_at(src, pos + 12) as nat;
        let nwords = u32_at(src, pos + 16) as nat;
        match spec_read_row_lens(src, pos + 21, nwords) {
            Err(e) => Err(e),
            Ok((lens, p)) => match spec_read_rows(src, p, lens) {
                Err(e) => Err(e),
                Ok((rows, q)) => if src[pos + 20] == 1 {
                    match spec_read_direct(src, q, len) {
                        Err(e) => Err(e),
                        Ok((ds, r)) => Ok((DbBody { len, levels, direct: Some(ds), rows }, r)),
                    }
                } else {
                    Ok((DbBody { len, levels, direct: None, rows }, q))
                },
            },
        }
    }
}

/// Reading a database at `pos`: the warnings of reading its vocabulary
/// (with the default options), and what was read or the error
pub open spec fn spec_read_db(src: Seq<u8>, pos: int) -> (Seq<ParseWarning>, Result<(DbBody, VocabularyRead), FormatError>) {
    match spec_read_db_body(src, pos) {
        Err(e) => (Seq::empty(), Err(e)),
        Ok((body, p)) => {
            let v = spec_read_vocabulary(src, p, spec_default_read_options());
            (v.0, match v.1 {
                Err(e) => Err(e),
                Ok(fr) => Ok((body, fr)),
            })
        },
    }
}

/// Reading a database at `pos` panics: reading its vocabulary panics
pub open spec fn spec_read_db_panics(src: Seq<u8>, pos: int) -> bool {
    spec_read_db_body(src, pos) matches Ok((_, p)) && spec_read_vocabulary_panics(src, p, spec_default_read_options())
}

/// Once reading row lengths fails, it stays failed
proof fn lemma_row_lens_stopped(src: Seq<u8>, pos: int, k: nat, m: nat)
    requires
        k <= m,
        spec_read_row_lens(src, pos, k) is Err,
    ensures
        spec_read_row_lens(src, pos, m) == spec_read_row_lens(src, pos, k),
    decreases m - k,
{
    if k < m {
        lemma_row_lens_stopped(src, pos, k, (m - 1) as nat);
    }
}

/// Once reading a row fails, it stays failed
proof fn lemma_row_stopped(src: Seq<u8>, pos: int, k: nat, m: nat)
    requires
        k <= m,
        spec_read_row(src, pos, k) is Err,
    ensures
        spec_read_row(src, pos, m) == spec_read_row(src, pos, k),
    decreases m - k,
{
    if k < m {
        lemma_row_stopped(src, pos, k, (m - 1) as nat);
    }
}

/// Once reading rows fails, it stays failed
proof fn lemma_rows_stopped(src: Seq<u8>, pos: int, lens: Seq<nat>, k: int)
    requires
        0 <= k <= lens.len(),
        spec_read_rows(src, pos, lens.take(k)) is Err,
    ensures
        spec_read_rows(src, pos, lens) == spec_read_rows(src, pos, lens.take(k)),
    decreases lens.len() - k,
{
    if k < lens.len() {
        assert(lens.take(k + 1).drop_last() =~= lens.take(k));
        lemma_rows_stopped(src, pos, lens, k + 1);
    } else {
        assert(lens.take(k) =~= lens);
    }
}

/// Once reading the features of the entries fails, it stays failed
proof fn lemma_direct_stopped(src: Seq<u8>, pos: int, k: nat, m: nat)
    requires
        k <= m,
        spec_read_direct(src, pos, k) is Err,
    ensures
        spec_read_direct(src, pos, m) == spec_read_direct(src, pos, k),
    decreases m - k,
{
    if k < m {
        lemma_direct_stopped(src, pos, k, (m - 1) as nat);
    }
}

/// Read `n` row lengths
fn read_row_lens(src: &[u8], pos: &mut usize, n: usize) -> (r: Result<Vec<usize>, FormatError>)
    ensures
        match spec_read_row_lens(src@, *old(pos) as int, n as nat) {
            Ok((ls, p)) => r is Ok && r->Ok_0@.map_values(|x: usize| x as nat) == ls && *final(pos) == p,
            Err(e) => r == Err::<Vec<usize>, FormatError>(e),
        },
{
    let ghost start = *pos as int;
    let mut lens: Vec<usize> = Vec::new();
    assert(lens@.map_values(|x: usize| x as nat) =~= Seq::<nat>::empty());
    let mut i: usize = 0;
    while i < n
        invariant
            i <= n,
            start == *old(pos) as int,
            spec_read_row_lens(src@, start, i as nat) == Ok::<(Seq<nat>, int), FormatError>((lens@.map_values(|x: usize| x as nat), *pos as int)),
        decreases n - i,
    {
        let l = match read_u32ish(src, pos) {
            Ok(l) => l,
            Err(e) => {
                proof {
                    lemma_row_lens_stopped(src@, start, (i + 1) as nat, n as nat);
                }
                return Err(e);
            },
        };
        let ghost before = lens@;
        lens.push(l);
        assert(lens@.map_values(|x: usize| x as nat) =~= before.map_values(|x: usize| x as nat).push(l as nat));
        i = i + 1;
    }
    Ok(lens)
}

/// Read the `n` entries of a row
fn read_row(src: &[u8], pos: &mut usize, n: usize) -> (r: Result<InvertedEntries, FormatError>)
    ensures
        match spec_read_row(src@, *old(pos) as int, n as nat) {
            Ok((es, p)) => r is Ok && r->Ok_0@ == es && *final(pos) == p,
            Err(e) => r == Err::<InvertedEntries, FormatError>(e),
        },
{
    let ghost start = *pos as int;
    let mut row: Vec<InvertedEntry> = Vec::new();
    let mut i: usize = 0;
    while i < n
        invariant
            i <= n,
            start == *old(pos) as int,
            spec_read_row(src@, start, i as nat) == Ok::<(Seq<InvertedEntry>, int), FormatError>((row@, *pos as int)),
        decreases n - i,
    {
        let p0 = *pos;
        let entry_id = match read_u32ish(src, pos) {
            Ok(v) => v,
            Err(e) => {
                proof {
                    lemma_row_stopped(src@, start, (i + 1) as nat, n as nat);
                }
                return Err(e);
            },
        };
        let word_weight = match read_u32(src, pos) {
            Ok(v) => v,
            Err(e) => {
                proof {
                    lemma_row_stopped(src@, start, (i + 1) as nat, n as nat);
                }
                return Err(e);
            },
        };
        row.push(InvertedEntry { entry_id, word_weight });
        i = i + 1;
    }
    Ok(InvertedEntries(row))
}

/// Read rows of the lengths `lens`
fn read_rows(src: &[u8], pos: &mut usize, lens: &Vec<usize>) -> (r: Result<Vec<InvertedEntries>, FormatError>)
    ensures
        match spec_read_rows(src@, *old(pos) as int, lens@.map_values(|x: usize| x as nat)) {
            Ok((rows, p)) => r is Ok && r->Ok_0@.map_values(|e: InvertedEntries| e@) == rows && *final(pos) == p,
            Err(e) => r == Err::<Vec<InvertedEntries>, FormatError>(e),
        },
{
    let ghost start = *pos as int;
    let ghost ls = lens@.map_values(|x: usize| x as nat);
    let mut rows: Vec<InvertedEntries> = Vec::new();
    assert(rows@.map_values(|e: InvertedEntries| e@) =~= Seq::<Seq<InvertedEntry>>::empty());
    assert(ls.take(0) =~= Seq::<nat>::empty());
    let mut i: usize = 0;
    while i < lens.len()
        invariant
            i <= lens@.len(),
            start == *old(pos) as int,
            ls == lens@.map_values(|x: usize| x as nat),
            spec_read_rows(src@, start, ls.take(i as int)) == Ok::<(Seq<Seq<InvertedEntry>>, int), FormatError>(
                (rows@.map_values(|e: InvertedEntries| e@), *pos as int)),
        decreases lens@.len() - i,
    {
        assert(ls.take(i + 1).drop_last() =~= ls.take(i as int));
        assert(ls.take(i + 1).last() == lens@[i as int] as nat);
        let row = match read_row(src, pos, lens[i]) {
            Ok(row) => row,
            Err(e) => {
                proof {
                    lemma_rows_stopped(src@, start, ls, i + 1);
                }
                return Err(e);
            },
        };
        let ghost before = rows@;
        rows.push(row);
        assert(rows@.map_values(|e: InvertedEntries| e@) =~= before.map_values(|e: InvertedEntries| e@).push(row@));
        i = i + 1;
    }
    assert(ls.take(i as int) =~= ls);
    Ok(rows)
}

/// Read the features of `n` entries
fn read_direct(src: &[u8], pos: &mut usize, n: usize) -> (r: Result<Vec<Features>, FormatError>)
    ensures
        match spec_read_direct(src@, *old(pos) as int, n as nat) {
            Ok((ds, p)) => r is Ok && r->Ok_0@.map_values(|f: Features| f@) == ds && *final(pos) == p,
            Err(e) => r == Err::<Vec<Features>, FormatError>(e),
        },
        r is Ok ==> r->Ok_0@.len() == n,
{
    let ghost start = *pos as int;
    let mut direct: Vec<Features> = Vec::new();
    assert(direct@.map_values(|f: Features| f@) =~= Seq::<Map<u32, Seq<u32>>>::empty());
    let mut i: usize = 0;
    while i < n
        invariant
            i <= n,
            start == *old(pos) as int,
            spec_read_direct(src@, start, i as nat) == Ok::<(Seq<Map<u32, Seq<u32>>>, int), FormatError>(
                (direct@.map_values(|f: Features| f@), *pos as int)),
            direct@.len() == i,
        decreases n - i,
    {
        let mut duplicates: Vec<u32> = Vec::new();
        let f = match Features::read_with_duplicates(src, pos, &mut duplicates) {
            Ok(f) => f,
            Err(e) => {
                proof {
                    lemma_direct_stopped(src@, start, (i + 1) as nat, n as nat);
                }
                return Err(e);
            },
        };
        let ghost before = direct@;
        direct.push(f);
        assert(direct@.map_values(|f: Features| f@) =~= before.map_values(|f: Features| f@).push(f@));
        i = i + 1;
    }
    Ok(direct)
}

/// Whether reading a database at `pos` panics, which
/// [`Database::read_from`] rules out: its body reads, and reading its
/// vocabulary panics
pub fn database_read_panics(src: &[u8], pos: usize) -> (b: bool)
    ensures
        b == spec_read_db_panics(src@, pos as int),
{
    let ghost s = src@;
    let ghost start = pos as int;
    let mut p = pos;
    let version = match read_u64(src, &mut p) {
        Ok(v) => v,
        Err(_) => { return false; },
    };
    if version != DB_SER_VERSION {
        return false;
    }
    let len = match read_u32ish(src, &mut p) {
        Ok(v) => v,
        Err(_) => { return false; },
    };
    let levels = match read_u32ish(src, &mut p) {
        Ok(v) => v,
        Err(_) => { return false; },
    };
    let num_features = match read_u32ish(src, &mut p) {
        Ok(v) => v,
        Err(_) => { return false; },
    };
    let flag = match read_bytes(src, &mut p, 1) {
        Ok(v) => v,
        Err(_) => { return false; },
    };
    assert(flag@[0] == s[start + 20]);
    if flag[0] > 1 {
        return false;
    }
    assert(len == u32_at(s, start + 8));
    assert(levels == u32_at(s, start + 12));
    assert(num_features == u32_at(s, start + 16));
    assert(p == start + 21);
    let lens = match read_row_lens(src, &mut p, num_features) {
        Ok(v) => v,
        Err(_) => { return false; },
    };
    let _inverted = match read_rows(src, &mut p, &lens) {
        Ok(v) => v,
        Err(_) => { return false; },
    };
    if flag[0] == 1 {
        let _direct = match read_direct(src, &mut p, len) {
            Ok(v) => v,
            Err(_) => { return false; },
        };
    }
    assert(spec_read_db_body(s, start) matches Ok((_, q)) && q == p);
    crate::vocabulary::format::vocabulary_read_panics(src, p, VocabularyReadOptions::default())
}

impl Database {
    /// Read a database at `*pos`; its vocabulary is read with the default
    /// options, its warnings appended to `warnings`
    pub fn read_from(src: &[u8], pos: &mut usize, warnings: &mut Vec<ParseWarning>) -> (r: Result<Self, FormatError>)
        requires
            !spec_read_db_panics(src@, *old(pos) as int),
        ensures
            final(warnings)@ == old(warnings)@ + spec_read_db(src@, *old(pos) as int).0,
            match spec_read_db(src@, *old(pos) as int).1 {
                Ok((body, fr)) => r is Ok && {
                    let db = r->Ok_0;
                    &&& db.spec_len() == body.len
                    &&& db.spec_levels() == body.levels
                    &&& db.spec_direct() == body.direct
                    &&& db.spec_rows() == body.rows
                    &&& read_matches(db.spec_vocabulary(), fr)
                },
                Err(e) => r == Err::<Self, FormatError>(e),
            },
    {
        let ghost s = src@;
        let ghost start = *pos as int;
        let version = read_u64(src, pos)?;
        if version != DB_SER_VERSION {
            return Err(FormatError::DatabaseHeaderMismatch);
        }
        let len = read_u32ish(src, pos)?;
        let levels = read_u32ish(src, pos)?;
        let num_features = read_u32ish(src, pos)?;
        let flag = read_bytes(src, pos, 1)?;
        assert(flag@[0] == s[start + 20]);
        let direct_index = if flag[0] == 0 {
            false
        } else if flag[0] == 1 {
            true
        } else {
            return Err(FormatError::InvalidFlag(flag[0]));
        };
        assert(len == u32_at(s, start + 8));
        assert(levels == u32_at(s, start + 12));
        assert(num_features == u32_at(s, start + 16));
        assert(*pos == start + 21);
        let lens = read_row_lens(src, pos, num_features)?;
        let inverted = read_rows(src, pos, &lens)?;
        let direct = if direct_index {
            DirectIndex::Direct(read_direct(src, pos, len)?)
        } else {
            DirectIndex::CountId(len)
        };
        let ghost body_end = *pos as int;
        assert(spec_read_db_body(s, start) matches Ok((_, p)) && p == body_end);
        let options = VocabularyReadOptions::default();
        let vocabulary = Vocabulary::read_from(src, pos, options, warnings)?;
        let db = Database { vocabulary: Arc::new(vocabulary), levels, direct, inverted };
        proof {
            assert(db.spec_rows() =~= inverted@.map_values(|e: InvertedEntries| e@));
        }
        Ok(db)
    }
}

/// The lengths of the rows, as numbers
pub open spec fn spec_row_lens(rows: Seq<Seq<InvertedEntry>>) -> Seq<nat> {
    rows.map_values(|r: Seq<InvertedEntry>| r.len())
}

/// Reading back encoded row lengths gives the lengths
proof fn lemma_read_row_lens_encoded(rows: Seq<Seq<InvertedEntry>>, pre: Seq<u8>, post: Seq<u8>)
    requires
        row_lens_fit(rows),
    ensures
        spec_encode_row_lens(rows).len() == 4 * rows.len(),
        spec_read_row_lens(pre + spec_encode_row_lens(rows) + post, pre.len() as int, rows.len())
            == Ok::<(Seq<nat>, int), FormatError>((spec_row_lens(rows), (pre.len() + 4 * rows.len()) as int)),
    decreases rows.len(),
{
    lemma_auto_spec_u32_to_from_le_bytes();
    if rows.len() > 0 {
        let p = rows.drop_last();
        let last = spec_u32_to_le_bytes(rows.last().len() as u32);
        assert(row_lens_fit(p)) by {
            assert forall|w: int| 0 <= w < p.len() implies (#[trigger] p[w]).len() <= u32::MAX by {
                assert(p[w] == rows[w]);
            }
        }
        lemma_read_row_lens_encoded(p, pre, last + post);
        let src = pre + spec_encode_row_lens(rows) + post;
        assert(src =~= pre + spec_encode_row_lens(p) + (last + post));
        let q = (pre.len() + 4 * p.len()) as int;
        assert(spec_window(src, q, 4) =~= last);
        assert(spec_row_lens(rows) =~= spec_row_lens(p).push(rows.last().len()));
    } else {
        assert(spec_row_lens(rows) =~= Seq::<nat>::empty());
    }
}

/// Reading back an encoded row gives the row
proof fn lemma_read_row_encoded(row: Seq<InvertedEntry>, pre: Seq<u8>, post: Seq<u8>)
    requires
        forall|i: int| 0 <= i < row.len() ==> (#[trigger] row[i]).entry_id <= u32::MAX,
    ensures
        spec_encode_row(row).len() == 8 * row.len(),
        spec_read_row(pre + spec_encode_row(row) + post, pre.len() as int, row.len())
            == Ok::<(Seq<InvertedEntry>, int), FormatError>((row, (pre.len() + 8 * row.len()) as int)),
    decreases row.len(),
{
    lemma_auto_spec_u32_to_from_le_bytes();
    if row.len() > 0 {
        let p = row.drop_last();
        let e = row.last();
        let last = spec_u32_to_le_bytes(e.entry_id as u32) + spec_u32_to_le_bytes(e.word_weight);
        assert forall|i: int| 0 <= i < p.len() implies (#[trigger] p[i]).entry_id <= u32::MAX by {
            assert(p[i] == row[i]);
        }
        lemma_read_row_encoded(p, pre, last + post);
        let src = pre + spec_encode_row(row) + post;
        assert(src =~= pre + spec_encode_row(p) + (last + post));
        let q = (pre.len() + 8 * p.len()) as int;
        assert(spec_window(src, q, 4) =~= spec_u32_to_le_bytes(e.entry_id as u32));
        assert(spec_window(src, q + 4, 4) =~= spec_u32_to_le_bytes(e.word_weight));
        assert(row =~= p.push(InvertedEntry { entry_id: u32_at(src, q) as usize, word_weight: u32_at(src, q + 4) }));
    } else {
        assert(row =~= Seq::<InvertedEntry>::empty());
    }
}

/// Reading back encoded rows gives the rows
proof fn lemma_read_rows_encoded(rows: Seq<Seq<InvertedEntry>>, pre: Seq<u8>, post: Seq<u8>)
    requires
        row_ids_fit(rows),
    ensures
        spec_read_rows(pre + spec_encode_rows(rows) + post, pre.len() as int, spec_row_lens(rows))
            == Ok::<(Seq<Seq<InvertedEntry>>, int), FormatError>((rows, (pre.len() + spec_encode_rows(rows).len()) as int)),
    decreases rows.len(),
{
    if rows.len() > 0 {
        let p = rows.drop_last();
        let r = rows.last();
        assert(row_ids_fit(p)) by {
            assert forall|w: int, i: int| 0 <= w < p.len() && 0 <= i < p[w].len() implies (#[trigger] p[w][i]).entry_id <= u32::MAX by {
                assert(p[w] == rows[w]);
            }
        }
        lemma_read_rows_encoded(p, pre, spec_encode_row(r) + post);
        let src = pre + spec_encode_rows(rows) + post;
        assert(src =~= pre + spec_encode_rows(p) + (spec_encode_row(r) + post));
        let q = pre + spec_encode_rows(p);
        assert forall|i: int| 0 <= i < r.len() implies (#[trigger] r[i]).entry_id <= u32::MAX by {
            assert(rows[rows.len() - 1][i] == r[i]);
        }
        lemma_read_row_encoded(r, q, post);
        assert(src =~= q + spec_encode_row(r) + post);
        assert(spec_row_lens(rows).drop_last() =~= spec_row_lens(p));
        assert(spec_row_lens(rows).last() == r.len());
        assert(rows =~= p.push(r));
    } else {
        assert(spec_row_lens(rows) =~= Seq::<nat>::empty());
        assert(rows =~= Seq::<Seq<InvertedEntry>>::empty());
    }
}

/// Reading back the encoded features of the entries gives their maps
proof fn lemma_read_direct_encoded(ds: Seq<Map<u32, Seq<u32>>>, ess: Seq<Seq<(u32, Seq<u32>)>>, pre: Seq<u8>, post: Seq<u8>)
    requires
        ess.len() == ds.len(),
        forall|i: int| 0 <= i < ds.len() ==> lists_entries(ds[i], #[trigger] ess[i]),
        forall|i: int| 0 <= i < ds.len() ==> map_encodable(#[trigger] ds[i]),
    ensures
        spec_read_direct(pre + spec_encode_direct(ess) + post, pre.len() as int, ds.len())
            == Ok::<(Seq<Map<u32, Seq<u32>>>, int), FormatError>((ds, (pre.len() + spec_encode_direct(ess).len()) as int)),
    decreases ds.len(),
{
    if ds.len() > 0 {
        let pd = ds.drop_last();
        let pe = ess.drop_last();
        let es = ess.last();
        let tail = spec_encode_feature_entries(es);
        assert forall|i: int| 0 <= i < pd.len() implies lists_entries(pd[i], #[trigger] pe[i]) by {
            assert(pd[i] == ds[i] && pe[i] == ess[i]);
        }
        assert forall|i: int| 0 <= i < pd.len() implies map_encodable(#[trigger] pd[i]) by {
            assert(pd[i] == ds[i]);
        }
        lemma_read_direct_encoded(pd, pe, pre, tail + post);
        let src = pre + spec_encode_direct(ess) + post;
        assert(src =~= pre + spec_encode_direct(pe) + (tail + post));
        let head = pre + spec_encode_direct(pe);
        assert(lists_entries(ds.last(), es));
        lemma_listed_encodable(ds.last(), es);
        lemma_features_roundtrip(ds.last(), es, head, post);
        lemma_auto_spec_u32_to_from_le_bytes();
        assert(src =~= head + spec_u32_to_le_bytes(es.len() as u32) + spec_encode_entries(es) + post);
        assert(spec_encode_direct(ess) == spec_encode_direct(pe) + tail);
        assert(tail.len() == 4 + spec_encode_entries(es).len());
        let p_end = head.len() as int;
        assert(spec_read_direct(src, pre.len() as int, pd.len()) == Ok::<(Seq<Map<u32, Seq<u32>>>, int), FormatError>((pd, p_end)));
        assert(u32_at(src, p_end) == es.len());
        assert(spec_read_entries(src, p_end + 4, es.len()) == Ok::<(Seq<(u32, Seq<u32>)>, int), FormatError>(
            (es, (head.len() + 4 + spec_encode_entries(es).len()) as int)));
        assert(spec_map_of(es) == ds.last());
        assert(ds =~= pd.push(ds.last()));
    } else {
        assert(ds =~= Seq::<Map<u32, Seq<u32>>>::empty());
    }
}

/// The header fields read back from their encoding
proof fn lemma_read_db_header(len: nat, levels: nat, nwords: nat, direct: bool, pre: Seq<u8>, rest: Seq<u8>)
    requires
        len <= u32::MAX,
        levels <= u32::MAX,
        nwords <= u32::MAX,
    ensures
        ({
            let src = pre + spec_encode_db_header(len, levels, nwords, direct) + rest;
            let b = pre.len() as int;
            &&& spec_encode_db_header(len, levels, nwords, direct).len() == 21
            &&& u64_at(src, b) == DB_SER_VERSION
            &&& u32_at(src, b + 8) == len
            &&& u32_at(src, b + 12) == levels
            &&& u32_at(src, b + 16) == nwords
            &&& src[b + 20] == (if direct { 1u8 } else { 0u8 })
        }),
{
    lemma_auto_spec_u32_to_from_le_bytes();
    lemma_auto_spec_u64_to_from_le_bytes();
    let header = spec_encode_db_header(len, levels, nwords, direct);
    let src = pre + header + rest;
    let b = pre.len() as int;
    assert(spec_window(src, b, 8) =~= spec_u64_to_le_bytes(DB_SER_VERSION));
    assert(spec_window(src, b + 8, 4) =~= spec_u32_to_le_bytes(len as u32));
    assert(spec_window(src, b + 12, 4) =~= spec_u32_to_le_bytes(levels as u32));
    assert(spec_window(src, b + 16, 4) =~= spec_u32_to_le_bytes(nwords as u32));
}

/// Reading back what [`Database::write_to`] wrote gives, up to the
/// vocabulary, the database written: its number of entries, its levels,
/// its inverted rows and the features of its entries. The number of words
/// written is that of the vocabulary, so the rows must be one per word.
#[verifier::rlimit(40)]
pub proof fn lemma_db_body_roundtrip(db: Database, ess: Seq<Seq<(u32, Seq<u32>)>>, pre: Seq<u8>, post: Seq<u8>)
    requires
        db.spec_encodable(),
        db.lists_direct(ess),
        db.spec_rows().len() == db.spec_vocabulary().features.spec_len(),
    ensures
        spec_read_db_body(pre + db.spec_encode(ess) + post, pre.len() as int) matches Ok((body, p)) && body == (DbBody {
            len: db.spec_len(),
            levels: db.spec_levels(),
            direct: db.spec_direct(),
            rows: db.spec_rows(),
        }) && p + spec_encode_vocabulary(db.spec_vocabulary()).len() == pre.len() + db.spec_encode(ess).len(),
{
    let rows = db.spec_rows();
    let header = spec_encode_db_header(db.spec_len(), db.spec_levels(), db.spec_vocabulary().features.spec_len(), db.spec_direct() is Some);
    let lens_b = spec_encode_row_lens(rows);
    let rows_b = spec_encode_rows(rows);
    let direct_b = spec_encode_direct(ess);
    let voc_b = spec_encode_vocabulary(db.spec_vocabulary());
    let src = pre + db.spec_encode(ess) + post;
    let b = pre.len() as int;
    let r3 = voc_b + post;
    let r2 = direct_b + r3;
    let r1 = rows_b + r2;
    let r0 = lens_b + r1;
    assert(src =~= pre + header + r0);
    lemma_read_db_header(db.spec_len(), db.spec_levels(), db.spec_vocabulary().features.spec_len(), db.spec_direct() is Some, pre, r0);
    let h = pre + header;
    assert(src =~= h + lens_b + r1);
    lemma_read_row_lens_encoded(rows, h, r1);
    let hl = h + lens_b;
    assert(src =~= hl + rows_b + r2);
    lemma_read_rows_encoded(rows, hl, r2);
    if db.spec_direct() is Some {
        let ds = db.spec_direct()->Some_0;
        let hr = hl + rows_b;
        assert(src =~= hr + direct_b + r3);
        lemma_read_direct_encoded(ds, ess, hr, r3);
    }
}


/// A database written and read back is the database that was written: its
/// number of entries, levels, direct index and inverted rows, and its
/// vocabulary with the same parameters, root and features (a vocabulary
/// whose root has no branches, as every vocabulary that can be written)
#[verifier::rlimit(40)]
pub proof fn lemma_db_roundtrip(db: Database, ess: Seq<Seq<(u32, Seq<u32>)>>, pre: Seq<u8>, post: Seq<u8>)
    requires
        db.spec_encodable(),
        db.lists_direct(ess),
        db.spec_rows().len() == db.spec_vocabulary().features.spec_len(),
        spec_roundtrips(db.spec_vocabulary().params@),
        db.spec_vocabulary().features.wf(),
        db.spec_vocabulary().root.children is None,
    ensures
        !spec_read_db_panics(pre + db.spec_encode(ess) + post, pre.len() as int),
        spec_read_db(pre + db.spec_encode(ess) + post, pre.len() as int).1 matches Ok((body, VocabularyRead::Vfbow(vr)))
            && body == (DbBody {
                len: db.spec_len(),
                levels: db.spec_levels(),
                direct: db.spec_direct(),
                rows: db.spec_rows(),
            })
            && spec_features_match(db.spec_vocabulary().features, vr.features)
            && forall|w: Vocabulary| read_matches(w, VocabularyRead::Vfbow(vr)) ==>
                w.params@ == db.spec_vocabulary().params@ && w.root == db.spec_vocabulary().root
                && spec_features_match(w.features, vr.features),
{
    let v = db.spec_vocabulary();
    let src = pre + db.spec_encode(ess) + post;
    let b = pre.len() as int;
    lemma_db_body_roundtrip(db, ess, pre, post);
    let p = spec_read_db_body(src, b)->Ok_0.1;
    let voc_b = spec_encode_vocabulary(v);
    let head = src.take(p);
    assert(head.len() == p);
    assert(src =~= head + voc_b + post);
    lemma_vocabulary_roundtrip(v, head, post, spec_default_read_options());
    assert(spec_read_db(src, b).0 == spec_read_vocabulary(src, p, spec_default_read_options()).0);
}

} // verus!
