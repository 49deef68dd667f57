//! Nearest-feature queries whose distances are given, one key per feature:
//! for features whose distances the library cannot compute itself
use vstd::prelude::*;
use super::distance::{DistanceQuery, first_argmin, is_first_argmin, lemma_first_argmin_unique};

verus! {

/// A query over features whose distances to the value are given as keys
/// (a smaller key for a nearer feature): the nearest feature of a range is
/// the first of least key
pub struct KeyedQuery {
    /// The key of each feature
    pub keys: Vec<u32>,
}

/// The keys of `len` features from `offset`, as numbers
pub open spec fn key_window(keys: Seq<u32>, offset: nat, len: nat) -> Seq<nat> {
    Seq::new(len, |i: int| keys[offset + i] as nat)
}

impl DistanceQuery for KeyedQuery {
    open spec fn spec_num_features(&self) -> nat {
        self.keys@.len()
    }

    /// The first feature of least key
    open spec fn spec_min_index(&self, offset: nat, len: nat) -> nat {
        first_argmin(key_window(self.keys@, offset, len))
    }

    fn min_index(&self, offset: usize, len: usize) -> (r: usize) {
        let ghost d = key_window(self.keys@, offset as nat, len as nat);
        let n = self.keys.len();
        let mut best: usize = 0;
        let mut best_key: u32 = self.keys[offset];
        let mut i: usize = 1;
        while i < len
            invariant
                1 <= i <= len,
                best < i,
                offset + len <= self.keys@.len(),
                n == self.keys@.len(),
                d == key_window(self.keys@, offset as nat, len as nat),
                best_key == d[best as int],
                is_first_argmin(d.take(i as int), best as int),
            decreases len - i,
        {
            let ki = self.keys[offset + i];
            proof {
                assert(d.take(i + 1).drop_last() =~= d.take(i as int));
            }
            if ki < best_key {
                best = i;
                best_key = ki;
            }
            i = i + 1;
            proof {
                let t = d.take(i as int);
                let p = d.take(i - 1);
                assert forall|j: int| 0 <= j < t.len() - 1 implies t[j] == #[trigger] p[j] by {}
                assert forall|j: int| 0 <= j < t.len() implies t[best as int] <= #[trigger] t[j] by {
                    if j < t.len() - 1 {
                        assert(p[j] == t[j]);
                    }
                }
                assert forall|j: int| 0 <= j < best implies t[best as int] < #[trigger] t[j] by {
                    if j < t.len() - 1 {
                        assert(p[j] == t[j]);
                    }
                }
            }
        }
        proof {
            assert(d.take(len as int) =~= d);
            lemma_first_argmin_unique(d, best as int);
        }
        best
    }
}

} // verus!
