//! Hamming (L1) distance between binary descriptors, and the nearest-feature query
use vstd::prelude::*;

verus! {

/// Number of set bits of a byte
pub open spec fn popcount(x: u8) -> nat
    decreases x,
{
    if x == 0 {
        0
    } else {
        (x % 2) as nat + popcount(x / 2)
    }
}

/// Hamming distance between two byte strings of the same length: the number of
/// bit positions in which they differ
pub open spec fn hamming(a: Seq<u8>, b: Seq<u8>) -> nat
    decreases a.len(),
{
    if a.len() == 0 || b.len() == 0 {
        0
    } else {
        popcount(a.last() ^ b.last()) + hamming(a.drop_last(), b.drop_last())
    }
}

/// `i` is the first position of a least value of `d`
pub open spec fn is_first_argmin(d: Seq<nat>, i: int) -> bool {
    &&& 0 <= i < d.len()
    &&& forall|j: int| 0 <= j < d.len() ==> d[i] <= #[trigger] d[j]
    &&& forall|j: int| 0 <= j < i ==> d[i] < #[trigger] d[j]
}

/// The first position of a least value of `d` (0 when `d` is empty)
pub open spec fn first_argmin(d: Seq<nat>) -> nat
    decreases d.len(),
{
    if d.len() <= 1 {
        0
    } else {
        let k = first_argmin(d.drop_last());
        if d[k as int] <= d.last() {
            k
        } else {
            (d.len() - 1) as nat
        }
    }
}

pub proof fn lemma_first_argmin(d: Seq<nat>)
    requires
        d.len() > 0,
    ensures
        is_first_argmin(d, first_argmin(d) as int),
    decreases d.len(),
{
    if d.len() > 1 {
        lemma_first_argmin(d.drop_last());
        let k = first_argmin(d.drop_last());
        let p = d.drop_last();
        assert forall|j: int| 0 <= j < d.len() - 1 implies d[j] == #[trigger] p[j] by {}
        if d[k as int] <= d.last() {
            assert forall|j: int| 0 <= j < d.len() implies d[k as int] <= #[trigger] d[j] by {
                if j < d.len() - 1 {
                    assert(p[k as int] <= p[j]);
                }
            }
            assert forall|j: int| 0 <= j < k implies d[k as int] < #[trigger] d[j] by {
                assert(p[k as int] < p[j]);
            }
        } else {
            let m = d.len() - 1;
            assert forall|j: int| 0 <= j < d.len() implies d[m] <= #[trigger] d[j] by {
                if j < d.len() - 1 {
                    assert(p[k as int] <= p[j]);
                }
            }
            assert forall|j: int| 0 <= j < m implies d[m] < #[trigger] d[j] by {
                assert(p[k as int] <= p[j]);
            }
        }
    }
}

pub proof fn lemma_first_argmin_unique(d: Seq<nat>, i: int)
    requires
        is_first_argmin(d, i),
    ensures
        first_argmin(d) == i,
{
    lemma_first_argmin(d);
    let k = first_argmin(d) as int;
    if k < i {
        assert(d[i] < d[k]);
    } else if i < k {
        assert(d[k] < d[i]);
    }
}

/// Number of set bits of a byte
pub fn count_ones_u8(x: u8) -> (n: u32)
    ensures
        n == popcount(x),
        n <= 8,
{
    let mut y: u8 = x;
    let mut n: u32 = 0;
    let mut steps: u32 = 0;
    proof {
        reveal_with_fuel(pow2_u8, 9);
    }
    while y != 0
        invariant
            n + popcount(y) == popcount(x),
            steps <= 8,
            y < pow2_u8(8 - steps),
            n <= steps,
        decreases y,
    {
        proof {
            lemma_pow2_u8_halves(steps);
        }
        n = n + (y % 2) as u32;
        y = y / 2;
        steps = steps + 1;
    }
    n
}

/// 2 to the power `8 - ...`, as an upper bound on a byte that is halved
pub open spec fn pow2_u8(e: int) -> int
    decreases e,
{
    if e <= 0 {
        1
    } else {
        2 * pow2_u8(e - 1)
    }
}

proof fn lemma_pow2_u8_halves(steps: u32)
    requires
        steps <= 8,
    ensures
        steps < 8 ==> pow2_u8(8 - steps) == 2 * pow2_u8(8 - steps - 1),
        steps == 8 ==> pow2_u8(8 - steps) == 1,
{
    reveal_with_fuel(pow2_u8, 9);
}

/// Hamming distance between two byte strings of the same length
pub fn hamming_distance(a: &[u8], b: &[u8]) -> (d: u32)
    requires
        a@.len() == b@.len(),
        a@.len() <= 0x1fff_ffff,
    ensures
        d == hamming(a@, b@),
{
    let mut i: usize = 0;
    let mut d: u32 = 0;
    while i < a.len()
        invariant
            i <= a@.len(),
            a@.len() == b@.len(),
            a@.len() <= 0x1fff_ffff,
            d == hamming(a@.take(i as int), b@.take(i as int)),
            d <= 8 * i,
        decreases a@.len() - i,
    {
        let c = count_ones_u8(a[i] ^ b[i]);
        proof {
            let ai = a@.take(i + 1);
            let bi = b@.take(i + 1);
            assert(ai.drop_last() =~= a@.take(i as int));
            assert(bi.drop_last() =~= b@.take(i as int));
            assert(ai.last() == a@[i as int]);
            assert(bi.last() == b@[i as int]);
        }
        d = d + c;
        i = i + 1;
    }
    assert(a@.take(i as int) =~= a@);
    assert(b@.take(i as int) =~= b@);
    d
}

/// A query that finds, among consecutive features, the one nearest to a value
pub trait DistanceQuery {
    /// Number of features that the query searches
    spec fn spec_num_features(&self) -> nat;

    /// Position within `offset..offset+len` (counted from `offset`) of the
    /// feature nearest to the value
    spec fn spec_min_index(&self, offset: nat, len: nat) -> nat;

    /// Find the feature nearest to the value among `offset..offset+len`,
    /// returning its position counted from `offset`
    fn min_index(&self, offset: usize, len: usize) -> (r: usize)
        requires
            len > 0,
            offset + len <= self.spec_num_features(),
        ensures
            r == self.spec_min_index(offset as nat, len as nat),
            r < len,
    ;
}

} // verus!
