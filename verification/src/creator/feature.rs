//! The training features, seen as one list of `u8` descriptors
use vstd::prelude::*;
use crate::matrix::Matrix;
use super::CreateVocabularyError;

verus! {

/// The matrices that hold at least one row
pub open spec fn spec_kept<T>(ms: Seq<Matrix<T>>) -> Seq<Matrix<T>>
    decreases ms.len(),
{
    if ms.len() == 0 {
        Seq::empty()
    } else {
        let rest = spec_kept(ms.drop_first());
        if ms[0].rows@.len() > 0 {
            seq![ms[0]] + rest
        } else {
            rest
        }
    }
}

/// The rows of all the matrices, in order
pub open spec fn spec_all_rows<T>(ms: Seq<Matrix<T>>) -> Seq<Seq<T>>
    decreases ms.len(),
{
    if ms.len() == 0 {
        Seq::empty()
    } else {
        spec_all_rows(ms.drop_last()) + ms.last().spec_rows()
    }
}

/// Gathering the features of the matrices `ms`: the matrices without rows
/// are left out; none of the others may have zero columns, and they must
/// all have the columns of the first
pub open spec fn spec_feature_info<T>(ms: Seq<Matrix<T>>) -> Result<Seq<Seq<T>>, CreateVocabularyError> {
    let kept = spec_kept(ms);
    if kept.len() == 0 {
        Err(CreateVocabularyError::NoFeatures)
    } else if exists|i: int| 0 <= i < kept.len() && (#[trigger] kept[i]).ncols == 0 {
        Err(CreateVocabularyError::EmptyFeature)
    } else if exists|i: int| 0 <= i < kept.len() && (#[trigger] kept[i]).ncols != kept[0].ncols {
        Err(CreateVocabularyError::ArrayDimMismatch)
    } else {
        Ok(spec_all_rows(kept))
    }
}

/// The rows of `rows`, as sequences
pub open spec fn rows_view<T>(rows: Seq<Vec<T>>) -> Seq<Seq<T>> {
    rows.map_values(|r: Vec<T>| r@)
}

/// Gather the rows of the matrices, leaving out those without rows; none
/// of the others may have zero columns, and they must all have the columns
/// of the first. Returns the rows and
/// their number of columns.
pub fn gather_rows<T>(features: Vec<Matrix<T>>) -> (r: Result<(Vec<Vec<T>>, usize), CreateVocabularyError>)
    requires
        forall|i: int| 0 <= i < features@.len() ==> (#[trigger] features@[i]).wf(),
    ensures
        match spec_feature_info(features@) {
            Ok(rows) => r is Ok && rows_view(r->Ok_0.0@) == rows && r->Ok_0.1 == spec_kept(features@)[0].ncols
                && r->Ok_0.1 > 0,
            Err(e) => r == Err::<(Vec<Vec<T>>, usize), CreateVocabularyError>(e),
        },
        r is Ok ==> forall|i: int| 0 <= i < r->Ok_0.0@.len() ==> (#[trigger] r->Ok_0.0@[i])@.len() == r->Ok_0.1,
{
    let ghost orig = features@;
    let mut rest = features;
    let mut kept: Vec<Matrix<T>> = Vec::new();
    while rest.len() > 0
        invariant
            spec_kept(orig) == kept@ + spec_kept(rest@),
            forall|i: int| 0 <= i < rest@.len() ==> (#[trigger] rest@[i]).wf(),
            forall|i: int| 0 <= i < kept@.len() ==> (#[trigger] kept@[i]).wf(),
        decreases rest@.len(),
    {
        let ghost before = rest@;
        let m = rest.remove(0);
        assert(before.drop_first() =~= rest@);
        assert(before[0] == m);
        if m.rows.len() > 0 {
            kept.push(m);
        }
        assert(spec_kept(orig) =~= kept@ + spec_kept(rest@));
    }
    assert(kept@ =~= spec_kept(orig));
    if kept.len() == 0 {
        return Err(CreateVocabularyError::NoFeatures);
    }
    let mut z: usize = 0;
    while z < kept.len()
        invariant
            z <= kept@.len(),
            kept@ == spec_kept(orig),
            orig == features@,
            forall|i: int| 0 <= i < kept@.len() ==> (#[trigger] kept@[i]).wf(),
            forall|i: int| 0 <= i < z ==> (#[trigger] kept@[i]).ncols != 0,
        decreases kept@.len() - z,
    {
        if kept[z].ncols == 0 {
            assert(kept@[z as int].ncols == 0);
            return Err(CreateVocabularyError::EmptyFeature);
        }
        z = z + 1;
    }
    let desc_cols = kept[0].ncols;
    let mut k: usize = 0;
    while k < kept.len()
        invariant
            k <= kept@.len(),
            kept@.len() > 0,
            kept@ == spec_kept(orig),
            orig == features@,
            desc_cols == kept@[0].ncols,
            desc_cols > 0,
            forall|i: int| 0 <= i < kept@.len() ==> (#[trigger] kept@[i]).ncols != 0,
            forall|i: int| 0 <= i < k ==> (#[trigger] kept@[i]).ncols == desc_cols,
        decreases kept@.len() - k,
    {
        if kept[k].ncols != desc_cols {
            assert(kept@[k as int].ncols != kept@[0].ncols);
            return Err(CreateVocabularyError::ArrayDimMismatch);
        }
        k = k + 1;
    }
    proof {
        if exists|i: int| 0 <= i < kept@.len() && (#[trigger] kept@[i]).ncols != kept@[0].ncols {
            let i = choose|i: int| 0 <= i < kept@.len() && (#[trigger] kept@[i]).ncols != kept@[0].ncols;
            assert(kept@[i].ncols == desc_cols);
        }
    }
    let ghost all = kept@;
    let mut out: Vec<Vec<T>> = Vec::new();
    let mut midx: usize = 0;
    let n = kept.len();
    assert(rows_view(out@) =~= spec_all_rows(all.take(0)));
    while midx < n
        invariant
            midx <= n,
            n == all.len(),
            kept@.len() == n - midx,
            forall|i: int| 0 <= i < kept@.len() ==> #[trigger] kept@[i] == all[midx + i],
            rows_view(out@) == spec_all_rows(all.take(midx as int)),
            forall|i: int| 0 <= i < n ==> (#[trigger] all[i]).wf() && all[i].ncols == desc_cols,
            forall|i: int| 0 <= i < out@.len() ==> (#[trigger] out@[i])@.len() == desc_cols,
        decreases n - midx,
    {
        let ghost before = kept@;
        let m = kept.remove(0);
        assert(m == all[midx as int]);
        assert forall|i: int| 0 <= i < kept@.len() implies #[trigger] kept@[i] == all[midx + 1 + i] by {
            assert(kept@[i] == before[i + 1]);
        }
        let mut rows = m.rows;
        let ghost mrows = rows@;
        assert(m.wf() && m.ncols == desc_cols);
        let ghost start = rows_view(out@);
        let mut j: usize = 0;
        let nr = rows.len();
        while j < nr
            invariant
                j <= nr,
                nr == mrows.len(),
                rows@.len() == nr - j,
                forall|i: int| 0 <= i < rows@.len() ==> #[trigger] rows@[i] == mrows[j + i],
                rows_view(out@) == start + rows_view(mrows.take(j as int)),
                forall|i: int| 0 <= i < nr ==> (#[trigger] mrows[i])@.len() == desc_cols,
                forall|i: int| 0 <= i < out@.len() ==> (#[trigger] out@[i])@.len() == desc_cols,
            decreases nr - j,
        {
            let ghost b2 = rows@;
            let ghost o2 = out@;
            let r = rows.remove(0);
            assert(r == mrows[j as int]);
            assert forall|i: int| 0 <= i < rows@.len() implies #[trigger] rows@[i] == mrows[j + 1 + i] by {
                assert(rows@[i] == b2[i + 1]);
            }
            out.push(r);
            proof {
                assert(mrows.take(j + 1) =~= mrows.take(j as int).push(r));
                assert(rows_view(mrows.take(j + 1)) =~= rows_view(mrows.take(j as int)).push(r@));
                assert(rows_view(out@) =~= rows_view(o2).push(r@));
            }
            j = j + 1;
            assert(rows_view(out@) =~= start + rows_view(mrows.take(j as int)));
        }
        proof {
            assert(mrows.take(j as int) =~= mrows);
            let ms = all.take(midx + 1);
            assert(ms.drop_last() =~= all.take(midx as int));
            assert(rows_view(mrows) =~= all[midx as int].spec_rows());
        }
        midx = midx + 1;
    }
    assert(all.take(n as int) =~= all);
    Ok((out, desc_cols))
}

/// The training features as one list: for each, the matrix and row it is in
pub struct FeatureInfo {
    finfo: Vec<(usize, usize)>,
    features: Vec<Matrix<u8>>,
}

impl View for FeatureInfo {
    type V = Seq<Seq<u8>>;

    closed spec fn view(&self) -> Seq<Seq<u8>> {
        Seq::new(self.finfo@.len(), |i: int| self.features@[self.finfo@[i].0 as int].rows@[self.finfo@[i].1 as int]@)
    }
}

impl FeatureInfo {
    /// Number of elements of every feature
    pub closed spec fn spec_feature_len(&self) -> nat {
        self.features@[0].ncols as nat
    }

    #[verifier::type_invariant]
    closed spec fn inv(&self) -> bool {
        &&& self.features@.len() > 0
        &&& self.features@[0].ncols > 0
        &&& forall|m: int| 0 <= m < self.features@.len() ==> (#[trigger] self.features@[m]).wf()
            && self.features@[m].ncols == self.features@[0].ncols
        &&& forall|i: int| 0 <= i < self.finfo@.len() ==> {
            let (m, r) = #[trigger] self.finfo@[i];
            m < self.features@.len() && r < self.features@[m as int].rows@.len()
        }
    }

    /// Every feature has the feature length, which is not zero
    pub fn rows_len_fact(&self)
        ensures
            self.spec_feature_len() > 0,
            forall|i: int| 0 <= i < self@.len() ==> (#[trigger] self@[i]).len() == self.spec_feature_len(),
    {
        proof {
            use_type_invariant(self);
            assert forall|i: int| 0 <= i < self@.len() implies (#[trigger] self@[i]).len() == self.spec_feature_len() by {
                let (m, r) = self.finfo@[i];
                assert(self.features@[m as int].wf());
            }
        }
    }

    /// Create from a list of matrices; they are taken as one list of their rows
    pub fn create(features: Vec<Matrix<u8>>) -> (r: Result<Self, CreateVocabularyError>)
        requires
            forall|i: int| 0 <= i < features@.len() ==> (#[trigger] features@[i]).wf(),
        ensures
            match spec_feature_info(features@) {
                Ok(rows) => r is Ok && r->Ok_0@ == rows && r->Ok_0.spec_feature_len() == spec_kept(features@)[0].ncols,
                Err(e) => r == Err::<Self, CreateVocabularyError>(e),
            },
    {
        let ghost orig = features@;
        let mut rest = features;
        let mut kept: Vec<Matrix<u8>> = Vec::new();
        while rest.len() > 0
            invariant
                spec_kept(orig) == kept@ + spec_kept(rest@),
                forall|i: int| 0 <= i < rest@.len() ==> (#[trigger] rest@[i]).wf(),
                forall|i: int| 0 <= i < kept@.len() ==> (#[trigger] kept@[i]).wf(),
            decreases rest@.len(),
        {
            let ghost before = rest@;
            let m = rest.remove(0);
            assert(before.drop_first() =~= rest@);
            assert(rest@.len() >= 0 && before[0] == m);
            if m.rows.len() > 0 {
                kept.push(m);
                assert(spec_kept(orig) =~= kept@ + spec_kept(rest@));
            } else {
                assert(spec_kept(orig) =~= kept@ + spec_kept(rest@));
            }
        }
        assert(kept@ =~= spec_kept(orig));
        if kept.len() == 0 {
            return Err(CreateVocabularyError::NoFeatures);
        }
        let mut z: usize = 0;
        while z < kept.len()
            invariant
                z <= kept@.len(),
                kept@ == spec_kept(orig),
                orig == features@,
                forall|i: int| 0 <= i < kept@.len() ==> (#[trigger] kept@[i]).wf(),
                forall|i: int| 0 <= i < z ==> (#[trigger] kept@[i]).ncols != 0,
            decreases kept@.len() - z,
        {
            if kept[z].ncols == 0 {
                assert(kept@[z as int].ncols == 0);
                return Err(CreateVocabularyError::EmptyFeature);
            }
            z = z + 1;
        }
        let desc_cols = kept[0].ncols;
        let mut finfo: Vec<(usize, usize)> = Vec::new();
        let mut midx: usize = 0;
        while midx < kept.len()
            invariant
                midx <= kept@.len(),
                kept@ == spec_kept(orig),
                orig == features@,
                desc_cols == kept@[0].ncols,
                desc_cols > 0,
                kept@.len() > 0,
                forall|i: int| 0 <= i < kept@.len() ==> (#[trigger] kept@[i]).ncols != 0,
                forall|i: int| 0 <= i < kept@.len() ==> (#[trigger] kept@[i]).wf(),
                forall|i: int| 0 <= i < midx ==> (#[trigger] kept@[i]).ncols == desc_cols,
                forall|i: int| 0 <= i < finfo@.len() ==> {
                    let (m, r) = #[trigger] finfo@[i];
                    m < midx && r < kept@[m as int].rows@.len()
                },
                Seq::new(finfo@.len(), |i: int| kept@[finfo@[i].0 as int].rows@[finfo@[i].1 as int]@)
                    == spec_all_rows(kept@.take(midx as int)),
            decreases kept@.len() - midx,
        {
            if kept[midx].ncols != desc_cols {
                assert(kept@[midx as int].ncols != kept@[0].ncols);
                return Err(CreateVocabularyError::ArrayDimMismatch);
            }
            let nrows = kept[midx].rows.len();
            let ghost base = finfo@;
            let ghost prefix = spec_all_rows(kept@.take(midx as int));
            assert(forall|q: int| 0 <= q < base.len() ==> {
                let (m, r) = #[trigger] base[q];
                m < midx && r < kept@[m as int].rows@.len()
            });
            let mut i: usize = 0;
            while i < nrows
                invariant
                    i <= nrows,
                    midx < kept@.len(),
                    nrows == kept@[midx as int].rows@.len(),
                    finfo@.len() == base.len() + i,
                    forall|q: int| 0 <= q < base.len() ==> finfo@[q] == base[q],
                    forall|q: int| base.len() <= q < base.len() + i ==> #[trigger] finfo@[q] == (midx, (q - base.len()) as usize),
                decreases nrows - i,
            {
                finfo.push((midx, i));
                i = i + 1;
            }
            proof {
                let ms = kept@.take(midx + 1);
                assert(ms.drop_last() =~= kept@.take(midx as int));
                assert(ms.last() == kept@[midx as int]);
                assert forall|q: int| 0 <= q < finfo@.len() implies {
                    let (m, r) = #[trigger] finfo@[q];
                    m < midx + 1 && r < kept@[m as int].rows@.len()
                } by {
                    if q >= base.len() {
                        assert(finfo@[q] == (midx, (q - base.len()) as usize));
                    } else {
                        assert(finfo@[q] == base[q]);
                        let (m, r) = base[q];
                        assert(m < midx && r < kept@[m as int].rows@.len());
                    }
                }
                let view = Seq::new(finfo@.len(), |q: int| kept@[finfo@[q].0 as int].rows@[finfo@[q].1 as int]@);
                let old_view = Seq::new(base.len(), |q: int| kept@[base[q].0 as int].rows@[base[q].1 as int]@);
                assert(old_view == prefix);
                assert forall|q: int| 0 <= q < view.len() implies #[trigger] view[q] == (prefix + kept@[midx as int].spec_rows())[q] by {
                    if q < base.len() {
                        assert(view[q] == old_view[q]);
                    } else {
                        assert(finfo@[q] == (midx, (q - base.len()) as usize));
                    }
                }
                assert(view =~= spec_all_rows(ms));
            }
            midx = midx + 1;
        }
        assert(kept@.take(midx as int) =~= kept@);
        proof {
            if exists|i: int| 0 <= i < kept@.len() && (#[trigger] kept@[i]).ncols != kept@[0].ncols {
                let i = choose|i: int| 0 <= i < kept@.len() && (#[trigger] kept@[i]).ncols != kept@[0].ncols;
                assert(kept@[i].ncols == desc_cols);
            }
        }
        let fi = FeatureInfo { finfo, features: kept };
        assert(fi@ =~= spec_all_rows(spec_kept(orig)));
        Ok(fi)
    }

    /// Feature length
    pub fn feature_len(&self) -> (n: usize)
        ensures
            n == self.spec_feature_len(),
            n > 0,
    {
        proof {
            use_type_invariant(self);
        }
        self.features[0].ncols
    }

    /// Total number of rows
    pub fn len(&self) -> (n: usize)
        ensures
            n == self@.len(),
    {
        self.finfo.len()
    }

    /// Get the feature at `i`
    pub fn get(&self, i: usize) -> (f: &[u8])
        requires
            i < self@.len(),
        ensures
            f@ == self@[i as int],
    {
        proof {
            use_type_invariant(self);
        }
        let (m, r) = self.finfo[i];
        self.features[m].rows[r].as_slice()
    }
}

/// Bit `b` of `x`
pub open spec fn bit_of(x: u8, b: u8) -> bool {
    (x >> b) & 1u8 == 1u8
}

/// The byte made of the bits below `b` that `f` selects
pub open spec fn byte_of_bits(f: spec_fn(u8) -> bool, b: u8) -> u8
    decreases b,
{
    if b == 0 {
        0
    } else {
        let p = byte_of_bits(f, (b - 1) as u8);
        if f((b - 1) as u8) { p | (1u8 << ((b - 1) as u8)) } else { p }
    }
}

/// Number of the features `idx` of `fs` whose byte `j` has bit `b` set
pub open spec fn bit_count(fs: Seq<Seq<u8>>, idx: Seq<u32>, j: int, b: u8) -> nat
    decreases idx.len(),
{
    if idx.len() == 0 {
        0
    } else {
        bit_count(fs, idx.drop_last(), j, b) + (if bit_of(fs[idx.last() as int][j], b) { 1nat } else { 0nat })
    }
}

/// Half of `n`, rounded up
pub open spec fn majority_threshold(n: nat) -> nat {
    n / 2 + n % 2
}

/// A bit is set in the mean when at least half of the features (rounded
/// up), and at least one, have it set
pub open spec fn mean_bit(count: nat, n: nat) -> bool {
    count >= majority_threshold(n) && count > 0
}

/// The bitwise mean of the features `idx` of `fs`, of `d` bytes: a bit is
/// set when at least half of the features (rounded up), and at least one,
/// have it set; the mean of copies of one feature is that feature
pub open spec fn spec_mean(fs: Seq<Seq<u8>>, idx: Seq<u32>, d: nat) -> Seq<u8> {
    Seq::new(d, |j: int| byte_of_bits(|b: u8| mean_bit(bit_count(fs, idx, j, b), idx.len()), 8))
}

impl FeatureInfo {
    /// Compute the bitwise mean of the features `indices`: a bit is set when
    /// it is set in at least half of them (rounded up), and in at least one
    pub fn mean_value(&self, indices: &[u32]) -> (mean: Vec<u8>)
        requires
            forall|i: int| 0 <= i < indices@.len() ==> (#[trigger] indices@[i]) < self@.len(),
        ensures
            mean@ == spec_mean(self@, indices@, self.spec_feature_len()),
    {
        self.rows_len_fact();
        let n = indices.len();
        let threshold: usize = n / 2 + n % 2;
        let d = self.feature_len();
        let ghost fs = self@;
        let ghost idx = indices@;
        let mut mean: Vec<u8> = Vec::with_capacity(d);
        let mut j: usize = 0;
        while j < d
            invariant
                j <= d,
                d == self.spec_feature_len(),
                fs == self@,
                idx == indices@,
                n == idx.len(),
                threshold == majority_threshold(n as nat),
                forall|i: int| 0 <= i < idx.len() ==> (#[trigger] idx[i]) < fs.len(),
                forall|i: int| 0 <= i < fs.len() ==> (#[trigger] fs[i]).len() == d,
                mean@ == spec_mean(fs, idx, d as nat).take(j as int),
            decreases d - j,
        {
            let ghost f = |b: u8| mean_bit(bit_count(fs, idx, j as int, b), idx.len());
            let mut byte: u8 = 0;
            let mut b: u8 = 0;
            while b < 8
                invariant
                    b <= 8,
                    j < d,
                    fs == self@,
                    idx == indices@,
                    n == idx.len(),
                    threshold == majority_threshold(n as nat),
                    forall|i: int| 0 <= i < idx.len() ==> (#[trigger] idx[i]) < fs.len(),
                    forall|i: int| 0 <= i < fs.len() ==> (#[trigger] fs[i]).len() == d,
                    f == (|b: u8| mean_bit(bit_count(fs, idx, j as int, b), idx.len())),
                    byte == byte_of_bits(f, b),
                decreases 8 - b,
            {
                let mut count: usize = 0;
                let mut i: usize = 0;
                while i < n
                    invariant
                        i <= n,
                        b < 8,
                        j < d,
                        fs == self@,
                        idx == indices@,
                        n == idx.len(),
                        forall|q: int| 0 <= q < idx.len() ==> (#[trigger] idx[q]) < fs.len(),
                        forall|q: int| 0 <= q < fs.len() ==> (#[trigger] fs[q]).len() == d,
                        count == bit_count(fs, idx.take(i as int), j as int, b),
                        count <= i,
                    decreases n - i,
                {
                    let feature = self.get(indices[i] as usize);
                    let x = feature[j];
                    proof {
                        assert(idx.take(i + 1).drop_last() =~= idx.take(i as int));
                        assert(idx.take(i + 1).last() == idx[i as int]);
                    }
                    if (x >> b) & 1u8 == 1u8 {
                        count = count + 1;
                    }
                    i = i + 1;
                }
                assert(idx.take(n as int) =~= idx);
                if count >= threshold && count > 0 {
                    byte = byte | (1u8 << b);
                }
                b = b + 1;
            }
            mean.push(byte);
            j = j + 1;
            assert(mean@ =~= spec_mean(fs, idx, d as nat).take(j as int));
        }
        assert(mean@ =~= spec_mean(fs, idx, d as nat));
        mean
    }
}

} // verus!
