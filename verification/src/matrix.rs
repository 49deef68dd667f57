//! Row-major matrices of descriptors
use vstd::prelude::*;

verus! {

/// A matrix with one descriptor per row
#[derive(Debug)]
pub struct Matrix<T> {
    /// Number of columns (elements per descriptor)
    pub ncols: usize,
    /// The rows
    pub rows: Vec<Vec<T>>,
}

impl<T> Matrix<T> {
    /// Every row has `ncols` elements
    pub open spec fn wf(&self) -> bool {
        forall|i: int| 0 <= i < self.rows@.len() ==> (#[trigger] self.rows@[i])@.len() == self.ncols
    }

    /// The rows, as sequences
    pub open spec fn spec_rows(&self) -> Seq<Seq<T>> {
        self.rows@.map_values(|r: Vec<T>| r@)
    }

    /// Number of rows
    pub fn nrows(&self) -> (n: usize)
        ensures
            n == self.rows@.len(),
    {
        self.rows.len()
    }

    /// Number of columns
    pub fn ncols(&self) -> (n: usize)
        ensures
            n == self.ncols,
    {
        self.ncols
    }
}

} // verus!
