//! Names of the ways two bags of words are compared and normalized
use vstd::prelude::*;

verus! {

/// How two bags of words are scored against each other
#[derive(Copy, Clone, Debug, PartialEq, Eq, Structural)]
pub enum Scoring {
    L1,
    L2,
    ChiSquare,
    KL,
    Bhattacharyya,
    DotProduct,
}

/// Norm of a bag of words
#[derive(Copy, Clone, Debug, PartialEq, Eq, Structural)]
pub enum LNorm {
    /// L1 norm (manhattan distance)
    L1,
    /// L2 norm (euclidean distance)
    L2,
}

impl LNorm {
    /// The order of the norm: 1 or 2
    pub fn order(&self) -> (p: u32)
        ensures
            p == (match self {
                LNorm::L1 => 1u32,
                LNorm::L2 => 2u32,
            }),
    {
        match self {
            LNorm::L1 => 1,
            LNorm::L2 => 2,
        }
    }

    /// The scoring that goes with the norm
    pub fn scoring(&self) -> (s: Scoring)
        ensures
            s == (match self {
                LNorm::L1 => Scoring::L1,
                LNorm::L2 => Scoring::L2,
            }),
    {
        match self {
            LNorm::L1 => Scoring::L1,
            LNorm::L2 => Scoring::L2,
        }
    }
}

} // verus!
