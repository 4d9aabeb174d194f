//! A ready-made integer reducer: sum over `u64`, saturating at the maximum.

use crate::segment_tree::Reducer;
use vstd::prelude::*;

verus! {

/// A `u64` combined by saturating addition: the exact sum where it fits in
/// the type, else `u64::MAX`. Saturating addition is associative and has 0
/// as a two-sided identity, so the `Reducer` laws hold; on inputs whose
/// total stays below `u64::MAX` it is plain integer summing.
#[derive(Clone, Copy, Debug, PartialEq, Eq, Structural)]
pub struct IntSum(pub u64);

impl Reducer for IntSum {
    open spec fn spec_reduce(self, other: Self) -> Self {
        if self.0 + other.0 <= u64::MAX {
            IntSum((self.0 + other.0) as u64)
        } else {
            IntSum(u64::MAX)
        }
    }

    open spec fn spec_identity() -> Self {
        IntSum(0)
    }

    proof fn lemma_reduce_associative(a: Self, b: Self, c: Self) {
    }

    proof fn lemma_identity(x: Self) {
    }

    fn reduce(&self, other: Self) -> (r: Self) {
        if self.0 <= u64::MAX - other.0 {
            IntSum(self.0 + other.0)
        } else {
            IntSum(u64::MAX)
        }
    }

    fn identity() -> (r: Self) {
        IntSum(0)
    }

    fn dup(&self) -> (r: Self) {
        IntSum(self.0)
    }
}

} // verus!
