use vstd::prelude::*;

verus! {

/// Scaling of a matrix so that each of its columns has 1-norm one.
pub trait OneNormalize {
    /// The matrix with each column divided by its 1-norm.
    fn one_normalize(self) -> Self;

    /// Divides each column of the matrix by its 1-norm, in place.
    fn one_normalize_inplace(&mut self);
}

} // verus!
