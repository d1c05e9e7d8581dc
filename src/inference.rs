use vstd::prelude::*;

verus! {

/// An inference procedure that computes the marginals of a model.
pub trait Inference {
    type Marginals;

    fn sum_product_algorithm(&self) -> Self::Marginals;
}

} // verus!
