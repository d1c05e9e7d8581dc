use vstd::prelude::*;

pub mod testing;

verus! {

} // verus!
