// Inference on pairwise Markov random fields over finite state spaces: the model, the message
// store and its round schedule, and the backpointer traceback of max-product decoding.
use vstd::prelude::*;

pub mod alphabets;
pub mod bayes;
pub mod error;
pub mod factor_graph;
pub mod graph;
pub mod inference;
pub mod markov;
pub mod text;
pub mod utils;

verus! {

} // verus!
