use vstd::prelude::*;

pub mod codec;
pub mod node;
pub mod graph;
pub mod sampler;

verus! {

} // verus!
