use vstd::prelude::*;

pub mod model;
pub mod laws;
pub mod mlfq;

verus! {

} // verus!
