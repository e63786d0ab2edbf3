use vstd::prelude::*;

pub mod relation_matrix;
pub mod relations;

verus! {

} // verus!
