use vstd::prelude::*;

pub mod stage0;
pub mod stage1;
pub mod worker;

verus! {

} // verus!
