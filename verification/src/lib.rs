use vstd::prelude::*;

pub mod filesystem;
pub mod kernel;
pub mod laws;
pub mod mm;
pub mod syscall;
pub mod task;

verus! {

} // verus!
