//! The syscalls, each a step of the kernel state.
pub mod fs;
pub mod process;
