//! The decision logic of the system calls.
pub mod fs;
pub mod process;
