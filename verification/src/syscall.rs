//! The decision logic of the system calls, over models of the state they read.
pub mod sync;
pub mod process;
