//! Deadlock avoidance with the banker's algorithm, and the decision logic of
//! the process and synchronisation system calls of a small teaching kernel.
pub mod id_map;
pub mod sync;
pub mod syscall;

