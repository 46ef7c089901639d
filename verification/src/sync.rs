//! Synchronisation support: the banker's algorithm and what its check means.
pub mod banker;
pub mod safety;
