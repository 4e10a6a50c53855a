//! Decisions of a package-cache cleaner: which versions of each package are
//! kept and which are removed, and which task folders have their checkpoints
//! pruned. Directory walking, printing and removal are left to the caller.
pub mod cache;
pub mod checkpoints;
pub mod ranking;
