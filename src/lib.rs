//! Replicates a directory tree into a destination: a snapshot of the source
//! structure, a copy plan derived from it, a bounded scheduler that orders the
//! plan's operations, and the progress bookkeeping of each file copy.

pub mod folder_tree;
pub mod paths;
pub mod copy_handler;
pub mod scheduler;
pub mod progress;
