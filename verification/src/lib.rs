//! Recovery of deleted files from an NTFS volume: the path index that is
//! built from scanned candidates and the read-only filesystem logic that
//! serves it.

pub mod text;
pub mod util;
pub mod glob;
pub mod indexer;
pub mod handler;
pub mod scan;
pub mod drives;
pub mod bridge;
pub mod coherence;
