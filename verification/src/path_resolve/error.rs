//! What path resolution can report.
use std::path::PathBuf;
use vstd::prelude::*;

verus! {

/// A discrepancy between two resolutions of the same file names.
#[derive(Debug)]
pub enum ResolveError {
    /// Fewer entries are resolved than before.
    CountRegression { new_count: usize, old_count: usize },
    /// More entries are resolved than before.
    CountIncrease { new_count: usize, old_count: usize },
    /// The resolutions are of different numbers of entries.
    LengthMismatch { old_len: usize, new_len: usize },
    /// An entry had a path and has none now.
    LostResolution { entry: usize },
    /// An entry had no path and has one now.
    GainedResolution { entry: usize },
    /// An entry has another path now.
    PathMismatch { entry: usize, old_path: PathBuf, new_path: PathBuf },
}

} // verus!
