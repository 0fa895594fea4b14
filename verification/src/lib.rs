//! Full-path resolution over the file names collected from an NTFS master file table.
pub mod fast_entry;
pub mod path_resolve;
