//! Resolution of full paths from the file names of master file table entries.
//!
//! Each file name says which entry is its parent directory and what the name there is. Paths
//! are found by following the parents up to the root directory, entry 5:
//!
//! - [`resolve_paths_simple`] gives each entry at most one path, along its canonical name;
//! - [`resolve_paths_simple_multipass`] does so by repeated passes over the entries;
//! - [`compare_resolvers_random_sample`] holds one against the other;
//! - [`resolve_paths_all`] follows every parent, as hard links need, and
//!   [`resolve_paths_all_parallel`] does so on several threads.
pub mod all_paths;
pub mod ancestry;
pub mod collections;
pub mod compare;
pub mod decode;
pub mod dfs;
pub mod error;
pub mod laws;
pub mod multipass;
pub mod name_order;
pub mod parallel;
pub mod path_text;
pub mod select;
pub mod simple;

pub use all_paths::resolve_paths_all;
pub use collections::{MftEntryPathCollection, ResolvedPaths};
pub use compare::{compare_paths, compare_resolvers_random_sample};
pub use decode::decode_name;
pub use error::ResolveError;
pub use multipass::resolve_paths_simple_multipass;
pub use parallel::resolve_paths_all_parallel;
pub use select::{choose_best, ns_rank};
pub use simple::resolve_paths_simple;
