use mft::fast_entry::{FileNameCollection, FileNameRef};
use mft::path_resolve::compare::next_rand;
use mft::path_resolve::dfs::finish_order;
use mft::path_resolve::{
    compare_paths, compare_resolvers_random_sample, resolve_paths_simple,
    resolve_paths_simple_multipass, ResolveError, ResolvedPaths,
};
use std::path::{Path, PathBuf};

/// Names of `n` entries from (entry, parent, namespace, name).
struct Names {
    n: usize,
    rows: Vec<(usize, u64, u8, Vec<u16>)>,
}

fn names(n: usize, rows: &[(usize, u64, u8, &str)]) -> Names {
    let rows = rows.iter().map(|r| (r.0, r.1, r.2, r.3.encode_utf16().collect())).collect();
    Names { n, rows }
}

fn collection(names: &Names) -> FileNameCollection<'_> {
    let mut per_entry: Vec<Vec<FileNameRef<'_>>> = Vec::new();
    for _ in 0..names.n {
        per_entry.push(Vec::new());
    }
    for (entry, parent_ref, namespace, name) in &names.rows {
        per_entry[*entry].push(FileNameRef {
            parent_ref: *parent_ref,
            namespace: *namespace,
            name_utf16: name,
        });
    }
    FileNameCollection::from_entries(per_entry)
}

fn simple(names: &Names) -> ResolvedPaths {
    resolve_paths_simple(&collection(names)).unwrap()
}

fn multipass(names: &Names) -> ResolvedPaths {
    resolve_paths_simple_multipass(&collection(names)).unwrap()
}

fn path(parts: &[&str]) -> Option<PathBuf> {
    let mut p = PathBuf::new();
    for part in parts {
        p.push(part);
    }
    Some(p)
}

#[test]
fn tree_is_resolved_by_both() {
    let t = names(
        10,
        &[
            (0, 5, 3, "$MFT"),
            (5, 5, 3, "."),
            (9, 5, 1, "Users"),
            (7, 9, 1, "me"),
            (8, 7, 2, "NOTES~1.TXT"),
            (8, 7, 1, "notes from today.txt"),
        ],
    );
    for paths in [simple(&t), multipass(&t)] {
        assert_eq!(paths.0.len(), 10);
        assert_eq!(paths.0[0], path(&["$MFT"]));
        assert_eq!(paths.0[5], Some(PathBuf::new()));
        assert_eq!(paths.0[9], path(&["Users"]));
        assert_eq!(paths.0[7], path(&["Users", "me"]));
        assert_eq!(paths.0[8], path(&["Users", "me", "notes from today.txt"]));
        assert_eq!(paths.0[1], None);
        assert_eq!(paths.resolved_count(), 5);
        assert_eq!(paths.unresolved_count(), 5);
    }
    assert!(compare_resolvers_random_sample(&collection(&t), 1000, 0).is_ok());
}

#[test]
fn child_of_the_root_has_its_name_as_path() {
    let t = names(7, &[(6, 5, 1, "a.txt")]);
    assert_eq!(simple(&t).0[6].as_ref().unwrap().as_os_str(), "a.txt");
    assert_eq!(multipass(&t).0[6].as_ref().unwrap().as_os_str(), "a.txt");
}

#[test]
fn sequence_number_of_the_parent_is_ignored() {
    let t = names(7, &[(6, 0x0005_0000_0000_0005, 1, "a")]);
    assert_eq!(simple(&t).0[6], path(&["a"]));
}

#[test]
fn without_entry_five_there_is_no_root() {
    let t = names(5, &[(1, 0, 1, "a"), (2, 1, 1, "b")]);
    assert_eq!(simple(&t).resolved_count(), 0);
    assert_eq!(multipass(&t).resolved_count(), 0);
    let empty = names(0, &[]);
    assert_eq!(simple(&empty).0.len(), 0);
    assert!(compare_resolvers_random_sample(&collection(&empty), 5, 1).is_ok());
}

#[test]
fn invalid_parent_leaves_an_entry_unresolved() {
    let t = names(8, &[(6, 100, 1, "a"), (7, 6, 1, "b")]);
    assert_eq!(simple(&t).0[6], None);
    assert_eq!(simple(&t).0[7], None);
    assert_eq!(multipass(&t).0[6], None);
}

#[test]
fn names_of_the_root_itself_do_not_count() {
    let t = names(8, &[(5, 6, 1, "odd"), (6, 5, 1, "a")]);
    assert_eq!(simple(&t).0[5], Some(PathBuf::new()));
    assert_eq!(simple(&t).0[6], path(&["a"]));
}

#[test]
fn own_parent_starts_a_tree_in_simple_resolution_only() {
    let t = names(9, &[(6, 6, 1, "island"), (7, 6, 1, "palm"), (8, 5, 1, "a")]);
    let new = simple(&t);
    assert_eq!(new.0[6], path(&["island"]));
    assert_eq!(new.0[7], path(&["island", "palm"]));
    let old = multipass(&t);
    assert_eq!(old.0[6], None);
    assert_eq!(old.0[7], None);
    assert_eq!(old.0[8], path(&["a"]));
    assert!(matches!(
        compare_resolvers_random_sample(&collection(&t), 9, 7),
        Err(ResolveError::CountIncrease { new_count: 4, old_count: 2 })
    ));
}

#[test]
fn loops_away_from_the_root_stay_unresolved() {
    let t = names(9, &[(6, 7, 1, "a"), (7, 6, 1, "b"), (8, 7, 1, "c")]);
    for paths in [simple(&t), multipass(&t)] {
        assert_eq!(paths.resolved_count(), 1);
        assert_eq!(paths.0[8], None);
    }
}

#[test]
fn passes_stop_after_twenty_six() {
    // Each entry is filed in the one after it, so a pass goes one step down.
    let n: usize = 60;
    let mut rows: Vec<(usize, u64, u8, &str)> = Vec::new();
    rows.push((n - 1, 5, 1, "d"));
    for e in 6..n - 1 {
        rows.push((e, (e + 1) as u64, 1, "d"));
    }
    let t = names(n, &rows);
    let old = multipass(&t);
    // 26 passes reach the entries 1 to 26 steps below the root.
    assert!(old.0[n - 1].is_some());
    assert!(old.0[n - 26].is_some());
    assert!(old.0[n - 27].is_none());
    assert_eq!(old.resolved_count(), 27);
    let new = simple(&t);
    assert_eq!(new.resolved_count(), 55);
    assert_eq!(new.0[n - 26], old.0[n - 26]);
    assert!(matches!(
        compare_resolvers_random_sample(&collection(&t), n, 3),
        Err(ResolveError::CountIncrease { new_count: 55, old_count: 27 })
    ));
}

#[test]
fn one_pass_goes_far_down_in_ascending_order() {
    let n: usize = 100;
    let mut rows: Vec<(usize, u64, u8, &str)> = Vec::new();
    rows.push((6, 5, 1, "d"));
    for e in 7..n {
        rows.push((e, (e - 1) as u64, 1, "d"));
    }
    let t = names(n, &rows);
    assert_eq!(multipass(&t).resolved_count(), 95);
    assert_eq!(multipass(&t).0, simple(&t).0);
}

#[test]
fn looped_root_can_cut_an_entry_off() {
    // 0 -> 7 -> 5 -> 8 -> 7: entry 8 is settled before its parent 7.
    let t = names(9, &[(0, 7, 1, "a"), (7, 5, 1, "b"), (5, 8, 1, "c"), (8, 7, 1, "d")]);
    let new = simple(&t);
    let old = multipass(&t);
    assert_eq!(new.0[0], path(&["b", "a"]));
    assert_eq!(new.0[7], path(&["b"]));
    assert_eq!(new.0[8], None);
    assert_eq!(old.0[8], path(&["b", "d"]));
    // Where both have a path, it is the same even so.
    for e in 0..9 {
        if old.0[e].is_some() && new.0[e].is_some() {
            assert_eq!(old.0[e], new.0[e]);
        }
    }
    match compare_resolvers_random_sample(&collection(&t), 0, 1) {
        Err(ResolveError::CountRegression { new_count, old_count }) => {
            assert_eq!(new_count, 3);
            assert_eq!(old_count, 4);
        }
        _ => panic!("a lost entry must be reported"),
    }
}

fn listed(paths: &[Option<&str>]) -> ResolvedPaths {
    ResolvedPaths(paths.iter().map(|p| p.map(PathBuf::from)).collect())
}

#[test]
fn different_lengths_are_reported() {
    let a = listed(&[Some("x"), None]);
    let b = listed(&[Some("x")]);
    match compare_paths(&a, &b, 1, 1) {
        Err(ResolveError::LengthMismatch { old_len, new_len }) => {
            assert_eq!((old_len, new_len), (2, 1));
        }
        _ => panic!("lengths differ"),
    }
}

#[test]
fn lost_paths_are_reported() {
    // With seed 1 the sample of two entries begins with entry 1.
    let a = listed(&[None, Some("x")]);
    let b = listed(&[Some("y"), None]);
    match compare_paths(&a, &b, 2, 1) {
        Err(ResolveError::LostResolution { entry }) => assert_eq!(entry, 1),
        _ => panic!("entry 1 is lost"),
    }
    // With seed 2 it begins with entry 0, where only the new path exists.
    match compare_paths(&a, &b, 1, 2) {
        Err(ResolveError::GainedResolution { entry }) => assert_eq!(entry, 0),
        _ => panic!("entry 0 is new"),
    }
    assert!(compare_paths(&a, &b, 0, 1).is_ok());
}

#[test]
fn changed_paths_are_reported() {
    let a = listed(&[Some("x"), Some("y")]);
    let b = listed(&[Some("x"), Some("z")]);
    match compare_paths(&a, &b, 5, 1) {
        Err(ResolveError::PathMismatch { entry, old_path, new_path }) => {
            assert_eq!(entry, 1);
            assert_eq!(old_path, Path::new("y"));
            assert_eq!(new_path, Path::new("z"));
        }
        _ => panic!("entry 1 has changed"),
    }
    assert!(compare_paths(&a, &b, 1, 2).is_ok());
}

#[test]
fn paths_are_compared_by_component() {
    let a = listed(&[Some("x/y")]);
    let b = listed(&[Some("x//y")]);
    assert!(compare_paths(&a, &b, 1, 1).is_ok());
    let c = listed(&[Some("x/z")]);
    assert!(compare_paths(&a, &c, 1, 1).is_err());
}

#[test]
fn generator_gives_known_numbers() {
    let mut state: u64 = 1;
    assert_eq!(next_rand(&mut state), 5180492295206395165);
    assert_eq!(state, 33554433);
    assert_eq!(next_rand(&mut state), 12380297144915551517);
    assert_eq!(state, 1126174793148417);
    let mut default_state: u64 = 0xDEADBEEFCAFEBABE;
    assert_eq!(next_rand(&mut default_state), 9018836209304764660);
    for _ in 0..1000 {
        next_rand(&mut state);
        assert_ne!(state, 0);
    }
}

#[test]
fn seed_zero_means_the_default_seed() {
    // From the default seed the sample of nine entries begins 1, 5, 4, 1, 7.
    let mut old_paths: Vec<Option<&str>> = vec![None; 9];
    old_paths[7] = Some("x");
    let mut new_paths: Vec<Option<&str>> = vec![None; 9];
    new_paths[0] = Some("x");
    let a = listed(&old_paths);
    let b = listed(&new_paths);
    assert!(compare_paths(&a, &b, 4, 0).is_ok());
    assert!(matches!(
        compare_paths(&a, &b, 5, 0),
        Err(ResolveError::LostResolution { entry: 7 })
    ));
    assert!(compare_paths(&a, &b, 4, 0xDEADBEEFCAFEBABE).is_ok());
    assert!(compare_paths(&a, &b, 5, 0xDEADBEEFCAFEBABE).is_err());
}

#[test]
fn parents_finish_first() {
    assert_eq!(finish_order(&vec![vec![2], vec![0], vec![]]), vec![2, 0, 1]);
    assert_eq!(finish_order(&vec![vec![1, 2], vec![], vec![]]), vec![1, 2, 0]);
    assert_eq!(finish_order(&vec![vec![2, 1], vec![], vec![]]), vec![2, 1, 0]);
    assert_eq!(finish_order(&vec![vec![1], vec![2], vec![0]]), vec![2, 1, 0]);
    assert_eq!(finish_order(&vec![vec![0]]), vec![0]);
    assert_eq!(finish_order(&vec![]), Vec::<usize>::new());
}

#[test]
fn resolved_entries_are_listed_in_order() {
    let mut paths = listed(&[None, Some("a"), None, Some("b")]);
    let pairs = paths.resolved();
    assert_eq!(pairs.len(), 2);
    assert_eq!(pairs[0].0, 1);
    assert_eq!(pairs[0].1, Path::new("a"));
    assert_eq!(pairs[1].0, 3);
    assert_eq!(paths.unresolved_count(), 2);
    assert_eq!(paths.resolved_count(), 2);
    assert_eq!(paths.len(), 4);
    assert_eq!(paths[3], Some(PathBuf::from("b")));
    paths.as_mut_slice()[0] = Some(PathBuf::from("z"));
    let owned: Vec<(u32, PathBuf)> = paths.into_iter().collect();
    assert_eq!(
        owned,
        vec![(0, PathBuf::from("z")), (1, PathBuf::from("a")), (3, PathBuf::from("b"))]
    );
    assert_eq!(ResolvedPaths::default().len(), 0);
}
