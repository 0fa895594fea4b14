use mft::fast_entry::{FileNameCollection, FileNameRef};
use mft::path_resolve::path_text::tidy_paths;
use mft::path_resolve::{
    resolve_paths_all, resolve_paths_all_parallel, resolve_paths_simple,
    resolve_paths_simple_multipass, MftEntryPathCollection,
};
use std::path::{Path, PathBuf};

struct Names {
    n: usize,
    rows: Vec<(usize, u64, u8, Vec<u16>)>,
}

fn names(n: usize, rows: &[(usize, u64, u8, &str)]) -> Names {
    let rows = rows.iter().map(|r| (r.0, r.1, r.2, r.3.encode_utf16().collect())).collect();
    Names { n, rows }
}

fn collection(names: &Names) -> FileNameCollection<'_> {
    let mut per_entry: Vec<Vec<FileNameRef<'_>>> = Vec::new();
    for _ in 0..names.n {
        per_entry.push(Vec::new());
    }
    for (entry, parent_ref, namespace, name) in &names.rows {
        per_entry[*entry].push(FileNameRef {
            parent_ref: *parent_ref,
            namespace: *namespace,
            name_utf16: name,
        });
    }
    FileNameCollection::from_entries(per_entry)
}

fn all(names: &Names) -> MftEntryPathCollection {
    resolve_paths_all(&collection(names)).unwrap()
}

fn parallel(names: &Names) -> MftEntryPathCollection {
    resolve_paths_all_parallel(&collection(names)).unwrap()
}

fn path(parts: &[&str]) -> PathBuf {
    let mut p = PathBuf::new();
    for part in parts {
        p.push(part);
    }
    p
}

#[test]
fn hard_links_have_several_paths() {
    let t = names(
        10,
        &[
            (6, 5, 1, "b"),
            (7, 5, 1, "a"),
            (8, 6, 1, "x"),
            (8, 7, 2, "Y~1"),
            (8, 7, 1, "y"),
            (9, 8, 1, "z"),
        ],
    );
    for paths in [all(&t), parallel(&t)] {
        assert_eq!(paths.entry_count(), 10);
        assert_eq!(paths.paths_for(5).to_vec(), vec![PathBuf::new()]);
        assert_eq!(paths.paths_for(6).to_vec(), vec![path(&["b"])]);
        assert_eq!(paths.paths_for(8).to_vec(), vec![path(&["a", "y"]), path(&["b", "x"])]);
        assert_eq!(
            paths.paths_for(9).to_vec(),
            vec![path(&["a", "y", "z"]), path(&["b", "x", "z"])]
        );
        assert_eq!(paths.paths_for(0).len(), 0);
        assert_eq!(paths.paths_for(10).len(), 0);
        assert_eq!(paths.total_paths(), 7);
    }
}

#[test]
fn own_parent_gives_no_path() {
    let t = names(8, &[(6, 6, 1, "island"), (7, 6, 1, "palm")]);
    assert_eq!(all(&t).total_paths(), 1);
    assert_eq!(parallel(&t).total_paths(), 1);
}

#[test]
fn own_parent_besides_the_root_is_skipped() {
    let t = names(7, &[(6, 6, 1, "self"), (6, 5, 1, "a")]);
    assert_eq!(all(&t).paths_for(6).to_vec(), vec![path(&["a"])]);
    assert_eq!(parallel(&t).paths_for(6).to_vec(), vec![path(&["a"])]);
}

#[test]
fn same_paths_are_listed_once() {
    // Two directories of the same name, as in a damaged table.
    let t = names(9, &[(6, 5, 1, "d"), (7, 5, 1, "d"), (8, 6, 1, "f"), (8, 7, 1, "f")]);
    assert_eq!(all(&t).paths_for(8).to_vec(), vec![path(&["d", "f"])]);
    assert_eq!(parallel(&t).paths_for(8).to_vec(), vec![path(&["d", "f"])]);
}

#[test]
fn no_root_no_paths() {
    let t = names(5, &[(1, 0, 1, "a"), (0, 0, 1, ".")]);
    assert_eq!(all(&t).total_paths(), 0);
    assert_eq!(parallel(&t).total_paths(), 0);
    let empty = names(0, &[]);
    assert_eq!(all(&empty).entry_count(), 0);
    assert_eq!(parallel(&empty).entry_count(), 0);
    assert_eq!(MftEntryPathCollection::default().entry_count(), 0);
}

#[test]
fn loops_with_a_way_to_the_root() {
    // 6 is in 7 and 8, 7 is in 8, 8 is in 7 and in the root.
    let t = names(9, &[(6, 7, 1, "f"), (6, 8, 1, "f"), (7, 8, 1, "g"), (8, 7, 1, "h"), (8, 5, 1, "h")]);
    let seq = all(&t);
    assert_eq!(seq.paths_for(8).to_vec(), vec![path(&["h"])]);
    assert_eq!(seq.paths_for(7).len(), 0);
    assert_eq!(seq.paths_for(6).to_vec(), vec![path(&["h", "f"])]);
    let par = parallel(&t);
    assert_eq!(par.paths_for(8).to_vec(), vec![path(&["h"])]);
    assert_eq!(par.paths_for(7).to_vec(), vec![path(&["h", "g"])]);
    assert_eq!(par.paths_for(6).to_vec(), vec![path(&["h", "f"]), path(&["h", "g", "f"])]);
}

#[test]
fn parallel_agrees_on_a_large_tree() {
    let n: usize = 400;
    let mut rows: Vec<(usize, u64, u8, String)> = Vec::new();
    for e in 6..n {
        let parent = if e < 20 { 5 } else { 6 + (e * 7) % (e / 2) };
        rows.push((e, parent as u64, 1, format!("n{}", e)));
        if e % 10 == 0 && e > 40 {
            rows.push((e, (e / 3) as u64, 0, format!("link{}", e)));
        }
    }
    let borrowed: Vec<(usize, u64, u8, &str)> =
        rows.iter().map(|r| (r.0, r.1, r.2, r.3.as_str())).collect();
    let t = names(n, &borrowed);
    let seq = all(&t);
    assert_eq!(seq.0, parallel(&t).0);
    let simple = resolve_paths_simple(&collection(&t)).unwrap();
    for e in 0..n {
        if let Some(p) = &simple.0[e] {
            assert!(seq.paths_for(e).contains(p));
        }
    }
    assert!(seq.total_paths() > n - 6);
}

#[test]
fn paths_are_sorted_and_repeats_dropped() {
    let mut paths: Vec<PathBuf> =
        vec![path(&["b"]), path(&["a", "c"]), path(&["b"]), PathBuf::from("a//c"), path(&["a"])];
    tidy_paths(&mut paths);
    assert_eq!(paths, vec![path(&["a"]), path(&["a", "c"]), path(&["b"])]);
    let mut single: Vec<PathBuf> = vec![path(&["z"])];
    tidy_paths(&mut single);
    assert_eq!(single, vec![path(&["z"])]);
}

#[test]
fn absolute_names_replace_the_path() {
    let t = names(8, &[(6, 5, 1, "d"), (7, 6, 1, "/etc")]);
    let expected = Path::new("d").join("/etc");
    assert_eq!(all(&t).paths_for(7).to_vec(), vec![expected]);
}

#[test]
fn entries_with_a_way_to_the_root_have_paths() {
    // 9 has no way to the root, 10 has one by its second parent.
    let t = names(
        11,
        &[(6, 5, 1, "a"), (8, 6, 1, "b"), (9, 7, 1, "c"), (10, 9, 1, "d"), (10, 8, 1, "e")],
    );
    for paths in [all(&t), parallel(&t)] {
        assert_eq!(paths.paths_for(9).len(), 0);
        assert_eq!(paths.paths_for(10).to_vec(), vec![path(&["a", "b", "e"])]);
    }
}

#[test]
fn canonical_path_is_among_all_paths() {
    let t = names(9, &[(6, 5, 1, "a"), (7, 5, 1, "b"), (8, 6, 0, "x"), (8, 7, 1, "y")]);
    let simple = resolve_paths_simple(&collection(&t)).unwrap();
    assert_eq!(simple.0[8], Some(path(&["b", "y"])));
    let passed = resolve_paths_simple_multipass(&collection(&t)).unwrap();
    for paths in [all(&t), parallel(&t)] {
        assert_eq!(paths.paths_for(8).to_vec(), vec![path(&["a", "x"]), path(&["b", "y"])]);
        for e in 0..9 {
            if let Some(p) = &passed.0[e] {
                assert!(paths.paths_for(e).contains(p));
            }
        }
    }
}

#[test]
fn order_of_names_does_not_matter() {
    let rows = [
        (6, 5, 1, "b"),
        (7, 5, 3, "a"),
        (8, 6, 1, "x"),
        (8, 7, 2, "Y~1"),
        (8, 7, 1, "y"),
        (8, 6, 0, "X"),
        (9, 8, 1, "z"),
        (9, 5, 1, "w"),
    ];
    let mut turned = rows.to_vec();
    turned.reverse();
    let t = names(10, &rows);
    let u = names(10, &turned);
    assert_eq!(
        all(&t).paths_for(9).to_vec(),
        vec![path(&["a", "y", "z"]), path(&["b", "x", "z"]), path(&["w"])]
    );
    assert_eq!(all(&t).0, all(&u).0);
    assert_eq!(parallel(&t).0, parallel(&u).0);
    assert_eq!(all(&t).0, parallel(&u).0);
}

#[test]
fn first_of_equally_preferred_names_counts() {
    let t = names(7, &[(6, 5, 1, "b"), (6, 5, 1, "a")]);
    let u = names(7, &[(6, 5, 1, "a"), (6, 5, 1, "b")]);
    assert_eq!(all(&t).paths_for(6).to_vec(), vec![path(&["b"])]);
    assert_eq!(all(&u).paths_for(6).to_vec(), vec![path(&["a"])]);
}

#[test]
fn same_paths_stay_the_same_when_extended() {
    for (a, b) in [("a/b", "a//b"), ("a/b", "a/./b"), ("a/b", "a/b/"), ("/", "//")] {
        assert_eq!(Path::new(a), Path::new(b));
        for name in ["c", "", ".", "./c", "..", "/c", "c/d"] {
            assert_eq!(Path::new(a).join(name), Path::new(b).join(name));
        }
    }
}
