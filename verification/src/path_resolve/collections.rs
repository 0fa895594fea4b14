//! What path resolution returns.
use crate::path_resolve::path_text;
use std::ops::Deref;
use std::path::PathBuf;
use vstd::prelude::*;

verus! {

/// Per-entry resolved paths (sparse). Index = entry id. None = unresolved.
#[derive(Debug, Clone)]
pub struct ResolvedPaths(pub Vec<Option<PathBuf>>);

/// The bytes of a path, if there is one.
pub open spec fn optional_bytes(p: Option<PathBuf>) -> Option<Seq<u8>> {
    match p {
        Some(path) => Some(path_text::path_bytes(path)),
        None => None,
    }
}

/// The bytes of each path of a list that has it.
pub open spec fn all_optional_bytes(paths: Seq<Option<PathBuf>>) -> Seq<Option<Seq<u8>>> {
    Seq::new(paths.len(), |e: int| optional_bytes(paths[e]))
}

impl View for ResolvedPaths {
    type V = Seq<Option<Seq<u8>>>;

    open spec fn view(&self) -> Seq<Option<Seq<u8>>> {
        all_optional_bytes(self.0@)
    }
}

/// The number of entries without a path.
pub open spec fn count_unresolved(paths: Seq<Option<Seq<u8>>>) -> nat {
    paths.filter(|p: Option<Seq<u8>>| p is None).len()
}

/// The number of entries with a path.
pub open spec fn count_resolved(paths: Seq<Option<Seq<u8>>>) -> nat {
    paths.filter(|p: Option<Seq<u8>>| p is Some).len()
}

/// Every entry is counted once, as resolved or as unresolved.
pub proof fn lemma_counts_add_up(paths: Seq<Option<Seq<u8>>>)
    ensures
        count_resolved(paths) + count_unresolved(paths) == paths.len(),
    decreases paths.len(),
{
    reveal(Seq::filter);
    if paths.len() > 0 {
        lemma_counts_add_up(paths.drop_last());
    }
}

/// The resolved ones among the first `k` entries, with their entry ids, in ascending order.
pub open spec fn resolved_pairs(paths: Seq<Option<Seq<u8>>>, k: nat) -> Seq<(u32, Seq<u8>)>
    decreases k,
{
    if k == 0 {
        Seq::empty()
    } else {
        let earlier = resolved_pairs(paths, (k - 1) as nat);
        match paths[k - 1] {
            Some(path) => earlier.push(((k - 1) as u32, path)),
            None => earlier,
        }
    }
}

/// What one more entry adds to the counts.
pub proof fn lemma_entry_counted(paths: Seq<Option<Seq<u8>>>, path: Option<Seq<u8>>)
    ensures
        count_resolved(Seq::empty()) == 0,
        count_unresolved(Seq::empty()) == 0,
        count_resolved(paths.push(path)) == count_resolved(paths) + if path is Some {
            1nat
        } else {
            0
        },
        count_unresolved(paths.push(path)) == count_unresolved(paths) + if path is None {
            1nat
        } else {
            0
        },
{
    reveal(Seq::filter);
    assert(paths.push(path).drop_last() =~= paths);
}

/// The entries of a resolution are its paths, by their bytes.
pub proof fn lemma_resolved_view(paths: ResolvedPaths)
    ensures
        paths@.len() == paths.0@.len(),
        forall|e: int|
            0 <= e < paths.0@.len() ==> #[trigger] paths@[e] == (match paths.0@[e] {
                Some(path) => Some(path_text::path_bytes(path)),
                None => None,
            }),
{
}

/// The pairs of up to 2^32 entries: each names an entry by its id and gives its path, ids ascend,
/// and no entry with a path is left out.
pub proof fn lemma_pairs_listed(paths: Seq<Option<Seq<u8>>>)
    requires
        paths.len() <= 0x1_0000_0000,
    ensures
        forall|i: int|
            0 <= i < resolved_pairs(paths, paths.len()).len() ==> (
            #[trigger] resolved_pairs(paths, paths.len())[i]).0 < paths.len()
                && paths[resolved_pairs(paths, paths.len())[i].0 as int] == Some(
                resolved_pairs(paths, paths.len())[i].1,
            ),
        forall|i: int, j: int|
            0 <= i < j < resolved_pairs(paths, paths.len()).len() ==> (
            #[trigger] resolved_pairs(paths, paths.len())[i]).0 < (
            #[trigger] resolved_pairs(paths, paths.len())[j]).0,
        forall|e: int|
            0 <= e < paths.len() && (#[trigger] paths[e]) is Some ==> exists|i: int|
                0 <= i < resolved_pairs(paths, paths.len()).len() && (
                #[trigger] resolved_pairs(paths, paths.len())[i]).0 == e,
{
    lemma_first_pairs_listed(paths, paths.len());
}

proof fn lemma_first_pairs_listed(paths: Seq<Option<Seq<u8>>>, k: nat)
    requires
        k <= paths.len() <= 0x1_0000_0000,
    ensures
        forall|i: int|
            0 <= i < resolved_pairs(paths, k).len() ==> (#[trigger] resolved_pairs(paths, k)[i]).0
                < k && paths[resolved_pairs(paths, k)[i].0 as int] == Some(
                resolved_pairs(paths, k)[i].1,
            ),
        forall|i: int, j: int|
            0 <= i < j < resolved_pairs(paths, k).len() ==> (
            #[trigger] resolved_pairs(paths, k)[i]).0 < (#[trigger] resolved_pairs(paths, k)[j]).0,
        forall|e: int|
            0 <= e < k && (#[trigger] paths[e]) is Some ==> exists|i: int|
                0 <= i < resolved_pairs(paths, k).len() && (
                #[trigger] resolved_pairs(paths, k)[i]).0 == e,
    decreases k,
{
    if k > 0 {
        let earlier = resolved_pairs(paths, (k - 1) as nat);
        let pairs = resolved_pairs(paths, k);
        lemma_first_pairs_listed(paths, (k - 1) as nat);
        assert forall|e: int| 0 <= e < k && (#[trigger] paths[e]) is Some implies exists|i: int|
            0 <= i < pairs.len() && (#[trigger] pairs[i]).0 == e by {
            if e < k - 1 {
                let i = choose|i: int| 0 <= i < earlier.len() && (#[trigger] earlier[i]).0 == e;
                assert(pairs[i].0 == e);
            } else {
                assert(pairs[earlier.len() as int].0 == e);
            }
        }
    }
}

/// There are as many pairs as resolved entries.
pub proof fn lemma_pairs_are_counted(paths: Seq<Option<Seq<u8>>>)
    ensures
        resolved_pairs(paths, paths.len()).len() == count_resolved(paths),
    decreases paths.len(),
{
    reveal(Seq::filter);
    if paths.len() > 0 {
        let shorter = paths.drop_last();
        lemma_pairs_are_counted(shorter);
        lemma_pairs_prefix(shorter, paths, shorter.len());
    }
}

proof fn lemma_pairs_prefix(a: Seq<Option<Seq<u8>>>, b: Seq<Option<Seq<u8>>>, k: nat)
    requires
        k <= a.len(),
        k <= b.len(),
        forall|i: int| 0 <= i < k ==> a[i] == b[i],
    ensures
        resolved_pairs(a, k) == resolved_pairs(b, k),
    decreases k,
{
    if k > 0 {
        lemma_pairs_prefix(a, b, (k - 1) as nat);
    }
}

/// Pairs of ids and paths keep their ids, and their paths by their bytes.
pub proof fn lemma_pair_views(owned: Seq<(u32, PathBuf)>, borrowed: Seq<(u32, &PathBuf)>)
    ensures
        owned_pairs(owned).len() == owned.len(),
        forall|i: int|
            0 <= i < owned.len() ==> #[trigger] owned_pairs(owned)[i] == (
                owned[i].0,
                path_text::path_bytes(owned[i].1),
            ),
        borrowed_pairs(borrowed).len() == borrowed.len(),
        forall|i: int|
            0 <= i < borrowed.len() ==> #[trigger] borrowed_pairs(borrowed)[i] == (
                borrowed[i].0,
                path_text::path_bytes(*borrowed[i].1),
            ),
{
}

/// The bytes of owned paths with their entry ids.
pub open spec fn owned_pairs(pairs: Seq<(u32, PathBuf)>) -> Seq<(u32, Seq<u8>)> {
    Seq::new(pairs.len(), |i: int| (pairs[i].0, path_text::path_bytes(pairs[i].1)))
}

/// The bytes of borrowed paths with their entry ids.
pub open spec fn borrowed_pairs(pairs: Seq<(u32, &PathBuf)>) -> Seq<(u32, Seq<u8>)> {
    Seq::new(pairs.len(), |i: int| (pairs[i].0, path_text::path_bytes(*pairs[i].1)))
}

impl Default for ResolvedPaths {
    /// No entries.
    fn default() -> (r: Self)
        ensures
            r@.len() == 0,
    {
        ResolvedPaths(Vec::new())
    }
}

impl ResolvedPaths {
    /// The number of entries without a path.
    pub fn unresolved_count(&self) -> (n: usize)
        ensures
            n == count_unresolved(self@),
    {
        let mut n: usize = 0;
        let mut e: usize = 0;
        reveal(Seq::filter);
        while e < self.0.len()
            invariant
                e <= self.0@.len(),
                n <= e,
                n == count_unresolved(self@.take(e as int)),
            decreases self.0@.len() - e,
        {
            reveal(Seq::filter);
            assert(self@.take(e + 1).drop_last() =~= self@.take(e as int));
            if self.0[e].is_none() {
                n = n + 1;
            }
            e = e + 1;
        }
        assert(self@.take(e as int) =~= self@);
        n
    }

    /// The number of entries with a path.
    pub fn resolved_count(&self) -> (n: usize)
        ensures
            n == count_resolved(self@),
    {
        proof {
            lemma_counts_add_up(self@);
        }
        self.0.len() - self.unresolved_count()
    }

    /// The resolved entries: entry id and path, in ascending order.
    pub fn resolved(&self) -> (pairs: Vec<(u32, &PathBuf)>)
        ensures
            borrowed_pairs(pairs@) == resolved_pairs(self@, self@.len()),
    {
        let mut pairs: Vec<(u32, &PathBuf)> = Vec::new();
        let mut e: usize = 0;
        assert(borrowed_pairs(pairs@) =~= resolved_pairs(self@, 0));
        while e < self.0.len()
            invariant
                e <= self.0@.len(),
                borrowed_pairs(pairs@) == resolved_pairs(self@, e as nat),
            decreases self.0@.len() - e,
        {
            let ghost before = pairs@;
            if let Some(path) = &self.0[e] {
                pairs.push((e as u32, path));
                assert(borrowed_pairs(pairs@) =~= borrowed_pairs(before).push(
                    (e as u32, path_text::path_bytes(*path)),
                ));
            }
            e = e + 1;
        }
        pairs
    }

    /// The entries as a mutable slice.
    pub fn as_mut_slice(&mut self) -> (r: &mut [Option<PathBuf>])
        ensures
            r@ == old(self).0@,
            final(self).0@ == final(r)@,
    {
        self.0.as_mut_slice()
    }
}

impl Deref for ResolvedPaths {
    type Target = [Option<PathBuf>];

    /// The entries as a slice.
    fn deref(&self) -> (r: &[Option<PathBuf>])
        ensures
            r@ == self.0@,
    {
        self.0.as_slice()
    }
}

impl IntoIterator for ResolvedPaths {
    type Item = (u32, PathBuf);

    type IntoIter = std::vec::IntoIter<(u32, PathBuf)>;

    /// Hands out the resolved entries: entry id and path, in ascending order.
    fn into_iter(self) -> (r: std::vec::IntoIter<(u32, PathBuf)>)
        ensures
            owned_pairs(vstd::std_specs::vec::into_iter_elts(r)) == resolved_pairs(
                self@,
                self@.len(),
            ),
    {
        let mut pairs: Vec<(u32, PathBuf)> = Vec::new();
        let mut e: usize = 0;
        let ghost paths = self@;
        let ghost entries = self.0@;
        let n: usize = self.0.len();
        assert(owned_pairs(pairs@) =~= resolved_pairs(paths, 0));
        for entry in it: self.0
            invariant
                paths == all_optional_bytes(entries),
                it.seq() == entries,
                entries.len() == n,
                e == it.index(),
                owned_pairs(pairs@) == resolved_pairs(paths, e as nat),
        {
            let ghost before = pairs@;
            if let Some(path) = entry {
                pairs.push((e as u32, path));
                assert(owned_pairs(pairs@) =~= owned_pairs(before).push(
                    (e as u32, path_text::path_bytes(path)),
                ));
            }
            e = e + 1;
        }
        pairs.into_iter()
    }
}

/// A mapping from MFT entry ID to zero/one/many resolved paths.
/// Because an entry can have multiple x30 attributes, one entry may have more than one full path associated with it.
#[derive(Debug, Clone)]
pub struct MftEntryPathCollection(pub Vec<Vec<PathBuf>>);

impl View for MftEntryPathCollection {
    type V = Seq<Seq<Seq<u8>>>;

    open spec fn view(&self) -> Seq<Seq<Seq<u8>>> {
        Seq::new(self.0@.len(), |e: int| path_text::all_bytes(self.0@[e]@))
    }
}

/// The number of paths of the first `k` entries.
pub open spec fn count_paths(paths: Seq<Seq<Seq<u8>>>, k: nat) -> nat
    decreases k,
{
    if k == 0 {
        0
    } else {
        count_paths(paths, (k - 1) as nat) + paths[k - 1].len()
    }
}

/// What one more entry adds to the number of paths.
pub proof fn lemma_paths_counted(paths: Seq<Seq<Seq<u8>>>, list: Seq<Seq<u8>>)
    ensures
        count_paths(Seq::empty(), 0) == 0,
        count_paths(paths.push(list), paths.len() + 1) == count_paths(paths, paths.len())
            + list.len(),
{
    lemma_count_prefix(paths, paths.push(list), paths.len());
}

proof fn lemma_count_prefix(a: Seq<Seq<Seq<u8>>>, b: Seq<Seq<Seq<u8>>>, k: nat)
    requires
        k <= a.len(),
        k <= b.len(),
        forall|i: int| 0 <= i < k ==> a[i] == b[i],
    ensures
        count_paths(a, k) == count_paths(b, k),
    decreases k,
{
    if k > 0 {
        lemma_count_prefix(a, b, (k - 1) as nat);
    }
}

/// The entries of a collection are its lists of paths, by their bytes.
pub proof fn lemma_collection_view(paths: MftEntryPathCollection)
    ensures
        paths@.len() == paths.0@.len(),
        forall|e: int|
            0 <= e < paths.0@.len() ==> (#[trigger] paths@[e]).len() == paths.0@[e]@.len(),
        forall|e: int, i: int|
            0 <= e < paths.0@.len() && 0 <= i < paths.0@[e]@.len() ==> #[trigger] paths@[e][i]
                == path_text::path_bytes(paths.0@[e]@[i]),
{
}

proof fn lemma_count_grows(paths: Seq<Seq<Seq<u8>>>, k: nat, m: nat)
    requires
        k <= m,
    ensures
        count_paths(paths, k) <= count_paths(paths, m),
    decreases m,
{
    if k < m {
        lemma_count_grows(paths, k, (m - 1) as nat);
    }
}

impl Default for MftEntryPathCollection {
    /// No entries.
    fn default() -> (r: Self)
        ensures
            r@.len() == 0,
    {
        MftEntryPathCollection(Vec::new())
    }
}

impl MftEntryPathCollection {
    /// The number of entries.
    pub fn entry_count(&self) -> (n: usize)
        ensures
            n == self@.len(),
    {
        self.0.len()
    }

    /// The number of paths of all entries together.
    pub fn total_paths(&self) -> (n: usize)
        requires
            count_paths(self@, self@.len()) <= usize::MAX,
        ensures
            n == count_paths(self@, self@.len()),
    {
        let mut n: usize = 0;
        let mut e: usize = 0;
        while e < self.0.len()
            invariant
                e <= self.0@.len(),
                n == count_paths(self@, e as nat),
                count_paths(self@, self@.len()) <= usize::MAX,
            decreases self.0@.len() - e,
        {
            proof {
                lemma_count_grows(self@, (e + 1) as nat, self@.len());
                assert(self@[e as int].len() == self.0@[e as int]@.len());
            }
            n = n + self.0[e].len();
            e = e + 1;
        }
        n
    }

    /// The paths of an entry; none for an entry that is not in the collection.
    pub fn paths_for(&self, entry_id: usize) -> (r: &[PathBuf])
        ensures
            path_text::all_bytes(r@) == (if entry_id < self@.len() {
                self@[entry_id as int]
            } else {
                Seq::empty()
            }),
            entry_id < self.0@.len() ==> r@ == self.0@[entry_id as int]@,
    {
        if entry_id < self.0.len() {
            self.0[entry_id].as_slice()
        } else {
            &[]
        }
    }
}

} // verus!
