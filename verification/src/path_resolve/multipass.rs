//! Resolution by repeated passes over all entries.
use crate::fast_entry::FileNameCollection;
use crate::path_resolve::collections;
use crate::path_resolve::collections::ResolvedPaths;
use crate::path_resolve::decode;
use crate::path_resolve::decode::decode_name;
use crate::path_resolve::error::ResolveError;
use crate::path_resolve::path_text;
use crate::path_resolve::path_text::push_name;
use crate::path_resolve::select;
use crate::path_resolve::select::{select_canonical, Link, NameLink};
use std::path::PathBuf;
use vstd::prelude::*;
use vstd::utf8::*;

verus! {

/// The entry of the root directory.
pub const ROOT_ENTRY: usize = 5;

/// The number of passes after which resolution stops, resolved or not.
pub const MAX_PASSES: u32 = 26;

/// A path extended by a name, if there is a path.
pub open spec fn joined(base: Option<Seq<u8>>, name: Seq<char>) -> Option<Seq<u8>> {
    match base {
        Some(b) => Some(path_text::extended(b, name)),
        None => None,
    }
}

/// The path of entry `e` after so many passes.
///
/// The root has the empty path from the start. A pass goes through the entries in ascending
/// order, so an entry sees what the same pass has made of a parent before it, and what the pass
/// before has made of any other parent.
pub open spec fn path_after(links: Seq<Option<Link>>, passes: nat, e: int) -> Option<Seq<u8>>
    decreases passes, e,
{
    if e == ROOT_ENTRY {
        Some(Seq::empty())
    } else if passes == 0 {
        None
    } else {
        match links[e] {
            None => None,
            Some(l) => if 0 <= l.parent < e {
                joined(path_after(links, passes, l.parent), l.name)
            } else {
                joined(path_after(links, (passes - 1) as nat, l.parent), l.name)
            },
        }
    }
}

/// The paths of all entries after so many passes.
pub open spec fn paths_after(links: Seq<Option<Link>>, passes: nat) -> Seq<Option<Seq<u8>>> {
    Seq::new(links.len(), |e: int| path_after(links, passes, e))
}

/// Every parent is an entry.
pub open spec fn valid_links(links: Seq<Option<Link>>) -> bool {
    forall|e: int|
        0 <= e < links.len() && (#[trigger] links[e]) is Some ==> 0 <= links[e]->0.parent
            < links.len()
}

/// A path once found stays.
pub proof fn lemma_paths_stay(links: Seq<Option<Link>>, passes: nat, e: int)
    requires
        valid_links(links),
        0 <= e < links.len(),
        path_after(links, passes, e) is Some,
    ensures
        path_after(links, passes + 1, e) == path_after(links, passes, e),
    decreases passes, e,
{
    if e != ROOT_ENTRY {
        let l = links[e]->0;
        assert(links[e] is Some);
        if 0 <= l.parent < e {
            lemma_paths_stay(links, passes, l.parent);
        } else {
            lemma_paths_stay(links, (passes - 1) as nat, l.parent);
        }
    }
}

/// A pass that changes nothing is the last that could.
proof fn lemma_quiet_pass(links: Seq<Option<Link>>, passes: nat, later: nat)
    requires
        valid_links(links),
        paths_after(links, passes + 1) == paths_after(links, passes),
        passes <= later,
    ensures
        paths_after(links, later) == paths_after(links, passes),
    decreases later,
{
    if passes < later {
        let k = (later - 1) as nat;
        lemma_quiet_pass(links, passes, k);
        if passes < k {
            let k1 = (k - 1) as nat;
            lemma_quiet_pass(links, passes, k1);
            assert forall|e: int| 0 <= e < links.len() implies path_after(links, later, e)
                == path_after(links, k, e) by {
                lemma_quiet_step(links, k1, e);
            }
            assert(paths_after(links, later) =~= paths_after(links, k));
        }
    }
}

proof fn lemma_quiet_step(links: Seq<Option<Link>>, k: nat, e: int)
    requires
        valid_links(links),
        0 <= e < links.len(),
        paths_after(links, k + 1) == paths_after(links, k),
    ensures
        path_after(links, k + 2, e) == path_after(links, k + 1, e),
    decreases e,
{
    if e != ROOT_ENTRY && links[e] is Some {
        let l = links[e]->0;
        if 0 <= l.parent < e {
            lemma_quiet_step(links, k, l.parent);
        } else {
            assert(paths_after(links, k + 1)[l.parent] == paths_after(links, k)[l.parent]);
        }
    }
}

/// A path extended by an undecoded name.
pub fn join_name(base: &PathBuf, name_utf16: &[u16]) -> (r: PathBuf)
    ensures
        path_text::path_bytes(r) == path_text::extended(
            path_text::path_bytes(*base),
            decode::utf16_text(name_utf16@),
        ),
        path_text::path_bytes(*base).len() == 0 ==> path_text::path_bytes(r) == encode_utf8(
            decode::utf16_text(name_utf16@),
        ),
        path_text::path_bytes(*base).len() > 0 ==> path_text::path_bytes(r)
            == path_text::pushed_bytes(
            path_text::path_bytes(*base),
            decode::utf16_text(name_utf16@),
        ),
{
    let mut path: PathBuf = base.clone();
    let name: String = decode_name(name_utf16);
    push_name(&mut path, name.as_str());
    path
}

/// `n` entries of which only the root has a path, the empty one.
pub fn only_root(n: usize) -> (paths: Vec<Option<PathBuf>>)
    ensures
        paths@.len() == n,
        forall|e: int|
            0 <= e < n ==> collections::optional_bytes(#[trigger] paths@[e]) == (if e == ROOT_ENTRY {
                Some(Seq::<u8>::empty())
            } else {
                None
            }),
{
    let mut paths: Vec<Option<PathBuf>> = Vec::new();
    let mut e: usize = 0;
    while e < n
        invariant
            e <= n,
            paths@.len() == e,
            forall|i: int|
                0 <= i < e ==> collections::optional_bytes(#[trigger] paths@[i]) == (if i
                    == ROOT_ENTRY {
                    Some(Seq::<u8>::empty())
                } else {
                    None
                }),
        decreases n - e,
    {
        if e == ROOT_ENTRY {
            paths.push(Some(PathBuf::new()));
        } else {
            paths.push(None);
        }
        e = e + 1;
    }
    paths
}

/// Makes one pass; reports whether it found a path.
fn run_pass(
    links: &Vec<Option<NameLink>>,
    paths: &mut Vec<Option<PathBuf>>,
    Ghost(passes): Ghost<nat>,
) -> (changed: bool)
    requires
        valid_links(select::optional_links(links@)),
        collections::all_optional_bytes(old(paths)@) == paths_after(
            select::optional_links(links@),
            passes,
        ),
    ensures
        collections::all_optional_bytes(final(paths)@) == paths_after(
            select::optional_links(links@),
            passes + 1,
        ),
        !changed ==> paths_after(select::optional_links(links@), passes + 1) == paths_after(
            select::optional_links(links@),
            passes,
        ),
{
    let ghost ls = select::optional_links(links@);
    let ghost start = paths_after(ls, passes);
    let ghost goal = paths_after(ls, passes + 1);
    let mut changed: bool = false;
    let mut e: usize = 0;
    assert(paths@.len() == start.len());
    while e < links.len()
        invariant
            ls == select::optional_links(links@),
            start == paths_after(ls, passes),
            goal == paths_after(ls, passes + 1),
            valid_links(ls),
            e <= links@.len(),
            paths@.len() == links@.len(),
            forall|i: int|
                0 <= i < links@.len() ==> #[trigger] collections::all_optional_bytes(paths@)[i] == (
                if i < e {
                    goal[i]
                } else {
                    start[i]
                }),
            !changed ==> forall|i: int| 0 <= i < e ==> goal[i] == #[trigger] start[i],
        decreases links@.len() - e,
    {
        let ghost before = collections::all_optional_bytes(paths@);
        assert(before[e as int] == start[e as int]);
        if paths[e].is_some() {
            proof {
                lemma_paths_stay(ls, passes, e as int);
            }
        } else {
            let link: Option<NameLink> = links[e];
            if let Some(l) = link {
                assert(ls[e as int] == Some(l@));
                let ghost p = l.parent as int;
                assert(before[p] == (if p < e {
                    goal[p]
                } else {
                    start[p]
                }));
                let mut found: Option<PathBuf> = None;
                if let Some(base) = &paths[l.parent] {
                    found = Some(join_name(base, l.name_utf16));
                }
                if found.is_some() {
                    paths.set(e, found);
                    changed = true;
                }
                proof {
                    let now = collections::all_optional_bytes(paths@);
                    assert forall|i: int| 0 <= i < ls.len() && i != e implies #[trigger] now[i]
                        == before[i] by {
                    }
                }
            }
        }
        e = e + 1;
    }
    assert(collections::all_optional_bytes(paths@) =~= goal);
    assert(!changed ==> goal =~= start);
    changed
}

/// The paths that repeated passes find within the limit.
pub open spec fn multipass_paths(links: Seq<Option<Link>>) -> Seq<Option<Seq<u8>>> {
    paths_after(links, MAX_PASSES as nat)
}

/// The canonical links of a collection lead to its entries.
pub proof fn lemma_canonical_valid(file_names: FileNameCollection)
    ensures
        valid_links(select::canonical_links(file_names)),
{
}

/// Resolves paths by passes over all entries in ascending order, until a pass finds nothing new
/// or the limit is reached.
pub fn resolve_paths_simple_multipass(file_names: &FileNameCollection<'_>) -> (r: Result<
    ResolvedPaths,
    ResolveError,
>)
    ensures
        r matches Ok(paths) && paths@ == multipass_paths(select::canonical_links(*file_names)),
{
    let links: Vec<Option<NameLink>> = select_canonical(file_names);
    let ghost ls = select::canonical_links(*file_names);
    proof {
        lemma_canonical_valid(*file_names);
    }
    let mut paths: Vec<Option<PathBuf>> = only_root(links.len());
    assert(collections::all_optional_bytes(paths@) =~= paths_after(ls, 0));
    let mut changed: bool = true;
    let mut passes: u32 = 0;
    while changed && passes < MAX_PASSES
        invariant
            ls == select::optional_links(links@),
            valid_links(ls),
            passes <= MAX_PASSES,
            collections::all_optional_bytes(paths@) == paths_after(ls, passes as nat),
            !changed ==> passes > 0 && paths_after(ls, passes as nat) == paths_after(
                ls,
                (passes - 1) as nat,
            ),
        decreases MAX_PASSES - passes,
    {
        changed = run_pass(&links, &mut paths, Ghost(passes as nat));
        passes = passes + 1;
    }
    proof {
        if passes < MAX_PASSES {
            lemma_quiet_pass(ls, (passes - 1) as nat, MAX_PASSES as nat);
        }
    }
    Ok(ResolvedPaths(paths))
}

} // verus!
