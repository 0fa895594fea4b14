//! Resolution along the canonical parent of each entry, parents first.
use crate::fast_entry::FileNameCollection;
use crate::path_resolve::ancestry;
use crate::path_resolve::collections;
use crate::path_resolve::collections::ResolvedPaths;
use crate::path_resolve::decode;
use crate::path_resolve::decode::decode_name;
use crate::path_resolve::dfs;
use crate::path_resolve::dfs::finish_order;
use crate::path_resolve::error::ResolveError;
use crate::path_resolve::multipass;
use crate::path_resolve::multipass::{join_name, only_root, ROOT_ENTRY};
use crate::path_resolve::path_text;
use crate::path_resolve::path_text::path_from_name;
use crate::path_resolve::select;
use crate::path_resolve::select::{select_canonical, Link, NameLink};
use std::path::PathBuf;
use vstd::prelude::*;
use vstd::utf8::*;

verus! {

/// The graph in which each entry leads to its canonical parent.
pub open spec fn parent_graph(links: Seq<Option<Link>>) -> Seq<Seq<int>> {
    Seq::new(
        links.len(),
        |e: int|
            match links[e] {
                Some(l) => seq![l.parent],
                None => Seq::empty(),
            },
    )
}

/// The order in which entries are settled: that in which a depth-first visit along the parents
/// finishes them.
pub open spec fn settling_order(links: Seq<Option<Link>>) -> Seq<int> {
    dfs::finish_sequence(parent_graph(links))
}

/// Whether the parent `p` has its final path when entry `e` is settled: the root always has,
/// any other once it is settled itself.
pub open spec fn is_settled_for(order: Seq<int>, p: int, e: int) -> bool {
    p == ROOT_ENTRY || 0 <= order.index_of(p) < order.index_of(e)
}

/// The path of entry `e` when entries are settled in the given order.
///
/// The root has the empty path, and an entry in the root its name. An entry that is its own
/// parent starts a tree of its own, with its name as its path. Any other entry has the path of
/// its parent extended by its name, if the parent has one by the time the entry is settled.
pub open spec fn settled_path(links: Seq<Option<Link>>, order: Seq<int>, e: int) -> Option<Seq<u8>>
    decreases order.index_of(e),
{
    if e == ROOT_ENTRY {
        Some(Seq::empty())
    } else {
        match links[e] {
            None => None,
            Some(l) => if l.parent == e || l.parent == ROOT_ENTRY {
                Some(encode_utf8(l.name))
            } else if is_settled_for(order, l.parent, e) {
                multipass::joined(settled_path(links, order, l.parent), l.name)
            } else {
                None
            },
        }
    }
}

/// The paths that settling the entries in depth-first order gives them.
pub open spec fn simple_paths(links: Seq<Option<Link>>) -> Seq<Option<Seq<u8>>> {
    Seq::new(links.len(), |e: int| settled_path(links, settling_order(links), e))
}

/// In a sequence without duplicates an entry has one index.
pub proof fn lemma_index_of(order: Seq<int>, i: int)
    requires
        order.no_duplicates(),
        0 <= i < order.len(),
    ensures
        order.index_of(order[i]) == i,
{
    let j = order.index_of(order[i]);
    assert(order.contains(order[i]));
    assert(order[j] == order[i]);
}

/// Among entries without duplicates, to occur before is to have the smaller index.
pub proof fn lemma_before_index(order: Seq<int>, a: int, b: int)
    requires
        order.no_duplicates(),
        order.contains(a),
        order.contains(b),
    ensures
        dfs::before(order, a, b) <==> 0 <= order.index_of(a) < order.index_of(b),
{
    let i = order.index_of(a);
    let j = order.index_of(b);
    assert(order[i] == a && order[j] == b);
    if dfs::before(order, a, b) {
        let (k, m) = choose|k: int, m: int|
            #![trigger order[k], order[m]]
            0 <= k < m < order.len() && order[k] == a && order[m] == b;
        lemma_index_of(order, k);
        lemma_index_of(order, m);
    }
}

/// Links to entries make a graph on the entries.
pub proof fn lemma_parent_graph_closed(links: Seq<Option<Link>>)
    requires
        multipass::valid_links(links),
    ensures
        dfs::closed_graph(parent_graph(links)),
{
    let g = parent_graph(links);
    assert forall|e: int, k: int|
        #![trigger g[e][k]]
        0 <= e < g.len() && 0 <= k < g[e].len() implies 0 <= g[e][k] < g.len() by {
        assert(links[e] is Some);
    }
}

/// The parents of entries as successor lists.
fn parent_lists(links: &Vec<Option<NameLink>>) -> (lists: Vec<Vec<usize>>)
    ensures
        dfs::graph_view(lists@) == parent_graph(select::optional_links(links@)),
{
    let mut lists: Vec<Vec<usize>> = Vec::new();
    let mut e: usize = 0;
    while e < links.len()
        invariant
            e <= links@.len(),
            lists@.len() == e,
            forall|i: int|
                0 <= i < e ==> dfs::int_seq((#[trigger] lists@[i])@) == parent_graph(
                    select::optional_links(links@),
                )[i],
        decreases links@.len() - e,
    {
        let mut list: Vec<usize> = Vec::new();
        if let Some(l) = links[e] {
            list.push(l.parent);
        }
        assert(dfs::int_seq(list@) =~= parent_graph(select::optional_links(links@))[e as int]);
        lists.push(list);
        e = e + 1;
    }
    assert(dfs::graph_view(lists@) =~= parent_graph(select::optional_links(links@)));
    lists
}

/// Resolves paths along the canonical parents, each entry after its parent wherever the parents
/// of an entry do not lead back to it.
pub fn resolve_paths_simple(file_names: &FileNameCollection<'_>) -> (r: Result<
    ResolvedPaths,
    ResolveError,
>)
    ensures
        r matches Ok(paths) && paths@ == simple_paths(select::canonical_links(*file_names)),
        r matches Ok(paths) ==> ancestry::root_unlooped(select::canonical_links(*file_names))
            ==> forall|e: int|
            0 <= e < paths@.len() ==> #[trigger] paths@[e] == ancestry::rooted_path(
                select::canonical_links(*file_names),
                e,
            ),
{
    let links: Vec<Option<NameLink>> = select_canonical(file_names);
    let ghost ls = select::canonical_links(*file_names);
    let ghost g = parent_graph(ls);
    proof {
        multipass::lemma_canonical_valid(*file_names);
        lemma_parent_graph_closed(ls);
        dfs::lemma_finish_sequence(g);
    }
    let lists: Vec<Vec<usize>> = parent_lists(&links);
    let order: Vec<usize> = finish_order(&lists);
    let ghost ord = settling_order(ls);
    let n: usize = links.len();
    let mut paths: Vec<Option<PathBuf>> = only_root(n);
    let mut i: usize = 0;
    assert forall|e: int| 0 <= e < n implies 0 <= #[trigger] ord.index_of(e) by {
        assert(ord.contains(e));
    }
    while i < order.len()
        invariant
            ls == select::optional_links(links@),
            multipass::valid_links(ls),
            ord == settling_order(ls),
            ord == dfs::int_seq(order@),
            ord.no_duplicates(),
            ord.len() == n,
            n == links@.len(),
            forall|e: int| 0 <= e < n ==> #[trigger] ord.contains(e),
            forall|j: int| 0 <= j < ord.len() ==> 0 <= #[trigger] ord[j] < n,
            i <= order@.len(),
            paths@.len() == n,
            forall|e: int|
                0 <= e < n ==> #[trigger] collections::all_optional_bytes(paths@)[e] == (if e
                    == ROOT_ENTRY {
                    Some(Seq::<u8>::empty())
                } else if ord.index_of(e) < i {
                    settled_path(ls, ord, e)
                } else {
                    None
                }),
        decreases order@.len() - i,
    {
        let e: usize = order[i];
        let ghost before = collections::all_optional_bytes(paths@);
        proof {
            assert(ord[i as int] == e as int);
            lemma_index_of(ord, i as int);
            assert forall|x: int| 0 <= x < n && x != e implies #[trigger] ord.index_of(x) != i by {
                assert(ord.contains(x));
            }
        }
        if e != ROOT_ENTRY {
            let mut found: Option<PathBuf> = None;
            if let Some(l) = links[e] {
                assert(ls[e as int] == Some(l@));
                if l.parent == e {
                    let name: String = decode_name(l.name_utf16);
                    found = Some(path_from_name(name.as_str()));
                } else if let Some(base) = &paths[l.parent] {
                    found = Some(join_name(base, l.name_utf16));
                }
                assert(collections::optional_bytes(found) == settled_path(ls, ord, e as int)) by {
                    let p = l.parent as int;
                    assert(ord.contains(p));
                    assert(before[p] == collections::optional_bytes(paths@[p]));
                }
            }
            paths.set(e, found);
            proof {
                let now = collections::all_optional_bytes(paths@);
                assert forall|x: int| 0 <= x < n && x != e implies #[trigger] now[x]
                    == before[x] by {
                }
            }
        }
        i = i + 1;
    }
    proof {
        assert forall|e: int| 0 <= e < n implies #[trigger] collections::all_optional_bytes(
            paths@,
        )[e] == simple_paths(ls)[e] by {
            assert(ord.contains(e));
        }
        assert(collections::all_optional_bytes(paths@) =~= simple_paths(ls));
        if ancestry::root_unlooped(ls) {
            ancestry::lemma_unlooped_root(ls);
            ancestry::lemma_simple_follows_ancestors(ls);
        }
    }
    Ok(ResolvedPaths(paths))
}

} // verus!
