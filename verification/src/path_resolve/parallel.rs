//! Resolution along all parents of each entry, many entries at a time.
//!
//! Entries are grouped into layers, such that the parents an entry depends on are in earlier
//! layers; the entries of a layer are then independent of each other.
use crate::fast_entry::FileNameCollection;
use crate::path_resolve::all_paths;
use crate::path_resolve::all_paths::{build_paths, only_root_paths};
use crate::path_resolve::collections::MftEntryPathCollection;
use crate::path_resolve::dfs;
use crate::path_resolve::dfs::finish_order;
use crate::path_resolve::error::ResolveError;
use crate::path_resolve::multipass::ROOT_ENTRY;
use crate::path_resolve::path_text;
use crate::path_resolve::select;
use crate::path_resolve::select::{select_all_parents, Link, NameLink};
use crate::path_resolve::simple;
use rayon::iter::{IntoParallelRefIterator, ParallelIterator};
use std::path::PathBuf;
use vstd::prelude::*;

verus! {

/// The parents of entries as successor lists, in the order of the links.
fn forward_lists(lists: &Vec<Vec<NameLink>>) -> (r: Vec<Vec<usize>>)
    ensures
        dfs::graph_view(r@) == all_paths::forward_graph(select::link_lists(lists@)),
{
    let ghost ls = select::link_lists(lists@);
    let mut r: Vec<Vec<usize>> = Vec::new();
    let mut e: usize = 0;
    while e < lists.len()
        invariant
            ls == select::link_lists(lists@),
            e <= lists@.len(),
            r@.len() == e,
            forall|i: int|
                0 <= i < e ==> dfs::int_seq((#[trigger] r@[i])@) == all_paths::forward_graph(ls)[i],
        decreases lists@.len() - e,
    {
        let mut list: Vec<usize> = Vec::new();
        let mut k: usize = 0;
        while k < lists[e].len()
            invariant
                ls == select::link_lists(lists@),
                e < lists@.len(),
                k <= lists@[e as int]@.len(),
                list@.len() == k,
                forall|j: int| 0 <= j < k ==> #[trigger] list@[j] == lists@[e as int]@[j].parent,
            decreases lists@[e as int]@.len() - k,
        {
            list.push(lists[e][k].parent);
            k = k + 1;
        }
        assert(dfs::int_seq(list@) =~= all_paths::forward_graph(ls)[e as int]);
        r.push(list);
        e = e + 1;
    }
    assert(dfs::graph_view(r@) =~= all_paths::forward_graph(ls));
    r
}

/// An entry is deeper than every parent, the entry itself apart, that finishes before it.
spec fn deeper_than_parents(
    lists: Seq<Seq<Link>>,
    order: Seq<int>,
    depths: Seq<usize>,
    e: int,
) -> bool {
    forall|k: int|
        #![trigger lists[e][k]]
        0 <= k < lists[e].len() && lists[e][k].parent != e && 0 <= order.index_of(
            lists[e][k].parent,
        ) < order.index_of(e) ==> depths[lists[e][k].parent] < depths[e]
}

/// The depth of every entry: one more than the greatest depth among its parents, where a parent
/// that is not finished when the entry is counts as depth 0.
fn entry_depths(lists: &Vec<Vec<NameLink>>, order: &Vec<usize>) -> (depths: Vec<usize>)
    requires
        all_paths::valid_lists(select::link_lists(lists@)),
        order@.len() == lists@.len(),
        dfs::int_seq(order@).no_duplicates(),
        forall|i: int| 0 <= i < order@.len() ==> #[trigger] order@[i] < lists@.len(),
        forall|e: int| 0 <= e < lists@.len() ==> #[trigger] dfs::int_seq(order@).contains(e),
    ensures
        depths@.len() == lists@.len(),
        forall|e: int| 0 <= e < lists@.len() ==> #[trigger] depths@[e] <= lists@.len(),
        forall|e: int|
            0 <= e < lists@.len() ==> #[trigger] deeper_than_parents(
                select::link_lists(lists@),
                dfs::int_seq(order@),
                depths@,
                e,
            ),
{
    let ghost ls = select::link_lists(lists@);
    let ghost ord = dfs::int_seq(order@);
    let n: usize = lists.len();
    let mut depths: Vec<usize> = Vec::new();
    let mut j: usize = 0;
    while j < n
        invariant
            j <= n,
            depths@.len() == j,
            forall|e: int| 0 <= e < j ==> #[trigger] depths@[e] == 0,
        decreases n - j,
    {
        depths.push(0);
        j = j + 1;
    }
    let mut i: usize = 0;
    assert forall|e: int| 0 <= e < n implies 0 <= #[trigger] ord.index_of(e) by {
        assert(ord.contains(e));
    }
    while i < n
        invariant
            ls == select::link_lists(lists@),
            ord == dfs::int_seq(order@),
            n == lists@.len(),
            n == order@.len(),
            i <= n,
            all_paths::valid_lists(ls),
            ord.no_duplicates(),
            forall|x: int| 0 <= x < order@.len() ==> #[trigger] order@[x] < n,
            forall|e: int| 0 <= e < n ==> #[trigger] ord.contains(e),
            depths@.len() == n,
            forall|e: int| 0 <= e < n ==> #[trigger] depths@[e] <= i,
            forall|e: int|
                0 <= e < n && 0 <= ord.index_of(e) < i ==> #[trigger] deeper_than_parents(
                    ls,
                    ord,
                    depths@,
                    e,
                ),
        decreases n - i,
    {
        let e: usize = order[i];
        let ghost before = depths@;
        proof {
            assert(ord[i as int] == e as int);
            simple::lemma_index_of(ord, i as int);
            assert(ls[e as int] == select::link_views(lists@[e as int]@));
        }
        let mut best: usize = 0;
        let mut k: usize = 0;
        while k < lists[e].len()
            invariant
                e < n,
                n == lists@.len(),
                ls == select::link_lists(lists@),
                all_paths::valid_lists(ls),
                ls[e as int] == select::link_views(lists@[e as int]@),
                k <= lists@[e as int]@.len(),
                depths@ == before,
                depths@.len() == n,
                i < n,
                forall|x: int| 0 <= x < n ==> #[trigger] depths@[x] <= i,
                best <= i + 1,
                forall|j: int|
                    #![trigger ls[e as int][j]]
                    0 <= j < k && ls[e as int][j].parent != e
                        ==> before[ls[e as int][j].parent] < best,
            decreases lists@[e as int]@.len() - k,
        {
            let parent: usize = lists[e][k].parent;
            assert(ls[e as int][k as int].parent == parent);
            if parent != e {
                let deeper: usize = depths[parent] + 1;
                if deeper > best {
                    best = deeper;
                }
            }
            k = k + 1;
        }
        depths.set(e, best);
        proof {
            assert forall|x: int| 0 <= x < n && 0 <= ord.index_of(x) < i
                + 1 implies #[trigger] deeper_than_parents(ls, ord, depths@, x) by {
                assert(ord.contains(x));
                if x != e {
                    assert(ord[ord.index_of(x)] == x);
                    assert(deeper_than_parents(ls, ord, before, x));
                }
                assert forall|k: int|
                    #![trigger ls[x][k]]
                    0 <= k < ls[x].len() && ls[x][k].parent != x && 0 <= ord.index_of(
                        ls[x][k].parent,
                    ) < ord.index_of(x) implies depths@[ls[x][k].parent] < depths@[x] by {
                    let p = ls[x][k].parent;
                    assert(0 <= p < n);
                    assert(p != e);
                    assert(depths@[p] == before[p]);
                    if x != e {
                        assert(before[p] < before[x]);
                    }
                }
            }
        }
        i = i + 1;
    }
    assert forall|e: int| 0 <= e < n implies #[trigger] deeper_than_parents(ls, ord, depths@, e) by {
        assert(ord.contains(e));
    }
    depths
}

/// A descending chain leads to entries of less and less depth.
proof fn lemma_chain_depths(
    lists: Seq<Seq<Link>>,
    order: Seq<int>,
    depths: Seq<usize>,
    c: Seq<int>,
)
    requires
        all_paths::valid_lists(lists),
        order.no_duplicates(),
        forall|e: int| 0 <= e < lists.len() ==> #[trigger] order.contains(e),
        forall|e: int|
            0 <= e < lists.len() ==> #[trigger] deeper_than_parents(lists, order, depths, e),
        dfs::descending(all_paths::forward_graph(lists), order, c),
        c.len() >= 2,
    ensures
        depths[c.last()] < depths[c[0]],
    decreases c.len(),
{
    let g = all_paths::forward_graph(lists);
    let head = c[0];
    let next = c[1];
    assert(dfs::links_to(g, head, next) && dfs::before(order, next, head));
    let k = choose|k: int| 0 <= k < g[head].len() && #[trigger] g[head][k] == next;
    assert(lists[head][k].parent == next);
    assert(order.contains(next) && order.contains(head));
    simple::lemma_before_index(order, next, head);
    assert(deeper_than_parents(lists, order, depths, head));
    assert(depths[next] < depths[head]);
    if c.len() > 2 {
        let rest = c.drop_first();
        assert forall|j: int| 0 <= j < rest.len() - 1 implies dfs::links_to(
            g,
            #[trigger] rest[j],
            rest[j + 1],
        ) && dfs::before(order, rest[j + 1], rest[j]) by {
            assert(rest[j] == c[j + 1] && rest[j + 1] == c[j + 1 + 1]);
        }
        lemma_chain_depths(lists, order, depths, rest);
    }
}

/// A parent is less deep than an entry exactly if it finishes before it.
proof fn lemma_depth_is_order(
    lists: Seq<Seq<Link>>,
    depths: Seq<usize>,
    e: int,
    k: int,
)
    requires
        all_paths::valid_lists(lists),
        forall|x: int|
            0 <= x < lists.len() ==> #[trigger] deeper_than_parents(
                lists,
                all_paths::forward_order(lists),
                depths,
                x,
            ),
        0 <= e < lists.len(),
        0 <= k < lists[e].len(),
        lists[e][k].parent != e,
    ensures
        depths[lists[e][k].parent] < depths[e] <==> 0 <= all_paths::forward_order(lists).index_of(
            lists[e][k].parent,
        ) < all_paths::forward_order(lists).index_of(e),
{
    let g = all_paths::forward_graph(lists);
    let order = all_paths::forward_order(lists);
    let p = lists[e][k].parent;
    all_paths::lemma_graphs_closed(lists);
    dfs::lemma_finish_sequence(g);
    assert(deeper_than_parents(lists, order, depths, e));
    assert(order.contains(p) && order.contains(e));
    simple::lemma_before_index(order, p, e);
    if !dfs::before(order, p, e) {
        assert(g[e][k] == p);
        assert(dfs::links_to(g, e, p));
        assert(dfs::below(g, order, p, e));
        let c = choose|c: Seq<int>|
            #[trigger] dfs::descending(g, order, c) && c.len() >= 1 && c[0] == p && c.last() == e;
        lemma_chain_depths(lists, order, depths, c);
    }
}

/// Entry `e` is in the layer of its depth, and in no other.
spec fn layered(layers: Seq<Vec<usize>>, depths: Seq<usize>, e: int) -> bool {
    &&& depths[e] < layers.len()
    &&& exists|i: int| 0 <= i < layers[depths[e] as int]@.len() && layers[depths[e] as int]@[i] == e
}

/// The entries of each depth.
fn entry_layers(depths: &Vec<usize>) -> (layers: Vec<Vec<usize>>)
    requires
        forall|e: int| 0 <= e < depths@.len() ==> #[trigger] depths@[e] <= depths@.len(),
    ensures
        forall|e: int| 0 <= e < depths@.len() ==> #[trigger] layered(layers@, depths@, e),
        forall|d: int, i: int|
            0 <= d < layers@.len() && 0 <= i < layers@[d]@.len() ==> {
                &&& (#[trigger] layers@[d]@[i]) < depths@.len()
                &&& depths@[layers@[d]@[i] as int] == d
            },
{
    let mut max_depth: usize = 0;
    let mut e: usize = 0;
    while e < depths.len()
        invariant
            e <= depths@.len(),
            forall|x: int| 0 <= x < e ==> #[trigger] depths@[x] <= max_depth,
            forall|x: int| 0 <= x < depths@.len() ==> #[trigger] depths@[x] <= depths@.len(),
            max_depth <= depths@.len(),
        decreases depths@.len() - e,
    {
        if depths[e] > max_depth {
            max_depth = depths[e];
        }
        e = e + 1;
    }
    let mut layers: Vec<Vec<usize>> = Vec::new();
    layers.push(Vec::new());
    let mut d: usize = 0;
    while d < max_depth
        invariant
            d <= max_depth,
            layers@.len() == d + 1,
            forall|x: int| 0 <= x < layers@.len() ==> (#[trigger] layers@[x])@.len() == 0,
        decreases max_depth - d,
    {
        layers.push(Vec::new());
        d = d + 1;
    }
    e = 0;
    while e < depths.len()
        invariant
            e <= depths@.len(),
            layers@.len() == max_depth + 1,
            forall|x: int| 0 <= x < depths@.len() ==> #[trigger] depths@[x] <= max_depth,
            forall|x: int| 0 <= x < e ==> #[trigger] layered(layers@, depths@, x),
            forall|d: int, i: int|
                0 <= d < layers@.len() && 0 <= i < layers@[d]@.len() ==> {
                    &&& (#[trigger] layers@[d]@[i]) < depths@.len()
                    &&& depths@[layers@[d]@[i] as int] == d
                },
        decreases depths@.len() - e,
    {
        let ghost before = layers@;
        let depth: usize = depths[e];
        layers[depth].push(e);
        proof {
            assert(layers@[depth as int]@ == before[depth as int]@.push(e));
            assert forall|x: int| 0 <= x < e + 1 implies #[trigger] layered(
                layers@,
                depths@,
                x,
            ) by {
                let dx = depths@[x] as int;
                if x < e {
                    assert(layered(before, depths@, x));
                    let i = choose|i: int| 0 <= i < before[dx]@.len() && before[dx]@[i] == x;
                    assert(layers@[dx]@[i] == x);
                } else {
                    assert(layers@[dx]@[before[dx]@.len() as int] == x);
                }
            }
            assert forall|d: int, i: int|
                0 <= d < layers@.len() && 0 <= i < layers@[d]@.len() implies {
                &&& (#[trigger] layers@[d]@[i]) < depths@.len()
                &&& depths@[layers@[d]@[i] as int] == d
            } by {
                if i < before[d]@.len() {
                    assert(layers@[d]@[i] == before[d]@[i]);
                }
            }
        }
        e = e + 1;
    }
    layers
}

/// The paths that are new for an entry: none if it has some already, else those built from the
/// paths of its parents.
pub open spec fn new_paths(links: Seq<Link>, e: int, known: Seq<Seq<Seq<u8>>>) -> Seq<Seq<u8>> {
    if known[e].len() > 0 {
        Seq::empty()
    } else {
        all_paths::built_paths(links, e, known)
    }
}

/// Builds the paths that are new for an entry.
pub fn build_new_paths(
    e: usize,
    lists: &Vec<Vec<NameLink>>,
    known: &Vec<Vec<PathBuf>>,
) -> (r: (usize, Vec<PathBuf>))
    requires
        e < lists@.len(),
        known@.len() == lists@.len(),
        all_paths::valid_lists(select::link_lists(lists@)),
    ensures
        r.0 == e,
        known@[e as int]@.len() > 0 ==> r.1@.len() == 0,
        path_text::all_bytes(r.1@) == new_paths(
            select::link_lists(lists@)[e as int],
            e as int,
            all_paths::path_lists(known@),
        ),
        known@[e as int]@.len() == 0 ==> path_text::is_tidy(
            path_text::all_bytes(r.1@),
            all_paths::paths_via(
                select::link_lists(lists@)[e as int],
                e as int,
                all_paths::path_lists(known@),
                select::link_lists(lists@)[e as int].len(),
            ),
        ),
{
    let ghost ls = select::link_lists(lists@);
    if known[e].len() > 0 {
        let none: Vec<PathBuf> = Vec::new();
        assert(path_text::all_bytes(none@) =~= Seq::empty());
        (e, none)
    } else {
        assert forall|k: int| 0 <= k < lists@[e as int]@.len() implies (
        #[trigger] lists@[e as int]@[k]).parent < known@.len() by {
            assert(ls[e as int][k] == lists@[e as int]@[k]@);
        }
        (e, build_paths(&lists[e], e, known))
    }
}

/// `par_iter`, `map` and `collect` of `rayon` call [`build_new_paths`] for each entry, on worker
/// threads, and collect what it returns in the order of the entries. (Should no worker thread
/// be startable, `rayon` panics; that does not depend on the arguments.)
#[verifier::external_body]
fn build_layer(
    entries: &Vec<usize>,
    lists: &Vec<Vec<NameLink>>,
    known: &Vec<Vec<PathBuf>>,
) -> (outputs: Vec<(usize, Vec<PathBuf>)>)
    requires
        forall|i: int| 0 <= i < entries@.len() ==> #[trigger] entries@[i] < lists@.len(),
        known@.len() == lists@.len(),
        all_paths::valid_lists(select::link_lists(lists@)),
    ensures
        outputs@.len() == entries@.len(),
        forall|i: int|
            0 <= i < entries@.len() ==> {
                &&& (#[trigger] outputs@[i]).0 == entries@[i]
                &&& path_text::all_bytes(outputs@[i].1@) == new_paths(
                    select::link_lists(lists@)[entries@[i] as int],
                    entries@[i] as int,
                    all_paths::path_lists(known@),
                )
                &&& known@[entries@[i] as int]@.len() == 0 ==> path_text::is_tidy(
                    path_text::all_bytes(outputs@[i].1@),
                    all_paths::paths_via(
                        select::link_lists(lists@)[entries@[i] as int],
                        entries@[i] as int,
                        all_paths::path_lists(known@),
                        select::link_lists(lists@)[entries@[i] as int].len(),
                    ),
                )
            },
{
    entries.par_iter().map(|e| build_new_paths(*e, lists, known)).collect()
}

/// Puts the new paths of several entries in place.
fn write_outputs(paths: &mut Vec<Vec<PathBuf>>, outputs: Vec<(usize, Vec<PathBuf>)>)
    requires
        forall|i: int| 0 <= i < outputs@.len() ==> (#[trigger] outputs@[i]).0 < old(paths)@.len(),
        forall|i: int, j: int|
            0 <= i < outputs@.len() && 0 <= j < outputs@.len() && outputs@[i].0 == outputs@[j].0
                ==> path_text::all_bytes((#[trigger] outputs@[i]).1@) == path_text::all_bytes(
                (#[trigger] outputs@[j]).1@,
            ),
    ensures
        final(paths)@.len() == old(paths)@.len(),
        forall|i: int|
            0 <= i < outputs@.len() && (#[trigger] outputs@[i]).1@.len() > 0
                ==> all_paths::path_lists(final(paths)@)[outputs@[i].0 as int]
                == path_text::all_bytes(outputs@[i].1@),
        forall|e: int|
            0 <= e < old(paths)@.len() && (forall|i: int|
                0 <= i < outputs@.len() && (#[trigger] outputs@[i]).0 == e
                    ==> outputs@[i].1@.len() == 0) ==> #[trigger] all_paths::path_lists(
                final(paths)@,
            )[e] == all_paths::path_lists(old(paths)@)[e],
{
    let ghost all = outputs@;
    let ghost start = all_paths::path_lists(paths@);
    let mut left: Vec<(usize, Vec<PathBuf>)> = outputs;
    while left.len() > 0
        invariant
            left@.len() <= all.len(),
            forall|i: int| 0 <= i < left@.len() ==> #[trigger] left@[i] == all[i],
            paths@.len() == start.len(),
            paths@.len() == old(paths)@.len(),
            start == all_paths::path_lists(old(paths)@),
            forall|i: int| 0 <= i < all.len() ==> (#[trigger] all[i]).0 < paths@.len(),
            forall|i: int, j: int|
                0 <= i < all.len() && 0 <= j < all.len() && all[i].0 == all[j].0
                    ==> path_text::all_bytes((#[trigger] all[i]).1@) == path_text::all_bytes(
                    (#[trigger] all[j]).1@,
                ),
            forall|i: int|
                left@.len() <= i < all.len() && (#[trigger] all[i]).1@.len() > 0
                    ==> all_paths::path_lists(paths@)[all[i].0 as int] == path_text::all_bytes(
                    all[i].1@,
                ),
            forall|e: int|
                0 <= e < paths@.len() && (forall|i: int|
                    0 <= i < all.len() && (#[trigger] all[i]).0 == e ==> all[i].1@.len() == 0)
                    ==> #[trigger] all_paths::path_lists(paths@)[e] == start[e],
        decreases left@.len(),
    {
        let ghost before = all_paths::path_lists(paths@);
        let ghost last = left@.len() - 1;
        if let Some(output) = left.pop() {
            assert(output == all[last]);
            let (e, found) = output;
            if found.len() > 0 {
                paths.set(e, found);
                proof {
                    let now = all_paths::path_lists(paths@);
                    assert forall|x: int| 0 <= x < now.len() && x != e implies #[trigger] now[x]
                        == before[x] by {
                    }
                    assert(now[e as int] == path_text::all_bytes(all[last].1@));
                    assert forall|i: int|
                        last <= i < all.len() && (#[trigger] all[i]).1@.len() > 0 implies
                        now[all[i].0 as int] == path_text::all_bytes(all[i].1@) by {
                        if all[i].0 == e {
                            assert(all[last].0 == e);
                        } else {
                            assert(before[all[i].0 as int] == path_text::all_bytes(all[i].1@));
                        }
                    }
                }
            }
        }
    }
}

/// Resolves all paths, the entries of a layer at a time.
pub fn resolve_paths_all_parallel(file_names: &FileNameCollection<'_>) -> (r: Result<
    MftEntryPathCollection,
    ResolveError,
>)
    ensures
        r matches Ok(paths) && paths@ == all_paths::all_settled_paths(
            select::all_parent_links(*file_names),
            all_paths::forward_order(select::all_parent_links(*file_names)),
        ),
        r matches Ok(paths) ==> all_paths::all_well_built(
            select::all_parent_links(*file_names),
            all_paths::forward_order(select::all_parent_links(*file_names)),
            paths@,
        ),
        r matches Ok(paths) ==> all_paths::all_spelled(
            select::all_parent_links(*file_names),
            paths@,
        ),
        r matches Ok(paths) ==> dfs::acyclic(
            all_paths::forward_graph(select::all_parent_links(*file_names)),
        ) ==> forall|e: int|
            0 <= e < paths@.len() ==> ((#[trigger] paths@[e]).len() > 0
                <==> all_paths::reaches_root(select::all_parent_links(*file_names), e)),
        r matches Ok(paths) ==> dfs::acyclic(
            all_paths::forward_graph(select::all_parent_links(*file_names)),
        ) && path_text::extending_keeps_sameness() ==> all_paths::all_listed(select::all_parent_links(*file_names), paths@),
{
    let lists: Vec<Vec<NameLink>> = select_all_parents(file_names);
    let ghost ls = select::all_parent_links(*file_names);
    proof {
        all_paths::lemma_parent_links_valid(*file_names);
        all_paths::lemma_graphs_closed(ls);
        dfs::lemma_finish_sequence(all_paths::forward_graph(ls));
    }
    let order: Vec<usize> = finish_order(&forward_lists(&lists));
    let ghost ord = all_paths::forward_order(ls);
    assert forall|i: int| 0 <= i < order@.len() implies #[trigger] order@[i] < lists@.len() by {
        assert(ord[i] == order@[i]);
    }
    assert(order@.len() == ord.len());
    let depths: Vec<usize> = entry_depths(&lists, &order);
    let layers: Vec<Vec<usize>> = entry_layers(&depths);
    let n: usize = lists.len();
    let mut paths: Vec<Vec<PathBuf>> = only_root_paths(n);
    let mut d: usize = 0;
    while d < layers.len()
        invariant
            ls == select::link_lists(lists@),
            all_paths::valid_lists(ls),
            ord == all_paths::forward_order(ls),
            n == lists@.len(),
            n == depths@.len(),
            forall|e: int| 0 <= e < n ==> #[trigger] ord.contains(e),
            d <= layers@.len(),
            paths@.len() == n,
            forall|e: int|
                0 <= e < n ==> #[trigger] deeper_than_parents(ls, ord, depths@, e),
            forall|e: int| 0 <= e < n ==> #[trigger] layered(layers@, depths@, e),
            forall|x: int, i: int|
                0 <= x < layers@.len() && 0 <= i < layers@[x]@.len() ==> {
                    &&& (#[trigger] layers@[x]@[i]) < n
                    &&& depths@[layers@[x]@[i] as int] == x
                },
            forall|e: int|
                0 <= e < n ==> #[trigger] all_paths::path_lists(paths@)[e] == (if e == ROOT_ENTRY {
                    seq![Seq::<u8>::empty()]
                } else if depths@[e] < d {
                    all_paths::settled_paths(ls, ord, e)
                } else {
                    Seq::empty()
                }),
            forall|e: int|
                0 <= e < n && e != ROOT_ENTRY && depths@[e] < d ==> path_text::is_tidy(
                    #[trigger] all_paths::path_lists(paths@)[e],
                    all_paths::settled_via(ls, ord, e, ls[e].len()),
                ),
        decreases layers@.len() - d,
    {
        let ghost known = all_paths::path_lists(paths@);
        let ghost ids = layers@[d as int]@;
        assert forall|i: int| 0 <= i < ids.len() implies #[trigger] ids[i] < lists@.len() by {
            assert(layers@[d as int]@[i] == ids[i]);
        }
        let outputs: Vec<(usize, Vec<PathBuf>)> = build_layer(&layers[d], &lists, &paths);
        let ghost outs = outputs@;
        proof {
            assert forall|i: int| 0 <= i < outs.len() implies (#[trigger] outs[i]).0 == ids[i]
                && ids[i] < n && path_text::all_bytes(outs[i].1@) == (if ids[i] == ROOT_ENTRY {
                Seq::empty()
            } else {
                all_paths::settled_paths(ls, ord, ids[i] as int)
            }) && (ids[i] != ROOT_ENTRY ==> path_text::is_tidy(
                path_text::all_bytes(outs[i].1@),
                all_paths::settled_via(ls, ord, ids[i] as int, ls[ids[i] as int].len()),
            )) by {
                let e = ids[i] as int;
                assert(layers@[d as int]@[i] == ids[i]);
                assert(depths@[e] == d);
                assert(known[e] == all_paths::path_lists(paths@)[e]);
                if e != ROOT_ENTRY {
                    lemma_known_in_layer(ls, depths@, e, known);
                    all_paths::lemma_built_is_settled(ls, ord, e, known);
                    assert(known[e].len() == paths@[e]@.len());
                }
            }
        }
        write_outputs(&mut paths, outputs);
        proof {
            let now = all_paths::path_lists(paths@);
            assert forall|e: int| 0 <= e < n implies #[trigger] now[e] == (if e == ROOT_ENTRY {
                seq![Seq::<u8>::empty()]
            } else if depths@[e] < d + 1 {
                all_paths::settled_paths(ls, ord, e)
            } else {
                Seq::empty()
            }) && (e != ROOT_ENTRY && depths@[e] < d + 1 ==> path_text::is_tidy(
                now[e],
                all_paths::settled_via(ls, ord, e, ls[e].len()),
            )) by {
                if depths@[e] == d && e != ROOT_ENTRY {
                    assert(layered(layers@, depths@, e));
                    let i = choose|i: int| 0 <= i < ids.len() && ids[i] == e;
                    assert(outs[i].0 == e);
                    if outs[i].1@.len() == 0 {
                        assert forall|j: int| 0 <= j < outs.len() && (#[trigger] outs[j]).0
                            == e implies outs[j].1@.len() == 0 by {
                            assert(path_text::all_bytes(outs[j].1@) == path_text::all_bytes(
                                outs[i].1@,
                            ));
                            assert(path_text::all_bytes(outs[j].1@).len() == outs[j].1@.len());
                        }
                        assert(now[e] == known[e]);
                        assert(path_text::all_bytes(outs[i].1@) =~= Seq::empty());
                    }
                } else {
                    assert forall|j: int| 0 <= j < outs.len() && (#[trigger] outs[j]).0
                        == e implies outs[j].1@.len() == 0 by {
                        assert(layers@[d as int]@[j] == ids[j]);
                        assert(path_text::all_bytes(outs[j].1@).len() == outs[j].1@.len());
                    }
                    assert(now[e] == known[e]);
                }
            }
        }
        d = d + 1;
    }
    proof {
        assert forall|e: int| 0 <= e < n implies #[trigger] all_paths::path_lists(paths@)[e]
            == all_paths::all_settled_paths(ls, ord)[e] by {
            assert(layered(layers@, depths@, e));
        }
        assert(all_paths::path_lists(paths@) =~= all_paths::all_settled_paths(ls, ord));
        assert forall|e: int| 0 <= e < n && e != ROOT_ENTRY implies path_text::is_tidy(
            #[trigger] all_paths::all_settled_paths(ls, ord)[e],
            all_paths::settled_via(ls, ord, e, ls[e].len()),
        ) by {
            assert(layered(layers@, depths@, e));
            assert(all_paths::path_lists(paths@)[e] == all_paths::all_settled_paths(ls, ord)[e]);
        }
        all_paths::lemma_paths_spelled(ls, ord);
        if dfs::acyclic(all_paths::forward_graph(ls)) {
            all_paths::lemma_acyclic_parents_first(ls);
            assert forall|e: int| 0 <= e < n implies ((#[trigger] all_paths::all_settled_paths(
                ls,
                ord,
            )[e]).len() > 0 <==> all_paths::reaches_root(ls, e)) by {
                all_paths::lemma_reaching_has_path(ls, ord, e);
            }
            if path_text::extending_keeps_sameness() {
                all_paths::lemma_ways_listed(ls, ord);
            }
        }
    }
    let r = MftEntryPathCollection(paths);
    assert(r@ =~= all_paths::path_lists(paths@));
    Ok(r)
}

/// When the layers before that of an entry are in place, so is what its paths depend on.
proof fn lemma_known_in_layer(
    lists: Seq<Seq<Link>>,
    depths: Seq<usize>,
    e: int,
    known: Seq<Seq<Seq<u8>>>,
)
    requires
        all_paths::valid_lists(lists),
        0 <= e < lists.len(),
        forall|x: int|
            0 <= x < lists.len() ==> #[trigger] deeper_than_parents(
                lists,
                all_paths::forward_order(lists),
                depths,
                x,
            ),
        forall|x: int|
            0 <= x < lists.len() ==> #[trigger] known[x] == (if x == ROOT_ENTRY {
                seq![Seq::<u8>::empty()]
            } else if depths[x] < depths[e] {
                all_paths::settled_paths(lists, all_paths::forward_order(lists), x)
            } else {
                Seq::empty()
            }),
    ensures
        all_paths::known_when_settled(lists, all_paths::forward_order(lists), e, known),
{
    let order = all_paths::forward_order(lists);
    assert forall|k: int|
        #![trigger lists[e][k]]
        0 <= k < lists[e].len() && lists[e][k].parent != e implies known[lists[e][k].parent] == (
    if simple::is_settled_for(order, lists[e][k].parent, e) {
        all_paths::settled_paths(lists, order, lists[e][k].parent)
    } else {
        Seq::empty()
    }) by {
        let p = lists[e][k].parent;
        assert(0 <= p < lists.len());
        lemma_depth_is_order(lists, depths, e, k);
    }
}

} // verus!
