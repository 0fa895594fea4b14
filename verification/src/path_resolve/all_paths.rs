//! Resolution along all parents of each entry.
use crate::fast_entry::FileNameCollection;
use crate::path_resolve::collections::MftEntryPathCollection;
use crate::path_resolve::decode::decode_name;
use crate::path_resolve::dfs;
use crate::path_resolve::dfs::finish_order;
use crate::path_resolve::error::ResolveError;
use crate::path_resolve::multipass;
use crate::path_resolve::multipass::ROOT_ENTRY;
use crate::path_resolve::path_text;
use crate::path_resolve::path_text::{push_name, tidy_paths};
use crate::path_resolve::select;
use crate::path_resolve::select::{select_all_parents, Link, NameLink};
use crate::path_resolve::simple;
use std::path::PathBuf;
use vstd::prelude::*;

verus! {

/// Every parent is an entry.
pub open spec fn valid_lists(lists: Seq<Seq<Link>>) -> bool {
    forall|e: int, k: int|
        0 <= e < lists.len() && 0 <= k < lists[e].len() ==> 0 <= (#[trigger] lists[e][k]).parent
            < lists.len()
}

/// The graph in which each entry leads to its parents, in the order of its links.
pub open spec fn forward_graph(lists: Seq<Seq<Link>>) -> Seq<Seq<int>> {
    Seq::new(lists.len(), |e: int| Seq::new(lists[e].len(), |k: int| lists[e][k].parent))
}

/// The graph in which each entry leads to its parents, in the reverse order of its links.
pub open spec fn backward_graph(lists: Seq<Seq<Link>>) -> Seq<Seq<int>> {
    Seq::new(
        lists.len(),
        |e: int| Seq::new(lists[e].len(), |k: int| lists[e][lists[e].len() - 1 - k].parent),
    )
}

/// Each of several paths extended by a name.
pub open spec fn each_extended(paths: Seq<Seq<u8>>, name: Seq<char>) -> Seq<Seq<u8>> {
    Seq::new(paths.len(), |i: int| path_text::extended(paths[i], name))
}

/// The paths that the first `k` links give entry `e`, when each parent has the paths in
/// `known`. A link of the entry to itself gives none.
pub open spec fn paths_via(
    links: Seq<Link>,
    e: int,
    known: Seq<Seq<Seq<u8>>>,
    k: nat,
) -> Seq<Seq<u8>>
    decreases k,
{
    if k == 0 {
        Seq::empty()
    } else {
        let earlier = paths_via(links, e, known, (k - 1) as nat);
        let l = links[k - 1];
        if l.parent == e {
            earlier
        } else {
            earlier + each_extended(known[l.parent], l.name)
        }
    }
}

/// The paths of entry `e`, when each parent has the paths in `known`: those through all its
/// links, in ascending order, none twice.
pub open spec fn built_paths(links: Seq<Link>, e: int, known: Seq<Seq<Seq<u8>>>) -> Seq<Seq<u8>> {
    path_text::tidy(paths_via(links, e, known, links.len()))
}

/// The paths that the first `k` links give entry `e` when entries are settled in the given
/// order: those of the parents that are settled by the time the entry is.
pub open spec fn settled_via(
    lists: Seq<Seq<Link>>,
    order: Seq<int>,
    e: int,
    k: nat,
) -> Seq<Seq<u8>>
    decreases order.index_of(e), k,
{
    if k == 0 {
        Seq::empty()
    } else {
        let earlier = settled_via(lists, order, e, (k - 1) as nat);
        let l = lists[e][k - 1];
        if l.parent == e {
            earlier
        } else if l.parent == ROOT_ENTRY {
            earlier + each_extended(seq![Seq::empty()], l.name)
        } else if simple::is_settled_for(order, l.parent, e) {
            earlier + each_extended(settled_paths(lists, order, l.parent), l.name)
        } else {
            earlier
        }
    }
}

/// The paths of entry `e` when entries are settled in the given order. The root has the empty
/// path.
pub open spec fn settled_paths(lists: Seq<Seq<Link>>, order: Seq<int>, e: int) -> Seq<Seq<u8>>
    decreases order.index_of(e), lists[e].len() + 1,
{
    if e == ROOT_ENTRY {
        seq![Seq::empty()]
    } else {
        path_text::tidy(settled_via(lists, order, e, lists[e].len()))
    }
}

/// The paths of all entries when they are settled in the given order.
pub open spec fn all_settled_paths(lists: Seq<Seq<Link>>, order: Seq<int>) -> Seq<Seq<Seq<u8>>> {
    Seq::new(lists.len(), |e: int| settled_paths(lists, order, e))
}

/// The order in which entries are settled: that in which a depth-first visit, following the
/// links of each entry from last to first, finishes them.
pub open spec fn backward_order(lists: Seq<Seq<Link>>) -> Seq<int> {
    dfs::finish_sequence(backward_graph(lists))
}

/// The same, following the links of each entry from first to last.
pub open spec fn forward_order(lists: Seq<Seq<Link>>) -> Seq<int> {
    dfs::finish_sequence(forward_graph(lists))
}

/// The bytes of several lists of paths.
pub open spec fn path_lists(lists: Seq<Vec<PathBuf>>) -> Seq<Seq<Seq<u8>>> {
    Seq::new(lists.len(), |e: int| path_text::all_bytes(lists[e]@))
}

/// What is known of the parents of `e` by the time it is settled.
pub open spec fn known_when_settled(
    lists: Seq<Seq<Link>>,
    order: Seq<int>,
    e: int,
    known: Seq<Seq<Seq<u8>>>,
) -> bool {
    forall|k: int|
        #![trigger lists[e][k]]
        0 <= k < lists[e].len() && lists[e][k].parent != e ==> known[lists[e][k].parent] == (
        if simple::is_settled_for(order, lists[e][k].parent, e) {
            settled_paths(lists, order, lists[e][k].parent)
        } else {
            Seq::empty()
        })
}

/// Paths built from what is known of the parents are the settled ones.
pub proof fn lemma_built_is_settled(
    lists: Seq<Seq<Link>>,
    order: Seq<int>,
    e: int,
    known: Seq<Seq<Seq<u8>>>,
)
    requires
        e != ROOT_ENTRY,
        known_when_settled(lists, order, e, known),
    ensures
        built_paths(lists[e], e, known) == settled_paths(lists, order, e),
        paths_via(lists[e], e, known, lists[e].len()) == settled_via(
            lists,
            order,
            e,
            lists[e].len(),
        ),
{
    lemma_via_is_settled(lists, order, e, known, lists[e].len());
}

proof fn lemma_via_is_settled(
    lists: Seq<Seq<Link>>,
    order: Seq<int>,
    e: int,
    known: Seq<Seq<Seq<u8>>>,
    k: nat,
)
    requires
        known_when_settled(lists, order, e, known),
        k <= lists[e].len(),
    ensures
        paths_via(lists[e], e, known, k) == settled_via(lists, order, e, k),
    decreases k,
{
    if k > 0 {
        lemma_via_is_settled(lists, order, e, known, (k - 1) as nat);
        let l = lists[e][k - 1];
        if l.parent != e {
            if l.parent == ROOT_ENTRY {
                assert(known[l.parent] == settled_paths(lists, order, l.parent));
            } else if !simple::is_settled_for(order, l.parent, e) {
                let earlier = paths_via(lists[e], e, known, (k - 1) as nat);
                assert(earlier + each_extended(known[l.parent], l.name) =~= earlier);
            }
        }
    }
}

/// Builds the paths of entry `e` from those of its parents.
pub fn build_paths(
    links: &Vec<NameLink>,
    e: usize,
    known: &Vec<Vec<PathBuf>>,
) -> (paths: Vec<PathBuf>)
    requires
        forall|k: int| 0 <= k < links@.len() ==> (#[trigger] links@[k]).parent < known@.len(),
    ensures
        path_text::all_bytes(paths@) == built_paths(
            select::link_views(links@),
            e as int,
            path_lists(known@),
        ),
        path_text::is_tidy(
            path_text::all_bytes(paths@),
            paths_via(
                select::link_views(links@),
                e as int,
                path_lists(known@),
                links@.len(),
            ),
        ),
{
    let ghost ls = select::link_views(links@);
    let ghost kn = path_lists(known@);
    let mut paths: Vec<PathBuf> = Vec::new();
    let mut k: usize = 0;
    assert(path_text::all_bytes(paths@) =~= paths_via(ls, e as int, kn, 0));
    while k < links.len()
        invariant
            ls == select::link_views(links@),
            kn == path_lists(known@),
            forall|j: int| 0 <= j < links@.len() ==> (#[trigger] links@[j]).parent < known@.len(),
            k <= links@.len(),
            path_text::all_bytes(paths@) == paths_via(ls, e as int, kn, k as nat),
        decreases links@.len() - k,
    {
        let link: NameLink = links[k];
        assert(ls[k as int] == link@);
        if link.parent != e {
            let name: String = decode_name(link.name_utf16);
            let bases: &Vec<PathBuf> = &known[link.parent];
            let ghost earlier = path_text::all_bytes(paths@);
            let ghost more = each_extended(path_text::all_bytes(bases@), name@);
            let mut i: usize = 0;
            assert(earlier + more.take(0) =~= earlier);
            while i < bases.len()
                invariant
                    i <= bases@.len(),
                    more == each_extended(path_text::all_bytes(bases@), name@),
                    path_text::all_bytes(paths@) == earlier + more.take(i as int),
                decreases bases@.len() - i,
            {
                let mut path: PathBuf = bases[i].clone();
                push_name(&mut path, name.as_str());
                let ghost before = paths@;
                paths.push(path);
                proof {
                    assert(path_text::path_bytes(path) == more[i as int]);
                    assert(path_text::all_bytes(paths@) =~= path_text::all_bytes(before).push(
                        more[i as int],
                    ));
                    assert(more.take(i + 1) =~= more.take(i as int).push(more[i as int]));
                    assert(path_text::all_bytes(paths@) =~= earlier + more.take(i + 1));
                }
                i = i + 1;
            }
            assert(more.take(i as int) =~= more);
        }
        k = k + 1;
    }
    tidy_paths(&mut paths);
    paths
}

/// `n` lists of paths, empty but for the root, which has the empty path.
pub fn only_root_paths(n: usize) -> (paths: Vec<Vec<PathBuf>>)
    ensures
        paths@.len() == n,
        forall|e: int|
            0 <= e < n ==> #[trigger] path_lists(paths@)[e] == (if e == ROOT_ENTRY {
                seq![Seq::<u8>::empty()]
            } else {
                Seq::empty()
            }),
{
    let mut paths: Vec<Vec<PathBuf>> = Vec::new();
    let mut e: usize = 0;
    while e < n
        invariant
            e <= n,
            paths@.len() == e,
            forall|i: int|
                0 <= i < e ==> #[trigger] path_lists(paths@)[i] == (if i == ROOT_ENTRY {
                    seq![Seq::<u8>::empty()]
                } else {
                    Seq::empty()
                }),
        decreases n - e,
    {
        let ghost before = path_lists(paths@);
        let mut list: Vec<PathBuf> = Vec::new();
        if e == ROOT_ENTRY {
            list.push(PathBuf::new());
            assert(path_text::all_bytes(list@) =~= seq![Seq::<u8>::empty()]);
        } else {
            assert(path_text::all_bytes(list@) =~= Seq::empty());
        }
        paths.push(list);
        assert forall|i: int| 0 <= i < e implies #[trigger] path_lists(paths@)[i] == before[i] by {
        }
        e = e + 1;
    }
    paths
}

/// The parents of entries as successor lists, in the reverse order of the links.
fn backward_lists(lists: &Vec<Vec<NameLink>>) -> (r: Vec<Vec<usize>>)
    ensures
        dfs::graph_view(r@) == backward_graph(select::link_lists(lists@)),
{
    let ghost ls = select::link_lists(lists@);
    let mut r: Vec<Vec<usize>> = Vec::new();
    let mut e: usize = 0;
    while e < lists.len()
        invariant
            ls == select::link_lists(lists@),
            e <= lists@.len(),
            r@.len() == e,
            forall|i: int|
                0 <= i < e ==> dfs::int_seq((#[trigger] r@[i])@) == backward_graph(ls)[i],
        decreases lists@.len() - e,
    {
        let mut list: Vec<usize> = Vec::new();
        let n: usize = lists[e].len();
        let mut k: usize = n;
        while k > 0
            invariant
                ls == select::link_lists(lists@),
                e < lists@.len(),
                n == lists@[e as int]@.len(),
                k <= n,
                list@.len() == n - k,
                forall|j: int|
                    0 <= j < n - k ==> #[trigger] list@[j] == lists@[e as int]@[n - 1 - j].parent,
            decreases k,
        {
            k = k - 1;
            list.push(lists[e][k].parent);
        }
        assert(dfs::int_seq(list@) =~= backward_graph(ls)[e as int]);
        r.push(list);
        e = e + 1;
    }
    assert(dfs::graph_view(r@) =~= backward_graph(ls));
    r
}

pub proof fn lemma_graphs_closed(lists: Seq<Seq<Link>>)
    requires
        valid_lists(lists),
    ensures
        dfs::closed_graph(forward_graph(lists)),
        dfs::closed_graph(backward_graph(lists)),
{
    let f = forward_graph(lists);
    let b = backward_graph(lists);
    assert forall|e: int, k: int|
        #![trigger f[e][k]]
        0 <= e < f.len() && 0 <= k < f[e].len() implies 0 <= f[e][k] < f.len() by {
        assert(f[e][k] == lists[e][k].parent);
    }
    assert forall|e: int, k: int|
        #![trigger b[e][k]]
        0 <= e < b.len() && 0 <= k < b[e].len() implies 0 <= b[e][k] < b.len() by {
        assert(b[e][k] == lists[e][lists[e].len() - 1 - k].parent);
    }
}

/// The parent links of a collection lead to its entries.
pub proof fn lemma_parent_links_valid(file_names: FileNameCollection)
    ensures
        valid_lists(select::all_parent_links(file_names)),
{
    let lists = select::all_parent_links(file_names);
    let n = file_names@.len();
    assert forall|e: int, k: int|
        0 <= e < lists.len() && 0 <= k < lists[e].len() implies 0 <= (
    #[trigger] lists[e][k]).parent < lists.len() by {
        select::lemma_parent_links(select::entry_names(file_names, e), n);
        assert(lists[e] == select::parent_links(select::entry_names(file_names, e), n));
    }
}

/// Every entry but the root has paths that stand for those through its links to parents that
/// are settled by the time it is.
pub open spec fn all_well_built(
    lists: Seq<Seq<Link>>,
    order: Seq<int>,
    paths: Seq<Seq<Seq<u8>>>,
) -> bool {
    forall|e: int|
        0 <= e < lists.len() && e != ROOT_ENTRY ==> path_text::is_tidy(
            #[trigger] paths[e],
            settled_via(lists, order, e, lists[e].len()),
        )
}

/// The path that is spelled by going up from entry `e`, taking at each entry the link that the
/// next of `steps` picks. There is one only if each step leads to another entry, and the last,
/// but none before it, to the root.
pub open spec fn spelled_by(lists: Seq<Seq<Link>>, e: int, steps: Seq<int>) -> Option<Seq<u8>>
    decreases steps.len(),
{
    if e == ROOT_ENTRY {
        if steps.len() == 0 {
            Some(Seq::empty())
        } else {
            None
        }
    } else if steps.len() > 0 && 0 <= steps[0] < lists[e].len() && lists[e][steps[0]].parent
        != e {
        multipass::joined(
            spelled_by(lists, lists[e][steps[0]].parent, steps.drop_first()),
            lists[e][steps[0]].name,
        )
    } else {
        None
    }
}

/// Some way up to the root spells the path.
pub open spec fn is_spelled(lists: Seq<Seq<Link>>, e: int, path: Seq<u8>) -> bool {
    exists|steps: Seq<int>| #[trigger] spelled_by(lists, e, steps) == Some(path)
}

/// Some way leads up to the root.
pub open spec fn reaches_root(lists: Seq<Seq<Link>>, e: int) -> bool {
    exists|steps: Seq<int>| (#[trigger] spelled_by(lists, e, steps)) is Some
}

/// Every path of every entry is spelled by a way up to the root.
pub open spec fn all_spelled(lists: Seq<Seq<Link>>, paths: Seq<Seq<Seq<u8>>>) -> bool {
    forall|e: int, i: int|
        0 <= e < lists.len() && 0 <= i < paths[e].len() ==> is_spelled(
            lists,
            e,
            #[trigger] paths[e][i],
        )
}

/// Paths that stand for those through settled parents are spelled by ways up to the root.
pub proof fn lemma_paths_spelled(lists: Seq<Seq<Link>>, order: Seq<int>)
    requires
        valid_lists(lists),
        forall|e: int| 0 <= e < lists.len() ==> #[trigger] order.contains(e),
        all_well_built(lists, order, all_settled_paths(lists, order)),
    ensures
        all_spelled(lists, all_settled_paths(lists, order)),
{
    let paths = all_settled_paths(lists, order);
    assert forall|e: int, i: int| 0 <= e < lists.len() && 0 <= i < paths[e].len() implies is_spelled(
        lists,
        e,
        #[trigger] paths[e][i],
    ) by {
        assert(order.contains(e));
        lemma_entry_spelled(lists, order, e);
    }
}

proof fn lemma_entry_spelled(lists: Seq<Seq<Link>>, order: Seq<int>, e: int)
    requires
        valid_lists(lists),
        all_well_built(lists, order, all_settled_paths(lists, order)),
        0 <= e < lists.len(),
        0 <= order.index_of(e),
    ensures
        forall|i: int|
            0 <= i < settled_paths(lists, order, e).len() ==> is_spelled(
                lists,
                e,
                #[trigger] settled_paths(lists, order, e)[i],
            ),
    decreases order.index_of(e), lists[e].len() + 1,
{
    let paths = settled_paths(lists, order, e);
    if e == ROOT_ENTRY {
        assert(spelled_by(lists, e, Seq::empty()) == Some(paths[0]));
    } else {
        let via = settled_via(lists, order, e, lists[e].len());
        assert(all_settled_paths(lists, order)[e] == paths);
        lemma_via_spelled(lists, order, e, lists[e].len());
        assert forall|i: int| 0 <= i < paths.len() implies is_spelled(
            lists,
            e,
            #[trigger] paths[i],
        ) by {
            assert(via.contains(paths[i]));
            let j = choose|j: int| 0 <= j < via.len() && via[j] == paths[i];
            assert(is_spelled(lists, e, via[j]));
        }
    }
}

/// One more step up lengthens what is spelled.
pub proof fn lemma_spelled_step(lists: Seq<Seq<Link>>, e: int, k: int, path: Seq<u8>)
    requires
        e != ROOT_ENTRY,
        0 <= k < lists[e].len(),
        lists[e][k].parent != e,
        is_spelled(lists, lists[e][k].parent, path),
    ensures
        is_spelled(lists, e, path_text::extended(path, lists[e][k].name)),
{
    let p = lists[e][k].parent;
    let steps = choose|steps: Seq<int>| #[trigger] spelled_by(lists, p, steps) == Some(path);
    let longer = seq![k] + steps;
    assert(longer.drop_first() =~= steps);
    assert(spelled_by(lists, e, longer) == Some(path_text::extended(path, lists[e][k].name)));
}

proof fn lemma_via_spelled(lists: Seq<Seq<Link>>, order: Seq<int>, e: int, k: nat)
    requires
        valid_lists(lists),
        all_well_built(lists, order, all_settled_paths(lists, order)),
        0 <= e < lists.len(),
        e != ROOT_ENTRY,
        0 <= order.index_of(e),
        k <= lists[e].len(),
    ensures
        forall|j: int|
            0 <= j < settled_via(lists, order, e, k).len() ==> is_spelled(
                lists,
                e,
                #[trigger] settled_via(lists, order, e, k)[j],
            ),
    decreases order.index_of(e), k,
{
    if k > 0 {
        let earlier = settled_via(lists, order, e, (k - 1) as nat);
        let via = settled_via(lists, order, e, k);
        let l = lists[e][k - 1];
        lemma_via_spelled(lists, order, e, (k - 1) as nat);
        assert forall|j: int| 0 <= j < via.len() implies is_spelled(
            lists,
            e,
            #[trigger] via[j],
        ) by {
            if j < earlier.len() {
                assert(via[j] == earlier[j]);
            } else if l.parent == ROOT_ENTRY {
                assert(spelled_by(lists, l.parent, Seq::empty()) == Some(Seq::<u8>::empty()));
                lemma_spelled_step(lists, e, k - 1, Seq::empty());
            } else {
                lemma_entry_spelled(lists, order, l.parent);
                let base = settled_paths(lists, order, l.parent)[j - earlier.len()];
                lemma_spelled_step(lists, e, k - 1, base);
            }
        }
    }
}

/// Where parents are settled first, an entry has a path exactly if some way leads from it up to
/// the root.
pub proof fn lemma_reaching_has_path(lists: Seq<Seq<Link>>, order: Seq<int>, e: int)
    requires
        valid_lists(lists),
        parents_first(lists, order),
        forall|x: int| 0 <= x < lists.len() ==> #[trigger] order.contains(x),
        all_well_built(lists, order, all_settled_paths(lists, order)),
        0 <= e < lists.len(),
    ensures
        all_settled_paths(lists, order)[e].len() > 0 <==> reaches_root(lists, e),
{
    let paths = all_settled_paths(lists, order);
    if reaches_root(lists, e) {
        let steps = choose|steps: Seq<int>| (#[trigger] spelled_by(lists, e, steps)) is Some;
        lemma_steps_give_path(lists, order, e, steps);
    }
    if paths[e].len() > 0 {
        lemma_paths_spelled(lists, order);
        let path = paths[e][0];
        assert(is_spelled(lists, e, path));
        let steps = choose|steps: Seq<int>| #[trigger] spelled_by(lists, e, steps) == Some(path);
        assert(spelled_by(lists, e, steps) is Some);
    }
}

proof fn lemma_steps_give_path(
    lists: Seq<Seq<Link>>,
    order: Seq<int>,
    e: int,
    steps: Seq<int>,
)
    requires
        valid_lists(lists),
        parents_first(lists, order),
        all_well_built(lists, order, all_settled_paths(lists, order)),
        0 <= e < lists.len(),
        spelled_by(lists, e, steps) is Some,
    ensures
        settled_paths(lists, order, e).len() > 0,
    decreases steps.len(),
{
    if e != ROOT_ENTRY {
        let k = steps[0];
        let p = lists[e][k].parent;
        lemma_steps_give_path(lists, order, p, steps.drop_first());
        let bases = settled_paths(lists, order, p);
        let via = settled_via(lists, order, e, lists[e].len());
        assert(bases.contains(bases[0]));
        lemma_via_has(lists, order, e, lists[e].len(), k, bases[0]);
        assert(path_text::stands_for(all_settled_paths(lists, order)[e], via));
        assert(via.len() > 0);
        assert(path_text::lists_path(settled_paths(lists, order, e), via[0]));
    }
}

/// The path of a settled parent, extended by the name in it, is among those that the links give
/// an entry.
pub proof fn lemma_via_has(
    lists: Seq<Seq<Link>>,
    order: Seq<int>,
    e: int,
    m: nat,
    k: int,
    path: Seq<u8>,
)
    requires
        0 <= k < m <= lists[e].len(),
        lists[e][k].parent != e,
        simple::is_settled_for(order, lists[e][k].parent, e),
        settled_paths(lists, order, lists[e][k].parent).contains(path),
    ensures
        settled_via(lists, order, e, m).contains(
            path_text::extended(path, lists[e][k].name),
        ),
    decreases m,
{
    let l = lists[e][k];
    let via = settled_via(lists, order, e, m);
    let earlier = settled_via(lists, order, e, (m - 1) as nat);
    let p = path_text::extended(path, l.name);
    if k < m - 1 {
        lemma_via_has(lists, order, e, (m - 1) as nat, k, path);
        let j = choose|j: int| 0 <= j < earlier.len() && earlier[j] == p;
        assert(via[j] == p);
    } else {
        let bases = settled_paths(lists, order, l.parent);
        let i = choose|i: int| 0 <= i < bases.len() && bases[i] == path;
        assert(via == earlier + each_extended(bases, l.name));
        assert(via[earlier.len() + i] == p);
    }
}

/// Each path that the links give an entry is that of a settled parent, extended by the name in
/// it.
pub proof fn lemma_via_from(
    lists: Seq<Seq<Link>>,
    order: Seq<int>,
    e: int,
    m: nat,
    j: int,
) -> (r: (int, int))
    requires
        m <= lists[e].len(),
        0 <= j < settled_via(lists, order, e, m).len(),
    ensures
        0 <= r.0 < m,
        lists[e][r.0].parent != e,
        simple::is_settled_for(order, lists[e][r.0].parent, e),
        0 <= r.1 < settled_paths(lists, order, lists[e][r.0].parent).len(),
        settled_via(lists, order, e, m)[j] == path_text::extended(
            settled_paths(lists, order, lists[e][r.0].parent)[r.1],
            lists[e][r.0].name,
        ),
    decreases m,
{
    let earlier = settled_via(lists, order, e, (m - 1) as nat);
    if j < earlier.len() {
        lemma_via_from(lists, order, e, (m - 1) as nat, j)
    } else {
        let bases = settled_paths(lists, order, lists[e][m - 1].parent);
        assert(settled_via(lists, order, e, m) == earlier + each_extended(
            bases,
            lists[e][m - 1].name,
        ));
        (m - 1, j - earlier.len())
    }
}

/// The lists of paths hold what every way up to the root spells.
pub open spec fn all_listed(lists: Seq<Seq<Link>>, paths: Seq<Seq<Seq<u8>>>) -> bool {
    forall|e: int, path: Seq<u8>|
        0 <= e < lists.len() && #[trigger] is_spelled(lists, e, path) ==> path_text::lists_path(
            paths[e],
            path,
        )
}

/// Where parents are settled first, the paths of an entry hold what every way from it up to the
/// root spells. This takes extending both sides to keep `==` on paths.
pub proof fn lemma_ways_listed(lists: Seq<Seq<Link>>, order: Seq<int>)
    requires
        path_text::extending_keeps_sameness(),
        valid_lists(lists),
        parents_first(lists, order),
        all_well_built(lists, order, all_settled_paths(lists, order)),
    ensures
        all_listed(lists, all_settled_paths(lists, order)),
{
    assert forall|e: int, path: Seq<u8>|
        0 <= e < lists.len() && #[trigger] is_spelled(lists, e, path) implies path_text::lists_path(
        all_settled_paths(lists, order)[e],
        path,
    ) by {
        let steps = choose|steps: Seq<int>| #[trigger] spelled_by(lists, e, steps) == Some(path);
        lemma_way_listed(lists, order, e, steps);
    }
}

proof fn lemma_way_listed(lists: Seq<Seq<Link>>, order: Seq<int>, e: int, steps: Seq<int>)
    requires
        path_text::extending_keeps_sameness(),
        valid_lists(lists),
        parents_first(lists, order),
        all_well_built(lists, order, all_settled_paths(lists, order)),
        0 <= e < lists.len(),
        spelled_by(lists, e, steps) is Some,
    ensures
        path_text::lists_path(
            settled_paths(lists, order, e),
            spelled_by(lists, e, steps)->0,
        ),
    decreases steps.len(),
{
    let paths = settled_paths(lists, order, e);
    let path = spelled_by(lists, e, steps)->0;
    if e == ROOT_ENTRY {
        assert(path_text::path_matches(path, paths[0]));
    } else {
        let k = steps[0];
        let l = lists[e][k];
        let bases = settled_paths(lists, order, l.parent);
        let rest = spelled_by(lists, l.parent, steps.drop_first())->0;
        lemma_way_listed(lists, order, l.parent, steps.drop_first());
        let i = choose|i: int| 0 <= i < bases.len() && path_text::path_matches(
            rest,
            #[trigger] bases[i],
        );
        let near = path_text::extended(bases[i], l.name);
        assert(path_text::path_matches(path, near));
        assert(bases.contains(bases[i]));
        let via = settled_via(lists, order, e, lists[e].len());
        lemma_via_has(lists, order, e, lists[e].len(), k, bases[i]);
        assert(all_settled_paths(lists, order)[e] == paths);
        path_text::lemma_stood_for_listed(paths, via, near, path);
    }
}

/// Resolve all paths including multiple hardlink parents.
/// For each distinct parent of an entry, keep only the highest-precedence namespace.
/// Returns zero/one/many paths per entry (index aligned with entry id).
pub fn resolve_paths_all(file_names: &FileNameCollection<'_>) -> (r: Result<
    MftEntryPathCollection,
    ResolveError,
>)
    ensures
        r matches Ok(paths) && paths@ == all_settled_paths(
            select::all_parent_links(*file_names),
            backward_order(select::all_parent_links(*file_names)),
        ),
        r matches Ok(paths) ==> all_well_built(
            select::all_parent_links(*file_names),
            backward_order(select::all_parent_links(*file_names)),
            paths@,
        ),
        r matches Ok(paths) ==> all_spelled(select::all_parent_links(*file_names), paths@),
        r matches Ok(paths) ==> dfs::acyclic(
            forward_graph(select::all_parent_links(*file_names)),
        ) ==> forall|e: int|
            0 <= e < paths@.len() ==> ((#[trigger] paths@[e]).len() > 0 <==> reaches_root(
                select::all_parent_links(*file_names),
                e,
            )),
        r matches Ok(paths) ==> dfs::acyclic(
            forward_graph(select::all_parent_links(*file_names)),
        ) && path_text::extending_keeps_sameness() ==> all_listed(select::all_parent_links(*file_names), paths@),
{
    let lists: Vec<Vec<NameLink>> = select_all_parents(file_names);
    let ghost ls = select::all_parent_links(*file_names);
    proof {
        lemma_parent_links_valid(*file_names);
        lemma_graphs_closed(ls);
        dfs::lemma_finish_sequence(backward_graph(ls));
    }
    let order: Vec<usize> = finish_order(&backward_lists(&lists));
    let ghost ord = backward_order(ls);
    let n: usize = lists.len();
    let mut paths: Vec<Vec<PathBuf>> = only_root_paths(n);
    let mut i: usize = 0;
    assert forall|e: int| 0 <= e < n implies 0 <= #[trigger] ord.index_of(e) by {
        assert(ord.contains(e));
    }
    while i < order.len()
        invariant
            ls == select::link_lists(lists@),
            valid_lists(ls),
            ord == backward_order(ls),
            ord == dfs::int_seq(order@),
            ord.no_duplicates(),
            ord.len() == n,
            n == lists@.len(),
            forall|e: int| 0 <= e < n ==> #[trigger] ord.contains(e),
            forall|j: int| 0 <= j < ord.len() ==> 0 <= #[trigger] ord[j] < n,
            i <= order@.len(),
            paths@.len() == n,
            forall|e: int|
                0 <= e < n ==> #[trigger] path_lists(paths@)[e] == (if e == ROOT_ENTRY {
                    seq![Seq::<u8>::empty()]
                } else if ord.index_of(e) < i {
                    settled_paths(ls, ord, e)
                } else {
                    Seq::empty()
                }),
            forall|e: int|
                0 <= e < n && e != ROOT_ENTRY && ord.index_of(e) < i ==> path_text::is_tidy(
                    #[trigger] path_lists(paths@)[e],
                    settled_via(ls, ord, e, ls[e].len()),
                ),
        decreases order@.len() - i,
    {
        let e: usize = order[i];
        let ghost before = path_lists(paths@);
        proof {
            assert(ord[i as int] == e as int);
            simple::lemma_index_of(ord, i as int);
            assert forall|x: int| 0 <= x < n && x != e implies #[trigger] ord.index_of(x) != i by {
                assert(ord.contains(x));
            }
        }
        if e != ROOT_ENTRY {
            proof {
                assert(ls[e as int] == select::link_views(lists@[e as int]@));
                assert forall|k: int|
                    #![trigger ls[e as int][k]]
                    0 <= k < ls[e as int].len() && ls[e as int][k].parent
                        != e implies before[ls[e as int][k].parent] == (if simple::is_settled_for(
                    ord,
                    ls[e as int][k].parent,
                    e as int,
                ) {
                    settled_paths(ls, ord, ls[e as int][k].parent)
                } else {
                    Seq::empty()
                }) by {
                    let p = ls[e as int][k].parent;
                    assert(0 <= p < n);
                    assert(ord.contains(p));
                }
                lemma_built_is_settled(ls, ord, e as int, before);
                assert forall|k: int| 0 <= k < lists@[e as int]@.len() implies (
                #[trigger] lists@[e as int]@[k]).parent < paths@.len() by {
                    assert(ls[e as int][k] == lists@[e as int]@[k]@);
                }
            }
            let found: Vec<PathBuf> = build_paths(&lists[e], e, &paths);
            paths.set(e, found);
            proof {
                let now = path_lists(paths@);
                assert forall|x: int| 0 <= x < n && x != e implies #[trigger] now[x]
                    == before[x] by {
                }
                assert(now[e as int] == path_text::all_bytes(found@));
            }
        }
        i = i + 1;
    }
    proof {
        assert forall|e: int| 0 <= e < n implies #[trigger] path_lists(paths@)[e]
            == all_settled_paths(ls, ord)[e] by {
            assert(ord.contains(e));
        }
        assert(path_lists(paths@) =~= all_settled_paths(ls, ord));
        assert forall|e: int| 0 <= e < n && e != ROOT_ENTRY implies path_text::is_tidy(
            #[trigger] all_settled_paths(ls, ord)[e],
            settled_via(ls, ord, e, ls[e].len()),
        ) by {
            assert(ord.contains(e));
            assert(path_lists(paths@)[e] == all_settled_paths(ls, ord)[e]);
        }
        lemma_paths_spelled(ls, ord);
        if dfs::acyclic(forward_graph(ls)) {
            lemma_acyclic_parents_first(ls);
            assert forall|e: int| 0 <= e < n implies ((#[trigger] all_settled_paths(
                ls,
                ord,
            )[e]).len() > 0 <==> reaches_root(ls, e)) by {
                lemma_reaching_has_path(ls, ord, e);
            }
            if path_text::extending_keeps_sameness() {
                lemma_ways_listed(ls, ord);
            }
        }
    }
    let r = MftEntryPathCollection(paths);
    assert(r@ =~= path_lists(paths@));
    Ok(r)
}

/// Every parent of an entry, the root and the entry itself apart, is settled before it.
pub open spec fn parents_first(lists: Seq<Seq<Link>>, order: Seq<int>) -> bool {
    forall|e: int, k: int|
        0 <= e < lists.len() && 0 <= k < lists[e].len() && (#[trigger] lists[e][k]).parent != e
            ==> simple::is_settled_for(order, lists[e][k].parent, e)
}

/// Where no entry is its own ancestor through another, parents are settled first.
pub proof fn lemma_acyclic_parents_first(lists: Seq<Seq<Link>>)
    requires
        valid_lists(lists),
        dfs::acyclic(forward_graph(lists)),
    ensures
        parents_first(lists, backward_order(lists)),
        parents_first(lists, forward_order(lists)),
{
    let f = forward_graph(lists);
    let b = backward_graph(lists);
    lemma_graphs_closed(lists);
    assert forall|x: int, y: int| #[trigger] dfs::links_to(b, x, y) implies dfs::links_to(f, x, y) by {
        let k = choose|k: int| 0 <= k < b[x].len() && #[trigger] b[x][k] == y;
        assert(f[x][lists[x].len() - 1 - k] == y);
    }
    dfs::lemma_acyclic_within(b, f);
    lemma_parents_first(lists, f);
    lemma_parents_first(lists, b);
}

proof fn lemma_parents_first(lists: Seq<Seq<Link>>, g: Seq<Seq<int>>)
    requires
        valid_lists(lists),
        g == forward_graph(lists) || g == backward_graph(lists),
        dfs::acyclic(g),
    ensures
        parents_first(lists, dfs::finish_sequence(g)),
{
    let order = dfs::finish_sequence(g);
    lemma_graphs_closed(lists);
    dfs::lemma_finish_sequence(g);
    assert forall|e: int, k: int|
        0 <= e < lists.len() && 0 <= k < lists[e].len() && (#[trigger] lists[e][k]).parent
            != e implies simple::is_settled_for(order, lists[e][k].parent, e) by {
        let p = lists[e][k].parent;
        assert(dfs::links_to(g, e, p)) by {
            if g == forward_graph(lists) {
                assert(g[e][k] == p);
            } else {
                assert(g[e][lists[e].len() - 1 - k] == p);
            }
        }
        dfs::lemma_acyclic_successors_first(g, e, p);
        assert(order.contains(e) && order.contains(p));
        simple::lemma_before_index(order, p, e);
    }
}

/// Where parents are settled first, the paths of an entry are those of all its parents, each
/// extended by the name in it.
pub proof fn lemma_parents_first_complete(lists: Seq<Seq<Link>>, order: Seq<int>, e: int)
    requires
        valid_lists(lists),
        parents_first(lists, order),
        0 <= e < lists.len(),
        e != ROOT_ENTRY,
    ensures
        all_settled_paths(lists, order)[e] == built_paths(
            lists[e],
            e,
            all_settled_paths(lists, order),
        ),
{
    let known = all_settled_paths(lists, order);
    assert forall|k: int|
        #![trigger lists[e][k]]
        0 <= k < lists[e].len() && lists[e][k].parent != e implies known[lists[e][k].parent] == (
    if simple::is_settled_for(order, lists[e][k].parent, e) {
        settled_paths(lists, order, lists[e][k].parent)
    } else {
        Seq::empty()
    }) by {
        assert(0 <= lists[e][k].parent < lists.len());
    }
    lemma_built_is_settled(lists, order, e, known);
}

/// Two orders settle a parent before an entry in the same cases.
pub open spec fn orders_agree(lists: Seq<Seq<Link>>, a: Seq<int>, b: Seq<int>) -> bool {
    forall|e: int, k: int|
        0 <= e < lists.len() && 0 <= k < lists[e].len() && (#[trigger] lists[e][k]).parent != e
            ==> simple::is_settled_for(a, lists[e][k].parent, e) == simple::is_settled_for(
            b,
            lists[e][k].parent,
            e,
        )
}

/// Orders that settle a parent before an entry in the same cases give every entry the same
/// paths.
pub proof fn lemma_orders_agree(lists: Seq<Seq<Link>>, a: Seq<int>, b: Seq<int>)
    requires
        valid_lists(lists),
        orders_agree(lists, a, b),
        forall|e: int| 0 <= e < lists.len() ==> #[trigger] a.contains(e),
    ensures
        all_settled_paths(lists, a) == all_settled_paths(lists, b),
{
    assert forall|e: int| 0 <= e < lists.len() implies settled_paths(lists, a, e) == settled_paths(
        lists,
        b,
        e,
    ) by {
        assert(a.contains(e));
        lemma_paths_agree(lists, a, b, e);
    }
    assert(all_settled_paths(lists, a) =~= all_settled_paths(lists, b));
}

proof fn lemma_paths_agree(lists: Seq<Seq<Link>>, a: Seq<int>, b: Seq<int>, e: int)
    requires
        valid_lists(lists),
        orders_agree(lists, a, b),
        0 <= e < lists.len(),
        0 <= a.index_of(e),
    ensures
        settled_paths(lists, a, e) == settled_paths(lists, b, e),
    decreases a.index_of(e), lists[e].len() + 1,
{
    lemma_via_agree(lists, a, b, e, lists[e].len());
}

proof fn lemma_via_agree(lists: Seq<Seq<Link>>, a: Seq<int>, b: Seq<int>, e: int, k: nat)
    requires
        valid_lists(lists),
        orders_agree(lists, a, b),
        0 <= e < lists.len(),
        0 <= a.index_of(e),
        k <= lists[e].len(),
    ensures
        settled_via(lists, a, e, k) == settled_via(lists, b, e, k),
    decreases a.index_of(e), k,
{
    if k > 0 {
        lemma_via_agree(lists, a, b, e, (k - 1) as nat);
        let p = lists[e][k - 1].parent;
        if p != e && p != ROOT_ENTRY {
            assert(simple::is_settled_for(a, p, e) == simple::is_settled_for(b, p, e));
            if simple::is_settled_for(a, p, e) {
                lemma_paths_agree(lists, a, b, p);
            }
        }
    }
}

/// Where no entry is its own ancestor through another, following the links of each entry from
/// last to first or from first to last makes no difference.
pub proof fn lemma_acyclic_orders_agree(lists: Seq<Seq<Link>>)
    requires
        valid_lists(lists),
        dfs::acyclic(forward_graph(lists)),
    ensures
        all_settled_paths(lists, backward_order(lists)) == all_settled_paths(
            lists,
            forward_order(lists),
        ),
{
    lemma_acyclic_parents_first(lists);
    lemma_graphs_closed(lists);
    dfs::lemma_finish_sequence(backward_graph(lists));
    lemma_orders_agree(lists, backward_order(lists), forward_order(lists));
}

} // verus!
