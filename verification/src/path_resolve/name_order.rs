//! The order in which the file names of an entry are listed, and why it does not matter.
use crate::fast_entry::{FileNameCollection, FileNameRef};
use crate::path_resolve::all_paths;
use crate::path_resolve::dfs;
use crate::path_resolve::multipass::ROOT_ENTRY;
use crate::path_resolve::path_text;
use crate::path_resolve::select;
use crate::path_resolve::select::Link;
use crate::path_resolve::simple;
use vstd::prelude::*;

verus! {

/// The names are alike in what counts for paths: parent, text and precedence.
pub open spec fn alike(a: FileNameRef, b: FileNameRef) -> bool {
    &&& select::link_of(a) == select::link_of(b)
    &&& select::precedence(a.namespace) == select::precedence(b.namespace)
}

/// Some name is like this one.
pub open spec fn has_like(names: Seq<FileNameRef>, name: FileNameRef) -> bool {
    exists|i: int| 0 <= i < names.len() && alike(#[trigger] names[i], name)
}

/// Every name of one list is like one of the other.
pub open spec fn same_names(a: Seq<FileNameRef>, b: Seq<FileNameRef>) -> bool {
    &&& forall|i: int| 0 <= i < a.len() ==> has_like(b, #[trigger] a[i])
    &&& forall|i: int| 0 <= i < b.len() ==> has_like(a, #[trigger] b[i])
}

/// No two names in the same parent, among `n` entries, have the same precedence, unless their
/// texts are the same, too.
pub open spec fn untied(names: Seq<FileNameRef>, n: nat) -> bool {
    forall|i: int, j: int|
        0 <= i < names.len() && 0 <= j < names.len() && select::parent_of(#[trigger] names[i])
            == select::parent_of(#[trigger] names[j]) && select::parent_of(names[i]) < n
            && select::precedence(names[i].namespace) == select::precedence(names[j].namespace)
            ==> select::link_of(names[i]) == select::link_of(names[j])
}

/// Rearranging names leaves the same names.
pub proof fn lemma_rearranged_names(a: Seq<FileNameRef>, b: Seq<FileNameRef>)
    requires
        a.to_multiset() == b.to_multiset(),
    ensures
        same_names(a, b),
{
    a.to_multiset_ensures();
    b.to_multiset_ensures();
    assert forall|i: int| 0 <= i < a.len() implies has_like(b, #[trigger] a[i]) by {
        assert(a.contains(a[i]));
        assert(a.to_multiset().count(a[i]) > 0);
        assert(b.contains(a[i]));
        let j = choose|j: int| 0 <= j < b.len() && b[j] == a[i];
        assert(alike(b[j], a[i]));
    }
    assert forall|i: int| 0 <= i < b.len() implies has_like(a, #[trigger] b[i]) by {
        assert(b.contains(b[i]));
        assert(b.to_multiset().count(b[i]) > 0);
        assert(a.contains(b[i]));
        let j = choose|j: int| 0 <= j < a.len() && a[j] == b[i];
        assert(alike(a[j], b[i]));
    }
}

proof fn lemma_same_names_untied(a: Seq<FileNameRef>, b: Seq<FileNameRef>, n: nat)
    requires
        same_names(a, b),
        untied(a, n),
    ensures
        untied(b, n),
{
    assert forall|i: int, j: int|
        0 <= i < b.len() && 0 <= j < b.len() && select::parent_of(#[trigger] b[i])
            == select::parent_of(#[trigger] b[j]) && select::parent_of(b[i]) < n
            && select::precedence(b[i].namespace) == select::precedence(
            b[j].namespace,
        ) implies select::link_of(b[i]) == select::link_of(b[j]) by {
        assert(has_like(a, b[i]) && has_like(a, b[j]));
        let k = choose|k: int| 0 <= k < a.len() && alike(#[trigger] a[k], b[i]);
        let m = choose|m: int| 0 <= m < a.len() && alike(#[trigger] a[m], b[j]);
        assert(select::link_of(a[k]).parent == select::link_of(a[m]).parent);
    }
}

/// The same names give an entry the same links.
proof fn lemma_links_kept(a: Seq<FileNameRef>, b: Seq<FileNameRef>, n: nat, l: Link)
    requires
        same_names(a, b),
        untied(a, n),
        select::parent_links(a, n).contains(l),
    ensures
        select::parent_links(b, n).contains(l),
{
    let la = select::parent_links(a, n);
    let lb = select::parent_links(b, n);
    select::lemma_parent_links(a, n);
    select::lemma_parent_links(b, n);
    let i = choose|i: int| 0 <= i < la.len() && la[i] == l;
    assert(select::is_named(a, la[i]));
    let k = choose|k: int| select::names_parent(a, k, l);
    assert(has_like(b, a[k]));
    let j = choose|j: int| 0 <= j < b.len() && alike(#[trigger] b[j], a[k]);
    assert(select::link_of(b[j]).parent == l.parent);
    let ps = select::distinct_parents(b, n);
    assert(ps.contains(select::parent_of(b[j])));
    let h = choose|h: int| 0 <= h < ps.len() && ps[h] == l.parent;
    assert(lb[h].parent == l.parent);
    assert(select::is_named(b, lb[h]));
    let m = choose|m: int| select::names_parent(b, m, lb[h]);
    assert(has_like(a, b[m]));
    let t = choose|t: int| 0 <= t < a.len() && alike(#[trigger] a[t], b[m]);
    assert(select::link_of(a[t]).parent == l.parent);
    assert(select::precedence(a[k].namespace) == select::precedence(a[t].namespace));
    assert(select::link_of(a[k]) == select::link_of(a[t]));
    assert(lb[h] == l);
}

/// Every entry has the same links in both, in whatever order.
pub open spec fn same_links(a: Seq<Seq<Link>>, b: Seq<Seq<Link>>) -> bool {
    &&& a.len() == b.len()
    &&& forall|e: int, l: Link|
        #![trigger a[e].contains(l)]
        #![trigger b[e].contains(l)]
        0 <= e < a.len() ==> (a[e].contains(l) <==> b[e].contains(l))
}

/// The same paths through links of `a` are paths through links of `b`.
proof fn lemma_paths_covered(
    a: Seq<Seq<Link>>,
    a_order: Seq<int>,
    b: Seq<Seq<Link>>,
    b_order: Seq<int>,
    e: int,
)
    requires
        path_text::extending_keeps_sameness(),
        same_links(a, b),
        all_paths::parents_first(b, b_order),
        all_paths::all_well_built(a, a_order, all_paths::all_settled_paths(a, a_order)),
        all_paths::all_well_built(b, b_order, all_paths::all_settled_paths(b, b_order)),
        0 <= e < a.len(),
        e != ROOT_ENTRY,
        forall|l: Link| #[trigger]
            a[e].contains(l) && l.parent != e ==> path_text::same_lists(
                all_paths::settled_paths(a, a_order, l.parent),
                all_paths::settled_paths(b, b_order, l.parent),
            ),
    ensures
        path_text::covered_by(
            all_paths::settled_paths(a, a_order, e),
            all_paths::settled_paths(b, b_order, e),
        ),
{
    let pa = all_paths::settled_paths(a, a_order, e);
    let pb = all_paths::settled_paths(b, b_order, e);
    let va = all_paths::settled_via(a, a_order, e, a[e].len());
    let vb = all_paths::settled_via(b, b_order, e, b[e].len());
    assert(all_paths::all_settled_paths(a, a_order)[e] == pa);
    assert(all_paths::all_settled_paths(b, b_order)[e] == pb);
    assert forall|i: int| 0 <= i < pa.len() implies path_text::lists_path(pb, #[trigger] pa[i]) by {
        assert(va.contains(pa[i]));
        let j = choose|j: int| 0 <= j < va.len() && va[j] == pa[i];
        let (k, s) = all_paths::lemma_via_from(a, a_order, e, a[e].len(), j);
        let l = a[e][k];
        assert(a[e].contains(l));
        assert(b[e].contains(l));
        let m = choose|m: int| 0 <= m < b[e].len() && b[e][m] == l;
        let bases = all_paths::settled_paths(a, a_order, l.parent);
        let others = all_paths::settled_paths(b, b_order, l.parent);
        assert(path_text::path_matches(bases[s], others[s]));
        assert(others.contains(others[s]));
        let near = path_text::extended(others[s], l.name);
        assert(path_text::path_matches(pa[i], near));
        all_paths::lemma_via_has(b, b_order, e, b[e].len(), m, others[s]);
        path_text::lemma_stood_for_listed(pb, vb, near, pa[i]);
    }
}

/// The same links, in whatever order, give an entry the same paths in the same places.
proof fn lemma_same_links_same_paths(
    a: Seq<Seq<Link>>,
    a_order: Seq<int>,
    b: Seq<Seq<Link>>,
    b_order: Seq<int>,
    e: int,
)
    requires
        path_text::extending_keeps_sameness(),
        same_links(a, b),
        all_paths::valid_lists(a),
        all_paths::parents_first(a, a_order),
        all_paths::parents_first(b, b_order),
        all_paths::all_well_built(a, a_order, all_paths::all_settled_paths(a, a_order)),
        all_paths::all_well_built(b, b_order, all_paths::all_settled_paths(b, b_order)),
        0 <= e < a.len(),
        0 <= a_order.index_of(e),
    ensures
        path_text::same_lists(
            all_paths::settled_paths(a, a_order, e),
            all_paths::settled_paths(b, b_order, e),
        ),
        path_text::same_lists(
            all_paths::settled_paths(b, b_order, e),
            all_paths::settled_paths(a, a_order, e),
        ),
    decreases a_order.index_of(e),
{
    if e != ROOT_ENTRY {
        let pa = all_paths::settled_paths(a, a_order, e);
        let pb = all_paths::settled_paths(b, b_order, e);
        assert forall|l: Link| #[trigger] a[e].contains(l) && l.parent != e implies
            path_text::same_lists(
            all_paths::settled_paths(a, a_order, l.parent),
            all_paths::settled_paths(b, b_order, l.parent),
        ) && path_text::same_lists(
            all_paths::settled_paths(b, b_order, l.parent),
            all_paths::settled_paths(a, a_order, l.parent),
        ) by {
            let k = choose|k: int| 0 <= k < a[e].len() && a[e][k] == l;
            assert(simple::is_settled_for(a_order, a[e][k].parent, e));
            if l.parent != ROOT_ENTRY {
                lemma_same_links_same_paths(a, a_order, b, b_order, l.parent);
            }
        }
        lemma_paths_covered(a, a_order, b, b_order, e);
        assert forall|l: Link| #[trigger] b[e].contains(l) && l.parent != e implies
            path_text::same_lists(
            all_paths::settled_paths(b, b_order, l.parent),
            all_paths::settled_paths(a, a_order, l.parent),
        ) by {
            assert(a[e].contains(l));
        }
        lemma_paths_covered(b, b_order, a, a_order, e);
        assert(all_paths::all_settled_paths(a, a_order)[e] == pa);
        assert(all_paths::all_settled_paths(b, b_order)[e] == pb);
        let va = all_paths::settled_via(a, a_order, e, a[e].len());
        let vb = all_paths::settled_via(b, b_order, e, b[e].len());
        path_text::lemma_tidy_in_same_places(va, vb);
        path_text::lemma_tidy_in_same_places(vb, va);
    }
}

/// The order in which the names of an entry are listed has no effect on its paths, where no two
/// names in the same parent have the same precedence and no entry is its own ancestor through
/// another. This takes extending both sides to keep `==` on paths.
pub proof fn lemma_name_order_ignored(
    f: FileNameCollection,
    f_order: Seq<int>,
    g: FileNameCollection,
    g_order: Seq<int>,
)
    requires
        path_text::extending_keeps_sameness(),
        f@.len() == g@.len(),
        forall|e: int|
            0 <= e < f@.len() ==> same_names(
                #[trigger] select::entry_names(f, e),
                select::entry_names(g, e),
            ) && untied(select::entry_names(f, e), f@.len()),
        dfs::acyclic(all_paths::forward_graph(select::all_parent_links(f))),
        f_order == all_paths::backward_order(select::all_parent_links(f)) || f_order
            == all_paths::forward_order(select::all_parent_links(f)),
        g_order == all_paths::backward_order(select::all_parent_links(g)) || g_order
            == all_paths::forward_order(select::all_parent_links(g)),
        all_paths::all_well_built(
            select::all_parent_links(f),
            f_order,
            all_paths::all_settled_paths(select::all_parent_links(f), f_order),
        ),
        all_paths::all_well_built(
            select::all_parent_links(g),
            g_order,
            all_paths::all_settled_paths(select::all_parent_links(g), g_order),
        ),
    ensures
        forall|e: int|
            0 <= e < f@.len() ==> path_text::same_lists(
                #[trigger] all_paths::all_settled_paths(select::all_parent_links(f), f_order)[e],
                all_paths::all_settled_paths(select::all_parent_links(g), g_order)[e],
            ),
{
    let a = select::all_parent_links(f);
    let b = select::all_parent_links(g);
    let n = f@.len();
    assert forall|e: int, l: Link|
        #![trigger a[e].contains(l)]
        #![trigger b[e].contains(l)]
        0 <= e < n implies (a[e].contains(l) <==> b[e].contains(l)) by {
        let fs = select::entry_names(f, e);
        let gs = select::entry_names(g, e);
        lemma_same_names_untied(fs, gs, n);
        if a[e].contains(l) {
            lemma_links_kept(fs, gs, n, l);
        }
        if b[e].contains(l) {
            lemma_links_kept(gs, fs, n, l);
        }
    }
    assert(same_links(a, b));
    let ga = all_paths::forward_graph(a);
    let gb = all_paths::forward_graph(b);
    assert forall|x: int, y: int| #[trigger] dfs::links_to(gb, x, y) implies dfs::links_to(
        ga,
        x,
        y,
    ) by {
        let k = choose|k: int| 0 <= k < gb[x].len() && #[trigger] gb[x][k] == y;
        assert(b[x].contains(b[x][k]));
        assert(a[x].contains(b[x][k]));
        let m = choose|m: int| 0 <= m < a[x].len() && a[x][m] == b[x][k];
        assert(ga[x][m] == y);
    }
    dfs::lemma_acyclic_within(gb, ga);
    all_paths::lemma_parent_links_valid(f);
    all_paths::lemma_parent_links_valid(g);
    all_paths::lemma_acyclic_parents_first(a);
    all_paths::lemma_acyclic_parents_first(b);
    all_paths::lemma_graphs_closed(a);
    dfs::lemma_finish_sequence(all_paths::backward_graph(a));
    dfs::lemma_finish_sequence(ga);
    assert forall|e: int| 0 <= e < n implies path_text::same_lists(
        #[trigger] all_paths::all_settled_paths(a, f_order)[e],
        all_paths::all_settled_paths(b, g_order)[e],
    ) by {
        assert(f_order.contains(e));
        lemma_same_links_same_paths(a, f_order, b, g_order, e);
    }
}

} // verus!
