//! What the resolutions promise, said of links and paths alone.
//!
//! Entry 5 is the root. A way up is a sequence of entries, each followed by its parent.
use crate::path_resolve::all_paths;
use crate::path_resolve::ancestry;
use crate::path_resolve::dfs;
use crate::path_resolve::multipass;
use crate::path_resolve::multipass::{MAX_PASSES, ROOT_ENTRY};
use crate::path_resolve::path_text;
use crate::path_resolve::select::Link;
use crate::path_resolve::simple;
use vstd::prelude::*;
use vstd::utf8::*;

verus! {

/// Resolution along canonical parents gives the root the empty path, an entry without a link
/// none, and an entry that is its own parent its name. Any other entry has a path only if its
/// parent has one, and then exactly what pushing its name onto the path of the parent makes,
/// or the name itself where that path is empty.
pub proof fn lemma_simple_path(links: Seq<Option<Link>>, e: int)
    requires
        forall|x: int|
            0 <= x < links.len() && (#[trigger] links[x]) is Some ==> 0 <= links[x]->0.parent
                < links.len(),
        0 <= e < links.len(),
    ensures
        simple::simple_paths(links).len() == links.len(),
        e == 5 ==> simple::simple_paths(links)[e] == Some(Seq::<u8>::empty()),
        e != 5 && links[e] is None ==> simple::simple_paths(links)[e] is None,
        e != 5 && links[e] is Some && links[e]->0.parent == e ==> simple::simple_paths(links)[e]
            == Some(encode_utf8(links[e]->0.name)),
        e != 5 && links[e] is Some && links[e]->0.parent != e && simple::simple_paths(
            links,
        )[e] is Some ==> simple::simple_paths(links)[links[e]->0.parent] is Some
            && simple::simple_paths(links)[e]->0 == (if simple::simple_paths(links)[links[e]->0.parent]->0.len() == 0 {
                encode_utf8(links[e]->0.name)
            } else {
                path_text::pushed_bytes(simple::simple_paths(links)[links[e]->0.parent]->0, links[e]->0.name)
            }),
{
    if e != ROOT_ENTRY && links[e] is Some && simple::simple_paths(links)[e] is Some {
        assert(0 <= links[e]->0.parent < links.len());
    }
}

/// An entry whose parent has a path has one, too, unless it lies on a loop that leads through the
/// root.
pub proof fn lemma_simple_path_found(links: Seq<Option<Link>>, e: int)
    requires
        forall|x: int|
            0 <= x < links.len() && (#[trigger] links[x]) is Some ==> 0 <= links[x]->0.parent
                < links.len(),
        0 <= e < links.len(),
        links[e] is Some,
        simple::simple_paths(links)[links[e]->0.parent] is Some,
    ensures
        links[e]->0.parent == 5 ==> simple::simple_paths(links)[e] is Some,
        simple::simple_paths(links)[e] is Some || exists|c: Seq<int>| #![trigger c.last()]
            c.len() >= 2 && c[0] == e && c.last() == e && c.contains(5) && (
            forall|j: int|
                0 <= j < c.len() - 1 ==> links[#[trigger] c[j]] is Some && links[c[j]]->0.parent == c[j
                    + 1]),
{
    let p = links[e]->0.parent;
    let order = simple::settling_order(links);
    assert(multipass::valid_links(links));
    if simple::simple_paths(links)[e] is None {
        assert(ancestry::overtaken(links, e));
        ancestry::lemma_found_follows_ancestors(links, p);
        ancestry::lemma_rooted_unfolds(links, e);
        let (k, rest) = ancestry::lemma_on_loop_of_root(links, e);
        ancestry::lemma_ancestor_sum(links, e, k, rest);
        let c = way(links, e, k + rest);
        lemma_way(links, e, k + rest);
        assert(c[k as int] == 5);
        assert(c.last() == e);
    }
}

/// Whether an entry has a path where its parent has one: always if the parent is the root or comes
/// earlier in the order of settling, else never, unless it is its own parent or the root.
pub proof fn lemma_simple_path_settled(links: Seq<Option<Link>>, e: int)
    requires
        0 <= e < links.len(),
        e != 5,
        links[e] is Some,
        0 <= links[e]->0.parent < links.len(),
        links[e]->0.parent != e,
    ensures
        simple::simple_paths(links)[e] is Some <==> links[e]->0.parent == 5 || (0
            <= simple::settling_order(links).index_of(links[e]->0.parent) < simple::settling_order(
            links,
        ).index_of(e) && simple::simple_paths(links)[links[e]->0.parent] is Some),
{
}

/// The order of settling is that in which a depth-first visit finishes entries that each have
/// their canonical parent, if any, as their one successor.
pub proof fn lemma_settling_order(links: Seq<Option<Link>>, g: Seq<Seq<int>>)
    requires
        g.len() == links.len(),
        forall|e: int|
            0 <= e < links.len() ==> (#[trigger] g[e]).len() == (if links[e] is Some {
                1nat
            } else {
                0
            }),
        forall|e: int|
            0 <= e < links.len() && links[e] is Some ==> (#[trigger] g[e])[0] == links[e]->0.parent,
    ensures
        simple::settling_order(links) == dfs::finish_sequence(g),
{
    let h = simple::parent_graph(links);
    assert forall|e: int| 0 <= e < g.len() implies #[trigger] g[e] == h[e] by {
        assert(g[e] =~= h[e]);
    }
    assert(g =~= h);
}

/// The two orders for all parents are those in which a depth-first visit finishes entries that
/// have their parents as successors, from last to first or from first to last.
pub proof fn lemma_orders(lists: Seq<Seq<Link>>, forth: Seq<Seq<int>>, back: Seq<Seq<int>>)
    requires
        forth.len() == lists.len(),
        back.len() == lists.len(),
        forall|e: int| 0 <= e < lists.len() ==> (#[trigger] forth[e]).len() == lists[e].len(),
        forall|e: int| 0 <= e < lists.len() ==> (#[trigger] back[e]).len() == lists[e].len(),
        forall|e: int, k: int|
            0 <= e < lists.len() && 0 <= k < lists[e].len() ==> #[trigger] forth[e][k]
                == lists[e][k].parent,
        forall|e: int, k: int|
            0 <= e < lists.len() && 0 <= k < lists[e].len() ==> #[trigger] back[e][k]
                == lists[e][lists[e].len() - 1 - k].parent,
    ensures
        all_paths::forward_order(lists) == dfs::finish_sequence(forth),
        all_paths::backward_order(lists) == dfs::finish_sequence(back),
{
    let f = all_paths::forward_graph(lists);
    let b = all_paths::backward_graph(lists);
    assert forall|e: int| 0 <= e < lists.len() implies #[trigger] forth[e] == f[e] by {
        assert(forth[e] =~= f[e]);
    }
    assert forall|e: int| 0 <= e < lists.len() implies #[trigger] back[e] == b[e] by {
        assert(back[e] =~= b[e]);
    }
    assert(forth =~= f);
    assert(back =~= b);
}

/// The entries that so many steps up lead to.
spec fn way(links: Seq<Option<Link>>, e: int, m: nat) -> Seq<int> {
    Seq::new(m + 1, |j: int| ancestry::ancestor(links, e, j as nat)->0)
}

proof fn lemma_way(links: Seq<Option<Link>>, e: int, m: nat)
    requires
        ancestry::ancestor(links, e, m) is Some,
    ensures
        way(links, e, m).len() == m + 1,
        way(links, e, m)[0] == e,
        way(links, e, m).last() == ancestry::ancestor(links, e, m)->0,
        forall|j: int|
            0 <= j < m ==> links[#[trigger] way(links, e, m)[j]] is Some && links[way(
                links,
                e,
                m,
            )[j]]->0.parent == way(links, e, m)[j + 1],
{
    assert forall|j: int|
        0 <= j < m implies links[#[trigger] way(links, e, m)[j]] is Some && links[way(
        links,
        e,
        m,
    )[j]]->0.parent == way(links, e, m)[j + 1] by {
        lemma_ancestor_before(links, e, j as nat, m);
        lemma_ancestor_before(links, e, (j + 1) as nat, m);
        ancestry::lemma_ancestor_sum(links, e, j as nat, 1);
        let x = ancestry::ancestor(links, e, j as nat)->0;
        reveal_with_fuel(ancestry::ancestor, 2);
        assert(ancestry::ancestor(links, x, 1) is Some);
    }
}

proof fn lemma_ancestor_before(links: Seq<Option<Link>>, e: int, j: nat, m: nat)
    requires
        j <= m,
        ancestry::ancestor(links, e, m) is Some,
    ensures
        ancestry::ancestor(links, e, j) is Some,
    decreases j,
{
    if j > 0 {
        lemma_ancestor_before(links, links[e]->0.parent, (j - 1) as nat, (m - 1) as nat);
    }
}

/// A way up leads from every entry with a path to the root, or to an entry that is its own
/// parent.
pub proof fn lemma_simple_path_rooted(links: Seq<Option<Link>>, e: int)
    requires
        forall|x: int|
            0 <= x < links.len() && (#[trigger] links[x]) is Some ==> 0 <= links[x]->0.parent
                < links.len(),
        0 <= e < links.len(),
        simple::simple_paths(links)[e] is Some,
    ensures
        exists|c: Seq<int>| #![trigger c.last()]
            c.len() >= 1 && c[0] == e && (c.last() == 5 || (links[c.last()] is Some
                && links[c.last()]->0.parent == c.last())) && (
            forall|j: int|
                0 <= j < c.len() - 1 ==> links[#[trigger] c[j]] is Some && links[c[j]]->0.parent == c[j
                    + 1]),
{
    assert(multipass::valid_links(links));
    ancestry::lemma_found_follows_ancestors(links, e);
    let m = choose|m: nat| ancestry::rooted_within(links, e, m) is Some;
    let k = ancestry::lemma_rooted_reaches(links, e, m);
    let c = way(links, e, k);
    lemma_way(links, e, k);
    assert(c.last() == ancestry::ancestor(links, e, k)->0);
}

/// Resolution by passes gives the root the empty path, and an entry without a link, or with
/// itself as its parent, none. Any other entry has a path only if its parent has one, and then
/// exactly what pushing its name onto the path of the parent makes, or the name itself where
/// that path is empty.
pub proof fn lemma_passed_path(links: Seq<Option<Link>>, e: int)
    requires
        forall|x: int|
            0 <= x < links.len() && (#[trigger] links[x]) is Some ==> 0 <= links[x]->0.parent
                < links.len(),
        0 <= e < links.len(),
    ensures
        multipass::multipass_paths(links).len() == links.len(),
        e == 5 ==> multipass::multipass_paths(links)[e] == Some(Seq::<u8>::empty()),
        e != 5 && links[e] is None ==> multipass::multipass_paths(links)[e] is None,
        e != 5 && links[e] is Some && links[e]->0.parent == e ==> multipass::multipass_paths(
            links,
        )[e] is None,
        e != 5 && links[e] is Some && links[e]->0.parent != e && multipass::multipass_paths(
            links,
        )[e] is Some ==> multipass::multipass_paths(links)[links[e]->0.parent] is Some
            && multipass::multipass_paths(links)[e]->0 == (if multipass::multipass_paths(links)[links[e]->0.parent]->0.len() == 0 {
                encode_utf8(links[e]->0.name)
            } else {
                path_text::pushed_bytes(multipass::multipass_paths(links)[links[e]->0.parent]->0, links[e]->0.name)
            }),
{
    assert(multipass::valid_links(links));
    if e != ROOT_ENTRY && links[e] is Some {
        let p = links[e]->0.parent;
        assert(0 <= p < links.len());
        if p == e {
            ancestry::lemma_own_parent_never_passed(links, MAX_PASSES as nat, e);
        } else if multipass::multipass_paths(links)[e] is Some && p > e {
            multipass::lemma_paths_stay(links, (MAX_PASSES - 1) as nat, p);
        }
    }
}

/// Passes find a path for an entry exactly if a way up leads from it to the root and passes
/// enough are made. A pass goes through the entries in ascending order, so it takes one for each
/// step to an entry with a greater number, and one more for what follows the last of these; there
/// are at most 26.
pub proof fn lemma_passed_path_found(links: Seq<Option<Link>>, c: Seq<int>)
    requires
        forall|x: int|
            0 <= x < links.len() && (#[trigger] links[x]) is Some ==> 0 <= links[x]->0.parent
                < links.len(),
        c.len() >= 2,
        0 <= c[0] < links.len(),
        c.last() == 5,
        forall|j: int| 0 <= j < c.len() - 1 ==> #[trigger] c[j] != 5,
        forall|j: int|
            0 <= j < c.len() - 1 ==> links[#[trigger] c[j]] is Some && links[c[j]]->0.parent == c[j
                + 1],
    ensures
        multipass::multipass_paths(links)[c[0]] is Some <==> Seq::new(
            (c.len() - 1) as nat,
            |j: int| c[j] < c[j + 1],
        ).filter(|greater: bool| greater).len() + (if c[c.len() - 2] > 5 {
            1nat
        } else {
            0
        }) <= 26,
{
    assert(multipass::valid_links(links));
    lemma_passes_needed(links, c, MAX_PASSES as nat);
}

/// The number of steps to an entry with a greater number.
spec fn climbs(c: Seq<int>) -> nat {
    Seq::new((c.len() - 1) as nat, |j: int| c[j] < c[j + 1]).filter(|greater: bool| greater).len()
}

proof fn lemma_climbs(c: Seq<int>)
    requires
        c.len() >= 2,
    ensures
        climbs(c) == climbs(c.drop_first()) + (if c[0] < c[1] {
            1nat
        } else {
            0
        }),
{
    let keep = |greater: bool| greater;
    let rest = c.drop_first();
    let steps = Seq::new((c.len() - 1) as nat, |j: int| c[j] < c[j + 1]);
    let others = Seq::new((rest.len() - 1) as nat, |j: int| rest[j] < rest[j + 1]);
    let first = seq![c[0] < c[1]];
    assert(steps =~= first + others);
    Seq::filter_distributes_over_add(first, others, keep);
    reveal(Seq::filter);
    assert(first.drop_last() =~= Seq::<bool>::empty());
    assert(first.drop_last().filter(keep) =~= Seq::<bool>::empty());
}

proof fn lemma_passes_needed(links: Seq<Option<Link>>, c: Seq<int>, passes: nat)
    requires
        multipass::valid_links(links),
        c.len() >= 2,
        0 <= c[0] < links.len(),
        c.last() == 5,
        forall|j: int| 0 <= j < c.len() - 1 ==> #[trigger] c[j] != 5,
        forall|j: int|
            0 <= j < c.len() - 1 ==> links[#[trigger] c[j]] is Some && links[c[j]]->0.parent == c[j
                + 1],
    ensures
        multipass::path_after(links, passes, c[0]) is Some <==> climbs(c) + (if c[c.len() - 2]
            > 5 {
            1nat
        } else {
            0
        }) <= passes,
    decreases c.len(),
{
    let rest = c.drop_first();
    let e = c[0];
    let p = c[1];
    lemma_climbs(c);
    assert(links[c[0]] is Some && links[c[0]]->0.parent == c[1]);
    assert(0 <= p < links.len());
    if rest.len() == 1 {
        assert(climbs(rest) == 0) by {
            reveal(Seq::filter);
        }
        assert(p == 5);
    } else {
        assert(rest[rest.len() - 2] == c[c.len() - 2]);
        assert(rest.last() == 5);
        assert forall|j: int| 0 <= j < rest.len() - 1 implies #[trigger] rest[j] != 5
            && links[rest[j]] is Some && links[rest[j]]->0.parent == rest[j + 1] by {
            assert(rest[j] == c[j + 1] && rest[j + 1] == c[j + 1 + 1]);
        }
        if p == e {
            // An entry that is its own parent never leads to the root.
            lemma_no_way_out(links, c, e);
        } else if p < e {
            lemma_passes_needed(links, rest, passes);
            if passes == 0 {
                lemma_way_costs(rest);
            }
        } else if passes > 0 {
            lemma_passes_needed(links, rest, (passes - 1) as nat);
        }
    }
}

/// An entry that is its own parent leads nowhere else.
proof fn lemma_no_way_out(links: Seq<Option<Link>>, c: Seq<int>, e: int)
    requires
        c.len() >= 1,
        c[0] == e,
        links[e] is Some,
        links[e]->0.parent == e,
        forall|j: int|
            0 <= j < c.len() - 1 ==> links[#[trigger] c[j]] is Some && links[c[j]]->0.parent == c[j
                + 1],
    ensures
        c.last() == e,
    decreases c.len(),
{
    if c.len() > 1 {
        let rest = c.drop_first();
        assert(links[c[0]]->0.parent == c[1]);
        assert forall|j: int| 0 <= j < rest.len() - 1 implies links[#[trigger] rest[j]] is Some
            && links[rest[j]]->0.parent == rest[j + 1] by {
            assert(rest[j] == c[j + 1] && rest[j + 1] == c[j + 1 + 1]);
        }
        lemma_no_way_out(links, rest, e);
    }
}

/// Any way to the root takes a pass.
proof fn lemma_way_costs(c: Seq<int>)
    requires
        c.len() >= 2,
        c.last() == 5,
        forall|j: int| 0 <= j < c.len() - 1 ==> #[trigger] c[j] != 5,
    ensures
        climbs(c) + (if c[c.len() - 2] > 5 {
            1nat
        } else {
            0
        }) >= 1,
    decreases c.len(),
{
    let rest = c.drop_first();
    lemma_climbs(c);
    assert(c[0] != 5);
    if c.len() > 2 {
        assert(rest[rest.len() - 2] == c[c.len() - 2]);
        assert forall|j: int| 0 <= j < rest.len() - 1 implies #[trigger] rest[j] != 5 by {
            assert(rest[j] == c[j + 1]);
        }
        lemma_way_costs(rest);
    }
}

/// A way up leads from every entry that passes find a path for to the root.
pub proof fn lemma_passed_path_rooted(links: Seq<Option<Link>>, e: int)
    requires
        forall|x: int|
            0 <= x < links.len() && (#[trigger] links[x]) is Some ==> 0 <= links[x]->0.parent
                < links.len(),
        0 <= e < links.len(),
        multipass::multipass_paths(links)[e] is Some,
    ensures
        exists|c: Seq<int>| #![trigger c.last()]
            c.len() >= 1 && c[0] == e && c.last() == 5 && (
            forall|j: int|
                0 <= j < c.len() - 1 ==> links[#[trigger] c[j]] is Some && links[c[j]]->0.parent == c[j
                    + 1]),
{
    assert(multipass::valid_links(links));
    let m = ancestry::lemma_passed_reaches_root(links, MAX_PASSES as nat, e);
    let c = way(links, e, m);
    lemma_way(links, e, m);
    assert(c.last() == 5);
}

/// Resolution along all parents gives the root the empty path. The paths of any entry ascend, and
/// no two are the same.
pub proof fn lemma_all_paths(lists: Seq<Seq<Link>>, order: Seq<int>, e: int)
    requires
        order == all_paths::backward_order(lists) || order == all_paths::forward_order(lists),
        all_paths::all_well_built(lists, order, all_paths::all_settled_paths(lists, order)),
        0 <= e < lists.len(),
    ensures
        all_paths::all_settled_paths(lists, order).len() == lists.len(),
        e == 5 ==> all_paths::all_settled_paths(lists, order)[e] == seq![Seq::<u8>::empty()],
        forall|i: int, j: int|
            0 <= i < j < all_paths::all_settled_paths(lists, order)[e].len() ==> path_text::path_at_most(
                #[trigger] all_paths::all_settled_paths(lists, order)[e][i],
                #[trigger] all_paths::all_settled_paths(lists, order)[e][j],
            ) && !path_text::same_path(
                all_paths::all_settled_paths(lists, order)[e][j],
                all_paths::all_settled_paths(lists, order)[e][i],
            ),
{
    if e != ROOT_ENTRY {
        assert(path_text::is_tidy(
            all_paths::all_settled_paths(lists, order)[e],
            all_paths::settled_via(lists, order, e, lists[e].len()),
        ));
    }
}

/// A path of an entry other than the root is exactly what pushing its name in some other entry
/// onto a path of that entry makes, or the name itself where that path is empty. The other entry
/// is the root, or comes earlier in the order.
pub proof fn lemma_all_paths_from(lists: Seq<Seq<Link>>, order: Seq<int>, e: int, i: int)
    requires
        forall|x: int, j: int|
            0 <= x < lists.len() && 0 <= j < lists[x].len() ==> 0 <= (
            #[trigger] lists[x][j]).parent < lists.len(),
        order == all_paths::backward_order(lists) || order == all_paths::forward_order(lists),
        all_paths::all_well_built(lists, order, all_paths::all_settled_paths(lists, order)),
        0 <= e < lists.len(),
        e != 5,
        0 <= i < all_paths::all_settled_paths(lists, order)[e].len(),
    ensures
        exists|k: int, h: int|
            #![trigger all_paths::all_settled_paths(lists, order)[lists[e][k].parent][h]]
            0 <= k < lists[e].len() && lists[e][k].parent != e && (lists[e][k].parent == 5 || 0
                <= order.index_of(lists[e][k].parent) < order.index_of(e)) && 0 <= h
                < all_paths::all_settled_paths(lists, order)[lists[e][k].parent].len()
                && all_paths::all_settled_paths(lists, order)[e][i] == (if all_paths::all_settled_paths(lists, order)[lists[e][k].parent][h].len() == 0 {
                    encode_utf8(lists[e][k].name)
                } else {
                    path_text::pushed_bytes(all_paths::all_settled_paths(lists, order)[lists[e][k].parent][h], lists[e][k].name)
                }),
{
    let all = all_paths::all_settled_paths(lists, order);
    let paths = all_paths::settled_paths(lists, order, e);
    let via = all_paths::settled_via(lists, order, e, lists[e].len());
    assert(all[e] == paths);
    assert(via.contains(paths[i]));
    let j = choose|j: int| 0 <= j < via.len() && via[j] == paths[i];
    let (k, h) = all_paths::lemma_via_from(lists, order, e, lists[e].len(), j);
    let q = lists[e][k].parent;
    assert(all[q] == all_paths::settled_paths(lists, order, q));
    assert(all[lists[e][k].parent][h] == all[q][h]);
}

/// Each path of a parent, with the name there pushed onto it, is among the paths of an entry if
/// the parent is the root or comes earlier in the order; and it does come earlier, unless a way up
/// leads from it back to the entry.
pub proof fn lemma_all_paths_found(
    lists: Seq<Seq<Link>>,
    order: Seq<int>,
    e: int,
    k: int,
    h: int,
)
    requires
        forall|x: int, j: int|
            0 <= x < lists.len() && 0 <= j < lists[x].len() ==> 0 <= (
            #[trigger] lists[x][j]).parent < lists.len(),
        order == all_paths::backward_order(lists) || order == all_paths::forward_order(lists),
        all_paths::all_well_built(lists, order, all_paths::all_settled_paths(lists, order)),
        0 <= e < lists.len(),
        e != 5,
        0 <= k < lists[e].len(),
        lists[e][k].parent != e,
        0 <= h < all_paths::all_settled_paths(lists, order)[lists[e][k].parent].len(),
        lists[e][k].parent == 5 || 0 <= order.index_of(lists[e][k].parent) < order.index_of(e)
            || forall|c: Seq<int>|
            #![trigger c.last()]
            c.len() >= 1 && c[0] == lists[e][k].parent && (forall|j: int|
                0 <= j < c.len() - 1 ==> 0 <= #[trigger] c[j] < lists.len() && exists|m: int|
                    0 <= m < lists[c[j]].len() && (#[trigger] lists[c[j]][m]).parent == c[j + 1])
                ==> c.last() != e,
    ensures
        ({
            let base = all_paths::all_settled_paths(lists, order)[lists[e][k].parent][h];
            let path = if base.len() == 0 {
                encode_utf8(lists[e][k].name)
            } else {
                path_text::pushed_bytes(base, lists[e][k].name)
            };
            exists|i: int|
                0 <= i < all_paths::all_settled_paths(lists, order)[e].len() && (
                #[trigger] all_paths::all_settled_paths(lists, order)[e][i] == path || path_text::same_path(
                    path,
                    all_paths::all_settled_paths(lists, order)[e][i],
                ))
        }),
{
    let q = lists[e][k].parent;
    let all = all_paths::all_settled_paths(lists, order);
    assert(all_paths::valid_lists(lists));
    assert(0 <= q < lists.len());
    all_paths::lemma_graphs_closed(lists);
    if q != ROOT_ENTRY && !(0 <= order.index_of(q) < order.index_of(e)) {
        let g = if order == all_paths::backward_order(lists) {
            all_paths::backward_graph(lists)
        } else {
            all_paths::forward_graph(lists)
        };
        dfs::lemma_finish_sequence(g);
        if order == all_paths::backward_order(lists) {
            assert(g[e][lists[e].len() - 1 - k] == q);
        } else {
            assert(g[e][k] == q);
        }
        assert(dfs::links_to(g, e, q));
        assert(order.contains(e) && order.contains(q));
        simple::lemma_before_index(order, q, e);
        if dfs::below(g, order, q, e) {
            let c = choose|c: Seq<int>|
                #[trigger] dfs::descending(g, order, c) && c.len() >= 1 && c[0] == q && c.last()
                    == e;
            assert forall|j: int| 0 <= j < c.len() - 1 implies 0 <= #[trigger] c[j] < lists.len()
                && exists|m: int|
                0 <= m < lists[c[j]].len() && (#[trigger] lists[c[j]][m]).parent == c[j + 1] by {
                assert(dfs::links_to(g, c[j], c[j + 1]));
                let x = c[j];
                let y = c[j + 1];
                let t = choose|t: int| 0 <= t < g[x].len() && #[trigger] g[x][t] == y;
                if order == all_paths::backward_order(lists) {
                    assert(lists[x][lists[x].len() - 1 - t].parent == y);
                } else {
                    assert(lists[x][t].parent == y);
                }
            }
            assert(c.last() == e);
        }
    }
    assert(simple::is_settled_for(order, q, e));
    let paths = all_paths::settled_paths(lists, order, e);
    let bases = all_paths::settled_paths(lists, order, q);
    let via = all_paths::settled_via(lists, order, e, lists[e].len());
    assert(all[e] == paths);
    assert(all[q] == bases);
    assert(bases.contains(bases[h]));
    all_paths::lemma_via_has(lists, order, e, lists[e].len(), k, bases[h]);
    let near = path_text::extended(bases[h], lists[e][k].name);
    let j = choose|j: int| 0 <= j < via.len() && via[j] == near;
    assert(path_text::lists_path(paths, via[j]));
    let i = choose|i: int| 0 <= i < paths.len() && path_text::path_matches(near, #[trigger] paths[i]);
    assert(path_text::path_matches(near, all[e][i]));
}

/// Every path comes down from the root: a way up leads from the entry to the root, given by
/// entries, the links taken there and paths, along which each path is what pushing the name of the
/// link onto the next path makes, or the name itself where that one is empty.
pub proof fn lemma_all_paths_rooted(lists: Seq<Seq<Link>>, order: Seq<int>, e: int, i: int)
    requires
        forall|x: int, j: int|
            0 <= x < lists.len() && 0 <= j < lists[x].len() ==> 0 <= (
            #[trigger] lists[x][j]).parent < lists.len(),
        order == all_paths::backward_order(lists) || order == all_paths::forward_order(lists),
        all_paths::all_well_built(lists, order, all_paths::all_settled_paths(lists, order)),
        0 <= e < lists.len(),
        0 <= i < all_paths::all_settled_paths(lists, order)[e].len(),
    ensures
        exists|trail: Seq<(int, int, Seq<u8>)>|
            #![trigger trail.last()]
            trail.len() >= 1 && trail[0].0 == e && trail[0].2 == all_paths::all_settled_paths(lists, order)[e][i]
                && trail.last().0 == 5 && trail.last().2 == Seq::<u8>::empty() && (forall|j: int|
                0 <= j < trail.len() - 1 ==> 0 <= (#[trigger] trail[j]).1 < lists[trail[j].0].len()
                    && lists[trail[j].0][trail[j].1].parent == trail[j + 1].0 && trail[j].2
                    == (if trail[j + 1].2.len() == 0 {
                        encode_utf8(lists[trail[j].0][trail[j].1].name)
                    } else {
                        path_text::pushed_bytes(trail[j + 1].2, lists[trail[j].0][trail[j].1].name)
                    })),
{
    let path = all_paths::all_settled_paths(lists, order)[e][i];
    assert(all_paths::valid_lists(lists));
    all_paths::lemma_graphs_closed(lists);
    dfs::lemma_finish_sequence(all_paths::backward_graph(lists));
    dfs::lemma_finish_sequence(all_paths::forward_graph(lists));
    all_paths::lemma_paths_spelled(lists, order);
    assert(all_paths::is_spelled(lists, e, path));
    let steps = choose|steps: Seq<int>| #[trigger]
        all_paths::spelled_by(lists, e, steps) == Some(path);
    let trail = lemma_trail(lists, e, steps);
    assert(trail.last().0 == 5);
}

proof fn lemma_trail(lists: Seq<Seq<Link>>, e: int, steps: Seq<int>) -> (trail: Seq<
    (int, int, Seq<u8>),
>)
    requires
        all_paths::spelled_by(lists, e, steps) is Some,
    ensures
        trail.len() >= 1,
        trail[0].0 == e,
        trail[0].2 == all_paths::spelled_by(lists, e, steps)->0,
        trail.last().0 == 5,
        trail.last().2 == Seq::<u8>::empty(),
        forall|j: int|
            0 <= j < trail.len() - 1 ==> 0 <= (#[trigger] trail[j]).1 < lists[trail[j].0].len()
                && lists[trail[j].0][trail[j].1].parent == trail[j + 1].0 && trail[j].2
                == path_text::extended(trail[j + 1].2, lists[trail[j].0][trail[j].1].name),
    decreases steps.len(),
{
    let path = all_paths::spelled_by(lists, e, steps)->0;
    if e == ROOT_ENTRY {
        seq![(e, 0int, path)]
    } else {
        let k = steps[0];
        let rest = lemma_trail(lists, lists[e][k].parent, steps.drop_first());
        let trail = seq![(e, k, path)] + rest;
        assert(trail.last() == rest.last());
        assert forall|j: int| 0 <= j < trail.len() - 1 implies 0 <= (#[trigger] trail[j]).1
            < lists[trail[j].0].len() && lists[trail[j].0][trail[j].1].parent == trail[j + 1].0
            && trail[j].2 == path_text::extended(
            trail[j + 1].2,
            lists[trail[j].0][trail[j].1].name,
        ) by {
            if j == 0 {
                assert(trail[1] == rest[0]);
            } else {
                assert(trail[j] == rest[j - 1]);
                assert(trail[j + 1] == rest[j - 1 + 1]);
            }
        }
        trail
    }
}

/// In a table without loops, where every parent of an entry other than itself has a smaller rank,
/// both resolutions along all parents come to the same.
pub proof fn lemma_loopless_all_agree(lists: Seq<Seq<Link>>, rank: spec_fn(int) -> int)
    requires
        forall|x: int, j: int|
            0 <= x < lists.len() && 0 <= j < lists[x].len() ==> 0 <= (
            #[trigger] lists[x][j]).parent < lists.len(),
        forall|x: int, j: int|
            0 <= x < lists.len() && 0 <= j < lists[x].len() && (#[trigger] lists[x][j]).parent != x
                ==> rank(lists[x][j].parent) < rank(x),
    ensures
        all_paths::all_settled_paths(lists, all_paths::backward_order(lists))
            == all_paths::all_settled_paths(lists, all_paths::forward_order(lists)),
{
    let g = all_paths::forward_graph(lists);
    assert(all_paths::valid_lists(lists));
    assert forall|x: int, y: int| #[trigger] dfs::links_to(g, x, y) && y != x implies rank(y)
        < rank(x) by {
        let k = choose|k: int| 0 <= k < g[x].len() && #[trigger] g[x][k] == y;
        assert(lists[x][k].parent == y);
    }
    assert forall|c: Seq<int>|
        #[trigger] dfs::chain(g, c) && c.len() >= 2 && c[0] == c.last() implies c[1] == c[0] by {
        assert(dfs::links_to(g, c[0], c[1]));
        lemma_ranks_fall(g, rank, c, 1);
    }
    all_paths::lemma_acyclic_orders_agree(lists);
}

/// Along a chain ranks do not rise.
proof fn lemma_ranks_fall(g: Seq<Seq<int>>, rank: spec_fn(int) -> int, c: Seq<int>, i: int)
    requires
        dfs::chain(g, c),
        0 <= i < c.len(),
        forall|x: int, y: int| #[trigger]
            dfs::links_to(g, x, y) && y != x ==> rank(y) < rank(x),
    ensures
        rank(c.last()) <= rank(c[i]),
    decreases c.len() - i,
{
    if i < c.len() - 1 {
        assert(dfs::links_to(g, c[i], c[i + 1]));
        lemma_ranks_fall(g, rank, c, i + 1);
    }
}

/// A path built for an entry from the paths known of its parents is what pushing a name of the
/// entry onto a path of another parent makes, or the name itself where that path is empty.
pub proof fn lemma_built_path_from(
    links: Seq<Link>,
    e: int,
    known: Seq<Seq<Seq<u8>>>,
    paths: Seq<Seq<u8>>,
    i: int,
)
    requires
        path_text::is_tidy(paths, all_paths::paths_via(links, e, known, links.len())),
        0 <= i < paths.len(),
    ensures
        exists|k: int, h: int|
            #![trigger known[links[k].parent][h]]
            0 <= k < links.len() && links[k].parent != e && 0 <= h < known[links[k].parent].len()
                && paths[i] == (if known[links[k].parent][h].len() == 0 {
                    encode_utf8(links[k].name)
                } else {
                    path_text::pushed_bytes(known[links[k].parent][h], links[k].name)
                }),
{
    let via = all_paths::paths_via(links, e, known, links.len());
    assert(via.contains(paths[i]));
    let j = choose|j: int| 0 <= j < via.len() && via[j] == paths[i];
    let (k, h) = lemma_paths_via_from(links, e, known, links.len(), j);
    assert(known[links[k].parent][h] == known[links[k].parent][h]);
}

proof fn lemma_paths_via_from(
    links: Seq<Link>,
    e: int,
    known: Seq<Seq<Seq<u8>>>,
    m: nat,
    j: int,
) -> (r: (int, int))
    requires
        m <= links.len(),
        0 <= j < all_paths::paths_via(links, e, known, m).len(),
    ensures
        0 <= r.0 < m,
        links[r.0].parent != e,
        0 <= r.1 < known[links[r.0].parent].len(),
        all_paths::paths_via(links, e, known, m)[j] == path_text::extended(
            known[links[r.0].parent][r.1],
            links[r.0].name,
        ),
    decreases m,
{
    let earlier = all_paths::paths_via(links, e, known, (m - 1) as nat);
    if j < earlier.len() {
        lemma_paths_via_from(links, e, known, (m - 1) as nat, j)
    } else {
        (m - 1, j - earlier.len())
    }
}

/// Each path known of another parent, with the name there pushed onto it, is among the paths that
/// are built, or the same as one of them.
pub proof fn lemma_built_path_found(
    links: Seq<Link>,
    e: int,
    known: Seq<Seq<Seq<u8>>>,
    paths: Seq<Seq<u8>>,
    k: int,
    h: int,
)
    requires
        path_text::is_tidy(paths, all_paths::paths_via(links, e, known, links.len())),
        0 <= k < links.len(),
        links[k].parent != e,
        0 <= h < known[links[k].parent].len(),
    ensures
        ({
            let base = known[links[k].parent][h];
            let path = if base.len() == 0 {
                encode_utf8(links[k].name)
            } else {
                path_text::pushed_bytes(base, links[k].name)
            };
            exists|i: int|
                0 <= i < paths.len() && (#[trigger] paths[i] == path || path_text::same_path(
                    path,
                    paths[i],
                ))
        }),
{
    let via = all_paths::paths_via(links, e, known, links.len());
    let near = path_text::extended(known[links[k].parent][h], links[k].name);
    lemma_paths_via_has(links, e, known, links.len(), k, h);
    let j = choose|j: int| 0 <= j < via.len() && via[j] == near;
    lemma_tidy_holds(paths, via, j);
}

proof fn lemma_paths_via_has(
    links: Seq<Link>,
    e: int,
    known: Seq<Seq<Seq<u8>>>,
    m: nat,
    k: int,
    h: int,
)
    requires
        0 <= k < m <= links.len(),
        links[k].parent != e,
        0 <= h < known[links[k].parent].len(),
    ensures
        all_paths::paths_via(links, e, known, m).contains(
            path_text::extended(known[links[k].parent][h], links[k].name),
        ),
    decreases m,
{
    let earlier = all_paths::paths_via(links, e, known, (m - 1) as nat);
    let via = all_paths::paths_via(links, e, known, m);
    let near = path_text::extended(known[links[k].parent][h], links[k].name);
    if k < m - 1 {
        lemma_paths_via_has(links, e, known, (m - 1) as nat, k, h);
        let j = choose|j: int| 0 <= j < earlier.len() && earlier[j] == near;
        assert(via[j] == near);
    } else {
        assert(via[earlier.len() + h] == near);
    }
}

/// Tidy paths ascend, no two of them are the same, and all are of the given ones.
pub proof fn lemma_tidy(kept: Seq<Seq<u8>>, all: Seq<Seq<u8>>)
    requires
        path_text::is_tidy(kept, all),
    ensures
        forall|i: int, j: int|
            0 <= i < j < kept.len() ==> path_text::path_at_most(
                #[trigger] kept[i],
                #[trigger] kept[j],
            ) && !path_text::same_path(kept[j], kept[i]),
        forall|i: int| 0 <= i < kept.len() ==> all.contains(#[trigger] kept[i]),
{
}

/// Each of the given paths is among the tidy ones, or the same as one of them.
pub proof fn lemma_tidy_holds(kept: Seq<Seq<u8>>, all: Seq<Seq<u8>>, j: int)
    requires
        path_text::is_tidy(kept, all),
        0 <= j < all.len(),
    ensures
        exists|i: int|
            0 <= i < kept.len() && (#[trigger] kept[i] == all[j] || path_text::same_path(
                all[j],
                kept[i],
            )),
{
    assert(path_text::lists_path(kept, all[j]));
    let i = choose|i: int| 0 <= i < kept.len() && path_text::path_matches(all[j], #[trigger] kept[i]);
    assert(kept[i] == all[j] || path_text::same_path(all[j], kept[i]));
}

} // verus!
