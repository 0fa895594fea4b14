//! What the parents of an entry say about its path, and what the two resolutions along
//! canonical parents make of it.
use crate::fast_entry::FileNameCollection;
use crate::path_resolve::all_paths;
use crate::path_resolve::collections;
use crate::path_resolve::dfs;
use crate::path_resolve::multipass;
use crate::path_resolve::multipass::{MAX_PASSES, ROOT_ENTRY};
use crate::path_resolve::path_text;
use crate::path_resolve::select;
use crate::path_resolve::select::Link;
use crate::path_resolve::simple;
use vstd::prelude::*;
use vstd::utf8::*;

verus! {

/// The entry that `m` steps from an entry to its canonical parent lead to.
pub open spec fn ancestor(links: Seq<Option<Link>>, e: int, m: nat) -> Option<int>
    decreases m,
{
    if m == 0 {
        Some(e)
    } else {
        match links[e] {
            Some(l) => ancestor(links, l.parent, (m - 1) as nat),
            None => None,
        }
    }
}

/// The path that at most `m` steps up from entry `e` give it: they have to reach the root, or
/// an entry that is its own parent.
pub open spec fn rooted_within(links: Seq<Option<Link>>, e: int, m: nat) -> Option<Seq<u8>>
    decreases m,
{
    if e == ROOT_ENTRY {
        Some(Seq::empty())
    } else if m == 0 {
        None
    } else {
        match links[e] {
            None => None,
            Some(l) => if l.parent == e {
                Some(encode_utf8(l.name))
            } else {
                multipass::joined(rooted_within(links, l.parent, (m - 1) as nat), l.name)
            },
        }
    }
}

/// The path of an entry that has the root, or an entry that is its own parent, among its
/// ancestors.
pub open spec fn rooted_path(links: Seq<Option<Link>>, e: int) -> Option<Seq<u8>> {
    if exists|m: nat| rooted_within(links, e, m) is Some {
        rooted_within(links, e, choose|m: nat| rooted_within(links, e, m) is Some)
    } else {
        None
    }
}

/// More steps change nothing once a path is found.
proof fn lemma_rooted_stays(links: Seq<Option<Link>>, e: int, m: nat, k: nat)
    requires
        m <= k,
        rooted_within(links, e, m) is Some,
    ensures
        rooted_within(links, e, k) == rooted_within(links, e, m),
    decreases m,
{
    if e != ROOT_ENTRY {
        let l = links[e]->0;
        if l.parent != e {
            lemma_rooted_stays(links, l.parent, (m - 1) as nat, (k - 1) as nat);
        }
    }
}

proof fn lemma_rooted_at(links: Seq<Option<Link>>, e: int, m: nat)
    requires
        rooted_within(links, e, m) is Some,
    ensures
        rooted_path(links, e) == rooted_within(links, e, m),
{
    let k = choose|k: nat| rooted_within(links, e, k) is Some;
    if m <= k {
        lemma_rooted_stays(links, e, m, k);
    } else {
        lemma_rooted_stays(links, e, k, m);
    }
}

/// The path of an entry is that of its parent extended by its name; the root has the empty
/// path, and an entry that is its own parent its name.
pub proof fn lemma_rooted_unfolds(links: Seq<Option<Link>>, e: int)
    ensures
        rooted_path(links, e) == (if e == ROOT_ENTRY {
            Some(Seq::<u8>::empty())
        } else {
            match links[e] {
                None => None,
                Some(l) => if l.parent == e {
                    Some(encode_utf8(l.name))
                } else {
                    multipass::joined(rooted_path(links, l.parent), l.name)
                },
            }
        }),
{
    if e == ROOT_ENTRY {
        lemma_rooted_at(links, e, 0);
    } else if links[e] is Some {
        let l = links[e]->0;
        if l.parent == e {
            lemma_rooted_at(links, e, 1);
        } else if rooted_path(links, l.parent) is Some {
            let m = choose|m: nat| rooted_within(links, l.parent, m) is Some;
            assert(rooted_within(links, e, m + 1) is Some);
            lemma_rooted_at(links, e, m + 1);
        } else if rooted_path(links, e) is Some {
            let m = choose|m: nat| rooted_within(links, e, m) is Some;
            assert(rooted_within(links, l.parent, (m - 1) as nat) is Some);
        }
    } else if rooted_path(links, e) is Some {
        let m = choose|m: nat| rooted_within(links, e, m) is Some;
        assert(rooted_within(links, e, m) is Some);
    }
}

/// The parent of entry `x` is neither the root nor `x` itself, and is not settled before `x`.
pub open spec fn overtaken(links: Seq<Option<Link>>, x: int) -> bool {
    &&& x != ROOT_ENTRY
    &&& links[x] is Some
    &&& links[x]->0.parent != x
    &&& !simple::is_settled_for(simple::settling_order(links), links[x]->0.parent, x)
}

/// Every entry that has a path is settled after its parent.
pub open spec fn none_cut_off(links: Seq<Option<Link>>) -> bool {
    forall|x: int|
        0 <= x < links.len() && (#[trigger] rooted_path(links, x)) is Some ==> !overtaken(links, x)
}

/// Every entry that repeated passes find a path for is settled after its parent.
pub open spec fn none_lost(links: Seq<Option<Link>>) -> bool {
    forall|x: int|
        0 <= x < links.len() && (#[trigger] multipass::multipass_paths(links)[x]) is Some
            ==> !overtaken(links, x)
}

/// Resolution along canonical parents gives every entry the path that its ancestors say, unless
/// an entry with such a path is settled before its parent.
pub proof fn lemma_simple_follows_ancestors(links: Seq<Option<Link>>)
    requires
        multipass::valid_links(links),
        none_cut_off(links),
    ensures
        forall|e: int|
            0 <= e < links.len() ==> #[trigger] simple::simple_paths(links)[e] == rooted_path(
                links,
                e,
            ),
{
    let order = simple::settling_order(links);
    simple::lemma_parent_graph_closed(links);
    dfs::lemma_finish_sequence(simple::parent_graph(links));
    assert forall|e: int| 0 <= e < links.len() implies #[trigger] simple::simple_paths(links)[e]
        == rooted_path(links, e) by {
        assert(order.contains(e));
        lemma_settled_is_rooted(links, e);
    }
}

proof fn lemma_settled_is_rooted(links: Seq<Option<Link>>, e: int)
    requires
        multipass::valid_links(links),
        0 <= e < links.len(),
        0 <= simple::settling_order(links).index_of(e),
        none_cut_off(links),
    ensures
        simple::settled_path(links, simple::settling_order(links), e) == rooted_path(links, e),
    decreases simple::settling_order(links).index_of(e),
{
    let order = simple::settling_order(links);
    lemma_rooted_unfolds(links, e);
    if e != ROOT_ENTRY && links[e] is Some {
        let p = links[e]->0.parent;
        if p == ROOT_ENTRY {
            lemma_rooted_unfolds(links, p);
        } else if p != e && simple::is_settled_for(order, p, e) {
            lemma_settled_is_rooted(links, p);
        } else if p != e {
            assert(overtaken(links, e));
        }
    }
}

/// Going up `m` steps and `k` more is going up `m + k`.
pub(crate) proof fn lemma_ancestor_sum(links: Seq<Option<Link>>, e: int, m: nat, k: nat)
    requires
        ancestor(links, e, m) is Some,
    ensures
        ancestor(links, e, m + k) == ancestor(links, ancestor(links, e, m)->0, k),
    decreases m,
{
    if m > 0 {
        lemma_ancestor_sum(links, links[e]->0.parent, (m - 1) as nat, k);
    }
}

/// An entry with itself as an ancestor comes round again and again.
proof fn lemma_ancestor_round(links: Seq<Option<Link>>, e: int, m: nat, times: nat)
    requires
        ancestor(links, e, m) == Some(e),
    ensures
        ancestor(links, e, times * m) == Some(e),
    decreases times,
{
    if times > 0 {
        lemma_ancestor_round(links, e, m, (times - 1) as nat);
        lemma_ancestor_sum(links, e, ((times - 1) * m) as nat, m);
        assert((times - 1) * m + m == times * m) by (nonlinear_arith);
    } else {
        assert(times * m == 0) by (nonlinear_arith)
            requires
                times == 0,
        ;
    }
}

/// An entry that is its own parent is all its ancestors.
proof fn lemma_own_parent(links: Seq<Option<Link>>, x: int, m: nat)
    requires
        links[x] is Some,
        links[x]->0.parent == x,
    ensures
        ancestor(links, x, m) == Some(x),
    decreases m,
{
    if m > 0 {
        lemma_own_parent(links, x, (m - 1) as nat);
    }
}

/// The steps that give an entry its path end at the root or at an entry that is its own parent.
pub(crate) proof fn lemma_rooted_reaches(links: Seq<Option<Link>>, e: int, m: nat) -> (k: nat)
    requires
        rooted_within(links, e, m) is Some,
    ensures
        k <= m,
        ancestor(links, e, k) matches Some(x) && (x == ROOT_ENTRY || (links[x] is Some
            && links[x]->0.parent == x)),
    decreases m,
{
    if e == ROOT_ENTRY {
        0
    } else if links[e]->0.parent == e {
        0
    } else {
        let k = lemma_rooted_reaches(links, links[e]->0.parent, (m - 1) as nat);
        k + 1
    }
}

/// The parents of the root, if it has one other than itself, do not lead back to it.
pub open spec fn root_unlooped(links: Seq<Option<Link>>) -> bool {
    links.len() > ROOT_ENTRY && links[ROOT_ENTRY as int] is Some
        && links[ROOT_ENTRY as int]->0.parent != ROOT_ENTRY ==> forall|m: nat|
        m >= 1 ==> #[trigger] ancestor(links, ROOT_ENTRY as int, m) != Some(ROOT_ENTRY as int)
}

/// A descending chain of parents goes up step by step.
proof fn lemma_chain_is_ancestry(links: Seq<Option<Link>>, order: Seq<int>, c: Seq<int>)
    requires
        multipass::valid_links(links),
        dfs::descending(simple::parent_graph(links), order, c),
        c.len() >= 1,
        0 <= c[0] < links.len(),
    ensures
        ancestor(links, c[0], (c.len() - 1) as nat) == Some(c.last()),
    decreases c.len(),
{
    if c.len() > 1 {
        let g = simple::parent_graph(links);
        let head = c[0];
        assert(dfs::links_to(g, head, c[1]));
        let k = choose|k: int| 0 <= k < g[head].len() && #[trigger] g[head][k] == c[1];
        assert(links[head] is Some && links[head]->0.parent == c[1]);
        let rest = c.drop_first();
        assert forall|j: int| 0 <= j < rest.len() - 1 implies dfs::links_to(
            g,
            #[trigger] rest[j],
            rest[j + 1],
        ) && dfs::before(order, rest[j + 1], rest[j]) by {
            assert(rest[j] == c[j + 1] && rest[j + 1] == c[j + 1 + 1]);
        }
        lemma_chain_is_ancestry(links, order, rest);
    }
}

/// An entry that is settled before its parent is among its own ancestors.
proof fn lemma_overtaken_loops(links: Seq<Option<Link>>, x: int) -> (m: nat)
    requires
        multipass::valid_links(links),
        0 <= x < links.len(),
        overtaken(links, x),
    ensures
        m >= 1,
        ancestor(links, x, m) == Some(x),
{
    let g = simple::parent_graph(links);
    let order = simple::settling_order(links);
    let p = links[x]->0.parent;
    simple::lemma_parent_graph_closed(links);
    dfs::lemma_finish_sequence(g);
    assert(g[x][0] == p);
    assert(dfs::links_to(g, x, p));
    assert(order.contains(x) && order.contains(p));
    simple::lemma_before_index(order, p, x);
    assert(dfs::below(g, order, p, x));
    let c = choose|c: Seq<int>|
        #[trigger] dfs::descending(g, order, c) && c.len() >= 1 && c[0] == p && c.last() == x;
    lemma_chain_is_ancestry(links, order, c);
    assert(ancestor(links, x, c.len()) == Some(x));
    c.len()
}

/// Where the parents of the root do not lead back to it, every entry with a path is settled
/// after its parent.
pub proof fn lemma_unlooped_root(links: Seq<Option<Link>>)
    requires
        multipass::valid_links(links),
        root_unlooped(links),
    ensures
        none_cut_off(links),
{
    assert forall|x: int|
        0 <= x < links.len() && (#[trigger] rooted_path(links, x)) is Some implies !overtaken(
        links,
        x,
    ) by {
        if overtaken(links, x) {
            lemma_looped_path(links, x);
        }
    }
}

/// An entry that has a path and is settled before its parent shares a loop with the root: so many
/// steps lead up to the root, and so many from there back to the entry.
pub(crate) proof fn lemma_on_loop_of_root(links: Seq<Option<Link>>, x: int) -> (r: (nat, nat))
    requires
        multipass::valid_links(links),
        0 <= x < links.len(),
        rooted_path(links, x) is Some,
        overtaken(links, x),
    ensures
        ancestor(links, x, r.0) == Some(ROOT_ENTRY as int),
        r.1 >= 1,
        ancestor(links, ROOT_ENTRY as int, r.1) == Some(x),
{
    let round = lemma_overtaken_loops(links, x);
    let m = choose|m: nat| rooted_within(links, x, m) is Some;
    let k = lemma_rooted_reaches(links, x, m);
    let end = ancestor(links, x, k)->0;
    // Coming round often enough passes `end` and then `x` again.
    let times = k + 1;
    let far = times * round;
    assert(far >= times) by (nonlinear_arith)
        requires
            far == times * round,
            round >= 1,
            times >= 0,
    ;
    lemma_ancestor_round(links, x, round, times);
    let rest = (far - k) as nat;
    lemma_ancestor_sum(links, x, k, rest);
    assert(ancestor(links, end, rest) == Some(x));
    if end != ROOT_ENTRY {
        lemma_own_parent(links, end, rest);
        assert(end == x);
    }
    (k, rest)
}

/// An entry that has a path and is settled before its parent loops the root.
proof fn lemma_looped_path(links: Seq<Option<Link>>, x: int)
    requires
        multipass::valid_links(links),
        0 <= x < links.len(),
        rooted_path(links, x) is Some,
        overtaken(links, x),
    ensures
        !root_unlooped(links),
{
    let (k, rest) = lemma_on_loop_of_root(links, x);
    let root = ROOT_ENTRY as int;
    lemma_ancestor_sum(links, root, rest, k);
    assert(ancestor(links, root, rest + k) == Some(root));
    lemma_ancestor_in_range(links, x, k);
    if links[root] is Some && links[root]->0.parent == root {
        lemma_own_parent(links, root, rest);
    }
    assert(links[root] is Some) by {
        assert(rest >= 1);
    }
}

pub(crate) proof fn lemma_ancestor_in_range(links: Seq<Option<Link>>, e: int, m: nat)
    requires
        multipass::valid_links(links),
        0 <= e < links.len(),
        ancestor(links, e, m) is Some,
    ensures
        0 <= ancestor(links, e, m)->0 < links.len(),
    decreases m,
{
    if m > 0 {
        lemma_ancestor_in_range(links, links[e]->0.parent, (m - 1) as nat);
    }
}

/// An entry that is its own parent is found no path by passes.
pub(crate) proof fn lemma_own_parent_never_passed(links: Seq<Option<Link>>, passes: nat, e: int)
    requires
        e != ROOT_ENTRY,
        links[e] is Some,
        links[e]->0.parent == e,
    ensures
        multipass::path_after(links, passes, e) is None,
    decreases passes,
{
    if passes > 0 {
        lemma_own_parent_never_passed(links, (passes - 1) as nat, e);
    }
}

/// A path that passes find is the one that the ancestors of the entry say.
pub proof fn lemma_passes_follow_ancestors(links: Seq<Option<Link>>, passes: nat, e: int)
    requires
        multipass::valid_links(links),
        0 <= e < links.len(),
        multipass::path_after(links, passes, e) is Some,
    ensures
        rooted_path(links, e) == multipass::path_after(links, passes, e),
    decreases passes, e,
{
    lemma_rooted_unfolds(links, e);
    if e != ROOT_ENTRY {
        let p = links[e]->0.parent;
        assert(links[e] is Some);
        if p == e {
            lemma_own_parent_never_passed(links, passes, e);
        } else if p < e {
            lemma_passes_follow_ancestors(links, passes, p);
        } else {
            lemma_passes_follow_ancestors(links, (passes - 1) as nat, p);
        }
    }
}

/// As many passes as there are steps from an entry up to the root find its path.
pub proof fn lemma_passes_reach(links: Seq<Option<Link>>, passes: nat, e: int, m: nat)
    requires
        multipass::valid_links(links),
        0 <= e < links.len(),
        ancestor(links, e, m) == Some(ROOT_ENTRY as int),
        m <= passes,
    ensures
        multipass::path_after(links, passes, e) is Some,
    decreases m,
{
    if e != ROOT_ENTRY {
        let p = links[e]->0.parent;
        if p < e {
            lemma_passes_reach(links, passes, p, (m - 1) as nat);
        } else {
            lemma_passes_reach(links, (passes - 1) as nat, p, (m - 1) as nat);
        }
    }
}

/// A path that resolution along canonical parents finds is the one that the ancestors of the
/// entry say.
pub proof fn lemma_found_follows_ancestors(links: Seq<Option<Link>>, e: int)
    requires
        multipass::valid_links(links),
        0 <= e < links.len(),
        simple::simple_paths(links)[e] is Some,
    ensures
        rooted_path(links, e) == simple::simple_paths(links)[e],
    decreases simple::settling_order(links).index_of(e),
{
    let order = simple::settling_order(links);
    lemma_rooted_unfolds(links, e);
    if e != ROOT_ENTRY {
        assert(links[e] is Some);
        let p = links[e]->0.parent;
        if p == ROOT_ENTRY {
            lemma_rooted_unfolds(links, p);
        } else if p != e {
            assert(simple::is_settled_for(order, p, e));
            assert(simple::simple_paths(links)[p] is Some);
            lemma_found_follows_ancestors(links, p);
        }
    }
}

/// The two resolutions along canonical parents never find different paths for an entry, loops
/// at the root or elsewhere notwithstanding.
pub proof fn lemma_never_two_paths(links: Seq<Option<Link>>, e: int)
    requires
        multipass::valid_links(links),
        0 <= e < links.len(),
        simple::simple_paths(links)[e] is Some,
        multipass::multipass_paths(links)[e] is Some,
    ensures
        simple::simple_paths(links)[e] == multipass::multipass_paths(links)[e],
{
    lemma_found_follows_ancestors(links, e);
    lemma_passes_follow_ancestors(links, MAX_PASSES as nat, e);
}

/// Resolution along canonical parents gives an entry every path that repeated passes find for
/// it, unless passes find a path for an entry that is settled before its parent.
pub proof fn lemma_simple_extends_multipass(links: Seq<Option<Link>>)
    requires
        multipass::valid_links(links),
        none_lost(links),
    ensures
        forall|e: int|
            0 <= e < links.len() && (#[trigger] multipass::multipass_paths(links)[e]) is Some
                ==> simple::simple_paths(links)[e] == multipass::multipass_paths(links)[e],
        collections::count_resolved(simple::simple_paths(links)) >= collections::count_resolved(
            multipass::multipass_paths(links),
        ),
{
    let order = simple::settling_order(links);
    let old_paths = multipass::multipass_paths(links);
    let new_paths = simple::simple_paths(links);
    simple::lemma_parent_graph_closed(links);
    dfs::lemma_finish_sequence(simple::parent_graph(links));
    assert forall|e: int|
        0 <= e < links.len() && (#[trigger] old_paths[e]) is Some implies new_paths[e]
        == old_paths[e] by {
        lemma_passed_is_settled(links, MAX_PASSES as nat, e);
    }
    lemma_count_monotone(old_paths, new_paths);
}

proof fn lemma_passed_is_settled(links: Seq<Option<Link>>, passes: nat, e: int)
    requires
        multipass::valid_links(links),
        0 <= e < links.len(),
        passes <= MAX_PASSES,
        multipass::path_after(links, passes, e) is Some,
        none_lost(links),
    ensures
        simple::settled_path(links, simple::settling_order(links), e) == multipass::path_after(
            links,
            passes,
            e,
        ),
    decreases passes, e,
{
    if e != ROOT_ENTRY {
        let p = links[e]->0.parent;
        assert(links[e] is Some);
        lemma_paths_stay_until(links, passes, MAX_PASSES as nat, e);
        assert(multipass::multipass_paths(links)[e] is Some);
        assert(!overtaken(links, e));
        if p == e {
            lemma_own_parent_never_passed(links, passes, e);
        } else if p < e {
            lemma_passed_is_settled(links, passes, p);
        } else {
            lemma_passed_is_settled(links, (passes - 1) as nat, p);
        }
    }
}

proof fn lemma_paths_stay_until(links: Seq<Option<Link>>, passes: nat, later: nat, e: int)
    requires
        multipass::valid_links(links),
        0 <= e < links.len(),
        multipass::path_after(links, passes, e) is Some,
        passes <= later,
    ensures
        multipass::path_after(links, later, e) == multipass::path_after(links, passes, e),
    decreases later,
{
    if passes < later {
        lemma_paths_stay_until(links, passes, (later - 1) as nat, e);
        multipass::lemma_paths_stay(links, (later - 1) as nat, e);
    }
}

/// A list that is resolved wherever another is has no fewer resolved entries.
proof fn lemma_count_monotone(a: Seq<Option<Seq<u8>>>, b: Seq<Option<Seq<u8>>>)
    requires
        a.len() == b.len(),
        forall|i: int| 0 <= i < a.len() && (#[trigger] a[i]) is Some ==> b[i] is Some,
    ensures
        collections::count_resolved(a) <= collections::count_resolved(b),
    decreases a.len(),
{
    reveal(Seq::filter);
    if a.len() > 0 {
        let sa = a.drop_last();
        let sb = b.drop_last();
        assert forall|i: int| 0 <= i < sa.len() && (#[trigger] sa[i]) is Some implies sb[i] is Some by {
            assert(a[i] is Some);
        }
        lemma_count_monotone(sa, sb);
        assert(a[a.len() - 1] is Some ==> b[a.len() - 1] is Some);
    }
}

/// Lists of which one is resolved wherever the other is, and as often, are resolved in the same
/// places.
proof fn lemma_same_count(a: Seq<Option<Seq<u8>>>, b: Seq<Option<Seq<u8>>>)
    requires
        a.len() == b.len(),
        forall|i: int| 0 <= i < a.len() && (#[trigger] a[i]) is Some ==> b[i] is Some,
        collections::count_resolved(a) == collections::count_resolved(b),
    ensures
        forall|i: int| 0 <= i < a.len() && (#[trigger] b[i]) is Some ==> a[i] is Some,
    decreases a.len(),
{
    reveal(Seq::filter);
    if a.len() > 0 {
        let sa = a.drop_last();
        let sb = b.drop_last();
        assert forall|i: int| 0 <= i < sa.len() && (#[trigger] sa[i]) is Some implies sb[i] is Some by {
            assert(a[i] is Some);
        }
        assert(a[a.len() - 1] is Some ==> b[a.len() - 1] is Some);
        lemma_count_monotone(sa, sb);
        lemma_same_count(sa, sb);
        assert forall|i: int| 0 <= i < a.len() && (#[trigger] b[i]) is Some implies a[i] is Some by {
            if i < sa.len() {
                assert(sb[i] is Some);
            }
        }
    }
}

/// Both resolutions come to the same exactly if they resolve as many entries, unless passes find
/// a path for an entry that is settled before its parent.
pub proof fn lemma_counts_tell(links: Seq<Option<Link>>)
    requires
        multipass::valid_links(links),
        none_lost(links),
    ensures
        simple::simple_paths(links) == multipass::multipass_paths(links) <==>
            collections::count_resolved(simple::simple_paths(links))
            == collections::count_resolved(multipass::multipass_paths(links)),
{
    let old_paths = multipass::multipass_paths(links);
    let new_paths = simple::simple_paths(links);
    lemma_simple_extends_multipass(links);
    if collections::count_resolved(new_paths) == collections::count_resolved(old_paths) {
        lemma_same_count(old_paths, new_paths);
        assert forall|e: int| 0 <= e < links.len() implies new_paths[e] == old_paths[e] by {
            if old_paths[e] is None {
                assert(new_paths[e] is None);
            }
        }
        assert(new_paths =~= old_paths);
    }
}

/// If every entry with a path is settled after its parent, so is every entry that passes find a
/// path for.
pub proof fn lemma_none_lost(links: Seq<Option<Link>>)
    requires
        multipass::valid_links(links),
        none_cut_off(links),
    ensures
        none_lost(links),
{
    assert forall|x: int|
        0 <= x < links.len() && (
        #[trigger] multipass::multipass_paths(links)[x]) is Some implies !overtaken(links, x) by {
        lemma_passes_follow_ancestors(links, MAX_PASSES as nat, x);
        assert(rooted_path(links, x) is Some);
    }
}

/// Both resolutions give an entry the same path where at most as many steps as there are passes
/// lead up to the root, and both leave it without one where no step leads to the root or to an
/// entry that is its own parent.
pub proof fn lemma_resolutions_agree(links: Seq<Option<Link>>, e: int, m: nat)
    requires
        multipass::valid_links(links),
        none_cut_off(links),
        0 <= e < links.len(),
        rooted_path(links, e) is None || (ancestor(links, e, m) == Some(ROOT_ENTRY as int) && m
            <= MAX_PASSES),
    ensures
        simple::simple_paths(links)[e] == multipass::multipass_paths(links)[e],
{
    lemma_simple_follows_ancestors(links);
    assert(simple::simple_paths(links)[e] == rooted_path(links, e));
    if rooted_path(links, e) is Some {
        lemma_passes_reach(links, MAX_PASSES as nat, e, m);
        lemma_passes_follow_ancestors(links, MAX_PASSES as nat, e);
    } else if multipass::multipass_paths(links)[e] is Some {
        lemma_passes_follow_ancestors(links, MAX_PASSES as nat, e);
    }
}

/// The way along canonical parents is one of the ways up to the root: the path that it gives an
/// entry is spelled by links to parents.
pub proof fn lemma_canonical_way_spelled(file_names: FileNameCollection, e: int, m: nat)
    requires
        0 <= e < file_names@.len(),
        ancestor(select::canonical_links(file_names), e, m) == Some(ROOT_ENTRY as int),
    ensures
        rooted_path(select::canonical_links(file_names), e) is Some,
        all_paths::is_spelled(
            select::all_parent_links(file_names),
            e,
            rooted_path(select::canonical_links(file_names), e)->0,
        ),
        all_paths::reaches_root(select::all_parent_links(file_names), e),
    decreases m,
{
    let links = select::canonical_links(file_names);
    let lists = select::all_parent_links(file_names);
    multipass::lemma_canonical_valid(file_names);
    lemma_rooted_unfolds(links, e);
    if e == ROOT_ENTRY {
        assert(all_paths::spelled_by(lists, e, Seq::empty()) == Some(Seq::<u8>::empty()));
    } else {
        let l = links[e]->0;
        lemma_canonical_way_spelled(file_names, l.parent, (m - 1) as nat);
        if l.parent != e {
            let names = select::entry_names(file_names, e);
            select::lemma_canonical_among_parents(names, file_names@.len());
            let k = choose|k: int| 0 <= k < lists[e].len() && lists[e][k] == l;
            all_paths::lemma_spelled_step(lists, e, k, rooted_path(links, l.parent)->0);
        }
    }
    let steps = choose|steps: Seq<int>| #[trigger]
        all_paths::spelled_by(lists, e, steps) == rooted_path(links, e);
    assert(all_paths::spelled_by(lists, e, steps) is Some);
}

/// An entry that passes find a path for has the root among its ancestors.
pub(crate) proof fn lemma_passed_reaches_root(links: Seq<Option<Link>>, passes: nat, e: int) -> (m: nat)
    requires
        multipass::valid_links(links),
        0 <= e < links.len(),
        multipass::path_after(links, passes, e) is Some,
    ensures
        ancestor(links, e, m) == Some(ROOT_ENTRY as int),
    decreases passes, e,
{
    if e == ROOT_ENTRY {
        0
    } else {
        assert(links[e] is Some);
        let p = links[e]->0.parent;
        if p < e {
            lemma_passed_reaches_root(links, passes, p) + 1
        } else {
            lemma_passed_reaches_root(links, (passes - 1) as nat, p) + 1
        }
    }
}

/// Where no entry is its own ancestor through another, the path that repeated passes find for
/// an entry is one of all its paths. This takes extending both sides to keep `==` on paths.
pub proof fn lemma_passed_path_listed(file_names: FileNameCollection, order: Seq<int>, e: int)
    requires
        path_text::extending_keeps_sameness(),
        0 <= e < file_names@.len(),
        dfs::acyclic(all_paths::forward_graph(select::all_parent_links(file_names))),
        order == all_paths::backward_order(select::all_parent_links(file_names)) || order
            == all_paths::forward_order(select::all_parent_links(file_names)),
        all_paths::all_well_built(
            select::all_parent_links(file_names),
            order,
            all_paths::all_settled_paths(select::all_parent_links(file_names), order),
        ),
        multipass::multipass_paths(select::canonical_links(file_names))[e] is Some,
    ensures
        path_text::lists_path(
            all_paths::all_settled_paths(select::all_parent_links(file_names), order)[e],
            multipass::multipass_paths(select::canonical_links(file_names))[e]->0,
        ),
{
    let links = select::canonical_links(file_names);
    multipass::lemma_canonical_valid(file_names);
    let m = lemma_passed_reaches_root(links, MAX_PASSES as nat, e);
    lemma_passes_follow_ancestors(links, MAX_PASSES as nat, e);
    lemma_canonical_path_listed(file_names, order, e, m);
}

/// Where no entry is its own ancestor through another, resolution along canonical parents finds
/// a path for an entry that has the root among its ancestors, and it is one of all its paths.
/// This takes extending both sides to keep `==` on paths.
pub proof fn lemma_canonical_path_listed(
    file_names: FileNameCollection,
    order: Seq<int>,
    e: int,
    m: nat,
)
    requires
        path_text::extending_keeps_sameness(),
        0 <= e < file_names@.len(),
        dfs::acyclic(all_paths::forward_graph(select::all_parent_links(file_names))),
        order == all_paths::backward_order(select::all_parent_links(file_names)) || order
            == all_paths::forward_order(select::all_parent_links(file_names)),
        all_paths::all_well_built(
            select::all_parent_links(file_names),
            order,
            all_paths::all_settled_paths(select::all_parent_links(file_names), order),
        ),
        ancestor(select::canonical_links(file_names), e, m) == Some(ROOT_ENTRY as int),
    ensures
        simple::simple_paths(select::canonical_links(file_names))[e] == rooted_path(
            select::canonical_links(file_names),
            e,
        ),
        rooted_path(select::canonical_links(file_names), e) is Some,
        path_text::lists_path(
            all_paths::all_settled_paths(select::all_parent_links(file_names), order)[e],
            rooted_path(select::canonical_links(file_names), e)->0,
        ),
{
    let links = select::canonical_links(file_names);
    let lists = select::all_parent_links(file_names);
    multipass::lemma_canonical_valid(file_names);
    all_paths::lemma_parent_links_valid(file_names);
    all_paths::lemma_acyclic_parents_first(lists);
    lemma_canonical_way_spelled(file_names, e, m);
    all_paths::lemma_ways_listed(lists, order);
    lemma_acyclic_none_cut_off(file_names);
    lemma_simple_follows_ancestors(links);
}

/// Where no entry is its own ancestor through another, every entry is settled after its
/// canonical parent.
proof fn lemma_acyclic_none_cut_off(file_names: FileNameCollection)
    requires
        dfs::acyclic(all_paths::forward_graph(select::all_parent_links(file_names))),
    ensures
        none_cut_off(select::canonical_links(file_names)),
{
    let links = select::canonical_links(file_names);
    let lists = select::all_parent_links(file_names);
    let g = simple::parent_graph(links);
    let f = all_paths::forward_graph(lists);
    let order = simple::settling_order(links);
    multipass::lemma_canonical_valid(file_names);
    simple::lemma_parent_graph_closed(links);
    dfs::lemma_finish_sequence(g);
    assert forall|x: int, y: int| #[trigger] dfs::links_to(g, x, y) implies dfs::links_to(f, x, y) by {
        let l = links[x]->0;
        select::lemma_canonical_among_parents(
            select::entry_names(file_names, x),
            file_names@.len(),
        );
        let k = choose|k: int| 0 <= k < lists[x].len() && lists[x][k] == l;
        assert(f[x][k] == y);
    }
    dfs::lemma_acyclic_within(g, f);
    assert forall|x: int|
        0 <= x < links.len() && (#[trigger] rooted_path(links, x)) is Some implies !overtaken(
        links,
        x,
    ) by {
        if x != ROOT_ENTRY && links[x] is Some && links[x]->0.parent != x {
            let p = links[x]->0.parent;
            assert(g[x][0] == p);
            assert(dfs::links_to(g, x, p));
            dfs::lemma_acyclic_successors_first(g, x, p);
            assert(order.contains(x) && order.contains(p));
            simple::lemma_before_index(order, p, x);
        }
    }
}

} // verus!
