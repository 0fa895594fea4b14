//! Depth-first visiting of a directed graph on the entries `0..n`.
//!
//! A graph is a list of successor lists. An entry is *finished* once everything that could be
//! visited from it is finished; the order in which entries finish is what path resolution
//! follows, so that a parent comes before its children wherever the graph allows it.
use vstd::prelude::*;

verus! {

/// Every successor is an entry of the graph.
pub open spec fn closed_graph(g: Seq<Seq<int>>) -> bool {
    forall|e: int, k: int|
        #![trigger g[e][k]]
        0 <= e < g.len() && 0 <= k < g[e].len() ==> 0 <= g[e][k] < g.len()
}

/// The successor lists held in vectors, as mathematical integers.
pub open spec fn graph_view(lists: Seq<Vec<usize>>) -> Seq<Seq<int>> {
    Seq::new(lists.len(), |e: int| int_seq(lists[e]@))
}

pub open spec fn int_seq(s: Seq<usize>) -> Seq<int> {
    Seq::new(s.len(), |k: int| s[k] as int)
}

/// What is finished after a visit of `e`, when `done` was finished before and the entries on
/// `trail` have been entered but not left.
///
/// An entry that is finished or on the trail is not entered again; any other finishes right
/// after its successors have been visited.
pub open spec fn visit(g: Seq<Seq<int>>, done: Seq<int>, trail: Seq<int>, e: int) -> Seq<int>
    decreases g.len() - trail.len(), 0nat,
{
    if done.contains(e) || trail.contains(e) || trail.len() >= g.len() {
        done
    } else {
        visit_first(g, done, trail.push(e), g[e], g[e].len()).push(e)
    }
}

/// What is finished after visits of the first `k` entries of `list`, from first to last.
pub open spec fn visit_first(
    g: Seq<Seq<int>>,
    done: Seq<int>,
    trail: Seq<int>,
    list: Seq<int>,
    k: nat,
) -> Seq<int>
    decreases g.len() - trail.len(), k,
{
    if k == 0 {
        done
    } else {
        visit(g, visit_first(g, done, trail, list, (k - 1) as nat), trail, list[k - 1])
    }
}

/// What is finished after visits of the entries `0..k`, each begun on an empty trail.
pub open spec fn finished_by(g: Seq<Seq<int>>, k: nat) -> Seq<int>
    decreases k,
{
    if k == 0 {
        Seq::empty()
    } else {
        visit(g, finished_by(g, (k - 1) as nat), Seq::empty(), k - 1)
    }
}

/// The order in which a depth-first visit of the whole graph finishes its entries.
pub open spec fn finish_sequence(g: Seq<Seq<int>>) -> Seq<int> {
    finished_by(g, g.len())
}

/// `a` occurs before `b` in `order`.
pub open spec fn before(order: Seq<int>, a: int, b: int) -> bool {
    exists|i: int, j: int|
        #![trigger order[i], order[j]]
        0 <= i < j < order.len() && order[i] == a && order[j] == b
}

/// `b` is a successor of `a`.
pub open spec fn links_to(g: Seq<Seq<int>>, a: int, b: int) -> bool {
    0 <= a < g.len() && exists|k: int| 0 <= k < g[a].len() && #[trigger] g[a][k] == b
}

/// Each entry of `c` links to the next.
pub open spec fn chain(g: Seq<Seq<int>>, c: Seq<int>) -> bool {
    forall|j: int| 0 <= j < c.len() - 1 ==> links_to(g, #[trigger] c[j], c[j + 1])
}

/// No chain leaves an entry for another one and comes back to it.
pub open spec fn acyclic(g: Seq<Seq<int>>) -> bool {
    forall|c: Seq<int>|
        #[trigger] chain(g, c) && c.len() >= 2 && c[0] == c.last() ==> c[1] == c[0]
}

/// A graph without links that an acyclic one lacks is acyclic.
pub proof fn lemma_acyclic_within(inner: Seq<Seq<int>>, outer: Seq<Seq<int>>)
    requires
        acyclic(outer),
        forall|x: int, y: int| #[trigger] links_to(inner, x, y) ==> links_to(outer, x, y),
    ensures
        acyclic(inner),
{
    assert forall|c: Seq<int>|
        #[trigger] chain(inner, c) && c.len() >= 2 && c[0] == c.last() implies c[1] == c[0] by {
        assert forall|j: int| 0 <= j < c.len() - 1 implies links_to(
            outer,
            #[trigger] c[j],
            c[j + 1],
        ) by {
            assert(links_to(inner, c[j], c[j + 1]));
        }
        assert(chain(outer, c));
    }
}

/// Each entry of `c` links to the next, which finishes earlier.
pub open spec fn descending(g: Seq<Seq<int>>, order: Seq<int>, c: Seq<int>) -> bool {
    forall|j: int|
        0 <= j < c.len() - 1 ==> links_to(g, #[trigger] c[j], c[j + 1]) && before(
            order,
            c[j + 1],
            c[j],
        )
}

/// A descending chain leads from `a` to `b`.
pub open spec fn below(g: Seq<Seq<int>>, order: Seq<int>, a: int, b: int) -> bool {
    exists|c: Seq<int>|
        #[trigger] descending(g, order, c) && c.len() >= 1 && c[0] == a && c.last() == b
}

/// Finished and open entries: all in the graph, none twice, none both.
pub open spec fn visiting_state(g: Seq<Seq<int>>, done: Seq<int>, trail: Seq<int>) -> bool {
    &&& closed_graph(g)
    &&& (done + trail).no_duplicates()
    &&& forall|i: int| 0 <= i < done.len() ==> 0 <= #[trigger] done[i] < g.len()
    &&& forall|i: int| 0 <= i < trail.len() ==> 0 <= #[trigger] trail[i] < g.len()
}

/// Distinct entries of a graph are no more than the graph has.
proof fn lemma_distinct_bounded(s: Seq<int>, n: nat)
    requires
        s.no_duplicates(),
        forall|i: int| 0 <= i < s.len() ==> 0 <= #[trigger] s[i] < n,
    ensures
        s.len() <= n,
{
    let all = vstd::set_lib::set_int_range(0, n as int);
    vstd::set_lib::lemma_int_range(0, n as int);
    s.unique_seq_to_set();
    assert(s.to_set().subset_of(all)) by {
        assert forall|x: int| s.to_set().contains(x) implies all.contains(x) by {
            let i = choose|i: int| 0 <= i < s.len() && s[i] == x;
            assert(0 <= s[i] < n);
        }
    }
    vstd::set_lib::lemma_len_subset(s.to_set(), all);
}

/// An entry that is neither finished nor open leaves room for one more on the trail.
proof fn lemma_room(g: Seq<Seq<int>>, done: Seq<int>, trail: Seq<int>, e: int)
    requires
        visiting_state(g, done, trail),
        0 <= e < g.len(),
        !done.contains(e),
        !trail.contains(e),
    ensures
        done.len() + trail.len() < g.len(),
        visiting_state(g, done, trail.push(e)),
{
    let both = (done + trail).push(e);
    assert(both =~= done + trail.push(e));
    assert forall|i: int, j: int| 0 <= i < both.len() && 0 <= j < both.len() && i != j implies both[i]
        != both[j] by {
        let d = done + trail;
        assert(forall|k: int| 0 <= k < d.len() ==> d[k] != e) by {
            assert forall|k: int| 0 <= k < d.len() implies d[k] != e by {
                if k < done.len() {
                    assert(d[k] == done[k]);
                } else {
                    assert(d[k] == trail[k - done.len()]);
                }
            }
        }
        if i < d.len() && j < d.len() {
            assert(both[i] == d[i] && both[j] == d[j]);
        }
    }
    assert forall|i: int| 0 <= i < both.len() implies 0 <= #[trigger] both[i] < g.len() by {
        if i < done.len() {
            assert(both[i] == done[i]);
        } else if i < done.len() + trail.len() {
            assert(both[i] == trail[i - done.len()]);
        }
    }
    lemma_distinct_bounded(both, g.len());
}

/// `longer` begins with `done`.
pub open spec fn extends(done: Seq<int>, longer: Seq<int>) -> bool {
    &&& done.len() <= longer.len()
    &&& forall|i: int| 0 <= i < done.len() ==> done[i] == #[trigger] longer[i]
}

/// What is known of `y`, a successor of the finished entry `x`.
pub open spec fn link_settled(
    g: Seq<Seq<int>>,
    done: Seq<int>,
    trail: Seq<int>,
    x: int,
    y: int,
) -> bool {
    ||| y == x
    ||| before(done, y, x)
    ||| trail.contains(y)
    ||| below(g, done, y, x)
}

/// Every link out of an entry that finished at position `lo` or later is settled.
pub open spec fn links_settled(g: Seq<Seq<int>>, done: Seq<int>, trail: Seq<int>, lo: int) -> bool {
    forall|i: int, y: int|
        lo <= i < done.len() && #[trigger] links_to(g, done[i], y) ==> link_settled(
            g,
            done,
            trail,
            done[i],
            y,
        )
}

proof fn lemma_before_extends(done: Seq<int>, longer: Seq<int>, a: int, b: int)
    requires
        before(done, a, b),
        extends(done, longer),
    ensures
        before(longer, a, b),
{
    let (i, j) = choose|i: int, j: int|
        #![trigger done[i], done[j]]
        0 <= i < j < done.len() && done[i] == a && done[j] == b;
    assert(longer[i] == a && longer[j] == b);
}

proof fn lemma_below_extends(
    g: Seq<Seq<int>>,
    done: Seq<int>,
    longer: Seq<int>,
    a: int,
    b: int,
)
    requires
        below(g, done, a, b),
        extends(done, longer),
    ensures
        below(g, longer, a, b),
{
    let c = choose|c: Seq<int>|
        #[trigger] descending(g, done, c) && c.len() >= 1 && c[0] == a && c.last() == b;
    assert forall|j: int| 0 <= j < c.len() - 1 implies links_to(g, #[trigger] c[j], c[j + 1])
        && before(longer, c[j + 1], c[j]) by {
        lemma_before_extends(done, longer, c[j + 1], c[j]);
    }
    assert(descending(g, longer, c));
}

/// A link to an earlier entry lengthens a descending chain at its head.
proof fn lemma_below_step(g: Seq<Seq<int>>, order: Seq<int>, a: int, b: int, x: int)
    requires
        links_to(g, a, b),
        before(order, b, a),
        below(g, order, b, x),
    ensures
        below(g, order, a, x),
{
    let c = choose|c: Seq<int>|
        #[trigger] descending(g, order, c) && c.len() >= 1 && c[0] == b && c.last() == x;
    let d = seq![a] + c;
    assert forall|j: int| 0 <= j < d.len() - 1 implies links_to(g, #[trigger] d[j], d[j + 1])
        && before(order, d[j + 1], d[j]) by {
        if j > 0 {
            assert(d[j] == c[j - 1] && d[j + 1] == c[j - 1 + 1]);
        }
    }
    assert(descending(g, order, d));
    assert(d[0] == a && d.last() == x);
}

/// What a visit leaves behind.
proof fn lemma_visit(g: Seq<Seq<int>>, done: Seq<int>, trail: Seq<int>, e: int)
    requires
        visiting_state(g, done, trail),
        0 <= e < g.len(),
    ensures
        visiting_state(g, visit(g, done, trail, e), trail),
        extends(done, visit(g, done, trail, e)),
        visit(g, done, trail, e).contains(e) || trail.contains(e),
        links_settled(g, visit(g, done, trail, e), trail, done.len() as int),
        forall|i: int|
            done.len() <= i < visit(g, done, trail, e).len() ==> below(
                g,
                visit(g, done, trail, e),
                e,
                #[trigger] visit(g, done, trail, e)[i],
            ),
    decreases g.len() - trail.len(), 0nat,
{
    if !done.contains(e) && !trail.contains(e) {
        lemma_room(g, done, trail, e);
        let open = trail.push(e);
        let list = g[e];
        let mid = visit_first(g, done, open, list, list.len());
        assert forall|j: int| 0 <= j < list.len() implies 0 <= #[trigger] list[j] < g.len() by {
            assert(g[e][j] == list[j]);
        }
        lemma_visit_first(g, done, open, list, list.len());
        let d = visit(g, done, trail, e);
        assert(d == mid.push(e));
        assert(extends(mid, d));
        assert(mid + open =~= mid + trail + seq![e]);
        assert((d + trail).no_duplicates()) by {
            let m = mid + open;
            let last = m.len() - 1;
            assert(m[last] == e);
            assert forall|i: int, j: int|
                0 <= i < (d + trail).len() && 0 <= j < (d + trail).len() && i != j implies (d
                + trail)[i] != (d + trail)[j] by {
                let ii = if i < mid.len() { i } else if i == mid.len() { last } else { i - 1 };
                let jj = if j < mid.len() { j } else if j == mid.len() { last } else { j - 1 };
                assert((d + trail)[i] == m[ii]);
                assert((d + trail)[j] == m[jj]);
            }
        }
        assert forall|i: int| 0 <= i < d.len() implies 0 <= #[trigger] d[i] < g.len() by {
            if i < mid.len() {
                assert(d[i] == mid[i]);
            }
        }
        assert(d[d.len() - 1] == e);
        assert forall|i: int| done.len() <= i < d.len() implies below(g, d, e, #[trigger] d[i]) by {
            if i < mid.len() {
                assert(d[i] == mid[i]);
                let j = choose|j: int|
                    0 <= j < list.len() && below(g, mid, #[trigger] list[j], mid[i]);
                lemma_below_extends(g, mid, d, list[j], mid[i]);
                assert(g[e][j] == list[j]);
                assert(links_to(g, e, list[j]));
                lemma_below_head(g, mid, list[j], mid[i]);
                let p = choose|p: int| 0 <= p < mid.len() && mid[p] == list[j];
                assert(d[p] == list[j]);
                assert(before(d, list[j], e));
                lemma_below_step(g, d, e, list[j], d[i]);
            } else {
                assert(descending(g, d, seq![e]));
                assert(seq![e][0] == e && seq![e].last() == e);
            }
        }
        assert forall|i: int, y: int|
            done.len() <= i < d.len() && #[trigger] links_to(g, d[i], y) implies link_settled(
            g,
            d,
            trail,
            d[i],
            y,
        ) by {
            if i < mid.len() {
                assert(d[i] == mid[i]);
                assert(link_settled(g, mid, open, mid[i], y));
                if before(mid, y, mid[i]) {
                    lemma_before_extends(mid, d, y, mid[i]);
                } else if open.contains(y) {
                    let q = choose|q: int| 0 <= q < open.len() && open[q] == y;
                    if q < trail.len() {
                        assert(trail[q] == y);
                    }
                } else if below(g, mid, y, mid[i]) {
                    lemma_below_extends(g, mid, d, y, mid[i]);
                }
            } else {
                let k = choose|k: int| 0 <= k < g[e].len() && #[trigger] g[e][k] == y;
                assert(list[k] == y);
                assert(mid.contains(y) || open.contains(y));
                if mid.contains(y) {
                    let p = choose|p: int| 0 <= p < mid.len() && mid[p] == y;
                    assert(d[p] == y);
                    assert(before(d, y, e));
                } else {
                    let q = choose|q: int| 0 <= q < open.len() && open[q] == y;
                    if q < trail.len() {
                        assert(trail[q] == y);
                    }
                }
            }
        }
    }
}

/// The head of a descending chain that reaches a finished entry is finished.
proof fn lemma_below_head(g: Seq<Seq<int>>, order: Seq<int>, a: int, b: int)
    requires
        below(g, order, a, b),
        order.contains(b),
    ensures
        order.contains(a),
{
    let c = choose|c: Seq<int>|
        #[trigger] descending(g, order, c) && c.len() >= 1 && c[0] == a && c.last() == b;
    if c.len() > 1 {
        let first = c[0];
        assert(before(order, c[1], first));
    }
}

/// What visits of the first `k` entries of a list leave behind.
proof fn lemma_visit_first(
    g: Seq<Seq<int>>,
    done: Seq<int>,
    trail: Seq<int>,
    list: Seq<int>,
    k: nat,
)
    requires
        visiting_state(g, done, trail),
        k <= list.len(),
        forall|j: int| 0 <= j < list.len() ==> 0 <= #[trigger] list[j] < g.len(),
    ensures
        visiting_state(g, visit_first(g, done, trail, list, k), trail),
        extends(done, visit_first(g, done, trail, list, k)),
        forall|j: int|
            0 <= j < k ==> visit_first(g, done, trail, list, k).contains(#[trigger] list[j])
                || trail.contains(list[j]),
        links_settled(g, visit_first(g, done, trail, list, k), trail, done.len() as int),
        forall|i: int|
            done.len() <= i < visit_first(g, done, trail, list, k).len() ==> exists|j: int|
                0 <= j < k && below(
                    g,
                    visit_first(g, done, trail, list, k),
                    #[trigger] list[j],
                    #[trigger] visit_first(g, done, trail, list, k)[i],
                ),
    decreases g.len() - trail.len(), k,
{
    if k > 0 {
        let prev = visit_first(g, done, trail, list, (k - 1) as nat);
        lemma_visit_first(g, done, trail, list, (k - 1) as nat);
        assert(0 <= list[k - 1] < g.len());
        lemma_visit(g, prev, trail, list[k - 1]);
        let d = visit_first(g, done, trail, list, k);
        assert(d == visit(g, prev, trail, list[k - 1]));
        assert forall|i: int| 0 <= i < done.len() implies done[i] == #[trigger] d[i] by {
            assert(prev[i] == d[i]);
        }
        assert forall|j: int| 0 <= j < k implies d.contains(#[trigger] list[j]) || trail.contains(
            list[j],
        ) by {
            if j < k - 1 && prev.contains(list[j]) {
                let p = choose|p: int| 0 <= p < prev.len() && prev[p] == list[j];
                assert(d[p] == list[j]);
            }
        }
        assert forall|i: int, y: int|
            done.len() <= i < d.len() && #[trigger] links_to(g, d[i], y) implies link_settled(
            g,
            d,
            trail,
            d[i],
            y,
        ) by {
            if i < prev.len() {
                assert(d[i] == prev[i]);
                assert(link_settled(g, prev, trail, prev[i], y));
                if before(prev, y, prev[i]) {
                    lemma_before_extends(prev, d, y, prev[i]);
                } else if below(g, prev, y, prev[i]) {
                    lemma_below_extends(g, prev, d, y, prev[i]);
                }
            }
        }
        assert forall|i: int| done.len() <= i < d.len() implies exists|j: int|
            0 <= j < k && below(g, d, #[trigger] list[j], #[trigger] d[i]) by {
            if i < prev.len() {
                assert(d[i] == prev[i]);
                let j = choose|j: int|
                    0 <= j < k - 1 && below(g, prev, #[trigger] list[j], prev[i]);
                lemma_below_extends(g, prev, d, list[j], prev[i]);
                assert(below(g, d, list[j], d[i]));
            } else {
                assert(below(g, d, list[k - 1], d[i]));
            }
        }
    }
}

proof fn lemma_finished_by(g: Seq<Seq<int>>, k: nat)
    requires
        closed_graph(g),
        k <= g.len(),
    ensures
        visiting_state(g, finished_by(g, k), Seq::empty()),
        forall|e: int| 0 <= e < k ==> #[trigger] finished_by(g, k).contains(e),
        links_settled(g, finished_by(g, k), Seq::empty(), 0),
    decreases k,
{
    let none = Seq::<int>::empty();
    if k > 0 {
        let prev = finished_by(g, (k - 1) as nat);
        lemma_finished_by(g, (k - 1) as nat);
        lemma_visit(g, prev, none, k - 1);
        let d = finished_by(g, k);
        assert(d == visit(g, prev, none, k - 1));
        assert forall|e: int| 0 <= e < k implies #[trigger] d.contains(e) by {
            if e < k - 1 {
                assert(prev.contains(e));
                let p = choose|p: int| 0 <= p < prev.len() && prev[p] == e;
                assert(d[p] == e);
            }
        }
        assert forall|i: int, y: int|
            0 <= i < d.len() && #[trigger] links_to(g, d[i], y) implies link_settled(
            g,
            d,
            none,
            d[i],
            y,
        ) by {
            if i < prev.len() {
                assert(d[i] == prev[i]);
                assert(link_settled(g, prev, none, prev[i], y));
                if before(prev, y, prev[i]) {
                    lemma_before_extends(prev, d, y, prev[i]);
                } else if below(g, prev, y, prev[i]) {
                    lemma_below_extends(g, prev, d, y, prev[i]);
                }
            }
        }
    }
}

/// A depth-first visit finishes every entry exactly once, and a successor of an entry either
/// finishes before it or leads back to it.
pub proof fn lemma_finish_sequence(g: Seq<Seq<int>>)
    requires
        closed_graph(g),
    ensures
        finish_sequence(g).len() == g.len(),
        finish_sequence(g).no_duplicates(),
        forall|i: int|
            0 <= i < finish_sequence(g).len() ==> 0 <= #[trigger] finish_sequence(g)[i] < g.len(),
        forall|e: int| 0 <= e < g.len() ==> #[trigger] finish_sequence(g).contains(e),
        forall|x: int, y: int|
            0 <= x < g.len() && #[trigger] links_to(g, x, y) ==> y == x || before(
                finish_sequence(g),
                y,
                x,
            ) || below(g, finish_sequence(g), y, x),
{
    let order = finish_sequence(g);
    let none = Seq::<int>::empty();
    lemma_finished_by(g, g.len());
    assert(order + none =~= order);
    lemma_distinct_bounded(order, g.len());
    assert(order.len() >= g.len()) by {
        let all = vstd::set_lib::set_int_range(0, g.len() as int);
        vstd::set_lib::lemma_int_range(0, g.len() as int);
        order.unique_seq_to_set();
        assert(all.subset_of(order.to_set())) by {
            assert forall|x: int| all.contains(x) implies order.to_set().contains(x) by {
                assert(order.contains(x));
            }
        }
        vstd::set_lib::lemma_len_subset(all, order.to_set());
    }
    assert forall|x: int, y: int|
        0 <= x < g.len() && #[trigger] links_to(g, x, y) implies y == x || before(order, y, x)
        || below(g, order, y, x) by {
        assert(order.contains(x));
        let i = choose|i: int| 0 <= i < order.len() && order[i] == x;
        assert(links_to(g, order[i], y));
        assert(link_settled(g, order, none, order[i], y));
    }
}

/// In a graph without cycles every successor of an entry, the entry itself apart, finishes
/// before it.
pub proof fn lemma_acyclic_successors_first(g: Seq<Seq<int>>, x: int, y: int)
    requires
        closed_graph(g),
        acyclic(g),
        0 <= x < g.len(),
        links_to(g, x, y),
        y != x,
    ensures
        before(finish_sequence(g), y, x),
{
    let order = finish_sequence(g);
    lemma_finish_sequence(g);
    if !before(order, y, x) {
        lemma_back_link_closes_cycle(g, order, x, y);
    }
}

/// A link back to the head of a descending chain closes a cycle.
pub proof fn lemma_back_link_closes_cycle(g: Seq<Seq<int>>, order: Seq<int>, x: int, y: int)
    requires
        order.no_duplicates(),
        links_to(g, x, y),
        below(g, order, y, x),
        y != x,
    ensures
        exists|c: Seq<int>|
            #[trigger] chain(g, c) && c.len() >= 3 && c[0] == y && c.last() == y && c[c.len() - 2]
                == x && c[1] != y,
{
    let c = choose|c: Seq<int>|
        #[trigger] descending(g, order, c) && c.len() >= 1 && c[0] == y && c.last() == x;
    let d = c.push(y);
    assert forall|j: int| 0 <= j < d.len() - 1 implies links_to(g, #[trigger] d[j], d[j + 1]) by {
        if j < c.len() - 1 {
            assert(d[j] == c[j] && d[j + 1] == c[j + 1]);
        } else {
            assert(d[j] == x && d[j + 1] == y);
        }
    }
    assert(chain(g, d));
    assert(c.len() >= 2);
    let head = c[0];
    assert(before(order, c[1], head));
    assert(d[1] == c[1]);
}

/// How far the visit of an entry has come.
#[derive(Clone, Copy, PartialEq, Eq, Structural)]
enum VisitState {
    Unvisited,
    Visiting,
    Done,
}

/// The entries of a stack that are marked as entered, from bottom to top.
spec fn entered(stack: Seq<int>, marks: Seq<bool>) -> Seq<int>
    decreases stack.len(),
{
    if stack.len() == 0 {
        Seq::empty()
    } else if marks.last() {
        entered(stack.drop_last(), marks.drop_last()).push(stack.last())
    } else {
        entered(stack.drop_last(), marks.drop_last())
    }
}

/// What is finished once the stack has been worked off from the top: a marked entry finishes,
/// any other is visited.
spec fn unwind(g: Seq<Seq<int>>, done: Seq<int>, stack: Seq<int>, marks: Seq<bool>) -> Seq<int>
    decreases stack.len(),
{
    if stack.len() == 0 {
        done
    } else if marks.last() {
        unwind(g, done.push(stack.last()), stack.drop_last(), marks.drop_last())
    } else {
        unwind(
            g,
            visit(g, done, entered(stack.drop_last(), marks.drop_last()), stack.last()),
            stack.drop_last(),
            marks.drop_last(),
        )
    }
}

/// No entry of the stack has been entered further down.
spec fn stack_fresh(stack: Seq<int>, marks: Seq<bool>) -> bool {
    forall|i: int|
        0 <= i < stack.len() ==> !entered(stack.take(i), marks.take(i)).contains(
            #[trigger] stack[i],
        )
}

proof fn lemma_push_unmarked(
    g: Seq<Seq<int>>,
    done: Seq<int>,
    stack: Seq<int>,
    marks: Seq<bool>,
    e: int,
)
    requires
        stack.len() == marks.len(),
        stack_fresh(stack, marks),
        !entered(stack, marks).contains(e),
    ensures
        entered(stack.push(e), marks.push(false)) == entered(stack, marks),
        stack_fresh(stack.push(e), marks.push(false)),
        unwind(g, done, stack.push(e), marks.push(false)) == unwind(
            g,
            visit(g, done, entered(stack, marks), e),
            stack,
            marks,
        ),
{
    let s = stack.push(e);
    let m = marks.push(false);
    assert(s.drop_last() =~= stack);
    assert(m.drop_last() =~= marks);
    assert forall|i: int| 0 <= i < s.len() implies !entered(s.take(i), m.take(i)).contains(
        #[trigger] s[i],
    ) by {
        assert(s.take(i) =~= stack.take(i));
        assert(m.take(i) =~= marks.take(i));
        if i < stack.len() {
            assert(s[i] == stack[i]);
        } else {
            assert(stack.take(i) =~= stack);
            assert(marks.take(i) =~= marks);
        }
    }
}

proof fn lemma_push_marked(
    g: Seq<Seq<int>>,
    done: Seq<int>,
    stack: Seq<int>,
    marks: Seq<bool>,
    e: int,
)
    requires
        stack.len() == marks.len(),
        stack_fresh(stack, marks),
        !entered(stack, marks).contains(e),
    ensures
        entered(stack.push(e), marks.push(true)) == entered(stack, marks).push(e),
        stack_fresh(stack.push(e), marks.push(true)),
        unwind(g, done, stack.push(e), marks.push(true)) == unwind(g, done.push(e), stack, marks),
{
    let s = stack.push(e);
    let m = marks.push(true);
    assert(s.drop_last() =~= stack);
    assert(m.drop_last() =~= marks);
    assert forall|i: int| 0 <= i < s.len() implies !entered(s.take(i), m.take(i)).contains(
        #[trigger] s[i],
    ) by {
        assert(s.take(i) =~= stack.take(i));
        assert(m.take(i) =~= marks.take(i));
        if i < stack.len() {
            assert(s[i] == stack[i]);
        } else {
            assert(stack.take(i) =~= stack);
            assert(marks.take(i) =~= marks);
        }
    }
}

proof fn lemma_pop_fresh(stack: Seq<int>, marks: Seq<bool>)
    requires
        stack.len() == marks.len(),
        stack.len() > 0,
        stack_fresh(stack, marks),
    ensures
        stack_fresh(stack.drop_last(), marks.drop_last()),
        !entered(stack.drop_last(), marks.drop_last()).contains(stack.last()),
{
    let s = stack.drop_last();
    let m = marks.drop_last();
    assert forall|i: int| 0 <= i < s.len() implies !entered(s.take(i), m.take(i)).contains(
        #[trigger] s[i],
    ) by {
        assert(s.take(i) =~= stack.take(i));
        assert(m.take(i) =~= marks.take(i));
        assert(s[i] == stack[i]);
    }
    let last = stack.len() - 1;
    assert(stack.take(last) =~= s);
    assert(marks.take(last) =~= m);
    assert(!entered(stack.take(last), marks.take(last)).contains(stack[last]));
}

/// The visiting state that the marks stand for.
spec fn states_agree(states: Seq<VisitState>, done: Seq<int>, trail: Seq<int>) -> bool {
    forall|e: int|
        0 <= e < states.len() ==> {
            &&& (#[trigger] states[e] == VisitState::Done <==> done.contains(e))
            &&& (states[e] == VisitState::Visiting <==> trail.contains(e))
        }
}

/// Extends `order` by a depth-first visit that starts at `start`.
fn visit_from(
    lists: &Vec<Vec<usize>>,
    states: &mut Vec<VisitState>,
    order: &mut Vec<usize>,
    start: usize,
)
    requires
        start < lists@.len(),
        old(states)@.len() == lists@.len(),
        visiting_state(graph_view(lists@), int_seq(old(order)@), Seq::empty()),
        states_agree(old(states)@, int_seq(old(order)@), Seq::empty()),
    ensures
        final(states)@.len() == lists@.len(),
        int_seq(final(order)@) == visit(
            graph_view(lists@),
            int_seq(old(order)@),
            Seq::empty(),
            start as int,
        ),
        visiting_state(graph_view(lists@), int_seq(final(order)@), Seq::empty()),
        states_agree(final(states)@, int_seq(final(order)@), Seq::empty()),
{
    let ghost g = graph_view(lists@);
    let ghost target = visit(g, int_seq(order@), Seq::empty(), start as int);
    let mut stack: Vec<usize> = Vec::new();
    stack.push(start);
    let ghost mut marks: Seq<bool> = seq![false];
    proof {
        let none = Seq::<int>::empty();
        assert(int_seq(stack@) =~= none.push(start as int));
        assert(marks =~= Seq::<bool>::empty().push(false));
        lemma_push_unmarked(g, int_seq(order@), none, Seq::<bool>::empty(), start as int);
    }
    while stack.len() > 0
        invariant
            g == graph_view(lists@),
            states@.len() == lists@.len(),
            stack@.len() == marks.len(),
            forall|i: int| 0 <= i < stack@.len() ==> #[trigger] stack@[i] < lists@.len(),
            visiting_state(g, int_seq(order@), entered(int_seq(stack@), marks)),
            states_agree(states@, int_seq(order@), entered(int_seq(stack@), marks)),
            stack_fresh(int_seq(stack@), marks),
            unwind(g, int_seq(order@), int_seq(stack@), marks) == target,
        decreases
            2 * (lists@.len() - order@.len()) - entered(int_seq(stack@), marks).len(),
            stack@.len(),
    {
        let cur: usize = stack[stack.len() - 1];
        let ghost done = int_seq(order@);
        let ghost s = int_seq(stack@);
        let ghost trail = entered(s, marks);
        proof {
            lemma_pop_fresh(s, marks);
            lemma_state_len(g, done, trail);
            assert(s.last() == cur as int);
            if marks.last() {
                assert(trail[trail.len() - 1] == cur as int);
            }
        }
        match states[cur] {
            VisitState::Done => {
                stack.pop();
                proof {
                    assert(done.contains(cur as int));
                    assert(!marks.last()) by {
                        if marks.last() {
                            lemma_disjoint(done, trail, cur as int);
                        }
                    }
                    assert(int_seq(stack@) =~= s.drop_last());
                    marks = marks.drop_last();
                }
            },
            VisitState::Visiting => {
                states.set(cur, VisitState::Done);
                order.push(cur);
                stack.pop();
                proof {
                    assert(marks.last());
                    let below_trail = entered(s.drop_last(), marks.drop_last());
                    assert(trail == below_trail.push(cur as int));
                    lemma_finish_top(g, done, below_trail, cur as int);
                    assert(int_seq(order@) =~= done.push(cur as int));
                    assert(int_seq(stack@) =~= s.drop_last());
                    lemma_pushed_contains(done, cur as int);
                    lemma_pushed_contains(below_trail, cur as int);
                    marks = marks.drop_last();
                }
            },
            VisitState::Unvisited => {
                states.set(cur, VisitState::Visiting);
                let ghost rest = s.drop_last();
                let ghost rest_marks = marks.drop_last();
                let ghost open = trail.push(cur as int);
                let ghost list = g[cur as int];
                proof {
                    assert(!marks.last());
                    assert(trail == entered(rest, rest_marks));
                    lemma_room(g, done, trail, cur as int);
                    lemma_push_marked(
                        g,
                        visit_first(g, done, open, list, list.len()),
                        rest,
                        rest_marks,
                        cur as int,
                    );
                    marks = rest_marks.push(true);
                    assert(int_seq(stack@) =~= rest.push(cur as int));
                    lemma_pushed_contains(trail, cur as int);
                    assert(list =~= int_seq(lists@[cur as int]@));
                }
                let mut k: usize = lists[cur].len();
                while k > 0
                    invariant
                        g == graph_view(lists@),
                        cur < lists@.len(),
                        done == int_seq(order@),
                        list == g[cur as int],
                        list == int_seq(lists@[cur as int]@),
                        k <= list.len(),
                        states@.len() == lists@.len(),
                        stack@.len() == marks.len(),
                        forall|i: int|
                            0 <= i < stack@.len() ==> #[trigger] stack@[i] < lists@.len(),
                        visiting_state(g, done, open),
                        entered(int_seq(stack@), marks) == open,
                        states_agree(states@, done, open),
                        stack_fresh(int_seq(stack@), marks),
                        unwind(
                            g,
                            visit_first(g, done, open, list, k as nat),
                            int_seq(stack@),
                            marks,
                        ) == target,
                    decreases k,
                {
                    k = k - 1;
                    let next: usize = lists[cur][k];
                    let ghost earlier = visit_first(g, done, open, list, k as nat);
                    proof {
                        assert(list[k as int] == next as int);
                        assert(g[cur as int][k as int] == next as int);
                        assert forall|j: int| 0 <= j < list.len() implies 0 <= #[trigger] list[j]
                            < g.len() by {
                            assert(g[cur as int][j] == list[j]);
                        }
                        lemma_visit_first(g, done, open, list, k as nat);
                    }
                    if states[next] == VisitState::Unvisited {
                        proof {
                            assert(!open.contains(next as int));
                            lemma_push_unmarked(g, earlier, int_seq(stack@), marks, next as int);
                            assert(int_seq(stack@.push(next)) =~= int_seq(stack@).push(
                                next as int,
                            ));
                        }
                        stack.push(next);
                        proof {
                            marks = marks.push(false);
                        }
                    } else {
                        proof {
                            if done.contains(next as int) {
                                let p = choose|p: int| 0 <= p < done.len() && done[p] == next as int;
                                assert(earlier[p] == next as int);
                            }
                            assert(visit(g, earlier, open, next as int) == earlier);
                        }
                    }
                }
                proof {
                    lemma_pushed_contains(trail, cur as int);
                }
            },
        }
    }
}

/// Entries without duplicates on both sides share none.
proof fn lemma_disjoint(done: Seq<int>, trail: Seq<int>, e: int)
    requires
        (done + trail).no_duplicates(),
        done.contains(e),
    ensures
        !trail.contains(e),
{
    if trail.contains(e) {
        let i = choose|i: int| 0 <= i < done.len() && done[i] == e;
        let j = choose|j: int| 0 <= j < trail.len() && trail[j] == e;
        assert((done + trail)[i] == e);
        assert((done + trail)[done.len() + j] == e);
    }
}

proof fn lemma_state_len(g: Seq<Seq<int>>, done: Seq<int>, trail: Seq<int>)
    requires
        visiting_state(g, done, trail),
    ensures
        done.len() + trail.len() <= g.len(),
{
    let both = done + trail;
    assert forall|i: int| 0 <= i < both.len() implies 0 <= #[trigger] both[i] < g.len() by {
        if i < done.len() {
            assert(both[i] == done[i]);
        } else {
            assert(both[i] == trail[i - done.len()]);
        }
    }
    lemma_distinct_bounded(both, g.len());
}

proof fn lemma_pushed_contains(s: Seq<int>, x: int)
    ensures
        forall|e: int| #[trigger] s.push(x).contains(e) <==> s.contains(e) || e == x,
{
    assert forall|e: int| #[trigger] s.push(x).contains(e) <==> s.contains(e) || e == x by {
        if s.push(x).contains(e) {
            let i = choose|i: int| 0 <= i < s.push(x).len() && s.push(x)[i] == e;
            if i < s.len() {
                assert(s[i] == e);
            }
        }
        if s.contains(e) {
            let i = choose|i: int| 0 <= i < s.len() && s[i] == e;
            assert(s.push(x)[i] == e);
        }
        if e == x {
            assert(s.push(x)[s.len() as int] == e);
        }
    }
}

/// The top of the trail moves to the finished entries.
proof fn lemma_finish_top(g: Seq<Seq<int>>, done: Seq<int>, trail: Seq<int>, e: int)
    requires
        visiting_state(g, done, trail.push(e)),
    ensures
        visiting_state(g, done.push(e), trail),
        !trail.contains(e),
{
    let m = done + trail.push(e);
    let last = m.len() - 1;
    assert(m[last] == e);
    assert(trail.push(e)[trail.len() as int] == e);
    let d = done.push(e) + trail;
    assert forall|i: int, j: int| 0 <= i < d.len() && 0 <= j < d.len() && i != j implies d[i]
        != d[j] by {
        let ii = if i < done.len() { i } else if i == done.len() { last } else { i - 1 };
        let jj = if j < done.len() { j } else if j == done.len() { last } else { j - 1 };
        assert(d[i] == m[ii]);
        assert(d[j] == m[jj]);
    }
    assert forall|i: int| 0 <= i < trail.len() implies 0 <= #[trigger] trail[i] < g.len() && trail[i]
        != e by {
        assert(trail.push(e)[i] == trail[i]);
        assert(m[done.len() + i] == trail[i]);
    }
}

/// The graph that vectors of successors hold has the same successors in the same places.
pub proof fn lemma_graph_view(lists: Seq<Vec<usize>>)
    ensures
        graph_view(lists).len() == lists.len(),
        forall|e: int|
            0 <= e < lists.len() ==> (#[trigger] graph_view(lists)[e]).len() == lists[e]@.len(),
        forall|e: int, k: int|
            0 <= e < lists.len() && 0 <= k < lists[e]@.len() ==> #[trigger] graph_view(lists)[e][k]
                == lists[e]@[k],
{
}

/// Every entry finishes exactly once.
pub proof fn lemma_each_finishes_once(g: Seq<Seq<int>>)
    requires
        forall|e: int, k: int|
            0 <= e < g.len() && 0 <= k < g[e].len() ==> 0 <= #[trigger] g[e][k] < g.len(),
    ensures
        finish_sequence(g).len() == g.len(),
        forall|e: int| 0 <= e < g.len() ==> #[trigger] finish_sequence(g).contains(e),
        forall|i: int, j: int|
            0 <= i < j < g.len() ==> #[trigger] finish_sequence(g)[i] != #[trigger] finish_sequence(
                g,
            )[j],
{
    lemma_finish_sequence(g);
}

/// A successor finishes before an entry, unless a way leads from it back to the entry: entries,
/// each with the place at which it lists the next as a successor.
pub proof fn lemma_successor_finishes_first(g: Seq<Seq<int>>, x: int, k: int)
    requires
        forall|e: int, t: int|
            0 <= e < g.len() && 0 <= t < g[e].len() ==> 0 <= #[trigger] g[e][t] < g.len(),
        0 <= x < g.len(),
        0 <= k < g[x].len(),
        g[x][k] != x,
    ensures
        (exists|i: int, j: int|
            0 <= i < j < g.len() && #[trigger] finish_sequence(g)[i] == g[x][k]
                && #[trigger] finish_sequence(g)[j] == x) || exists|way: Seq<(int, int)>|
            #![trigger way.last()]
            way.len() >= 1 && way[0].0 == g[x][k] && way.last().0 == x && forall|h: int|
                0 <= h < way.len() - 1 ==> 0 <= (#[trigger] way[h]).0 < g.len() && 0 <= way[h].1
                    < g[way[h].0].len() && g[way[h].0][way[h].1] == way[h + 1].0,
{
    let order = finish_sequence(g);
    let y = g[x][k];
    lemma_finish_sequence(g);
    assert(links_to(g, x, y));
    if !before(order, y, x) {
        let way = lemma_way_of(g, order, y, x);
        assert(way.last().0 == x);
    }
}

/// A descending chain, each entry with the place at which it lists the next.
proof fn lemma_way_of(g: Seq<Seq<int>>, order: Seq<int>, a: int, b: int) -> (way: Seq<(int, int)>)
    requires
        below(g, order, a, b),
    ensures
        way.len() >= 1,
        way[0].0 == a,
        way.last().0 == b,
        forall|h: int|
            0 <= h < way.len() - 1 ==> 0 <= (#[trigger] way[h]).0 < g.len() && 0 <= way[h].1
                < g[way[h].0].len() && g[way[h].0][way[h].1] == way[h + 1].0,
{
    let c = choose|c: Seq<int>|
        #[trigger] descending(g, order, c) && c.len() >= 1 && c[0] == a && c.last() == b;
    let way = Seq::new(
        c.len(),
        |h: int|
            (c[h], choose|t: int| 0 <= t < g[c[h]].len() && #[trigger] g[c[h]][t] == c[h + 1]),
    );
    assert forall|h: int| 0 <= h < way.len() - 1 implies 0 <= (#[trigger] way[h]).0 < g.len() && 0
        <= way[h].1 < g[way[h].0].len() && g[way[h].0][way[h].1] == way[h + 1].0 by {
        assert(links_to(g, c[h], c[h + 1]));
    }
    way
}

/// What is finished stays in its place.
proof fn lemma_finished_stays(g: Seq<Seq<int>>, k: nat, m: nat)
    requires
        closed_graph(g),
        k <= m <= g.len(),
    ensures
        extends(finished_by(g, k), finished_by(g, m)),
    decreases m,
{
    if k < m {
        lemma_finished_stays(g, k, (m - 1) as nat);
        lemma_finished_by(g, (m - 1) as nat);
        lemma_visit(g, finished_by(g, (m - 1) as nat), Seq::empty(), m - 1);
    }
}

/// What is finished was reached from an entry that a visit has been begun at.
proof fn lemma_finished_from(g: Seq<Seq<int>>, k: nat, i: int) -> (s: int)
    requires
        closed_graph(g),
        k <= g.len(),
        0 <= i < finished_by(g, k).len(),
    ensures
        0 <= s < k,
        below(g, finished_by(g, k), s, finished_by(g, k)[i]),
    decreases k,
{
    if k == 0 {
        0
    } else {
        let prev = finished_by(g, (k - 1) as nat);
        let d = finished_by(g, k);
        lemma_finished_by(g, (k - 1) as nat);
        lemma_visit(g, prev, Seq::empty(), k - 1);
        if i < prev.len() {
            let s = lemma_finished_from(g, (k - 1) as nat, i);
            assert(prev[i] == d[i]);
            lemma_below_extends(g, prev, d, s, prev[i]);
            s
        } else {
            k - 1
        }
    }
}

/// Visits begin at the entries in ascending order: an entry finishes before a smaller one only if
/// a way leads to it from that one, or from one that is smaller still.
pub proof fn lemma_starts_ascend(g: Seq<Seq<int>>, i: int, j: int)
    requires
        forall|e: int, t: int|
            0 <= e < g.len() && 0 <= t < g[e].len() ==> 0 <= #[trigger] g[e][t] < g.len(),
        0 <= i < j < g.len(),
        finish_sequence(g)[j] < finish_sequence(g)[i],
    ensures
        exists|way: Seq<(int, int)>|
            #![trigger way.last()]
            way.len() >= 1 && 0 <= way[0].0 <= finish_sequence(g)[j] && way.last().0 == finish_sequence(g)[i]
                && forall|h: int|
                0 <= h < way.len() - 1 ==> 0 <= (#[trigger] way[h]).0 < g.len() && 0 <= way[h].1
                    < g[way[h].0].len() && g[way[h].0][way[h].1] == way[h + 1].0,
{
    let order = finish_sequence(g);
    let a = order[j];
    lemma_finish_sequence(g);
    let k = (a + 1) as nat;
    lemma_finished_stays(g, k, g.len());
    lemma_finished_by(g, k);
    let d = finished_by(g, k);
    assert(d.contains(a));
    let p = choose|p: int| 0 <= p < d.len() && d[p] == a;
    assert(order[p] == a);
    assert(p == j);
    assert(d[i] == order[i]);
    let s = lemma_finished_from(g, k, i);
    let way = lemma_way_of(g, d, s, order[i]);
    assert(way.last().0 == order[i]);
}

proof fn lemma_first_visits_stay(
    g: Seq<Seq<int>>,
    done: Seq<int>,
    trail: Seq<int>,
    list: Seq<int>,
    k: nat,
    m: nat,
)
    requires
        visiting_state(g, done, trail),
        k <= m <= list.len(),
        forall|j: int| 0 <= j < list.len() ==> 0 <= #[trigger] list[j] < g.len(),
    ensures
        extends(visit_first(g, done, trail, list, k), visit_first(g, done, trail, list, m)),
    decreases m,
{
    if k < m {
        let prev = visit_first(g, done, trail, list, (m - 1) as nat);
        lemma_first_visits_stay(g, done, trail, list, k, (m - 1) as nat);
        lemma_visit_first(g, done, trail, list, (m - 1) as nat);
        assert(0 <= list[m - 1] < g.len());
        lemma_visit(g, prev, trail, list[m - 1]);
    }
}

/// Successors are visited from first to last: where no way leads from a smaller entry to an entry
/// or to its successor at `b`, that successor finishes before the one at `a`, which is listed
/// earlier, only if a way leads to it from that one, or from one listed earlier still.
pub proof fn lemma_successors_in_turn(g: Seq<Seq<int>>, x: int, a: int, b: int, i: int, j: int)
    requires
        forall|e: int, t: int|
            0 <= e < g.len() && 0 <= t < g[e].len() ==> 0 <= #[trigger] g[e][t] < g.len(),
        0 <= x < g.len(),
        0 <= a < b < g[x].len(),
        g[x][a] != x,
        0 <= i < j < g.len(),
        finish_sequence(g)[i] == g[x][b],
        finish_sequence(g)[j] == g[x][a],
        forall|way: Seq<(int, int)>|
            #![trigger way.last()]
            way.len() >= 1 && 0 <= way[0].0 < x && (forall|h: int|
                0 <= h < way.len() - 1 ==> 0 <= (#[trigger] way[h]).0 < g.len() && 0 <= way[h].1
                    < g[way[h].0].len() && g[way[h].0][way[h].1] == way[h + 1].0) ==> way.last().0 != x && way.last().0 != g[x][b],
    ensures
        exists|way: Seq<(int, int)>, k: int|
            #![trigger way.last(), g[x][k]]
            0 <= k <= a && way.len() >= 1 && way[0].0 == g[x][k] && way.last().0 == g[x][b]
                && forall|h: int|
                0 <= h < way.len() - 1 ==> 0 <= (#[trigger] way[h]).0 < g.len() && 0 <= way[h].1
                    < g[way[h].0].len() && g[way[h].0][way[h].1] == way[h + 1].0,
{
    let order = finish_sequence(g);
    let y = g[x][a];
    let z = g[x][b];
    let done = finished_by(g, x as nat);
    let none = Seq::<int>::empty();
    let list = g[x];
    lemma_finish_sequence(g);
    lemma_finished_by(g, x as nat);
    assert forall|p: int| 0 <= p < done.len() implies done[p] != x && #[trigger] done[p] != z by {
        let s = lemma_finished_from(g, x as nat, p);
        let way = lemma_way_of(g, done, s, done[p]);
        assert(way.last().0 == done[p]);
    }
    lemma_room(g, done, none, x);
    let open = none.push(x);
    assert forall|t: int| 0 <= t < list.len() implies 0 <= #[trigger] list[t] < g.len() by {
        assert(g[x][t] == list[t]);
    }
    let mid = visit_first(g, done, open, list, (a + 1) as nat);
    let full = visit_first(g, done, open, list, list.len());
    lemma_visit_first(g, done, open, list, (a + 1) as nat);
    lemma_first_visits_stay(g, done, open, list, (a + 1) as nat, list.len());
    lemma_finished_stays(g, (x + 1) as nat, g.len());
    assert(finished_by(g, (x + 1) as nat) == full.push(x));
    assert(mid.contains(list[a]));
    let p = choose|p: int| 0 <= p < mid.len() && mid[p] == y;
    assert(full[p] == y);
    assert(finished_by(g, (x + 1) as nat)[p] == y);
    assert(order[p] == y);
    assert(p == j);
    assert(full[i] == mid[i]);
    assert(finished_by(g, (x + 1) as nat)[i] == mid[i]);
    assert(mid[i] == z);
    if i < done.len() {
        assert(done[i] == mid[i]);
    }
    let k = choose|k: int| 0 <= k < a + 1 && below(g, mid, #[trigger] list[k], mid[i]);
    let way = lemma_way_of(g, mid, list[k], z);
    assert(way.last().0 == g[x][b] && way[0].0 == g[x][k]);
}

/// The order in which a depth-first visit, begun at each entry in turn and following each
/// successor list from first to last, finishes the entries.
pub fn finish_order(lists: &Vec<Vec<usize>>) -> (order: Vec<usize>)
    requires
        closed_graph(graph_view(lists@)),
    ensures
        int_seq(order@) == finish_sequence(graph_view(lists@)),
        order@.len() == finish_sequence(graph_view(lists@)).len(),
        forall|i: int|
            0 <= i < order@.len() ==> (#[trigger] order@[i]) as int == finish_sequence(
                graph_view(lists@),
            )[i],
{
    let ghost g = graph_view(lists@);
    let n: usize = lists.len();
    let mut states: Vec<VisitState> = Vec::new();
    let mut i: usize = 0;
    while i < n
        invariant
            i <= n,
            states@.len() == i,
            forall|e: int| 0 <= e < i ==> #[trigger] states@[e] == VisitState::Unvisited,
        decreases n - i,
    {
        states.push(VisitState::Unvisited);
        i = i + 1;
    }
    let mut order: Vec<usize> = Vec::new();
    assert(int_seq(order@) =~= Seq::<int>::empty());
    let mut start: usize = 0;
    while start < n
        invariant
            start <= n,
            n == lists@.len(),
            g == graph_view(lists@),
            states@.len() == n,
            int_seq(order@) == finished_by(g, start as nat),
            visiting_state(g, int_seq(order@), Seq::empty()),
            states_agree(states@, int_seq(order@), Seq::empty()),
        decreases n - start,
    {
        visit_from(lists, &mut states, &mut order, start);
        start = start + 1;
    }
    order
}

} // verus!
