//! The exploration loop of the search: edges are relaxed from the start node
//! outwards, cheapest pending visit first, until a goal is taken from the
//! queue or nothing is pending.

use vstd::prelude::*;
use vstd::multiset::Multiset;
use crate::search::astar::{
    SearchSpace, total, step_ok, is_walk, connects, admissible, cheapest_to_goal, consistent,
    lemma_consistent_along, ranked_first,
    lemma_total_push, lemma_total_split, lemma_total_bound, lemma_walk_suffix, lemma_walk_push,
};
use crate::search::queue::{MinQueue, QueueEntry};

verus! {

/// The tables of a search: the best known cost of each node, the node from
/// which that cost was reached, and the pending visits.
pub struct Frontier {
    pub best: Vec<Option<u64>>,
    pub came_from: Vec<Option<usize>>,
    pub open: MinQueue,
}

/// What a finished exploration hands back.
pub struct Exploration {
    pub found: Option<usize>,
    pub best: Vec<Option<u64>>,
    pub came_from: Vec<Option<usize>>,
}

/// What the proof remembers of a run: for each reached node a walk that
/// realizes its cost, the cost of the edge by which it was last reached, and
/// when that happened.
pub struct Trace {
    pub walk_nodes: Seq<Seq<usize>>,
    pub walk_costs: Seq<Seq<u32>>,
    pub via: Seq<u32>,
    pub stamp: Seq<nat>,
    pub clock: nat,
}

pub open spec fn max_edge() -> nat {
    0xffff_ffff
}

pub open spec fn unreached_weight() -> nat {
    0x1_0000_0000_0000_0000
}

pub open spec fn weight(b: Option<u64>) -> nat {
    match b {
        Some(v) => v as nat,
        None => unreached_weight(),
    }
}

/// The sum of all best costs, an unreached node counting more than any cost.
pub open spec fn potential(best: Seq<Option<u64>>) -> nat
    decreases best.len(),
{
    if best.len() == 0 {
        0
    } else {
        potential(best.drop_last()) + weight(best.last())
    }
}

pub proof fn lemma_potential_update(best: Seq<Option<u64>>, i: int, v: Option<u64>)
    requires
        0 <= i < best.len(),
    ensures
        potential(best.update(i, v)) + weight(best[i]) == potential(best) + weight(v),
    decreases best.len(),
{
    let next = best.update(i, v);
    if i == best.len() - 1 {
        assert(next.drop_last() =~= best.drop_last());
    } else {
        lemma_potential_update(best.drop_last(), i, v);
        assert(next.drop_last() =~= best.drop_last().update(i, v));
    }
}

pub open spec fn prefix_ok(
    best: Seq<Option<u64>>,
    nodes: Seq<usize>,
    costs: Seq<u32>,
    i: int,
) -> bool {
    &&& best[nodes[i] as int] is Some
    &&& best[nodes[i] as int]->0 <= total(costs.take(i))
}

/// The remembered walk of `n` leads from the start to `n`, visits no node
/// twice, costs what the table says, and no node on it is known to be reached
/// more dearly than the walk reaches it.
pub open spec fn witnessed<S: SearchSpace>(
    space: &S,
    start: int,
    best: Seq<Option<u64>>,
    tr: Trace,
    n: int,
) -> bool {
    let ns = tr.walk_nodes[n];
    let cs = tr.walk_costs[n];
    &&& connects(space, start, n, ns, cs)
    &&& total(cs) == best[n]->0
    &&& ns.no_duplicates()
    &&& forall|i: int| 0 <= i < ns.len() ==> #[trigger] prefix_ok(best, ns, cs, i)
}

/// The predecessor of `n` has an edge to `n` that accounts for the cost of
/// `n`, and comes before `n` in the order (cost, time of last change).
pub open spec fn linked<S: SearchSpace>(
    space: &S,
    best: Seq<Option<u64>>,
    prev: Seq<Option<usize>>,
    tr: Trace,
    n: int,
) -> bool {
    &&& prev[n] is Some
    &&& {
        let p = prev[n]->0 as int;
        &&& 0 <= p < space.node_count()
        &&& best[p] is Some
        &&& space.edges(p).contains((n as usize, tr.via[n]))
        &&& best[p]->0 + tr.via[n] <= best[n]->0
        &&& (best[p]->0 < best[n]->0 || tr.stamp[p] < tr.stamp[n])
    }
}

/// What holds of the tables throughout a search.
pub open spec fn tables_ok<S: SearchSpace>(
    space: &S,
    start: int,
    best: Seq<Option<u64>>,
    prev: Seq<Option<usize>>,
    tr: Trace,
) -> bool {
    let n = space.node_count() as int;
    &&& n <= u32::MAX
    &&& 0 <= start < n
    &&& best.len() == n
    &&& prev.len() == n
    &&& tr.walk_nodes.len() == n
    &&& tr.walk_costs.len() == n
    &&& tr.via.len() == n
    &&& tr.stamp.len() == n
    &&& best[start] == Some(0u64)
    &&& prev[start] is None
    &&& forall|k: int| 0 <= k < n && (#[trigger] best[k]) is Some ==> witnessed(space, start, best, tr, k)
    &&& forall|k: int|
        0 <= k < n && k != start && (#[trigger] best[k]) is Some ==> linked(space, best, prev, tr, k)
    &&& forall|k: int| 0 <= k < n && (#[trigger] best[k]) is None ==> prev[k] is None
    &&& forall|k: int| 0 <= k < n ==> #[trigger] tr.stamp[k] < tr.clock
}

pub open spec fn entry_ok<S: SearchSpace>(
    space: &S,
    best: Seq<Option<u64>>,
    e: QueueEntry,
) -> bool {
    &&& e.node < space.node_count()
    &&& best[e.node as int] is Some
    &&& best[e.node as int]->0 <= e.cost
    &&& e.priority == e.cost + space.estimate(e.node as int)
}

pub open spec fn entries_ok<S: SearchSpace>(
    space: &S,
    best: Seq<Option<u64>>,
    q: Multiset<QueueEntry>,
) -> bool {
    forall|e: QueueEntry| #[trigger] q.count(e) > 0 ==> entry_ok(space, best, e)
}

/// The visit of `n` with its present cost.
pub open spec fn current_entry<S: SearchSpace>(
    space: &S,
    best: Seq<Option<u64>>,
    n: int,
) -> QueueEntry {
    QueueEntry {
        priority: (best[n]->0 + space.estimate(n)) as u64,
        cost: best[n]->0,
        node: n as usize,
    }
}

/// Edge `j` of `n` cannot improve the cost of its target.
pub open spec fn relaxed_edge<S: SearchSpace>(
    space: &S,
    best: Seq<Option<u64>>,
    n: int,
    j: int,
) -> bool {
    let m = space.edges(n)[j].0 as int;
    let c = space.edges(n)[j].1;
    &&& 0 <= m < space.node_count()
    &&& best[m] is Some
    &&& best[m]->0 <= best[n]->0 + c
}

pub open spec fn closed<S: SearchSpace>(space: &S, best: Seq<Option<u64>>, n: int) -> bool {
    &&& !space.goal(n)
    &&& forall|j: int| 0 <= j < space.edges(n).len() ==> #[trigger] relaxed_edge(space, best, n, j)
}

/// A reached node is pending with its present cost, or no goal and none of
/// its edges can improve anything.
pub open spec fn settled<S: SearchSpace>(
    space: &S,
    best: Seq<Option<u64>>,
    q: Multiset<QueueEntry>,
    n: int,
) -> bool {
    q.count(current_entry(space, best, n)) > 0 || closed(space, best, n)
}

/// Every reached node but `skip` is settled; of `skip`, which is being
/// expanded, the first `upto` edges are relaxed.
pub open spec fn settled_except<S: SearchSpace>(
    space: &S,
    best: Seq<Option<u64>>,
    q: Multiset<QueueEntry>,
    skip: int,
    upto: int,
) -> bool {
    &&& forall|k: int|
        0 <= k < space.node_count() && k != skip && (#[trigger] best[k]) is Some ==> settled(
            space,
            best,
            q,
            k,
        )
    &&& 0 <= skip < space.node_count() ==> {
        &&& best[skip] is Some
        &&& !space.goal(skip)
        &&& forall|j: int|
            0 <= j < upto && j < space.edges(skip).len() ==> #[trigger] relaxed_edge(
                space,
                best,
                skip,
                j,
            )
    }
}


/// Distinct nodes are no more than there are nodes.
pub proof fn lemma_distinct_nodes_bound(nodes: Seq<usize>, n: nat)
    requires
        nodes.no_duplicates(),
        forall|i: int| 0 <= i < nodes.len() ==> (#[trigger] nodes[i]) < n,
    ensures
        nodes.len() <= n,
{
    let ints = nodes.map_values(|x: usize| x as int);
    assert(ints.no_duplicates()) by {
        assert forall|i: int, k: int|
            0 <= i < ints.len() && 0 <= k < ints.len() && i != k implies ints[i] != ints[k] by {
            assert(nodes[i] != nodes[k]);
        }
    }
    ints.unique_seq_to_set();
    vstd::set_lib::lemma_int_range(0, n as int);
    assert(ints.to_set().subset_of(vstd::set_lib::set_int_range(0, n as int))) by {
        assert forall|v: int| ints.to_set().contains(v) implies vstd::set_lib::set_int_range(
            0,
            n as int,
        ).contains(v) by {
            let i = choose|i: int| 0 <= i < ints.len() && ints[i] == v;
            assert(nodes[i] < n);
        }
    }
    vstd::set_lib::lemma_len_subset(ints.to_set(), vstd::set_lib::set_int_range(0, n as int));
}

/// The cost of a reached node leaves room for one more edge.
pub proof fn lemma_reached_bound<S: SearchSpace>(
    space: &S,
    start: int,
    best: Seq<Option<u64>>,
    tr: Trace,
    n: int,
)
    requires
        space.node_count() <= u32::MAX,
        0 <= n < space.node_count(),
        best[n] is Some,
        witnessed(space, start, best, tr, n),
    ensures
        best[n]->0 + max_edge() <= space.node_count() * max_edge(),
        space.node_count() * max_edge() + max_edge() <= u64::MAX,
{
    let ns = tr.walk_nodes[n];
    let cs = tr.walk_costs[n];
    lemma_distinct_nodes_bound(ns, space.node_count());
    lemma_total_bound(cs);
    let count = space.node_count() as int;
    let len = cs.len() as int;
    assert(len * 0xffff_ffff + 0xffff_ffff <= count * 0xffff_ffff) by (nonlinear_arith)
        requires
            0 <= len,
            len + 1 <= count,
    ;
    assert(count * 0xffff_ffff + 0xffff_ffff <= 0xffff_ffff_ffff_ffff) by (nonlinear_arith)
        requires
            0 <= count <= 0xffff_ffff,
    ;
}

pub proof fn lemma_total_take_le(costs: Seq<u32>, i: int)
    requires
        0 <= i <= costs.len(),
    ensures
        total(costs.take(i)) <= total(costs),
{
    lemma_total_split(costs, i);
}

/// The tables after an edge has improved the cost of its target.
pub open spec fn improved_best(best: Seq<Option<u64>>, nb: int, t: u64) -> Seq<Option<u64>> {
    best.update(nb, Some(t))
}

pub open spec fn improved_prev(prev: Seq<Option<usize>>, nb: int, node: usize) -> Seq<
    Option<usize>,
> {
    prev.update(nb, Some(node))
}

pub open spec fn improved_trace(tr: Trace, node: int, nb: int, c: u32) -> Trace {
    Trace {
        walk_nodes: tr.walk_nodes.update(nb, tr.walk_nodes[node].push(nb as usize)),
        walk_costs: tr.walk_costs.update(nb, tr.walk_costs[node].push(c)),
        via: tr.via.update(nb, c),
        stamp: tr.stamp.update(nb, tr.clock),
        clock: tr.clock + 1,
    }
}

/// An edge that improves its target leads to a node that the walk to its
/// source has not visited.
pub proof fn lemma_improved_target_is_new<S: SearchSpace>(
    space: &S,
    start: int,
    best: Seq<Option<u64>>,
    prev: Seq<Option<usize>>,
    tr: Trace,
    node: int,
    nb: int,
    c: u32,
)
    requires
        tables_ok(space, start, best, prev, tr),
        0 <= node < space.node_count(),
        0 <= nb < space.node_count(),
        best[node] is Some,
        best[nb] is None || best[node]->0 + c < best[nb]->0,
    ensures
        !tr.walk_nodes[node].contains(nb as usize),
        nb != start,
        nb != node,
{
    let ns = tr.walk_nodes[node];
    let cs = tr.walk_costs[node];
    assert(witnessed(space, start, best, tr, node));
    if ns.contains(nb as usize) {
        let i = choose|i: int| 0 <= i < ns.len() && ns[i] == nb as usize;
        assert(prefix_ok(best, ns, cs, i));
        lemma_total_take_le(cs, i);
    }
    assert(ns[0] == start);
    assert(ns.last() == node);
}

pub proof fn lemma_improved_walk<S: SearchSpace>(
    space: &S,
    start: int,
    best: Seq<Option<u64>>,
    prev: Seq<Option<usize>>,
    tr: Trace,
    node: int,
    j: int,
    nb: int,
    c: u32,
    t: u64,
)
    requires
        tables_ok(space, start, best, prev, tr),
        0 <= node < space.node_count(),
        0 <= nb < space.node_count(),
        best[node] is Some,
        0 <= j < space.edges(node).len(),
        space.edges(node)[j] == (nb as usize, c),
        t == best[node]->0 + c,
        best[nb] is None || t < best[nb]->0,
    ensures
        witnessed(
            space,
            start,
            improved_best(best, nb, t),
            improved_trace(tr, node, nb, c),
            nb,
        ),
        t + max_edge() <= space.node_count() * max_edge(),
{
    let ns = tr.walk_nodes[node];
    let cs = tr.walk_costs[node];
    let best2 = improved_best(best, nb, t);
    let tr2 = improved_trace(tr, node, nb, c);
    let ns2 = ns.push(nb as usize);
    let cs2 = cs.push(c);
    assert(witnessed(space, start, best, tr, node));
    lemma_improved_target_is_new(space, start, best, prev, tr, node, nb, c);
    lemma_walk_push(space, ns, cs, nb as usize, c);
    assert(tr2.walk_nodes[nb] == ns2);
    assert(tr2.walk_costs[nb] == cs2);
    assert(ns2.no_duplicates()) by {
        assert forall|a: int, b: int| 0 <= a < ns2.len() && 0 <= b < ns2.len() && a != b implies ns2[a]
            != ns2[b] by {
            if a < ns.len() && b < ns.len() {
            } else if a < ns.len() {
                assert(ns.contains(ns[a]));
            } else {
                assert(ns.contains(ns[b]));
            }
        }
    }
    assert forall|i: int| 0 <= i < ns2.len() implies #[trigger] prefix_ok(best2, ns2, cs2, i) by {
        if i < ns.len() {
            assert(prefix_ok(best, ns, cs, i));
            assert(ns.contains(ns[i]));
            assert(cs2.take(i) =~= cs.take(i));
        } else {
            assert(cs2.take(i) =~= cs2);
        }
    }
    lemma_reached_bound(space, start, best2, tr2, nb);
}

/// Improving one node keeps what the tables say of every other node.
pub proof fn lemma_improved_tables<S: SearchSpace>(
    space: &S,
    start: int,
    best: Seq<Option<u64>>,
    prev: Seq<Option<usize>>,
    tr: Trace,
    node: int,
    j: int,
    nb: int,
    c: u32,
    t: u64,
)
    requires
        tables_ok(space, start, best, prev, tr),
        0 <= node < space.node_count(),
        0 <= nb < space.node_count(),
        best[node] is Some,
        0 <= j < space.edges(node).len(),
        space.edges(node)[j] == (nb as usize, c),
        t == best[node]->0 + c,
        best[nb] is None || t < best[nb]->0,
    ensures
        tables_ok(
            space,
            start,
            improved_best(best, nb, t),
            improved_prev(prev, nb, node as usize),
            improved_trace(tr, node, nb, c),
        ),
        potential(improved_best(best, nb, t)) < potential(best),
{
    let best2 = improved_best(best, nb, t);
    let prev2 = improved_prev(prev, nb, node as usize);
    let tr2 = improved_trace(tr, node, nb, c);
    let n = space.node_count() as int;
    lemma_improved_target_is_new(space, start, best, prev, tr, node, nb, c);
    lemma_improved_walk(space, start, best, prev, tr, node, j, nb, c, t);
    lemma_potential_update(best, nb, Some(t));
    assert forall|k: int| 0 <= k < n && (#[trigger] best2[k]) is Some implies witnessed(
        space,
        start,
        best2,
        tr2,
        k,
    ) by {
        if k != nb {
            assert(best[k] is Some);
            assert(witnessed(space, start, best, tr, k));
            let ns = tr.walk_nodes[k];
            let cs = tr.walk_costs[k];
            assert forall|i: int| 0 <= i < ns.len() implies #[trigger] prefix_ok(
                best2,
                ns,
                cs,
                i,
            ) by {
                assert(prefix_ok(best, ns, cs, i));
            }
        }
    }
    assert forall|k: int| 0 <= k < n && k != start && (#[trigger] best2[k]) is Some implies linked(
        space,
        best2,
        prev2,
        tr2,
        k,
    ) by {
        if k != nb {
            assert(best[k] is Some);
            assert(linked(space, best, prev, tr, k));
        } else {
            assert(space.edges(node).contains((nb as usize, c)));
            assert(tr.stamp[node] < tr.clock);
        }
    }
    assert forall|k: int| 0 <= k < n implies #[trigger] tr2.stamp[k] < tr2.clock by {
        if k != nb {
            assert(tr.stamp[k] < tr.clock);
        }
    }
    assert forall|k: int| 0 <= k < n && (#[trigger] best2[k]) is None implies prev2[k] is None by {
        assert(best[k] is None);
    }
}

/// Improving one node keeps the pending visits in order and leaves every
/// other node settled.
pub proof fn lemma_improved_queue<S: SearchSpace>(
    space: &S,
    start: int,
    best: Seq<Option<u64>>,
    prev: Seq<Option<usize>>,
    q: Multiset<QueueEntry>,
    tr: Trace,
    node: int,
    j: int,
    nb: int,
    c: u32,
    t: u64,
    entry: QueueEntry,
)
    requires
        tables_ok(space, start, best, prev, tr),
        entries_ok(space, best, q),
        settled_except(space, best, q, node, j),
        0 <= node < space.node_count(),
        0 <= nb < space.node_count(),
        best[node] is Some,
        0 <= j < space.edges(node).len(),
        space.edges(node)[j] == (nb as usize, c),
        t == best[node]->0 + c,
        best[nb] is None || t < best[nb]->0,
        entry.priority == t + space.estimate(nb),
        entry.cost == t,
        entry.node == nb,
    ensures
        entries_ok(space, improved_best(best, nb, t), q.insert(entry)),
        settled_except(space, improved_best(best, nb, t), q.insert(entry), node, j + 1),
{
    broadcast use vstd::multiset::group_multiset_axioms;

    let best2 = improved_best(best, nb, t);
    let q2 = q.insert(entry);
    let n = space.node_count() as int;
    lemma_improved_target_is_new(space, start, best, prev, tr, node, nb, c);
    assert forall|e: QueueEntry| #[trigger] q2.count(e) > 0 implies entry_ok(space, best2, e) by {
        if e != entry {
            assert(q.count(e) > 0);
            assert(entry_ok(space, best, e));
        }
    }
    assert forall|k: int| 0 <= k < n && k != node && (#[trigger] best2[k]) is Some implies settled(
        space,
        best2,
        q2,
        k,
    ) by {
        if k == nb {
            assert(current_entry(space, best2, k) == entry);
        } else {
            assert(best[k] is Some);
            assert(settled(space, best, q, k));
            assert(current_entry(space, best2, k) == current_entry(space, best, k));
            if q.count(current_entry(space, best, k)) > 0 {
            } else {
                assert(closed(space, best, k));
                assert forall|i: int| 0 <= i < space.edges(k).len() implies #[trigger] relaxed_edge(
                    space,
                    best2,
                    k,
                    i,
                ) by {
                    assert(relaxed_edge(space, best, k, i));
                }
            }
        }
    }
    assert forall|i: int| 0 <= i < j + 1 && i < space.edges(node).len() implies #[trigger] relaxed_edge(
        space,
        best2,
        node,
        i,
    ) by {
        if i < j {
            assert(relaxed_edge(space, best, node, i));
        }
    }
}

/// Tries one edge of the node that is being expanded.
fn relax_edge<S: SearchSpace>(
    space: &S,
    fr: &mut Frontier,
    Ghost(start): Ghost<int>,
    Ghost(tr): Ghost<Trace>,
    node: usize,
    g: u64,
    Ghost(j): Ghost<int>,
    nb: usize,
    c: u32,
) -> (out: Ghost<Trace>)
    requires
        space.wf(),
        old(fr).open.wf(),
        tables_ok(space, start, old(fr).best@, old(fr).came_from@, tr),
        entries_ok(space, old(fr).best@, old(fr).open@),
        settled_except(space, old(fr).best@, old(fr).open@, node as int, j),
        node < space.node_count(),
        nb < space.node_count(),
        old(fr).best@[node as int] == Some(g),
        0 <= j < space.edges(node as int).len(),
        space.edges(node as int)[j] == (nb, c),
    ensures
        final(fr).open.wf(),
        tables_ok(space, start, final(fr).best@, final(fr).came_from@, out@),
        entries_ok(space, final(fr).best@, final(fr).open@),
        settled_except(space, final(fr).best@, final(fr).open@, node as int, j + 1),
        final(fr).best@[node as int] == Some(g),
        potential(final(fr).best@) < potential(old(fr).best@) || (potential(final(fr).best@)
            == potential(old(fr).best@) && final(fr).open@.len() == old(fr).open@.len()),
{
    proof {
        assert(witnessed(space, start, fr.best@, tr, node as int));
        lemma_reached_bound(space, start, fr.best@, tr, node as int);
    }
    let tentative: u64 = g + c as u64;
    let improves = match fr.best[nb] {
        None => true,
        Some(known) => tentative < known,
    };
    if improves {
        let h = space.heuristic(nb);
        let ghost best0 = fr.best@;
        let ghost prev0 = fr.came_from@;
        let ghost q0 = fr.open@;
        proof {
            lemma_improved_walk(space, start, best0, prev0, tr, node as int, j, nb as int, c, tentative);
            lemma_improved_tables(
                space,
                start,
                best0,
                prev0,
                tr,
                node as int,
                j,
                nb as int,
                c,
                tentative,
            );
            lemma_improved_target_is_new(space, start, best0, prev0, tr, node as int, nb as int, c);
        }
        let entry = QueueEntry { priority: tentative + h as u64, cost: tentative, node: nb };
        proof {
            lemma_improved_queue(
                space,
                start,
                best0,
                prev0,
                q0,
                tr,
                node as int,
                j,
                nb as int,
                c,
                tentative,
                entry,
            );
        }
        fr.best.set(nb, Some(tentative));
        fr.came_from.set(nb, Some(node));
        fr.open.push(entry);
        Ghost(improved_trace(tr, node as int, nb as int, c))
    } else {
        proof {
            assert(relaxed_edge(space, fr.best@, node as int, j));
        }
        Ghost(tr)
    }
}


/// Every reached node is settled.
pub open spec fn all_settled<S: SearchSpace>(
    space: &S,
    best: Seq<Option<u64>>,
    q: Multiset<QueueEntry>,
) -> bool {
    settled_except(space, best, q, -1, 0)
}

/// Relaxes every edge of `node`, whose visit was just taken from the queue.
fn expand<S: SearchSpace>(
    space: &S,
    fr: &mut Frontier,
    Ghost(start): Ghost<int>,
    Ghost(tr): Ghost<Trace>,
    node: usize,
    g: u64,
) -> (out: Ghost<Trace>)
    requires
        space.wf(),
        old(fr).open.wf(),
        tables_ok(space, start, old(fr).best@, old(fr).came_from@, tr),
        entries_ok(space, old(fr).best@, old(fr).open@),
        settled_except(space, old(fr).best@, old(fr).open@, node as int, 0),
        node < space.node_count(),
        old(fr).best@[node as int] == Some(g),
    ensures
        final(fr).open.wf(),
        tables_ok(space, start, final(fr).best@, final(fr).came_from@, out@),
        entries_ok(space, final(fr).best@, final(fr).open@),
        all_settled(space, final(fr).best@, final(fr).open@),
        potential(final(fr).best@) < potential(old(fr).best@) || (potential(final(fr).best@)
            == potential(old(fr).best@) && final(fr).open@.len() == old(fr).open@.len()),
{
    let out = space.neighbors(node);
    let mut trace: Ghost<Trace> = Ghost(tr);
    let mut j: usize = 0;
    while j < out.len()
        invariant
            space.wf(),
            node < space.node_count(),
            out@ == space.edges(node as int),
            forall|i: int| 0 <= i < out@.len() ==> (#[trigger] out@[i]).0 < space.node_count(),
            0 <= j <= out.len(),
            fr.open.wf(),
            tables_ok(space, start, fr.best@, fr.came_from@, trace@),
            entries_ok(space, fr.best@, fr.open@),
            settled_except(space, fr.best@, fr.open@, node as int, j as int),
            fr.best@[node as int] == Some(g),
            potential(fr.best@) < potential(old(fr).best@) || (potential(fr.best@) == potential(
                old(fr).best@,
            ) && fr.open@.len() == old(fr).open@.len()),
        decreases out.len() - j,
    {
        let (nb, c) = out[j];
        trace = relax_edge(space, fr, Ghost(start), trace, node, g, Ghost(j as int), nb, c);
        j += 1;
    }
    proof {
        assert(closed(space, fr.best@, node as int));
        assert(settled(space, fr.best@, fr.open@, node as int));
    }
    trace
}

/// Among settled tables, the cost of a walk from the start bounds the
/// priority of the visit that is served first, if the walk ends in a goal.
pub proof fn lemma_first_served_bounds_goal_walks<S: SearchSpace>(
    space: &S,
    start: int,
    best: Seq<Option<u64>>,
    prev: Seq<Option<usize>>,
    q: Multiset<QueueEntry>,
    tr: Trace,
    e: QueueEntry,
    nodes: Seq<usize>,
    costs: Seq<u32>,
    i: int,
)
    requires
        tables_ok(space, start, best, prev, tr),
        entries_ok(space, best, q),
        all_settled(space, best, q),
        forall|x: QueueEntry| #[trigger] q.count(x) > 0 ==> !x.served_before(e),
        admissible(space),
        is_walk(space, nodes, costs),
        nodes[0] == start,
        space.goal(nodes.last() as int),
        0 <= i < nodes.len(),
        prefix_ok(best, nodes, costs, i),
    ensures
        e.priority <= total(costs),
    decreases nodes.len() - i,
{
    let n = nodes[i] as int;
    assert(nodes[i] < space.node_count());
    assert(settled(space, best, q, n));
    let ce = current_entry(space, best, n);
    if q.count(ce) > 0 {
        assert(entry_ok(space, best, ce));
        assert(!ce.served_before(e));
        lemma_walk_suffix(space, nodes, costs, i);
        assert(is_walk(space, nodes.skip(i), costs.skip(i)));
        lemma_total_split(costs, i);
    } else {
        assert(closed(space, best, n));
        assert(i < nodes.len() - 1);
        assert(step_ok(space, nodes, costs, i));
        let target = (nodes[i + 1], costs[i]);
        let jj = choose|jj: int| 0 <= jj < space.edges(n).len() && space.edges(n)[jj] == target;
        assert(relaxed_edge(space, best, n, jj));
        assert(costs.take(i + 1) =~= costs.take(i).push(costs[i]));
        lemma_total_push(costs.take(i), costs[i]);
        lemma_first_served_bounds_goal_walks(
            space,
            start,
            best,
            prev,
            q,
            tr,
            e,
            nodes,
            costs,
            i + 1,
        );
    }
}

/// Among settled tables, the cost of a walk from the start and the estimate
/// of its last node bound the priority of the visit that is served first, if
/// the estimate is consistent and the walk ends in a goal.
pub proof fn lemma_first_served_ranks_first<S: SearchSpace>(
    space: &S,
    start: int,
    best: Seq<Option<u64>>,
    prev: Seq<Option<usize>>,
    q: Multiset<QueueEntry>,
    tr: Trace,
    e: QueueEntry,
    nodes: Seq<usize>,
    costs: Seq<u32>,
    i: int,
)
    requires
        tables_ok(space, start, best, prev, tr),
        entries_ok(space, best, q),
        all_settled(space, best, q),
        forall|x: QueueEntry| #[trigger] q.count(x) > 0 ==> !x.served_before(e),
        consistent(space),
        is_walk(space, nodes, costs),
        nodes[0] == start,
        space.goal(nodes.last() as int),
        0 <= i < nodes.len(),
        prefix_ok(best, nodes, costs, i),
    ensures
        e.priority <= total(costs) + space.estimate(nodes.last() as int),
    decreases nodes.len() - i,
{
    let n = nodes[i] as int;
    assert(nodes[i] < space.node_count());
    assert(settled(space, best, q, n));
    let ce = current_entry(space, best, n);
    if q.count(ce) > 0 {
        assert(entry_ok(space, best, ce));
        assert(!ce.served_before(e));
        lemma_walk_suffix(space, nodes, costs, i);
        assert(is_walk(space, nodes.skip(i), costs.skip(i)));
        lemma_consistent_along(space, nodes.skip(i), costs.skip(i));
        lemma_total_split(costs, i);
    } else {
        assert(closed(space, best, n));
        assert(i < nodes.len() - 1);
        assert(step_ok(space, nodes, costs, i));
        let target = (nodes[i + 1], costs[i]);
        let jj = choose|jj: int| 0 <= jj < space.edges(n).len() && space.edges(n)[jj] == target;
        assert(relaxed_edge(space, best, n, jj));
        assert(costs.take(i + 1) =~= costs.take(i).push(costs[i]));
        lemma_total_push(costs.take(i), costs[i]);
        lemma_first_served_ranks_first(
            space,
            start,
            best,
            prev,
            q,
            tr,
            e,
            nodes,
            costs,
            i + 1,
        );
    }
}

/// Where every reached node is closed, every walk from the start stays among
/// reached nodes and costs no less than the table says.
pub proof fn lemma_closed_covers_walks<S: SearchSpace>(
    space: &S,
    start: int,
    best: Seq<Option<u64>>,
    nodes: Seq<usize>,
    costs: Seq<u32>,
    i: int,
)
    requires
        best.len() == space.node_count(),
        0 <= start < space.node_count(),
        best[start] == Some(0u64),
        forall|k: int|
            0 <= k < space.node_count() && (#[trigger] best[k]) is Some ==> closed(space, best, k),
        is_walk(space, nodes, costs),
        nodes[0] == start,
        0 <= i < nodes.len(),
    ensures
        prefix_ok(best, nodes, costs, i),
        !space.goal(nodes[i] as int),
    decreases i,
{
    if i == 0 {
        assert(costs.take(0) =~= Seq::<u32>::empty());
    } else {
        lemma_closed_covers_walks(space, start, best, nodes, costs, i - 1);
        let n = nodes[i - 1] as int;
        assert(nodes[i - 1] < space.node_count());
        assert(prefix_ok(best, nodes, costs, i - 1));
        assert(closed(space, best, n));
        assert(step_ok(space, nodes, costs, i - 1));
        let target = (nodes[i], costs[i - 1]);
        let jj = choose|jj: int| 0 <= jj < space.edges(n).len() && space.edges(n)[jj] == target;
        assert(relaxed_edge(space, best, n, jj));
        assert(costs.take(i) =~= costs.take(i - 1).push(costs[i - 1]));
        lemma_total_push(costs.take(i - 1), costs[i - 1]);
    }
    assert(nodes[i] < space.node_count());
    assert(closed(space, best, nodes[i] as int));
}

/// What an exploration from `start` has established when it ends.
pub open spec fn explored<S: SearchSpace>(
    space: &S,
    start: int,
    ex: Exploration,
    tr: Trace,
) -> bool {
    &&& tables_ok(space, start, ex.best@, ex.came_from@, tr)
    &&& space.goal(start) ==> ex.found == Some(start as usize)
    &&& match ex.found {
        Some(t) => {
            &&& t < space.node_count()
            &&& space.goal(t as int)
            &&& ex.best@[t as int] is Some
            &&& admissible(space) ==> cheapest_to_goal(space, start, ex.best@[t as int]->0 as nat)
            &&& consistent(space) ==> ranked_first(
                space,
                start,
                ex.best@[t as int]->0 as nat,
                t as int,
            )
        },
        None => forall|k: int|
            0 <= k < space.node_count() && (#[trigger] ex.best@[k]) is Some ==> closed(
                space,
                ex.best@,
                k,
            ),
    }
}

/// A vector that holds `value` at each of `n` places.
pub fn filled<T: Copy>(value: T, n: usize) -> (v: Vec<T>)
    ensures
        v@.len() == n,
        forall|i: int| 0 <= i < n ==> #[trigger] v@[i] == value,
{
    let mut v: Vec<T> = Vec::new();
    let mut i: usize = 0;
    while i < n
        invariant
            i <= n,
            v@.len() == i,
            forall|k: int| 0 <= k < i ==> #[trigger] v@[k] == value,
        decreases n - i,
    {
        v.push(value);
        i += 1;
    }
    v
}

pub open spec fn initial_trace(n: nat, start: usize) -> Trace {
    Trace {
        walk_nodes: Seq::new(n, |k: int| seq![start]),
        walk_costs: Seq::new(n, |k: int| Seq::<u32>::empty()),
        via: Seq::new(n, |k: int| 0u32),
        stamp: Seq::new(n, |k: int| 0nat),
        clock: 1,
    }
}

/// Explores the graph from `start`, cheapest pending visit first, until the
/// visit of a goal is taken from the queue or no visit is pending.
pub fn explore<S: SearchSpace>(space: &S, start: usize) -> (out: (Exploration, Ghost<Trace>))
    requires
        space.wf(),
        start < space.node_count(),
        space.node_count() <= u32::MAX,
    ensures
        explored(space, start as int, out.0, out.1@),
{
    let n = space.size();
    let mut best: Vec<Option<u64>> = filled(None, n);
    let came_from: Vec<Option<usize>> = filled(None, n);
    best.set(start, Some(0));
    let h = space.heuristic(start);
    let mut open = MinQueue::new();
    let first = QueueEntry { priority: h as u64, cost: 0, node: start };
    open.push(first);
    let mut fr = Frontier { best, came_from, open };
    let mut trace: Ghost<Trace> = Ghost(initial_trace(n as nat, start));
    let mut found: Option<usize> = None;
    proof {
        broadcast use vstd::multiset::group_multiset_axioms;

        let tr = trace@;
        let b = fr.best@;
        assert(witnessed(space, start as int, b, tr, start as int)) by {
            let ns = tr.walk_nodes[start as int];
            let cs = tr.walk_costs[start as int];
            assert(ns =~= seq![start]);
            assert(cs =~= Seq::<u32>::empty());
            assert(cs.take(0) =~= cs);
            assert(prefix_ok(b, ns, cs, 0));
        }
        assert(current_entry(space, b, start as int) == first);
        assert(settled(space, b, fr.open@, start as int));
    }
    loop
        invariant_except_break
            entries_ok(space, fr.best@, fr.open@),
            all_settled(space, fr.best@, fr.open@),
            found is None,
            space.goal(start as int) ==> forall|x: QueueEntry| #[trigger]
                fr.open@.count(x) > 0 ==> x == first,
        invariant
            space.wf(),
            fr.open.wf(),
            n == space.node_count(),
            tables_ok(space, start as int, fr.best@, fr.came_from@, trace@),
        ensures
            space.goal(start as int) ==> found == Some(start),
            match found {
                Some(t) => {
                    &&& t < space.node_count()
                    &&& space.goal(t as int)
                    &&& fr.best@[t as int] is Some
                    &&& admissible(space) ==> cheapest_to_goal(
                        space,
                        start as int,
                        fr.best@[t as int]->0 as nat,
                    )
                    &&& consistent(space) ==> ranked_first(
                        space,
                        start as int,
                        fr.best@[t as int]->0 as nat,
                        t as int,
                    )
                },
                None => forall|k: int|
                    0 <= k < space.node_count() && (#[trigger] fr.best@[k]) is Some ==> closed(
                        space,
                        fr.best@,
                        k,
                    ),
            },
        decreases potential(fr.best@), fr.open@.len(),
    {
        let ghost q0 = fr.open@;
        match fr.open.pop() {
            None => {
                proof {
                    broadcast use vstd::multiset::group_multiset_axioms;

                    assert forall|k: int|
                        0 <= k < space.node_count() && (#[trigger] fr.best@[k]) is Some implies closed(
                        space,
                        fr.best@,
                        k,
                    ) by {
                        assert(settled(space, fr.best@, q0, k));
                        assert(q0.count(current_entry(space, fr.best@, k)) <= q0.len());
                    }
                }
                break ;
            },
            Some(e) => {
                proof {
                    assert(q0.count(e) > 0);
                    assert(entry_ok(space, fr.best@, e));
                }
                let node = e.node;
                if space.is_goal(node) {
                    proof {
                        if admissible(space) {
                            assert forall|nodes: Seq<usize>, costs: Seq<u32>|
                                #![trigger is_walk(space, nodes, costs)]
                                is_walk(space, nodes, costs) && nodes[0] == start && space.goal(
                                    nodes.last() as int,
                                ) implies fr.best@[node as int]->0 as nat <= total(costs) by {
                                assert(costs.take(0) =~= Seq::<u32>::empty());
                                assert(prefix_ok(fr.best@, nodes, costs, 0));
                                lemma_first_served_bounds_goal_walks(
                                    space,
                                    start as int,
                                    fr.best@,
                                    fr.came_from@,
                                    q0,
                                    trace@,
                                    e,
                                    nodes,
                                    costs,
                                    0,
                                );
                            }
                        }
                    }
                    proof {
                        if consistent(space) {
                            assert forall|nodes: Seq<usize>, costs: Seq<u32>|
                                #![trigger is_walk(space, nodes, costs)]
                                is_walk(space, nodes, costs) && nodes[0] == start && space.goal(
                                    nodes.last() as int,
                                ) implies fr.best@[node as int]->0 as nat + space.estimate(node as int)
                                <= total(costs) + space.estimate(nodes.last() as int) by {
                                assert(costs.take(0) =~= Seq::<u32>::empty());
                                assert(prefix_ok(fr.best@, nodes, costs, 0));
                                lemma_first_served_ranks_first(
                                    space,
                                    start as int,
                                    fr.best@,
                                    fr.came_from@,
                                    q0,
                                    trace@,
                                    e,
                                    nodes,
                                    costs,
                                    0,
                                );
                            }
                        }
                    }
                    found = Some(node);
                    break ;
                }
                let g = fr.best[node].unwrap();
                if g < e.cost {
                    proof {
                        broadcast use vstd::multiset::group_multiset_axioms;

                        assert forall|k: int|
                            0 <= k < space.node_count() && (#[trigger] fr.best@[k]) is Some implies settled(
                            space,
                            fr.best@,
                            fr.open@,
                            k,
                        ) by {
                            assert(settled(space, fr.best@, q0, k));
                            assert(current_entry(space, fr.best@, k) != e);
                        }
                    }
                    continue ;
                }
                proof {
                    broadcast use vstd::multiset::group_multiset_axioms;

                    assert forall|k: int|
                        0 <= k < space.node_count() && k != node && (#[trigger] fr.best@[k]) is Some implies settled(
                        space,
                        fr.best@,
                        fr.open@,
                        k,
                    ) by {
                        assert(settled(space, fr.best@, q0, k));
                        assert(current_entry(space, fr.best@, k) != e);
                    }
                }
                trace = expand(space, &mut fr, Ghost(start as int), trace, node, g);
            },
        }
    }
    (Exploration { found, best: fr.best, came_from: fr.came_from }, trace)
}

} // verus!
