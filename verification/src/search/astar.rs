//! Best-first search over a finite graph with non-negative edge costs.

use vstd::prelude::*;

use crate::search::explore::{
    explore, linked, tables_ok, witnessed, Exploration, Trace, lemma_closed_covers_walks,
};

verus! {

/// A finite directed graph with the estimate and the goal test of a search.
/// Nodes are the numbers below `node_count`; the cost of an edge fits in 32
/// bits, so that the cost of a walk that visits no node twice fits in 64.
pub trait SearchSpace {
    spec fn wf(&self) -> bool;

    spec fn node_count(&self) -> nat;

    /// The edges that leave `node`, each with its target and its cost, in the
    /// order in which the search tries them.
    spec fn edges(&self, node: int) -> Seq<(usize, u32)>;

    /// The estimated cost from `node` to a goal.
    spec fn estimate(&self, node: int) -> u32;

    spec fn goal(&self, node: int) -> bool;

    fn size(&self) -> (n: usize)
        requires
            self.wf(),
        ensures
            n == self.node_count(),
    ;

    fn neighbors(&self, node: usize) -> (out: Vec<(usize, u32)>)
        requires
            self.wf(),
            node < self.node_count(),
        ensures
            out@ == self.edges(node as int),
            forall|j: int| 0 <= j < out@.len() ==> (#[trigger] out@[j]).0 < self.node_count(),
    ;

    fn heuristic(&self, node: usize) -> (h: u32)
        requires
            self.wf(),
            node < self.node_count(),
        ensures
            h == self.estimate(node as int),
    ;

    fn is_goal(&self, node: usize) -> (b: bool)
        requires
            self.wf(),
            node < self.node_count(),
        ensures
            b == self.goal(node as int),
    ;
}

/// The sum of a sequence of edge costs.
pub open spec fn total(costs: Seq<u32>) -> nat
    decreases costs.len(),
{
    if costs.len() == 0 {
        0
    } else {
        total(costs.drop_last()) + costs.last() as nat
    }
}

/// Step `i` of a walk follows an edge of the graph with the cost noted for it.
pub open spec fn step_ok<S: SearchSpace>(
    space: &S,
    nodes: Seq<usize>,
    costs: Seq<u32>,
    i: int,
) -> bool {
    space.edges(nodes[i] as int).contains((nodes[i + 1], costs[i]))
}

/// `nodes` is a walk through the graph and `costs` are the costs of its edges.
pub open spec fn is_walk<S: SearchSpace>(space: &S, nodes: Seq<usize>, costs: Seq<u32>) -> bool {
    &&& nodes.len() == costs.len() + 1
    &&& forall|i: int| 0 <= i < nodes.len() ==> (#[trigger] nodes[i]) < space.node_count()
    &&& forall|i: int| 0 <= i < costs.len() ==> #[trigger] step_ok(space, nodes, costs, i)
}

/// A walk from `from` to `to`.
pub open spec fn connects<S: SearchSpace>(
    space: &S,
    from: int,
    to: int,
    nodes: Seq<usize>,
    costs: Seq<u32>,
) -> bool {
    &&& is_walk(space, nodes, costs)
    &&& nodes[0] == from
    &&& nodes.last() == to
}

/// The estimate never exceeds the cost of a walk to a goal.
pub open spec fn admissible<S: SearchSpace>(space: &S) -> bool {
    forall|nodes: Seq<usize>, costs: Seq<u32>|
        #![trigger is_walk(space, nodes, costs)]
        is_walk(space, nodes, costs) && space.goal(nodes.last() as int) ==> space.estimate(
            nodes[0] as int,
        ) <= total(costs)
}

/// The estimate of a node never exceeds the cost of an edge from it and the
/// estimate of the node to which the edge leads.
pub open spec fn consistent<S: SearchSpace>(space: &S) -> bool {
    forall|n: int, j: int|
        0 <= n < space.node_count() && 0 <= j < space.edges(n).len() ==> space.estimate(n) <= (
        #[trigger] space.edges(n)[j]).1 + space.estimate(space.edges(n)[j].0 as int)
}

/// No walk from `start` to a goal has a lower sum of its cost and the
/// estimate of its goal than `cost` and the estimate of `goal`.
pub open spec fn ranked_first<S: SearchSpace>(space: &S, start: int, cost: nat, goal: int) -> bool {
    forall|nodes: Seq<usize>, costs: Seq<u32>|
        #![trigger is_walk(space, nodes, costs)]
        is_route(space, start, nodes, costs) ==> cost + space.estimate(goal) <= total(costs)
            + space.estimate(nodes.last() as int)
}

/// No walk from `start` to any goal costs less than `cost`.
pub open spec fn cheapest_to_goal<S: SearchSpace>(space: &S, start: int, cost: nat) -> bool {
    forall|nodes: Seq<usize>, costs: Seq<u32>|
        #![trigger is_walk(space, nodes, costs)]
        is_walk(space, nodes, costs) && nodes[0] == start && space.goal(nodes.last() as int)
            ==> cost <= total(costs)
}

pub proof fn lemma_total_push(costs: Seq<u32>, c: u32)
    ensures
        total(costs.push(c)) == total(costs) + c,
{
    assert(costs.push(c).drop_last() =~= costs);
}

pub proof fn lemma_total_split(costs: Seq<u32>, i: int)
    requires
        0 <= i <= costs.len(),
    ensures
        total(costs.take(i)) + total(costs.skip(i)) == total(costs),
    decreases costs.len() - i,
{
    if i == costs.len() {
        assert(costs.take(i) =~= costs);
        assert(costs.skip(i) =~= Seq::<u32>::empty());
    } else {
        lemma_total_split(costs, i + 1);
        assert(costs.take(i + 1) =~= costs.take(i).push(costs[i]));
        lemma_total_push(costs.take(i), costs[i]);
        lemma_total_prepend(costs[i], costs.skip(i + 1));
        assert(seq![costs[i]] + costs.skip(i + 1) =~= costs.skip(i));
    }
}

pub proof fn lemma_total_prepend(c: u32, costs: Seq<u32>)
    ensures
        total(seq![c] + costs) == c + total(costs),
    decreases costs.len(),
{
    let whole = seq![c] + costs;
    if costs.len() == 0 {
        assert(whole.drop_last() =~= Seq::<u32>::empty());
        assert(total(whole.drop_last()) == 0);
        assert(whole.last() == c);
    } else {
        lemma_total_prepend(c, costs.drop_last());
        assert(whole.drop_last() =~= seq![c] + costs.drop_last());
        assert(whole.last() == costs.last());
    }
}

/// The cost of a walk is bounded by its length.
pub proof fn lemma_total_bound(costs: Seq<u32>)
    ensures
        total(costs) <= costs.len() * 0xffff_ffff,
    decreases costs.len(),
{
    if costs.len() > 0 {
        lemma_total_bound(costs.drop_last());
        assert(costs.len() * 0xffff_ffff == costs.drop_last().len() * 0xffff_ffff + 0xffff_ffff)
            by (nonlinear_arith)
            requires
                costs.drop_last().len() + 1 == costs.len(),
        ;
    }
}

/// Along a walk a consistent estimate falls by no more than the walk costs.
pub proof fn lemma_consistent_along<S: SearchSpace>(space: &S, nodes: Seq<usize>, costs: Seq<u32>)
    requires
        consistent(space),
        is_walk(space, nodes, costs),
    ensures
        space.estimate(nodes[0] as int) <= total(costs) + space.estimate(nodes.last() as int),
    decreases nodes.len(),
{
    if costs.len() > 0 {
        lemma_walk_suffix(space, nodes, costs, 1);
        lemma_consistent_along(space, nodes.skip(1), costs.skip(1));
        assert(step_ok(space, nodes, costs, 0));
        assert(nodes[0] < space.node_count());
        let e = (nodes[1], costs[0]);
        let j = choose|j: int| 0 <= j < space.edges(nodes[0] as int).len() && space.edges(
            nodes[0] as int,
        )[j] == e;
        assert(space.edges(nodes[0] as int)[j].1 == costs[0]);
        assert(costs =~= seq![costs[0]] + costs.skip(1));
        lemma_total_prepend(costs[0], costs.skip(1));
        assert(nodes.skip(1)[0] == nodes[1]);
    }
}

/// A part of a walk is a walk.
pub proof fn lemma_walk_suffix<S: SearchSpace>(
    space: &S,
    nodes: Seq<usize>,
    costs: Seq<u32>,
    i: int,
)
    requires
        is_walk(space, nodes, costs),
        0 <= i < nodes.len(),
    ensures
        is_walk(space, nodes.skip(i), costs.skip(i)),
        nodes.skip(i)[0] == nodes[i],
        nodes.skip(i).last() == nodes.last(),
{
    let ns = nodes.skip(i);
    let cs = costs.skip(i);
    assert forall|k: int| 0 <= k < cs.len() implies #[trigger] step_ok(space, ns, cs, k) by {
        assert(step_ok(space, nodes, costs, k + i));
    }
}

pub proof fn lemma_walk_push<S: SearchSpace>(
    space: &S,
    nodes: Seq<usize>,
    costs: Seq<u32>,
    next: usize,
    c: u32,
)
    requires
        is_walk(space, nodes, costs),
        next < space.node_count(),
        space.edges(nodes.last() as int).contains((next, c)),
    ensures
        is_walk(space, nodes.push(next), costs.push(c)),
        total(costs.push(c)) == total(costs) + c,
{
    let ns = nodes.push(next);
    let cs = costs.push(c);
    lemma_total_push(costs, c);
    assert forall|k: int| 0 <= k < cs.len() implies #[trigger] step_ok(space, ns, cs, k) by {
        if k < costs.len() {
            assert(step_ok(space, nodes, costs, k));
        }
    }
}

pub proof fn lemma_walk_prepend<S: SearchSpace>(
    space: &S,
    first: usize,
    c: u32,
    nodes: Seq<usize>,
    costs: Seq<u32>,
)
    requires
        is_walk(space, nodes, costs),
        first < space.node_count(),
        space.edges(first as int).contains((nodes[0], c)),
    ensures
        is_walk(space, seq![first] + nodes, seq![c] + costs),
        total(seq![c] + costs) == c + total(costs),
{
    let ns = seq![first] + nodes;
    let cs = seq![c] + costs;
    lemma_total_prepend(c, costs);
    assert forall|k: int| 0 <= k < cs.len() implies #[trigger] step_ok(space, ns, cs, k) by {
        if k > 0 {
            assert(step_ok(space, nodes, costs, k - 1));
        }
    }
}

/// A walk from `start` to a goal.
pub open spec fn is_route<S: SearchSpace>(
    space: &S,
    start: int,
    nodes: Seq<usize>,
    costs: Seq<u32>,
) -> bool {
    &&& is_walk(space, nodes, costs)
    &&& nodes[0] == start
    &&& space.goal(nodes.last() as int)
}

/// The items of `v` in reverse order.
pub fn reversed(v: &Vec<usize>) -> (out: Vec<usize>)
    ensures
        out@.len() == v@.len(),
        forall|i: int| 0 <= i < v@.len() ==> #[trigger] out@[i] == v@[v@.len() - 1 - i],
{
    let mut out: Vec<usize> = Vec::new();
    let mut i: usize = v.len();
    while i > 0
        invariant
            i <= v@.len(),
            out@.len() == v@.len() - i,
            forall|k: int| 0 <= k < out@.len() ==> #[trigger] out@[k] == v@[v@.len() - 1 - k],
        decreases i,
    {
        i -= 1;
        out.push(v[i]);
    }
    out
}

/// Node `p` was reached more cheaply than node `q`, or as cheaply and before
/// it.
pub open spec fn comes_earlier(best: Seq<Option<u64>>, stamp: Seq<nat>, p: int, q: int) -> bool {
    best[p]->0 < best[q]->0 || (best[p]->0 == best[q]->0 && stamp[p] < stamp[q])
}

/// Follows the predecessors from `goal` back to the start.
fn trace_back<S: SearchSpace>(
    space: &S,
    ex: &Exploration,
    Ghost(start): Ghost<int>,
    Ghost(tr): Ghost<Trace>,
    goal: usize,
) -> (r: (Vec<usize>, Ghost<Seq<u32>>))
    requires
        tables_ok(space, start, ex.best@, ex.came_from@, tr),
        goal < space.node_count(),
        ex.best@[goal as int] is Some,
    ensures
        connects(space, start, goal as int, r.0@, r.1@),
        total(r.1@) <= ex.best@[goal as int]->0,
        r.0@.no_duplicates(),
        goal == start ==> r.0@ == seq![goal],
{
    let mut rev: Vec<usize> = Vec::new();
    rev.push(goal);
    let mut curr = goal;
    let ghost mut nodes: Seq<usize> = seq![goal];
    let ghost mut costs: Seq<u32> = Seq::empty();
    proof {
        assert(is_walk(space, nodes, costs));
    }
    loop
        invariant
            tables_ok(space, start, ex.best@, ex.came_from@, tr),
            goal < space.node_count(),
            curr < space.node_count(),
            ex.best@[curr as int] is Some,
            ex.best@[goal as int] is Some,
            rev@.len() == nodes.len(),
            forall|i: int| 0 <= i < nodes.len() ==> #[trigger] nodes[i] == rev@[nodes.len() - 1 - i],
            is_walk(space, nodes, costs),
            nodes[0] == curr,
            nodes.last() == goal,
            ex.best@[curr as int]->0 + total(costs) <= ex.best@[goal as int]->0,
            nodes.no_duplicates(),
            forall|i: int|
                1 <= i < nodes.len() ==> comes_earlier(ex.best@, tr.stamp, curr as int, (
                #[trigger] nodes[i]) as int),
        ensures
            curr == start,
        decreases ex.best@[curr as int]->0, tr.stamp[curr as int],
    {
        match ex.came_from[curr] {
            None => {
                proof {
                    if curr != start {
                        assert(linked(space, ex.best@, ex.came_from@, tr, curr as int));
                    }
                }
                break ;
            },
            Some(p) => {
                proof {
                    assert(curr != start);
                    assert(linked(space, ex.best@, ex.came_from@, tr, curr as int));
                    lemma_walk_prepend(space, p, tr.via[curr as int], nodes, costs);
                    let ghost longer = seq![p] + nodes;
                    assert forall|i: int| 0 <= i < longer.len() implies #[trigger] longer[i] == rev@.push(
                        p,
                    )[longer.len() - 1 - i] by {
                        if i > 0 {
                            assert(nodes[i - 1] == rev@[nodes.len() - 1 - (i - 1)]);
                        }
                    }
                    assert(comes_earlier(ex.best@, tr.stamp, p as int, curr as int));
                    assert forall|i: int| 1 <= i < longer.len() implies comes_earlier(
                        ex.best@,
                        tr.stamp,
                        p as int,
                        (#[trigger] longer[i]) as int,
                    ) by {
                        assert(longer[i] == nodes[i - 1]);
                        if i > 1 {
                            assert(comes_earlier(ex.best@, tr.stamp, curr as int, nodes[i - 1] as int));
                        }
                    }
                    assert(longer.no_duplicates()) by {
                        assert forall|x: int, y: int|
                            0 <= x < longer.len() && 0 <= y < longer.len() && x != y implies longer[x]
                            != longer[y] by {
                            if x > 0 && y > 0 {
                                assert(nodes[x - 1] != nodes[y - 1]);
                            } else if x == 0 {
                                assert(comes_earlier(ex.best@, tr.stamp, p as int, longer[y] as int));
                            } else {
                                assert(comes_earlier(ex.best@, tr.stamp, p as int, longer[x] as int));
                            }
                        }
                    }
                    costs = seq![tr.via[curr as int]] + costs;
                    nodes = longer;
                }
                rev.push(p);
                curr = p;
            },
        }
    }
    let path = reversed(&rev);
    proof {
        assert(path@ =~= nodes);
        if goal == start && nodes.len() > 1 {
            assert(nodes[0] == nodes[nodes.len() - 1]);
        }
        if goal == start {
            assert(nodes =~= seq![goal]);
        }
    }
    (path, Ghost(costs))
}

/// What a successful search returns: `path` is a walk from `start` to a goal
/// that visits no node twice, `cost` is the cost of some such walk to that
/// goal, and no less than the cost of `path`; where the estimate is
/// admissible, `cost` is the cost of `path` and no walk from `start` to a
/// goal is cheaper;
/// where the estimate is consistent, no walk from `start` to a goal has a
/// lower sum of cost and estimate of its goal.
pub open spec fn found_cheapest<S: SearchSpace>(
    space: &S,
    start: int,
    cost: u64,
    path: Seq<usize>,
) -> bool {
    &&& path.no_duplicates()
    &&& exists|costs: Seq<u32>|
        #![trigger is_walk(space, path, costs)]
        is_route(space, start, path, costs) && total(costs) <= cost && (admissible(space)
            ==> total(costs) == cost)
    &&& exists|nodes: Seq<usize>, costs: Seq<u32>|
        #![trigger is_walk(space, nodes, costs)]
        connects(space, start, path.last() as int, nodes, costs) && total(costs) == cost
            && nodes.no_duplicates()
    &&& admissible(space) ==> cheapest_to_goal(space, start, cost as nat)
    &&& consistent(space) ==> ranked_first(space, start, cost as nat, path.last() as int)
}

/// Searches best-first from `start` for a goal of `space`.
///
/// A returned path is a walk from `start` to a goal, and the returned cost is
/// the cost of some walk to that goal and no less than the cost of the path.
/// Where the estimate is admissible, the returned cost is the cost of the
/// path and no walk from `start` to a goal is cheaper. `None` is returned
/// exactly when no goal can be reached from `start`. A start that is itself
/// a goal is found at once: the cost is 0 and the path the start alone.
pub fn a_star<S: SearchSpace>(space: &S, start: usize) -> (r: Option<(u64, Vec<usize>)>)
    requires
        space.wf(),
        start < space.node_count(),
        space.node_count() <= u32::MAX,
    ensures
        r matches Some((cost, path)) ==> found_cheapest(space, start as int, cost, path@),
        r is None ==> forall|nodes: Seq<usize>, costs: Seq<u32>|
            !#[trigger] is_route(space, start as int, nodes, costs),
        space.goal(start as int) ==> (r matches Some((cost, path)) && cost == 0 && path@ == seq![
            start,
        ]),
{
    let (ex, Ghost(tr)) = explore(space, start);
    match ex.found {
        None => {
            proof {
                assert forall|nodes: Seq<usize>, costs: Seq<u32>|
                    !#[trigger] is_route(space, start as int, nodes, costs) by {
                    if is_walk(space, nodes, costs) && nodes[0] == start {
                        lemma_closed_covers_walks(
                            space,
                            start as int,
                            ex.best@,
                            nodes,
                            costs,
                            nodes.len() - 1,
                        );
                    }
                }
            }
            None
        },
        Some(goal) => {
            let cost = ex.best[goal].unwrap();
            let (path, Ghost(costs)) = trace_back(space, &ex, Ghost(start as int), Ghost(tr), goal);
            proof {
                assert(is_walk(space, path@, costs));
                assert(is_route(space, start as int, path@, costs));
                assert(witnessed(space, start as int, ex.best@, tr, goal as int));
                assert(is_walk(space, tr.walk_nodes[goal as int], tr.walk_costs[goal as int]));
                assert(found_cheapest(space, start as int, cost, path@));
            }
            Some((cost, path))
        },
    }
}

} // verus!
