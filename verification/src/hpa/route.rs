//! Queries on the hierarchical pathfinder: from a cell to the portals of its
//! cluster, through the portal graph, and from a portal to the destination.

use vstd::prelude::*;
use crate::search::astar::{
    a_star, consistent, found_cheapest, is_route, is_walk, lemma_total_prepend, ranked_first, step_ok,
    total, SearchSpace,
};
use crate::grid::{adjacent, heuristic, manhattan, GridMap, GridPos};
use crate::hpa::{
    cluster_hi, cluster_index, cluster_lo, cluster_of, clusters_across, lemma_cell_in_cluster,
    lemma_cluster_index_injective, AbstractEdge, HPAGrid,
};
use crate::hpa::local::{
    a_star_local, in_box, is_local_path, is_shortest_local_path, lemma_path_spans, locally_connected,
    path_step, shortest_local_path,
};

verus! {

/// Every cell of `path` is walkable and each is next to the one before it.
pub open spec fn is_grid_path(grid: &GridMap, from: GridPos, to: GridPos, path: Seq<GridPos>) -> bool {
    &&& path.len() >= 1
    &&& path[0] == from
    &&& path.last() == to
    &&& forall|i: int| 0 <= i < path.len() ==> grid.walkable(#[trigger] path[i])
    &&& forall|i: int| 1 <= i < path.len() ==> adjacent(path[i - 1], #[trigger] path[i])
}

/// Two paths put together; where the first ends on the cell on which the
/// second begins, that cell is kept once.
pub open spec fn joined(a: Seq<GridPos>, b: Seq<GridPos>) -> Seq<GridPos> {
    if a.len() > 0 && b.len() > 0 && a.last() == b[0] {
        a + b.skip(1)
    } else {
        a + b
    }
}

pub proof fn lemma_joined_path(
    grid: &GridMap,
    x: GridPos,
    y: GridPos,
    z: GridPos,
    a: Seq<GridPos>,
    b: Seq<GridPos>,
)
    requires
        is_grid_path(grid, x, y, a),
        is_grid_path(grid, y, z, b),
    ensures
        is_grid_path(grid, x, z, joined(a, b)),
{
    let j = joined(a, b);
    assert(j =~= a + b.skip(1));
    assert forall|i: int| 0 <= i < j.len() implies grid.walkable(#[trigger] j[i]) by {
        if i >= a.len() {
            assert(j[i] == b[i - a.len() + 1]);
        }
    }
    assert forall|i: int| 1 <= i < j.len() implies adjacent(j[i - 1], #[trigger] j[i]) by {
        if i > a.len() {
            assert(j[i] == b[i - a.len() + 1]);
            assert(j[i - 1] == b[i - a.len()]);
        } else if i == a.len() {
            assert(j[i] == b[1]);
            assert(j[i - 1] == b[0]);
        }
    }
}

/// A path in a box that begins on a walkable cell is a path on the grid.
pub proof fn lemma_local_is_grid_path(
    grid: &GridMap,
    lo: GridPos,
    hi: GridPos,
    from: GridPos,
    to: GridPos,
    path: Seq<GridPos>,
)
    requires
        is_local_path(grid, lo, hi, from, to, path),
        grid.walkable(from),
    ensures
        is_grid_path(grid, from, to, path),
{
    assert forall|i: int| 0 <= i < path.len() implies grid.walkable(#[trigger] path[i]) by {
        if i > 0 {
            assert(path_step(grid, lo, hi, path, i));
        }
    }
    assert forall|i: int| 1 <= i < path.len() implies adjacent(path[i - 1], #[trigger] path[i]) by {
        assert(path_step(grid, lo, hi, path, i));
    }
}

/// Adds the cells of `seg` to `full`, keeping a shared joining cell once.
pub fn append_segment(full: &mut Vec<GridPos>, seg: &Vec<GridPos>)
    ensures
        final(full)@ == joined(old(full)@, seg@),
{
    let mut i: usize = 0;
    if full.len() > 0 && seg.len() > 0 {
        let last = full[full.len() - 1];
        if last == seg[0] {
            i = 1;
        }
    }
    let ghost first = i as int;
    while i < seg.len()
        invariant
            0 <= first <= i <= seg@.len(),
            full@ == old(full)@ + seg@.subrange(first, i as int),
        decreases seg@.len() - i,
    {
        full.push(seg[i]);
        proof {
            assert(seg@.subrange(first, i as int).push(seg@[i as int]) =~= seg@.subrange(
                first,
                i + 1,
            ));
            assert(full@ =~= old(full)@ + seg@.subrange(first, i + 1));
        }
        i += 1;
    }
    proof {
        assert(seg@.subrange(first, seg@.len() as int) =~= seg@.skip(first));
        assert(seg@.skip(0) =~= seg@);
    }
}

/// A copy of a list of cells.
pub fn copy_cells(cells: &Vec<GridPos>) -> (out: Vec<GridPos>)
    ensures
        out@ == cells@,
{
    let mut out: Vec<GridPos> = Vec::new();
    let mut i: usize = 0;
    while i < cells.len()
        invariant
            i <= cells@.len(),
            out@ == cells@.take(i as int),
        decreases cells@.len() - i,
    {
        out.push(cells[i]);
        proof {
            assert(cells@.take(i as int).push(cells@[i as int]) =~= cells@.take(i + 1));
        }
        i += 1;
    }
    proof {
        assert(cells@.take(cells@.len() as int) =~= cells@);
    }
    out
}

/// A path between a cell and a portal of its cluster.
pub struct Leg {
    pub portal: usize,
    pub cost: u32,
    pub path: Vec<GridPos>,
}

/// The portal graph of one query: besides the portals it has one more node,
/// the start, with an edge to each portal that a seed leads to. The goals are
/// the portals from which a tail leads to the end.
pub struct PortalSpace<'a> {
    pub hpa: &'a HPAGrid,
    pub seeds: &'a Vec<Leg>,
    /// For each portal the place of its tail, if it has one.
    pub tail_of: &'a Vec<Option<usize>>,
    pub end: GridPos,
}

impl<'a> PortalSpace<'a> {
    pub open spec fn valid(&self) -> bool {
        &&& self.hpa.wf()
        &&& self.hpa.grid.in_bounds(self.end)
        &&& self.tail_of@.len() == self.hpa.portals@.len()
        &&& forall|k: int| 0 <= k < self.seeds@.len() ==> (#[trigger] self.seeds@[k]).portal
            < self.hpa.portals@.len()
    }

    pub open spec fn seed_edge(&self, k: int) -> (usize, u32) {
        (self.seeds@[k].portal, self.seeds@[k].cost)
    }

    pub open spec fn graph_edge(&self, node: int, j: int) -> (usize, u32) {
        (self.hpa.graph@[node]@[j].to.0, self.hpa.graph@[node]@[j].cost)
    }
}

impl<'a> SearchSpace for PortalSpace<'a> {
    open spec fn wf(&self) -> bool {
        self.valid()
    }

    open spec fn node_count(&self) -> nat {
        (self.hpa.portals@.len() + 1) as nat
    }

    open spec fn edges(&self, node: int) -> Seq<(usize, u32)> {
        if node == self.hpa.portals@.len() {
            Seq::new(self.seeds@.len(), |k: int| self.seed_edge(k))
        } else if 0 <= node < self.hpa.portals@.len() {
            Seq::new(self.hpa.graph@[node]@.len(), |j: int| self.graph_edge(node, j))
        } else {
            Seq::empty()
        }
    }

    open spec fn estimate(&self, node: int) -> u32 {
        if 0 <= node < self.hpa.portals@.len() {
            manhattan(self.hpa.portals@[node].pos, self.end) as u32
        } else {
            0
        }
    }

    open spec fn goal(&self, node: int) -> bool {
        0 <= node < self.hpa.portals@.len() && self.tail_of@[node] is Some
    }

    fn size(&self) -> (n: usize) {
        self.hpa.portals.len() + 1
    }

    fn neighbors(&self, node: usize) -> (out: Vec<(usize, u32)>) {
        let mut out: Vec<(usize, u32)> = Vec::new();
        if node == self.hpa.portals.len() {
            let mut k: usize = 0;
            while k < self.seeds.len()
                invariant
                    self.valid(),
                    k <= self.seeds@.len(),
                    out@.len() == k,
                    forall|i: int| 0 <= i < k ==> #[trigger] out@[i] == self.seed_edge(i),
                decreases self.seeds@.len() - k,
            {
                out.push((self.seeds[k].portal, self.seeds[k].cost));
                k += 1;
            }
            proof {
                assert(out@ =~= self.edges(node as int));
            }
        } else {
            let row = &self.hpa.graph[node];
            let mut j: usize = 0;
            while j < row.len()
                invariant
                    self.valid(),
                    node < self.hpa.portals@.len(),
                    row@ == self.hpa.graph@[node as int]@,
                    j <= row@.len(),
                    out@.len() == j,
                    forall|i: int| 0 <= i < j ==> #[trigger] out@[i] == self.graph_edge(node as int, i),
                decreases row@.len() - j,
            {
                out.push((row[j].to.0, row[j].cost));
                j += 1;
            }
            proof {
                assert(out@ =~= self.edges(node as int));
                assert forall|i: int| 0 <= i < out@.len() implies (#[trigger] out@[i]).0
                    < self.node_count() by {
                    assert(self.hpa.edge_ok(node as int, i));
                }
            }
        }
        out
    }

    fn heuristic(&self, node: usize) -> (h: u32) {
        if node < self.hpa.portals.len() {
            proof {
                assert(self.hpa.portal_ok(node as int));
            }
            heuristic(self.hpa.portals[node].pos, self.end)
        } else {
            0
        }
    }

    fn is_goal(&self, node: usize) -> (b: bool) {
        node < self.hpa.portals.len() && self.tail_of[node].is_some()
    }
}

/// The place of the first leg that belongs to `portal`.
pub fn find_leg(legs: &Vec<Leg>, portal: usize) -> (r: Option<usize>)
    ensures
        r matches Some(k) ==> k < legs@.len() && legs@[k as int].portal == portal && forall|i: int|
            0 <= i < k ==> (#[trigger] legs@[i]).portal != portal,
        r is None ==> forall|k: int| 0 <= k < legs@.len() ==> (#[trigger] legs@[k]).portal != portal,
{
    let mut k: usize = 0;
    while k < legs.len()
        invariant
            k <= legs@.len(),
            forall|i: int| 0 <= i < k ==> (#[trigger] legs@[i]).portal != portal,
        decreases legs@.len() - k,
    {
        if legs[k].portal == portal {
            return Some(k);
        }
        k += 1;
    }
    None
}

/// The place of the first edge that leads to `target`.
pub fn find_edge(row: &Vec<AbstractEdge>, target: usize) -> (r: Option<usize>)
    ensures
        r matches Some(j) ==> j < row@.len() && row@[j as int].to.0 == target && forall|i: int|
            0 <= i < j ==> (#[trigger] row@[i]).to.0 != target,
        r is None ==> forall|j: int| 0 <= j < row@.len() ==> (#[trigger] row@[j]).to.0 != target,
{
    let mut j: usize = 0;
    while j < row.len()
        invariant
            j <= row@.len(),
            forall|i: int| 0 <= i < j ==> (#[trigger] row@[i]).to.0 != target,
        decreases row@.len() - j,
    {
        if row[j].to.0 == target {
            return Some(j);
        }
        j += 1;
    }
    None
}

impl HPAGrid {
    /// A shortest path leads from `start` to portal `p` of its cluster,
    /// within that cluster.
    pub open spec fn seed_ok(&self, start: GridPos, leg: Leg) -> bool {
        let c = cluster_of(self.cluster_size as int, start);
        &&& leg.portal < self.portals@.len()
        &&& self.listed(c, leg.portal as int)
        &&& is_shortest_local_path(
            &self.grid,
            cluster_lo(self.cluster_size as int, c),
            cluster_hi(&self.grid, self.cluster_size as int, c),
            start,
            self.portals@[leg.portal as int].pos,
            leg.cost,
            leg.path@,
        )
    }

    /// A shortest path leads from portal `p` of the cluster of `end` to
    /// `end`, within that cluster.
    pub open spec fn tail_ok(&self, end: GridPos, leg: Leg) -> bool {
        let c = cluster_of(self.cluster_size as int, end);
        &&& leg.portal < self.portals@.len()
        &&& self.listed(c, leg.portal as int)
        &&& is_shortest_local_path(
            &self.grid,
            cluster_lo(self.cluster_size as int, c),
            cluster_hi(&self.grid, self.cluster_size as int, c),
            self.portals@[leg.portal as int].pos,
            end,
            leg.cost,
            leg.path@,
        )
    }

    /// Portal `p` is listed for the cluster of `start` and can be reached
    /// from `start` within that cluster.
    pub open spec fn can_leave(&self, start: GridPos, p: int) -> bool {
        let c = cluster_of(self.cluster_size as int, start);
        &&& 0 <= p < self.portals@.len()
        &&& self.listed(c, p)
        &&& locally_connected(
            &self.grid,
            cluster_lo(self.cluster_size as int, c),
            cluster_hi(&self.grid, self.cluster_size as int, c),
            start,
            self.portals@[p].pos,
        )
    }

    /// Portal `p` is listed for the cluster of `end`, and `end` can be
    /// reached from it within that cluster.
    pub open spec fn can_arrive(&self, end: GridPos, p: int) -> bool {
        let c = cluster_of(self.cluster_size as int, end);
        &&& 0 <= p < self.portals@.len()
        &&& self.listed(c, p)
        &&& locally_connected(
            &self.grid,
            cluster_lo(self.cluster_size as int, c),
            cluster_hi(&self.grid, self.cluster_size as int, c),
            self.portals@[p].pos,
            end,
        )
    }

    /// An edge of the portal graph leads from `a` to `b`.
    pub open spec fn has_edge(&self, a: int, b: int) -> bool {
        &&& 0 <= a < self.graph@.len()
        &&& exists|j: int| 0 <= j < self.graph@[a]@.len() && (#[trigger] self.graph@[a]@[j]).to.0 == b
    }

    pub open spec fn chain_step(&self, chain: Seq<usize>, i: int) -> bool {
        self.has_edge(chain[i] as int, chain[i + 1] as int)
    }

    /// An edge of the portal graph leads from `a` to `b` at the cost `c`.
    pub open spec fn has_edge_at(&self, a: int, b: int, c: u32) -> bool {
        &&& 0 <= a < self.graph@.len()
        &&& exists|j: int|
            0 <= j < self.graph@[a]@.len() && (#[trigger] self.graph@[a]@[j]).to.0 == b
                && self.graph@[a]@[j].cost == c
    }

    pub open spec fn costed_step(&self, chain: Seq<usize>, costs: Seq<u32>, i: int) -> bool {
        self.has_edge_at(chain[i] as int, chain[i + 1] as int, costs[i])
    }

    /// `costs` are costs of edges along the chain, one from each portal to
    /// the next.
    pub open spec fn chain_costs(&self, chain: Seq<usize>, costs: Seq<u32>) -> bool {
        &&& costs.len() == chain.len() - 1
        &&& forall|i: int| 0 <= i < costs.len() ==> #[trigger] self.costed_step(chain, costs, i)
    }

    /// By what a chain of portals is ranked: the steps to its first portal,
    /// the costs of its edges, and the grid distance from its last portal to
    /// the end.
    pub open spec fn chain_rank(&self, lead: Seq<GridPos>, costs: Seq<u32>, last: int, end: GridPos) -> int {
        lead.len() - 1 + total(costs) + manhattan(self.portals@[last].pos, end)
    }

    /// A chain of portals from `start` to `end` with costs of its edges and
    /// a shortest path to its first portal.
    pub open spec fn costed_chain(
        &self,
        start: GridPos,
        end: GridPos,
        chain: Seq<usize>,
        lead: Seq<GridPos>,
        costs: Seq<u32>,
    ) -> bool {
        let c = cluster_of(self.cluster_size as int, start);
        &&& self.chain_ok(start, end, chain)
        &&& self.chain_costs(chain, costs)
        &&& shortest_local_path(
            &self.grid,
            cluster_lo(self.cluster_size as int, c),
            cluster_hi(&self.grid, self.cluster_size as int, c),
            start,
            self.portals@[chain[0] as int].pos,
            lead,
        )
    }

    /// The path follows the chain: it is a shortest path to the first portal
    /// of the chain, the segments of the chain and a shortest path from its
    /// last portal to the end, joined. The chain visits no portal twice, and
    /// no chain from `start` to `end` ranks lower.
    pub open spec fn follows(
        &self,
        start: GridPos,
        end: GridPos,
        chain: Seq<usize>,
        lead: Seq<GridPos>,
        tail: Seq<GridPos>,
        costs: Seq<u32>,
        path: Seq<GridPos>,
    ) -> bool {
        let c = cluster_of(self.cluster_size as int, end);
        &&& self.costed_chain(start, end, chain, lead, costs)
        &&& chain.no_duplicates()
        &&& shortest_local_path(
            &self.grid,
            cluster_lo(self.cluster_size as int, c),
            cluster_hi(&self.grid, self.cluster_size as int, c),
            self.portals@[chain.last() as int].pos,
            end,
            tail,
        )
        &&& path == spliced(self, lead, chain, tail)
        &&& forall|other: Seq<usize>, lead2: Seq<GridPos>, costs2: Seq<u32>| #[trigger]
            self.costed_chain(start, end, other, lead2, costs2) ==> self.chain_rank(
                lead,
                costs,
                chain.last() as int,
                end,
            ) <= self.chain_rank(lead2, costs2, other.last() as int, end)
    }

    /// The path follows some chain of portals from `start` to `end`.
    pub open spec fn follows_a_chain(&self, start: GridPos, end: GridPos, path: Seq<GridPos>) -> bool {
        exists|chain: Seq<usize>, lead: Seq<GridPos>, tail: Seq<GridPos>, costs: Seq<u32>|
            self.follows(start, end, chain, lead, tail, costs, path)
    }

    /// `chain` is a sequence of portals that leads from `start` to `end`:
    /// the first can be reached from `start`, each has an edge to the next,
    /// and `end` can be reached from the last.
    pub open spec fn chain_ok(&self, start: GridPos, end: GridPos, chain: Seq<usize>) -> bool {
        &&& chain.len() >= 1
        &&& self.can_leave(start, chain[0] as int)
        &&& self.can_arrive(end, chain.last() as int)
        &&& forall|i: int| 0 <= i < chain.len() - 1 ==> #[trigger] self.chain_step(chain, i)
    }

    /// Every portal that can be reached from `start` has a seed.
    pub open spec fn seeds_cover(&self, start: GridPos, seeds: Seq<Leg>) -> bool {
        forall|p: int| #[trigger]
            self.can_leave(start, p) ==> exists|k: int|
                0 <= k < seeds.len() && (#[trigger] seeds[k]).portal == p
    }

    /// Every portal from which `end` can be reached has a tail.
    pub open spec fn tails_cover(&self, end: GridPos, tail_of: Seq<Option<usize>>) -> bool {
        forall|p: int| #[trigger] self.can_arrive(end, p) ==> tail_of[p] is Some
    }

    /// The paths from `start` to the portals of its cluster.
    pub(crate) fn seed_legs(&self, start: GridPos) -> (seeds: Vec<Leg>)
        requires
            self.wf(),
            self.grid.in_bounds(start),
        ensures
            forall|k: int| 0 <= k < seeds@.len() ==> self.seed_ok(start, #[trigger] seeds@[k]),
            self.seeds_cover(start, seeds@),
    {
        let c = self.cluster_at(start);
        let (lo, hi) = self.cluster_bounds(c);
        let mut seeds: Vec<Leg> = Vec::new();
        proof {
            lemma_cell_in_cluster(&self.grid, self.cluster_size as int, start);
        }
        match self.lookup_index(c) {
            None => {},
            Some(k) => {
                let ids = &self.cluster_lookup[k];
                let mut j: usize = 0;
                while j < ids.len()
                    invariant
                        self.wf(),
                        self.grid.in_bounds(start),
                        c == cluster_of(self.cluster_size as int, start),
                        lo == cluster_lo(self.cluster_size as int, c),
                        hi == cluster_hi(&self.grid, self.cluster_size as int, c),
                        in_box(lo, hi, start),
                        k == cluster_index(&self.grid, self.cluster_size as int, c),
                        k < self.cluster_lookup@.len(),
                        ids@ == self.cluster_lookup@[k as int]@,
                        j <= ids@.len(),
                        forall|i: int| 0 <= i < seeds@.len() ==> self.seed_ok(start, #[trigger] seeds@[i]),
                        forall|i: int|
                            0 <= i < j && locally_connected(
                                &self.grid,
                                lo,
                                hi,
                                start,
                                self.portals@[(#[trigger] ids@[i]).0 as int].pos,
                            ) ==> exists|m: int|
                                0 <= m < seeds@.len() && (#[trigger] seeds@[m]).portal == ids@[i].0,
                    decreases ids@.len() - j,
                {
                    proof {
                        assert(self.lookup_ok(k as int, j as int));
                        assert(self.portal_ok(ids@[j as int].0 as int));
                    }
                    let p = ids[j].0;
                    let pos = self.portals[p].pos;
                    let ghost before = seeds@;
                    match a_star_local(&self.grid, start, pos, lo, hi) {
                        Some((cost, path)) => {
                            let leg = Leg { portal: p, cost, path };
                            proof {
                                assert(self.listed(c, p as int));
                                assert(self.seed_ok(start, leg));
                            }
                            seeds.push(leg);
                            proof {
                                assert(seeds@[before.len() as int].portal == p);
                                assert forall|i: int|
                                    0 <= i < j + 1 && locally_connected(
                                        &self.grid,
                                        lo,
                                        hi,
                                        start,
                                        self.portals@[(#[trigger] ids@[i]).0 as int].pos,
                                    ) implies exists|m: int|
                                    0 <= m < seeds@.len() && (#[trigger] seeds@[m]).portal
                                        == ids@[i].0 by {
                                    if i < j {
                                        let m = choose|m: int|
                                            0 <= m < before.len() && (#[trigger] before[m]).portal
                                                == ids@[i].0;
                                        assert(seeds@[m].portal == ids@[i].0);
                                    } else {
                                        assert(seeds@[before.len() as int].portal == ids@[i].0);
                                    }
                                }
                            }
                        },
                        None => {},
                    }
                    j += 1;
                }
            },
        }
        proof {
            assert forall|p: int| #[trigger] self.can_leave(start, p) implies exists|m: int|
                0 <= m < seeds@.len() && (#[trigger] seeds@[m]).portal == p by {
                let kk = cluster_index(&self.grid, self.cluster_size as int, c);
                let j = choose|j: int|
                    0 <= j < self.cluster_lookup@[kk]@.len() && (
                    #[trigger] self.cluster_lookup@[kk]@[j]).0 == p;
                assert(self.cluster_lookup@[kk]@[j].0 == p);
            }
        }
        seeds
    }

    /// The paths from the portals of the cluster of `end` to `end`, and for
    /// each portal the place of its path among them.
    pub(crate) fn tail_legs(&self, end: GridPos) -> (r: (Vec<Leg>, Vec<Option<usize>>))
        requires
            self.wf(),
            self.grid.in_bounds(end),
        ensures
            r.1@.len() == self.portals@.len(),
            forall|p: int|
                0 <= p < r.1@.len() && (#[trigger] r.1@[p]) is Some ==> r.1@[p]->0 < r.0@.len()
                    && r.0@[r.1@[p]->0 as int].portal == p && self.tail_ok(
                    end,
                    r.0@[r.1@[p]->0 as int],
                ),
            self.tails_cover(end, r.1@),
    {
        let c = self.cluster_at(end);
        let (lo, hi) = self.cluster_bounds(c);
        let mut tails: Vec<Leg> = Vec::new();
        let mut tail_of: Vec<Option<usize>> = crate::search::explore::filled(None, self.portals.len());
        proof {
            lemma_cell_in_cluster(&self.grid, self.cluster_size as int, end);
        }
        match self.lookup_index(c) {
            None => {},
            Some(k) => {
                let ids = &self.cluster_lookup[k];
                let mut j: usize = 0;
                while j < ids.len()
                    invariant
                        self.wf(),
                        self.grid.in_bounds(end),
                        c == cluster_of(self.cluster_size as int, end),
                        0 <= c.x < clusters_across(self.grid.width as int, self.cluster_size as int),
                        lo == cluster_lo(self.cluster_size as int, c),
                        hi == cluster_hi(&self.grid, self.cluster_size as int, c),
                        k == cluster_index(&self.grid, self.cluster_size as int, c),
                        k < self.cluster_lookup@.len(),
                        ids@ == self.cluster_lookup@[k as int]@,
                        j <= ids@.len(),
                        tail_of@.len() == self.portals@.len(),
                        forall|p: int|
                            0 <= p < tail_of@.len() && (#[trigger] tail_of@[p]) is Some
                                ==> tail_of@[p]->0 < tails@.len() && tails@[tail_of@[p]->0 as int].portal
                                == p && self.tail_ok(end, tails@[tail_of@[p]->0 as int]),
                        forall|i: int|
                            0 <= i < j && locally_connected(
                                &self.grid,
                                lo,
                                hi,
                                self.portals@[(#[trigger] ids@[i]).0 as int].pos,
                                end,
                            ) ==> tail_of@[ids@[i].0 as int] is Some,
                    decreases ids@.len() - j,
                {
                    proof {
                        assert(self.lookup_ok(k as int, j as int));
                        assert(self.portal_ok(ids@[j as int].0 as int));
                        let pp = self.portals@[ids@[j as int].0 as int];
                        lemma_cell_in_cluster(&self.grid, self.cluster_size as int, pp.pos);
                        lemma_cluster_index_injective(
                            &self.grid,
                            self.cluster_size as int,
                            pp.cluster_xy,
                            c,
                        );
                    }
                    let p = ids[j].0;
                    let pos = self.portals[p].pos;
                    match a_star_local(&self.grid, pos, end, lo, hi) {
                        Some((cost, path)) => {
                            let leg = Leg { portal: p, cost, path };
                            proof {
                                assert(self.listed(c, p as int));
                                assert(self.tail_ok(end, leg));
                            }
                            let at = tails.len();
                            tails.push(leg);
                            tail_of.set(p, Some(at));
                        },
                        None => {},
                    }
                    proof {
                        assert forall|i: int|
                            0 <= i < j + 1 && locally_connected(
                                &self.grid,
                                lo,
                                hi,
                                self.portals@[(#[trigger] ids@[i]).0 as int].pos,
                                end,
                            ) implies tail_of@[ids@[i].0 as int] is Some by {
                            assert(self.lookup_ok(k as int, i));
                        }
                    }
                    j += 1;
                }
            },
        }
        proof {
            assert forall|p: int| #[trigger] self.can_arrive(end, p) implies tail_of@[p] is Some by {
                let kk = cluster_index(&self.grid, self.cluster_size as int, c);
                let j = choose|j: int|
                    0 <= j < self.cluster_lookup@[kk]@.len() && (
                    #[trigger] self.cluster_lookup@[kk]@[j]).0 == p;
                assert(self.cluster_lookup@[kk]@[j].0 == p);
            }
        }
        (tails, tail_of)
    }
}

/// An edge from the start node belongs to a seed.
pub proof fn lemma_seed_edge(space: &PortalSpace, p: usize, c: u32)
    requires
        space.valid(),
        space.edges(space.hpa.portals@.len() as int).contains((p, c)),
    ensures
        exists|k: int|
            0 <= k < space.seeds@.len() && (#[trigger] space.seeds@[k]).portal == p && space.seeds@[k].cost
                == c,
        p < space.hpa.portals@.len(),
{
    let all = space.edges(space.hpa.portals@.len() as int);
    let k = choose|k: int| 0 <= k < all.len() && all[k] == (p, c);
    assert(all[k] == space.seed_edge(k));
    assert(space.seeds@[k].portal == p && space.seeds@[k].cost == c);
}

/// An edge from a portal node is an edge of the portal graph.
pub proof fn lemma_graph_edge(space: &PortalSpace, a: int, b: usize, c: u32)
    requires
        space.valid(),
        0 <= a < space.hpa.portals@.len(),
        space.edges(a).contains((b, c)),
    ensures
        space.hpa.has_edge(a, b as int),
        space.hpa.has_edge_at(a, b as int, c),
        b < space.hpa.portals@.len(),
{
    let all = space.edges(a);
    let j = choose|j: int| 0 <= j < all.len() && all[j] == (b, c);
    assert(all[j] == space.graph_edge(a, j));
    assert(space.hpa.graph@[a]@[j].to.0 == b && space.hpa.graph@[a]@[j].cost == c);
    assert(space.hpa.edge_ok(a, j));
}

/// After the start node a walk through the portal graph visits portals only.
pub proof fn lemma_walk_stays_on_portals(
    space: &PortalSpace,
    nodes: Seq<usize>,
    costs: Seq<u32>,
    i: int,
)
    requires
        space.valid(),
        is_walk(space, nodes, costs),
        1 <= i < nodes.len(),
    ensures
        nodes[i] < space.hpa.portals@.len(),
{
    assert(step_ok(space, nodes, costs, i - 1));
    assert(nodes[i - 1] < space.node_count());
    if nodes[i - 1] == space.hpa.portals@.len() {
        lemma_seed_edge(space, nodes[i], costs[i - 1]);
    } else {
        lemma_graph_edge(space, nodes[i - 1] as int, nodes[i], costs[i - 1]);
    }
}

/// The place of the first edge of a row that leads to `target`.
pub open spec fn first_edge_to(row: Seq<AbstractEdge>, target: int) -> int {
    choose|j: int|
        0 <= j < row.len() && (#[trigger] row[j]).to.0 == target && forall|i: int|
            0 <= i < j ==> (#[trigger] row[i]).to.0 != target
}

/// The place of the first leg that belongs to `portal`.
pub open spec fn first_leg_to(legs: Seq<Leg>, portal: int) -> int {
    choose|k: int|
        0 <= k < legs.len() && (#[trigger] legs[k]).portal == portal && forall|i: int|
            0 <= i < k ==> (#[trigger] legs[i]).portal != portal
}

/// The cells by which a path goes from portal `a` to portal `b`: those of
/// the first edge from `a` to `b`, the two portals for a step between
/// clusters and the cached path for an edge inside a cluster.
pub open spec fn segment_of(hpa: &HPAGrid, a: int, b: int) -> Seq<GridPos> {
    let e = hpa.graph@[a]@[first_edge_to(hpa.graph@[a]@, b)];
    if e.is_inter_cluster {
        seq![hpa.portals@[a].pos, hpa.portals@[b].pos]
    } else {
        match e.cached_path {
            Some(path) => path@,
            None => Seq::empty(),
        }
    }
}

/// The path `lead`, joined with the segments of the first `k` edges of a
/// chain of portals.
pub open spec fn through(hpa: &HPAGrid, lead: Seq<GridPos>, chain: Seq<usize>, k: int) -> Seq<GridPos>
    decreases k,
{
    if k <= 0 {
        lead
    } else {
        joined(
            through(hpa, lead, chain, k - 1),
            segment_of(hpa, chain[k - 1] as int, chain[k] as int),
        )
    }
}

/// The path to the first portal of a chain, the segments of the chain and
/// the path from its last portal, joined.
pub open spec fn spliced(
    hpa: &HPAGrid,
    lead: Seq<GridPos>,
    chain: Seq<usize>,
    tail: Seq<GridPos>,
) -> Seq<GridPos> {
    joined(through(hpa, lead, chain, chain.len() - 1), tail)
}

impl<'a> PortalSpace<'a> {
    /// The tails are those that the table of tails names.
    pub open spec fn tails_ok(&self, tails: Seq<Leg>) -> bool {
        forall|p: int|
            0 <= p < self.tail_of@.len() && (#[trigger] self.tail_of@[p]) is Some ==> {
                &&& self.tail_of@[p]->0 < tails.len()
                &&& tails[self.tail_of@[p]->0 as int].portal == p
                &&& self.hpa.tail_ok(self.end, tails[self.tail_of@[p]->0 as int])
            }
    }

    pub open spec fn seeds_ok(&self, start: GridPos) -> bool {
        forall|k: int| 0 <= k < self.seeds@.len() ==> self.hpa.seed_ok(start, #[trigger] self.seeds@[k])
    }

    /// Puts together the cells of a route through the portal graph: the seed
    /// to its first portal, the segment of each edge, and the tail from its
    /// last portal.
    pub(crate) fn assemble(
        &self,
        tails: &Vec<Leg>,
        nodes: &Vec<usize>,
        start: GridPos,
        Ghost(costs): Ghost<Seq<u32>>,
    ) -> (r: Option<Vec<GridPos>>)
        requires
            self.valid(),
            self.hpa.grid.walkable(start),
            self.hpa.grid.walkable(self.end),
            self.seeds_ok(start),
            self.tails_ok(tails@),
            is_route(self, self.hpa.portals@.len() as int, nodes@, costs),
        ensures
            r is Some,
            is_grid_path(&self.hpa.grid, start, self.end, r->0@),
            r->0@ == spliced(
                self.hpa,
                self.seeds@[first_leg_to(self.seeds@, nodes@[1] as int)].path@,
                nodes@.skip(1),
                tails@[self.tail_of@[nodes@.last() as int]->0 as int].path@,
            ),
    {
        let hpa = self.hpa;
        let count = hpa.portals.len();
        let ghost chain = nodes@.skip(1);
        let ghost lead = self.seeds@[first_leg_to(self.seeds@, nodes@[1] as int)].path@;
        proof {
            assert(nodes@.len() >= 2);
            assert(step_ok(self, nodes@, costs, 0));
            lemma_seed_edge(self, nodes@[1], costs[0]);
        }
        let first = nodes[1];
        let mut full: Vec<GridPos> = match find_leg(self.seeds, first) {
            Some(k) => {
                proof {
                    assert(k == first_leg_to(self.seeds@, first as int));
                    assert(hpa.seed_ok(start, self.seeds@[k as int]));
                    let c = cluster_of(hpa.cluster_size as int, start);
                    lemma_local_is_grid_path(
                        &hpa.grid,
                        cluster_lo(hpa.cluster_size as int, c),
                        cluster_hi(&hpa.grid, hpa.cluster_size as int, c),
                        start,
                        hpa.portals@[first as int].pos,
                        self.seeds@[k as int].path@,
                    );
                }
                copy_cells(&self.seeds[k].path)
            },
            None => {
                return None;
            },
        };
        let mut i: usize = 1;
        while i < nodes.len() - 1
            invariant
                self.valid(),
                hpa == self.hpa,
                is_route(self, hpa.portals@.len() as int, nodes@, costs),
                1 <= i < nodes@.len(),
                nodes@[i as int] < hpa.portals@.len(),
                is_grid_path(&hpa.grid, start, hpa.portals@[nodes@[i as int] as int].pos, full@),
                chain == nodes@.skip(1),
                full@ == through(hpa, lead, chain, i - 1),
            decreases nodes@.len() - i,
        {
            let a = nodes[i];
            let b = nodes[i + 1];
            proof {
                assert(step_ok(self, nodes@, costs, i as int));
                lemma_graph_edge(self, a as int, b, costs[i as int]);
                assert(hpa.portal_ok(a as int));
                assert(hpa.portal_ok(b as int));
            }
            let row = &hpa.graph[a];
            match find_edge(row, b) {
                None => {
                    return None;
                },
                Some(j) => {
                    proof {
                        assert(hpa.edge_ok(a as int, j as int));
                        assert(j == first_edge_to(row@, b as int));
                        assert(chain[i - 1] == a && chain[i as int] == b);
                    }
                    let edge = &row[j];
                    let ghost before = full@;
                    if edge.is_inter_cluster {
                        let mut seg: Vec<GridPos> = Vec::new();
                        seg.push(hpa.portals[a].pos);
                        seg.push(hpa.portals[b].pos);
                        proof {
                            assert(is_grid_path(
                                &hpa.grid,
                                hpa.portals@[a as int].pos,
                                hpa.portals@[b as int].pos,
                                seg@,
                            ));
                            lemma_joined_path(
                                &hpa.grid,
                                start,
                                hpa.portals@[a as int].pos,
                                hpa.portals@[b as int].pos,
                                before,
                                seg@,
                            );
                        }
                        append_segment(&mut full, &seg);
                    } else {
                        match &edge.cached_path {
                            Some(path) => {
                                proof {
                                    let from = hpa.portals@[a as int];
                                    lemma_local_is_grid_path(
                                        &hpa.grid,
                                        cluster_lo(hpa.cluster_size as int, from.cluster_xy),
                                        cluster_hi(&hpa.grid, hpa.cluster_size as int, from.cluster_xy),
                                        from.pos,
                                        hpa.portals@[b as int].pos,
                                        path@,
                                    );
                                    lemma_joined_path(
                                        &hpa.grid,
                                        start,
                                        from.pos,
                                        hpa.portals@[b as int].pos,
                                        before,
                                        path@,
                                    );
                                }
                                append_segment(&mut full, path);
                            },
                            None => {},
                        }
                    }
                },
            }
            i += 1;
        }
        let last = nodes[i];
        match self.tail_of[last] {
            None => None,
            Some(t) => {
                proof {
                    assert(hpa.tail_ok(self.end, tails@[t as int]));
                    assert(hpa.portal_ok(last as int));
                    let c = cluster_of(hpa.cluster_size as int, self.end);
                    lemma_local_is_grid_path(
                        &hpa.grid,
                        cluster_lo(hpa.cluster_size as int, c),
                        cluster_hi(&hpa.grid, hpa.cluster_size as int, c),
                        hpa.portals@[last as int].pos,
                        self.end,
                        tails@[t as int].path@,
                    );
                    lemma_joined_path(
                        &hpa.grid,
                        start,
                        hpa.portals@[last as int].pos,
                        self.end,
                        full@,
                        tails@[t as int].path@,
                    );
                }
                append_segment(&mut full, &tails[t].path);
                Some(full)
            },
        }
    }
}

/// The place of some edge from `a` to `b` in the portal graph.
pub open spec fn edge_at(hpa: &HPAGrid, a: int, b: int) -> int {
    choose|j: int| 0 <= j < hpa.graph@[a]@.len() && (#[trigger] hpa.graph@[a]@[j]).to.0 == b
}

/// The place of some seed that leads to portal `p`.
pub open spec fn seed_at(space: &PortalSpace, p: int) -> int {
    choose|k: int| 0 <= k < space.seeds@.len() && (#[trigger] space.seeds@[k]).portal == p
}

/// A route through the portal graph is a chain of portals from the start to
/// the end.
pub proof fn lemma_route_is_chain(
    space: &PortalSpace,
    tails: Seq<Leg>,
    start: GridPos,
    nodes: Seq<usize>,
    costs: Seq<u32>,
)
    requires
        space.valid(),
        space.seeds_ok(start),
        space.tails_ok(tails),
        is_route(space, space.hpa.portals@.len() as int, nodes, costs),
    ensures
        space.hpa.chain_ok(start, space.end, nodes.skip(1)),
{
    let hpa = space.hpa;
    let chain = nodes.skip(1);
    assert(nodes.len() >= 2);
    assert(step_ok(space, nodes, costs, 0));
    lemma_seed_edge(space, nodes[1], costs[0]);
    let k = choose|k: int| 0 <= k < space.seeds@.len() && (#[trigger] space.seeds@[k]).portal == nodes[1];
    assert(hpa.seed_ok(start, space.seeds@[k]));
    assert(hpa.can_leave(start, chain[0] as int));
    let last = nodes.last() as int;
    assert(chain.last() == nodes.last());
    assert(hpa.tail_ok(space.end, tails[space.tail_of@[last]->0 as int]));
    assert(hpa.can_arrive(space.end, last));
    assert forall|i: int| 0 <= i < chain.len() - 1 implies #[trigger] hpa.chain_step(chain, i) by {
        lemma_walk_stays_on_portals(space, nodes, costs, i + 1);
        assert(step_ok(space, nodes, costs, i + 1));
        lemma_graph_edge(space, nodes[i + 1] as int, nodes[i + 2], costs[i + 1]);
    }
}

/// Every portal of a chain is a portal.
pub proof fn lemma_chain_portals(hpa: &HPAGrid, start: GridPos, end: GridPos, chain: Seq<usize>, i: int)
    requires
        hpa.wf(),
        hpa.chain_ok(start, end, chain),
        0 <= i < chain.len(),
    ensures
        chain[i] < hpa.portals@.len(),
    decreases i,
{
    if i > 0 {
        lemma_chain_portals(hpa, start, end, chain, i - 1);
        assert(hpa.chain_step(chain, i - 1));
        let j = edge_at(hpa, chain[i - 1] as int, chain[i] as int);
        assert(hpa.edge_ok(chain[i - 1] as int, j));
    }
}

/// A chain of portals from the start to the end is a route through the
/// portal graph.
pub proof fn lemma_chain_is_route(space: &PortalSpace, start: GridPos, chain: Seq<usize>) -> (r: (
    Seq<usize>,
    Seq<u32>,
))
    requires
        space.valid(),
        space.hpa.chain_ok(start, space.end, chain),
        space.hpa.seeds_cover(start, space.seeds@),
        space.hpa.tails_cover(space.end, space.tail_of@),
    ensures
        is_route(space, space.hpa.portals@.len() as int, r.0, r.1),
{
    let hpa = space.hpa;
    let count = hpa.portals@.len();
    let nodes = seq![count as usize] + chain;
    assert(hpa.can_leave(start, chain[0] as int));
    assert(hpa.can_arrive(space.end, chain.last() as int));
    let k0 = seed_at(space, chain[0] as int);
    let costs = Seq::new(
        chain.len(),
        |i: int|
            if i == 0 {
                space.seeds@[k0].cost
            } else {
                hpa.graph@[chain[i - 1] as int]@[edge_at(hpa, chain[i - 1] as int, chain[i] as int)].cost
            },
    );
    assert forall|i: int| 0 <= i < nodes.len() implies (#[trigger] nodes[i]) < space.node_count() by {
        if i > 0 {
            lemma_chain_portals(hpa, start, space.end, chain, i - 1);
        }
    }
    assert forall|i: int| 0 <= i < costs.len() implies #[trigger] step_ok(space, nodes, costs, i) by {
        if i == 0 {
            let all = space.edges(count as int);
            assert(all[k0] == space.seed_edge(k0));
            assert(all[k0] == (nodes[1], costs[0]));
        } else {
            lemma_chain_portals(hpa, start, space.end, chain, i - 1);
            assert(hpa.chain_step(chain, i - 1));
            let a = chain[i - 1] as int;
            let j = edge_at(hpa, a, chain[i] as int);
            let all = space.edges(a);
            assert(all[j] == space.graph_edge(a, j));
            assert(all[j] == (nodes[i + 1], costs[i]));
        }
    }
    lemma_chain_portals(hpa, start, space.end, chain, chain.len() - 1);
    assert(nodes.last() == chain.last());
    (nodes, costs)
}

/// The grid distance to the end is a consistent estimate on the portal
/// graph.
#[verifier::rlimit(40)]
pub proof fn lemma_portal_space_consistent(space: &PortalSpace)
    requires
        space.valid(),
    ensures
        consistent(space),
{
    let hpa = space.hpa;
    let count = hpa.portals@.len() as int;
    assert forall|n: int, j: int|
        0 <= n < space.node_count() && 0 <= j < space.edges(n).len() implies space.estimate(n) <= (
    #[trigger] space.edges(n)[j]).1 + space.estimate(space.edges(n)[j].0 as int) by {
        if n < count {
            assert(space.edges(n)[j] == space.graph_edge(n, j));
            assert(hpa.edge_ok(n, j));
            let e = hpa.graph@[n]@[j];
            assert(hpa.portal_ok(n));
            assert(hpa.portal_ok(e.to.0 as int));
            if !e.is_inter_cluster {
                let from = hpa.portals@[n];
                lemma_path_spans(
                    &hpa.grid,
                    cluster_lo(hpa.cluster_size as int, from.cluster_xy),
                    cluster_hi(&hpa.grid, hpa.cluster_size as int, from.cluster_xy),
                    from.pos,
                    hpa.portals@[e.to.0 as int].pos,
                    e.cached_path->0@,
                );
            }
        }
    }
}

/// A chain of portals with its costs is a route through the portal graph
/// that costs what the way to its first portal and its edges cost.
#[verifier::rlimit(40)]
pub proof fn lemma_costed_chain_is_route(
    space: &PortalSpace,
    start: GridPos,
    chain: Seq<usize>,
    lead: Seq<GridPos>,
    costs: Seq<u32>,
) -> (r: (Seq<usize>, Seq<u32>))
    requires
        space.valid(),
        space.seeds_ok(start),
        space.hpa.seeds_cover(start, space.seeds@),
        space.hpa.tails_cover(space.end, space.tail_of@),
        space.hpa.costed_chain(start, space.end, chain, lead, costs),
    ensures
        is_route(space, space.hpa.portals@.len() as int, r.0, r.1),
        r.0.last() == chain.last(),
        total(r.1) == lead.len() - 1 + total(costs),
{
    let hpa = space.hpa;
    let count = hpa.portals@.len();
    let nodes = seq![count as usize] + chain;
    assert(hpa.can_leave(start, chain[0] as int));
    assert(hpa.can_arrive(space.end, chain.last() as int));
    let k0 = seed_at(space, chain[0] as int);
    assert(hpa.seed_ok(start, space.seeds@[k0]));
    let walk_costs = seq![space.seeds@[k0].cost] + costs;
    lemma_total_prepend(space.seeds@[k0].cost, costs);
    assert forall|i: int| 0 <= i < nodes.len() implies (#[trigger] nodes[i]) < space.node_count() by {
        if i > 0 {
            lemma_chain_portals(hpa, start, space.end, chain, i - 1);
        }
    }
    assert forall|i: int| 0 <= i < walk_costs.len() implies #[trigger] step_ok(
        space,
        nodes,
        walk_costs,
        i,
    ) by {
        if i == 0 {
            let all = space.edges(count as int);
            assert(all[k0] == space.seed_edge(k0));
            assert(all[k0] == (nodes[1], walk_costs[0]));
        } else {
            lemma_chain_portals(hpa, start, space.end, chain, i - 1);
            assert(hpa.costed_step(chain, costs, i - 1));
            let a = chain[i - 1] as int;
            let j = choose|j: int|
                0 <= j < hpa.graph@[a]@.len() && (#[trigger] hpa.graph@[a]@[j]).to.0 == chain[i]
                    && hpa.graph@[a]@[j].cost == costs[i - 1];
            let all = space.edges(a);
            assert(all[j] == space.graph_edge(a, j));
            assert(all[j] == (nodes[i + 1], walk_costs[i]));
        }
    }
    lemma_chain_portals(hpa, start, space.end, chain, chain.len() - 1);
    assert(nodes.last() == chain.last());
    (nodes, walk_costs)
}

/// Among legs of which one belongs to a portal, one is the first.
pub proof fn lemma_first_leg(legs: Seq<Leg>, portal: int, k: int)
    requires
        0 <= k < legs.len(),
        legs[k].portal == portal,
    ensures
        0 <= first_leg_to(legs, portal) <= k,
        legs[first_leg_to(legs, portal)].portal == portal,
    decreases k,
{
    if exists|i: int| 0 <= i < k && (#[trigger] legs[i]).portal == portal {
        let i = choose|i: int| 0 <= i < k && (#[trigger] legs[i]).portal == portal;
        lemma_first_leg(legs, portal, i);
    } else {
        assert(forall|i: int| 0 <= i < k ==> (#[trigger] legs[i]).portal != portal);
        let f = first_leg_to(legs, portal);
        if f > k {
            assert(legs[k].portal != portal);
        }
    }
}

/// The way to the first portal of a route is a shortest path, of as many
/// steps as the route counts for it.
#[verifier::rlimit(40)]
pub proof fn lemma_lead(space: &PortalSpace, start: GridPos, p: usize, c: u32)
    requires
        space.valid(),
        space.seeds_ok(start),
        space.edges(space.hpa.portals@.len() as int).contains((p, c)),
    ensures
        ({
            let leg = space.seeds@[first_leg_to(space.seeds@, p as int)];
            &&& leg.portal == p
            &&& space.hpa.seed_ok(start, leg)
            &&& leg.path@.len() - 1 == c
        }),
{
    let hpa = space.hpa;
    lemma_seed_edge(space, p, c);
    let k1 = choose|k: int|
        0 <= k < space.seeds@.len() && (#[trigger] space.seeds@[k]).portal == p && space.seeds@[k].cost
            == c;
    lemma_first_leg(space.seeds@, p as int, k1);
    let k0 = first_leg_to(space.seeds@, p as int);
    let one = space.seeds@[k0];
    let two = space.seeds@[k1];
    assert(hpa.seed_ok(start, one));
    assert(hpa.seed_ok(start, two));
    let c0 = cluster_of(hpa.cluster_size as int, start);
    let lo = cluster_lo(hpa.cluster_size as int, c0);
    let hi = cluster_hi(&hpa.grid, hpa.cluster_size as int, c0);
    let to = hpa.portals@[p as int].pos;
    assert(is_local_path(&hpa.grid, lo, hi, start, to, one.path@));
    assert(is_local_path(&hpa.grid, lo, hi, start, to, two.path@));
}

/// The edges of the route found are edges of the portal graph at the costs
/// of the route.
pub proof fn lemma_found_costs(space: &PortalSpace, nodes: Seq<usize>, walk_costs: Seq<u32>)
    requires
        space.valid(),
        is_walk(space, nodes, walk_costs),
        nodes.len() >= 2,
    ensures
        space.hpa.chain_costs(nodes.skip(1), walk_costs.skip(1)),
{
    let hpa = space.hpa;
    let chain = nodes.skip(1);
    let costs = walk_costs.skip(1);
    assert forall|i: int| 0 <= i < costs.len() implies #[trigger] hpa.costed_step(chain, costs, i) by {
        lemma_walk_stays_on_portals(space, nodes, walk_costs, i + 1);
        assert(step_ok(space, nodes, walk_costs, i + 1));
        lemma_graph_edge(space, nodes[i + 1] as int, nodes[i + 2], walk_costs[i + 1]);
    }
}

/// The route found is a chain of portals with costs, and ranks no higher
/// than its cost and the grid distance from its last portal to the end.
#[verifier::rlimit(40)]
pub proof fn lemma_found_chain(
    space: &PortalSpace,
    tails: Seq<Leg>,
    start: GridPos,
    cost: u64,
    nodes: Seq<usize>,
    walk_costs: Seq<u32>,
)
    requires
        space.valid(),
        space.seeds_ok(start),
        space.tails_ok(tails),
        is_route(space, space.hpa.portals@.len() as int, nodes, walk_costs),
        total(walk_costs) <= cost,
        nodes.no_duplicates(),
    ensures
        space.hpa.costed_chain(
            start,
            space.end,
            nodes.skip(1),
            space.seeds@[first_leg_to(space.seeds@, nodes[1] as int)].path@,
            walk_costs.skip(1),
        ),
        nodes.skip(1).no_duplicates(),
        nodes.skip(1).last() == nodes.last(),
        nodes.last() < space.hpa.portals@.len(),
        space.hpa.tail_ok(space.end, tails[space.tail_of@[nodes.last() as int]->0 as int]),
        space.hpa.chain_rank(
            space.seeds@[first_leg_to(space.seeds@, nodes[1] as int)].path@,
            walk_costs.skip(1),
            nodes.last() as int,
            space.end,
        ) <= cost + space.estimate(nodes.last() as int),
{
    let hpa = space.hpa;
    let chain = nodes.skip(1);
    let costs = walk_costs.skip(1);
    lemma_route_is_chain(space, tails, start, nodes, walk_costs);
    assert(step_ok(space, nodes, walk_costs, 0));
    lemma_lead(space, start, nodes[1], walk_costs[0]);
    lemma_found_costs(space, nodes, walk_costs);
    let last = nodes.last() as int;
    assert(chain.last() == nodes.last());
    assert(chain[0] == nodes[1]);
    assert(chain.no_duplicates()) by {
        assert forall|x: int, y: int| 0 <= x < chain.len() && 0 <= y < chain.len() && x != y implies chain[x]
            != chain[y] by {
            assert(nodes[x + 1] != nodes[y + 1]);
        }
    }
    assert(walk_costs =~= seq![walk_costs[0]] + costs);
    lemma_total_prepend(walk_costs[0], costs);
    lemma_walk_stays_on_portals(space, nodes, walk_costs, nodes.len() - 1);
    assert(hpa.portal_ok(last));
}

/// No chain of portals ranks lower than a route that the search ranks
/// first.
pub proof fn lemma_found_ranks_first(
    space: &PortalSpace,
    start: GridPos,
    cost: u64,
    last: int,
    other: Seq<usize>,
    lead2: Seq<GridPos>,
    costs2: Seq<u32>,
)
    requires
        space.valid(),
        space.seeds_ok(start),
        space.hpa.seeds_cover(start, space.seeds@),
        space.hpa.tails_cover(space.end, space.tail_of@),
        ranked_first(space, space.hpa.portals@.len() as int, cost as nat, last),
        space.hpa.costed_chain(start, space.end, other, lead2, costs2),
    ensures
        cost + space.estimate(last) <= space.hpa.chain_rank(lead2, costs2, other.last() as int, space.end),
{
    let hpa = space.hpa;
    let (ns, cs) = lemma_costed_chain_is_route(space, start, other, lead2, costs2);
    assert(is_walk(space, ns, cs));
    lemma_chain_portals(hpa, start, space.end, other, other.len() - 1);
    assert(hpa.portal_ok(other.last() as int));
}

/// The path that is put together for the route found follows its chain of
/// portals.
#[verifier::rlimit(40)]
pub proof fn lemma_found_follows(
    space: &PortalSpace,
    tails: Seq<Leg>,
    start: GridPos,
    cost: u64,
    nodes: Seq<usize>,
    walk_costs: Seq<u32>,
    path: Seq<GridPos>,
)
    requires
        space.valid(),
        space.seeds_ok(start),
        space.tails_ok(tails),
        space.hpa.seeds_cover(start, space.seeds@),
        space.hpa.tails_cover(space.end, space.tail_of@),
        is_route(space, space.hpa.portals@.len() as int, nodes, walk_costs),
        total(walk_costs) <= cost,
        nodes.no_duplicates(),
        ranked_first(space, space.hpa.portals@.len() as int, cost as nat, nodes.last() as int),
        path == spliced(
            space.hpa,
            space.seeds@[first_leg_to(space.seeds@, nodes[1] as int)].path@,
            nodes.skip(1),
            tails[space.tail_of@[nodes.last() as int]->0 as int].path@,
        ),
    ensures
        space.hpa.follows_a_chain(start, space.end, path),
{
    let hpa = space.hpa;
    let end = space.end;
    let chain = nodes.skip(1);
    let costs = walk_costs.skip(1);
    let lead = space.seeds@[first_leg_to(space.seeds@, nodes[1] as int)].path@;
    let last = nodes.last() as int;
    let tail = tails[space.tail_of@[last]->0 as int].path@;
    lemma_found_chain(space, tails, start, cost, nodes, walk_costs);
    assert forall|other: Seq<usize>, lead2: Seq<GridPos>, costs2: Seq<u32>| #[trigger]
        hpa.costed_chain(start, end, other, lead2, costs2) implies hpa.chain_rank(lead, costs, last, end)
        <= hpa.chain_rank(lead2, costs2, other.last() as int, end) by {
        lemma_found_ranks_first(space, start, cost, last, other, lead2, costs2);
    }
    assert(hpa.follows(start, end, chain, lead, tail, costs, path));
}

impl HPAGrid {
    /// Some chain of portals leads from `start` to `end`.
    pub open spec fn linked_by_portals(&self, start: GridPos, end: GridPos) -> bool {
        exists|chain: Seq<usize>| self.chain_ok(start, end, chain)
    }

    /// What `find_path` returns for two walkable cells of one cluster: a
    /// shortest path within the cluster, or nothing if there is none.
    pub open spec fn local_answer(&self, start: GridPos, end: GridPos, r: Option<Vec<GridPos>>) -> bool {
        let c = cluster_of(self.cluster_size as int, start);
        let lo = cluster_lo(self.cluster_size as int, c);
        let hi = cluster_hi(&self.grid, self.cluster_size as int, c);
        match r {
            Some(path) => shortest_local_path(&self.grid, lo, hi, start, end, path@),
            None => !locally_connected(&self.grid, lo, hi, start, end),
        }
    }

    /// Finds a path from `start` to `end`: inside one cluster, or along a
    /// chain of portals.
    fn route_between(&self, start: GridPos, end: GridPos) -> (r: Option<Vec<GridPos>>)
        requires
            self.wf(),
        ensures
            !(self.grid.walkable(start) && self.grid.walkable(end)) ==> r is None,
            r matches Some(path) ==> is_grid_path(&self.grid, start, end, path@),
            self.grid.walkable(start) && self.grid.walkable(end) && cluster_of(
                self.cluster_size as int,
                start,
            ) == cluster_of(self.cluster_size as int, end) ==> self.local_answer(start, end, r),
            self.grid.walkable(start) && self.grid.walkable(end) && cluster_of(
                self.cluster_size as int,
                start,
            ) != cluster_of(self.cluster_size as int, end) ==> (r is Some
                <==> self.linked_by_portals(start, end)),
            cluster_of(self.cluster_size as int, start) != cluster_of(self.cluster_size as int, end)
                ==> (r matches Some(path) ==> self.follows_a_chain(start, end, path@)),
    {
        if !self.grid.is_walkable(start) || !self.grid.is_walkable(end) {
            return None;
        }
        let start_c = self.cluster_at(start);
        let end_c = self.cluster_at(end);
        proof {
            lemma_cell_in_cluster(&self.grid, self.cluster_size as int, start);
        }
        if start_c == end_c {
            let (lo, hi) = self.cluster_bounds(start_c);
            return match a_star_local(&self.grid, start, end, lo, hi) {
                Some((_, path)) => {
                    proof {
                        lemma_local_is_grid_path(&self.grid, lo, hi, start, end, path@);
                    }
                    Some(path)
                },
                None => None,
            };
        }
        let seeds = self.seed_legs(start);
        if seeds.len() == 0 {
            proof {
                assert forall|chain: Seq<usize>| !#[trigger] self.chain_ok(start, end, chain) by {
                    if self.chain_ok(start, end, chain) {
                        assert(self.can_leave(start, chain[0] as int));
                    }
                }
            }
            return None;
        }
        let (tails, tail_of) = self.tail_legs(end);
        if tails.len() == 0 {
            proof {
                assert forall|chain: Seq<usize>| !#[trigger] self.chain_ok(start, end, chain) by {
                    if self.chain_ok(start, end, chain) {
                        assert(self.can_arrive(end, chain.last() as int));
                        assert(tail_of@[chain.last() as int] is Some);
                    }
                }
            }
            return None;
        }
        let space = PortalSpace { hpa: self, seeds: &seeds, tail_of: &tail_of, end };
        proof {
            assert(space.valid()) by {
                assert forall|k: int| 0 <= k < seeds@.len() implies (#[trigger] seeds@[k]).portal
                    < self.portals@.len() by {
                    assert(self.seed_ok(start, seeds@[k]));
                }
            }
            assert(space.seeds_ok(start));
            assert(space.tails_ok(tails@));
        }
        match a_star(&space, self.portals.len()) {
            None => {
                proof {
                    assert forall|chain: Seq<usize>| !#[trigger] self.chain_ok(start, end, chain) by {
                        if self.chain_ok(start, end, chain) {
                            let (ns, cs) = lemma_chain_is_route(&space, start, chain);
                            assert(is_route(&space, self.portals@.len() as int, ns, cs));
                        }
                    }
                }
                None
            },
            Some((cost, nodes)) => {
                let ghost costs = choose|costs: Seq<u32>|
                    #![trigger is_walk(&space, nodes@, costs)]
                    is_route(&space, self.portals@.len() as int, nodes@, costs) && total(costs)
                        <= cost;
                proof {
                    assert(found_cheapest(&space, self.portals@.len() as int, cost, nodes@));
                    lemma_route_is_chain(&space, tails@, start, nodes@, costs);
                    lemma_portal_space_consistent(&space);
                }
                let path = space.assemble(&tails, &nodes, start, Ghost(costs));
                proof {
                    lemma_found_follows(&space, tails@, start, cost, nodes@, costs, path->0@);
                }
                path
            },
        }
    }
}


/// Some path of walkable cells leads from `a` to `b`.
pub open spec fn grid_connected(grid: &GridMap, a: GridPos, b: GridPos) -> bool {
    exists|path: Seq<GridPos>| is_grid_path(grid, a, b, path)
}

impl HPAGrid {
    /// Finds a path of walkable cells from `start` to `end`, each next to the
    /// one before it.
    ///
    /// Nothing is returned if either cell is not walkable. Within one
    /// cluster the answer is a shortest path inside that cluster, or nothing
    /// if the cluster holds none. Between clusters a path is returned
    /// exactly when a chain of portals leads from `start` to `end`; after
    /// `build` that is exactly when any path leads from `start` to `end`.
    /// The path follows a chain that visits no portal twice: it is a
    /// shortest path to the first portal, the segment of each edge and a
    /// shortest path from the last portal, joined; and no chain has a lower
    /// sum of the steps to its first portal, the costs of its edges and the
    /// grid distance from its last portal to `end`.
    pub fn find_path(&self, start: GridPos, end: GridPos) -> (r: Option<Vec<GridPos>>)
        requires
            self.wf(),
        ensures
            !(self.grid.walkable(start) && self.grid.walkable(end)) ==> r is None,
            r matches Some(path) ==> is_grid_path(&self.grid, start, end, path@),
            self.grid.walkable(start) && self.grid.walkable(end) && cluster_of(
                self.cluster_size as int,
                start,
            ) == cluster_of(self.cluster_size as int, end) ==> self.local_answer(start, end, r),
            self.grid.walkable(start) && self.grid.walkable(end) && cluster_of(
                self.cluster_size as int,
                start,
            ) != cluster_of(self.cluster_size as int, end) ==> (r is Some
                <==> self.linked_by_portals(start, end)),
            self.built() && self.grid.walkable(start) && self.grid.walkable(end) && cluster_of(
                self.cluster_size as int,
                start,
            ) != cluster_of(self.cluster_size as int, end) ==> (r is Some <==> grid_connected(
                &self.grid,
                start,
                end,
            )),
            cluster_of(self.cluster_size as int, start) != cluster_of(self.cluster_size as int, end)
                ==> (r matches Some(path) ==> self.follows_a_chain(start, end, path@)),
    {
        let r = self.route_between(start, end);
        proof {
            let size = self.cluster_size as int;
            if self.built() && self.grid.walkable(start) && self.grid.walkable(end) && cluster_of(
                size,
                start,
            ) != cluster_of(size, end) && r is None {
                if grid_connected(&self.grid, start, end) {
                    let path = choose|path: Seq<GridPos>| is_grid_path(&self.grid, start, end, path);
                    let c = cluster_of(size, start);
                    crate::hpa::complete::lemma_connected_to_itself(
                        &self.grid,
                        cluster_lo(size, c),
                        cluster_hi(&self.grid, size, c),
                        start,
                    );
                    self.lemma_path_has_chain(start, end, path, 0);
                }
            }
        }
        r
    }
}

} // verus!
