//! Shortest paths on the grid, confined to a rectangular window of it.

use vstd::prelude::*;
use vstd::arithmetic::div_mod::{
    lemma_fundamental_div_mod, lemma_fundamental_div_mod_converse, lemma_mod_bound,
};
use crate::search::astar::{
    a_star, admissible, connects, found_cheapest, is_route, is_walk, step_ok, total,
    lemma_total_prepend, lemma_walk_suffix, SearchSpace,
};
use crate::search::explore::lemma_distinct_nodes_bound;
use crate::grid::{adjacent, heuristic, manhattan, GridMap, GridPos};

verus! {

/// A non-empty rectangle of cells of a grid, seen as a graph: its nodes are
/// its cells in row-major order, and an edge of cost 1 leads from a cell to
/// each walkable cell of the window next to it. The goal is the cell `end`.
pub struct GridWindow<'a> {
    pub grid: &'a GridMap,
    pub x0: i32,
    pub y0: i32,
    pub w: i32,
    pub h: i32,
    pub end: GridPos,
}

pub proof fn lemma_product_le(a: int, b: int, c: int, d: int)
    requires
        0 <= a <= c,
        0 <= b <= d,
    ensures
        0 <= a * b <= c * d,
{
    assert(0 <= a * b <= c * d) by (nonlinear_arith)
        requires
            0 <= a <= c,
            0 <= b <= d,
    ;
}

impl<'a> GridWindow<'a> {
    pub open spec fn valid(&self) -> bool {
        &&& self.grid.wf()
        &&& 0 <= self.x0
        &&& 0 <= self.y0
        &&& 0 < self.w
        &&& 0 < self.h
        &&& self.x0 + self.w <= self.grid.width
        &&& self.y0 + self.h <= self.grid.height
        &&& self.grid.in_bounds(self.end)
    }

    pub open spec fn holds(&self, p: GridPos) -> bool {
        &&& self.x0 <= p.x < self.x0 + self.w
        &&& self.y0 <= p.y < self.y0 + self.h
    }

    pub open spec fn pos_of(&self, node: int) -> GridPos {
        GridPos { x: (self.x0 + node % (self.w as int)) as i32, y: (self.y0 + node / (self.w as int)) as i32 }
    }

    pub open spec fn index_of(&self, p: GridPos) -> int {
        (p.y - self.y0) * self.w + (p.x - self.x0)
    }

    /// The edge from `node` to the cell at the offset (`dx`, `dy`), if that
    /// cell is a walkable cell of the window.
    pub open spec fn step(&self, node: int, dx: int, dy: int) -> Seq<(usize, u32)> {
        let p = self.pos_of(node);
        let q = GridPos { x: (p.x + dx) as i32, y: (p.y + dy) as i32 };
        if self.holds(q) && self.grid.walkable(q) {
            seq![(self.index_of(q) as usize, 1u32)]
        } else {
            Seq::empty()
        }
    }

    pub proof fn lemma_size(&self)
        requires
            self.valid(),
        ensures
            0 < self.w * self.h <= i32::MAX,
    {
        lemma_product_le(
            self.w as int,
            self.h as int,
            self.grid.width as int,
            self.grid.height as int,
        );
        assert(0 < self.w * self.h) by (nonlinear_arith)
            requires
                0 < self.w,
                0 < self.h,
        ;
    }

    pub proof fn lemma_pos_of(&self, node: int)
        requires
            self.valid(),
            0 <= node < self.w * self.h,
        ensures
            self.holds(self.pos_of(node)),
            self.grid.in_bounds(self.pos_of(node)),
            self.index_of(self.pos_of(node)) == node,
            self.pos_of(node).x == self.x0 + node % (self.w as int),
            self.pos_of(node).y == self.y0 + node / (self.w as int),
    {
        let w = self.w as int;
        let h = self.h as int;
        lemma_fundamental_div_mod(node, w);
        lemma_mod_bound(node, w);
        let q = node / w;
        let r = node % w;
        assert(0 <= q < h) by (nonlinear_arith)
            requires
                node == w * q + r,
                0 <= r < w,
                0 <= node < w * h,
                0 < w,
        ;
        assert(q * w == w * q) by (nonlinear_arith);
    }

    pub proof fn lemma_index_of(&self, p: GridPos)
        requires
            self.valid(),
            self.holds(p),
        ensures
            0 <= self.index_of(p) < self.w * self.h,
            self.pos_of(self.index_of(p)) == p,
    {
        let w = self.w as int;
        let h = self.h as int;
        crate::grid::lemma_cell_index_bound(p.x - self.x0, p.y - self.y0, w, h);
        lemma_fundamental_div_mod_converse(self.index_of(p), w, p.y - self.y0, p.x - self.x0);
    }

    /// Appends the edge from the cell `p` to the cell at the given offset, if
    /// there is one.
    fn push_step(&self, out: &mut Vec<(usize, u32)>, Ghost(node): Ghost<int>, p: GridPos, dx: i32, dy: i32)
        requires
            self.valid(),
            0 <= node < self.w * self.h,
            p == self.pos_of(node),
            -1 <= dx <= 1,
            -1 <= dy <= 1,
        ensures
            final(out)@ == old(out)@ + self.step(node, dx as int, dy as int),
            forall|j: int|
                0 <= j < final(out)@.len() && !(j < old(out)@.len()) ==> (#[trigger] final(out)@[j]).0
                    < self.w * self.h,
    {
        proof {
            self.lemma_pos_of(node);
        }
        let q = GridPos { x: p.x + dx, y: p.y + dy };
        if q.x >= self.x0 && q.x - self.x0 < self.w && q.y >= self.y0 && q.y - self.y0 < self.h
            && self.grid.is_walkable(q) {
            proof {
                self.lemma_index_of(q);
                self.lemma_size();
            }
            let idx = ((q.y - self.y0) * self.w + (q.x - self.x0)) as usize;
            out.push((idx, 1u32));
            proof {
                assert(final(out)@ =~= old(out)@ + self.step(node, dx as int, dy as int));
            }
        } else {
            proof {
                assert(out@ =~= old(out)@ + self.step(node, dx as int, dy as int));
            }
        }
    }

    /// The cell of a node.
    pub fn cell(&self, node: usize) -> (p: GridPos)
        requires
            self.valid(),
            node < self.w * self.h,
        ensures
            p == self.pos_of(node as int),
            self.holds(p),
            self.grid.in_bounds(p),
    {
        proof {
            self.lemma_pos_of(node as int);
            self.lemma_size();
        }
        let w = self.w as usize;
        GridPos { x: self.x0 + (node % w) as i32, y: self.y0 + (node / w) as i32 }
    }

    /// The node of a cell of the window.
    pub fn node_of(&self, p: GridPos) -> (node: usize)
        requires
            self.valid(),
            self.holds(p),
        ensures
            node == self.index_of(p),
            node < self.w * self.h,
    {
        proof {
            self.lemma_index_of(p);
            self.lemma_size();
        }
        ((p.y - self.y0) * self.w + (p.x - self.x0)) as usize
    }
}

impl<'a> SearchSpace for GridWindow<'a> {
    open spec fn wf(&self) -> bool {
        self.valid()
    }

    open spec fn node_count(&self) -> nat {
        (self.w * self.h) as nat
    }

    open spec fn edges(&self, node: int) -> Seq<(usize, u32)> {
        self.step(node, 0, 1) + self.step(node, 0, -1) + self.step(node, 1, 0) + self.step(
            node,
            -1,
            0,
        )
    }

    open spec fn estimate(&self, node: int) -> u32 {
        manhattan(self.pos_of(node), self.end) as u32
    }

    open spec fn goal(&self, node: int) -> bool {
        self.pos_of(node) == self.end
    }

    fn size(&self) -> (n: usize) {
        proof {
            self.lemma_size();
        }
        (self.w * self.h) as usize
    }

    fn neighbors(&self, node: usize) -> (out: Vec<(usize, u32)>) {
        proof {
            self.lemma_size();
        }
        let p = self.cell(node);
        let mut out: Vec<(usize, u32)> = Vec::new();
        self.push_step(&mut out, Ghost(node as int), p, 0, 1);
        self.push_step(&mut out, Ghost(node as int), p, 0, -1);
        self.push_step(&mut out, Ghost(node as int), p, 1, 0);
        self.push_step(&mut out, Ghost(node as int), p, -1, 0);
        out
    }

    fn heuristic(&self, node: usize) -> (h: u32) {
        proof {
            self.lemma_size();
        }
        let p = self.cell(node);
        heuristic(p, self.end)
    }

    fn is_goal(&self, node: usize) -> (b: bool) {
        proof {
            self.lemma_size();
        }
        let p = self.cell(node);
        p.x == self.end.x && p.y == self.end.y
    }
}

pub open spec fn in_box(lo: GridPos, hi: GridPos, p: GridPos) -> bool {
    lo.x <= p.x < hi.x && lo.y <= p.y < hi.y
}

/// Step `i` of a path leads to a neighbouring cell that is walkable and lies
/// in the box from `lo` up to, but not including, `hi`.
pub open spec fn path_step(
    grid: &GridMap,
    lo: GridPos,
    hi: GridPos,
    path: Seq<GridPos>,
    i: int,
) -> bool {
    &&& adjacent(path[i - 1], path[i])
    &&& in_box(lo, hi, path[i])
    &&& grid.walkable(path[i])
}

/// `path` leads from `from` to `to` by steps between neighbouring cells, and
/// every cell after the first is a walkable cell of the box.
pub open spec fn is_local_path(
    grid: &GridMap,
    lo: GridPos,
    hi: GridPos,
    from: GridPos,
    to: GridPos,
    path: Seq<GridPos>,
) -> bool {
    &&& path.len() >= 1
    &&& path[0] == from
    &&& path.last() == to
    &&& forall|i: int| 1 <= i < path.len() ==> #[trigger] path_step(grid, lo, hi, path, i)
}

/// The window is the part of the box that lies on the grid.
pub open spec fn window_of_box(space: &GridWindow, lo: GridPos, hi: GridPos) -> bool {
    forall|p: GridPos| #[trigger]
        space.holds(p) <==> in_box(lo, hi, p) && space.grid.in_bounds(p)
}

/// What an edge of the window is: a step of cost 1 to a walkable neighbour.
pub proof fn lemma_edge_is_step(space: &GridWindow, node: int, target: usize, c: u32)
    requires
        space.valid(),
        0 <= node < space.node_count(),
        space.edges(node).contains((target, c)),
    ensures
        c == 1,
        target < space.node_count(),
        adjacent(space.pos_of(node), space.pos_of(target as int)),
        space.holds(space.pos_of(target as int)),
        space.grid.walkable(space.pos_of(target as int)),
{
    space.lemma_pos_of(node);
    space.lemma_size();
    let p = space.pos_of(node);
    let s0 = space.step(node, 0, 1);
    let s1 = space.step(node, 0, -1);
    let s2 = space.step(node, 1, 0);
    let s3 = space.step(node, -1, 0);
    let all = space.edges(node);
    let k = choose|k: int| 0 <= k < all.len() && all[k] == (target, c);
    let (dx, dy): (int, int) = if s0.contains((target, c)) {
        (0, 1)
    } else if s1.contains((target, c)) {
        (0, -1)
    } else if s2.contains((target, c)) {
        (1, 0)
    } else {
        (-1, 0)
    };
    assert(space.step(node, dx, dy).contains((target, c))) by {
        if k < s0.len() {
            assert(s0[k] == (target, c));
        } else if k < s0.len() + s1.len() {
            assert(s1[k - s0.len()] == (target, c));
        } else if k < s0.len() + s1.len() + s2.len() {
            assert(s2[k - s0.len() - s1.len()] == (target, c));
        } else {
            assert(s3[k - s0.len() - s1.len() - s2.len()] == (target, c));
        }
    }
    let q = GridPos { x: (p.x + dx) as i32, y: (p.y + dy) as i32 };
    let st = space.step(node, dx, dy);
    assert(st.len() == 1 && st[0] == (target, c));
    space.lemma_index_of(q);
}

/// Every step to a walkable neighbour in the window is an edge.
pub proof fn lemma_step_is_edge(space: &GridWindow, p: GridPos, q: GridPos)
    requires
        space.valid(),
        space.holds(p),
        space.holds(q),
        adjacent(p, q),
        space.grid.walkable(q),
    ensures
        space.edges(space.index_of(p)).contains((space.index_of(q) as usize, 1u32)),
{
    space.lemma_index_of(p);
    space.lemma_index_of(q);
    let node = space.index_of(p);
    let dx = q.x - p.x;
    let dy = q.y - p.y;
    let st = space.step(node, dx, dy);
    let e = (space.index_of(q) as usize, 1u32);
    assert(st =~= seq![e]);
    assert(st[0] == e);
    let s0 = space.step(node, 0, 1);
    let s1 = space.step(node, 0, -1);
    let s2 = space.step(node, 1, 0);
    let s3 = space.step(node, -1, 0);
    let all = space.edges(node);
    if dx == 0 && dy == 1 {
        assert(all[0] == e);
    } else if dx == 0 && dy == -1 {
        assert(all[s0.len() as int] == e);
    } else if dx == 1 && dy == 0 {
        assert(all[(s0.len() + s1.len()) as int] == e);
    } else {
        assert(dx == -1 && dy == 0);
        assert(all[(s0.len() + s1.len() + s2.len()) as int] == e);
    }
}

pub proof fn lemma_unit_total(costs: Seq<u32>)
    requires
        forall|i: int| 0 <= i < costs.len() ==> #[trigger] costs[i] == 1,
    ensures
        total(costs) == costs.len(),
    decreases costs.len(),
{
    if costs.len() > 0 {
        lemma_unit_total(costs.drop_last());
    }
}

/// The cells of a walk through the window.
pub open spec fn cells_of(space: &GridWindow, nodes: Seq<usize>) -> Seq<GridPos> {
    Seq::new(nodes.len(), |i: int| space.pos_of(nodes[i] as int))
}

/// A walk through the window is a path on the grid, one cell per unit of
/// cost.
pub proof fn lemma_walk_is_path(
    space: &GridWindow,
    lo: GridPos,
    hi: GridPos,
    nodes: Seq<usize>,
    costs: Seq<u32>,
)
    requires
        space.valid(),
        window_of_box(space, lo, hi),
        is_walk(space, nodes, costs),
    ensures
        is_local_path(
            space.grid,
            lo,
            hi,
            space.pos_of(nodes[0] as int),
            space.pos_of(nodes.last() as int),
            cells_of(space, nodes),
        ),
        total(costs) == nodes.len() - 1,
{
    let path = cells_of(space, nodes);
    assert forall|i: int| 0 <= i < costs.len() implies #[trigger] costs[i] == 1 by {
        assert(step_ok(space, nodes, costs, i));
        assert(nodes[i] < space.node_count());
        lemma_edge_is_step(space, nodes[i] as int, nodes[i + 1], costs[i]);
    }
    lemma_unit_total(costs);
    assert forall|i: int| 1 <= i < path.len() implies #[trigger] path_step(
        space.grid,
        lo,
        hi,
        path,
        i,
    ) by {
        assert(step_ok(space, nodes, costs, i - 1));
        assert(nodes[i - 1] < space.node_count());
        lemma_edge_is_step(space, nodes[i - 1] as int, nodes[i], costs[i - 1]);
        assert(space.holds(path[i]));
    }
}

/// A path on the grid that starts in the window and stays in the box is a
/// walk through the window.
pub proof fn lemma_path_is_walk(
    space: &GridWindow,
    lo: GridPos,
    hi: GridPos,
    from: GridPos,
    to: GridPos,
    path: Seq<GridPos>,
) -> (r: (Seq<usize>, Seq<u32>))
    requires
        space.valid(),
        window_of_box(space, lo, hi),
        space.holds(from),
        is_local_path(space.grid, lo, hi, from, to, path),
    ensures
        is_walk(space, r.0, r.1),
        r.0.len() == path.len(),
        r.0[0] == space.index_of(from),
        space.pos_of(r.0.last() as int) == to,
        total(r.1) == path.len() - 1,
{
    let nodes = Seq::new(path.len(), |i: int| space.index_of(path[i]) as usize);
    let costs = Seq::new((path.len() - 1) as nat, |i: int| 1u32);
    space.lemma_size();
    assert forall|i: int| 0 <= i < path.len() implies space.holds(#[trigger] path[i]) by {
        if i > 0 {
            assert(path_step(space.grid, lo, hi, path, i));
        }
    }
    assert forall|i: int| 0 <= i < nodes.len() implies (#[trigger] nodes[i]) < space.node_count() by {
        assert(space.holds(path[i]));
        space.lemma_index_of(path[i]);
    }
    assert forall|i: int| 0 <= i < costs.len() implies #[trigger] step_ok(
        space,
        nodes,
        costs,
        i,
    ) by {
        assert(path_step(space.grid, lo, hi, path, i + 1));
        assert(space.holds(path[i]));
        assert(space.holds(path[i + 1]));
        space.lemma_index_of(path[i]);
        space.lemma_index_of(path[i + 1]);
        lemma_step_is_edge(space, path[i], path[i + 1]);
    }
    lemma_unit_total(costs);
    assert(space.holds(path.last()));
    space.lemma_index_of(path.last());
    space.lemma_index_of(from);
    (nodes, costs)
}

/// The grid distance to the end never exceeds the length of a walk to it.
pub proof fn lemma_distance_bounds_walk(space: &GridWindow, nodes: Seq<usize>, costs: Seq<u32>)
    requires
        space.valid(),
        is_walk(space, nodes, costs),
        space.goal(nodes.last() as int),
    ensures
        manhattan(space.pos_of(nodes[0] as int), space.end) <= costs.len(),
        total(costs) == costs.len(),
    decreases nodes.len(),
{
    if costs.len() == 0 {
        assert(nodes.last() == nodes[0]);
        lemma_unit_total(costs);
    } else {
        lemma_walk_suffix(space, nodes, costs, 1);
        lemma_distance_bounds_walk(space, nodes.skip(1), costs.skip(1));
        assert(step_ok(space, nodes, costs, 0));
        assert(nodes[0] < space.node_count());
        lemma_edge_is_step(space, nodes[0] as int, nodes[1], costs[0]);
        assert(nodes.skip(1)[0] == nodes[1]);
        assert(costs =~= seq![costs[0]] + costs.skip(1));
        lemma_total_prepend(costs[0], costs.skip(1));
    }
}

pub proof fn lemma_window_admissible(space: &GridWindow)
    requires
        space.valid(),
    ensures
        admissible(space),
{
    assert forall|nodes: Seq<usize>, costs: Seq<u32>|
        #![trigger is_walk(space, nodes, costs)]
        is_walk(space, nodes, costs) && space.goal(nodes.last() as int) implies space.estimate(
        nodes[0] as int,
    ) <= total(costs) by {
        lemma_distance_bounds_walk(space, nodes, costs);
        space.lemma_size();
        assert(nodes[0] < space.node_count());
        space.lemma_pos_of(nodes[0] as int);
    }
}

/// Some path leads from `a` to `b` within the box.
pub open spec fn locally_connected(
    grid: &GridMap,
    lo: GridPos,
    hi: GridPos,
    a: GridPos,
    b: GridPos,
) -> bool {
    exists|path: Seq<GridPos>| is_local_path(grid, lo, hi, a, b, path)
}

/// A path has at least as many steps as its ends lie apart.
pub proof fn lemma_path_spans(
    grid: &GridMap,
    lo: GridPos,
    hi: GridPos,
    a: GridPos,
    b: GridPos,
    path: Seq<GridPos>,
)
    requires
        is_local_path(grid, lo, hi, a, b, path),
    ensures
        manhattan(a, b) <= path.len() - 1,
    decreases path.len(),
{
    if path.len() > 1 {
        let front = path.drop_last();
        assert forall|i: int| 1 <= i < front.len() implies #[trigger] path_step(grid, lo, hi, front, i) by {
            assert(path_step(grid, lo, hi, path, i));
        }
        lemma_path_spans(grid, lo, hi, a, front.last(), front);
        assert(path_step(grid, lo, hi, path, path.len() - 1));
    }
}

/// `path` is a path from `from` to `to` within the box, and no such path has
/// fewer cells.
pub open spec fn shortest_local_path(
    grid: &GridMap,
    lo: GridPos,
    hi: GridPos,
    from: GridPos,
    to: GridPos,
    path: Seq<GridPos>,
) -> bool {
    &&& is_local_path(grid, lo, hi, from, to, path)
    &&& forall|other: Seq<GridPos>| #[trigger]
        is_local_path(grid, lo, hi, from, to, other) ==> path.len() <= other.len()
}

/// The result of a search between two cells: a shortest path from `from` to
/// `to` within the box, and its number of steps.
pub open spec fn is_shortest_local_path(
    grid: &GridMap,
    lo: GridPos,
    hi: GridPos,
    from: GridPos,
    to: GridPos,
    cost: u32,
    path: Seq<GridPos>,
) -> bool {
    &&& shortest_local_path(grid, lo, hi, from, to, path)
    &&& cost == path.len() - 1
}

/// Finds a shortest path from `start` to `end` that stays, after its first
/// cell, on walkable cells of the box from `min` up to, but not including,
/// `max`. Returns its number of steps and its cells, or `None` exactly when
/// there is no such path.
pub fn a_star_local(
    grid: &GridMap,
    start: GridPos,
    end: GridPos,
    min: GridPos,
    max: GridPos,
) -> (r: Option<(u32, Vec<GridPos>)>)
    requires
        grid.wf(),
        grid.in_bounds(start),
        grid.in_bounds(end),
        in_box(min, max, start),
    ensures
        r matches Some((cost, path)) ==> is_shortest_local_path(
            grid,
            min,
            max,
            start,
            end,
            cost,
            path@,
        ),
        r is None ==> forall|other: Seq<GridPos>| !#[trigger]
            is_local_path(grid, min, max, start, end, other),
{
    let x0 = if min.x > 0 {
        min.x
    } else {
        0
    };
    let y0 = if min.y > 0 {
        min.y
    } else {
        0
    };
    let x1 = if max.x < grid.width {
        max.x
    } else {
        grid.width
    };
    let y1 = if max.y < grid.height {
        max.y
    } else {
        grid.height
    };
    let space = GridWindow { grid, x0, y0, w: x1 - x0, h: y1 - y0, end };
    proof {
        assert(space.valid());
        assert(window_of_box(&space, min, max));
        space.lemma_size();
        lemma_window_admissible(&space);
        space.lemma_index_of(start);
    }
    let s = space.node_of(start);
    match a_star(&space, s) {
        None => {
            proof {
                assert forall|other: Seq<GridPos>| !#[trigger]
                    is_local_path(grid, min, max, start, end, other) by {
                    if is_local_path(grid, min, max, start, end, other) {
                        let (ns, cs) = lemma_path_is_walk(&space, min, max, start, end, other);
                        assert(is_route(&space, s as int, ns, cs));
                    }
                }
            }
            None
        },
        Some((cost, nodes)) => {
            proof {
                assert(found_cheapest(&space, s as int, cost, nodes@));
                let cs = choose|cs: Seq<u32>|
                    #![trigger is_walk(&space, nodes@, cs)]
                    is_route(&space, s as int, nodes@, cs) && total(cs) <= cost && (admissible(
                        &space,
                    ) ==> total(cs) == cost);
                lemma_walk_is_path(&space, min, max, nodes@, cs);
                let (ws, wc) = choose|ws: Seq<usize>, wc: Seq<u32>|
                    #![trigger is_walk(&space, ws, wc)]
                    connects(&space, s as int, nodes@.last() as int, ws, wc) && total(wc) == cost
                        && ws.no_duplicates();
                lemma_walk_is_path(&space, min, max, ws, wc);
                lemma_distinct_nodes_bound(ws, space.node_count());
                assert(cost < space.node_count());
                assert forall|other: Seq<GridPos>| #[trigger]
                    is_local_path(grid, min, max, start, end, other) implies cost <= other.len()
                    - 1 by {
                    let (ns, cs2) = lemma_path_is_walk(&space, min, max, start, end, other);
                    assert(is_walk(&space, ns, cs2));
                }
            }
            let mut path: Vec<GridPos> = Vec::new();
            let mut i: usize = 0;
            while i < nodes.len()
                invariant
                    space.valid(),
                    i <= nodes@.len(),
                    path@.len() == i,
                    forall|k: int| 0 <= k < nodes@.len() ==> (#[trigger] nodes@[k]) < space.w * space.h,
                    forall|k: int| 0 <= k < i ==> #[trigger] path@[k] == space.pos_of(nodes@[k] as int),
                decreases nodes@.len() - i,
            {
                path.push(space.cell(nodes[i]));
                i += 1;
            }
            proof {
                assert(path@ =~= cells_of(&space, nodes@));
            }
            Some((cost as u32, path))
        },
    }
}

} // verus!
