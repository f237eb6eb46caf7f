//! The flow field: for every cell of a grid the cheapest cost of reaching a
//! target, and the direction of the neighbour through which that cost falls.

use vstd::prelude::*;
use vstd::arithmetic::div_mod::{
    lemma_fundamental_div_mod, lemma_fundamental_div_mod_converse, lemma_mod_bound,
};
use crate::search::astar::{is_walk, step_ok, total, lemma_total_bound, SearchSpace};
use crate::search::explore::{
    closed, explore, explored, lemma_closed_covers_walks, lemma_distinct_nodes_bound, prefix_ok,
    tables_ok, witnessed,
};
use crate::grid::GridPos;

verus! {

/// The cost of a cell that cannot be entered.
pub const WALL: u8 = 255;

/// The integration value of a cell from which the target cannot be reached.
pub const UNREACHED: u64 = u64::MAX;

/// The most cells that a flow field can have.
pub const MAX_FLOW_CELLS: usize = 0xffff_ffff;

/// The cells `a` and `b`, numbered row by row in a grid `w` cells wide, lie
/// side by side or one above the other.
pub open spec fn next_to(w: int, a: int, b: int) -> bool {
    ||| a / w == b / w && (a + 1 == b || b + 1 == a)
    ||| a % w == b % w && (a + w == b || b + w == a)
}

/// The grid of costs of a flow field, seen as a graph: an edge leads from a
/// cell to each neighbour that is no wall, and costs what entering that
/// neighbour costs.
pub struct FlowSpace<'a> {
    pub costs: &'a Vec<u8>,
    pub width: usize,
    pub height: usize,
}

impl<'a> FlowSpace<'a> {
    pub open spec fn valid(&self) -> bool {
        &&& self.costs@.len() == self.width * self.height
        &&& self.width * self.height <= MAX_FLOW_CELLS
    }

    pub open spec fn entry(&self, to: int) -> Seq<(usize, u32)> {
        if self.costs@[to] < WALL {
            seq![(to as usize, self.costs@[to] as u32)]
        } else {
            Seq::empty()
        }
    }

    /// The edge to the cell below `n`.
    pub open spec fn below(&self, n: int) -> Seq<(usize, u32)> {
        if n / (self.width as int) + 1 < self.height {
            self.entry(n + self.width)
        } else {
            Seq::empty()
        }
    }

    /// The edge to the cell to the right of `n`.
    pub open spec fn right(&self, n: int) -> Seq<(usize, u32)> {
        if n % (self.width as int) + 1 < self.width {
            self.entry(n + 1)
        } else {
            Seq::empty()
        }
    }

    /// The edge to the cell above `n`.
    pub open spec fn above(&self, n: int) -> Seq<(usize, u32)> {
        if n / (self.width as int) >= 1 {
            self.entry(n - self.width)
        } else {
            Seq::empty()
        }
    }

    /// The edge to the cell to the left of `n`.
    pub open spec fn left(&self, n: int) -> Seq<(usize, u32)> {
        if n % (self.width as int) >= 1 {
            self.entry(n - 1)
        } else {
            Seq::empty()
        }
    }

    /// Where the cell `n` lies, and that its neighbours are cells.
    pub proof fn lemma_cell(&self, n: int)
        requires
            self.valid(),
            0 <= n < self.width * self.height,
        ensures
            0 < self.width,
            0 <= n % (self.width as int) < self.width,
            0 <= n / (self.width as int) < self.height,
            n == (n / (self.width as int)) * self.width + n % (self.width as int),
            n / (self.width as int) + 1 < self.height <==> n + self.width < self.width * self.height,
            n / (self.width as int) >= 1 <==> n - self.width >= 0,
            n % (self.width as int) + 1 < self.width ==> n + 1 < self.width * self.height && (n + 1)
                / (self.width as int) == n / (self.width as int) && (n + 1) % (self.width as int) == n
                % (self.width as int) + 1,
            n % (self.width as int) >= 1 ==> n - 1 >= 0 && (n - 1) / (self.width as int) == n / (
            self.width as int) && (n - 1) % (self.width as int) == n % (self.width as int) - 1,
            n + self.width < self.width * self.height ==> (n + self.width) / (self.width as int) == n
                / (self.width as int) + 1 && (n + self.width) % (self.width as int) == n % (
            self.width as int),
            n - self.width >= 0 ==> (n - self.width) / (self.width as int) == n / (self.width as int)
                - 1 && (n - self.width) % (self.width as int) == n % (self.width as int),
    {
        let w = self.width as int;
        let h = self.height as int;
        assert(0 < w) by (nonlinear_arith)
            requires
                0 <= n < w * h,
                0 <= w,
        ;
        lemma_fundamental_div_mod(n, w);
        lemma_mod_bound(n, w);
        let q = n / w;
        let r = n % w;
        assert(q * w == w * q) by (nonlinear_arith);
        assert(0 <= q < h) by (nonlinear_arith)
            requires
                n == w * q + r,
                0 <= r < w,
                0 <= n < w * h,
                0 < w,
        ;
        assert(q + 1 < h <==> n + w < w * h) by (nonlinear_arith)
            requires
                n == w * q + r,
                0 <= r < w,
                0 < w,
                0 <= q < h,
        ;
        assert(q >= 1 <==> n - w >= 0) by (nonlinear_arith)
            requires
                n == w * q + r,
                0 <= r < w,
                0 < w,
                0 <= q,
        ;
        if r + 1 < w {
            lemma_fundamental_div_mod_converse(n + 1, w, q, r + 1);
            assert(n + 1 < w * h) by (nonlinear_arith)
                requires
                    n == w * q + r,
                    0 <= r,
                    r + 1 < w,
                    0 <= q,
                    q + 1 <= h,
            ;
        }
        if r >= 1 {
            lemma_fundamental_div_mod_converse(n - 1, w, q, r - 1);
        }
        assert((q + 1) * w == q * w + w) by (nonlinear_arith);
        assert((q - 1) * w == q * w - w) by (nonlinear_arith);
        lemma_fundamental_div_mod_converse(n + w, w, q + 1, r);
        lemma_fundamental_div_mod_converse(n - w, w, q - 1, r);
    }

    /// Appends the edge into the cell `to`, unless it is a wall.
    fn push_entry(&self, out: &mut Vec<(usize, u32)>, to: usize)
        requires
            self.valid(),
            to < self.width * self.height,
        ensures
            final(out)@ == old(out)@ + self.entry(to as int),
            forall|j: int|
                0 <= j < final(out)@.len() && !(j < old(out)@.len()) ==> (#[trigger] final(out)@[j]).0
                    < self.width * self.height,
    {
        let cost = self.costs[to];
        if cost < WALL {
            out.push((to, cost as u32));
            proof {
                assert(final(out)@ =~= old(out)@ + self.entry(to as int));
            }
        } else {
            proof {
                assert(out@ =~= old(out)@ + self.entry(to as int));
            }
        }
    }
}

impl<'a> SearchSpace for FlowSpace<'a> {
    open spec fn wf(&self) -> bool {
        self.valid()
    }

    open spec fn node_count(&self) -> nat {
        (self.width * self.height) as nat
    }

    open spec fn edges(&self, node: int) -> Seq<(usize, u32)> {
        self.below(node) + self.right(node) + self.above(node) + self.left(node)
    }

    open spec fn estimate(&self, node: int) -> u32 {
        0
    }

    open spec fn goal(&self, node: int) -> bool {
        false
    }

    fn size(&self) -> (n: usize) {
        self.costs.len()
    }

    fn neighbors(&self, node: usize) -> (out: Vec<(usize, u32)>) {
        proof {
            self.lemma_cell(node as int);
        }
        let cx = node % self.width;
        let cy = node / self.width;
        let mut out: Vec<(usize, u32)> = Vec::new();
        if cy + 1 < self.height {
            self.push_entry(&mut out, node + self.width);
        }
        if cx + 1 < self.width {
            self.push_entry(&mut out, node + 1);
        }
        if cy >= 1 {
            self.push_entry(&mut out, node - self.width);
        }
        if cx >= 1 {
            self.push_entry(&mut out, node - 1);
        }
        proof {
            assert(out@ =~= self.edges(node as int));
        }
        out
    }

    fn heuristic(&self, node: usize) -> (h: u32) {
        0
    }

    fn is_goal(&self, node: usize) -> (b: bool) {
        false
    }
}

/// Step `i` of a route enters a neighbouring cell that is no wall.
pub open spec fn route_step(costs: Seq<u8>, w: int, route: Seq<int>, i: int) -> bool {
    &&& 0 <= route[i] < costs.len()
    &&& next_to(w, route[i - 1], route[i])
    &&& costs[route[i]] < WALL
}

/// `route` leads from the cell `target` to the cell `to`, from neighbour to
/// neighbour, and enters no wall.
pub open spec fn is_flow_route(costs: Seq<u8>, w: int, target: int, to: int, route: Seq<int>) -> bool {
    &&& route.len() >= 1
    &&& 0 <= target < costs.len()
    &&& route[0] == target
    &&& route.last() == to
    &&& forall|i: int| 1 <= i < route.len() ==> #[trigger] route_step(costs, w, route, i)
}

/// What a route costs: the costs of all the cells that it enters.
pub open spec fn route_cost(costs: Seq<u8>, route: Seq<int>) -> nat
    decreases route.len(),
{
    if route.len() <= 1 {
        0
    } else {
        route_cost(costs, route.drop_last()) + costs[route.last()] as nat
    }
}

/// The value of cell `c` is the cost of the cheapest route from the target
/// to `c`, or `UNREACHED` if there is no route.
pub open spec fn distance_ok(costs: Seq<u8>, w: int, target: int, integ: Seq<u64>, c: int) -> bool {
    if integ[c] == UNREACHED {
        forall|route: Seq<int>| !#[trigger] is_flow_route(costs, w, target, c, route)
    } else {
        &&& exists|route: Seq<int>| #[trigger]
            is_flow_route(costs, w, target, c, route) && route_cost(costs, route) == integ[c]
        &&& forall|route: Seq<int>| #[trigger]
            is_flow_route(costs, w, target, c, route) ==> integ[c] <= route_cost(costs, route)
    }
}

/// Every value is the cost of the cheapest route from the target.
pub open spec fn is_distance_field(costs: Seq<u8>, w: int, target: int, integ: Seq<u64>) -> bool {
    &&& integ.len() == costs.len()
    &&& forall|c: int| 0 <= c < costs.len() ==> #[trigger] distance_ok(costs, w, target, integ, c)
}

/// The cell numbers of a walk.
pub open spec fn cells_of_walk(nodes: Seq<usize>) -> Seq<int> {
    Seq::new(nodes.len(), |i: int| nodes[i] as int)
}

/// What an edge of the flow graph is: it enters a neighbour that is no wall,
/// at that neighbour's cost.
pub proof fn lemma_flow_edge(space: &FlowSpace, n: int, m: usize, c: u32)
    requires
        space.valid(),
        0 <= n < space.node_count(),
        space.edges(n).contains((m, c)),
    ensures
        m < space.node_count(),
        next_to(space.width as int, n, m as int),
        space.costs@[m as int] < WALL,
        c == space.costs@[m as int],
{
    space.lemma_cell(n);
    let s0 = space.below(n);
    let s1 = space.right(n);
    let s2 = space.above(n);
    let s3 = space.left(n);
    let all = space.edges(n);
    let k = choose|k: int| 0 <= k < all.len() && all[k] == (m, c);
    if k < s0.len() {
        assert(s0[k] == (m, c));
    } else if k < s0.len() + s1.len() {
        assert(s1[k - s0.len()] == (m, c));
    } else if k < s0.len() + s1.len() + s2.len() {
        assert(s2[k - s0.len() - s1.len()] == (m, c));
    } else {
        assert(s3[k - s0.len() - s1.len() - s2.len()] == (m, c));
    }
}

/// Entering a neighbour that is no wall is an edge of the flow graph.
pub proof fn lemma_flow_step(space: &FlowSpace, n: int, m: int)
    requires
        space.valid(),
        0 <= n < space.node_count(),
        0 <= m < space.node_count(),
        next_to(space.width as int, n, m),
        space.costs@[m] < WALL,
    ensures
        space.edges(n).contains((m as usize, space.costs@[m] as u32)),
{
    space.lemma_cell(n);
    space.lemma_cell(m);
    let e = (m as usize, space.costs@[m] as u32);
    let s0 = space.below(n);
    let s1 = space.right(n);
    let s2 = space.above(n);
    let s3 = space.left(n);
    let all = space.edges(n);
    if m == n + space.width {
        assert(s0[0] == e);
        assert(all[0] == e);
    } else if m == n + 1 {
        assert(s1[0] == e);
        assert(all[s0.len() as int] == e);
    } else if m == n - space.width {
        assert(s2[0] == e);
        assert(all[(s0.len() + s1.len()) as int] == e);
    } else {
        assert(m == n - 1);
        assert(s3[0] == e);
        assert(all[(s0.len() + s1.len() + s2.len()) as int] == e);
    }
}

/// A walk without its last step is a walk.
pub proof fn lemma_walk_drop_last<S: SearchSpace>(space: &S, nodes: Seq<usize>, costs: Seq<u32>)
    requires
        is_walk(space, nodes, costs),
        costs.len() >= 1,
    ensures
        is_walk(space, nodes.drop_last(), costs.drop_last()),
{
    let ns = nodes.drop_last();
    let cs = costs.drop_last();
    assert forall|i: int| 0 <= i < cs.len() implies #[trigger] step_ok(space, ns, cs, i) by {
        assert(step_ok(space, nodes, costs, i));
    }
}

/// A walk through the flow graph is a route, at the same cost.
pub proof fn lemma_walk_is_flow_route(space: &FlowSpace, nodes: Seq<usize>, costs: Seq<u32>)
    requires
        space.valid(),
        is_walk(space, nodes, costs),
    ensures
        is_flow_route(
            space.costs@,
            space.width as int,
            nodes[0] as int,
            nodes.last() as int,
            cells_of_walk(nodes),
        ),
        route_cost(space.costs@, cells_of_walk(nodes)) == total(costs),
    decreases nodes.len(),
{
    let route = cells_of_walk(nodes);
    assert(nodes[0] < space.node_count());
    assert forall|i: int| 1 <= i < route.len() implies #[trigger] route_step(
        space.costs@,
        space.width as int,
        route,
        i,
    ) by {
        assert(step_ok(space, nodes, costs, i - 1));
        assert(nodes[i - 1] < space.node_count());
        lemma_flow_edge(space, nodes[i - 1] as int, nodes[i], costs[i - 1]);
    }
    if costs.len() >= 1 {
        lemma_walk_drop_last(space, nodes, costs);
        lemma_walk_is_flow_route(space, nodes.drop_last(), costs.drop_last());
        assert(cells_of_walk(nodes.drop_last()) =~= route.drop_last());
        let last = costs.len() - 1;
        assert(step_ok(space, nodes, costs, last));
        assert(nodes[last] < space.node_count());
        lemma_flow_edge(space, nodes[last] as int, nodes[last + 1], costs[last]);
    }
}

/// A route is a walk through the flow graph, at the same cost.
pub proof fn lemma_flow_route_is_walk(space: &FlowSpace, target: int, to: int, route: Seq<int>) -> (r: (
    Seq<usize>,
    Seq<u32>,
))
    requires
        space.valid(),
        is_flow_route(space.costs@, space.width as int, target, to, route),
    ensures
        is_walk(space, r.0, r.1),
        r.0.len() == route.len(),
        r.0[0] == target,
        r.0.last() == to,
        total(r.1) == route_cost(space.costs@, route),
    decreases route.len(),
{
    if route.len() == 1 {
        let nodes = seq![target as usize];
        let costs = Seq::<u32>::empty();
        assert(is_walk(space, nodes, costs));
        (nodes, costs)
    } else {
        let front = route.drop_last();
        assert forall|i: int| 1 <= i < front.len() implies #[trigger] route_step(
            space.costs@,
            space.width as int,
            front,
            i,
        ) by {
            assert(route_step(space.costs@, space.width as int, route, i));
        }
        let (ns, cs) = lemma_flow_route_is_walk(space, target, front.last(), front);
        let last = route.len() - 1;
        assert(route_step(space.costs@, space.width as int, route, last));
        assert(ns.last() < space.node_count());
        lemma_flow_step(space, front.last(), route.last());
        let c = space.costs@[route.last()] as u32;
        crate::search::astar::lemma_walk_push(space, ns, cs, route.last() as usize, c);
        (ns.push(route.last() as usize), cs.push(c))
    }
}

/// The value that stands for a neighbour that is off the grid: more than
/// any value of a cell.
pub open spec fn off_grid() -> int {
    u64::MAX + 1
}

/// The value of the neighbour of cell `idx` in direction `d`: 0 is up, 1 is
/// right, 2 is down and 3 is left.
pub open spec fn neighbour_value(integ: Seq<u64>, w: int, h: int, idx: int, d: int) -> int {
    let x = idx % w;
    let y = idx / w;
    if d == 0 {
        if y >= 1 {
            integ[idx - w] as int
        } else {
            off_grid()
        }
    } else if d == 1 {
        if x + 1 < w {
            integ[idx + 1] as int
        } else {
            off_grid()
        }
    } else if d == 2 {
        if y + 1 < h {
            integ[idx + w] as int
        } else {
            off_grid()
        }
    } else {
        if x >= 1 {
            integ[idx - 1] as int
        } else {
            off_grid()
        }
    }
}

/// The step in direction `d`.
pub open spec fn direction(d: int) -> GridPos {
    if d == 0 {
        GridPos { x: 0, y: -1i32 }
    } else if d == 1 {
        GridPos { x: 1, y: 0 }
    } else if d == 2 {
        GridPos { x: 0, y: 1 }
    } else {
        GridPos { x: -1i32, y: 0 }
    }
}

/// The lowest value among the four neighbours of a cell.
pub open spec fn lowest_neighbour(integ: Seq<u64>, w: int, h: int, idx: int) -> int {
    let a = neighbour_value(integ, w, h, idx, 0);
    let b = neighbour_value(integ, w, h, idx, 1);
    let c = neighbour_value(integ, w, h, idx, 2);
    let d = neighbour_value(integ, w, h, idx, 3);
    let ab = if a <= b {
        a
    } else {
        b
    };
    let cd = if c <= d {
        c
    } else {
        d
    };
    if ab <= cd {
        ab
    } else {
        cd
    }
}

/// The first direction, in the order up, right, down, left, in which the
/// neighbour has the lowest value.
pub open spec fn first_lowest(integ: Seq<u64>, w: int, h: int, idx: int) -> int {
    let low = lowest_neighbour(integ, w, h, idx);
    if neighbour_value(integ, w, h, idx, 0) == low {
        0
    } else if neighbour_value(integ, w, h, idx, 1) == low {
        1
    } else if neighbour_value(integ, w, h, idx, 2) == low {
        2
    } else {
        3
    }
}

/// The gradient of a cell: no step for a wall, and for a cell none of whose
/// neighbours has a lower value than it; else the step towards the
/// neighbour with the lowest value, the first of them in the order up,
/// right, down, left.
pub open spec fn gradient_at(costs: Seq<u8>, integ: Seq<u64>, w: int, h: int, idx: int) -> GridPos {
    if costs[idx] == WALL {
        GridPos { x: 0, y: 0 }
    } else if lowest_neighbour(integ, w, h, idx) < integ[idx] {
        direction(first_lowest(integ, w, h, idx))
    } else {
        GridPos { x: 0, y: 0 }
    }
}

#[derive(Clone, Debug)]
pub struct FlowField {
    pub width: usize,
    pub height: usize,
    /// What entering each cell costs; `WALL` for a cell that cannot be
    /// entered.
    pub costs: Vec<u8>,
    /// The cost of the cheapest route from the target to each cell.
    pub integration: Vec<u64>,
    /// For each cell the step towards the target.
    pub vectors: Vec<GridPos>,
}

impl FlowField {
    /// The three tables have one entry for each cell.
    pub open spec fn wf(&self) -> bool {
        &&& self.width * self.height <= MAX_FLOW_CELLS
        &&& self.costs@.len() == self.width * self.height
        &&& self.integration@.len() == self.width * self.height
        &&& self.vectors@.len() == self.width * self.height
    }

    /// Every cell has the gradient of its value.
    pub open spec fn gradients_ok(&self) -> bool {
        forall|idx: int|
            0 <= idx < self.vectors@.len() ==> #[trigger] self.vectors@[idx] == gradient_at(
                self.costs@,
                self.integration@,
                self.width as int,
                self.height as int,
                idx,
            )
    }

    /// A field in which every cell costs 1 to enter and none has been
    /// reached.
    pub fn new(width: usize, height: usize) -> (field: FlowField)
        requires
            width * height <= MAX_FLOW_CELLS,
        ensures
            field.wf(),
            field.width == width,
            field.height == height,
            forall|i: int| 0 <= i < field.costs@.len() ==> #[trigger] field.costs@[i] == 1,
            forall|i: int|
                0 <= i < field.integration@.len() ==> #[trigger] field.integration@[i] == UNREACHED,
            forall|i: int|
                0 <= i < field.vectors@.len() ==> #[trigger] field.vectors@[i] == (GridPos {
                    x: 0,
                    y: 0,
                }),
    {
        let size = width * height;
        FlowField {
            width,
            height,
            costs: crate::search::explore::filled(1u8, size),
            integration: crate::search::explore::filled(UNREACHED, size),
            vectors: crate::search::explore::filled(GridPos { x: 0, y: 0 }, size),
        }
    }

    /// Makes the cell a wall, or a cell that costs 1 to enter. A cell off the
    /// grid is left alone.
    pub fn set_obstacle(&mut self, x: usize, y: usize, is_wall: bool)
        requires
            old(self).wf(),
        ensures
            final(self).wf(),
            final(self).width == old(self).width,
            final(self).height == old(self).height,
            final(self).integration@ == old(self).integration@,
            final(self).vectors@ == old(self).vectors@,
            x < old(self).width && y < old(self).height ==> final(self).costs@ == old(self).costs@.update(
                y * old(self).width + x,
                if is_wall {
                    WALL
                } else {
                    1u8
                },
            ),
            !(x < old(self).width && y < old(self).height) ==> final(self).costs@ == old(self).costs@,
    {
        if x < self.width && y < self.height {
            proof {
                crate::grid::lemma_cell_index_bound(
                    x as int,
                    y as int,
                    self.width as int,
                    self.height as int,
                );
            }
            let value: u8 = if is_wall {
                WALL
            } else {
                1
            };
            self.costs.set(y * self.width + x, value);
        }
    }

    /// The cell (`x`, `y`) lies on the grid.
    pub open spec fn on_grid(&self, x: i64, y: i64) -> bool {
        0 <= x < self.width && 0 <= y < self.height
    }

    /// Whether the cell (`x`, `y`) lies on the grid.
    pub fn is_on_grid(&self, x: i64, y: i64) -> (b: bool)
        ensures
            b == self.on_grid(x, y),
    {
        x >= 0 && y >= 0 && (x as u64) < (self.width as u64) && (y as u64) < (self.height as u64)
    }

    /// The step towards the target at the cell (`x`, `y`); no step off the
    /// grid, on whichever side.
    pub fn get_direction(&self, x: i64, y: i64) -> (dir: GridPos)
        requires
            self.wf(),
        ensures
            self.on_grid(x, y) ==> dir == self.vectors@[y * self.width + x],
            !self.on_grid(x, y) ==> dir == (GridPos { x: 0, y: 0 }),
    {
        if !self.is_on_grid(x, y) {
            return GridPos { x: 0, y: 0 };
        }
        proof {
            crate::grid::lemma_cell_index_bound(
                x as int,
                y as int,
                self.width as int,
                self.height as int,
            );
        }
        self.vectors[(y as usize) * self.width + (x as usize)]
    }

    /// Gives every cell the gradient of its value.
    pub fn generate_vectors(&mut self)
        requires
            old(self).wf(),
        ensures
            final(self).wf(),
            final(self).width == old(self).width,
            final(self).height == old(self).height,
            final(self).costs@ == old(self).costs@,
            final(self).integration@ == old(self).integration@,
            final(self).gradients_ok(),
    {
        let mut idx: usize = 0;
        let mut y: usize = 0;
        proof {
            assert(0 * self.width == 0);
        }
        while y < self.height
            invariant
                self.wf(),
                self.width == old(self).width,
                self.height == old(self).height,
                self.costs@ == old(self).costs@,
                self.integration@ == old(self).integration@,
                y <= self.height,
                idx == y * self.width,
                forall|k: int|
                    0 <= k < idx ==> #[trigger] self.vectors@[k] == gradient_at(
                        self.costs@,
                        self.integration@,
                        self.width as int,
                        self.height as int,
                        k,
                    ),
            decreases self.height - y,
        {
            let mut x: usize = 0;
            while x < self.width
                invariant
                    self.wf(),
                    self.width == old(self).width,
                    self.height == old(self).height,
                    self.costs@ == old(self).costs@,
                    self.integration@ == old(self).integration@,
                    y < self.height,
                    x <= self.width,
                    idx == y * self.width + x,
                    forall|k: int|
                        0 <= k < idx ==> #[trigger] self.vectors@[k] == gradient_at(
                            self.costs@,
                            self.integration@,
                            self.width as int,
                            self.height as int,
                            k,
                        ),
                decreases self.width - x,
            {
                proof {
                    crate::grid::lemma_cell_index_bound(
                        x as int,
                        y as int,
                        self.width as int,
                        self.height as int,
                    );
                    lemma_fundamental_div_mod_converse(
                        idx as int,
                        self.width as int,
                        y as int,
                        x as int,
                    );
                    let space = FlowSpace { costs: &self.costs, width: self.width, height: self.height };
                    space.lemma_cell(idx as int);
                }
                let mut grad = GridPos { x: 0, y: 0 };
                if self.costs[idx] != WALL {
                    let mut best_cost = self.integration[idx];
                    if y >= 1 {
                        let n_cost = self.integration[idx - self.width];
                        if n_cost < best_cost {
                            best_cost = n_cost;
                            grad = GridPos { x: 0, y: -1 };
                        }
                    }
                    if x + 1 < self.width {
                        let n_cost = self.integration[idx + 1];
                        if n_cost < best_cost {
                            best_cost = n_cost;
                            grad = GridPos { x: 1, y: 0 };
                        }
                    }
                    if y + 1 < self.height {
                        let n_cost = self.integration[idx + self.width];
                        if n_cost < best_cost {
                            best_cost = n_cost;
                            grad = GridPos { x: 0, y: 1 };
                        }
                    }
                    if x >= 1 {
                        let n_cost = self.integration[idx - 1];
                        if n_cost < best_cost {
                            best_cost = n_cost;
                            grad = GridPos { x: -1, y: 0 };
                        }
                    }
                }
                proof {
                    assert(grad == gradient_at(
                        self.costs@,
                        self.integration@,
                        self.width as int,
                        self.height as int,
                        idx as int,
                    ));
                }
                self.vectors.set(idx, grad);
                x += 1;
                idx += 1;
            }
            proof {
                assert((y + 1) * self.width == y * self.width + self.width) by (nonlinear_arith);
            }
            y += 1;
        }
        proof {
            assert(self.height * self.width == self.width * self.height) by (nonlinear_arith);
        }
    }
}

/// What an exhaustive exploration of the flow graph says of one cell is its
/// distance from the target.
pub proof fn lemma_explored_distance(
    space: &FlowSpace,
    target: int,
    best: Seq<Option<u64>>,
    prev: Seq<Option<usize>>,
    tr: crate::search::explore::Trace,
    integ: Seq<u64>,
    c: int,
)
    requires
        space.valid(),
        tables_ok(space, target, best, prev, tr),
        forall|k: int|
            0 <= k < space.node_count() && (#[trigger] best[k]) is Some ==> closed(space, best, k),
        0 <= c < space.node_count(),
        integ.len() == space.node_count(),
        best[c] matches Some(v) ==> integ[c] == v,
        best[c] is None ==> integ[c] == UNREACHED,
    ensures
        distance_ok(space.costs@, space.width as int, target, integ, c),
        best[c] is Some ==> integ[c] < UNREACHED,
{
    let costs = space.costs@;
    let w = space.width as int;
    if best[c] is Some {
        assert(witnessed(space, target, best, tr, c));
        let ns = tr.walk_nodes[c];
        let cs = tr.walk_costs[c];
        lemma_walk_is_flow_route(space, ns, cs);
        lemma_distinct_nodes_bound(ns, space.node_count());
        lemma_total_bound(cs);
        let len = cs.len() as int;
        assert(len * 0xffff_ffff < 0xffff_ffff_ffff_ffff) by (nonlinear_arith)
            requires
                0 <= len < 0xffff_ffff,
        ;
        assert(is_flow_route(costs, w, target, c, cells_of_walk(ns)));
        assert forall|route: Seq<int>| #[trigger] is_flow_route(costs, w, target, c, route) implies integ[c]
            <= route_cost(costs, route) by {
            let (rn, rc) = lemma_flow_route_is_walk(space, target, c, route);
            lemma_closed_covers_walks(space, target, best, rn, rc, rn.len() - 1);
            assert(prefix_ok(best, rn, rc, rn.len() - 1));
            assert(rc.take(rn.len() - 1) =~= rc);
        }
    } else {
        assert forall|route: Seq<int>| !#[trigger] is_flow_route(costs, w, target, c, route) by {
            if is_flow_route(costs, w, target, c, route) {
                let (rn, rc) = lemma_flow_route_is_walk(space, target, c, route);
                lemma_closed_covers_walks(space, target, best, rn, rc, rn.len() - 1);
                assert(prefix_ok(best, rn, rc, rn.len() - 1));
            }
        }
    }
}

impl FlowField {
    /// What `generate_target` leaves behind for a target on the grid: the
    /// costs as they were, the distance of every cell from the target, and
    /// the gradient of every cell.
    pub open spec fn retargeted(&self, before: &FlowField, tx: usize, ty: usize) -> bool {
        &&& self.wf()
        &&& self.width == before.width
        &&& self.height == before.height
        &&& self.costs@ == before.costs@
        &&& is_distance_field(
            self.costs@,
            self.width as int,
            ty * self.width + tx,
            self.integration@,
        )
        &&& self.gradients_ok()
    }

    /// Aims the field at the cell (`x`, `y`): every cell gets the cost of
    /// the cheapest route from the target to it, and the step towards the
    /// neighbour through which that cost falls. A target off the grid, on
    /// whichever side, leaves the field as it is.
    pub fn generate_target(&mut self, x: i64, y: i64)
        requires
            old(self).wf(),
        ensures
            old(self).on_grid(x, y) ==> final(self).retargeted(old(self), x as usize, y as usize),
            !old(self).on_grid(x, y) ==> *final(self) == *old(self),
    {
        if !self.is_on_grid(x, y) {
            return ;
        }
        let tx = x as usize;
        let ty = y as usize;
        proof {
            crate::grid::lemma_cell_index_bound(
                tx as int,
                ty as int,
                self.width as int,
                self.height as int,
            );
        }
        let target_idx = ty * self.width + tx;
        let space = FlowSpace { costs: &self.costs, width: self.width, height: self.height };
        let (ex, Ghost(tr)) = explore(&space, target_idx);
        let ghost costs = self.costs@;
        let ghost w = self.width as int;
        let size = self.integration.len();
        let mut c: usize = 0;
        while c < size
            invariant
                self.wf(),
                self.width == old(self).width,
                self.height == old(self).height,
                self.costs@ == old(self).costs@,
                costs == self.costs@,
                w == self.width,
                size == self.integration@.len(),
                target_idx == ty * self.width + tx,
                space.costs@ == self.costs@,
                space.width == self.width,
                space.height == self.height,
                explored(&space, target_idx as int, ex, tr),
                ex.found is None,
                c <= size,
                forall|k: int|
                    0 <= k < c ==> #[trigger] distance_ok(costs, w, target_idx as int, self.integration@, k),
            decreases size - c,
        {
            let value = match ex.best[c] {
                Some(v) => v,
                None => UNREACHED,
            };
            let ghost before = self.integration@;
            self.integration.set(c, value);
            proof {
                lemma_explored_distance(
                    &space,
                    target_idx as int,
                    ex.best@,
                    ex.came_from@,
                    tr,
                    self.integration@,
                    c as int,
                );
                assert forall|k: int| 0 <= k < c + 1 implies #[trigger] distance_ok(
                    costs,
                    w,
                    target_idx as int,
                    self.integration@,
                    k,
                ) by {
                    if k < c {
                        assert(distance_ok(costs, w, target_idx as int, before, k));
                        assert(self.integration@[k] == before[k]);
                    }
                }
            }
            c += 1;
        }
        self.generate_vectors();
    }
}

pub proof fn lemma_route_cost_push(costs: Seq<u8>, route: Seq<int>, c: int)
    requires
        route.len() >= 1,
    ensures
        route_cost(costs, route.push(c)) == route_cost(costs, route) + costs[c],
{
    assert(route.push(c).drop_last() =~= route);
}

/// In a distance field no cell that was reached lies further from the target
/// than a neighbour of it and the cost of entering the cell from there.
pub proof fn lemma_distance_field_relaxed(
    costs: Seq<u8>,
    w: int,
    target: int,
    integ: Seq<u64>,
    c: int,
    n: int,
)
    requires
        is_distance_field(costs, w, target, integ),
        0 <= c < costs.len(),
        0 <= n < costs.len(),
        next_to(w, n, c),
        integ[c] != UNREACHED,
    ensures
        integ[c] <= integ[n] + costs[c],
{
    assert(distance_ok(costs, w, target, integ, c));
    assert(distance_ok(costs, w, target, integ, n));
    if integ[n] != UNREACHED {
        let rn = choose|route: Seq<int>| #[trigger]
            is_flow_route(costs, w, target, n, route) && route_cost(costs, route) == integ[n];
        if costs[c] < WALL {
            let rc = rn.push(c);
            lemma_route_cost_push(costs, rn, c);
            assert forall|i: int| 1 <= i < rc.len() implies #[trigger] route_step(costs, w, rc, i) by {
                if i < rn.len() {
                    assert(route_step(costs, w, rn, i));
                }
            }
            assert(is_flow_route(costs, w, target, c, rc));
        } else {
            let own = choose|route: Seq<int>| #[trigger]
                is_flow_route(costs, w, target, c, route) && route_cost(costs, route) == integ[c];
            if own.len() > 1 {
                assert(route_step(costs, w, own, own.len() - 1));
            }
        }
    }
}

/// The gradient of a cell that is no wall is no step, or the step to a
/// neighbour on the grid whose value is lower than the value of the cell.
pub proof fn lemma_gradient_descends(costs: Seq<u8>, integ: Seq<u64>, w: int, h: int, idx: int)
    requires
        0 < w,
        0 <= idx < w * h,
        costs.len() == w * h,
        integ.len() == w * h,
    ensures
        ({
            let g = gradient_at(costs, integ, w, h, idx);
            let n = idx + g.x + g.y * w;
            g == (GridPos { x: 0, y: 0 }) || (costs[idx] != WALL && 0 <= n < w * h && next_to(w, idx, n)
                && integ[n] < integ[idx])
        }),
{
    let g = gradient_at(costs, integ, w, h, idx);
    if g != (GridPos { x: 0, y: 0 }) {
        lemma_fundamental_div_mod(idx, w);
        lemma_mod_bound(idx, w);
        let q = idx / w;
        let r = idx % w;
        assert(q * w == w * q) by (nonlinear_arith);
        assert(0 <= q < h) by (nonlinear_arith)
            requires
                idx == w * q + r,
                0 <= r < w,
                0 <= idx < w * h,
                0 < w,
        ;
        let d = first_lowest(integ, w, h, idx);
        assert(neighbour_value(integ, w, h, idx, d) < integ[idx]);
        assert(1 * w == w);
        assert((-1) * w == -w);
        assert(0 * w == 0);
        if d == 0 {
            assert((q - 1) * w == q * w - w) by (nonlinear_arith);
            lemma_fundamental_div_mod_converse(idx - w, w, q - 1, r);
        } else if d == 1 {
            lemma_fundamental_div_mod_converse(idx + 1, w, q, r + 1);
            assert(idx + 1 < w * h) by (nonlinear_arith)
                requires
                    idx == w * q + r,
                    0 <= r,
                    r + 1 < w,
                    0 <= q,
                    q + 1 <= h,
            ;
        } else if d == 2 {
            assert((q + 1) * w == q * w + w) by (nonlinear_arith);
            lemma_fundamental_div_mod_converse(idx + w, w, q + 1, r);
            assert(idx + w < w * h) by (nonlinear_arith)
                requires
                    idx == w * q + r,
                    0 <= r < w,
                    0 <= q,
                    q + 2 <= h,
            ;
        } else {
            lemma_fundamental_div_mod_converse(idx - 1, w, q, r - 1);
        }
    }
}

/// Two distance fields of the same costs and the same target are equal.
pub proof fn lemma_distance_field_unique(
    costs: Seq<u8>,
    w: int,
    target: int,
    a: Seq<u64>,
    b: Seq<u64>,
)
    requires
        is_distance_field(costs, w, target, a),
        is_distance_field(costs, w, target, b),
    ensures
        a == b,
{
    assert forall|c: int| 0 <= c < a.len() implies a[c] == b[c] by {
        assert(distance_ok(costs, w, target, a, c));
        assert(distance_ok(costs, w, target, b, c));
        if a[c] != UNREACHED {
            let ra = choose|route: Seq<int>| #[trigger]
                is_flow_route(costs, w, target, c, route) && route_cost(costs, route) == a[c];
            assert(is_flow_route(costs, w, target, c, ra));
        }
        if b[c] != UNREACHED {
            let rb = choose|route: Seq<int>| #[trigger]
                is_flow_route(costs, w, target, c, route) && route_cost(costs, route) == b[c];
            assert(is_flow_route(costs, w, target, c, rb));
        }
    }
    assert(a =~= b);
}

/// Retargeting is deterministic: two fields with the same costs, aimed at
/// the same cell of the grid, end with the same values and the same steps
/// in every cell.
pub proof fn lemma_retarget_deterministic(
    a0: &FlowField,
    a: &FlowField,
    b0: &FlowField,
    b: &FlowField,
    tx: usize,
    ty: usize,
)
    requires
        a0.width == b0.width,
        a0.height == b0.height,
        a0.costs@ == b0.costs@,
        tx < a0.width,
        ty < a0.height,
        a.retargeted(a0, tx, ty),
        b.retargeted(b0, tx, ty),
    ensures
        a.integration@ == b.integration@,
        a.vectors@ == b.vectors@,
{
    lemma_distance_field_unique(
        a.costs@,
        a.width as int,
        ty * a.width + tx,
        a.integration@,
        b.integration@,
    );
    assert(a.vectors@ =~= b.vectors@);
}

} // verus!
