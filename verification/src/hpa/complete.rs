//! Why the portals suffice: wherever a path leads from a cell to a cell of
//! another cluster, a chain of portals leads there too.

use vstd::prelude::*;
use crate::grid::{adjacent, GridMap, GridPos};
use crate::hpa::{
    cluster_hi, cluster_index, cluster_lo, cluster_of, clusters_across, dims_ok, has_cached_edge,
    ids_in, intra_complete, lemma_cell_in_cluster, lemma_cluster_index_injective, lemma_div_facts,
    lemma_ids_in, listing_ok, HPAGrid, PortalId, PortalNode,
};
use crate::hpa::edges::{
    has_step, inter_complete, inter_row, mirrored, rows_exact,
};
use crate::hpa::route::is_grid_path;
use crate::hpa::local::{in_box, is_local_path, locally_connected, path_step};
use crate::hpa::portals::{
    along, all_portals, borders, lemma_div_unique, lemma_horizontal_border, lemma_vertical_border,
    lower_border, pairs_of, right_border, side_portals, span, stacked_portals, with_border,
    Line,
};

verus! {

/// A stretch begins on the line, at or before its last cell.
pub proof fn lemma_run_start_bounds(line: Line, grid: &GridMap, k: int)
    requires
        0 <= k,
    ensures
        0 <= line.run_start(grid, k) <= k,
    decreases k,
{
    if k > 0 && line.passable(grid, k - 1) {
        lemma_run_start_bounds(line, grid, k - 1);
    }
}

/// Every cell from the start of a stretch to its last cell can be crossed.
pub proof fn lemma_run_is_passable(line: Line, grid: &GridMap, k: int, j: int)
    requires
        0 <= k,
        line.passable(grid, k),
        line.run_start(grid, k) <= j <= k,
    ensures
        line.passable(grid, j),
    decreases k,
{
    if k > 0 && line.passable(grid, k - 1) && j < k {
        lemma_run_is_passable(line, grid, k - 1, j);
    }
}

/// Every cell between `a` and `b` can be crossed.
pub open spec fn passable_between(line: Line, grid: &GridMap, a: int, b: int) -> bool {
    forall|j: int| (a <= j <= b || b <= j <= a) ==> #[trigger] line.passable(grid, j)
}

/// A cell of a line at which the border can be crossed lies in a stretch
/// that has a marked cell.
pub proof fn lemma_mark_in_run(line: Line, grid: &GridMap, n: int, i: int) -> (m: int)
    requires
        0 <= i < n,
        line.passable(grid, i),
    ensures
        0 <= m < n,
        line.marks(grid, n).contains(m),
        passable_between(line, grid, i, m),
    decreases n,
{
    if !line.passable(grid, n - 1) {
        let m = lemma_mark_in_run(line, grid, n - 1, i);
        m
    } else {
        let s = line.run_start(grid, n - 1);
        lemma_run_start_bounds(line, grid, n - 1);
        let run = Line::marks_of_run(s, n - s);
        let all = line.marks(grid, n);
        assert(all == line.marks(grid, s) + run);
        if i < s {
            let m = lemma_mark_in_run(line, grid, s, i);
            let k = choose|k: int| 0 <= k < line.marks(grid, s).len() && line.marks(grid, s)[k] == m;
            assert(all[k] == m);
            m
        } else {
            let m = run[0];
            assert(all[line.marks(grid, s).len() as int] == m);
            assert(s <= m < n);
            assert forall|j: int| (i <= j <= m || m <= j <= i) implies #[trigger] line.passable(
                grid,
                j,
            ) by {
                lemma_run_is_passable(line, grid, n - 1, j);
            }
            m
        }
    }
}


/// A portal of cluster `cluster` lies on the cell `pos`.
pub open spec fn has_portal(portals: Seq<PortalNode>, pos: GridPos, cluster: GridPos) -> bool {
    exists|k: int|
        0 <= k < portals.len() && (#[trigger] portals[k]).pos == pos && portals[k].cluster_xy == cluster
}

/// The portals of a border hold a pair for each of its marked cells.
pub proof fn lemma_with_border_has_pair(
    before: Seq<PortalNode>,
    grid: &GridMap,
    line: Line,
    n: int,
    c1: GridPos,
    c2: GridPos,
    m: int,
)
    requires
        line.marks(grid, n).contains(m),
    ensures
        has_portal(with_border(before, grid, line, n, c1, c2), line.cell(m), c1),
        has_portal(with_border(before, grid, line, n, c1, c2), line.far(m), c2),
{
    let marks = line.marks(grid, n);
    let after = with_border(before, grid, line, n, c1, c2);
    let pairs = pairs_of(line, marks, c1, c2, before.len() as int);
    let j = choose|j: int| 0 <= j < marks.len() && marks[j] == m;
    assert(after[before.len() + 2 * j] == pairs[2 * j]);
    assert(after[before.len() + 2 * j + 1] == pairs[2 * j + 1]);
    assert((2 * j) % 2 == 0 && (2 * j) / 2 == j);
    assert((2 * j + 1) % 2 == 1 && (2 * j + 1) / 2 == j);
}

/// The portals that were there before a border remain.
pub proof fn lemma_with_border_keeps(
    before: Seq<PortalNode>,
    grid: &GridMap,
    line: Line,
    n: int,
    c1: GridPos,
    c2: GridPos,
    pos: GridPos,
    cluster: GridPos,
)
    requires
        has_portal(before, pos, cluster),
    ensures
        has_portal(with_border(before, grid, line, n, c1, c2), pos, cluster),
{
    let after = with_border(before, grid, line, n, c1, c2);
    let k = choose|k: int|
        0 <= k < before.len() && (#[trigger] before[k]).pos == pos && before[k].cluster_xy == cluster;
    assert(after[k] == before[k]);
}

/// The cluster (`cx`, `cy`) comes before the cluster (`to_cx`, `to_cy`)
/// where clusters are gone through column by column.
pub open spec fn comes_before(cx: int, cy: int, to_cx: int, to_cy: int) -> bool {
    cx < to_cx || (cx == to_cx && cy < to_cy)
}

/// The portals of the borders between clusters side by side hold a pair for
/// every marked cell of every border that has been gone through.
pub proof fn lemma_side_portals_hold(
    grid: &GridMap,
    size: int,
    to_cx: int,
    to_cy: int,
    cx: int,
    cy: int,
    m: int,
)
    requires
        0 <= cx,
        0 <= cy < clusters_across(grid.height as int, size),
        0 <= to_cx,
        0 <= to_cy <= clusters_across(grid.height as int, size),
        comes_before(cx, cy, to_cx, to_cy),
        right_border(size, cx, cy).marks(grid, span(grid.height as int, size, cy)).contains(m),
    ensures
        has_portal(
            side_portals(grid, size, to_cx, to_cy),
            right_border(size, cx, cy).cell(m),
            GridPos { x: cx as i32, y: cy as i32 },
        ),
        has_portal(
            side_portals(grid, size, to_cx, to_cy),
            right_border(size, cx, cy).far(m),
            GridPos { x: (cx + 1) as i32, y: cy as i32 },
        ),
    decreases to_cx, to_cy,
{
    let rows = clusters_across(grid.height as int, size);
    if to_cy == 0 {
        lemma_side_portals_hold(grid, size, to_cx - 1, rows, cx, cy, m);
    } else {
        let before = side_portals(grid, size, to_cx, to_cy - 1);
        let line = right_border(size, to_cx, to_cy - 1);
        let n = span(grid.height as int, size, to_cy - 1);
        let c1 = GridPos { x: to_cx as i32, y: (to_cy - 1) as i32 };
        let c2 = GridPos { x: (to_cx + 1) as i32, y: (to_cy - 1) as i32 };
        if cx == to_cx && cy == to_cy - 1 {
            lemma_with_border_has_pair(before, grid, line, n, c1, c2, m);
        } else {
            lemma_side_portals_hold(grid, size, to_cx, to_cy - 1, cx, cy, m);
            lemma_with_border_keeps(
                before,
                grid,
                line,
                n,
                c1,
                c2,
                right_border(size, cx, cy).cell(m),
                GridPos { x: cx as i32, y: cy as i32 },
            );
            lemma_with_border_keeps(
                before,
                grid,
                line,
                n,
                c1,
                c2,
                right_border(size, cx, cy).far(m),
                GridPos { x: (cx + 1) as i32, y: cy as i32 },
            );
        }
    }
}

/// Whatever portal the borders between clusters side by side have, the
/// whole list has.
pub proof fn lemma_stacked_keeps_side(
    grid: &GridMap,
    size: int,
    to_cx: int,
    to_cy: int,
    pos: GridPos,
    cluster: GridPos,
)
    requires
        0 <= to_cx,
        0 <= to_cy,
        has_portal(
            side_portals(grid, size, borders(clusters_across(grid.width as int, size)), 0),
            pos,
            cluster,
        ),
    ensures
        has_portal(stacked_portals(grid, size, to_cx, to_cy), pos, cluster),
    decreases to_cx, to_cy,
{
    let rows = clusters_across(grid.height as int, size);
    if to_cy == 0 {
        if to_cx > 0 {
            lemma_stacked_keeps_side(grid, size, to_cx - 1, borders(rows), pos, cluster);
        }
    } else {
        lemma_stacked_keeps_side(grid, size, to_cx, to_cy - 1, pos, cluster);
        lemma_with_border_keeps(
            stacked_portals(grid, size, to_cx, to_cy - 1),
            grid,
            lower_border(size, to_cx, to_cy - 1),
            span(grid.width as int, size, to_cx),
            GridPos { x: to_cx as i32, y: (to_cy - 1) as i32 },
            GridPos { x: to_cx as i32, y: to_cy as i32 },
            pos,
            cluster,
        );
    }
}

/// The portals of the borders between clusters one above the other hold a
/// pair for every marked cell of every border that has been gone through.
pub proof fn lemma_stacked_portals_hold(
    grid: &GridMap,
    size: int,
    to_cx: int,
    to_cy: int,
    cx: int,
    cy: int,
    m: int,
)
    requires
        0 <= cx,
        0 <= cy < borders(clusters_across(grid.height as int, size)),
        0 <= to_cx,
        0 <= to_cy <= borders(clusters_across(grid.height as int, size)),
        comes_before(cx, cy, to_cx, to_cy),
        lower_border(size, cx, cy).marks(grid, span(grid.width as int, size, cx)).contains(m),
    ensures
        has_portal(
            stacked_portals(grid, size, to_cx, to_cy),
            lower_border(size, cx, cy).cell(m),
            GridPos { x: cx as i32, y: cy as i32 },
        ),
        has_portal(
            stacked_portals(grid, size, to_cx, to_cy),
            lower_border(size, cx, cy).far(m),
            GridPos { x: cx as i32, y: (cy + 1) as i32 },
        ),
    decreases to_cx, to_cy,
{
    let rows = clusters_across(grid.height as int, size);
    if to_cy == 0 {
        lemma_stacked_portals_hold(grid, size, to_cx - 1, borders(rows), cx, cy, m);
    } else {
        let before = stacked_portals(grid, size, to_cx, to_cy - 1);
        let line = lower_border(size, to_cx, to_cy - 1);
        let n = span(grid.width as int, size, to_cx);
        let c1 = GridPos { x: to_cx as i32, y: (to_cy - 1) as i32 };
        let c2 = GridPos { x: to_cx as i32, y: to_cy as i32 };
        if cx == to_cx && cy == to_cy - 1 {
            lemma_with_border_has_pair(before, grid, line, n, c1, c2, m);
        } else {
            lemma_stacked_portals_hold(grid, size, to_cx, to_cy - 1, cx, cy, m);
            lemma_with_border_keeps(
                before,
                grid,
                line,
                n,
                c1,
                c2,
                lower_border(size, cx, cy).cell(m),
                GridPos { x: cx as i32, y: cy as i32 },
            );
            lemma_with_border_keeps(
                before,
                grid,
                line,
                n,
                c1,
                c2,
                lower_border(size, cx, cy).far(m),
                GridPos { x: cx as i32, y: (cy + 1) as i32 },
            );
        }
    }
}

/// A border between two clusters: that of the cluster (`cx`, `cy`) with its
/// right neighbour, or with its lower neighbour.
pub struct Border {
    pub to_the_right: bool,
    pub cx: int,
    pub cy: int,
}

impl Border {
    /// Both clusters are clusters of the grid.
    pub open spec fn valid(self, grid: &GridMap, size: int) -> bool {
        let columns = clusters_across(grid.width as int, size);
        let rows = clusters_across(grid.height as int, size);
        if self.to_the_right {
            0 <= self.cx < columns - 1 && 0 <= self.cy < rows
        } else {
            0 <= self.cx < columns && 0 <= self.cy < rows - 1
        }
    }

    pub open spec fn line(self, size: int) -> Line {
        if self.to_the_right {
            right_border(size, self.cx, self.cy)
        } else {
            lower_border(size, self.cx, self.cy)
        }
    }

    /// The number of cells along the border.
    pub open spec fn len(self, grid: &GridMap, size: int) -> int {
        if self.to_the_right {
            span(grid.height as int, size, self.cy)
        } else {
            span(grid.width as int, size, self.cx)
        }
    }

    /// The cluster whose cells are the cells of the line.
    pub open spec fn near(self) -> GridPos {
        GridPos { x: self.cx as i32, y: self.cy as i32 }
    }

    /// The cluster across the border.
    pub open spec fn beyond(self) -> GridPos {
        if self.to_the_right {
            GridPos { x: (self.cx + 1) as i32, y: self.cy as i32 }
        } else {
            GridPos { x: self.cx as i32, y: (self.cy + 1) as i32 }
        }
    }

    /// The line of a border of the grid lies on the grid, in the one
    /// cluster, with the other cluster across.
    pub proof fn lemma_line(self, grid: &GridMap, size: int)
        requires
            dims_ok(grid, size),
            self.valid(grid, size),
        ensures
            self.line(size).axis_ok(),
            self.line(size).fits(self.len(grid, size)),
            0 < self.len(grid, size) <= size,
            along(size, self.line(size), self.len(grid, size), self.near(), self.beyond()),
            0 <= self.near().x < clusters_across(grid.width as int, size),
            0 <= self.near().y < clusters_across(grid.height as int, size),
            0 <= self.beyond().x < clusters_across(grid.width as int, size),
            0 <= self.beyond().y < clusters_across(grid.height as int, size),
    {
        let w = grid.width as int;
        let h = grid.height as int;
        crate::hpa::lemma_cluster_start(self.cx, w, size);
        crate::hpa::lemma_cluster_start(self.cy, h, size);
        crate::hpa::portals::lemma_sides(w, h);
        crate::hpa::portals::lemma_clusters_cover(w, size);
        crate::hpa::portals::lemma_clusters_cover(h, size);
        lemma_div_facts(w - 1, w, size);
        lemma_div_facts(h - 1, h, size);
        if self.to_the_right {
            crate::hpa::lemma_cluster_start(self.cx + 1, w, size);
            lemma_vertical_border(grid, size, self.cx, self.cy, self.len(grid, size));
        } else {
            crate::hpa::lemma_cluster_start(self.cy + 1, h, size);
            lemma_horizontal_border(grid, size, self.cx, self.cy, self.len(grid, size));
        }
    }
}

/// The portals of a grid hold a pair for every marked cell of every border.
pub proof fn lemma_marks_have_portals(grid: &GridMap, size: int, border: Border, m: int)
    requires
        dims_ok(grid, size),
        border.valid(grid, size),
        border.line(size).marks(grid, border.len(grid, size)).contains(m),
    ensures
        has_portal(all_portals(grid, size), border.line(size).cell(m), border.near()),
        has_portal(all_portals(grid, size), border.line(size).far(m), border.beyond()),
{
    let columns = clusters_across(grid.width as int, size);
    let rows = clusters_across(grid.height as int, size);
    if border.to_the_right {
        lemma_side_portals_hold(grid, size, borders(columns), 0, border.cx, border.cy, m);
        lemma_stacked_keeps_side(
            grid,
            size,
            columns,
            0,
            border.line(size).cell(m),
            border.near(),
        );
        lemma_stacked_keeps_side(
            grid,
            size,
            columns,
            0,
            border.line(size).far(m),
            border.beyond(),
        );
    } else {
        lemma_stacked_portals_hold(grid, size, columns, 0, border.cx, border.cy, m);
    }
}


/// Where a step leads to the right or downwards into another cluster, it
/// crosses the border between the two clusters at a cell of its line.
pub proof fn lemma_crossing(grid: &GridMap, size: int, u: GridPos, v: GridPos) -> (r: (Border, int))
    requires
        dims_ok(grid, size),
        grid.walkable(u),
        grid.walkable(v),
        (v.x == u.x + 1 && v.y == u.y) || (v.x == u.x && v.y == u.y + 1),
        cluster_of(size, u) != cluster_of(size, v),
    ensures
        r.0.valid(grid, size),
        0 <= r.1 < r.0.len(grid, size),
        r.0.line(size).cell(r.1) == u,
        r.0.line(size).far(r.1) == v,
        cluster_of(size, u) == r.0.near(),
        cluster_of(size, v) == r.0.beyond(),
        r.0.line(size).passable(grid, r.1),
{
    let w = grid.width as int;
    let h = grid.height as int;
    let cx = u.x as int / size;
    let cy = u.y as int / size;
    lemma_cell_in_cluster(grid, size, u);
    lemma_cell_in_cluster(grid, size, v);
    lemma_div_facts(u.x as int, w, size);
    lemma_div_facts(u.y as int, h, size);
    lemma_div_facts(v.x as int, w, size);
    lemma_div_facts(v.y as int, h, size);
    assert(0 * (u.y - cy * size) == 0);
    assert(1 * (u.y - cy * size) == u.y - cy * size);
    assert(0 * (u.x - cx * size) == 0);
    assert(1 * (u.x - cx * size) == u.x - cx * size);
    assert((cx + 1) * size == cx * size + size) by (nonlinear_arith);
    assert((cy + 1) * size == cy * size + size) by (nonlinear_arith);
    if v.x == u.x + 1 {
        if u.x + 1 < cx * size + size {
            lemma_div_unique(u.x + 1, cx, size);
        }
        lemma_div_unique(v.x as int, cx + 1, size);
        let border = Border { to_the_right: true, cx, cy };
        (border, u.y - cy * size)
    } else {
        if u.y + 1 < cy * size + size {
            lemma_div_unique(u.y + 1, cy, size);
        }
        lemma_div_unique(v.y as int, cy + 1, size);
        let border = Border { to_the_right: false, cx, cy };
        (border, u.x - cx * size)
    }
}

/// A cell is connected to itself.
pub proof fn lemma_connected_to_itself(grid: &GridMap, lo: GridPos, hi: GridPos, a: GridPos)
    ensures
        locally_connected(grid, lo, hi, a, a),
{
    assert(is_local_path(grid, lo, hi, a, a, seq![a]));
}

/// Paths within a box can be put together.
pub proof fn lemma_connected_on(
    grid: &GridMap,
    lo: GridPos,
    hi: GridPos,
    a: GridPos,
    b: GridPos,
    c: GridPos,
)
    requires
        locally_connected(grid, lo, hi, a, b),
        locally_connected(grid, lo, hi, b, c),
    ensures
        locally_connected(grid, lo, hi, a, c),
{
    let p = choose|p: Seq<GridPos>| is_local_path(grid, lo, hi, a, b, p);
    let q = choose|q: Seq<GridPos>| is_local_path(grid, lo, hi, b, c, q);
    let r = p + q.skip(1);
    assert forall|i: int| 1 <= i < r.len() implies #[trigger] path_step(grid, lo, hi, r, i) by {
        if i < p.len() {
            assert(path_step(grid, lo, hi, p, i));
        } else {
            assert(path_step(grid, lo, hi, q, i - p.len() + 1));
            assert(r[i] == q[i - p.len() + 1]);
            if i == p.len() {
                assert(r[i - 1] == p[p.len() - 1]);
            } else {
                assert(r[i - 1] == q[i - p.len()]);
            }
        }
    }
    assert(is_local_path(grid, lo, hi, a, c, r));
}

/// A step to a walkable cell of the box goes on a path within the box.
pub proof fn lemma_connected_step(
    grid: &GridMap,
    lo: GridPos,
    hi: GridPos,
    a: GridPos,
    b: GridPos,
    v: GridPos,
)
    requires
        locally_connected(grid, lo, hi, a, b),
        adjacent(b, v),
        in_box(lo, hi, v),
        grid.walkable(v),
    ensures
        locally_connected(grid, lo, hi, a, v),
{
    let step = seq![b, v];
    assert(path_step(grid, lo, hi, step, 1));
    assert(is_local_path(grid, lo, hi, b, v, step));
    lemma_connected_on(grid, lo, hi, a, b, v);
}

/// The cell of a border at place `i`, on the side of its line or beyond it.
pub open spec fn border_cell(border: Border, size: int, i: int, beyond: bool) -> GridPos {
    if beyond {
        border.line(size).far(i)
    } else {
        border.line(size).cell(i)
    }
}

/// The cluster on the side of the line of a border, or beyond it.
pub open spec fn border_cluster(border: Border, beyond: bool) -> GridPos {
    if beyond {
        border.beyond()
    } else {
        border.near()
    }
}

/// Along a stretch of a border at which it can be crossed, a path leads
/// from cell to cell on either side, inside the cluster of that side.
#[verifier::rlimit(40)]
pub proof fn lemma_walk_along(
    grid: &GridMap,
    size: int,
    border: Border,
    i: int,
    m: int,
    beyond: bool,
)
    requires
        dims_ok(grid, size),
        border.valid(grid, size),
        0 <= i < border.len(grid, size),
        0 <= m < border.len(grid, size),
        passable_between(border.line(size), grid, i, m),
    ensures
        locally_connected(
            grid,
            cluster_lo(size, border_cluster(border, beyond)),
            cluster_hi(grid, size, border_cluster(border, beyond)),
            border_cell(border, size, i, beyond),
            border_cell(border, size, m, beyond),
        ),
        grid.walkable(border_cell(border, size, i, beyond)),
        grid.walkable(border_cell(border, size, m, beyond)),
        cluster_of(size, border_cell(border, size, m, beyond)) == border_cluster(border, beyond),
        cluster_of(size, border_cell(border, size, i, beyond)) == border_cluster(border, beyond),
    decreases (if i <= m { m - i } else { i - m }),
{
    let line = border.line(size);
    let n = border.len(grid, size);
    let c = border_cluster(border, beyond);
    let lo = cluster_lo(size, c);
    let hi = cluster_hi(grid, size, c);
    border.lemma_line(grid, size);
    assert(line.passable(grid, i));
    assert(line.passable(grid, m));
    assert(cluster_of(size, line.cell(i)) == border.near());
    assert(cluster_of(size, line.cell(m)) == border.near());
    if i == m {
        lemma_connected_to_itself(grid, lo, hi, border_cell(border, size, i, beyond));
    } else {
        let back = if i < m {
            m - 1
        } else {
            m + 1
        };
        assert forall|j: int| (i <= j <= back || back <= j <= i) implies #[trigger] line.passable(
            grid,
            j,
        ) by {
            assert(i <= j <= m || m <= j <= i);
        }
        lemma_walk_along(grid, size, border, i, back, beyond);
        line.lemma_cell(n, back);
        line.lemma_cell(n, m);
        assert(cluster_of(size, line.cell(back)) == border.near());
        let from = border_cell(border, size, back, beyond);
        let to = border_cell(border, size, m, beyond);
        lemma_cell_in_cluster(grid, size, to);
        lemma_connected_step(grid, lo, hi, border_cell(border, size, i, beyond), from, to);
    }
}


impl HPAGrid {
    /// The pathfinder is as `build` leaves it: the portals are those of the
    /// grid, every cluster lists its portals, and every portal begins its
    /// edges with its steps to other clusters and goes on with one cached
    /// shortest path to every portal of its cluster to which a path leads
    /// inside the cluster, the same path as the other portal has to it,
    /// walked backwards.
    pub open spec fn built(&self) -> bool {
        &&& self.wf()
        &&& self.portals@ == all_portals(&self.grid, self.cluster_size as int)
        &&& listing_ok(&self.grid, self.cluster_size as int, self.portals@, self.cluster_lookup@)
        &&& intra_complete(&self.grid, self.cluster_size as int, self.portals@, self.graph@)
        &&& rows_exact(&self.grid, self.cluster_size as int, self.portals@, self.graph@)
        &&& mirrored(self.graph@)
        &&& inter_complete(self.portals@, self.graph@)
        &&& forall|i: int|
            0 <= i < self.portals@.len() ==> inter_row(self.portals@, i).is_prefix_of(
                #[trigger] self.graph@[i]@,
            )
    }

    /// Every portal is listed in its cluster.
    pub proof fn lemma_listed(&self, k: int)
        requires
            self.built(),
            0 <= k < self.portals@.len(),
        ensures
            self.listed(self.portals@[k].cluster_xy, k),
            self.portals@[k].cluster_xy == cluster_of(self.cluster_size as int, self.portals@[k].pos),
            self.grid.walkable(self.portals@[k].pos),
    {
        let size = self.cluster_size as int;
        assert(self.portal_ok(k));
        lemma_cell_in_cluster(&self.grid, size, self.portals@[k].pos);
        let idx = cluster_index(&self.grid, size, self.portals@[k].cluster_xy);
        assert forall|m: int| 0 <= m < self.portals@.len() implies (#[trigger] self.portals@[m]).id.0
            == m by {
            assert(self.portal_ok(m));
        }
        lemma_ids_in(&self.grid, size, self.portals@, idx);
        let ids = self.cluster_lookup@[idx]@;
        assert(ids == ids_in(&self.grid, size, self.portals@, idx));
        assert(ids.contains(PortalId(k as usize)));
        let j = choose|j: int| 0 <= j < ids.len() && ids[j] == PortalId(k as usize);
        assert(self.cluster_lookup@[idx]@[j].0 == k);
    }

    /// A portal that is listed in a cluster lies in it.
    pub proof fn lemma_listed_lies_in(&self, c: GridPos, q: int)
        requires
            self.built(),
            0 <= c.x < clusters_across(self.grid.width as int, self.cluster_size as int),
            self.listed(c, q),
        ensures
            0 <= q < self.portals@.len(),
            self.portals@[q].cluster_xy == c,
    {
        let size = self.cluster_size as int;
        let idx = cluster_index(&self.grid, size, c);
        let j = choose|j: int|
            0 <= j < self.cluster_lookup@[idx]@.len() && (#[trigger] self.cluster_lookup@[idx]@[j]).0
                == q;
        assert(self.lookup_ok(idx, j));
        assert(self.portal_ok(q));
        lemma_cell_in_cluster(&self.grid, size, self.portals@[q].pos);
        lemma_cluster_index_injective(&self.grid, size, self.portals@[q].cluster_xy, c);
    }

    /// A portal has an edge to every portal of another cluster on a cell next
    /// to it.
    pub proof fn lemma_step_has_edge(&self, a: int, b: int)
        requires
            self.built(),
            0 <= a < self.portals@.len(),
            0 <= b < self.portals@.len(),
            adjacent(self.portals@[a].pos, self.portals@[b].pos),
            self.portals@[a].cluster_xy != self.portals@[b].cluster_xy,
        ensures
            self.has_edge(a, b),
    {
        assert(has_step(self.graph@, a, b));
        let j = choose|j: int|
            0 <= j < self.graph@[a]@.len() && (#[trigger] self.graph@[a]@[j]).to.0 == b
                && self.graph@[a]@[j].is_inter_cluster;
        assert(self.graph@[a]@[j].to.0 == b);
    }

    /// Where a step leads from one cluster into another, a portal pair lies
    /// at hand: from a cell `s` that is connected to the step inside the
    /// first cluster a portal `a` can be reached, `a` has an edge to a portal
    /// `b` of the second cluster, and the step ends on a cell to which a
    /// path leads from `b` inside the second cluster.
    #[verifier::rlimit(40)]
    pub proof fn lemma_crossing_has_portals(&self, s: GridPos, u: GridPos, v: GridPos) -> (r: (
        usize,
        usize,
    ))
        requires
            self.built(),
            self.grid.walkable(s),
            self.grid.walkable(u),
            self.grid.walkable(v),
            adjacent(u, v),
            cluster_of(self.cluster_size as int, s) == cluster_of(self.cluster_size as int, u),
            cluster_of(self.cluster_size as int, v) != cluster_of(self.cluster_size as int, u),
            locally_connected(
                &self.grid,
                cluster_lo(self.cluster_size as int, cluster_of(self.cluster_size as int, s)),
                cluster_hi(
                    &self.grid,
                    self.cluster_size as int,
                    cluster_of(self.cluster_size as int, s),
                ),
                s,
                u,
            ),
        ensures
            self.can_leave(s, r.0 as int),
            self.has_edge(r.0 as int, r.1 as int),
            r.1 < self.portals@.len(),
            self.grid.walkable(self.portals@[r.1 as int].pos),
            self.portals@[r.1 as int].cluster_xy == cluster_of(self.cluster_size as int, v),
            cluster_of(self.cluster_size as int, self.portals@[r.1 as int].pos) == cluster_of(
                self.cluster_size as int,
                v,
            ),
            self.listed(cluster_of(self.cluster_size as int, v), r.1 as int),
            locally_connected(
                &self.grid,
                cluster_lo(self.cluster_size as int, cluster_of(self.cluster_size as int, v)),
                cluster_hi(
                    &self.grid,
                    self.cluster_size as int,
                    cluster_of(self.cluster_size as int, v),
                ),
                self.portals@[r.1 as int].pos,
                v,
            ),
    {
        let grid = &self.grid;
        let size = self.cluster_size as int;
        let c = cluster_of(size, s);
        let lo = cluster_lo(size, c);
        let hi = cluster_hi(grid, size, c);
        let forward = (v.x == u.x + 1 && v.y == u.y) || (v.x == u.x && v.y == u.y + 1);
        let (border, idx) = if forward {
            lemma_crossing(grid, size, u, v)
        } else {
            lemma_crossing(grid, size, v, u)
        };
        let line = border.line(size);
        let n = border.len(grid, size);
        border.lemma_line(grid, size);
        let m = lemma_mark_in_run(line, grid, n, idx);
        lemma_marks_have_portals(grid, size, border, m);
        let here = !forward;
        let pa = border_cell(border, size, m, here);
        let pb = border_cell(border, size, m, !here);
        let cv = border_cluster(border, !here);
        lemma_walk_along(grid, size, border, idx, m, here);
        assert forall|j: int| (m <= j <= idx || idx <= j <= m) implies #[trigger] line.passable(
            grid,
            j,
        ) by {
            assert(idx <= j <= m || m <= j <= idx);
        }
        lemma_walk_along(grid, size, border, m, idx, !here);
        lemma_connected_on(grid, lo, hi, s, u, pa);
        let portals = self.portals@;
        let ka = choose|k: int|
            0 <= k < portals.len() && (#[trigger] portals[k]).pos == pa && portals[k].cluster_xy == c;
        self.lemma_listed(ka);
        line.lemma_cell(n, m);
        assert(adjacent(pa, pb));
        let kb = choose|k: int|
            0 <= k < portals.len() && (#[trigger] portals[k]).pos == pb && portals[k].cluster_xy == cv;
        self.lemma_step_has_edge(ka, kb);
        self.lemma_listed(kb);
        let b = kb as usize;
        (ka as usize, b)
    }

    /// A chain of the two portals of a crossing.
    pub proof fn lemma_chain_of_two(&self, s: GridPos, end: GridPos, a: usize, b: usize)
        requires
            self.can_leave(s, a as int),
            self.has_edge(a as int, b as int),
            self.can_arrive(end, b as int),
        ensures
            self.chain_ok(s, end, seq![a, b]),
    {
        let chain = seq![a, b];
        assert forall|j: int| 0 <= j < chain.len() - 1 implies #[trigger] self.chain_step(chain, j) by {
            assert(j == 0);
        }
    }

    /// A portal from which a chain leads on is itself the head of a chain.
    pub proof fn lemma_chain_through(&self, b: usize, end: GridPos, rest: Seq<usize>) -> (chain: Seq<
        usize,
    >)
        requires
            self.built(),
            b < self.portals@.len(),
            self.chain_ok(self.portals@[b as int].pos, end, rest),
        ensures
            chain.len() >= 1,
            chain[0] == b,
            self.can_arrive(end, chain.last() as int),
            forall|j: int| 0 <= j < chain.len() - 1 ==> #[trigger] self.chain_step(chain, j),
    {
        let size = self.cluster_size as int;
        let pb = self.portals@[b as int].pos;
        let q = rest[0];
        self.lemma_listed(b as int);
        lemma_cell_in_cluster(&self.grid, size, pb);
        let cv = cluster_of(size, pb);
        assert(self.can_leave(pb, q as int));
        self.lemma_listed_lies_in(cv, q as int);
        if q == b {
            rest
        } else {
            assert(has_cached_edge(self.graph@, b as int, q as int)) by {
                assert(self.portals@[b as int].cluster_xy == self.portals@[q as int].cluster_xy);
            }
            let e = choose|e: int|
                0 <= e < self.graph@[b as int]@.len() && (#[trigger] self.graph@[b as int]@[e]).to.0
                    == q && !self.graph@[b as int]@[e].is_inter_cluster;
            assert(self.graph@[b as int]@[e].to.0 == q);
            assert(self.has_edge(b as int, q as int));
            let chain = seq![b] + rest;
            assert forall|j: int| 0 <= j < chain.len() - 1 implies #[trigger] self.chain_step(
                chain,
                j,
            ) by {
                if j > 0 {
                    assert(self.chain_step(rest, j - 1));
                    assert(chain[j] == rest[j - 1]);
                    assert(chain[j + 1] == rest[j]);
                } else {
                    assert(chain[1] == rest[0]);
                }
            }
            assert(chain.last() == rest.last());
            chain
        }
    }

    /// A chain that begins at the far portal of a crossing, with the near
    /// portal at its head.
    pub proof fn lemma_chain_across(
        &self,
        s: GridPos,
        end: GridPos,
        a: usize,
        tail: Seq<usize>,
    )
        requires
            self.can_leave(s, a as int),
            tail.len() >= 1,
            self.has_edge(a as int, tail[0] as int),
            self.can_arrive(end, tail.last() as int),
            forall|j: int| 0 <= j < tail.len() - 1 ==> #[trigger] self.chain_step(tail, j),
        ensures
            self.chain_ok(s, end, seq![a] + tail),
    {
        let chain = seq![a] + tail;
        assert forall|j: int| 0 <= j < chain.len() - 1 implies #[trigger] self.chain_step(chain, j) by {
            if j > 0 {
                assert(self.chain_step(tail, j - 1));
                assert(chain[j] == tail[j - 1]);
                assert(chain[j + 1] == tail[j]);
            } else {
                assert(chain[1] == tail[0]);
            }
        }
        assert(chain.last() == tail.last());
        assert(chain[0] == a);
    }

    /// Where a path leads on from a cell to which the cell `s` is connected
    /// inside its cluster, the end of the path is connected to `s` inside
    /// the cluster of `s`, or a chain of portals leads from `s` to the end.
    #[verifier::rlimit(40)]
    pub proof fn lemma_path_has_chain(&self, s: GridPos, end: GridPos, path: Seq<GridPos>, i: int)
        requires
            self.built(),
            self.grid.walkable(s),
            is_grid_path(&self.grid, path[0], end, path),
            0 <= i < path.len(),
            cluster_of(self.cluster_size as int, s) == cluster_of(self.cluster_size as int, path[i]),
            locally_connected(
                &self.grid,
                cluster_lo(self.cluster_size as int, cluster_of(self.cluster_size as int, s)),
                cluster_hi(
                    &self.grid,
                    self.cluster_size as int,
                    cluster_of(self.cluster_size as int, s),
                ),
                s,
                path[i],
            ),
        ensures
            (cluster_of(self.cluster_size as int, end) == cluster_of(self.cluster_size as int, s)
                && locally_connected(
                &self.grid,
                cluster_lo(self.cluster_size as int, cluster_of(self.cluster_size as int, s)),
                cluster_hi(
                    &self.grid,
                    self.cluster_size as int,
                    cluster_of(self.cluster_size as int, s),
                ),
                s,
                end,
            )) || exists|chain: Seq<usize>| self.chain_ok(s, end, chain),
        decreases path.len() - i,
    {
        let grid = &self.grid;
        let size = self.cluster_size as int;
        let c = cluster_of(size, s);
        let lo = cluster_lo(size, c);
        let hi = cluster_hi(grid, size, c);
        if i == path.len() - 1 {
            assert(path[i] == end);
        } else {
            let u = path[i];
            let v = path[i + 1];
            assert(grid.walkable(u));
            assert(grid.walkable(v));
            assert(adjacent(u, v));
            lemma_cell_in_cluster(grid, size, v);
            if cluster_of(size, v) == c {
                lemma_connected_step(grid, lo, hi, s, u, v);
                self.lemma_path_has_chain(s, end, path, i + 1);
            } else {
                let (a, b) = self.lemma_crossing_has_portals(s, u, v);
                let pb = self.portals@[b as int].pos;
                let cv = cluster_of(size, v);
                self.lemma_path_has_chain(pb, end, path, i + 1);
                if cluster_of(size, end) == cv && locally_connected(
                    grid,
                    cluster_lo(size, cv),
                    cluster_hi(grid, size, cv),
                    pb,
                    end,
                ) {
                    assert(self.can_arrive(end, b as int));
                    self.lemma_chain_of_two(s, end, a, b);
                } else {
                    let rest = choose|chain: Seq<usize>| self.chain_ok(pb, end, chain);
                    let tail = self.lemma_chain_through(b, end, rest);
                    self.lemma_chain_across(s, end, a, tail);
                }
            }
        }
    }
}

} // verus!
