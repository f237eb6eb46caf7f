//! The hierarchical pathfinder: the grid cut into square clusters, portals on
//! the borders between clusters, and a graph of paths between portals.

pub mod complete;
pub mod edges;
pub mod local;
pub mod portals;
pub mod route;

use vstd::prelude::*;
use crate::grid::{adjacent, GridMap, GridPos};
use crate::hpa::local::{in_box, lemma_product_le, locally_connected, shortest_local_path};

verus! {

/// The number of a portal: its place in the portal list.
#[derive(Clone, Copy, Debug, PartialEq, Eq, Structural, Hash)]
pub struct PortalId(pub usize);

/// A cell on the border of a cluster through which paths leave the cluster.
#[derive(Clone, Copy, Debug)]
pub struct PortalNode {
    pub id: PortalId,
    pub pos: GridPos,
    pub cluster_xy: GridPos,
}

/// An edge of the portal graph.
#[derive(Clone, Debug)]
pub struct AbstractEdge {
    pub to: PortalId,
    pub cost: u32,
    /// `true` for the single step between two clusters, `false` for a path
    /// inside one cluster.
    pub is_inter_cluster: bool,
    /// The cells of a path inside a cluster, from portal to portal.
    pub cached_path: Option<Vec<GridPos>>,
}

#[derive(Clone)]
pub struct HPAGrid {
    pub grid: GridMap,
    pub cluster_size: i32,
    /// Every portal, at the place that its id names.
    pub portals: Vec<PortalNode>,
    /// For each portal the edges that leave it.
    pub graph: Vec<Vec<AbstractEdge>>,
    /// For each cluster, in row-major order, the portals that lie in it.
    pub cluster_lookup: Vec<Vec<PortalId>>,
}

/// How many clusters of side `size` cover `extent` cells.
pub open spec fn clusters_across(extent: int, size: int) -> int {
    if extent <= 0 {
        0
    } else {
        (extent - 1) / size + 1
    }
}

/// The most cells that a grid can have for the pathfinder: with four portals
/// on every cell, the portals and the start of a search can still be
/// numbered in 32 bits.
pub const MAX_CELLS: i32 = 0x3fff_ffff;

/// What has to hold of the size of a cluster and the grid it divides.
pub open spec fn dims_ok(grid: &GridMap, size: int) -> bool {
    &&& grid.wf()
    &&& 0 < size <= i32::MAX
    &&& grid.width * grid.height <= MAX_CELLS
}

/// Portal `i` carries its own number and lies on a walkable cell of the
/// cluster that it names.
pub open spec fn portal_valid(grid: &GridMap, size: int, portals: Seq<PortalNode>, i: int) -> bool {
    let p = portals[i];
    &&& p.id.0 == i
    &&& grid.walkable(p.pos)
    &&& p.cluster_xy == cluster_of(size, p.pos)
}

/// The edge `e` of portal `i` is a step to a portal of another cluster, or a
/// cached shortest path to a portal of the same cluster that stays in that
/// cluster.
pub open spec fn edge_valid(
    grid: &GridMap,
    size: int,
    portals: Seq<PortalNode>,
    e: AbstractEdge,
    i: int,
) -> bool {
    let from = portals[i];
    let to = portals[e.to.0 as int];
    &&& e.to.0 < portals.len()
    &&& if e.is_inter_cluster {
        &&& adjacent(from.pos, to.pos)
        &&& from.cluster_xy != to.cluster_xy
        &&& e.cost == 1
        &&& e.cached_path is None
    } else {
        &&& from.cluster_xy == to.cluster_xy
        &&& e.cached_path is Some
        &&& shortest_local_path(
            grid,
            cluster_lo(size, from.cluster_xy),
            cluster_hi(grid, size, from.cluster_xy),
            from.pos,
            to.pos,
            e.cached_path->0@,
        )
        &&& e.cost == e.cached_path->0@.len() - 1
    }
}

/// The graph has an edge with a cached path from portal `a` to portal `b`.
pub open spec fn has_cached_edge(graph: Seq<Vec<AbstractEdge>>, a: int, b: int) -> bool {
    exists|j: int|
        0 <= j < graph[a]@.len() && (#[trigger] graph[a]@[j]).to.0 == b && !graph[a]@[j].is_inter_cluster
}

/// Every two portals of one cluster between which a path leads inside the
/// cluster have an edge with a cached path, in both directions.
pub open spec fn intra_complete(
    grid: &GridMap,
    size: int,
    portals: Seq<PortalNode>,
    graph: Seq<Vec<AbstractEdge>>,
) -> bool {
    forall|a: int, b: int|
        #![trigger portals[a], portals[b]]
        0 <= a < portals.len() && 0 <= b < portals.len() && a != b && portals[a].cluster_xy
            == portals[b].cluster_xy && locally_connected(
            grid,
            cluster_lo(size, portals[a].cluster_xy),
            cluster_hi(grid, size, portals[a].cluster_xy),
            portals[a].pos,
            portals[b].pos,
        ) ==> has_cached_edge(graph, a, b)
}

/// The portals of the cluster at place `k`, in the order of the portal list.
pub open spec fn ids_in(grid: &GridMap, size: int, portals: Seq<PortalNode>, k: int) -> Seq<
    PortalId,
>
    decreases portals.len(),
{
    if portals.len() == 0 {
        Seq::empty()
    } else {
        let rest = ids_in(grid, size, portals.drop_last(), k);
        if cluster_index(grid, size, portals.last().cluster_xy) == k {
            rest.push(portals.last().id)
        } else {
            rest
        }
    }
}

/// The lookup table has a list for each cluster, and each list holds the
/// portals of its cluster.
pub open spec fn listing_ok(
    grid: &GridMap,
    size: int,
    portals: Seq<PortalNode>,
    lookup: Seq<Vec<PortalId>>,
) -> bool {
    &&& lookup.len() == clusters_across(grid.width as int, size) * clusters_across(
        grid.height as int,
        size,
    )
    &&& forall|k: int| 0 <= k < lookup.len() ==> (#[trigger] lookup[k])@ == ids_in(grid, size, portals, k)
}

/// A portal is among the portals of a cluster exactly if it lies in it.
pub proof fn lemma_ids_in(grid: &GridMap, size: int, portals: Seq<PortalNode>, k: int)
    requires
        forall|i: int| 0 <= i < portals.len() ==> (#[trigger] portals[i]).id.0 == i,
    ensures
        forall|j: int|
            0 <= j < ids_in(grid, size, portals, k).len() ==> {
                let id = (#[trigger] ids_in(grid, size, portals, k)[j]).0;
                id < portals.len() && cluster_index(grid, size, portals[id as int].cluster_xy) == k
            },
        forall|i: int|
            0 <= i < portals.len() && cluster_index(grid, size, (#[trigger] portals[i]).cluster_xy)
                == k ==> ids_in(grid, size, portals, k).contains(PortalId(i as usize)),
    decreases portals.len(),
{
    if portals.len() > 0 {
        let front = portals.drop_last();
        lemma_ids_in(grid, size, front, k);
        let rest = ids_in(grid, size, front, k);
        let all = ids_in(grid, size, portals, k);
        assert forall|i: int|
            0 <= i < portals.len() && cluster_index(grid, size, (#[trigger] portals[i]).cluster_xy)
                == k implies all.contains(PortalId(i as usize)) by {
            if i < front.len() {
                assert(front[i] == portals[i]);
                assert(rest.contains(PortalId(i as usize)));
                let j = choose|j: int| 0 <= j < rest.len() && rest[j] == PortalId(i as usize);
                assert(all[j] == PortalId(i as usize));
            } else {
                assert(all[all.len() - 1] == portals.last().id);
            }
        }
        assert forall|j: int| 0 <= j < all.len() implies {
            let id = (#[trigger] all[j]).0;
            id < portals.len() && cluster_index(grid, size, portals[id as int].cluster_xy) == k
        } by {
            if j < rest.len() {
                assert(all[j] == rest[j]);
                assert(front[rest[j].0 as int] == portals[rest[j].0 as int]);
            }
        }
    }
}

/// The cluster that a cell lies in.
pub open spec fn cluster_of(size: int, pos: GridPos) -> GridPos {
    GridPos { x: (pos.x as int / size) as i32, y: (pos.y as int / size) as i32 }
}

/// The first cell of a cluster.
pub open spec fn cluster_lo(size: int, c: GridPos) -> GridPos {
    GridPos { x: (c.x * size) as i32, y: (c.y * size) as i32 }
}

/// The cell after the last cell of a cluster, which ends where the grid ends.
pub open spec fn cluster_hi(grid: &GridMap, size: int, c: GridPos) -> GridPos {
    GridPos {
        x: (if c.x * size + size < grid.width {
            c.x * size + size
        } else {
            grid.width as int
        }) as i32,
        y: (if c.y * size + size < grid.height {
            c.y * size + size
        } else {
            grid.height as int
        }) as i32,
    }
}

/// The place of a cluster in row-major order.
pub open spec fn cluster_index(grid: &GridMap, size: int, c: GridPos) -> int {
    c.y * clusters_across(grid.width as int, size) + c.x
}

/// A cell of the grid lies in the box of its cluster.
pub proof fn lemma_cell_in_cluster(grid: &GridMap, size: int, pos: GridPos)
    requires
        dims_ok(grid, size),
        grid.in_bounds(pos),
    ensures
        in_box(cluster_lo(size, cluster_of(size, pos)), cluster_hi(grid, size, cluster_of(size, pos)), pos),
        0 <= cluster_of(size, pos).x < clusters_across(grid.width as int, size),
        0 <= cluster_of(size, pos).y < clusters_across(grid.height as int, size),
        cluster_of(size, pos).x == pos.x as int / size,
        cluster_of(size, pos).y == pos.y as int / size,
        cluster_lo(size, cluster_of(size, pos)).x == (pos.x as int / size) * size,
        cluster_lo(size, cluster_of(size, pos)).y == (pos.y as int / size) * size,
        0 <= cluster_index(grid, size, cluster_of(size, pos)) < clusters_across(grid.width as int, size)
            * clusters_across(grid.height as int, size),
{
    lemma_div_facts(pos.x as int, grid.width as int, size);
    lemma_div_facts(pos.y as int, grid.height as int, size);
    let cw = clusters_across(grid.width as int, size);
    let ch = clusters_across(grid.height as int, size);
    crate::grid::lemma_cell_index_bound(pos.x as int / size, pos.y as int / size, cw, ch);
}

pub proof fn lemma_div_facts(v: int, extent: int, size: int)
    requires
        0 <= v < extent,
        0 < size,
    ensures
        0 <= v / size <= v,
        (v / size) * size <= v < (v / size) * size + size,
        v / size < clusters_across(extent, size),
        v / size <= (extent - 1) / size,
{
    vstd::arithmetic::div_mod::lemma_fundamental_div_mod(v, size);
    vstd::arithmetic::div_mod::lemma_mod_bound(v, size);
    vstd::arithmetic::div_mod::lemma_div_pos_is_pos(v, size);
    vstd::arithmetic::div_mod::lemma_div_is_ordered(v, extent - 1, size);
    let q = v / size;
    assert(q * size == size * q) by (nonlinear_arith);
    assert(q <= v) by (nonlinear_arith)
        requires
            q * size <= v,
            0 <= q,
            1 <= size,
    ;
}

impl HPAGrid {
    /// Portal `i` carries its own number and lies on a walkable cell of the
    /// cluster that it names.
    pub open spec fn portal_ok(&self, i: int) -> bool {
        portal_valid(&self.grid, self.cluster_size as int, self.portals@, i)
    }

    /// Edge `j` of portal `i` is a step to a portal of another cluster, or a
    /// cached path to a portal of the same cluster.
    pub open spec fn edge_ok(&self, i: int, j: int) -> bool {
        edge_valid(&self.grid, self.cluster_size as int, self.portals@, self.graph@[i]@[j], i)
    }

    /// Entry `j` of the list of cluster `k` names a portal of that cluster.
    pub open spec fn lookup_ok(&self, k: int, j: int) -> bool {
        let id = self.cluster_lookup@[k]@[j];
        &&& id.0 < self.portals@.len()
        &&& cluster_index(&self.grid, self.cluster_size as int, self.portals@[id.0 as int].cluster_xy) == k
    }

    pub open spec fn portals_ok(&self) -> bool {
        forall|i: int| 0 <= i < self.portals@.len() ==> #[trigger] self.portal_ok(i)
    }

    pub open spec fn edges_ok(&self) -> bool {
        forall|i: int, j: int|
            0 <= i < self.graph@.len() && 0 <= j < self.graph@[i]@.len() ==> #[trigger] self.edge_ok(
                i,
                j,
            )
    }

    pub open spec fn lookups_ok(&self) -> bool {
        forall|k: int, j: int|
            0 <= k < self.cluster_lookup@.len() && 0 <= j < self.cluster_lookup@[k]@.len()
                ==> #[trigger] self.lookup_ok(k, j)
    }

    /// What holds of a pathfinder at all times, built or not.
    pub open spec fn wf(&self) -> bool {
        &&& dims_ok(&self.grid, self.cluster_size as int)
        &&& self.portals@.len() < u32::MAX
        &&& self.graph@.len() == self.portals@.len()
        &&& self.portals_ok()
        &&& self.edges_ok()
        &&& self.lookups_ok()
    }

    /// A pathfinder for `grid` with clusters of side `cluster_size`, without
    /// portals until `build` finds them.
    pub fn new(grid: GridMap, cluster_size: i32) -> (hpa: HPAGrid)
        requires
            grid.wf(),
            cluster_size > 0,
            grid.width * grid.height <= MAX_CELLS,
        ensures
            hpa.wf(),
            hpa.grid == grid,
            hpa.cluster_size == cluster_size,
            hpa.portals@.len() == 0,
            hpa.graph@.len() == 0,
            hpa.cluster_lookup@.len() == 0,
    {
        HPAGrid {
            grid,
            cluster_size,
            portals: Vec::new(),
            graph: Vec::new(),
            cluster_lookup: Vec::new(),
        }
    }
}


/// The first cell of a cluster of the grid lies on the grid.
pub proof fn lemma_cluster_start(c: int, extent: int, size: int)
    requires
        0 <= c < clusters_across(extent, size),
        0 < size,
    ensures
        0 <= c * size < extent,
        clusters_across(extent, size) <= extent,
        c < clusters_across(extent, size) - 1 ==> c * size + size < extent,
{
    let top = (extent - 1) / size;
    vstd::arithmetic::div_mod::lemma_fundamental_div_mod(extent - 1, size);
    vstd::arithmetic::div_mod::lemma_mod_bound(extent - 1, size);
    vstd::arithmetic::div_mod::lemma_div_pos_is_pos(extent - 1, size);
    assert(c * size <= top * size) by (nonlinear_arith)
        requires
            0 <= c <= top,
            0 < size,
    ;
    assert(top * size == size * top) by (nonlinear_arith);
    assert(0 <= c * size) by (nonlinear_arith)
        requires
            0 <= c,
            0 < size,
    ;
    assert(top <= top * size) by (nonlinear_arith)
        requires
            0 <= top,
            1 <= size,
    ;
    if c < top {
        assert(c * size + size <= top * size) by (nonlinear_arith)
            requires
                0 <= c,
                c + 1 <= top,
                0 < size,
        ;
    }
}

/// Clusters of the grid with the same place in row-major order are the same.
pub proof fn lemma_cluster_index_injective(grid: &GridMap, size: int, a: GridPos, b: GridPos)
    requires
        dims_ok(grid, size),
        0 <= a.x < clusters_across(grid.width as int, size),
        0 <= b.x < clusters_across(grid.width as int, size),
        cluster_index(grid, size, a) == cluster_index(grid, size, b),
    ensures
        a == b,
{
    let cw = clusters_across(grid.width as int, size);
    vstd::arithmetic::div_mod::lemma_fundamental_div_mod_converse(
        cluster_index(grid, size, a),
        cw,
        a.y as int,
        a.x as int,
    );
    vstd::arithmetic::div_mod::lemma_fundamental_div_mod_converse(
        cluster_index(grid, size, b),
        cw,
        b.y as int,
        b.x as int,
    );
}

/// The box of a cluster of the grid: its first cell, and the cell after its
/// last.
pub fn cluster_box(grid: &GridMap, size: i32, c: GridPos) -> (b: (GridPos, GridPos))
    requires
        dims_ok(grid, size as int),
        0 <= c.x < clusters_across(grid.width as int, size as int),
        0 <= c.y < clusters_across(grid.height as int, size as int),
    ensures
        b.0 == cluster_lo(size as int, c),
        b.1 == cluster_hi(grid, size as int, c),
        grid.in_bounds(b.0),
{
    proof {
        lemma_cluster_start(c.x as int, grid.width as int, size as int);
        lemma_cluster_start(c.y as int, grid.height as int, size as int);
    }
    let lo = GridPos { x: c.x * size, y: c.y * size };
    let hx = if grid.width - lo.x > size {
        lo.x + size
    } else {
        grid.width
    };
    let hy = if grid.height - lo.y > size {
        lo.y + size
    } else {
        grid.height
    };
    (lo, GridPos { x: hx, y: hy })
}

impl HPAGrid {
    /// The number of clusters in a row.
    pub fn clusters_wide(&self) -> (n: i32)
        requires
            dims_ok(&self.grid, self.cluster_size as int),
        ensures
            n == clusters_across(self.grid.width as int, self.cluster_size as int),
            0 <= n <= self.grid.width,
    {
        if self.grid.width <= 0 {
            0
        } else {
            proof {
                lemma_div_facts(
                    self.grid.width - 1,
                    self.grid.width as int,
                    self.cluster_size as int,
                );
            }
            (self.grid.width - 1) / self.cluster_size + 1
        }
    }

    /// The number of clusters in a column.
    pub fn clusters_high(&self) -> (n: i32)
        requires
            dims_ok(&self.grid, self.cluster_size as int),
        ensures
            n == clusters_across(self.grid.height as int, self.cluster_size as int),
            0 <= n <= self.grid.height,
    {
        if self.grid.height <= 0 {
            0
        } else {
            proof {
                lemma_div_facts(
                    self.grid.height - 1,
                    self.grid.height as int,
                    self.cluster_size as int,
                );
            }
            (self.grid.height - 1) / self.cluster_size + 1
        }
    }

    /// The cluster in which a cell of the grid lies.
    pub fn cluster_at(&self, pos: GridPos) -> (c: GridPos)
        requires
            dims_ok(&self.grid, self.cluster_size as int),
            self.grid.in_bounds(pos),
        ensures
            c == cluster_of(self.cluster_size as int, pos),
            0 <= c.x < clusters_across(self.grid.width as int, self.cluster_size as int),
            0 <= c.y < clusters_across(self.grid.height as int, self.cluster_size as int),
    {
        proof {
            lemma_cell_in_cluster(&self.grid, self.cluster_size as int, pos);
        }
        GridPos { x: pos.x / self.cluster_size, y: pos.y / self.cluster_size }
    }

    /// The box of a cluster: its first cell, and the cell after its last.
    pub fn cluster_bounds(&self, c: GridPos) -> (b: (GridPos, GridPos))
        requires
            dims_ok(&self.grid, self.cluster_size as int),
            0 <= c.x < clusters_across(self.grid.width as int, self.cluster_size as int),
            0 <= c.y < clusters_across(self.grid.height as int, self.cluster_size as int),
        ensures
            b.0 == cluster_lo(self.cluster_size as int, c),
            b.1 == cluster_hi(&self.grid, self.cluster_size as int, c),
            self.grid.in_bounds(b.0),
    {
        cluster_box(&self.grid, self.cluster_size, c)
    }

    /// Portal `p` is listed among the portals of cluster `c`.
    pub open spec fn listed(&self, c: GridPos, p: int) -> bool {
        let k = cluster_index(&self.grid, self.cluster_size as int, c);
        &&& 0 <= k < self.cluster_lookup@.len()
        &&& exists|j: int|
            0 <= j < self.cluster_lookup@[k]@.len() && (#[trigger] self.cluster_lookup@[k]@[j]).0
                == p
    }

    /// The place of the list of cluster `c` in the lookup table, if the
    /// table has one for it.
    pub fn lookup_index(&self, c: GridPos) -> (r: Option<usize>)
        requires
            dims_ok(&self.grid, self.cluster_size as int),
            0 <= c.x < clusters_across(self.grid.width as int, self.cluster_size as int),
            0 <= c.y < clusters_across(self.grid.height as int, self.cluster_size as int),
        ensures
            r matches Some(k) ==> k == cluster_index(&self.grid, self.cluster_size as int, c) && k
                < self.cluster_lookup@.len(),
            r is None ==> cluster_index(&self.grid, self.cluster_size as int, c)
                >= self.cluster_lookup@.len(),
    {
        let cw = self.clusters_wide();
        let ch = self.clusters_high();
        proof {
            crate::grid::lemma_cell_index_bound(c.x as int, c.y as int, cw as int, ch as int);
            lemma_product_le(
                cw as int,
                ch as int,
                self.grid.width as int,
                self.grid.height as int,
            );
        }
        let k = (c.y * cw + c.x) as usize;
        if k < self.cluster_lookup.len() {
            Some(k)
        } else {
            None
        }
    }
}

} // verus!
