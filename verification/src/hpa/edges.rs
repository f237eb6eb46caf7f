//! The edges of the portal graph: single steps between portals of different
//! clusters, and shortest paths between the portals of one cluster.

use vstd::prelude::*;
use crate::grid::{adjacent, lemma_cell_index_bound, GridMap, GridPos};
use crate::hpa::{
    cluster_box, cluster_hi, cluster_index, cluster_lo, clusters_across, dims_ok, edge_valid,
    has_cached_edge, intra_complete, lemma_cell_in_cluster, lemma_cluster_index_injective,
    lemma_ids_in, listing_ok, portal_valid, AbstractEdge, HPAGrid, PortalId, PortalNode,
};
use crate::hpa::local::{
    a_star_local, in_box, is_local_path, locally_connected, path_step, shortest_local_path,
};
use crate::hpa::portals::shifted;

verus! {

/// The portals that lie on the cell `pos`, in the order of the portal list.
pub open spec fn all_at(portals: Seq<PortalNode>, pos: GridPos) -> Seq<usize>
    decreases portals.len(),
{
    if portals.len() == 0 {
        Seq::empty()
    } else if portals.last().pos == pos {
        all_at(portals.drop_last(), pos).push((portals.len() - 1) as usize)
    } else {
        all_at(portals.drop_last(), pos)
    }
}

/// The portals on a cell are portals on that cell, and all of them.
pub proof fn lemma_all_at(portals: Seq<PortalNode>, pos: GridPos)
    requires
        portals.len() <= usize::MAX,
    ensures
        forall|x: int|
            0 <= x < all_at(portals, pos).len() ==> (#[trigger] all_at(portals, pos)[x]) < portals.len()
                && portals[all_at(portals, pos)[x] as int].pos == pos,
        forall|k: int|
            0 <= k < portals.len() && (#[trigger] portals[k]).pos == pos ==> all_at(
                portals,
                pos,
            ).contains(k as usize),
    decreases portals.len(),
{
    if portals.len() > 0 {
        let front = portals.drop_last();
        lemma_all_at(front, pos);
        let rest = all_at(front, pos);
        let all = all_at(portals, pos);
        assert forall|x: int| 0 <= x < all.len() implies (#[trigger] all[x]) < portals.len()
            && portals[all[x] as int].pos == pos by {
            if x < rest.len() {
                assert(all[x] == rest[x]);
                assert(front[rest[x] as int] == portals[rest[x] as int]);
            }
        }
        assert forall|k: int| 0 <= k < portals.len() && (#[trigger] portals[k]).pos == pos implies all.contains(
            k as usize,
        ) by {
            if k < front.len() {
                assert(front[k] == portals[k]);
                let x = choose|x: int| 0 <= x < rest.len() && rest[x] == k as usize;
                assert(all[x] == k as usize);
            } else {
                assert(all[all.len() - 1] == k as usize);
            }
        }
    }
}

/// The step between clusters to portal `q`.
pub open spec fn step_to(q: usize) -> AbstractEdge {
    AbstractEdge { to: PortalId(q), cost: 1, is_inter_cluster: true, cached_path: None }
}

/// One step to each of the first `n` portals of `list` that lies in another
/// cluster than `own`, in the order of the list.
pub open spec fn steps_to(portals: Seq<PortalNode>, list: Seq<usize>, own: GridPos, n: int) -> Seq<
    AbstractEdge,
>
    decreases n,
{
    if n <= 0 {
        Seq::empty()
    } else {
        let rest = steps_to(portals, list, own, n - 1);
        if portals[list[n - 1] as int].cluster_xy != own {
            rest.push(step_to(list[n - 1]))
        } else {
            rest
        }
    }
}

/// What the steps to the first `n` portals of a list are.
pub proof fn lemma_steps_to(portals: Seq<PortalNode>, list: Seq<usize>, own: GridPos, n: int)
    requires
        0 <= n <= list.len(),
    ensures
        forall|j: int|
            0 <= j < steps_to(portals, list, own, n).len() ==> exists|x: int|
                0 <= x < n && portals[list[x] as int].cluster_xy != own && (#[trigger] steps_to(
                    portals,
                    list,
                    own,
                    n,
                )[j]) == step_to(list[x]),
        forall|x: int|
            0 <= x < n && portals[(#[trigger] list[x]) as int].cluster_xy != own ==> steps_to(
                portals,
                list,
                own,
                n,
            ).contains(step_to(list[x])),
    decreases n,
{
    if n > 0 {
        lemma_steps_to(portals, list, own, n - 1);
        let rest = steps_to(portals, list, own, n - 1);
        let all = steps_to(portals, list, own, n);
        assert forall|j: int| 0 <= j < all.len() implies exists|x: int|
            0 <= x < n && portals[list[x] as int].cluster_xy != own && (#[trigger] all[j]) == step_to(
                list[x],
            ) by {
            if j < rest.len() {
                assert(all[j] == rest[j]);
                let x = choose|x: int|
                    0 <= x < n - 1 && portals[list[x] as int].cluster_xy != own && rest[j] == step_to(
                        list[x],
                    );
                assert(0 <= x < n && all[j] == step_to(list[x]));
            } else {
                assert(all[j] == step_to(list[n - 1]));
            }
        }
        assert forall|x: int|
            0 <= x < n && portals[(#[trigger] list[x]) as int].cluster_xy != own implies all.contains(
            step_to(list[x]),
        ) by {
            if x < n - 1 {
                let j = choose|j: int| 0 <= j < rest.len() && rest[j] == step_to(list[x]);
                assert(all[j] == step_to(list[x]));
            } else {
                assert(all[all.len() - 1] == step_to(list[x]));
            }
        }
    }
}

/// The steps between clusters from portal `i` in the direction `dir`: one to
/// every portal of another cluster on the neighbouring cell, in the order of
/// the portal list.
pub open spec fn inter_edge(portals: Seq<PortalNode>, i: int, dir: GridPos) -> Seq<AbstractEdge> {
    let list = all_at(portals, shifted(portals[i].pos, dir));
    steps_to(portals, list, portals[i].cluster_xy, list.len() as int)
}

/// The steps between clusters that leave portal `i`: to the right, to the
/// left, down and up.
pub open spec fn inter_row(portals: Seq<PortalNode>, i: int) -> Seq<AbstractEdge> {
    inter_edge(portals, i, GridPos { x: 1, y: 0 }) + inter_edge(portals, i, GridPos { x: -1i32, y: 0 })
        + inter_edge(portals, i, GridPos { x: 0, y: 1 }) + inter_edge(
        portals,
        i,
        GridPos { x: 0, y: -1i32 },
    )
}

/// Cells of the grid with the same place in the wall table are the same.
pub proof fn lemma_cell_index_injective(grid: &GridMap, a: GridPos, b: GridPos)
    requires
        grid.wf(),
        grid.in_bounds(a),
        grid.in_bounds(b),
        grid.cell_index(a) == grid.cell_index(b),
    ensures
        a == b,
{
    vstd::arithmetic::div_mod::lemma_fundamental_div_mod_converse(
        grid.cell_index(a),
        grid.width as int,
        a.y as int,
        a.x as int,
    );
    vstd::arithmetic::div_mod::lemma_fundamental_div_mod_converse(
        grid.cell_index(b),
        grid.width as int,
        b.y as int,
        b.x as int,
    );
}

/// For each cell of the grid the portals that lie on it, in the order of the
/// portal list.
pub fn index_by_cell(grid: &GridMap, size: Ghost<int>, portals: &Vec<PortalNode>) -> (table: Vec<
    Vec<usize>,
>)
    requires
        grid.wf(),
        forall|i: int| 0 <= i < portals@.len() ==> #[trigger] portal_valid(grid, size@, portals@, i),
    ensures
        table@.len() == grid.width * grid.height,
        forall|pos: GridPos|
            grid.in_bounds(pos) ==> table@[grid.cell_index(pos)]@ == #[trigger] all_at(portals@, pos),
{
    assert(0 <= grid.width * grid.height) by (nonlinear_arith)
        requires
            0 <= grid.width,
            0 <= grid.height,
    ;
    let cells = (grid.width * grid.height) as usize;
    let mut table: Vec<Vec<usize>> = Vec::new();
    let mut c: usize = 0;
    while c < cells
        invariant
            c <= cells,
            table@.len() == c,
            forall|k: int| 0 <= k < c ==> (#[trigger] table@[k])@ == Seq::<usize>::empty(),
        decreases cells - c,
    {
        table.push(Vec::new());
        c += 1;
    }
    let mut i: usize = 0;
    proof {
        assert(portals@.take(0) =~= Seq::<PortalNode>::empty());
        assert forall|pos: GridPos| grid.in_bounds(pos) implies table@[grid.cell_index(pos)]@
            == #[trigger] all_at(portals@.take(0), pos) by {
            lemma_cell_index_bound(pos.x as int, pos.y as int, grid.width as int, grid.height as int);
        }
    }
    while i < portals.len()
        invariant
            grid.wf(),
            forall|k: int| 0 <= k < portals@.len() ==> #[trigger] portal_valid(grid, size@, portals@, k),
            i <= portals@.len(),
            table@.len() == grid.width * grid.height,
            forall|pos: GridPos|
                grid.in_bounds(pos) ==> table@[grid.cell_index(pos)]@ == #[trigger] all_at(
                    portals@.take(i as int),
                    pos,
                ),
        decreases portals@.len() - i,
    {
        let p = portals[i].pos;
        proof {
            assert(portal_valid(grid, size@, portals@, i as int));
            lemma_cell_index_bound(p.x as int, p.y as int, grid.width as int, grid.height as int);
        }
        let ghost before = table@;
        let at = (p.y * grid.width + p.x) as usize;
        table[at].push(i);
        proof {
            let shorter = portals@.take(i as int);
            let longer = portals@.take(i + 1);
            assert(longer.drop_last() =~= shorter);
            assert(longer.last() == portals@[i as int]);
            assert forall|pos: GridPos| grid.in_bounds(pos) implies table@[grid.cell_index(pos)]@
                == #[trigger] all_at(longer, pos) by {
                lemma_cell_index_bound(
                    pos.x as int,
                    pos.y as int,
                    grid.width as int,
                    grid.height as int,
                );
                if pos != p {
                    if grid.cell_index(pos) == grid.cell_index(p) {
                        lemma_cell_index_injective(grid, pos, p);
                    }
                    assert(before[grid.cell_index(pos)]@ == all_at(shorter, pos));
                } else {
                    assert(before[grid.cell_index(pos)]@ == all_at(shorter, pos));
                }
            }
        }
        i += 1;
    }
    proof {
        assert(portals@.take(portals@.len() as int) =~= portals@);
    }
    table
}

/// Adds to `row` the steps from portal `i` in the direction (`dx`, `dy`).
fn push_inter_edge(
    grid: &GridMap,
    size: Ghost<int>,
    portals: &Vec<PortalNode>,
    table: &Vec<Vec<usize>>,
    row: &mut Vec<AbstractEdge>,
    i: usize,
    dx: i32,
    dy: i32,
)
    requires
        grid.wf(),
        forall|k: int| 0 <= k < portals@.len() ==> #[trigger] portal_valid(grid, size@, portals@, k),
        table@.len() == grid.width * grid.height,
        forall|pos: GridPos|
            grid.in_bounds(pos) ==> table@[grid.cell_index(pos)]@ == #[trigger] all_at(portals@, pos),
        i < portals@.len(),
        -1 <= dx <= 1,
        -1 <= dy <= 1,
    ensures
        final(row)@ == old(row)@ + inter_edge(portals@, i as int, GridPos { x: dx, y: dy }),
{
    let count = portals.len();
    let p = portals[i];
    proof {
        assert(portal_valid(grid, size@, portals@, i as int));
    }
    let target = GridPos { x: p.pos.x + dx, y: p.pos.y + dy };
    proof {
        assert(target == shifted(p.pos, GridPos { x: dx, y: dy }));
        lemma_all_at(portals@, target);
    }
    let ghost all = all_at(portals@, target);
    if target.x >= 0 && target.x < grid.width && target.y >= 0 && target.y < grid.height {
        proof {
            lemma_cell_index_bound(
                target.x as int,
                target.y as int,
                grid.width as int,
                grid.height as int,
            );
            assert(table@[grid.cell_index(target)]@ == all_at(portals@, target));
        }
        let list = &table[(target.y * grid.width + target.x) as usize];
        let mut k: usize = 0;
        proof {
            assert(row@ =~= old(row)@ + steps_to(portals@, all, p.cluster_xy, 0));
        }
        while k < list.len()
            invariant
                list@ == all,
                k <= list@.len(),
                forall|x: int| 0 <= x < all.len() ==> (#[trigger] all[x]) < portals@.len(),
                row@ == old(row)@ + steps_to(portals@, all, p.cluster_xy, k as int),
            decreases list@.len() - k,
        {
            let q = list[k];
            if portals[q].cluster_xy != p.cluster_xy {
                row.push(AbstractEdge {
                    to: PortalId(q),
                    cost: 1,
                    is_inter_cluster: true,
                    cached_path: None,
                });
            }
            proof {
                assert(row@ =~= old(row)@ + steps_to(portals@, all, p.cluster_xy, k + 1));
            }
            k += 1;
        }
    } else {
        proof {
            if all.len() > 0 {
                assert(all[0] < portals@.len());
                assert(portal_valid(grid, size@, portals@, all[0] as int));
            }
            assert(row@ =~= old(row)@ + inter_edge(portals@, i as int, GridPos { x: dx, y: dy }));
        }
    }
}

/// Every edge of the graph is a valid edge of its portal.
pub open spec fn graph_valid(
    grid: &GridMap,
    size: int,
    portals: Seq<PortalNode>,
    graph: Seq<Vec<AbstractEdge>>,
) -> bool {
    forall|i: int, j: int|
        0 <= i < graph.len() && 0 <= j < graph[i]@.len() ==> edge_valid(
            grid,
            size,
            portals,
            #[trigger] graph[i]@[j],
            i,
        )
}

/// The direction of an edge of a row of steps between clusters.
pub proof fn lemma_inter_row_edge(portals: Seq<PortalNode>, i: int, j: int) -> (dir: GridPos)
    requires
        0 <= j < inter_row(portals, i).len(),
    ensures
        inter_edge(portals, i, dir).contains(inter_row(portals, i)[j]),
        dir == (GridPos { x: 1, y: 0 }) || dir == (GridPos { x: -1i32, y: 0 }) || dir == (GridPos {
            x: 0,
            y: 1,
        }) || dir == (GridPos { x: 0, y: -1i32 }),
{
    let d0 = GridPos { x: 1, y: 0 };
    let d1 = GridPos { x: -1i32, y: 0 };
    let d2 = GridPos { x: 0, y: 1 };
    let d3 = GridPos { x: 0, y: -1i32 };
    let s0 = inter_edge(portals, i, d0);
    let s1 = inter_edge(portals, i, d1);
    let s2 = inter_edge(portals, i, d2);
    let s3 = inter_edge(portals, i, d3);
    let row = inter_row(portals, i);
    if j < s0.len() {
        assert(s0[j] == row[j]);
        d0
    } else if j < s0.len() + s1.len() {
        assert(s1[j - s0.len()] == row[j]);
        d1
    } else if j < s0.len() + s1.len() + s2.len() {
        assert(s2[j - s0.len() - s1.len()] == row[j]);
        d2
    } else {
        assert(s3[j - s0.len() - s1.len() - s2.len()] == row[j]);
        d3
    }
}

/// An edge of the steps in one direction is a step to a portal of another
/// cluster on the neighbouring cell.
pub proof fn lemma_inter_edge_target(portals: Seq<PortalNode>, i: int, dir: GridPos, e: AbstractEdge)
    requires
        portals.len() <= usize::MAX,
        inter_edge(portals, i, dir).contains(e),
    ensures
        e == step_to(e.to.0),
        e.to.0 < portals.len(),
        portals[e.to.0 as int].pos == shifted(portals[i].pos, dir),
        portals[e.to.0 as int].cluster_xy != portals[i].cluster_xy,
{
    let target = shifted(portals[i].pos, dir);
    let list = all_at(portals, target);
    lemma_all_at(portals, target);
    lemma_steps_to(portals, list, portals[i].cluster_xy, list.len() as int);
    let all = inter_edge(portals, i, dir);
    let j = choose|j: int| 0 <= j < all.len() && all[j] == e;
    let x = choose|x: int|
        0 <= x < list.len() && portals[list[x] as int].cluster_xy != portals[i].cluster_xy && all[j]
            == step_to(list[x]);
    assert(list[x] < portals.len());
}

/// An edge between clusters of portal `i` is valid.
pub proof fn lemma_inter_edge_valid(
    grid: &GridMap,
    size: int,
    portals: Seq<PortalNode>,
    i: int,
    e: AbstractEdge,
)
    requires
        grid.wf(),
        portals.len() <= usize::MAX,
        forall|k: int| 0 <= k < portals.len() ==> #[trigger] portal_valid(grid, size, portals, k),
        0 <= i < portals.len(),
        inter_row(portals, i).contains(e),
    ensures
        edge_valid(grid, size, portals, e, i),
{
    let row = inter_row(portals, i);
    let j = choose|j: int| 0 <= j < row.len() && row[j] == e;
    let dir = lemma_inter_row_edge(portals, i, j);
    lemma_inter_edge_target(portals, i, dir, e);
    assert(portal_valid(grid, size, portals, i));
}

/// A portal has a step to every portal of another cluster on a cell next to
/// it.
pub proof fn lemma_inter_row_reaches(portals: Seq<PortalNode>, a: int, b: int)
    requires
        portals.len() <= usize::MAX,
        0 <= a < portals.len(),
        0 <= b < portals.len(),
        0 <= portals[a].pos.x < i32::MAX,
        0 <= portals[a].pos.y < i32::MAX,
        adjacent(portals[a].pos, portals[b].pos),
        portals[a].cluster_xy != portals[b].cluster_xy,
    ensures
        inter_row(portals, a).contains(step_to(b as usize)),
{
    let pa = portals[a].pos;
    let pb = portals[b].pos;
    let d0 = GridPos { x: 1, y: 0 };
    let d1 = GridPos { x: -1i32, y: 0 };
    let d2 = GridPos { x: 0, y: 1 };
    let d3 = GridPos { x: 0, y: -1i32 };
    let dir = if pb.x == pa.x + 1 {
        d0
    } else if pb.x == pa.x - 1 {
        d1
    } else if pb.y == pa.y + 1 {
        d2
    } else {
        d3
    };
    assert(shifted(pa, dir) == pb);
    let list = all_at(portals, pb);
    lemma_all_at(portals, pb);
    lemma_steps_to(portals, list, portals[a].cluster_xy, list.len() as int);
    assert(list.contains(b as usize));
    let x = choose|x: int| 0 <= x < list.len() && list[x] == b as usize;
    assert(portals[list[x] as int].cluster_xy != portals[a].cluster_xy);
    let part = inter_edge(portals, a, dir);
    assert(part.contains(step_to(list[x])));
    let j = choose|j: int| 0 <= j < part.len() && part[j] == step_to(b as usize);
    let s0 = inter_edge(portals, a, d0);
    let s1 = inter_edge(portals, a, d1);
    let s2 = inter_edge(portals, a, d2);
    let row = inter_row(portals, a);
    if dir == d0 {
        assert(row[j] == part[j]);
    } else if dir == d1 {
        assert(row[s0.len() + j] == part[j]);
    } else if dir == d2 {
        assert(row[s0.len() + s1.len() + j] == part[j]);
    } else {
        assert(row[s0.len() + s1.len() + s2.len() + j] == part[j]);
    }
}

/// The graph has a step between clusters from portal `a` to portal `b`.
pub open spec fn has_step(graph: Seq<Vec<AbstractEdge>>, a: int, b: int) -> bool {
    exists|j: int|
        0 <= j < graph[a]@.len() && (#[trigger] graph[a]@[j]).to.0 == b && graph[a]@[j].is_inter_cluster
}

/// Every portal has a step to every portal of another cluster that lies one
/// cell from it.
pub open spec fn inter_complete(portals: Seq<PortalNode>, graph: Seq<Vec<AbstractEdge>>) -> bool {
    forall|a: int, b: int|
        #![trigger portals[a], portals[b]]
        0 <= a < portals.len() && 0 <= b < portals.len() && adjacent(portals[a].pos, portals[b].pos)
            && portals[a].cluster_xy != portals[b].cluster_xy ==> has_step(graph, a, b)
}

/// Where every row begins with the steps of its portal, the steps are
/// complete.
pub proof fn lemma_inter_complete(
    grid: &GridMap,
    size: int,
    portals: Seq<PortalNode>,
    graph: Seq<Vec<AbstractEdge>>,
)
    requires
        grid.wf(),
        portals.len() <= usize::MAX,
        graph.len() == portals.len(),
        forall|k: int| 0 <= k < portals.len() ==> #[trigger] portal_valid(grid, size, portals, k),
        forall|i: int| 0 <= i < portals.len() ==> inter_row(portals, i).is_prefix_of(#[trigger] graph[i]@),
    ensures
        inter_complete(portals, graph),
{
    assert forall|a: int, b: int|
        #![trigger portals[a], portals[b]]
        0 <= a < portals.len() && 0 <= b < portals.len() && adjacent(portals[a].pos, portals[b].pos)
            && portals[a].cluster_xy != portals[b].cluster_xy implies has_step(graph, a, b) by {
        assert(portal_valid(grid, size, portals, a));
        lemma_inter_row_reaches(portals, a, b);
        let row = inter_row(portals, a);
        let j = choose|j: int| 0 <= j < row.len() && row[j] == step_to(b as usize);
        assert(row.is_prefix_of(graph[a]@));
        assert(graph[a]@[j] == row[j]);
    }
}

impl HPAGrid {
    /// Links every portal to the portals of other clusters on the cells next
    /// to it.
    pub fn build_inter_cluster_edges(
        grid: &GridMap,
        size: Ghost<int>,
        portals: &Vec<PortalNode>,
    ) -> (graph: Vec<Vec<AbstractEdge>>)
        requires
            grid.wf(),
            forall|i: int| 0 <= i < portals@.len() ==> #[trigger] portal_valid(grid, size@, portals@, i),
        ensures
            graph@.len() == portals@.len(),
            forall|i: int| 0 <= i < graph@.len() ==> (#[trigger] graph@[i])@ == inter_row(portals@, i),
            graph_valid(grid, size@, portals@, graph@),
    {
        let table = index_by_cell(grid, size, portals);
        let count = portals.len();
        let mut graph: Vec<Vec<AbstractEdge>> = Vec::new();
        let mut i: usize = 0;
        while i < portals.len()
            invariant
                grid.wf(),
                forall|k: int|
                    0 <= k < portals@.len() ==> #[trigger] portal_valid(grid, size@, portals@, k),
                table@.len() == grid.width * grid.height,
                forall|pos: GridPos|
                    grid.in_bounds(pos) ==> table@[grid.cell_index(pos)]@ == #[trigger] all_at(
                        portals@,
                        pos,
                    ),
                i <= portals@.len(),
                graph@.len() == i,
                forall|k: int| 0 <= k < i ==> (#[trigger] graph@[k])@ == inter_row(portals@, k),
            decreases portals@.len() - i,
        {
            let mut row: Vec<AbstractEdge> = Vec::new();
            push_inter_edge(grid, size, portals, &table, &mut row, i, 1, 0);
            push_inter_edge(grid, size, portals, &table, &mut row, i, -1, 0);
            push_inter_edge(grid, size, portals, &table, &mut row, i, 0, 1);
            push_inter_edge(grid, size, portals, &table, &mut row, i, 0, -1);
            proof {
                assert(row@ =~= inter_row(portals@, i as int));
            }
            graph.push(row);
            i += 1;
        }
        proof {
            assert forall|a: int, b: int|
                0 <= a < graph@.len() && 0 <= b < graph@[a]@.len() implies edge_valid(
                grid,
                size@,
                portals@,
                #[trigger] graph@[a]@[b],
                a,
            ) by {
                assert(graph@[a]@ == inter_row(portals@, a));
                assert(inter_row(portals@, a)[b] == graph@[a]@[b]);
                lemma_inter_edge_valid(grid, size@, portals@, a, graph@[a]@[b]);
            }
        }
        graph
    }
}

/// The cells of a path in reverse order.
pub open spec fn flipped(path: Seq<GridPos>) -> Seq<GridPos> {
    Seq::new(path.len(), |k: int| path[path.len() - 1 - k])
}

pub fn reversed_cells(cells: &Vec<GridPos>) -> (out: Vec<GridPos>)
    ensures
        out@ == flipped(cells@),
{
    let mut out: Vec<GridPos> = Vec::new();
    let mut i: usize = cells.len();
    while i > 0
        invariant
            i <= cells@.len(),
            out@.len() == cells@.len() - i,
            forall|k: int| 0 <= k < out@.len() ==> #[trigger] out@[k] == cells@[cells@.len() - 1 - k],
        decreases i,
    {
        i -= 1;
        out.push(cells[i]);
    }
    proof {
        assert(out@ =~= flipped(cells@));
    }
    out
}

/// A path within a box, walked backwards, is a path within the box if it
/// began on a walkable cell of the box.
pub proof fn lemma_flipped_path(
    grid: &GridMap,
    lo: GridPos,
    hi: GridPos,
    a: GridPos,
    b: GridPos,
    path: Seq<GridPos>,
)
    requires
        is_local_path(grid, lo, hi, a, b, path),
        grid.walkable(a),
        in_box(lo, hi, a),
    ensures
        is_local_path(grid, lo, hi, b, a, flipped(path)),
{
    let back = flipped(path);
    assert forall|i: int| 1 <= i < back.len() implies #[trigger] path_step(grid, lo, hi, back, i) by {
        let k = path.len() - 1 - i;
        assert(path_step(grid, lo, hi, path, k + 1));
        if k > 0 {
            assert(path_step(grid, lo, hi, path, k));
        }
    }
}

/// A shortest path within a box, walked backwards, is a shortest path back,
/// if both of its ends are walkable cells of the box.
pub proof fn lemma_flipped_shortest(
    grid: &GridMap,
    lo: GridPos,
    hi: GridPos,
    a: GridPos,
    b: GridPos,
    path: Seq<GridPos>,
)
    requires
        shortest_local_path(grid, lo, hi, a, b, path),
        grid.walkable(a),
        in_box(lo, hi, a),
        grid.walkable(b),
        in_box(lo, hi, b),
    ensures
        shortest_local_path(grid, lo, hi, b, a, flipped(path)),
{
    lemma_flipped_path(grid, lo, hi, a, b, path);
    assert forall|other: Seq<GridPos>| #[trigger]
        is_local_path(grid, lo, hi, b, a, other) implies flipped(path).len() <= other.len() by {
        lemma_flipped_path(grid, lo, hi, b, a, other);
        assert(is_local_path(grid, lo, hi, a, b, flipped(other)));
    }
}

/// Each row of `after` begins with the row of `before`.
pub open spec fn rows_extend(before: Seq<Vec<AbstractEdge>>, after: Seq<Vec<AbstractEdge>>) -> bool {
    &&& before.len() == after.len()
    &&& forall|i: int| 0 <= i < before.len() ==> (#[trigger] before[i])@.is_prefix_of(after[i]@)
}

pub proof fn lemma_rows_extend_push(
    given: Seq<Vec<AbstractEdge>>,
    before: Seq<Vec<AbstractEdge>>,
    after: Seq<Vec<AbstractEdge>>,
    a: int,
    e: AbstractEdge,
)
    requires
        rows_extend(given, before),
        0 <= a < before.len(),
        after.len() == before.len(),
        after[a]@ == before[a]@.push(e),
        forall|i: int| 0 <= i < before.len() && i != a ==> #[trigger] after[i] == before[i],
    ensures
        rows_extend(given, after),
{
    assert forall|i: int| 0 <= i < given.len() implies (#[trigger] given[i])@.is_prefix_of(
        after[i]@,
    ) by {
        assert(given[i]@.is_prefix_of(before[i]@));
        if i == a {
            assert(given[i]@ =~= after[i]@.subrange(0, given[i]@.len() as int));
        }
    }
}

pub proof fn lemma_rows_extend_trans(
    a: Seq<Vec<AbstractEdge>>,
    b: Seq<Vec<AbstractEdge>>,
    c: Seq<Vec<AbstractEdge>>,
)
    requires
        rows_extend(a, b),
        rows_extend(b, c),
    ensures
        rows_extend(a, c),
{
    assert forall|i: int| 0 <= i < a.len() implies (#[trigger] a[i])@.is_prefix_of(c[i]@) by {
        assert(a[i]@.is_prefix_of(b[i]@));
        assert(b[i]@.is_prefix_of(c[i]@));
        assert(a[i]@ =~= c[i]@.subrange(0, a[i]@.len() as int));
    }
}

/// If a path leads from portal `a` to portal `b` inside their cluster, the
/// graph has an edge with a cached path from each to the other.
pub open spec fn pair_served(
    grid: &GridMap,
    size: int,
    portals: Seq<PortalNode>,
    graph: Seq<Vec<AbstractEdge>>,
    a: int,
    b: int,
) -> bool {
    locally_connected(
        grid,
        cluster_lo(size, portals[a].cluster_xy),
        cluster_hi(grid, size, portals[a].cluster_xy),
        portals[a].pos,
        portals[b].pos,
    ) ==> has_cached_edge(graph, a, b) && has_cached_edge(graph, b, a)
}

/// A pair that is served stays served when rows grow.
pub proof fn lemma_pair_stays_served(
    grid: &GridMap,
    size: int,
    portals: Seq<PortalNode>,
    before: Seq<Vec<AbstractEdge>>,
    after: Seq<Vec<AbstractEdge>>,
    a: int,
    b: int,
)
    requires
        rows_extend(before, after),
        0 <= a < before.len(),
        0 <= b < before.len(),
        pair_served(grid, size, portals, before, a, b),
    ensures
        pair_served(grid, size, portals, after, a, b),
{
    if has_cached_edge(before, a, b) && has_cached_edge(before, b, a) {
        let j = choose|j: int|
            0 <= j < before[a]@.len() && (#[trigger] before[a]@[j]).to.0 == b
                && !before[a]@[j].is_inter_cluster;
        assert(before[a]@.is_prefix_of(after[a]@));
        assert(after[a]@[j] == before[a]@[j]);
        let k = choose|k: int|
            0 <= k < before[b]@.len() && (#[trigger] before[b]@[k]).to.0 == a
                && !before[b]@[k].is_inter_cluster;
        assert(before[b]@.is_prefix_of(after[b]@));
        assert(after[b]@[k] == before[b]@[k]);
    }
}

/// A pair of portals of one cluster is served in both orders or in none.
pub proof fn lemma_pair_served_both_ways(
    grid: &GridMap,
    size: int,
    portals: Seq<PortalNode>,
    graph: Seq<Vec<AbstractEdge>>,
    a: int,
    b: int,
)
    requires
        dims_ok(grid, size),
        0 <= a < portals.len(),
        0 <= b < portals.len(),
        portal_valid(grid, size, portals, a),
        portal_valid(grid, size, portals, b),
        portals[a].cluster_xy == portals[b].cluster_xy,
        pair_served(grid, size, portals, graph, a, b),
    ensures
        pair_served(grid, size, portals, graph, b, a),
{
    let c = portals[a].cluster_xy;
    let lo = cluster_lo(size, c);
    let hi = cluster_hi(grid, size, c);
    lemma_cell_in_cluster(grid, size, portals[a].pos);
    lemma_cell_in_cluster(grid, size, portals[b].pos);
    if locally_connected(grid, lo, hi, portals[b].pos, portals[a].pos) {
        let path = choose|path: Seq<GridPos>|
            is_local_path(grid, lo, hi, portals[b].pos, portals[a].pos, path);
        lemma_flipped_path(grid, lo, hi, portals[b].pos, portals[a].pos, path);
        assert(is_local_path(grid, lo, hi, portals[a].pos, portals[b].pos, flipped(path)));
    }
}

/// Every pair of different portals of the first `k` clusters is served.
pub open spec fn clusters_served(
    grid: &GridMap,
    size: int,
    portals: Seq<PortalNode>,
    graph: Seq<Vec<AbstractEdge>>,
    k: int,
) -> bool {
    forall|a: int, b: int|
        #![trigger portals[a], portals[b]]
        0 <= a < portals.len() && 0 <= b < portals.len() && a != b && portals[a].cluster_xy
            == portals[b].cluster_xy && cluster_index(grid, size, portals[a].cluster_xy) < k
            ==> pair_served(grid, size, portals, graph, a, b)
}

/// Of the portals `ids` of one cluster, every pair is served whose first
/// stands before place `i`, or at place `i` with the second before place `j`.
pub open spec fn list_served(
    grid: &GridMap,
    size: int,
    portals: Seq<PortalNode>,
    graph: Seq<Vec<AbstractEdge>>,
    ids: Seq<PortalId>,
    i: int,
    j: int,
) -> bool {
    forall|x: int, y: int|
        #![trigger ids[x], ids[y]]
        0 <= x < y < ids.len() && (x < i || (x == i && y < j)) ==> pair_served(
            grid,
            size,
            portals,
            graph,
            ids[x].0 as int,
            ids[y].0 as int,
        )
}

/// The targets of the cached paths of a row, in the order of the row.
pub open spec fn cached_targets(row: Seq<AbstractEdge>) -> Seq<usize>
    decreases row.len(),
{
    if row.len() == 0 {
        Seq::empty()
    } else if row.last().is_inter_cluster {
        cached_targets(row.drop_last())
    } else {
        cached_targets(row.drop_last()).push(row.last().to.0)
    }
}

/// Of the first `n` portals of the list `ids` of a cluster, those other than
/// `a` to which a path leads from `a` inside the cluster, in the order of
/// the list.
pub open spec fn connected_upto(
    grid: &GridMap,
    size: int,
    portals: Seq<PortalNode>,
    ids: Seq<PortalId>,
    a: int,
    n: int,
) -> Seq<usize>
    decreases n,
{
    if n <= 0 {
        Seq::empty()
    } else {
        let rest = connected_upto(grid, size, portals, ids, a, n - 1);
        let b = ids[n - 1].0;
        if b != a && locally_connected(
            grid,
            cluster_lo(size, portals[a].cluster_xy),
            cluster_hi(grid, size, portals[a].cluster_xy),
            portals[a].pos,
            portals[b as int].pos,
        ) {
            rest.push(b)
        } else {
            rest
        }
    }
}

/// The row of portal `a` begins with its steps to other clusters, and goes
/// on with cached paths to those of the first `n` portals of its cluster to
/// which a path leads, and with nothing else.
pub open spec fn row_state(
    grid: &GridMap,
    size: int,
    portals: Seq<PortalNode>,
    graph: Seq<Vec<AbstractEdge>>,
    ids: Seq<PortalId>,
    a: int,
    n: int,
) -> bool {
    &&& inter_row(portals, a).is_prefix_of(graph[a]@)
    &&& cached_targets(graph[a]@) == connected_upto(grid, size, portals, ids, a, n)
    &&& graph[a]@.len() == inter_row(portals, a).len() + cached_targets(graph[a]@).len()
}

/// How many portals of its cluster the row of the portal at place `p` has
/// been linked with, when the pairs are gone through in order and the pair
/// of the places `i` and `j` is the next.
pub open spec fn row_progress(len: int, p: int, i: int, j: int) -> int {
    if p < i {
        len
    } else if p == i {
        j
    } else if p < j {
        i + 1
    } else {
        i
    }
}

/// Every row of the cluster is as far as the pairs have been gone through.
pub open spec fn rows_in_progress(
    grid: &GridMap,
    size: int,
    portals: Seq<PortalNode>,
    graph: Seq<Vec<AbstractEdge>>,
    ids: Seq<PortalId>,
    i: int,
    j: int,
) -> bool {
    forall|p: int|
        0 <= p < ids.len() ==> row_state(
            grid,
            size,
            portals,
            graph,
            ids,
            (#[trigger] ids[p]).0 as int,
            row_progress(ids.len() as int, p, i, j),
        )
}

/// The rows of the portals of all clusters but the one at place `k` are the
/// same.
pub open spec fn same_rows_elsewhere(
    grid: &GridMap,
    size: int,
    portals: Seq<PortalNode>,
    before: Seq<Vec<AbstractEdge>>,
    after: Seq<Vec<AbstractEdge>>,
    k: int,
) -> bool {
    forall|a: int|
        0 <= a < portals.len() && cluster_index(grid, size, (#[trigger] portals[a]).cluster_xy) != k
            ==> after[a]@ == before[a]@
}

/// The portals `ids` are the portals of the cluster `c`, which lies at place
/// `k`, each once.
pub open spec fn cluster_list(
    grid: &GridMap,
    size: int,
    portals: Seq<PortalNode>,
    ids: Seq<PortalId>,
    c: GridPos,
    k: int,
) -> bool {
    &&& 0 <= c.x < clusters_across(grid.width as int, size)
    &&& cluster_index(grid, size, c) == k
    &&& forall|m: int|
        0 <= m < ids.len() ==> (#[trigger] ids[m]).0 < portals.len() && portals[ids[m].0 as int].cluster_xy
            == c
    &&& forall|x: int, y: int| 0 <= x < y < ids.len() ==> (#[trigger] ids[x]).0 != (#[trigger] ids[y]).0
}

pub proof fn lemma_cached_targets_push(row: Seq<AbstractEdge>, e: AbstractEdge)
    ensures
        e.is_inter_cluster ==> cached_targets(row.push(e)) == cached_targets(row),
        !e.is_inter_cluster ==> cached_targets(row.push(e)) == cached_targets(row).push(e.to.0),
{
    assert(row.push(e).drop_last() =~= row);
}

/// A row of steps between clusters holds no cached path.
pub proof fn lemma_inter_row_has_no_cached(portals: Seq<PortalNode>, a: int)
    requires
        portals.len() <= usize::MAX,
    ensures
        cached_targets(inter_row(portals, a)) == Seq::<usize>::empty(),
{
    assert forall|j: int| 0 <= j < inter_row(portals, a).len() implies (#[trigger] inter_row(
        portals,
        a,
    )[j]).is_inter_cluster by {
        lemma_inter_row_all_inter(portals, a, j);
    }
    lemma_all_inter_no_cached(inter_row(portals, a));
}

/// Every edge of a row of steps between clusters is such a step.
pub proof fn lemma_inter_row_all_inter(portals: Seq<PortalNode>, a: int, j: int)
    requires
        portals.len() <= usize::MAX,
        0 <= j < inter_row(portals, a).len(),
    ensures
        inter_row(portals, a)[j].is_inter_cluster,
{
    let dir = lemma_inter_row_edge(portals, a, j);
    lemma_inter_edge_target(portals, a, dir, inter_row(portals, a)[j]);
}

pub proof fn lemma_all_inter_no_cached(row: Seq<AbstractEdge>)
    requires
        forall|j: int| 0 <= j < row.len() ==> (#[trigger] row[j]).is_inter_cluster,
    ensures
        cached_targets(row) == Seq::<usize>::empty(),
    decreases row.len(),
{
    if row.len() > 0 {
        lemma_all_inter_no_cached(row.drop_last());
    }
}

/// The portals of a cluster stand in its list in the order of their numbers.
pub proof fn lemma_ids_ascend(grid: &GridMap, size: int, portals: Seq<PortalNode>, k: int)
    requires
        forall|i: int| 0 <= i < portals.len() ==> (#[trigger] portals[i]).id.0 == i,
    ensures
        forall|x: int, y: int|
            0 <= x < y < crate::hpa::ids_in(grid, size, portals, k).len() ==> (
            #[trigger] crate::hpa::ids_in(grid, size, portals, k)[x]).0 < (#[trigger] crate::hpa::ids_in(
                grid,
                size,
                portals,
                k,
            )[y]).0,
    decreases portals.len(),
{
    if portals.len() > 0 {
        let front = portals.drop_last();
        lemma_ids_ascend(grid, size, front, k);
        lemma_ids_in(grid, size, front, k);
        let rest = crate::hpa::ids_in(grid, size, front, k);
        let all = crate::hpa::ids_in(grid, size, portals, k);
        assert forall|x: int, y: int| 0 <= x < y < all.len() implies (#[trigger] all[x]).0 < (
        #[trigger] all[y]).0 by {
            if y < rest.len() {
                assert(rest[x].0 < rest[y].0);
            } else {
                assert(all[x] == rest[x]);
                assert(rest[x].0 < front.len());
            }
        }
    }
}

/// What linking a pair does to the graph: if a path leads from the one to
/// the other inside their cluster, the one gets a cached path to the other
/// at the end of its row and the other the same path backwards; else
/// nothing changes.
pub open spec fn pair_linked(
    grid: &GridMap,
    size: int,
    portals: Seq<PortalNode>,
    before: Seq<Vec<AbstractEdge>>,
    after: Seq<Vec<AbstractEdge>>,
    a: int,
    b: int,
) -> bool {
    &&& after.len() == before.len()
    &&& forall|i: int| 0 <= i < before.len() && i != a && i != b ==> (#[trigger] after[i])@ == before[i]@
    &&& if locally_connected(
        grid,
        cluster_lo(size, portals[a].cluster_xy),
        cluster_hi(grid, size, portals[a].cluster_xy),
        portals[a].pos,
        portals[b].pos,
    ) {
        &&& after[a]@.len() == before[a]@.len() + 1
        &&& after[a]@.drop_last() == before[a]@
        &&& after[a]@.last().to.0 == b
        &&& !after[a]@.last().is_inter_cluster
        &&& after[b]@.len() == before[b]@.len() + 1
        &&& after[b]@.drop_last() == before[b]@
        &&& after[b]@.last().to.0 == a
        &&& !after[b]@.last().is_inter_cluster
        &&& after[a]@.last().cached_path is Some
        &&& after[b]@.last().cached_path is Some
        &&& after[b]@.last().cached_path->0@ == flipped(after[a]@.last().cached_path->0@)
    } else {
        &&& after[a]@ == before[a]@
        &&& after[b]@ == before[b]@
    }
}

/// Links two portals of one cluster by a shortest path between them inside
/// the cluster, in both directions, if there is a path.
fn link_pair(
    grid: &GridMap,
    size: i32,
    portals: &Vec<PortalNode>,
    graph: &mut Vec<Vec<AbstractEdge>>,
    a: usize,
    b: usize,
    lo: GridPos,
    hi: GridPos,
)
    requires
        dims_ok(grid, size as int),
        forall|i: int| 0 <= i < portals@.len() ==> #[trigger] portal_valid(grid, size as int, portals@, i),
        old(graph)@.len() == portals@.len(),
        graph_valid(grid, size as int, portals@, old(graph)@),
        a < portals@.len(),
        b < portals@.len(),
        a != b,
        portals@[a as int].cluster_xy == portals@[b as int].cluster_xy,
        lo == cluster_lo(size as int, portals@[a as int].cluster_xy),
        hi == cluster_hi(grid, size as int, portals@[a as int].cluster_xy),
    ensures
        final(graph)@.len() == portals@.len(),
        graph_valid(grid, size as int, portals@, final(graph)@),
        rows_extend(old(graph)@, final(graph)@),
        pair_served(grid, size as int, portals@, final(graph)@, a as int, b as int),
        pair_linked(grid, size as int, portals@, old(graph)@, final(graph)@, a as int, b as int),
{
    proof {
        assert(portal_valid(grid, size as int, portals@, a as int));
        assert(portal_valid(grid, size as int, portals@, b as int));
        lemma_cell_in_cluster(grid, size as int, portals@[a as int].pos);
        lemma_cell_in_cluster(grid, size as int, portals@[b as int].pos);
        assert forall|i: int| 0 <= i < graph@.len() implies (#[trigger] graph@[i])@.is_prefix_of(
            graph@[i]@,
        ) by {
            assert(graph@[i]@ =~= graph@[i]@.subrange(0, graph@[i]@.len() as int));
        }
    }
    let pos_a = portals[a].pos;
    let pos_b = portals[b].pos;
    match a_star_local(grid, pos_a, pos_b, lo, hi) {
        Some((cost, path)) => {
            let back = reversed_cells(&path);
            proof {
                lemma_flipped_shortest(grid, lo, hi, pos_a, pos_b, path@);
                assert(locally_connected(grid, lo, hi, pos_a, pos_b));
            }
            let forth = AbstractEdge {
                to: PortalId(b),
                cost,
                is_inter_cluster: false,
                cached_path: Some(path),
            };
            let home = AbstractEdge {
                to: PortalId(a),
                cost,
                is_inter_cluster: false,
                cached_path: Some(back),
            };
            proof {
                assert(edge_valid(grid, size as int, portals@, forth, a as int));
                assert(edge_valid(grid, size as int, portals@, home, b as int));
            }
            let ghost g0 = graph@;
            graph[a].push(forth);
            let ghost g1 = graph@;
            proof {
                assert forall|x: int, y: int|
                    0 <= x < g1.len() && 0 <= y < g1[x]@.len() implies edge_valid(
                    grid,
                    size as int,
                    portals@,
                    #[trigger] g1[x]@[y],
                    x,
                ) by {
                    if x == a && y == g0[x]@.len() {
                    } else {
                        assert(g1[x]@[y] == g0[x]@[y]);
                    }
                }
                lemma_rows_extend_push(g0, g0, g1, a as int, forth);
            }
            graph[b].push(home);
            proof {
                let g2 = graph@;
                assert forall|x: int, y: int|
                    0 <= x < g2.len() && 0 <= y < g2[x]@.len() implies edge_valid(
                    grid,
                    size as int,
                    portals@,
                    #[trigger] g2[x]@[y],
                    x,
                ) by {
                    if x == b && y == g1[x]@.len() {
                    } else {
                        assert(g2[x]@[y] == g1[x]@[y]);
                    }
                }
                lemma_rows_extend_push(g0, g1, g2, b as int, home);
                assert(g2[b as int]@[g2[b as int]@.len() - 1] == home);
                assert(has_cached_edge(g2, b as int, a as int));
                assert(g2[a as int]@[g2[a as int]@.len() - 1] == forth);
                assert(has_cached_edge(g2, a as int, b as int));
                assert(g2[a as int]@.drop_last() =~= g0[a as int]@);
                assert(g2[b as int]@.drop_last() =~= g0[b as int]@);
            }
        },
        None => {
            proof {
                assert(!locally_connected(grid, lo, hi, pos_a, pos_b));
            }
        },
    }
}

/// Wherever two portals have cached paths to each other, the one path is
/// the other walked backwards.
pub open spec fn mirrored(graph: Seq<Vec<AbstractEdge>>) -> bool {
    forall|a: int, b: int, j: int, k: int|
        #![trigger graph[a]@[j], graph[b]@[k]]
        0 <= a < graph.len() && 0 <= b < graph.len() && 0 <= j < graph[a]@.len() && 0 <= k
            < graph[b]@.len() && !graph[a]@[j].is_inter_cluster && graph[a]@[j].to.0 == b
            && !graph[b]@[k].is_inter_cluster && graph[b]@[k].to.0 == a ==> mirror_pair(
            graph[a]@[j],
            graph[b]@[k],
        )
}

pub open spec fn mirror_pair(e: AbstractEdge, f: AbstractEdge) -> bool {
    &&& e.cached_path is Some
    &&& f.cached_path is Some
    &&& f.cached_path->0@ == flipped(e.cached_path->0@)
}

/// A path walked backwards twice is the path.
pub proof fn lemma_flipped_twice(path: Seq<GridPos>)
    ensures
        flipped(flipped(path)) == path,
{
    assert(flipped(flipped(path)) =~= path);
}

/// The target of every cached path of a row is among its cached targets.
pub proof fn lemma_cached_target_listed(row: Seq<AbstractEdge>, j: int)
    requires
        0 <= j < row.len(),
        !row[j].is_inter_cluster,
    ensures
        cached_targets(row).contains(row[j].to.0),
    decreases row.len(),
{
    let front = row.drop_last();
    if j == row.len() - 1 {
        let all = cached_targets(row);
        assert(all[all.len() - 1] == row[j].to.0);
    } else {
        lemma_cached_target_listed(front, j);
        let t = cached_targets(front);
        let k = choose|k: int| 0 <= k < t.len() && t[k] == front[j].to.0;
        if !row.last().is_inter_cluster {
            assert(cached_targets(row)[k] == row[j].to.0);
        }
    }
}

/// Every portal that is linked stands among the first `n` of the list.
pub proof fn lemma_connected_upto_within(
    grid: &GridMap,
    size: int,
    portals: Seq<PortalNode>,
    ids: Seq<PortalId>,
    a: int,
    n: int,
    b: usize,
)
    requires
        0 <= n <= ids.len(),
        connected_upto(grid, size, portals, ids, a, n).contains(b),
    ensures
        exists|x: int| 0 <= x < n && (#[trigger] ids[x]).0 == b,
    decreases n,
{
    if n > 0 {
        let rest = connected_upto(grid, size, portals, ids, a, n - 1);
        let all = connected_upto(grid, size, portals, ids, a, n);
        let k = choose|k: int| 0 <= k < all.len() && all[k] == b;
        if k < rest.len() {
            assert(rest[k] == b);
            lemma_connected_upto_within(grid, size, portals, ids, a, n - 1, b);
        } else {
            assert(ids[n - 1].0 == b);
        }
    }
}

/// Linking a pair keeps the cached paths mirrored.
pub proof fn lemma_pair_keeps_mirror(
    grid: &GridMap,
    size: int,
    portals: Seq<PortalNode>,
    before: Seq<Vec<AbstractEdge>>,
    after: Seq<Vec<AbstractEdge>>,
    ids: Seq<PortalId>,
    c: GridPos,
    k: int,
    i: int,
    j: int,
)
    requires
        before.len() == portals.len(),
        cluster_list(grid, size, portals, ids, c, k),
        0 <= i < j < ids.len(),
        rows_in_progress(grid, size, portals, before, ids, i, j),
        pair_linked(grid, size, portals, before, after, ids[i].0 as int, ids[j].0 as int),
        mirrored(before),
    ensures
        mirrored(after),
{
    let a = ids[i].0 as int;
    let b = ids[j].0 as int;
    let len = ids.len() as int;
    assert(row_state(grid, size, portals, before, ids, a, row_progress(len, i, i, j)));
    assert(row_state(grid, size, portals, before, ids, b, row_progress(len, j, i, j)));
    assert forall|x: int, y: int, u: int, v: int|
        #![trigger after[x]@[u], after[y]@[v]]
        0 <= x < after.len() && 0 <= y < after.len() && 0 <= u < after[x]@.len() && 0 <= v
            < after[y]@.len() && !after[x]@[u].is_inter_cluster && after[x]@[u].to.0 == y
            && !after[y]@[v].is_inter_cluster && after[y]@[v].to.0 == x implies mirror_pair(
        after[x]@[u],
        after[y]@[v],
    ) by {
        let u_old = u < before[x]@.len();
        let v_old = v < before[y]@.len();
        if u_old {
            assert(after[x]@[u] == before[x]@[u]) by {
                if (x == a || x == b) && after[x]@.len() > before[x]@.len() {
                    assert(after[x]@.drop_last() == before[x]@);
                    assert(after[x]@.drop_last()[u] == after[x]@[u]);
                }
            }
        }
        if v_old {
            assert(after[y]@[v] == before[y]@[v]) by {
                if (y == a || y == b) && after[y]@.len() > before[y]@.len() {
                    assert(after[y]@.drop_last() == before[y]@);
                    assert(after[y]@.drop_last()[v] == after[y]@[v]);
                }
            }
        }
        if u_old && v_old {
            assert(mirror_pair(before[x]@[u], before[y]@[v]));
        } else if !u_old && !v_old {
            if x == a {
                assert(y == b);
            } else {
                assert(x == b && y == a);
                lemma_flipped_twice(after[a]@.last().cached_path->0@);
            }
        } else if !u_old {
            // The new edge of row x leads to y, and row y held a cached path back before.
            lemma_cached_target_listed(before[y]@, v);
            if x == a {
                lemma_connected_upto_within(grid, size, portals, ids, b, i, a as usize);
            } else {
                lemma_connected_upto_within(grid, size, portals, ids, a, j, b as usize);
            }
        } else {
            lemma_cached_target_listed(before[x]@, u);
            if y == a {
                lemma_connected_upto_within(grid, size, portals, ids, b, i, a as usize);
            } else {
                lemma_connected_upto_within(grid, size, portals, ids, a, j, b as usize);
            }
        }
    }
}

/// What linking a pair does to the rows of its cluster.
pub proof fn lemma_pair_advances_rows(
    grid: &GridMap,
    size: int,
    portals: Seq<PortalNode>,
    before: Seq<Vec<AbstractEdge>>,
    after: Seq<Vec<AbstractEdge>>,
    ids: Seq<PortalId>,
    c: GridPos,
    k: int,
    i: int,
    j: int,
)
    requires
        dims_ok(grid, size),
        forall|m: int| 0 <= m < portals.len() ==> #[trigger] portal_valid(grid, size, portals, m),
        before.len() == portals.len(),
        cluster_list(grid, size, portals, ids, c, k),
        0 <= i < j < ids.len(),
        rows_in_progress(grid, size, portals, before, ids, i, j),
        pair_linked(grid, size, portals, before, after, ids[i].0 as int, ids[j].0 as int),
    ensures
        rows_in_progress(grid, size, portals, after, ids, i, j + 1),
        same_rows_elsewhere(grid, size, portals, before, after, k),
{
    let a = ids[i].0 as int;
    let b = ids[j].0 as int;
    let len = ids.len() as int;
    assert(portal_valid(grid, size, portals, a));
    assert(portal_valid(grid, size, portals, b));
    lemma_cell_in_cluster(grid, size, portals[a].pos);
    lemma_cell_in_cluster(grid, size, portals[b].pos);
    let lo = cluster_lo(size, c);
    let hi = cluster_hi(grid, size, c);
    let forth = locally_connected(grid, lo, hi, portals[a].pos, portals[b].pos);
    let home = locally_connected(grid, lo, hi, portals[b].pos, portals[a].pos);
    assert(forth == home) by {
        if forth {
            let path = choose|path: Seq<GridPos>|
                is_local_path(grid, lo, hi, portals[a].pos, portals[b].pos, path);
            lemma_flipped_path(grid, lo, hi, portals[a].pos, portals[b].pos, path);
        }
        if home {
            let path = choose|path: Seq<GridPos>|
                is_local_path(grid, lo, hi, portals[b].pos, portals[a].pos, path);
            lemma_flipped_path(grid, lo, hi, portals[b].pos, portals[a].pos, path);
        }
    }
    assert forall|p: int| 0 <= p < ids.len() implies row_state(
        grid,
        size,
        portals,
        after,
        ids,
        (#[trigger] ids[p]).0 as int,
        row_progress(len, p, i, j + 1),
    ) by {
        let x = ids[p].0 as int;
        assert(row_state(grid, size, portals, before, ids, x, row_progress(len, p, i, j)));
        if p == i {
            if forth {
                lemma_cached_targets_push(before[a]@, after[a]@.last());
                assert(after[a]@ =~= before[a]@.push(after[a]@.last()));
                assert(inter_row(portals, a) =~= after[a]@.subrange(
                    0,
                    inter_row(portals, a).len() as int,
                ));
            }
        } else if p == j {
            if forth {
                lemma_cached_targets_push(before[b]@, after[b]@.last());
                assert(after[b]@ =~= before[b]@.push(after[b]@.last()));
                assert(inter_row(portals, b) =~= after[b]@.subrange(
                    0,
                    inter_row(portals, b).len() as int,
                ));
            }
        } else {
            if p < i {
                assert(ids[p].0 != ids[i].0);
                assert(ids[p].0 != ids[j].0);
            } else if p < j {
                assert(ids[i].0 != ids[p].0);
                assert(ids[p].0 != ids[j].0);
            } else {
                assert(ids[i].0 != ids[p].0);
                assert(ids[j].0 != ids[p].0);
            }
            assert(after[x]@ == before[x]@);
        }
    }
    assert forall|x: int|
        0 <= x < portals.len() && cluster_index(grid, size, (#[trigger] portals[x]).cluster_xy)
            != k implies after[x]@ == before[x]@ by {
        assert(x != a && x != b);
    }
}

/// Links the portal at place `i` of the list of a cluster with every portal
/// after it.
#[verifier::rlimit(40)]
fn link_from(
    grid: &GridMap,
    size: i32,
    portals: &Vec<PortalNode>,
    graph: &mut Vec<Vec<AbstractEdge>>,
    ids: &Vec<PortalId>,
    i: usize,
    c: GridPos,
    lo: GridPos,
    hi: GridPos,
    Ghost(k): Ghost<int>,
)
    requires
        dims_ok(grid, size as int),
        forall|m: int| 0 <= m < portals@.len() ==> #[trigger] portal_valid(grid, size as int, portals@, m),
        old(graph)@.len() == portals@.len(),
        graph_valid(grid, size as int, portals@, old(graph)@),
        cluster_list(grid, size as int, portals@, ids@, c, k),
        lo == cluster_lo(size as int, c),
        hi == cluster_hi(grid, size as int, c),
        i < ids@.len(),
        rows_in_progress(grid, size as int, portals@, old(graph)@, ids@, i as int, i + 1),
        list_served(grid, size as int, portals@, old(graph)@, ids@, i as int, 0),
        mirrored(old(graph)@),
    ensures
        mirrored(final(graph)@),
        final(graph)@.len() == portals@.len(),
        graph_valid(grid, size as int, portals@, final(graph)@),
        rows_extend(old(graph)@, final(graph)@),
        rows_in_progress(grid, size as int, portals@, final(graph)@, ids@, i as int, ids@.len() as int),
        list_served(grid, size as int, portals@, final(graph)@, ids@, i + 1, 0),
        same_rows_elsewhere(grid, size as int, portals@, old(graph)@, final(graph)@, k),
{
    let count = ids.len();
    let mut j: usize = i + 1;
    proof {
        assert forall|m: int| 0 <= m < graph@.len() implies (#[trigger] graph@[m])@.is_prefix_of(
            graph@[m]@,
        ) by {
            assert(graph@[m]@ =~= graph@[m]@.subrange(0, graph@[m]@.len() as int));
        }
    }
    while j < ids.len()
        invariant
            dims_ok(grid, size as int),
            forall|m: int|
                0 <= m < portals@.len() ==> #[trigger] portal_valid(grid, size as int, portals@, m),
            graph@.len() == portals@.len(),
            graph_valid(grid, size as int, portals@, graph@),
            cluster_list(grid, size as int, portals@, ids@, c, k),
            lo == cluster_lo(size as int, c),
            hi == cluster_hi(grid, size as int, c),
            i < j <= ids@.len(),
            rows_extend(old(graph)@, graph@),
            rows_in_progress(grid, size as int, portals@, graph@, ids@, i as int, j as int),
            list_served(grid, size as int, portals@, graph@, ids@, i as int, j as int),
            same_rows_elsewhere(grid, size as int, portals@, old(graph)@, graph@, k),
            mirrored(graph@),
        decreases ids@.len() - j,
    {
        let a = ids[i].0;
        let b = ids[j].0;
        let ghost before = graph@;
        link_pair(grid, size, portals, graph, a, b, lo, hi);
        proof {
            lemma_rows_extend_trans(old(graph)@, before, graph@);
            lemma_pair_advances_rows(
                grid,
                size as int,
                portals@,
                before,
                graph@,
                ids@,
                c,
                k,
                i as int,
                j as int,
            );
            lemma_pair_keeps_mirror(
                grid,
                size as int,
                portals@,
                before,
                graph@,
                ids@,
                c,
                k,
                i as int,
                j as int,
            );
            assert forall|x: int, y: int|
                #![trigger ids@[x], ids@[y]]
                0 <= x < y < ids@.len() && (x < i || (x == i && y < j + 1)) implies pair_served(
                grid,
                size as int,
                portals@,
                graph@,
                ids@[x].0 as int,
                ids@[y].0 as int,
            ) by {
                if x == i && y == j {
                } else {
                    assert(ids@[x].0 < portals@.len());
                    assert(ids@[y].0 < portals@.len());
                    lemma_pair_stays_served(
                        grid,
                        size as int,
                        portals@,
                        before,
                        graph@,
                        ids@[x].0 as int,
                        ids@[y].0 as int,
                    );
                }
            }
        }
        j += 1;
    }
}

/// The rows after all pairs with the portal at place `i` are the rows before
/// the pairs with the portal at place `i + 1`.
pub proof fn lemma_rows_turn_over(
    grid: &GridMap,
    size: int,
    portals: Seq<PortalNode>,
    graph: Seq<Vec<AbstractEdge>>,
    ids: Seq<PortalId>,
    i: int,
)
    requires
        0 <= i < ids.len(),
        rows_in_progress(grid, size, portals, graph, ids, i, ids.len() as int),
    ensures
        rows_in_progress(grid, size, portals, graph, ids, i + 1, i + 2),
{
    let len = ids.len() as int;
    assert forall|p: int| 0 <= p < ids.len() implies row_state(
        grid,
        size,
        portals,
        graph,
        ids,
        (#[trigger] ids[p]).0 as int,
        row_progress(len, p, i + 1, i + 2),
    ) by {
        assert(row_state(grid, size, portals, graph, ids, ids[p].0 as int, row_progress(len, p, i, len)));
    }
}

/// Links the portals of one cluster with one another.
fn link_cluster(
    grid: &GridMap,
    size: i32,
    portals: &Vec<PortalNode>,
    graph: &mut Vec<Vec<AbstractEdge>>,
    ids: &Vec<PortalId>,
    c: GridPos,
    Ghost(k): Ghost<int>,
)
    requires
        dims_ok(grid, size as int),
        forall|m: int| 0 <= m < portals@.len() ==> #[trigger] portal_valid(grid, size as int, portals@, m),
        old(graph)@.len() == portals@.len(),
        graph_valid(grid, size as int, portals@, old(graph)@),
        cluster_list(grid, size as int, portals@, ids@, c, k),
        0 <= c.y < clusters_across(grid.height as int, size as int),
        rows_in_progress(grid, size as int, portals@, old(graph)@, ids@, 0, 1),
        mirrored(old(graph)@),
    ensures
        mirrored(final(graph)@),
        final(graph)@.len() == portals@.len(),
        graph_valid(grid, size as int, portals@, final(graph)@),
        rows_extend(old(graph)@, final(graph)@),
        rows_in_progress(
            grid,
            size as int,
            portals@,
            final(graph)@,
            ids@,
            ids@.len() as int,
            (ids@.len() + 1) as int,
        ),
        list_served(grid, size as int, portals@, final(graph)@, ids@, ids@.len() as int, 0),
        same_rows_elsewhere(grid, size as int, portals@, old(graph)@, final(graph)@, k),
{
    let (lo, hi) = cluster_box(grid, size, c);
    let mut i: usize = 0;
    proof {
        assert forall|m: int| 0 <= m < graph@.len() implies (#[trigger] graph@[m])@.is_prefix_of(
            graph@[m]@,
        ) by {
            assert(graph@[m]@ =~= graph@[m]@.subrange(0, graph@[m]@.len() as int));
        }
    }
    while i < ids.len()
        invariant
            dims_ok(grid, size as int),
            forall|m: int|
                0 <= m < portals@.len() ==> #[trigger] portal_valid(grid, size as int, portals@, m),
            graph@.len() == portals@.len(),
            graph_valid(grid, size as int, portals@, graph@),
            cluster_list(grid, size as int, portals@, ids@, c, k),
            lo == cluster_lo(size as int, c),
            hi == cluster_hi(grid, size as int, c),
            i <= ids@.len(),
            rows_extend(old(graph)@, graph@),
            rows_in_progress(grid, size as int, portals@, graph@, ids@, i as int, i + 1),
            list_served(grid, size as int, portals@, graph@, ids@, i as int, 0),
            same_rows_elsewhere(grid, size as int, portals@, old(graph)@, graph@, k),
            mirrored(graph@),
        decreases ids@.len() - i,
    {
        let ghost before = graph@;
        link_from(grid, size, portals, graph, ids, i, c, lo, hi, Ghost(k));
        proof {
            lemma_rows_extend_trans(old(graph)@, before, graph@);
            lemma_rows_turn_over(grid, size as int, portals@, graph@, ids@, i as int);
        }
        i += 1;
    }
}

/// Every row begins with the steps of its portal to other clusters, and
/// goes on with one cached path to each other portal of the cluster to which
/// a path leads inside the cluster, in the order of the list of the cluster.
pub open spec fn rows_exact(
    grid: &GridMap,
    size: int,
    portals: Seq<PortalNode>,
    graph: Seq<Vec<AbstractEdge>>,
) -> bool {
    forall|a: int|
        0 <= a < portals.len() ==> {
            let ids = crate::hpa::ids_in(
                grid,
                size,
                portals,
                cluster_index(grid, size, (#[trigger] portals[a]).cluster_xy),
            );
            row_state(grid, size, portals, graph, ids, a, ids.len() as int)
        }
}

/// The rows of the first `k` clusters are complete, the others hold the
/// steps between clusters alone.
pub open spec fn rows_upto(
    grid: &GridMap,
    size: int,
    portals: Seq<PortalNode>,
    graph: Seq<Vec<AbstractEdge>>,
    k: int,
) -> bool {
    forall|a: int|
        0 <= a < portals.len() ==> {
            let at = cluster_index(grid, size, (#[trigger] portals[a]).cluster_xy);
            let ids = crate::hpa::ids_in(grid, size, portals, at);
            if at < k {
                row_state(grid, size, portals, graph, ids, a, ids.len() as int)
            } else {
                graph[a]@ == inter_row(portals, a)
            }
        }
}

/// The rows of a cluster that has not been gone through are as they are
/// before its first pair.
pub proof fn lemma_rows_at_start(
    grid: &GridMap,
    size: int,
    portals: Seq<PortalNode>,
    graph: Seq<Vec<AbstractEdge>>,
    ids: Seq<PortalId>,
    k: int,
)
    requires
        portals.len() <= usize::MAX,
        ids == crate::hpa::ids_in(grid, size, portals, k),
        forall|m: int| 0 <= m < portals.len() ==> (#[trigger] portals[m]).id.0 == m,
        rows_upto(grid, size, portals, graph, k),
    ensures
        rows_in_progress(grid, size, portals, graph, ids, 0, 1),
{
    lemma_ids_in(grid, size, portals, k);
    let len = ids.len() as int;
    assert forall|p: int| 0 <= p < ids.len() implies row_state(
        grid,
        size,
        portals,
        graph,
        ids,
        (#[trigger] ids[p]).0 as int,
        row_progress(len, p, 0, 1),
    ) by {
        let a = ids[p].0 as int;
        assert(cluster_index(grid, size, portals[a].cluster_xy) == k);
        assert(graph[a]@ == inter_row(portals, a));
        lemma_inter_row_has_no_cached(portals, a);
        assert(inter_row(portals, a) =~= graph[a]@.subrange(0, inter_row(portals, a).len() as int));
        if p == 0 {
            assert(connected_upto(grid, size, portals, ids, a, 1) =~= Seq::<usize>::empty()) by {
                assert(connected_upto(grid, size, portals, ids, a, 0) =~= Seq::<usize>::empty());
            }
        }
    }
}

/// In a list of fewer than two portals there are no pairs to go through.
pub proof fn lemma_short_list_is_done(
    grid: &GridMap,
    size: int,
    portals: Seq<PortalNode>,
    graph: Seq<Vec<AbstractEdge>>,
    ids: Seq<PortalId>,
)
    requires
        ids.len() < 2,
        rows_in_progress(grid, size, portals, graph, ids, 0, 1),
    ensures
        rows_in_progress(grid, size, portals, graph, ids, ids.len() as int, (ids.len() + 1) as int),
        list_served(grid, size, portals, graph, ids, ids.len() as int, 0),
        same_rows_elsewhere(grid, size, portals, graph, graph, 0),
{
    let len = ids.len() as int;
    assert forall|p: int| 0 <= p < ids.len() implies row_state(
        grid,
        size,
        portals,
        graph,
        ids,
        (#[trigger] ids[p]).0 as int,
        row_progress(len, p, len, len + 1),
    ) by {
        assert(row_state(grid, size, portals, graph, ids, ids[p].0 as int, row_progress(len, p, 0, 1)));
    }
}

/// When the pairs of the cluster at place `k` have been gone through, every
/// pair of the first `k + 1` clusters is served.
pub proof fn lemma_cluster_served(
    grid: &GridMap,
    size: int,
    portals: Seq<PortalNode>,
    before: Seq<Vec<AbstractEdge>>,
    after: Seq<Vec<AbstractEdge>>,
    ids: Seq<PortalId>,
    k: int,
)
    requires
        dims_ok(grid, size),
        forall|m: int| 0 <= m < portals.len() ==> #[trigger] portal_valid(grid, size, portals, m),
        forall|m: int| 0 <= m < portals.len() ==> (#[trigger] portals[m]).id.0 == m,
        before.len() == portals.len(),
        ids == crate::hpa::ids_in(grid, size, portals, k),
        rows_extend(before, after),
        clusters_served(grid, size, portals, before, k),
        list_served(grid, size, portals, after, ids, ids.len() as int, 0),
    ensures
        clusters_served(grid, size, portals, after, k + 1),
{
    lemma_ids_in(grid, size, portals, k);
    assert forall|a: int, b: int|
        #![trigger portals[a], portals[b]]
        0 <= a < portals.len() && 0 <= b < portals.len() && a != b && portals[a].cluster_xy
            == portals[b].cluster_xy && cluster_index(grid, size, portals[a].cluster_xy) < k
            + 1 implies pair_served(grid, size, portals, after, a, b) by {
        assert(portal_valid(grid, size, portals, a));
        assert(portal_valid(grid, size, portals, b));
        if cluster_index(grid, size, portals[a].cluster_xy) < k {
            lemma_pair_stays_served(grid, size, portals, before, after, a, b);
        } else {
            assert(ids.contains(PortalId(a as usize)));
            assert(ids.contains(PortalId(b as usize)));
            let x = choose|x: int| 0 <= x < ids.len() && ids[x] == PortalId(a as usize);
            let y = choose|y: int| 0 <= y < ids.len() && ids[y] == PortalId(b as usize);
            if x < y {
                assert(pair_served(grid, size, portals, after, ids[x].0 as int, ids[y].0 as int));
            } else {
                assert(pair_served(grid, size, portals, after, ids[y].0 as int, ids[x].0 as int));
                lemma_pair_served_both_ways(grid, size, portals, after, b, a);
            }
        }
    }
}

/// When the pairs of the cluster at place `k` have been gone through, the
/// rows of the first `k + 1` clusters are complete.
pub proof fn lemma_cluster_rows(
    grid: &GridMap,
    size: int,
    portals: Seq<PortalNode>,
    before: Seq<Vec<AbstractEdge>>,
    after: Seq<Vec<AbstractEdge>>,
    ids: Seq<PortalId>,
    k: int,
)
    requires
        forall|m: int| 0 <= m < portals.len() ==> (#[trigger] portals[m]).id.0 == m,
        before.len() == portals.len(),
        ids == crate::hpa::ids_in(grid, size, portals, k),
        rows_upto(grid, size, portals, before, k),
        rows_in_progress(grid, size, portals, after, ids, ids.len() as int, (ids.len() + 1) as int),
        same_rows_elsewhere(grid, size, portals, before, after, k) || after == before,
    ensures
        rows_upto(grid, size, portals, after, k + 1),
{
    lemma_ids_in(grid, size, portals, k);
    let len = ids.len() as int;
    assert forall|a: int| 0 <= a < portals.len() implies {
        let at = cluster_index(grid, size, (#[trigger] portals[a]).cluster_xy);
        let list = crate::hpa::ids_in(grid, size, portals, at);
        if at < k + 1 {
            row_state(grid, size, portals, after, list, a, list.len() as int)
        } else {
            after[a]@ == inter_row(portals, a)
        }
    } by {
        let at = cluster_index(grid, size, portals[a].cluster_xy);
        if at == k {
            assert(ids.contains(PortalId(a as usize)));
            let x = choose|x: int| 0 <= x < ids.len() && ids[x] == PortalId(a as usize);
            assert(row_state(
                grid,
                size,
                portals,
                after,
                ids,
                ids[x].0 as int,
                row_progress(len, x, len, len + 1),
            ));
        } else {
            assert(after[a]@ == before[a]@);
        }
    }
}

impl HPAGrid {
    /// Links the portals of each cluster with one another: for each pair a
    /// shortest path between the two inside the cluster, if there is one, in
    /// both directions.
    pub fn build_intra_cluster_edges(
        grid: &GridMap,
        size: i32,
        portals: &Vec<PortalNode>,
        lookup: &Vec<Vec<PortalId>>,
        graph: Vec<Vec<AbstractEdge>>,
    ) -> (out: Vec<Vec<AbstractEdge>>)
        requires
            dims_ok(grid, size as int),
            forall|i: int|
                0 <= i < portals@.len() ==> #[trigger] portal_valid(grid, size as int, portals@, i),
            listing_ok(grid, size as int, portals@, lookup@),
            graph@.len() == portals@.len(),
            graph_valid(grid, size as int, portals@, graph@),
            forall|i: int| 0 <= i < graph@.len() ==> (#[trigger] graph@[i])@ == inter_row(portals@, i),
        ensures
            out@.len() == portals@.len(),
            graph_valid(grid, size as int, portals@, out@),
            rows_extend(graph@, out@),
            intra_complete(grid, size as int, portals@, out@),
            rows_exact(grid, size as int, portals@, out@),
            mirrored(out@),
    {
        let ghost given = graph@;
        let mut graph = graph;
        let count = portals.len();
        let mut k: usize = 0;
        proof {
            assert forall|i: int| 0 <= i < given.len() implies (#[trigger] given[i])@.is_prefix_of(
                graph@[i]@,
            ) by {
                assert(given[i]@ =~= graph@[i]@.subrange(0, given[i]@.len() as int));
            }
            assert forall|m: int| 0 <= m < portals@.len() implies (#[trigger] portals@[m]).id.0 == m by {
                assert(portal_valid(grid, size as int, portals@, m));
            }
            assert(mirrored(graph@)) by {
                assert forall|a: int, b: int, j: int, k: int|
                    #![trigger graph@[a]@[j], graph@[b]@[k]]
                    0 <= a < graph@.len() && 0 <= j < graph@[a]@.len() implies graph@[a]@[j].is_inter_cluster by {
                    lemma_inter_row_all_inter(portals@, a, j);
                }
            }
            assert forall|a: int|
                0 <= a < portals@.len() implies cluster_index(
                grid,
                size as int,
                (#[trigger] portals@[a]).cluster_xy,
            ) >= 0 by {
                assert(portal_valid(grid, size as int, portals@, a));
                lemma_cell_in_cluster(grid, size as int, portals@[a].pos);
            }
        }
        while k < lookup.len()
            invariant
                dims_ok(grid, size as int),
                forall|i: int|
                    0 <= i < portals@.len() ==> #[trigger] portal_valid(
                        grid,
                        size as int,
                        portals@,
                        i,
                    ),
                forall|m: int| 0 <= m < portals@.len() ==> (#[trigger] portals@[m]).id.0 == m,
                listing_ok(grid, size as int, portals@, lookup@),
                portals@.len() <= usize::MAX,
                graph@.len() == portals@.len(),
                graph_valid(grid, size as int, portals@, graph@),
                rows_extend(given, graph@),
                clusters_served(grid, size as int, portals@, graph@, k as int),
                rows_upto(grid, size as int, portals@, graph@, k as int),
                mirrored(graph@),
                k <= lookup@.len(),
            decreases lookup@.len() - k,
        {
            let ids = &lookup[k];
            let ghost at_cluster = graph@;
            proof {
                lemma_ids_in(grid, size as int, portals@, k as int);
                lemma_ids_ascend(grid, size as int, portals@, k as int);
                assert(ids@ == crate::hpa::ids_in(grid, size as int, portals@, k as int));
                lemma_rows_at_start(grid, size as int, portals@, graph@, ids@, k as int);
                assert forall|m: int| 0 <= m < graph@.len() implies (#[trigger] graph@[m])@.is_prefix_of(
                    graph@[m]@,
                ) by {
                    assert(graph@[m]@ =~= graph@[m]@.subrange(0, graph@[m]@.len() as int));
                }
            }
            if ids.len() >= 2 {
                proof {
                    assert(ids@[0].0 < portals@.len());
                    assert(portal_valid(grid, size as int, portals@, ids@[0].0 as int));
                    lemma_cell_in_cluster(grid, size as int, portals@[ids@[0].0 as int].pos);
                }
                let c = portals[ids[0].0].cluster_xy;
                proof {
                    assert forall|m: int| 0 <= m < ids@.len() implies (#[trigger] ids@[m]).0
                        < portals@.len() && portals@[ids@[m].0 as int].cluster_xy == c by {
                        assert(ids@[m].0 < portals@.len());
                        assert(portal_valid(grid, size as int, portals@, ids@[m].0 as int));
                        lemma_cell_in_cluster(grid, size as int, portals@[ids@[m].0 as int].pos);
                        lemma_cluster_index_injective(
                            grid,
                            size as int,
                            portals@[ids@[m].0 as int].cluster_xy,
                            c,
                        );
                    }
                    assert(cluster_list(grid, size as int, portals@, ids@, c, k as int));
                }
                link_cluster(grid, size, portals, &mut graph, ids, c, Ghost(k as int));
            }
            proof {
                lemma_rows_extend_trans(given, at_cluster, graph@);
                if ids@.len() < 2 {
                    lemma_short_list_is_done(grid, size as int, portals@, graph@, ids@);
                }
                lemma_cluster_served(grid, size as int, portals@, at_cluster, graph@, ids@, k as int);
                lemma_cluster_rows(grid, size as int, portals@, at_cluster, graph@, ids@, k as int);
            }
            k += 1;
        }
        proof {
            assert forall|a: int, b: int|
                #![trigger portals@[a], portals@[b]]
                0 <= a < portals@.len() && 0 <= b < portals@.len() && a != b && portals@[a].cluster_xy
                    == portals@[b].cluster_xy && locally_connected(
                    grid,
                    cluster_lo(size as int, portals@[a].cluster_xy),
                    cluster_hi(grid, size as int, portals@[a].cluster_xy),
                    portals@[a].pos,
                    portals@[b].pos,
                ) implies has_cached_edge(graph@, a, b) by {
                assert(portal_valid(grid, size as int, portals@, a));
                lemma_cell_in_cluster(grid, size as int, portals@[a].pos);
                assert(pair_served(grid, size as int, portals@, graph@, a, b));
            }
            assert forall|a: int| 0 <= a < portals@.len() implies {
                let list = crate::hpa::ids_in(
                    grid,
                    size as int,
                    portals@,
                    cluster_index(grid, size as int, (#[trigger] portals@[a]).cluster_xy),
                );
                row_state(grid, size as int, portals@, graph@, list, a, list.len() as int)
            } by {
                assert(portal_valid(grid, size as int, portals@, a));
                lemma_cell_in_cluster(grid, size as int, portals@[a].pos);
            }
        }
        graph
    }

    /// Finds the portals of the grid and builds the graph of paths between
    /// them, in place of what was there.
    ///
    /// Afterwards the portals are those of the grid, every cluster lists its
    /// portals, and the edges of every portal begin with its steps to
    /// portals of other clusters, one to every such portal that lies one
    /// cell from it; after those come cached shortest paths to
    /// the portals of its own cluster, in the order of the list of the
    /// cluster, one to every portal to which a path leads inside the
    /// cluster; the path back is the same path walked backwards.
    pub fn build(&mut self)
        requires
            dims_ok(&old(self).grid, old(self).cluster_size as int),
        ensures
            final(self).wf(),
            final(self).built(),
            final(self).grid == old(self).grid,
            final(self).cluster_size == old(self).cluster_size,
            final(self).portals@ == crate::hpa::portals::all_portals(
                &final(self).grid,
                final(self).cluster_size as int,
            ),
            listing_ok(
                &final(self).grid,
                final(self).cluster_size as int,
                final(self).portals@,
                final(self).cluster_lookup@,
            ),
            forall|i: int|
                0 <= i < final(self).portals@.len() ==> inter_row(final(self).portals@, i).is_prefix_of(
                    #[trigger] final(self).graph@[i]@,
                ),
            intra_complete(
                &final(self).grid,
                final(self).cluster_size as int,
                final(self).portals@,
                final(self).graph@,
            ),
            rows_exact(
                &final(self).grid,
                final(self).cluster_size as int,
                final(self).portals@,
                final(self).graph@,
            ),
            mirrored(final(self).graph@),
            inter_complete(final(self).portals@, final(self).graph@),
    {
        let ghost size = self.cluster_size as int;
        self.portals.clear();
        self.graph.clear();
        self.cluster_lookup.clear();
        let (portals, lookup) = Self::create_portals(&self.grid, self.cluster_size);
        let count = portals.len();
        let between = Self::build_inter_cluster_edges(
            &self.grid,
            Ghost(self.cluster_size as int),
            &portals,
        );
        let graph = Self::build_intra_cluster_edges(
            &self.grid,
            self.cluster_size,
            &portals,
            &lookup,
            between,
        );
        proof {
            assert forall|m: int| 0 <= m < portals@.len() implies (#[trigger] portals@[m]).id.0 == m by {
                assert(portal_valid(&self.grid, size, portals@, m));
            }
            assert forall|k: int, j: int|
                0 <= k < lookup@.len() && 0 <= j < lookup@[k]@.len() implies {
                    let id = (#[trigger] lookup@[k]@[j]).0;
                    id < portals@.len() && cluster_index(&self.grid, size, portals@[id as int].cluster_xy)
                        == k
                } by {
                lemma_ids_in(&self.grid, size, portals@, k);
                assert(lookup@[k]@ == crate::hpa::ids_in(&self.grid, size, portals@, k));
            }
            assert forall|i: int| 0 <= i < portals@.len() implies inter_row(portals@, i).is_prefix_of(
                #[trigger] graph@[i]@,
            ) by {
                assert(between@[i]@.is_prefix_of(graph@[i]@));
            }
            lemma_inter_complete(&self.grid, size, portals@, graph@);
        }
        self.portals = portals;
        self.graph = graph;
        self.cluster_lookup = lookup;
        proof {
            assert forall|i: int| 0 <= i < self.portals@.len() implies #[trigger] self.portal_ok(i) by {
                assert(portal_valid(&self.grid, size, self.portals@, i));
            }
            assert forall|i: int, j: int|
                0 <= i < self.graph@.len() && 0 <= j < self.graph@[i]@.len() implies #[trigger] self.edge_ok(
                i,
                j,
            ) by {
                assert(edge_valid(&self.grid, size, self.portals@, self.graph@[i]@[j], i));
            }
            assert forall|k: int, j: int|
                0 <= k < self.cluster_lookup@.len() && 0 <= j < self.cluster_lookup@[k]@.len() implies #[trigger] self.lookup_ok(
                k,
                j,
            ) by {
                assert(self.cluster_lookup@[k]@[j].0 < self.portals@.len());
            }
        }
    }
}

} // verus!
