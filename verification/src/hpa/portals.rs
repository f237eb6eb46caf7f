//! Portal detection: along each border between two clusters, every stretch
//! of cells that can be crossed gets one portal pair at its middle, or one at
//! each end if it is longer than five cells.

use vstd::prelude::*;
use crate::grid::{GridMap, GridPos};
use crate::hpa::{
    cluster_of, clusters_across, dims_ok, ids_in, lemma_cell_in_cluster, lemma_cluster_start,
    listing_ok, portal_valid, HPAGrid, PortalId, PortalNode,
};

verus! {

pub open spec fn shifted(p: GridPos, d: GridPos) -> GridPos {
    GridPos { x: (p.x + d.x) as i32, y: (p.y + d.y) as i32 }
}

/// The cells on one side of a border: the first cell, the step from one cell
/// of the line to the next, and the step across the border.
pub struct Line {
    pub start: GridPos,
    pub step: GridPos,
    pub across: GridPos,
}

impl Line {
    /// The line runs down and is crossed to the right, or runs right and is
    /// crossed downwards.
    pub open spec fn axis_ok(self) -> bool {
        ||| self.step == (GridPos { x: 0, y: 1 }) && self.across == (GridPos { x: 1, y: 0 })
        ||| self.step == (GridPos { x: 1, y: 0 }) && self.across == (GridPos { x: 0, y: 1 })
    }

    /// Cell `i` of the line.
    pub open spec fn cell(self, i: int) -> GridPos {
        GridPos { x: (self.start.x + self.step.x * i) as i32, y: (self.start.y + self.step.y * i) as i32 }
    }

    /// The cell across the border from cell `i`.
    pub open spec fn far(self, i: int) -> GridPos {
        shifted(self.cell(i), self.across)
    }

    /// The first `n` cells of the line, and the cells across from them, have
    /// coordinates that are not negative and can be stored.
    pub open spec fn fits(self, n: int) -> bool {
        &&& 0 <= self.start.x
        &&& 0 <= self.start.y
        &&& self.start.x + n < i32::MAX
        &&& self.start.y + n < i32::MAX
    }

    /// Where cell `i` lies, coordinate by coordinate.
    pub proof fn lemma_cell(self, n: int, i: int)
        requires
            self.axis_ok(),
            self.fits(n),
            0 <= i <= n,
        ensures
            self.step.x == 0 ==> self.cell(i) == (GridPos { x: self.start.x, y: (self.start.y + i) as i32 })
                && self.far(i) == (GridPos {
                x: (self.start.x + 1) as i32,
                y: (self.start.y + i) as i32,
            }),
            self.step.x == 1 ==> self.cell(i) == (GridPos { x: (self.start.x + i) as i32, y: self.start.y })
                && self.far(i) == (GridPos {
                x: (self.start.x + i) as i32,
                y: (self.start.y + 1) as i32,
            }),
            self.cell(i).x == self.start.x + self.step.x * i,
            self.cell(i).y == self.start.y + self.step.y * i,
            self.step.x * i == (if self.step.x == 0 { 0 } else { i }),
            self.step.y * i == (if self.step.y == 0 { 0 } else { i }),
    {
        assert(self.step.x * i == (if self.step.x == 0 { 0 } else { i })) by (nonlinear_arith)
            requires
                self.step.x == 0 || self.step.x == 1,
        ;
        assert(self.step.y * i == (if self.step.y == 0 { 0 } else { i })) by (nonlinear_arith)
            requires
                self.step.y == 0 || self.step.y == 1,
        ;
    }

    /// The border can be crossed at cell `i`.
    pub open spec fn passable(self, grid: &GridMap, i: int) -> bool {
        grid.walkable(self.cell(i)) && grid.walkable(self.far(i))
    }

    /// Where the stretch of passable cells begins that holds cell `k`.
    pub open spec fn run_start(self, grid: &GridMap, k: int) -> int
        decreases k,
    {
        if k <= 0 || !self.passable(grid, k - 1) {
            k
        } else {
            self.run_start(grid, k - 1)
        }
    }

    /// The cells of a stretch that get a portal pair: both ends of a stretch
    /// of more than five cells, else the middle.
    pub open spec fn marks_of_run(first: int, len: int) -> Seq<int> {
        if len > 5 {
            seq![first, first + len - 1]
        } else {
            seq![first + len / 2]
        }
    }

    /// The cells that get a portal pair among the first `n` cells of the
    /// line, stretch by stretch.
    pub open spec fn marks(self, grid: &GridMap, n: int) -> Seq<int>
        decreases n,
    {
        if n <= 0 {
            Seq::empty()
        } else if !self.passable(grid, n - 1) {
            self.marks(grid, n - 1)
        } else {
            let s = self.run_start(grid, n - 1);
            if 0 <= s < n {
                self.marks(grid, s) + Self::marks_of_run(s, n - s)
            } else {
                Seq::empty()
            }
        }
    }

    pub proof fn lemma_run_start(self, grid: &GridMap, s: int, k: int)
        requires
            0 <= s <= k,
            s == 0 || !self.passable(grid, s - 1),
            forall|i: int| s <= i < k ==> #[trigger] self.passable(grid, i),
        ensures
            self.run_start(grid, k) == s,
        decreases k - s,
    {
        if k > s {
            assert(self.passable(grid, k - 1));
            self.lemma_run_start(grid, s, k - 1);
        }
    }

    /// No more cells are marked than there are cells.
    pub proof fn lemma_marks_len(self, grid: &GridMap, n: int)
        requires
            0 <= n,
        ensures
            self.marks(grid, n).len() <= n,
        decreases n,
    {
        if n > 0 {
            if !self.passable(grid, n - 1) {
                self.lemma_marks_len(grid, n - 1);
            } else {
                let s = self.run_start(grid, n - 1);
                if 0 <= s < n {
                    self.lemma_marks_len(grid, s);
                }
            }
        }
    }
}

/// Along the first `n` cells of the line the cluster is `c1`, and `c2` across
/// the border.
pub open spec fn along(size: int, line: Line, n: int, c1: GridPos, c2: GridPos) -> bool {
    forall|i: int|
        0 <= i < n ==> {
            &&& #[trigger] cluster_of(size, line.cell(i)) == c1
            &&& cluster_of(size, line.far(i)) == c2
        }
}

/// The portal pair of mark `m`: one portal on the line in cluster `c1`, and
/// one across the border in cluster `c2`.
pub open spec fn pair_at(
    portals: Seq<PortalNode>,
    base: int,
    line: Line,
    marks: Seq<int>,
    c1: GridPos,
    c2: GridPos,
    m: int,
) -> bool {
    &&& portals[base + 2 * m] == (PortalNode {
        id: PortalId((base + 2 * m) as usize),
        pos: line.cell(marks[m]),
        cluster_xy: c1,
    })
    &&& portals[base + 2 * m + 1] == (PortalNode {
        id: PortalId((base + 2 * m + 1) as usize),
        pos: line.far(marks[m]),
        cluster_xy: c2,
    })
}

/// `after` is `before` followed by the portal pairs of `marks`.
pub open spec fn appended(
    before: Seq<PortalNode>,
    after: Seq<PortalNode>,
    line: Line,
    marks: Seq<int>,
    c1: GridPos,
    c2: GridPos,
) -> bool {
    &&& after.len() == before.len() + 2 * marks.len()
    &&& forall|i: int| 0 <= i < before.len() ==> #[trigger] after[i] == before[i]
    &&& forall|m: int|
        0 <= m < marks.len() ==> #[trigger] pair_at(after, before.len() as int, line, marks, c1, c2, m)
}

pub proof fn lemma_appended_twice(
    a: Seq<PortalNode>,
    b: Seq<PortalNode>,
    c: Seq<PortalNode>,
    line: Line,
    first: Seq<int>,
    second: Seq<int>,
    c1: GridPos,
    c2: GridPos,
)
    requires
        appended(a, b, line, first, c1, c2),
        appended(b, c, line, second, c1, c2),
    ensures
        appended(a, c, line, first + second, c1, c2),
{
    let all = first + second;
    assert forall|m: int| 0 <= m < all.len() implies #[trigger] pair_at(
        c,
        a.len() as int,
        line,
        all,
        c1,
        c2,
        m,
    ) by {
        if m < first.len() {
            assert(pair_at(b, a.len() as int, line, first, c1, c2, m));
            assert(c[a.len() + 2 * m] == b[a.len() + 2 * m]);
            assert(c[a.len() + 2 * m + 1] == b[a.len() + 2 * m + 1]);
        } else {
            assert(pair_at(c, b.len() as int, line, second, c1, c2, m - first.len()));
        }
    }
    assert forall|i: int| 0 <= i < a.len() implies #[trigger] c[i] == a[i] by {
        assert(c[i] == b[i]);
    }
}

/// The portals found so far, with the list of each cluster.
pub struct Placer<'a> {
    pub grid: &'a GridMap,
    pub size: i32,
    pub across: i32,
    pub portals: Vec<PortalNode>,
    pub lookup: Vec<Vec<PortalId>>,
}

impl<'a> Placer<'a> {
    pub open spec fn ok(&self) -> bool {
        &&& dims_ok(self.grid, self.size as int)
        &&& self.across == clusters_across(self.grid.width as int, self.size as int)
        &&& forall|i: int|
            0 <= i < self.portals@.len() ==> #[trigger] portal_valid(
                self.grid,
                self.size as int,
                self.portals@,
                i,
            )
        &&& listing_ok(self.grid, self.size as int, self.portals@, self.lookup@)
    }

    /// The same grid and the same clusters as before.
    pub open spec fn same_frame(&self, other: &Placer) -> bool {
        &&& self.grid == other.grid
        &&& self.size == other.size
        &&& self.across == other.across
    }

    /// Adds a portal on the walkable cell `pos` of the cluster (`c_x`, `c_y`).
    pub fn add_portal(&mut self, pos: GridPos, c_x: i32, c_y: i32) -> (id: PortalId)
        requires
            old(self).ok(),
            old(self).grid.walkable(pos),
            cluster_of(old(self).size as int, pos) == (GridPos { x: c_x, y: c_y }),
        ensures
            final(self).ok(),
            final(self).same_frame(old(self)),
            id.0 == old(self).portals@.len(),
            final(self).portals@ == old(self).portals@.push(
                PortalNode { id, pos, cluster_xy: GridPos { x: c_x, y: c_y } },
            ),
    {
        let id = PortalId(self.portals.len());
        let node = PortalNode { id, pos, cluster_xy: GridPos { x: c_x, y: c_y } };
        proof {
            lemma_cell_in_cluster(self.grid, self.size as int, pos);
            let ch = clusters_across(self.grid.height as int, self.size as int);
            crate::grid::lemma_cell_index_bound(c_x as int, c_y as int, self.across as int, ch);
            crate::hpa::lemma_cluster_start(c_x as int, self.grid.width as int, self.size as int);
            crate::hpa::lemma_cluster_start(c_y as int, self.grid.height as int, self.size as int);
            crate::hpa::local::lemma_product_le(
                self.across as int,
                ch,
                self.grid.width as int,
                self.grid.height as int,
            );
            assert(0 <= c_y * self.across <= c_y * self.across + c_x) by (nonlinear_arith)
                requires
                    0 <= c_y,
                    0 <= self.across,
                    0 <= c_x,
            ;
        }
        let k = (c_y * self.across + c_x) as usize;
        let ghost before = self.portals@;
        let ghost lists = self.lookup@;
        self.portals.push(node);
        self.lookup[k].push(id);
        proof {
            let after = self.portals@;
            assert(after.drop_last() =~= before);
            assert forall|i: int| 0 <= i < after.len() implies #[trigger] portal_valid(
                self.grid,
                self.size as int,
                after,
                i,
            ) by {
                if i < before.len() {
                    assert(portal_valid(self.grid, self.size as int, before, i));
                }
            }
            assert forall|j: int| 0 <= j < self.lookup@.len() implies (#[trigger] self.lookup@[j])@
                == ids_in(self.grid, self.size as int, after, j) by {
                assert(lists[j]@ == ids_in(self.grid, self.size as int, before, j));
            }
        }
        id
    }

    /// Adds the portal pair of one marked cell.
    fn place_pair(
        &mut self,
        p: GridPos,
        neighbor_dir: GridPos,
        c1_x: i32,
        c1_y: i32,
        c2_x: i32,
        c2_y: i32,
        Ghost(line): Ghost<Line>,
        Ghost(mark): Ghost<int>,
    )
        requires
            old(self).ok(),
            line.axis_ok(),
            line.across == neighbor_dir,
            p == line.cell(mark),
            line.passable(old(self).grid, mark),
            cluster_of(old(self).size as int, line.cell(mark)) == (GridPos { x: c1_x, y: c1_y }),
            cluster_of(old(self).size as int, line.far(mark)) == (GridPos { x: c2_x, y: c2_y }),
        ensures
            final(self).ok(),
            final(self).same_frame(old(self)),
            appended(
                old(self).portals@,
                final(self).portals@,
                line,
                seq![mark],
                GridPos { x: c1_x, y: c1_y },
                GridPos { x: c2_x, y: c2_y },
            ),
    {
        let _near = self.add_portal(p, c1_x, c1_y);
        let q = GridPos { x: p.x + neighbor_dir.x, y: p.y + neighbor_dir.y };
        let _far = self.add_portal(q, c2_x, c2_y);
        proof {
            assert(pair_at(
                self.portals@,
                old(self).portals@.len() as int,
                line,
                seq![mark],
                GridPos { x: c1_x, y: c1_y },
                GridPos { x: c2_x, y: c2_y },
                0,
            ));
        }
    }

    /// The cells `first` up to `first + len` of the line can be crossed, and
    /// lie in cluster `c1` with cluster `c2` across the border.
    pub open spec fn run_ok(
        &self,
        line: Line,
        first: int,
        len: int,
        c1: GridPos,
        c2: GridPos,
    ) -> bool {
        forall|i: int|
            first <= i < first + len ==> {
                &&& #[trigger] line.passable(self.grid, i)
                &&& cluster_of(self.size as int, line.cell(i)) == c1
                &&& cluster_of(self.size as int, line.far(i)) == c2
            }
    }

    /// Places the portals of one stretch of `len` passable cells that begins
    /// at `start`.
    pub fn place_portals_in_segment(
        &mut self,
        start: GridPos,
        len: i32,
        step: GridPos,
        neighbor_dir: GridPos,
        c1_x: i32,
        c1_y: i32,
        c2_x: i32,
        c2_y: i32,
        Ghost(line): Ghost<Line>,
        Ghost(first): Ghost<int>,
    )
        requires
            old(self).ok(),
            line.axis_ok(),
            line.step == step,
            line.across == neighbor_dir,
            0 <= first,
            line.fits(first + len),
            start == line.cell(first),
            len >= 1,
            old(self).run_ok(
                line,
                first,
                len as int,
                GridPos { x: c1_x, y: c1_y },
                GridPos { x: c2_x, y: c2_y },
            ),
        ensures
            final(self).ok(),
            final(self).same_frame(old(self)),
            appended(
                old(self).portals@,
                final(self).portals@,
                line,
                Line::marks_of_run(first, len as int),
                GridPos { x: c1_x, y: c1_y },
                GridPos { x: c2_x, y: c2_y },
            ),
    {
        let ghost c1 = GridPos { x: c1_x, y: c1_y };
        let ghost c2 = GridPos { x: c2_x, y: c2_y };
        proof {
            assert(line.passable(self.grid, first));
            assert(line.passable(self.grid, first + len - 1));
            assert(line.passable(self.grid, first + len / 2));
            line.lemma_cell(first + len, first);
            line.lemma_cell(first + len, first + len - 1);
            line.lemma_cell(first + len, first + len / 2);
            line.lemma_cell(first + len, len - 1);
            line.lemma_cell(first + len, len / 2);
        }
        if len > 5 {
            self.place_pair(start, neighbor_dir, c1_x, c1_y, c2_x, c2_y, Ghost(line), Ghost(first));
            let ghost mid = self.portals@;
            let end = GridPos { x: start.x + step.x * (len - 1), y: start.y + step.y * (len - 1) };
            self.place_pair(
                end,
                neighbor_dir,
                c1_x,
                c1_y,
                c2_x,
                c2_y,
                Ghost(line),
                Ghost(first + len - 1),
            );
            proof {
                lemma_appended_twice(
                    old(self).portals@,
                    mid,
                    self.portals@,
                    line,
                    seq![first],
                    seq![first + len - 1],
                    c1,
                    c2,
                );
                assert(seq![first] + seq![first + len - 1] =~= Line::marks_of_run(first, len as int));
            }
        } else {
            let middle = GridPos { x: start.x + step.x * (len / 2), y: start.y + step.y * (len / 2) };
            self.place_pair(
                middle,
                neighbor_dir,
                c1_x,
                c1_y,
                c2_x,
                c2_y,
                Ghost(line),
                Ghost(first + len / 2),
            );
            proof {
                assert(seq![first + len / 2] =~= Line::marks_of_run(first, len as int));
            }
        }
    }
}

/// A value between two multiples of the cluster size lies in the cluster of
/// the lower one.
pub proof fn lemma_div_unique(v: int, q: int, size: int)
    requires
        0 < size,
        q * size <= v < q * size + size,
    ensures
        v / size == q,
{
    vstd::arithmetic::div_mod::lemma_fundamental_div_mod_converse(v, size, q, v - q * size);
}

/// The clusters across an extent cover it.
pub proof fn lemma_clusters_cover(extent: int, size: int)
    requires
        0 < extent,
        0 < size,
    ensures
        clusters_across(extent, size) * size >= extent,
        clusters_across(extent, size) >= 1,
{
    let top = (extent - 1) / size;
    vstd::arithmetic::div_mod::lemma_fundamental_div_mod(extent - 1, size);
    vstd::arithmetic::div_mod::lemma_mod_bound(extent - 1, size);
    vstd::arithmetic::div_mod::lemma_div_pos_is_pos(extent - 1, size);
    assert((top + 1) * size == size * top + size) by (nonlinear_arith);
}

impl<'a> Placer<'a> {
    /// Along the first `n` cells of the line the cluster is `c1`, and `c2`
    /// across the border.
    pub open spec fn clusters_along(&self, line: Line, n: int, c1: GridPos, c2: GridPos) -> bool {
        along(self.size as int, line, n, c1, c2)
    }

    /// Walks along one border between two clusters and places the portals
    /// of every stretch of cells at which the border can be crossed.
    #[verifier::rlimit(40)]
    pub fn scan_boundary(
        &mut self,
        start_pos: GridPos,
        step: GridPos,
        length: i32,
        neighbor_dir: GridPos,
        c1_x: i32,
        c1_y: i32,
        c2_x: i32,
        c2_y: i32,
    )
        requires
            old(self).ok(),
            (Line { start: start_pos, step, across: neighbor_dir }).axis_ok(),
            0 <= length,
            (Line { start: start_pos, step, across: neighbor_dir }).fits(length as int),
            old(self).clusters_along(
                Line { start: start_pos, step, across: neighbor_dir },
                length as int,
                GridPos { x: c1_x, y: c1_y },
                GridPos { x: c2_x, y: c2_y },
            ),
        ensures
            final(self).ok(),
            final(self).same_frame(old(self)),
            appended(
                old(self).portals@,
                final(self).portals@,
                Line { start: start_pos, step, across: neighbor_dir },
                (Line { start: start_pos, step, across: neighbor_dir }).marks(
                    old(self).grid,
                    length as int,
                ),
                GridPos { x: c1_x, y: c1_y },
                GridPos { x: c2_x, y: c2_y },
            ),
    {
        let ghost line = Line { start: start_pos, step, across: neighbor_dir };
        let ghost c1 = GridPos { x: c1_x, y: c1_y };
        let ghost c2 = GridPos { x: c2_x, y: c2_y };
        let ghost grid = self.grid;
        let mut current = start_pos;
        let mut segment_start: Option<GridPos> = None;
        let mut segment_len: i32 = 0;
        let mut i: i32 = 0;
        proof {
            line.lemma_cell(length as int, 0);
            assert(line.marks(grid, 0) =~= Seq::<int>::empty());
        }
        while i < length
            invariant
                self.ok(),
                self.same_frame(old(self)),
                grid == self.grid,
                line == (Line { start: start_pos, step, across: neighbor_dir }),
                line.axis_ok(),
                line.fits(length as int),
                self.clusters_along(line, length as int, c1, c2),
                c1 == (GridPos { x: c1_x, y: c1_y }),
                c2 == (GridPos { x: c2_x, y: c2_y }),
                0 <= i <= length,
                current == line.cell(i as int),
                0 <= segment_len <= i,
                segment_start is None ==> segment_len == 0 && (i == 0 || !line.passable(grid, i - 1)),
                segment_start matches Some(sp) ==> {
                    &&& segment_len >= 1
                    &&& sp == line.cell(i - segment_len)
                    &&& i - segment_len == 0 || !line.passable(grid, i - segment_len - 1)
                    &&& forall|k: int| i - segment_len <= k < i ==> #[trigger] line.passable(grid, k)
                },
                appended(
                    old(self).portals@,
                    self.portals@,
                    line,
                    line.marks(grid, i - segment_len),
                    c1,
                    c2,
                ),
            decreases length - i,
        {
            proof {
                line.lemma_cell(length as int, i as int);
                line.lemma_cell(length as int, i + 1);
            }
            let neighbor = GridPos { x: current.x + neighbor_dir.x, y: current.y + neighbor_dir.y };
            let walkable = self.grid.is_walkable(current) && self.grid.is_walkable(neighbor);
            assert(walkable == line.passable(grid, i as int));
            if walkable {
                if segment_start.is_none() {
                    segment_start = Some(current);
                }
                segment_len += 1;
            } else if let Some(sp) = segment_start {
                let ghost first = i - segment_len;
                let ghost mid = self.portals@;
                proof {
                    assert(self.run_ok(line, first, segment_len as int, c1, c2)) by {
                        assert forall|k: int| first <= k < first + segment_len implies {
                            &&& #[trigger] line.passable(self.grid, k)
                            &&& cluster_of(self.size as int, line.cell(k)) == c1
                            &&& cluster_of(self.size as int, line.far(k)) == c2
                        } by {
                            assert(cluster_of(self.size as int, line.cell(k)) == c1);
                        }
                    }
                }
                self.place_portals_in_segment(
                    sp,
                    segment_len,
                    step,
                    neighbor_dir,
                    c1_x,
                    c1_y,
                    c2_x,
                    c2_y,
                    Ghost(line),
                    Ghost(first),
                );
                proof {
                    lemma_appended_twice(
                        old(self).portals@,
                        mid,
                        self.portals@,
                        line,
                        line.marks(grid, first),
                        Line::marks_of_run(first, segment_len as int),
                        c1,
                        c2,
                    );
                    line.lemma_run_start(grid, first, i - 1);
                    assert(line.marks(grid, i as int) == line.marks(grid, first) + Line::marks_of_run(
                        first,
                        segment_len as int,
                    ));
                    assert(line.marks(grid, i + 1) == line.marks(grid, i as int));
                }
                segment_start = None;
                segment_len = 0;
            } else {
                proof {
                    assert(line.marks(grid, i + 1) == line.marks(grid, i as int));
                }
            }
            current = GridPos { x: current.x + step.x, y: current.y + step.y };
            i += 1;
        }
        if let Some(sp) = segment_start {
            let ghost first = i - segment_len;
            let ghost mid = self.portals@;
            proof {
                assert(self.run_ok(line, first, segment_len as int, c1, c2)) by {
                    assert forall|k: int| first <= k < first + segment_len implies {
                        &&& #[trigger] line.passable(self.grid, k)
                        &&& cluster_of(self.size as int, line.cell(k)) == c1
                        &&& cluster_of(self.size as int, line.far(k)) == c2
                    } by {
                        assert(cluster_of(self.size as int, line.cell(k)) == c1);
                    }
                }
            }
            self.place_portals_in_segment(
                sp,
                segment_len,
                step,
                neighbor_dir,
                c1_x,
                c1_y,
                c2_x,
                c2_y,
                Ghost(line),
                Ghost(first),
            );
            proof {
                lemma_appended_twice(
                    old(self).portals@,
                    mid,
                    self.portals@,
                    line,
                    line.marks(grid, first),
                    Line::marks_of_run(first, segment_len as int),
                    c1,
                    c2,
                );
                line.lemma_run_start(grid, first, length - 1);
                assert(line.marks(grid, length as int) == line.marks(grid, first)
                    + Line::marks_of_run(first, segment_len as int));
            }
        }
    }
}

/// The cells of a border between two side-by-side clusters lie in the left
/// cluster, the cells across from them in the right one.
pub proof fn lemma_vertical_border(grid: &GridMap, size: int, cx: int, cy: int, length: int)
    requires
        dims_ok(grid, size),
        0 <= cx < clusters_across(grid.width as int, size) - 1,
        0 <= cy < clusters_across(grid.height as int, size),
        0 <= length <= size,
        cy * size + length <= grid.height,
    ensures
        along(
            size,
            Line {
                start: GridPos { x: ((cx + 1) * size - 1) as i32, y: (cy * size) as i32 },
                step: GridPos { x: 0, y: 1 },
                across: GridPos { x: 1, y: 0 },
            },
            length,
            GridPos { x: cx as i32, y: cy as i32 },
            GridPos { x: (cx + 1) as i32, y: cy as i32 },
        ),
        0 <= cx * size,
        (cx + 1) * size < grid.width,
        (cx + 1) * size == cx * size + size,
        0 <= cy * size < grid.height,
{
    let line = Line {
        start: GridPos { x: ((cx + 1) * size - 1) as i32, y: (cy * size) as i32 },
        step: GridPos { x: 0, y: 1 },
        across: GridPos { x: 1, y: 0 },
    };
    lemma_cluster_start(cx + 1, grid.width as int, size);
    lemma_cluster_start(cx, grid.width as int, size);
    lemma_cluster_start(cy, grid.height as int, size);
    assert((cx + 1) * size == cx * size + size) by (nonlinear_arith);
    assert forall|i: int| 0 <= i < length implies {
        &&& #[trigger] cluster_of(size, line.cell(i)) == (GridPos { x: cx as i32, y: cy as i32 })
        &&& cluster_of(size, line.far(i)) == (GridPos { x: (cx + 1) as i32, y: cy as i32 })
    } by {
        assert(0 * i == 0);
        assert(1 * i == i);
        lemma_div_unique((cx + 1) * size - 1, cx, size);
        lemma_div_unique((cx + 1) * size, cx + 1, size);
        lemma_div_unique(cy * size + i, cy, size);
    }
}

/// The cells of a border between two clusters, one above the other, lie in
/// the upper cluster, the cells across from them in the lower one.
pub proof fn lemma_horizontal_border(grid: &GridMap, size: int, cx: int, cy: int, length: int)
    requires
        dims_ok(grid, size),
        0 <= cx < clusters_across(grid.width as int, size),
        0 <= cy < clusters_across(grid.height as int, size) - 1,
        0 <= length <= size,
        cx * size + length <= grid.width,
    ensures
        along(
            size,
            Line {
                start: GridPos { x: (cx * size) as i32, y: ((cy + 1) * size - 1) as i32 },
                step: GridPos { x: 1, y: 0 },
                across: GridPos { x: 0, y: 1 },
            },
            length,
            GridPos { x: cx as i32, y: cy as i32 },
            GridPos { x: cx as i32, y: (cy + 1) as i32 },
        ),
        0 <= cy * size,
        (cy + 1) * size < grid.height,
        (cy + 1) * size == cy * size + size,
        0 <= cx * size < grid.width,
{
    let line = Line {
        start: GridPos { x: (cx * size) as i32, y: ((cy + 1) * size - 1) as i32 },
        step: GridPos { x: 1, y: 0 },
        across: GridPos { x: 0, y: 1 },
    };
    lemma_cluster_start(cy + 1, grid.height as int, size);
    lemma_cluster_start(cy, grid.height as int, size);
    lemma_cluster_start(cx, grid.width as int, size);
    assert((cy + 1) * size == cy * size + size) by (nonlinear_arith);
    assert forall|i: int| 0 <= i < length implies {
        &&& #[trigger] cluster_of(size, line.cell(i)) == (GridPos { x: cx as i32, y: cy as i32 })
        &&& cluster_of(size, line.far(i)) == (GridPos { x: cx as i32, y: (cy + 1) as i32 })
    } by {
        assert(0 * i == 0);
        assert(1 * i == i);
        lemma_div_unique((cy + 1) * size - 1, cy, size);
        lemma_div_unique((cy + 1) * size, cy + 1, size);
        lemma_div_unique(cx * size + i, cx, size);
    }
}

/// Both sides of a grid with cells are no more than its cells.
pub proof fn lemma_sides(w: int, h: int)
    requires
        0 < w,
        0 < h,
    ensures
        w <= w * h,
        h <= w * h,
        w + h <= w * h + 1,
{
    assert(w <= w * h && h <= w * h && w + h <= w * h + 1) by (nonlinear_arith)
        requires
            0 < w,
            0 < h,
    ;
}

/// How far the clusters before cluster `c` reach: to the first cell of `c`,
/// or to the end of the grid where `c` is no cluster any more.
pub open spec fn reach(c: int, extent: int, size: int) -> int {
    if c < clusters_across(extent, size) {
        c * size
    } else {
        extent
    }
}

/// The portal pairs of the marked cells of a line, numbered from `base`.
pub open spec fn pairs_of(line: Line, marks: Seq<int>, c1: GridPos, c2: GridPos, base: int) -> Seq<
    PortalNode,
> {
    Seq::new(
        2 * marks.len(),
        |i: int|
            if i % 2 == 0 {
                PortalNode { id: PortalId((base + i) as usize), pos: line.cell(marks[i / 2]), cluster_xy: c1 }
            } else {
                PortalNode { id: PortalId((base + i) as usize), pos: line.far(marks[i / 2]), cluster_xy: c2 }
            },
    )
}

/// The portals `before`, followed by the portals of one border of `n`
/// cells.
pub open spec fn with_border(
    before: Seq<PortalNode>,
    grid: &GridMap,
    line: Line,
    n: int,
    c1: GridPos,
    c2: GridPos,
) -> Seq<PortalNode> {
    before + pairs_of(line, line.marks(grid, n), c1, c2, before.len() as int)
}

pub proof fn lemma_appended_is_with_border(
    before: Seq<PortalNode>,
    after: Seq<PortalNode>,
    grid: &GridMap,
    line: Line,
    n: int,
    c1: GridPos,
    c2: GridPos,
)
    requires
        appended(before, after, line, line.marks(grid, n), c1, c2),
    ensures
        after == with_border(before, grid, line, n, c1, c2),
{
    let marks = line.marks(grid, n);
    let want = with_border(before, grid, line, n, c1, c2);
    assert(after.len() == want.len());
    assert forall|i: int| 0 <= i < after.len() implies after[i] == want[i] by {
        if i >= before.len() {
            let k = i - before.len();
            let m = k / 2;
            assert(0 <= m < marks.len());
            assert(pair_at(after, before.len() as int, line, marks, c1, c2, m));
            if k % 2 == 0 {
                assert(k == 2 * m);
            } else {
                assert(k == 2 * m + 1);
            }
        }
    }
    assert(after =~= want);
}

/// How many cells of cluster `c` lie along an extent of the grid.
pub open spec fn span(extent: int, size: int, c: int) -> int {
    if c * size + size < extent {
        size
    } else {
        extent - c * size
    }
}

/// The cells of cluster (`cx`, `cy`) that face its right neighbour.
pub open spec fn right_border(size: int, cx: int, cy: int) -> Line {
    Line {
        start: GridPos { x: ((cx + 1) * size - 1) as i32, y: (cy * size) as i32 },
        step: GridPos { x: 0, y: 1 },
        across: GridPos { x: 1, y: 0 },
    }
}

/// The cells of cluster (`cx`, `cy`) that face its lower neighbour.
pub open spec fn lower_border(size: int, cx: int, cy: int) -> Line {
    Line {
        start: GridPos { x: (cx * size) as i32, y: ((cy + 1) * size - 1) as i32 },
        step: GridPos { x: 1, y: 0 },
        across: GridPos { x: 0, y: 1 },
    }
}

/// The portals of the borders between clusters that lie side by side, as far
/// as those come before the right border of cluster (`cx`, `cy`): column of
/// clusters by column, and from the top down in each.
pub open spec fn side_portals(grid: &GridMap, size: int, cx: int, cy: int) -> Seq<PortalNode>
    decreases cx, cy,
{
    let rows = clusters_across(grid.height as int, size);
    if cx < 0 || cy < 0 || rows < 0 {
        Seq::empty()
    } else if cy == 0 {
        if cx == 0 {
            Seq::empty()
        } else {
            side_portals(grid, size, cx - 1, rows)
        }
    } else {
        with_border(
            side_portals(grid, size, cx, cy - 1),
            grid,
            right_border(size, cx, cy - 1),
            span(grid.height as int, size, cy - 1),
            GridPos { x: cx as i32, y: (cy - 1) as i32 },
            GridPos { x: (cx + 1) as i32, y: (cy - 1) as i32 },
        )
    }
}

/// The number of borders that a row or column of `count` clusters has
/// between its clusters.
pub open spec fn borders(count: int) -> int {
    if count <= 0 {
        0
    } else {
        count - 1
    }
}

/// All portals of the borders between clusters that lie side by side, and
/// after them the portals of the borders between clusters that lie one
/// above the other, as far as those come before the lower border of cluster
/// (`cx`, `cy`): column of clusters by column, and from the top down in
/// each.
pub open spec fn stacked_portals(grid: &GridMap, size: int, cx: int, cy: int) -> Seq<PortalNode>
    decreases cx, cy,
{
    let columns = clusters_across(grid.width as int, size);
    let rows = clusters_across(grid.height as int, size);
    if cx < 0 || cy < 0 {
        Seq::empty()
    } else if cy == 0 {
        if cx == 0 {
            side_portals(grid, size, borders(columns), 0)
        } else {
            stacked_portals(grid, size, cx - 1, borders(rows))
        }
    } else {
        with_border(
            stacked_portals(grid, size, cx, cy - 1),
            grid,
            lower_border(size, cx, cy - 1),
            span(grid.width as int, size, cx),
            GridPos { x: cx as i32, y: (cy - 1) as i32 },
            GridPos { x: cx as i32, y: cy as i32 },
        )
    }
}

/// The portals of a grid cut into clusters of side `size`.
pub open spec fn all_portals(grid: &GridMap, size: int) -> Seq<PortalNode> {
    stacked_portals(grid, size, clusters_across(grid.width as int, size), 0)
}

impl HPAGrid {
    /// Finds the portals of a grid: first along the borders between clusters
    /// that lie side by side, column of clusters by column, then along the
    /// borders between clusters that lie one above the other.
    pub fn create_portals(grid: &GridMap, cluster_size: i32) -> (r: (
        Vec<PortalNode>,
        Vec<Vec<PortalId>>,
    ))
        requires
            dims_ok(grid, cluster_size as int),
        ensures
            forall|i: int|
                0 <= i < r.0@.len() ==> #[trigger] portal_valid(grid, cluster_size as int, r.0@, i),
            listing_ok(grid, cluster_size as int, r.0@, r.1@),
            r.0@.len() <= 4 * (grid.width * grid.height),
            r.0@ == all_portals(grid, cluster_size as int),
    {
        let ghost size = cluster_size as int;
        let ghost w = grid.width as int;
        let ghost h = grid.height as int;
        let cw: i32 = if grid.width <= 0 {
            0
        } else {
            proof {
                crate::hpa::lemma_div_facts(grid.width - 1, grid.width as int, cluster_size as int);
            }
            (grid.width - 1) / cluster_size + 1
        };
        let ch: i32 = if grid.height <= 0 {
            0
        } else {
            proof {
                crate::hpa::lemma_div_facts(grid.height - 1, grid.height as int, cluster_size as int);
            }
            (grid.height - 1) / cluster_size + 1
        };
        proof {
            crate::hpa::local::lemma_product_le(cw as int, ch as int, w, h);
        }
        let count = (cw * ch) as usize;
        let mut lookup: Vec<Vec<PortalId>> = Vec::new();
        let mut n: usize = 0;
        while n < count
            invariant
                n <= count,
                lookup@.len() == n,
                forall|k: int| 0 <= k < n ==> (#[trigger] lookup@[k])@ == Seq::<PortalId>::empty(),
            decreases count - n,
        {
            lookup.push(Vec::new());
            n += 1;
        }
        let mut placer = Placer { grid, size: cluster_size, across: cw, portals: Vec::new(), lookup };
        proof {
            assert(placer.ok());
            assert(0 <= w * h) by (nonlinear_arith)
                requires
                    0 <= w,
                    0 <= h,
            ;
        }
        let mut cx: i32 = 0;
        while cx < cw - 1
            invariant
                placer.ok(),
                placer.grid == grid,
                placer.size == cluster_size,
                placer.across == cw,
                dims_ok(grid, size),
                size == cluster_size,
                w == grid.width,
                h == grid.height,
                cw == clusters_across(w, size),
                ch == clusters_across(h, size),
                0 <= cx,
                cx <= cw - 1 || cw == 0,
                cw == 0 ==> cx == 0,
                0 <= w * h,
                placer.portals@.len() <= 2 * (cx * h),
                placer.portals@ == side_portals(grid, size, cx as int, 0),
            decreases cw - cx,
        {
            let mut cy: i32 = 0;
            proof {
                assert((cx + 1) * h == cx * h + h) by (nonlinear_arith);
                if ch > 0 {
                    lemma_clusters_cover(h, size);
                }
                assert(0 * size == 0);
            }
            while cy < ch
                invariant
                    placer.ok(),
                    placer.grid == grid,
                    placer.size == cluster_size,
                    placer.across == cw,
                    dims_ok(grid, size),
                    size == cluster_size,
                    w == grid.width,
                    h == grid.height,
                    cw == clusters_across(w, size),
                    ch == clusters_across(h, size),
                    0 <= cx < cw - 1,
                    0 <= cy <= ch,
                    0 <= w * h,
                    0 <= reach(cy as int, h, size) <= h,
                    placer.portals@.len() <= 2 * (cx * h) + 2 * reach(cy as int, h, size),
                    placer.portals@ == side_portals(grid, size, cx as int, cy as int),
                decreases ch - cy,
            {
                proof {
                    lemma_cluster_start(cy as int, h, size);
                    lemma_vertical_border(grid, size, cx as int, cy as int, 0);
                    lemma_sides(w, h);
                    lemma_clusters_cover(h, size);
                    if cy + 1 < ch {
                        lemma_cluster_start(cy + 1, h, size);
                    }
                    assert((cy + 1) * size == cy * size + size) by (nonlinear_arith);
                    if cy + 1 == ch {
                        assert(cy * size + size >= h);
                    } else {
                        lemma_cluster_start(cy as int, h, size);
                    }
                }
                let border_x = (cx + 1) * cluster_size - 1;
                let y_start = cy * cluster_size;
                let y_end = if grid.height - y_start > cluster_size {
                    y_start + cluster_size
                } else {
                    grid.height
                };
                let ghost line = Line {
                    start: GridPos { x: border_x, y: y_start },
                    step: GridPos { x: 0, y: 1 },
                    across: GridPos { x: 1, y: 0 },
                };
                let ghost before = placer.portals@;
                proof {
                    lemma_vertical_border(grid, size, cx as int, cy as int, y_end - y_start);
                    line.lemma_marks_len(grid, y_end - y_start);
                }
                placer.scan_boundary(
                    GridPos { x: border_x, y: y_start },
                    GridPos { x: 0, y: 1 },
                    y_end - y_start,
                    GridPos { x: 1, y: 0 },
                    cx,
                    cy,
                    cx + 1,
                    cy,
                );
                proof {
                    assert(placer.portals@.len() <= before.len() + 2 * (y_end - y_start));
                    assert(reach(cy + 1, h, size) == y_end);
                    assert(line == right_border(size, cx as int, cy as int));
                    assert(y_end - y_start == span(h, size, cy as int));
                    lemma_appended_is_with_border(
                        before,
                        placer.portals@,
                        grid,
                        line,
                        y_end - y_start,
                        GridPos { x: cx, y: cy },
                        GridPos { x: (cx + 1) as i32, y: cy },
                    );
                }
                cy += 1;
            }
            cx += 1;
        }
        proof {
            assert(0 * size == 0);
            if cw > 0 {
                crate::hpa::lemma_div_facts(w - 1, w, size);
                assert(2 * (cx * h) <= 2 * (w * h)) by (nonlinear_arith)
                    requires
                        0 <= cx <= w,
                        0 <= h,
                ;
            } else {
                assert(cx * h == 0) by (nonlinear_arith)
                    requires
                        cx == 0,
                ;
            }
        }
        cx = 0;
        while cx < cw
            invariant
                placer.ok(),
                placer.grid == grid,
                placer.size == cluster_size,
                placer.across == cw,
                dims_ok(grid, size),
                size == cluster_size,
                w == grid.width,
                h == grid.height,
                cw == clusters_across(w, size),
                ch == clusters_across(h, size),
                0 <= cx <= cw,
                0 <= w * h,
                0 <= reach(cx as int, w, size) <= w,
                placer.portals@.len() <= 2 * (w * h) + 2 * (h * reach(cx as int, w, size)),
                placer.portals@ == stacked_portals(grid, size, cx as int, 0),
            decreases cw - cx,
        {
            proof {
                lemma_clusters_cover(w, size);
                lemma_cluster_start(cx as int, w, size);
                assert((cx + 1) * size == cx * size + size) by (nonlinear_arith);
                if cx + 1 < cw {
                    lemma_cluster_start(cx + 1, w, size);
                }
            }
            let x_start = cx * cluster_size;
            let x_end = if grid.width - x_start > cluster_size {
                x_start + cluster_size
            } else {
                grid.width
            };
            let ghost span = x_end - x_start;
            proof {
                assert(reach(cx + 1, w, size) == x_end);
                assert(0 * span == 0);
            }
            let mut cy: i32 = 0;
            while cy < ch - 1
                invariant
                    placer.ok(),
                    placer.grid == grid,
                    placer.size == cluster_size,
                    placer.across == cw,
                    dims_ok(grid, size),
                    size == cluster_size,
                    w == grid.width,
                    h == grid.height,
                    0 < w,
                    cw == clusters_across(w, size),
                    ch == clusters_across(h, size),
                    0 <= cx < cw,
                    0 <= cy,
                    cy <= ch - 1 || cy == 0,
                    x_start == cx * size,
                    0 <= x_start < x_end <= w,
                    x_end - x_start <= size,
                    span == x_end - x_start,
                    span == crate::hpa::portals::span(w, size, cx as int),
                    0 <= w * h,
                    placer.portals@.len() <= 2 * (w * h) + 2 * (h * x_start) + 2 * (cy * span),
                    placer.portals@ == stacked_portals(grid, size, cx as int, cy as int),
                decreases ch - cy,
            {
                proof {
                    lemma_horizontal_border(grid, size, cx as int, cy as int, span);
                    lemma_sides(w, h);
                }
                let border_y = (cy + 1) * cluster_size - 1;
                let ghost line = Line {
                    start: GridPos { x: x_start, y: border_y },
                    step: GridPos { x: 1, y: 0 },
                    across: GridPos { x: 0, y: 1 },
                };
                let ghost before = placer.portals@;
                proof {
                    line.lemma_marks_len(grid, span);
                }
                placer.scan_boundary(
                    GridPos { x: x_start, y: border_y },
                    GridPos { x: 1, y: 0 },
                    x_end - x_start,
                    GridPos { x: 0, y: 1 },
                    cx,
                    cy,
                    cx,
                    cy + 1,
                );
                proof {
                    assert(placer.portals@.len() <= before.len() + 2 * span);
                    assert((cy + 1) * span == cy * span + span) by (nonlinear_arith);
                    assert(line == lower_border(size, cx as int, cy as int));
                    assert(span == crate::hpa::portals::span(w, size, cx as int));
                    lemma_appended_is_with_border(
                        before,
                        placer.portals@,
                        grid,
                        line,
                        span,
                        GridPos { x: cx, y: cy },
                        GridPos { x: cx, y: (cy + 1) as i32 },
                    );
                }
                cy += 1;
            }
            proof {
                if h > 0 {
                    crate::hpa::lemma_div_facts(h - 1, h, size);
                }
                assert(cy * span <= h * span) by (nonlinear_arith)
                    requires
                        0 <= cy <= h,
                        0 <= span,
                ;
                assert(h * x_end == h * x_start + h * span) by (nonlinear_arith)
                    requires
                        span == x_end - x_start,
                ;
            }
            cx += 1;
        }
        proof {
            assert(reach(cx as int, w, size) == w);
            assert(h * w == w * h) by (nonlinear_arith);
        }
        (placer.portals, placer.lookup)
    }
}

} // verus!
