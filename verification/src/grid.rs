//! Integer grid coordinates and the walkability grid.

use vstd::prelude::*;

verus! {

/// A cell coordinate, or a step between cells, on the integer grid.
#[derive(Clone, Copy, Debug, PartialEq, Eq, Structural, Hash)]
pub struct GridPos {
    pub x: i32,
    pub y: i32,
}

impl GridPos {
    pub fn new(x: i32, y: i32) -> (p: GridPos)
        ensures
            p.x == x,
            p.y == y,
    {
        GridPos { x, y }
    }
}

/// The number of grid steps between two cells.
pub open spec fn manhattan(a: GridPos, b: GridPos) -> int {
    (if a.x >= b.x {
        a.x - b.x
    } else {
        b.x - a.x
    }) + (if a.y >= b.y {
        a.y - b.y
    } else {
        b.y - a.y
    })
}

/// The two cells are one step apart, horizontally or vertically.
pub open spec fn adjacent(a: GridPos, b: GridPos) -> bool {
    manhattan(a, b) == 1
}

/// The map: which cells of a `width` by `height` grid are walls.
#[derive(Clone, Debug)]
pub struct GridMap {
    pub width: i32,
    pub height: i32,
    /// Row-major: the cell (x, y) is at `y * width + x`; `true` is a wall.
    pub walls: Vec<bool>,
}

pub proof fn lemma_cell_index_bound(x: int, y: int, width: int, height: int)
    requires
        0 <= x < width,
        0 <= y < height,
    ensures
        0 <= y * width + x < width * height,
        y * width + x < (y + 1) * width,
{
    assert(y * width + x < (y + 1) * width) by (nonlinear_arith)
        requires
            0 <= x < width,
    ;
    assert((y + 1) * width <= height * width) by (nonlinear_arith)
        requires
            0 <= y < height,
            0 < width,
    ;
    assert(0 <= y * width) by (nonlinear_arith)
        requires
            0 <= y,
            0 < width,
    ;
    assert(height * width == width * height) by (nonlinear_arith);
}

impl GridMap {
    /// The wall table has one entry for each cell.
    pub open spec fn wf(&self) -> bool {
        &&& 0 <= self.width
        &&& 0 <= self.height
        &&& self.width * self.height <= i32::MAX
        &&& self.walls@.len() == self.width * self.height
    }

    pub open spec fn in_bounds(&self, pos: GridPos) -> bool {
        0 <= pos.x < self.width && 0 <= pos.y < self.height
    }

    pub open spec fn cell_index(&self, pos: GridPos) -> int {
        pos.y * self.width + pos.x
    }

    /// A cell is walkable if it lies on the grid and is no wall.
    pub open spec fn walkable(&self, pos: GridPos) -> bool {
        self.in_bounds(pos) && !self.walls@[self.cell_index(pos)]
    }

    /// A grid without walls.
    pub fn new(width: i32, height: i32) -> (grid: GridMap)
        requires
            0 <= width,
            0 <= height,
            width * height <= i32::MAX,
        ensures
            grid.wf(),
            grid.width == width,
            grid.height == height,
            forall|pos: GridPos| grid.in_bounds(pos) ==> #[trigger] grid.walkable(pos),
    {
        assert(0 <= width * height) by (nonlinear_arith)
            requires
                0 <= width,
                0 <= height,
        ;
        let size = (width * height) as usize;
        let mut walls: Vec<bool> = Vec::new();
        let mut i: usize = 0;
        while i < size
            invariant
                i <= size,
                walls@.len() == i,
                forall|k: int| 0 <= k < i ==> !(#[trigger] walls@[k]),
            decreases size - i,
        {
            walls.push(false);
            i += 1;
        }
        let grid = GridMap { width, height, walls };
        proof {
            assert forall|pos: GridPos| grid.in_bounds(pos) implies #[trigger] grid.walkable(
                pos,
            ) by {
                lemma_cell_index_bound(pos.x as int, pos.y as int, width as int, height as int);
            }
        }
        grid
    }

    pub fn is_walkable(&self, pos: GridPos) -> (b: bool)
        requires
            self.wf(),
        ensures
            b == self.walkable(pos),
    {
        if pos.x < 0 || pos.x >= self.width || pos.y < 0 || pos.y >= self.height {
            return false;
        }
        proof {
            lemma_cell_index_bound(
                pos.x as int,
                pos.y as int,
                self.width as int,
                self.height as int,
            );
        }
        !self.walls[(pos.y * self.width + pos.x) as usize]
    }

    /// Makes the cell a wall or clears it; a cell off the grid is left alone.
    pub fn set_obstacle(&mut self, pos: GridPos, is_wall: bool)
        requires
            old(self).wf(),
        ensures
            final(self).wf(),
            final(self).width == old(self).width,
            final(self).height == old(self).height,
            old(self).in_bounds(pos) ==> final(self).walls@ == old(self).walls@.update(
                old(self).cell_index(pos),
                is_wall,
            ),
            !old(self).in_bounds(pos) ==> final(self).walls@ == old(self).walls@,
    {
        if pos.x >= 0 && pos.x < self.width && pos.y >= 0 && pos.y < self.height {
            proof {
                lemma_cell_index_bound(
                    pos.x as int,
                    pos.y as int,
                    self.width as int,
                    self.height as int,
                );
            }
            let idx = (pos.y * self.width + pos.x) as usize;
            self.walls.set(idx, is_wall);
        }
    }
}

/// The grid distance between two cells of which neither coordinate is
/// negative.
pub fn heuristic(a: GridPos, b: GridPos) -> (h: u32)
    requires
        0 <= a.x,
        0 <= a.y,
        0 <= b.x,
        0 <= b.y,
    ensures
        h == manhattan(a, b),
{
    let dx: u32 = if a.x >= b.x {
        (a.x - b.x) as u32
    } else {
        (b.x - a.x) as u32
    };
    let dy: u32 = if a.y >= b.y {
        (a.y - b.y) as u32
    } else {
        (b.y - a.y) as u32
    };
    dx + dy
}

} // verus!
