//! A graph given by its lists of edges, for searches on graphs that are no
//! grids.

use vstd::prelude::*;
use crate::search::astar::SearchSpace;

verus! {

/// A graph whose node `n` has the edges `edges[n]`, the estimate
/// `estimates[n]` of its distance to a goal, and is a goal if `goals[n]`.
pub struct ListedGraph {
    pub edges: Vec<Vec<(usize, u32)>>,
    pub estimates: Vec<u32>,
    pub goals: Vec<bool>,
}

impl ListedGraph {
    /// The three lists are of one length, and every edge leads to a node.
    pub open spec fn valid(&self) -> bool {
        &&& self.estimates@.len() == self.edges@.len()
        &&& self.goals@.len() == self.edges@.len()
        &&& forall|n: int, j: int|
            0 <= n < self.edges@.len() && 0 <= j < self.edges@[n]@.len() ==> (
            #[trigger] self.edges@[n]@[j]).0 < self.edges@.len()
    }

    /// Whether the graph is valid.
    pub fn is_valid(&self) -> (b: bool)
        ensures
            b == self.valid(),
    {
        if self.estimates.len() != self.edges.len() || self.goals.len() != self.edges.len() {
            return false;
        }
        let count = self.edges.len();
        let mut n: usize = 0;
        while n < count
            invariant
                count == self.edges@.len(),
                n <= count,
                forall|a: int, j: int|
                    0 <= a < n && 0 <= j < self.edges@[a]@.len() ==> (#[trigger] self.edges@[a]@[j]).0
                        < count,
            decreases count - n,
        {
            let row = &self.edges[n];
            let mut j: usize = 0;
            while j < row.len()
                invariant
                    count == self.edges@.len(),
                    n < count,
                    row@ == self.edges@[n as int]@,
                    j <= row@.len(),
                    forall|i: int| 0 <= i < j ==> (#[trigger] row@[i]).0 < count,
                decreases row@.len() - j,
            {
                if row[j].0 >= count {
                    proof {
                        assert(!(self.edges@[n as int]@[j as int].0 < self.edges@.len()));
                    }
                    return false;
                }
                j += 1;
            }
            n += 1;
        }
        true
    }
}

impl SearchSpace for ListedGraph {
    open spec fn wf(&self) -> bool {
        self.valid()
    }

    open spec fn node_count(&self) -> nat {
        self.edges@.len()
    }

    open spec fn edges(&self, node: int) -> Seq<(usize, u32)> {
        self.edges@[node]@
    }

    open spec fn estimate(&self, node: int) -> u32 {
        self.estimates@[node]
    }

    open spec fn goal(&self, node: int) -> bool {
        self.goals@[node]
    }

    fn size(&self) -> (n: usize) {
        self.edges.len()
    }

    fn neighbors(&self, node: usize) -> (out: Vec<(usize, u32)>) {
        let row = &self.edges[node];
        let mut out: Vec<(usize, u32)> = Vec::new();
        let mut j: usize = 0;
        while j < row.len()
            invariant
                row@ == self.edges@[node as int]@,
                j <= row@.len(),
                out@ == row@.take(j as int),
            decreases row@.len() - j,
        {
            out.push(row[j]);
            proof {
                assert(row@.take(j as int).push(row@[j as int]) =~= row@.take(j + 1));
            }
            j += 1;
        }
        proof {
            assert(row@.take(row@.len() as int) =~= row@);
        }
        out
    }

    fn heuristic(&self, node: usize) -> (h: u32) {
        self.estimates[node]
    }

    fn is_goal(&self, node: usize) -> (b: bool) {
        self.goals[node]
    }
}

} // verus!
