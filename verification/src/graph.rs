//! Dense weighted graphs stored as an adjacency matrix of optional weights.

use vstd::prelude::*;
use crate::minplus::{rows_view, square, weights_bounded, Matrix, MAX_NODE_COUNT};

verus! {

/// A graph on `node_count` nodes; `adjacency_matrix[from][to]` is `Some(w)`
/// when an edge of weight `w` is present and `None` when there is no edge.
pub struct GraphAM {
    pub node_count: usize,
    pub adjacency_matrix: Vec<Vec<Option<u64>>>,
}

/// One directed edge, as a plain value.
#[derive(Clone, Copy)]
pub struct Edge {
    pub from: usize,
    pub to: usize,
    pub weight: u64,
}

impl GraphAM {
    /// The adjacency matrix as specifications see it.
    pub open spec fn mat(&self) -> Matrix {
        rows_view(self.adjacency_matrix@)
    }

    /// The matrix really is `node_count` by `node_count`.
    pub open spec fn wf(&self) -> bool {
        square(self.mat(), self.node_count as nat)
    }

    /// The graph is small enough that no engine can overflow on it.
    pub open spec fn weights_fit(&self) -> bool {
        &&& self.node_count <= MAX_NODE_COUNT
        &&& weights_bounded(self.mat())
    }

    /// An empty graph with no nodes.
    pub fn new() -> (g: Self)
        ensures
            g.wf(),
            g.weights_fit(),
            g.node_count == 0,
    {
        GraphAM { node_count: 0, adjacency_matrix: Vec::new() }
    }

    /// A graph of `node_count` nodes and no edges yet.
    pub fn with_capacity(node_count: usize) -> (g: Self)
        ensures
            g.wf(),
            g.node_count == node_count,
            forall|i: int, j: int|
                0 <= i < node_count && 0 <= j < node_count ==> g.mat()[i][j] is None,
    {
        let mut adjacency_matrix: Vec<Vec<Option<u64>>> = Vec::new();
        let mut i: usize = 0;
        while i < node_count
            invariant
                i <= node_count,
                adjacency_matrix@.len() == i,
                forall|r: int| 0 <= r < i ==> (#[trigger] adjacency_matrix@[r])@.len() == node_count,
                forall|r: int, c: int|
                    0 <= r < i && 0 <= c < node_count
                        ==> #[trigger] adjacency_matrix@[r]@[c] is None,
            decreases node_count - i,
        {
            let mut row: Vec<Option<u64>> = Vec::new();
            let mut j: usize = 0;
            while j < node_count
                invariant
                    j <= node_count,
                    row@.len() == j,
                    forall|c: int| 0 <= c < j ==> row@[c] is None,
                decreases node_count - j,
            {
                row.push(None);
                j = j + 1;
            }
            adjacency_matrix.push(row);
            i = i + 1;
        }
        GraphAM { node_count, adjacency_matrix }
    }

    /// A deep copy of this graph.
    pub fn duplicate(&self) -> (g: Self)
        ensures
            g.node_count == self.node_count,
            g.mat() == self.mat(),
            g.wf() == self.wf(),
            g.weights_fit() == self.weights_fit(),
    {
        let adjacency_matrix = crate::fwb_function::copy_matrix(&self.adjacency_matrix);
        let g = GraphAM { node_count: self.node_count, adjacency_matrix };
        proof {
            assert(g.mat() =~~= self.mat());
        }
        g
    }

    /// Record the directed edge `from -> to` with the given weight,
    /// replacing any weight stored for that pair before.
    pub fn add_edge(&mut self, from: usize, to: usize, weight: u64)
        requires
            old(self).wf(),
            from < old(self).node_count,
            to < old(self).node_count,
        ensures
            final(self).wf(),
            final(self).node_count == old(self).node_count,
            final(self).mat() == old(self).mat().update(
                from as int,
                old(self).mat()[from as int].update(to as int, Some(weight)),
            ),
    {
        proof {
            assert(self.adjacency_matrix@.len() == self.node_count);
            assert(self.mat()[from as int] == self.adjacency_matrix@[from as int]@);
            assert(self.adjacency_matrix@[from as int]@.len() == self.node_count);
        }
        self.adjacency_matrix[from][to] = Some(weight);
        proof {
            assert(self.mat() =~~= old(self).mat().update(
                from as int,
                old(self).mat()[from as int].update(to as int, Some(weight)),
            ));
        }
    }
}

} // verus!
