//! Weighted graphs as the search sees them: a node count and a weight for
//! every ordered pair of nodes.

use crate::tour::in_range;
use vstd::prelude::*;

verus! {

/// The rows of a matrix, each as a sequence.
pub open spec fn rows_of(m: Seq<Vec<isize>>) -> Seq<Seq<isize>> {
    Seq::new(m.len(), |i: int| m[i]@)
}

/// `w` has `n` rows of `n` weights each.
pub open spec fn is_square(w: Seq<Seq<isize>>, n: nat) -> bool {
    &&& w.len() == n
    &&& forall|i: int| 0 <= i < n ==> (#[trigger] w[i]).len() == n
}

/// No weight of `w` is negative.
pub open spec fn non_negative(w: Seq<Seq<isize>>) -> bool {
    forall|i: int, j: int| 0 <= i < w.len() && 0 <= j < w[i].len() ==> (#[trigger] w[i][j]) >= 0
}

/// The total weight of the first `edges` steps of `t`, from each node to the
/// next.
pub open spec fn path_weight(w: Seq<Seq<isize>>, t: Seq<usize>, edges: nat) -> int
    decreases edges,
{
    if edges == 0 {
        0
    } else {
        path_weight(w, t, (edges - 1) as nat) + w[t[edges - 1] as int][t[edges as int] as int]
    }
}

/// The length of the closed tour `t`: the weight of every step from a node to
/// the next, and of the step from the last node back to the first.
pub open spec fn tour_cost(w: Seq<Seq<isize>>, t: Seq<usize>) -> int {
    path_weight(w, t, (t.len() - 1) as nat) + w[t[t.len() - 1] as int][t[0] as int]
}

/// A path over non-negative weights has a non-negative weight.
pub proof fn lemma_path_weight_non_negative(w: Seq<Seq<isize>>, t: Seq<usize>, edges: nat)
    requires
        is_square(w, w.len()),
        non_negative(w),
        in_range(t, w.len()),
        edges < t.len(),
    ensures
        path_weight(w, t, edges) >= 0,
    decreases edges,
{
    if edges > 0 {
        lemma_path_weight_non_negative(w, t, (edges - 1) as nat);
        let a = t[edges - 1];
        let b = t[edges as int];
        assert(w[a as int][b as int] >= 0);
    }
}

/// Where no weight is negative, no tour has a negative length.
pub proof fn lemma_tour_cost_non_negative(w: Seq<Seq<isize>>, t: Seq<usize>)
    requires
        is_square(w, w.len()),
        non_negative(w),
        in_range(t, w.len()),
        t.len() >= 1,
    ensures
        tour_cost(w, t) >= 0,
{
    lemma_path_weight_non_negative(w, t, (t.len() - 1) as nat);
    let a = t[t.len() - 1];
    let b = t[0];
    assert(w[a as int][b as int] >= 0);
}

/// A tour over a single node costs the weight from that node to itself.
pub proof fn lemma_single_node_cost(w: Seq<Seq<isize>>, t: Seq<usize>)
    requires
        t.len() == 1,
    ensures
        tour_cost(w, t) == w[t[0] as int][t[0] as int],
{
}

/// A weighted graph over the nodes `0..node_count`.
pub trait Graph: Sized {
    /// The weights, row by row: row `from` holds at `to` the weight of the
    /// step from `from` to `to`.
    spec fn weights(&self) -> Seq<Seq<isize>>;

    /// The number of nodes.
    spec fn node_count(&self) -> nat;

    /// The graph holds a weight for every ordered pair of its nodes.
    spec fn well_formed(&self) -> bool;

    /// A well-formed graph has a row of weights for every node, and in
    /// every row a weight for every node.
    proof fn lemma_weights_are_square(&self)
        requires
            self.well_formed(),
        ensures
            is_square(self.weights(), self.node_count()),
    ;

    /// A graph over `size` nodes in which every weight is zero.
    fn new(size: usize) -> (graph: Self)
        ensures
            graph.well_formed(),
            graph.node_count() == size,
            is_square(graph.weights(), size as nat),
            forall|i: int, j: int|
                0 <= i < size && 0 <= j < size ==> (#[trigger] graph.weights()[i][j]) == 0,
    ;

    /// The weight of the step from `from` to `to`.
    fn get_weight(&self, from: usize, to: usize) -> (weight: isize)
        requires
            self.well_formed(),
            from < self.node_count(),
            to < self.node_count(),
        ensures
            weight == self.weights()[from as int][to as int],
    ;

    /// Replaces the weights by `adj_matrix` where that has a row for every
    /// node and in every row a weight for every node, and leaves the graph
    /// as it is where not.
    fn set_adj_matrix(&mut self, adj_matrix: Vec<Vec<isize>>)
        requires
            old(self).well_formed(),
        ensures
            final(self).well_formed(),
            final(self).node_count() == old(self).node_count(),
            final(self).weights() == if is_square(rows_of(adj_matrix@), old(self).node_count()) {
                rows_of(adj_matrix@)
            } else {
                old(self).weights()
            },
    ;

    /// The length of the closed tour `path`.
    fn calculate_path_length(&self, path: &Vec<usize>) -> (length: i128)
        requires
            self.well_formed(),
            path@.len() >= 1,
            in_range(path@, self.node_count()),
        ensures
            length == tour_cost(self.weights(), path@),
            non_negative(self.weights()) ==> length >= 0,
    ;
}

/// A graph that holds its weights as a square matrix.
#[derive(Debug, Clone)]
pub struct MatrixGraph {
    size: usize,
    adj_matrix: Vec<Vec<isize>>,
}

/// Decides whether `m` has `n` rows of `n` weights each.
pub fn is_square_matrix(m: &Vec<Vec<isize>>, n: usize) -> (ok: bool)
    ensures
        ok == is_square(rows_of(m@), n as nat),
{
    if m.len() != n {
        return false;
    }
    let mut i: usize = 0;
    while i < n
        invariant
            i <= n,
            m@.len() == n,
            forall|k: int| 0 <= k < i ==> (#[trigger] rows_of(m@)[k]).len() == n,
        decreases n - i,
    {
        if m[i].len() != n {
            assert(rows_of(m@)[i as int].len() != n);
            return false;
        }
        i += 1;
    }
    true
}

impl MatrixGraph {
    /// The number of nodes.
    pub fn size(&self) -> (size: usize)
        ensures
            size == self.node_count(),
    {
        self.size
    }
}

impl Graph for MatrixGraph {
    closed spec fn weights(&self) -> Seq<Seq<isize>> {
        rows_of(self.adj_matrix@)
    }

    closed spec fn node_count(&self) -> nat {
        self.size as nat
    }

    closed spec fn well_formed(&self) -> bool {
        is_square(rows_of(self.adj_matrix@), self.size as nat)
    }

    proof fn lemma_weights_are_square(&self) {
    }

    fn new(size: usize) -> (graph: MatrixGraph) {
        let mut adj_matrix: Vec<Vec<isize>> = Vec::with_capacity(size);
        let mut i: usize = 0;
        while i < size
            invariant
                i <= size,
                adj_matrix@.len() == i,
                forall|r: int| 0 <= r < i ==> (#[trigger] adj_matrix@[r])@.len() == size,
                forall|r: int, c: int| 0 <= r < i && 0 <= c < size ==> (#[trigger] adj_matrix@[r]@[c]) == 0,
            decreases size - i,
        {
            let mut row: Vec<isize> = Vec::with_capacity(size);
            let mut j: usize = 0;
            while j < size
                invariant
                    j <= size,
                    row@.len() == j,
                    forall|c: int| 0 <= c < j ==> (#[trigger] row@[c]) == 0,
                decreases size - j,
            {
                row.push(0);
                j += 1;
            }
            adj_matrix.push(row);
            i += 1;
        }
        MatrixGraph { size, adj_matrix }
    }

    fn get_weight(&self, from: usize, to: usize) -> (weight: isize) {
        assert(rows_of(self.adj_matrix@)[from as int].len() == self.size);
        self.adj_matrix[from][to]
    }

    fn set_adj_matrix(&mut self, adj_matrix: Vec<Vec<isize>>) {
        if is_square_matrix(&adj_matrix, self.size) {
            self.adj_matrix = adj_matrix;
        }
    }

    fn calculate_path_length(&self, path: &Vec<usize>) -> (length: i128) {
        let n = path.len();
        let mut length: i128 = 0;
        let mut i: usize = 0;
        while i < n - 1
            invariant
                self.well_formed(),
                n == path@.len(),
                n >= 1,
                i <= n - 1,
                in_range(path@, self.node_count()),
                length == path_weight(self.weights(), path@, i as nat),
                -(i as int) * 0x8000_0000_0000_0000 <= length <= (i as int) * 0x8000_0000_0000_0000,
            decreases n - 1 - i,
        {
            let step = self.get_weight(path[i], path[i + 1]);
            length = length + step as i128;
            i += 1;
        }
        let closing = self.get_weight(path[n - 1], path[0]);
        proof {
            if non_negative(self.weights()) {
                lemma_tour_cost_non_negative(self.weights(), path@);
            }
        }
        length + closing as i128
    }
}

} // verus!
