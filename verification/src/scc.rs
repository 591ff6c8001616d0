//! One block of the free side that is ordered on its own.

use vstd::prelude::*;
use crate::cost::{adjacency, checked_total, is_square, matrix, total};
use crate::graph::is_graph;

verus! {

/// A strongly connected component of the precedence graph, with local
/// vertices `0..n`.
pub struct SCC {
    /// Number of vertices.
    pub n: usize,
    /// `labels[i]` is the free-side vertex that local vertex `i` stands for.
    pub labels: Vec<usize>,
    /// `w[i][j]` is the number of crossings between the edges of `i` and
    /// those of `j` that an ordering has when `i` stands after `j`.
    pub w: Vec<Vec<u64>>,
    /// `g[i]` lists the local vertices `j` that `i` should stand before.
    pub g: Vec<Vec<usize>>,
}

impl SCC {
    /// The weight matrix as sequences.
    pub open spec fn weights(&self) -> Seq<Seq<u64>> {
        matrix(self.w@)
    }

    /// The precedence edges as sequences.
    pub open spec fn edges(&self) -> Seq<Seq<usize>> {
        adjacency(self.g@)
    }

    /// The sizes agree, no vertex crosses itself, every edge stays inside,
    /// and all weights together stay below `u64::MAX - 1`, so that no
    /// ordering's cost overflows or is taken for the value that stands for
    /// an interrupted evaluation.
    pub open spec fn wf(&self) -> bool {
        &&& self.labels@.len() == self.n
        &&& is_square(self.weights(), self.n as nat)
        &&& forall|i: int| 0 <= i < self.n ==> (#[trigger] self.weights()[i])[i] == 0
        &&& self.g@.len() == self.n
        &&& is_graph(self.edges())
        &&& total(self.weights()) < u64::MAX - 1
    }

    /// The component with the given labels, weights and edges.
    pub fn new(labels: Vec<usize>, w: Vec<Vec<u64>>, g: Vec<Vec<usize>>) -> (scc: Self)
        ensures
            scc.n == labels@.len(),
            scc.labels == labels,
            scc.w == w,
            scc.g == g,
    {
        SCC { n: labels.len(), labels, w, g }
    }

    /// Whether the component is well-formed.
    pub fn check(&self) -> (ok: bool)
        ensures
            ok == self.wf(),
    {
        let n = self.n;
        if self.labels.len() != n || self.w.len() != n || self.g.len() != n {
            return false;
        }
        let mut i: usize = 0;
        while i < n
            invariant
                0 <= i <= n,
                n == self.n,
                self.w@.len() == n,
                self.g@.len() == n,
                forall|a: int| 0 <= a < i ==> (#[trigger] self.weights()[a]).len() == n,
                forall|a: int| 0 <= a < i ==> (#[trigger] self.weights()[a])[a] == 0,
                forall|a: int, k: int|
                    0 <= a < i && 0 <= k < self.edges()[a].len() ==> (#[trigger] self.edges()[a][k])
                        < n,
            decreases n - i,
        {
            if self.w[i].len() != n {
                assert(self.weights()[i as int].len() != n);
                return false;
            }
            if self.w[i][i] != 0 {
                assert(self.weights()[i as int][i as int] != 0);
                return false;
            }
            let row = &self.g[i];
            let mut k: usize = 0;
            while k < row.len()
                invariant
                    0 <= k <= row.len(),
                    0 <= i < n,
                    self.g@.len() == n,
                    row@ == self.edges()[i as int],
                    forall|l: int| 0 <= l < k ==> (#[trigger] row@[l]) < n,
                decreases row.len() - k,
            {
                if row[k] >= n {
                    assert(!(self.edges()[i as int][k as int] < self.edges().len()));
                    return false;
                }
                k += 1;
            }
            i += 1;
        }
        match checked_total(&self.w) {
            Some(sum) => sum < u64::MAX - 1,
            None => false,
        }
    }
}

} // verus!
