//! The bipartite graph whose free side is to be ordered, and the number of
//! crossings between the edges of two free vertices.

use vstd::prelude::*;
use crate::cost::{
    adjacency, eval, eval_upto, is_square, lemma_picked_bounded, lemma_seq_sum_is_picked,
    lemma_seq_sum_prefix, lemma_seq_sum_scaled, lemma_seq_sum_take, pre_cost, row, row_totals,
    seq_sum, total,
};
use crate::graph::{components, compute_sccs, get_subgraph, induced, is_graph};
use crate::permutation::{check_permutation, in_range, is_arrangement, is_permutation};
use crate::scc::SCC;
use crate::sifting::relabel;
use crate::sifting_large::{crossing_count, crossing_matrix};
use crate::traversal::{concat_range, lemma_components_partition};

verus! {

/// The largest number of edges, counted with multiplicity, that a graph may
/// have: with it every sum of crossing numbers fits in an `i64`.
pub const EDGE_LIMIT: usize = 0x7fff_ffff;

/// A bipartite graph with a fixed side of `n0` vertices and a free side of
/// `n1` vertices. Free vertices with the same neighbours are kept as one
/// vertex, and free vertices without neighbours are kept apart.
pub struct BipartiteGraph {
    /// Number of vertices of the fixed side.
    pub n0: usize,
    /// Number of vertices of the free side.
    pub n1: usize,
    /// For each free vertex its neighbours on the fixed side, ascending; a
    /// neighbour stands once for each edge to it.
    pub adjs: Vec<Vec<usize>>,
    /// For each free vertex the vertices of the input that it stands for.
    pub ids: Vec<Vec<usize>>,
    /// The vertices of the input without neighbours.
    pub isolated: Vec<usize>,
}

/// The number of entries among the first `k` of `b` that are less than `x`.
pub open spec fn count_below(b: Seq<usize>, x: usize, k: int) -> nat
    decreases k,
{
    if k <= 0 {
        0
    } else {
        count_below(b, x, k - 1) + if b[k - 1] < x {
            1nat
        } else {
            0nat
        }
    }
}

/// The number of pairs of an entry among the first `i` of `a` and an entry
/// of `b` of which the first is greater.
pub open spec fn crossings_upto(a: Seq<usize>, b: Seq<usize>, i: int) -> nat
    decreases i,
{
    if i <= 0 {
        0
    } else {
        crossings_upto(a, b, i - 1) + count_below(b, a[i - 1], b.len() as int)
    }
}

/// The number of crossings between the edges of a vertex with neighbours `a`
/// and those of a vertex with neighbours `b` when the first stands before
/// the second: the number of pairs of a neighbour of the first and a
/// neighbour of the second of which the first is greater.
pub open spec fn pair_crossings(a: Seq<usize>, b: Seq<usize>) -> nat {
    crossings_upto(a, b, a.len() as int)
}

/// The number of neighbours of each vertex.
pub open spec fn degrees(adjs: Seq<Seq<usize>>) -> Seq<int> {
    Seq::new(adjs.len(), |u: int| adjs[u].len() as int)
}

/// The number of edges.
pub open spec fn edge_count(adjs: Seq<Seq<usize>>) -> int {
    seq_sum(degrees(adjs))
}

/// No entry of `s` is less than the one before.
pub open spec fn ascending(s: Seq<usize>) -> bool {
    forall|i: int, j: int| 0 <= i < j < s.len() ==> s[i] <= s[j]
}

/// No more entries are less than `x` than there are entries.
pub proof fn lemma_count_below_bounded(b: Seq<usize>, x: usize, k: int)
    requires
        0 <= k,
    ensures
        count_below(b, x, k) <= k,
    decreases k,
{
    if k > 0 {
        lemma_count_below_bounded(b, x, k - 1);
    }
}

/// The first `i` entries of `a` are in no more pairs than there are.
pub proof fn lemma_crossings_upto_bounded(a: Seq<usize>, b: Seq<usize>, i: int)
    requires
        0 <= i,
    ensures
        crossings_upto(a, b, i) <= i * b.len(),
    decreases i,
{
    if i > 0 {
        lemma_crossings_upto_bounded(a, b, i - 1);
        lemma_count_below_bounded(b, a[i - 1], b.len() as int);
        assert((i - 1) * b.len() + b.len() == i * b.len()) by (nonlinear_arith);
    } else {
        assert(0 * b.len() == 0);
    }
}

/// No more pairs cross than there are pairs.
pub proof fn lemma_pair_crossings_bounded(a: Seq<usize>, b: Seq<usize>)
    ensures
        pair_crossings(a, b) <= a.len() * b.len(),
{
    lemma_crossings_upto_bounded(a, b, a.len() as int);
}

/// The degree of a vertex is no more than the number of edges, and any two
/// degrees multiply to no more than its square.
pub proof fn lemma_degree_bounded(adjs: Seq<Seq<usize>>, u: int, v: int)
    requires
        0 <= u < adjs.len(),
        0 <= v < adjs.len(),
    ensures
        adjs[u].len() <= edge_count(adjs),
        adjs[u].len() * adjs[v].len() <= edge_count(adjs) * edge_count(adjs),
{
    let d = degrees(adjs);
    lemma_degree_in_sum(d, u);
    lemma_degree_in_sum(d, v);
    let (x, y, m) = (adjs[u].len() as int, adjs[v].len() as int, edge_count(adjs));
    assert(x * y <= m * m) by (nonlinear_arith)
        requires
            0 <= x <= m,
            0 <= y <= m,
    ;
}

/// No entry is more than the sum.
proof fn lemma_degree_in_sum(d: Seq<int>, u: int)
    requires
        0 <= u < d.len(),
        forall|k: int| 0 <= k < d.len() ==> d[k] >= 0,
    ensures
        d[u] <= seq_sum(d),
{
    lemma_seq_sum_prefix(d, u + 1);
    lemma_seq_sum_take(d, u);
    lemma_seq_sum_prefix(d, u);
}

impl BipartiteGraph {
    /// The adjacency lists as sequences.
    pub open spec fn neighbours(&self) -> Seq<Seq<usize>> {
        adjacency(self.adjs@)
    }

    /// The number of crossings between the edges of `u` and those of `v`
    /// when `u` stands before `v`.
    pub open spec fn crossing(&self, u: int, v: int) -> nat {
        pair_crossings(self.neighbours()[u], self.neighbours()[v])
    }

    /// The vertices of the input that each free vertex stands for, as
    /// sequences.
    pub open spec fn groups(&self) -> Seq<Seq<usize>> {
        adjacency(self.ids@)
    }

    /// The vertices of the input that the free vertices stand for, those of
    /// one free vertex after those of the one before.
    pub open spec fn grouped(&self) -> Seq<usize> {
        concat_range(self.groups(), 0, self.n1 as int)
    }

    /// The number of free vertices of the input.
    pub open spec fn input_size(&self) -> nat {
        self.isolated@.len() + self.grouped().len()
    }

    /// The sizes agree, every neighbour is a vertex of the fixed side, the
    /// adjacency lists ascend, every free vertex of the input is either
    /// isolated or stands in the group of exactly one free vertex, and the
    /// graph stays within the limits on its size.
    pub open spec fn wf(&self) -> bool {
        &&& self.adjs@.len() == self.n1
        &&& self.ids@.len() == self.n1
        &&& self.n0 <= u32::MAX
        &&& forall|u: int| 0 <= u < self.n1 ==> in_range(#[trigger] self.neighbours()[u], self.n0 as nat)
        &&& forall|u: int| 0 <= u < self.n1 ==> ascending(#[trigger] self.neighbours()[u])
        &&& edge_count(self.neighbours()) <= EDGE_LIMIT
        &&& is_permutation(self.isolated@ + self.grouped(), self.input_size())
        &&& self.input_size() + self.n0 < usize::MAX
    }

    /// The number of crossings between the edges of `u` and those of `v`
    /// when `u` stands before `v`.
    pub fn pair_crossing_number(&self, u: usize, v: usize) -> (c: u64)
        requires
            self.wf(),
            u < self.n1,
            v < self.n1,
        ensures
            c == self.crossing(u as int, v as int),
            c <= 0x3fff_ffff_0000_0001,
    {
        let a = &self.adjs[u];
        let b = &self.adjs[v];
        let mut c: u64 = 0;
        let mut i: usize = 0;
        proof {
            lemma_degree_bounded(self.neighbours(), u as int, v as int);
            lemma_pair_crossings_bounded(a@, b@);
            let m = edge_count(self.neighbours());
            assert(m * m <= 0x3fff_ffff_0000_0001) by (nonlinear_arith)
                requires
                    0 <= m <= 0x7fff_ffff,
            ;
        }
        while i < a.len()
            invariant
                0 <= i <= a.len(),
                c == crossings_upto(a@, b@, i as int),
                pair_crossings(a@, b@) <= 0x3fff_ffff_0000_0001,
            decreases a.len() - i,
        {
            let x = a[i];
            let mut below: u64 = 0;
            let mut j: usize = 0;
            proof {
                lemma_crossings_monotone(a@, b@, i + 1, a@.len() as int);
            }
            while j < b.len()
                invariant
                    0 <= j <= b.len(),
                    x == a@[i as int],
                    below == count_below(b@, x, j as int),
                    count_below(b@, x, b@.len() as int) <= 0x3fff_ffff_0000_0001,
                decreases b.len() - j,
            {
                proof {
                    lemma_count_below_monotone(b@, x, j + 1, b@.len() as int);
                }
                if b[j] < x {
                    below = below + 1;
                }
                j += 1;
            }
            c = c + below;
            i += 1;
        }
        c
    }
}

/// The count grows with the number of entries looked at.
pub proof fn lemma_count_below_monotone(b: Seq<usize>, x: usize, j: int, k: int)
    requires
        j <= k,
    ensures
        count_below(b, x, j) <= count_below(b, x, k),
    decreases k,
{
    if k <= 0 {
    } else if j < k {
        lemma_count_below_monotone(b, x, j, k - 1);
    }
}

/// The count grows with the number of entries looked at.
pub proof fn lemma_crossings_monotone(a: Seq<usize>, b: Seq<usize>, i: int, k: int)
    requires
        i <= k,
    ensures
        crossings_upto(a, b, i) <= crossings_upto(a, b, k),
    decreases k,
{
    if k <= 0 {
    } else if i < k {
        lemma_crossings_monotone(a, b, i, k - 1);
    }
}

impl BipartiteGraph {
    /// Fewer edges cross when `u` stands before `v` than the other way
    /// round.
    pub open spec fn prefers(&self, u: int, v: int) -> bool {
        self.crossing(u, v) < self.crossing(v, u)
    }

    /// The vertices below `k` that `u` prefers to stand before, ascending.
    pub open spec fn precedence_row(&self, u: int, k: int) -> Seq<usize>
        decreases k,
    {
        if k <= 0 {
            Seq::empty()
        } else if self.prefers(u, k - 1) {
            self.precedence_row(u, k - 1).push((k - 1) as usize)
        } else {
            self.precedence_row(u, k - 1)
        }
    }

    /// The precedence graph on the free vertices: an edge goes from `u` to
    /// `v` where fewer edges cross when `u` stands before `v`.
    pub open spec fn precedence_graph(&self) -> Seq<Seq<usize>> {
        Seq::new(self.n1 as nat, |u: int| self.precedence_row(u, self.n1 as int))
    }

    /// `scc` is the component of the precedence graph on the vertices `comp`:
    /// local vertex `i` stands for `comp[i]` and pays against `j` the number
    /// of crossings when `comp[j]` stands before `comp[i]`.
    pub open spec fn is_component(&self, scc: SCC, comp: Seq<usize>) -> bool {
        &&& scc.n == comp.len()
        &&& scc.labels@ == comp
        &&& is_square(scc.weights(), comp.len())
        &&& forall|i: int, j: int|
            0 <= i < comp.len() && 0 <= j < comp.len() ==> (#[trigger] scc.weights()[i][j]) == if i
                == j {
                0
            } else {
                self.crossing(comp[j] as int, comp[i] as int)
            }
        &&& scc.edges() == induced(self.precedence_graph(), comp)
    }

    /// A row of the precedence graph names free vertices.
    proof fn lemma_precedence_row_in_range(&self, u: int, k: int)
        requires
            0 <= k <= self.n1,
        ensures
            in_range(self.precedence_row(u, k), self.n1 as nat),
        decreases k,
    {
        if k > 0 {
            self.lemma_precedence_row_in_range(u, k - 1);
        }
    }

    /// The precedence graph.
    pub fn precedence(&self) -> (p: Vec<Vec<usize>>)
        requires
            self.wf(),
        ensures
            adjacency(p@) == self.precedence_graph(),
            is_graph(adjacency(p@)),
    {
        let n = self.n1;
        let mut p: Vec<Vec<usize>> = Vec::new();
        let mut u: usize = 0;
        while u < n
            invariant
                0 <= u <= n,
                n == self.n1,
                self.wf(),
                p@.len() == u,
                forall|a: int| 0 <= a < u ==> (#[trigger] p@[a])@ == self.precedence_row(a, n as int),
            decreases n - u,
        {
            let mut out: Vec<usize> = Vec::new();
            let mut v: usize = 0;
            while v < n
                invariant
                    0 <= v <= n,
                    0 <= u < n,
                    n == self.n1,
                    self.wf(),
                    out@ == self.precedence_row(u as int, v as int),
                decreases n - v,
            {
                let there = self.pair_crossing_number(u, v);
                let back = self.pair_crossing_number(v, u);
                if there < back {
                    out.push(v);
                }
                v += 1;
            }
            p.push(out);
            u += 1;
        }
        proof {
            assert(adjacency(p@) =~= self.precedence_graph());
            assert forall|a: int, k: int|
                0 <= a < adjacency(p@).len() && 0 <= k < adjacency(p@)[a].len() implies (
            #[trigger] adjacency(p@)[a][k]) < adjacency(p@).len() by {
                self.lemma_precedence_row_in_range(a, n as int);
            }
        }
        p
    }

    /// The weights of a component sum to less than the values kept for
    /// special use.
    proof fn lemma_component_total(&self, w: Seq<Seq<u64>>, comp: Seq<usize>)
        requires
            self.wf(),
            is_arrangement(comp, self.n1 as nat),
            is_square(w, comp.len()),
            forall|i: int, j: int|
                0 <= i < comp.len() && 0 <= j < comp.len() ==> (#[trigger] w[i][j]) <= self.crossing(
                    comp[j] as int,
                    comp[i] as int,
                ),
        ensures
            total(w) <= 0x3fff_ffff_0000_0001,
    {
        let m = edge_count(self.neighbours());
        let ds = degrees(self.neighbours());
        let k = comp.len() as int;
        let local = Seq::new(comp.len(), |j: int| ds[comp[j] as int]);
        lemma_seq_sum_is_picked(local, ds, comp, k);
        assert(local.take(k) =~= local);
        lemma_picked_bounded(ds, comp, k);
        let t = seq_sum(local);
        assert(0 <= t <= m);
        let totals = row_totals(w);
        assert forall|i: int| 0 <= i < k implies totals[i] <= t * local[i] by {
            let r = row(w, i);
            assert(w[i].len() == k);
            assert forall|j: int| 0 <= j < k implies r[j] <= local[i] * local[j] by {
                lemma_pair_crossings_bounded(
                    self.neighbours()[comp[j] as int],
                    self.neighbours()[comp[i] as int],
                );
                assert(w[i][j] <= self.crossing(comp[j] as int, comp[i] as int));
                let (a, b) = (local[i], local[j]);
                assert(b * a == a * b) by (nonlinear_arith);
            }
            lemma_seq_sum_scaled(r, local, local[i]);
            let (a, b) = (local[i], t);
            assert(a * b == b * a) by (nonlinear_arith);
        }
        lemma_seq_sum_scaled(totals, local, t);
        assert(t * t <= 0x3fff_ffff_0000_0001) by (nonlinear_arith)
            requires
                0 <= t <= m,
                m <= 0x7fff_ffff,
        ;
    }

    /// The component of the precedence graph `prec` on the vertices `comp`.
    pub fn component(&self, prec: &Vec<Vec<usize>>, comp: &Vec<usize>) -> (scc: SCC)
        requires
            self.wf(),
            adjacency(prec@) == self.precedence_graph(),
            is_graph(adjacency(prec@)),
            is_arrangement(comp@, self.n1 as nat),
        ensures
            self.is_component(scc, comp@),
            scc.wf(),
    {
        let m = comp.len();
        let mut w: Vec<Vec<u64>> = Vec::new();
        let mut i: usize = 0;
        while i < m
            invariant
                0 <= i <= m,
                m == comp@.len(),
                self.wf(),
                is_arrangement(comp@, self.n1 as nat),
                w@.len() == i,
                forall|a: int| 0 <= a < i ==> (#[trigger] w@[a])@.len() == m,
                forall|a: int, b: int|
                    0 <= a < i && 0 <= b < m ==> (#[trigger] w@[a]@[b]) == if a == b {
                        0
                    } else {
                        self.crossing(comp@[b] as int, comp@[a] as int)
                    },
            decreases m - i,
        {
            let mut row: Vec<u64> = Vec::new();
            let mut j: usize = 0;
            while j < m
                invariant
                    0 <= j <= m,
                    0 <= i < m,
                    m == comp@.len(),
                    self.wf(),
                    is_arrangement(comp@, self.n1 as nat),
                    row@.len() == j,
                    forall|b: int|
                        0 <= b < j ==> (#[trigger] row@[b]) == if i == b {
                            0
                        } else {
                            self.crossing(comp@[b] as int, comp@[i as int] as int)
                        },
                decreases m - j,
            {
                if i == j {
                    row.push(0);
                } else {
                    row.push(self.pair_crossing_number(comp[j], comp[i]));
                }
                j += 1;
            }
            w.push(row);
            i += 1;
        }
        assert(adjacency(prec@).len() == prec@.len());
        let g = get_subgraph(prec, comp);
        let labels = comp.clone();
        let scc = SCC::new(labels, w, g);
        proof {
            assert(scc.labels@ =~= comp@);
            assert(is_square(scc.weights(), m as nat));
            assert forall|i: int, j: int| 0 <= i < m && 0 <= j < m implies (
            #[trigger] scc.weights()[i][j]) <= self.crossing(comp@[j] as int, comp@[i as int] as int) by {
                assert(scc.weights()[i][j] == w@[i]@[j]);
            }
            self.lemma_component_total(scc.weights(), comp@);
            assert(scc.edges().len() == m);
            assert forall|i: int| 0 <= i < scc.n implies (#[trigger] scc.weights()[i])[i] == 0 by {
                assert(scc.weights()[i][i] == w@[i]@[i]);
            }
        }
        scc
    }

    /// The components of the precedence graph, in topological order: the
    /// blocks within which the free side is still to be ordered.
    pub fn reduce(&self) -> (sccs: Vec<SCC>)
        requires
            self.wf(),
        ensures
            sccs@.len() == components(self.precedence_graph()).len(),
            forall|c: int|
                0 <= c < sccs@.len() ==> self.is_component(
                    #[trigger] sccs@[c],
                    components(self.precedence_graph())[c],
                ) && sccs@[c].wf(),
    {
        let prec = self.precedence();
        let comps = compute_sccs(&prec);
        proof {
            lemma_components_partition(self.precedence_graph());
        }
        let mut sccs: Vec<SCC> = Vec::new();
        let mut c: usize = 0;
        while c < comps.len()
            invariant
                0 <= c <= comps.len(),
                self.wf(),
                adjacency(prec@) == self.precedence_graph(),
                is_graph(adjacency(prec@)),
                adjacency(comps@) == components(self.precedence_graph()),
                forall|k: int|
                    0 <= k < comps@.len() ==> is_arrangement(
                        #[trigger] components(self.precedence_graph())[k],
                        self.n1 as nat,
                    ),
                sccs@.len() == c,
                forall|k: int|
                    0 <= k < c ==> self.is_component(
                        #[trigger] sccs@[k],
                        components(self.precedence_graph())[k],
                    ) && sccs@[k].wf(),
            decreases comps.len() - c,
        {
            assert(comps@[c as int]@ == adjacency(comps@)[c as int]);
            assert(is_arrangement(components(self.precedence_graph())[c as int], self.n1 as nat));
            let scc = self.component(&prec, &comps[c]);
            sccs.push(scc);
            c += 1;
        }
        assert(adjacency(comps@).len() == comps@.len());
        sccs
    }
}

impl BipartiteGraph {
    /// What a vertex of a component pays against those before it is the
    /// number of crossings with them.
    proof fn lemma_component_pre_cost(&self, scc: SCC, comp: Seq<usize>, pi: Seq<usize>, j: int, k: int)
        requires
            self.wf(),
            is_arrangement(comp, self.n1 as nat),
            self.is_component(scc, comp),
            is_arrangement(pi, comp.len()),
            0 <= k <= j < pi.len(),
        ensures
            pre_cost(scc.weights(), pi, pi[j] as int, k) == pre_cost(
                crossing_matrix(self),
                relabel(comp, pi),
                relabel(comp, pi)[j] as int,
                k,
            ),
        decreases k,
    {
        if k > 0 {
            self.lemma_component_pre_cost(scc, comp, pi, j, k - 1);
            let (a, b) = (pi[j] as int, pi[k - 1] as int);
            assert(a != b);
            assert(scc.weights()[a][b] == self.crossing(comp[b] as int, comp[a] as int));
            lemma_degree_bounded(self.neighbours(), comp[b] as int, comp[a] as int);
            lemma_pair_crossings_bounded(
                self.neighbours()[comp[b] as int],
                self.neighbours()[comp[a] as int],
            );
            let m = edge_count(self.neighbours());
            assert(m * m <= 0x3fff_ffff_0000_0001) by (nonlinear_arith)
                requires
                    0 <= m <= 0x7fff_ffff,
            ;
        }
    }

    /// What the first `j` vertices of an ordering cost is the number of
    /// crossings among them.
    proof fn lemma_component_eval_upto(&self, scc: SCC, comp: Seq<usize>, pi: Seq<usize>, j: int)
        requires
            self.wf(),
            is_arrangement(comp, self.n1 as nat),
            self.is_component(scc, comp),
            is_arrangement(pi, comp.len()),
            0 <= j <= pi.len(),
        ensures
            eval_upto(scc.weights(), pi, j) == eval_upto(crossing_matrix(self), relabel(comp, pi), j),
        decreases j,
    {
        if j > 0 {
            self.lemma_component_eval_upto(scc, comp, pi, j - 1);
            self.lemma_component_pre_cost(scc, comp, pi, j - 1, j - 1);
        }
    }

    /// What an ordering of a component costs is the number of crossings
    /// between the edges of its vertices when these stand in that order.
    pub proof fn lemma_component_cost(&self, scc: SCC, comp: Seq<usize>, pi: Seq<usize>)
        requires
            self.wf(),
            is_arrangement(comp, self.n1 as nat),
            self.is_component(scc, comp),
            is_arrangement(pi, comp.len()),
        ensures
            eval(scc.weights(), pi) == crossing_count(self, relabel(comp, pi)),
    {
        self.lemma_component_eval_upto(scc, comp, pi, pi.len() as int);
    }
}

/// Whether the entries of `list` ascend and stay below `n`.
fn check_neighbours(list: &Vec<usize>, n: usize) -> (ok: bool)
    ensures
        ok == (in_range(list@, n as nat) && ascending(list@)),
{
    let mut i: usize = 0;
    while i < list.len()
        invariant
            0 <= i <= list.len(),
            forall|k: int| 0 <= k < i ==> list@[k] < n,
            forall|k: int| 0 < k < i ==> list@[k - 1] <= #[trigger] list@[k],
        decreases list.len() - i,
    {
        if list[i] >= n {
            return false;
        }
        if i > 0 && list[i - 1] > list[i] {
            assert(!(list@[i - 1] <= list@[i as int]));
            return false;
        }
        i += 1;
    }
    proof {
        assert forall|a: int, b: int| 0 <= a < b < list@.len() implies list@[a] <= list@[b] by {
            lemma_steps_ascend(list@, a, b);
        }
    }
    true
}

/// Entries of which none is less than the one before ascend.
proof fn lemma_steps_ascend(s: Seq<usize>, a: int, b: int)
    requires
        forall|k: int| 0 < k < s.len() ==> s[k - 1] <= #[trigger] s[k],
        0 <= a <= b < s.len(),
    ensures
        s[a] <= s[b],
    decreases b - a,
{
    if a < b {
        lemma_steps_ascend(s, a, b - 1);
        assert(s[b - 1] <= s[b]);
    }
}

impl BipartiteGraph {
    /// The isolated vertices and the groups, one after the other.
    fn listed(&self) -> (all: Vec<usize>)
        requires
            self.ids@.len() == self.n1,
        ensures
            all@ == self.isolated@ + self.grouped(),
    {
        let ghost groups = self.groups();
        let mut all: Vec<usize> = Vec::new();
        let mut i: usize = 0;
        while i < self.isolated.len()
            invariant
                0 <= i <= self.isolated.len(),
                all@ == self.isolated@.take(i as int),
            decreases self.isolated.len() - i,
        {
            all.push(self.isolated[i]);
            i += 1;
            assert(all@ =~= self.isolated@.take(i as int));
        }
        assert(self.isolated@.take(i as int) =~= self.isolated@);
        let mut r: usize = 0;
        while r < self.ids.len()
            invariant
                0 <= r <= self.ids.len(),
                self.ids@.len() == self.n1,
                groups == self.groups(),
                all@ == self.isolated@ + concat_range(groups, 0, r as int),
            decreases self.ids.len() - r,
        {
            let group = &self.ids[r];
            let ghost before = all@;
            let mut t: usize = 0;
            while t < group.len()
                invariant
                    0 <= t <= group.len(),
                    all@ == before + group@.take(t as int),
                decreases group.len() - t,
            {
                all.push(group[t]);
                t += 1;
                assert(all@ =~= before + group@.take(t as int));
            }
            assert(group@.take(t as int) =~= group@);
            r += 1;
            assert(all@ =~= self.isolated@ + concat_range(groups, 0, r as int));
        }
        all
    }

    /// Whether the graph is well-formed.
    pub fn check(&self) -> (ok: bool)
        ensures
            ok == self.wf(),
    {
        let n1 = self.n1;
        if self.adjs.len() != n1 || self.ids.len() != n1 || self.n0 > 0xffff_ffff {
            return false;
        }
        let ghost nb = self.neighbours();
        let ghost ds = degrees(nb);
        let mut edges: usize = 0;
        let mut u: usize = 0;
        proof {
            assert(ds.take(0) =~= Seq::<int>::empty());
            assert forall|k: int| 0 <= k < ds.len() implies ds[k] >= 0 by {}
        }
        while u < n1
            invariant
                0 <= u <= n1,
                n1 == self.n1,
                self.adjs@.len() == n1,
                nb == self.neighbours(),
                ds == degrees(nb),
                forall|k: int| 0 <= k < ds.len() ==> ds[k] >= 0,
                forall|a: int| 0 <= a < u ==> in_range(#[trigger] nb[a], self.n0 as nat),
                forall|a: int| 0 <= a < u ==> ascending(#[trigger] nb[a]),
                edges == seq_sum(ds.take(u as int)),
                edges <= EDGE_LIMIT,
            decreases n1 - u,
        {
            if !check_neighbours(&self.adjs[u], self.n0) {
                assert(!(in_range(nb[u as int], self.n0 as nat) && ascending(nb[u as int])));
                return false;
            }
            proof {
                lemma_seq_sum_take(ds, u as int);
                lemma_seq_sum_prefix(ds, u + 1);
            }
            let d = self.adjs[u].len();
            if d > EDGE_LIMIT - edges {
                return false;
            }
            edges = edges + d;
            u += 1;
        }
        assert(ds.take(u as int) =~= ds);
        let all = self.listed();
        if all.len() >= usize::MAX - self.n0 {
            return false;
        }
        check_permutation(&all)
    }
}

} // verus!
