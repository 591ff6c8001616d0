//! Sifting on the components of the precedence graph: orderings are built by
//! inserting vertices where they cost least, and improved by taking vertices
//! out and putting them back where they cost least.

use vstd::prelude::*;
use crate::bipartite_graph::BipartiteGraph;
use crate::cost::{
    costs_fit, eval, eval_upto, insert_cost, is_square, is_transpose, lemma_costs_fit,
    lemma_costs_nonnegative, lemma_eval_bounded, lemma_eval_insert, lemma_eval_remove,
    lemma_eval_upto_monotone, lemma_insert_cost_boundary, lemma_suf_cost_monotone, matrix,
    paid_by, paid_to, pre_cost, seq_sum, suf_cost,
};
use crate::global_abort::AbortFlag;
use crate::graph::components;
use crate::permutation::{
    identity_order, in_range, is_arrangement, is_permutation, lemma_arrangement_length,
    lemma_insert_keeps_arrangement, lemma_permutation_contains, lemma_rearranged_identity,
    lemma_remove_keeps_arrangement,
};
use crate::random::{choose_from, random_below, shuffle};
use crate::refine::{
    bumped, precedes,
    count_precedences, is_part_of, is_refinement, is_split, kept_edges, lemma_refined_blockwise,
    split_component,
};
use crate::scc::SCC;
use rand::rngs::ThreadRng;
use std::time::Instant;

verus! {

/// Every component of the list is well-formed.
pub open spec fn all_wf(sccs: Seq<SCC>) -> bool {
    forall|i: int| 0 <= i < sccs.len() ==> (#[trigger] sccs[i]).wf()
}

/// `inv_w` holds, for each component, the transpose of its weight matrix.
pub open spec fn all_transposes(inv_w: Seq<Vec<Vec<u64>>>, sccs: Seq<SCC>) -> bool {
    &&& inv_w.len() == sccs.len()
    &&& forall|i: int|
        0 <= i < sccs.len() ==> is_transpose(
            matrix((#[trigger] inv_w[i])@),
            sccs[i].weights(),
            sccs[i].n as nat,
        )
}

/// Some component of the list has a vertex.
pub open spec fn some_nonempty(sccs: Seq<SCC>) -> bool {
    exists|i: int| 0 <= i < sccs.len() && (#[trigger] sccs[i]).n > 0
}

/// The transposed weight matrix of every component. The flag is polled once
/// for each row; nothing is returned once it is seen raised.
pub fn get_inv_w(sccs: &Vec<SCC>, abort: &mut AbortFlag) -> (inv_w: Vec<Vec<Vec<u64>>>)
    requires
        all_wf(sccs@),
    ensures
        old(abort).seen() ==> final(abort).seen(),
        if final(abort).seen() && some_nonempty(sccs@) {
            inv_w@.len() == 0
        } else {
            all_transposes(inv_w@, sccs@)
        },
{
    let mut inv_w: Vec<Vec<Vec<u64>>> = Vec::new();
    let mut i: usize = 0;
    while i < sccs.len()
        invariant
            0 <= i <= sccs.len(),
            all_wf(sccs@),
            old(abort).seen() ==> abort.seen(),
            abort.seen() ==> forall|k: int| 0 <= k < i ==> (#[trigger] sccs@[k]).n == 0,
            inv_w@.len() == i,
            forall|k: int|
                0 <= k < i ==> is_transpose(
                    matrix((#[trigger] inv_w@[k])@),
                    sccs@[k].weights(),
                    sccs@[k].n as nat,
                ),
        decreases sccs.len() - i,
    {
        let scc = &sccs[i];
        let n = scc.n;
        let mut scc_inv_w: Vec<Vec<u64>> = vec![vec![0u64; n]; n];
        let mut j: usize = 0;
        while j < n
            invariant
                0 <= j <= n,
                0 <= i < sccs.len(),
                scc == sccs@[i as int],
                n == scc.n,
                scc.wf(),
                old(abort).seen() ==> abort.seen(),
                abort.seen() ==> j == 0 && forall|k: int| 0 <= k < i ==> (#[trigger] sccs@[k]).n == 0,
                scc_inv_w@.len() == n,
                forall|a: int| 0 <= a < n ==> (#[trigger] scc_inv_w@[a])@.len() == n,
                forall|a: int, b: int|
                    0 <= a < j && 0 <= b < n ==> (#[trigger] scc_inv_w@[a]@[b])
                        == scc.weights()[b][a],
            decreases n - j,
        {
            if abort.poll() {
                assert(sccs@[i as int].n > 0);
                return Vec::new();
            }
            let mut k: usize = 0;
            while k < n
                invariant
                    0 <= k <= n,
                    0 <= j < n,
                    n == scc.n,
                    scc.wf(),
                    scc_inv_w@.len() == n,
                    forall|a: int| 0 <= a < n ==> (#[trigger] scc_inv_w@[a])@.len() == n,
                    forall|a: int, b: int|
                        0 <= a < j && 0 <= b < n ==> (#[trigger] scc_inv_w@[a]@[b])
                            == scc.weights()[b][a],
                    forall|b: int|
                        0 <= b < k ==> (#[trigger] scc_inv_w@[j as int]@[b]) == scc.weights()[b][j as int],
                decreases n - k,
            {
                assert(scc.weights()[k as int].len() == n);
                let x = scc.w[k][j];
                scc_inv_w[j][k] = x;
                k += 1;
            }
            j += 1;
        }
        inv_w.push(scc_inv_w);
        i += 1;
    }
    inv_w
}

/// The cost of the ordering `perm` of the component, or `u64::MAX - 1` once
/// the flag is seen raised. The flag is polled once for each vertex.
pub fn eval_ordering_scc(perm: &Vec<usize>, scc: &SCC, abort: &mut AbortFlag) -> (res: u64)
    requires
        scc.wf(),
        is_permutation(perm@, scc.n as nat),
    ensures
        old(abort).seen() ==> final(abort).seen(),
        res == if final(abort).seen() && scc.n > 0 {
            u64::MAX - 1
        } else {
            eval(scc.weights(), perm@)
        },
{
    let n = scc.n;
    let ghost w = scc.weights();
    let mut res: u64 = 0;
    let mut j: usize = 0;
    proof {
        lemma_eval_bounded(w, perm@, n as nat);
    }
    while j < n
        invariant
            0 <= j <= n,
            n == scc.n,
            w == scc.weights(),
            scc.wf(),
            is_permutation(perm@, n as nat),
            old(abort).seen() ==> abort.seen(),
            abort.seen() ==> j == 0,
            res == eval_upto(w, perm@, j as int),
            eval(w, perm@) <= u64::MAX,
        decreases n - j,
    {
        if abort.poll() {
            return u64::MAX - 1;
        }
        let v = perm[j];
        let mut acc: u64 = 0;
        let mut i: usize = 0;
        proof {
            lemma_eval_upto_monotone(w, perm@, j + 1, n as int);
        }
        while i < j
            invariant
                0 <= i <= j < n,
                n == scc.n,
                w == scc.weights(),
                scc.wf(),
                is_permutation(perm@, n as nat),
                v == perm@[j as int],
                acc == pre_cost(w, perm@, v as int, i as int),
                res == eval_upto(w, perm@, j as int),
                pre_cost(w, perm@, v as int, j as int) + res <= u64::MAX,
            decreases j - i,
        {
            proof {
                lemma_pre_cost_monotone(w, perm@, v as int, i + 1, j as int);
            }
            assert(w[v as int].len() == n);
            acc = acc + scc.w[v][perm[i]];
            i += 1;
        }
        res = res + acc;
        j += 1;
    }
    res
}

/// `pre_cost` grows with the prefix.
pub proof fn lemma_pre_cost_monotone(w: Seq<Seq<u64>>, pi: Seq<usize>, v: int, i: int, j: int)
    requires
        i <= j,
    ensures
        0 <= pre_cost(w, pi, v, i) <= pre_cost(w, pi, v, j),
    decreases j,
{
    if j <= 0 {
    } else if i == j {
        lemma_pre_cost_monotone(w, pi, v, i - 1, j - 1);
    } else {
        lemma_pre_cost_monotone(w, pi, v, i, j - 1);
    }
}

/// The labels that `pi` lists, in its order.
pub open spec fn relabel(labels: Seq<usize>, pi: Seq<usize>) -> Seq<usize> {
    Seq::new(pi.len(), |k: int| labels[pi[k] as int])
}

/// The orderings as sequences.
pub open spec fn orderings(perm: Seq<Vec<usize>>) -> Seq<Seq<usize>> {
    Seq::new(perm.len(), |i: int| perm[i]@)
}

/// The orderings of the components `lo..hi`, one after the other, each
/// vertex under its label.
pub open spec fn relabel_range(sccs: Seq<SCC>, perm: Seq<Seq<usize>>, lo: int, hi: int) -> Seq<usize>
    decreases hi - lo,
{
    if hi <= lo {
        Seq::empty()
    } else {
        relabel_range(sccs, perm, lo, hi - 1) + relabel(sccs[hi - 1].labels@, perm[hi - 1])
    }
}

/// The orderings of the first `k` components, one after the other, each
/// vertex under its label.
pub open spec fn relabel_all(sccs: Seq<SCC>, perm: Seq<Seq<usize>>, k: int) -> Seq<usize> {
    relabel_range(sccs, perm, 0, k)
}

/// `result` orders each component within itself, by `perms`, and lists the
/// components in the order of `sccs`.
pub open spec fn is_blockwise_by(sccs: Seq<SCC>, perms: Seq<Seq<usize>>, result: Seq<usize>) -> bool {
    &&& perms.len() == sccs.len()
    &&& forall|i: int| 0 <= i < sccs.len() ==> is_permutation(#[trigger] perms[i], sccs[i].n as nat)
    &&& result == relabel_all(sccs, perms, sccs.len() as int)
}

/// `result` lists the labels of the components in the order of `sccs`, those
/// of each component in some order.
pub open spec fn is_blockwise(sccs: Seq<SCC>, result: Seq<usize>) -> bool {
    exists|perms: Seq<Seq<usize>>| is_blockwise_by(sccs, perms, result)
}

/// Each ordering lists only vertices of its component.
pub open spec fn all_in_range(sccs: Seq<SCC>, perm: Seq<Vec<usize>>) -> bool {
    &&& perm.len() == sccs.len()
    &&& forall|i: int, k: int|
        0 <= i < sccs.len() && 0 <= k < perm[i]@.len() ==> (#[trigger] perm[i]@[k])
            < sccs[i].labels@.len()
}

/// The orderings of all components, one after the other in the order of the
/// list, each vertex under its label.
pub fn map_to_original_labels(perm: &Vec<Vec<usize>>, sccs: &Vec<SCC>) -> (ordering: Vec<usize>)
    requires
        all_in_range(sccs@, perm@),
    ensures
        ordering@ == relabel_all(sccs@, orderings(perm@), sccs@.len() as int),
{
    let mut ordering: Vec<usize> = Vec::new();
    let mut i: usize = 0;
    while i < sccs.len()
        invariant
            0 <= i <= sccs.len(),
            all_in_range(sccs@, perm@),
            ordering@ == relabel_all(sccs@, orderings(perm@), i as int),
        decreases sccs.len() - i,
    {
        let pi = &perm[i];
        let labels = &sccs[i].labels;
        let ghost before = ordering@;
        let mut k: usize = 0;
        while k < pi.len()
            invariant
                0 <= k <= pi.len(),
                0 <= i < sccs.len(),
                all_in_range(sccs@, perm@),
                pi == perm@[i as int],
                labels == sccs@[i as int].labels,
                ordering@ == before + relabel(labels@, pi@).take(k as int),
            decreases pi.len() - k,
        {
            assert(perm@[i as int]@[k as int] < sccs@[i as int].labels@.len());
            ordering.push(labels[pi[k]]);
            k += 1;
            assert(ordering@ =~= before + relabel(labels@, pi@).take(k as int));
        }
        assert(relabel(labels@, pi@).take(k as int) =~= relabel(labels@, pi@));
        i += 1;
    }
    ordering
}

/// The cost of putting `v` into `perm` at each of the positions
/// `0..=perm.len()`; `diffs` is the transpose of the component's weights.
/// At the end `v` costs what it pays against all of `perm`, at the front
/// what all of `perm` pays against it. `perm` may be any list of vertices,
/// as long as the costs fit in a `u64`.
pub fn insert_cost_per_pos(scc: &SCC, diffs: &Vec<Vec<u64>>, perm: &Vec<usize>, v: usize) -> (cost:
    Vec<u64>)
    requires
        is_transpose(matrix(diffs@), scc.weights(), scc.n as nat),
        in_range(perm@, scc.n as nat),
        v < scc.n,
        perm@.len() < usize::MAX,
        costs_fit(scc.weights(), perm@, v as int),
    ensures
        cost@.len() == perm@.len() + 1,
        forall|i: int|
            0 <= i <= perm@.len() ==> (#[trigger] cost@[i]) == insert_cost(
                scc.weights(),
                perm@,
                v as int,
                i,
            ),
        cost@[perm@.len() as int] == seq_sum(paid_by(scc.weights(), perm@, v as int)),
        cost@[0] == seq_sum(paid_to(scc.weights(), perm@, v as int)),
{
    let ghost w = scc.weights();
    let ghost nn = scc.n as nat;
    let n = perm.len();
    let mut pre: Vec<u64> = vec![0u64; n + 1];
    let mut suf: Vec<u64> = vec![0u64; n + 1];
    let mut i: usize = 0;
    while i < n
        invariant
            0 <= i <= n,
            n == perm@.len(),
            n < usize::MAX,
            v < scc.n,
            w == scc.weights(),
            nn == scc.n,
            is_square(w, nn),
            in_range(perm@, nn),
            costs_fit(w, perm@, v as int),
            pre@.len() == n + 1,
            forall|k: int| 0 <= k <= i ==> (#[trigger] pre@[k]) == pre_cost(w, perm@, v as int, k),
        decreases n - i,
    {
        proof {
            lemma_pre_cost_monotone(w, perm@, v as int, i + 1, n as int);
            lemma_costs_nonnegative(w, perm@, v as int, n as int);
            assert(insert_cost(w, perm@, v as int, n as int) <= u64::MAX);
            assert(perm@[i as int] < nn);
            assert(w[v as int].len() == nn);
        }
        let x = pre[i] + scc.w[v][perm[i]];
        pre[i + 1] = x;
        i += 1;
    }
    let mut i: usize = n;
    while i > 0
        invariant
            0 <= i <= n,
            n == perm@.len(),
            n < usize::MAX,
            v < scc.n,
            w == scc.weights(),
            nn == scc.n,
            is_transpose(matrix(diffs@), w, nn),
            in_range(perm@, nn),
            costs_fit(w, perm@, v as int),
            suf@.len() == n + 1,
            forall|k: int| i <= k <= n ==> (#[trigger] suf@[k]) == suf_cost(w, perm@, v as int, k),
        decreases i,
    {
        proof {
            lemma_suf_cost_monotone(w, perm@, v as int, 0, i - 1);
            lemma_costs_nonnegative(w, perm@, v as int, 0);
            assert(insert_cost(w, perm@, v as int, 0) <= u64::MAX);
            assert(perm@[i - 1] < nn);
            assert(matrix(diffs@)[v as int].len() == nn);
            assert(matrix(diffs@)[v as int][perm@[i - 1] as int] == w[perm@[i - 1] as int][v as int]);
        }
        let x = suf[i] + diffs[v][perm[i - 1]];
        suf[i - 1] = x;
        i -= 1;
    }
    let mut cost: Vec<u64> = Vec::new();
    let mut i: usize = 0;
    while i <= n
        invariant
            0 <= i <= n + 1,
            n == perm@.len(),
            n < usize::MAX,
            w == scc.weights(),
            costs_fit(w, perm@, v as int),
            pre@.len() == n + 1,
            suf@.len() == n + 1,
            forall|k: int| 0 <= k <= n ==> (#[trigger] pre@[k]) == pre_cost(w, perm@, v as int, k),
            forall|k: int| 0 <= k <= n ==> (#[trigger] suf@[k]) == suf_cost(w, perm@, v as int, k),
            cost@.len() == i,
            forall|k: int| 0 <= k < i ==> (#[trigger] cost@[k]) == insert_cost(w, perm@, v as int, k),
        decreases n + 1 - i,
    {
        proof {
            assert(insert_cost(w, perm@, v as int, i as int) <= u64::MAX);
        }
        cost.push(pre[i] + suf[i]);
        i += 1;
    }
    proof {
        lemma_insert_cost_boundary(w, perm@, v as int);
    }
    cost
}

/// `m` is the least entry of `val`.
pub open spec fn is_minimum(val: Seq<u64>, m: u64) -> bool {
    &&& exists|i: int| 0 <= i < val.len() && val[i] == m
    &&& forall|i: int| 0 <= i < val.len() ==> m <= val[i]
}

/// The positions below `k` at which `val` holds `x`, ascending.
pub open spec fn positions_of(val: Seq<u64>, x: u64, k: int) -> Seq<usize>
    decreases k,
{
    if k <= 0 {
        Seq::empty()
    } else if val[k - 1] == x {
        positions_of(val, x, k - 1).push((k - 1) as usize)
    } else {
        positions_of(val, x, k - 1)
    }
}

/// `positions_of` lists exactly the positions that hold `x`, each once.
pub proof fn lemma_positions_of(val: Seq<u64>, x: u64, k: int)
    requires
        0 <= k <= val.len(),
        val.len() <= usize::MAX,
    ensures
        forall|p: usize|
            positions_of(val, x, k).contains(p) <==> (p < k && val[p as int] == x),
        forall|i: int|
            0 <= i < positions_of(val, x, k).len() ==> (#[trigger] positions_of(val, x, k)[i]) < k,
        positions_of(val, x, k).no_duplicates(),
        positions_of(val, x, k).len() <= k,
    decreases k,
{
    if k > 0 {
        lemma_positions_of(val, x, k - 1);
        let prev = positions_of(val, x, k - 1);
        let cur = positions_of(val, x, k);
        if val[k - 1] == x {
            assert(cur == prev.push((k - 1) as usize));
            assert forall|p: usize| cur.contains(p) <==> (p < k && val[p as int] == x) by {
                if cur.contains(p) {
                    let i = choose|i: int| 0 <= i < cur.len() && cur[i] == p;
                    if i < prev.len() {
                        assert(prev[i] == p);
                        assert(prev.contains(p));
                    }
                }
                if p < k && val[p as int] == x {
                    if p == k - 1 {
                        assert(cur[prev.len() as int] == p);
                    } else {
                        assert(prev.contains(p));
                        let i = choose|i: int| 0 <= i < prev.len() && prev[i] == p;
                        assert(cur[i] == p);
                    }
                }
            }
            assert forall|i: int, j: int|
                0 <= i < cur.len() && 0 <= j < cur.len() && i != j implies cur[i] != cur[j] by {
                if i < prev.len() {
                    assert(cur[i] == prev[i]);
                }
                if j < prev.len() {
                    assert(cur[j] == prev[j]);
                }
            }
        } else {
            assert forall|p: usize| cur.contains(p) <==> (p < k && val[p as int] == x) by {
                assert(prev.contains(p) <==> (p < k - 1 && val[p as int] == x));
            }
        }
    }
}

/// The least entry of `val` and the positions that hold it, ascending.
pub fn get_min(val: &Vec<u64>) -> (res: (u64, Vec<usize>))
    requires
        val@.len() > 0,
    ensures
        is_minimum(val@, res.0),
        res.1@ == positions_of(val@, res.0, val@.len() as int),
        res.1@.len() > 0,
{
    let mut minval: u64 = val[0];
    let mut i: usize = 1;
    while i < val.len()
        invariant
            1 <= i <= val.len(),
            exists|k: int| 0 <= k < i && val@[k] == minval,
            forall|k: int| 0 <= k < i ==> minval <= val@[k],
        decreases val.len() - i,
    {
        if val[i] < minval {
            minval = val[i];
        }
        i += 1;
    }
    let mut minima: Vec<usize> = Vec::new();
    let mut i: usize = 0;
    while i < val.len()
        invariant
            0 <= i <= val.len(),
            minima@ == positions_of(val@, minval, i as int),
        decreases val.len() - i,
    {
        if val[i] == minval {
            minima.push(i);
        }
        i += 1;
    }
    proof {
        lemma_positions_of(val@, minval, val@.len() as int);
        let k = choose|k: int| 0 <= k < val@.len() && val@[k] == minval;
        assert(minima@.contains(k as usize));
    }
    (minval, minima)
}

/// `p` is a position at which putting `v` into `pi` costs least.
pub open spec fn is_cheapest_position(w: Seq<Seq<u64>>, pi: Seq<usize>, v: int, p: int) -> bool {
    &&& 0 <= p <= pi.len()
    &&& forall|q: int| 0 <= q <= pi.len() ==> insert_cost(w, pi, v, p) <= insert_cost(w, pi, v, q)
}

/// The ordering that results from putting `order[0]`, ..., `order[k - 1]`,
/// one after the other, each `order[j]` at position `at[j]` of what is there.
pub open spec fn insertions(order: Seq<usize>, at: Seq<usize>, k: int) -> Seq<usize>
    decreases k,
{
    if k <= 0 {
        Seq::empty()
    } else {
        insertions(order, at, k - 1).insert(at[k - 1] as int, order[k - 1])
    }
}

/// What the insertions of `insertions(order, at, k)` cost, each at the time
/// it was made.
pub open spec fn insertions_cost(w: Seq<Seq<u64>>, order: Seq<usize>, at: Seq<usize>, k: int) -> int
    decreases k,
{
    if k <= 0 {
        0
    } else {
        insertions_cost(w, order, at, k - 1) + insert_cost(
            w,
            insertions(order, at, k - 1),
            order[k - 1] as int,
            at[k - 1] as int,
        )
    }
}

/// `result` was built by putting the vertices in the order `order`, each at a
/// cheapest position of what was there, or, once `aborted`, at the end.
pub open spec fn is_insertion_run(
    w: Seq<Seq<u64>>,
    n: nat,
    order: Seq<usize>,
    at: Seq<usize>,
    result: Seq<usize>,
    aborted: bool,
) -> bool {
    &&& is_permutation(order, n)
    &&& at.len() == n
    &&& result == insertions(order, at, n as int)
    &&& forall|k: int|
        0 <= k < n ==> is_cheapest_position(
            w,
            #[trigger] insertions(order, at, k),
            order[k] as int,
            at[k] as int,
        ) || (aborted && at[k] == k)
}

/// `result` was built by putting the vertices, in some order, each at a
/// cheapest position of what was there, or, once `aborted`, at the end.
pub open spec fn is_greedy_ordering(w: Seq<Seq<u64>>, n: nat, result: Seq<usize>, aborted: bool) -> bool {
    exists|order: Seq<usize>, at: Seq<usize>| is_insertion_run(w, n, order, at, result, aborted)
}

/// `insertions` up to `k` looks at the first `k` positions only.
pub proof fn lemma_insertions_prefix(order: Seq<usize>, at: Seq<usize>, other: Seq<usize>, k: int)
    requires
        0 <= k <= at.len(),
        k <= other.len(),
        forall|j: int| 0 <= j < k ==> at[j] == other[j],
    ensures
        insertions(order, at, k) == insertions(order, other, k),
    decreases k,
{
    if k > 0 {
        lemma_insertions_prefix(order, at, other, k - 1);
    }
}

/// Each insertion makes the ordering one longer.
pub proof fn lemma_insertions_len(order: Seq<usize>, at: Seq<usize>, k: int)
    requires
        0 <= k <= at.len(),
        forall|j: int| 0 <= j < k ==> at[j] <= j,
    ensures
        insertions(order, at, k).len() == k,
    decreases k,
{
    if k > 0 {
        lemma_insertions_len(order, at, k - 1);
    }
}

/// An ordering built by insertions costs what its insertions cost, each
/// counted against the vertices that were there when it was made.
pub proof fn lemma_eval_of_insertions(w: Seq<Seq<u64>>, order: Seq<usize>, at: Seq<usize>, k: int)
    requires
        0 <= k <= at.len(),
        forall|j: int| 0 <= j < k ==> at[j] <= j,
    ensures
        eval(w, insertions(order, at, k)) == insertions_cost(w, order, at, k),
    decreases k,
{
    if k > 0 {
        lemma_eval_of_insertions(w, order, at, k - 1);
        lemma_insertions_len(order, at, k - 1);
        lemma_eval_insert(w, insertions(order, at, k - 1), at[k - 1] as int, order[k - 1]);
    }
}

/// A random order of the vertices below `n`.
pub fn random_order(n: usize, rng: &mut ThreadRng) -> (vertices: Vec<usize>)
    ensures
        is_permutation(vertices@, n as nat),
{
    let mut vertices = identity_order(n);
    shuffle(&mut vertices, rng);
    proof {
        lemma_rearranged_identity(vertices@, n as nat);
    }
    vertices
}

/// Puts `v` into `ordering` at a position where it costs least, picked at
/// random among these.
fn insert_at_best(
    scc: &SCC,
    diffs: &Vec<Vec<u64>>,
    ordering: &mut Vec<usize>,
    v: usize,
    rng: &mut ThreadRng,
) -> (inspos: usize)
    requires
        scc.wf(),
        is_transpose(matrix(diffs@), scc.weights(), scc.n as nat),
        is_arrangement(old(ordering)@, scc.n as nat),
        v < scc.n,
        !old(ordering)@.contains(v),
    ensures
        is_cheapest_position(scc.weights(), old(ordering)@, v as int, inspos as int),
        final(ordering)@ == old(ordering)@.insert(inspos as int, v),
        is_arrangement(final(ordering)@, scc.n as nat),
{
    proof {
        lemma_arrangement_length(ordering@, scc.n as nat, v);
        lemma_costs_fit(scc.weights(), ordering@, scc.n as nat, v);
    }
    let cost = insert_cost_per_pos(scc, diffs, ordering, v);
    let (minval, minima) = get_min(&cost);
    proof {
        lemma_positions_of(cost@, minval, cost@.len() as int);
    }
    let inspos = match choose_from(&minima, rng) {
        Some(p) => p,
        None => 0,
    };
    assert(minima@.contains(inspos));
    assert(cost@[inspos as int] == minval);
    proof {
        assert forall|q: int| 0 <= q <= ordering@.len() implies insert_cost(
            scc.weights(),
            ordering@,
            v as int,
            inspos as int,
        ) <= insert_cost(scc.weights(), ordering@, v as int, q) by {
            assert(minval <= cost@[q]);
        }
        lemma_insert_keeps_arrangement(ordering@, scc.n as nat, inspos as int, v);
    }
    ordering.insert(inspos, v);
    inspos
}

/// For each component, an ordering built by putting its vertices, in random
/// order, each at a position of least cost, picked at random among these.
/// The flag is polled before each insertion; once it is seen raised, the
/// vertices that are left are put at the end.
pub fn insertion_sifting(sccs: &Vec<SCC>, abort: &mut AbortFlag) -> (ordering: Vec<Vec<usize>>)
    requires
        all_wf(sccs@),
    ensures
        old(abort).seen() ==> final(abort).seen(),
        ordering@.len() == sccs@.len(),
        forall|i: int|
            0 <= i < sccs@.len() ==> is_permutation((#[trigger] ordering@[i])@, sccs@[i].n as nat),
        forall|i: int|
            0 <= i < sccs@.len() ==> is_greedy_ordering(
                sccs@[i].weights(),
                sccs@[i].n as nat,
                (#[trigger] ordering@[i])@,
                final(abort).seen(),
            ),
{
    let inv_w = get_inv_w(sccs, abort);
    let mut ordering: Vec<Vec<usize>> = Vec::new();
    let mut rng = rand::thread_rng();
    let ghost mut orders: Seq<Seq<usize>> = Seq::empty();
    let ghost mut ats: Seq<Seq<usize>> = Seq::empty();
    let mut i: usize = 0;
    while i < sccs.len()
        invariant
            0 <= i <= sccs.len(),
            all_wf(sccs@),
            old(abort).seen() ==> abort.seen(),
            abort.seen() || all_transposes(inv_w@, sccs@),
            ordering@.len() == i,
            orders.len() == i,
            ats.len() == i,
            forall|k: int|
                0 <= k < i ==> is_permutation((#[trigger] ordering@[k])@, sccs@[k].n as nat),
            forall|k: int|
                0 <= k < i ==> (#[trigger] ats[k]).len() == sccs@[k].n && is_permutation(
                    orders[k],
                    sccs@[k].n as nat,
                ) && ordering@[k]@ == insertions(orders[k], ats[k], sccs@[k].n as int),
            forall|k: int, j: int|
                0 <= k < i && 0 <= j < sccs@[k].n ==> is_cheapest_position(
                    sccs@[k].weights(),
                    #[trigger] insertions(orders[k], ats[k], j),
                    orders[k][j] as int,
                    ats[k][j] as int,
                ) || (abort.seen() && ats[k][j] == j),
        decreases sccs.len() - i,
    {
        let scc = &sccs[i];
        let n = scc.n;
        let ghost w = scc.weights();
        let mut scc_ordering: Vec<usize> = Vec::new();
        let vertices = random_order(n, &mut rng);
        let ghost mut at: Seq<usize> = Seq::empty();
        let ghost seen_before = abort.seen();
        let mut k: usize = 0;
        while k < n
            invariant
                0 <= k <= n,
                0 <= i < sccs.len(),
                scc == sccs@[i as int],
                n == scc.n,
                w == scc.weights(),
                scc.wf(),
                old(abort).seen() ==> abort.seen(),
                seen_before ==> abort.seen(),
                abort.seen() || all_transposes(inv_w@, sccs@),
                is_permutation(vertices@, n as nat),
                is_arrangement(scc_ordering@, n as nat),
                scc_ordering@.len() == k,
                forall|q: int|
                    0 <= q < k ==> vertices@.take(k as int).contains(#[trigger] scc_ordering@[q]),
                at.len() == k,
                forall|j: int| 0 <= j < k ==> (#[trigger] at[j]) <= j,
                scc_ordering@ == insertions(vertices@, at, k as int),
                forall|j: int|
                    0 <= j < k ==> is_cheapest_position(
                        w,
                        #[trigger] insertions(vertices@, at, j),
                        vertices@[j] as int,
                        at[j] as int,
                    ) || (abort.seen() && at[j] == j),
            decreases n - k,
        {
            let v = vertices[k];
            let ghost before = scc_ordering@;
            let ghost at_before = at;
            proof {
                if before.contains(v) {
                    let q = choose|q: int| 0 <= q < before.len() && before[q] == v;
                    let t = vertices@.take(k as int);
                    assert(t.contains(before[q]));
                    let j = choose|j: int| 0 <= j < t.len() && t[j] == v;
                    assert(vertices@[j] == vertices@[k as int]);
                    assert(false);
                }
            }
            if abort.poll() {
                scc_ordering.push(v);
                proof {
                    assert(scc_ordering@ =~= before.insert(k as int, v));
                    lemma_insert_keeps_arrangement(before, n as nat, k as int, v);
                    at = at.push(k);
                }
            } else {
                assert(is_transpose(matrix(inv_w@[i as int]@), w, n as nat));
                let inspos = insert_at_best(scc, &inv_w[i], &mut scc_ordering, v, &mut rng);
                proof {
                    at = at.push(inspos);
                }
            }
            k += 1;
            proof {
                assert forall|j: int| 0 <= j < k implies insertions(vertices@, at, j)
                    == insertions(vertices@, at_before, j) by {
                    lemma_insertions_prefix(vertices@, at, at_before, j);
                }
                assert(insertions(vertices@, at, k as int) == insertions(
                    vertices@,
                    at,
                    k - 1,
                ).insert(at[k - 1] as int, vertices@[k - 1]));
                assert forall|q: int| 0 <= q < k implies vertices@.take(k as int).contains(
                    #[trigger] scc_ordering@[q],
                ) by {
                    let x = scc_ordering@[q];
                    if x == v {
                        assert(vertices@.take(k as int)[k - 1] == v);
                    } else {
                        assert(before.contains(x)) by {
                            let p = at[k - 1] as int;
                            let qq = if q < p { q } else { q - 1 };
                            assert(scc_ordering@[q] == before[qq]);
                        }
                        let q0 = choose|q0: int| 0 <= q0 < before.len() && before[q0] == x;
                        let t = vertices@.take(k - 1);
                        assert(t.contains(before[q0]));
                        let j = choose|j: int| 0 <= j < t.len() && t[j] == x;
                        assert(vertices@.take(k as int)[j] == x);
                    }
                }
            }
        }
        ordering.push(scc_ordering);
        proof {
            orders = orders.push(vertices@);
            ats = ats.push(at);
        }
        i += 1;
    }
    proof {
        assert forall|i: int| 0 <= i < sccs@.len() implies is_greedy_ordering(
            sccs@[i].weights(),
            sccs@[i].n as nat,
            (#[trigger] ordering@[i])@,
            abort.seen(),
        ) by {
            assert(ats[i].len() == sccs@[i].n);
            assert(is_insertion_run(
                sccs@[i].weights(),
                sccs@[i].n as nat,
                orders[i],
                ats[i],
                ordering@[i]@,
                abort.seen(),
            ));
        }
    }
    ordering
}

/// The test "is not `x`".
pub open spec fn is_not(x: usize) -> spec_fn(usize) -> bool {
    |y: usize| y != x
}

/// The entries of `list` other than `x`, in their order.
pub fn remove_value(list: &Vec<usize>, x: usize) -> (out: Vec<usize>)
    ensures
        out@ == list@.filter(is_not(x)),
{
    let mut out: Vec<usize> = Vec::new();
    let mut i: usize = 0;
    proof {
        reveal(Seq::filter);
        assert(list@.take(0) =~= Seq::<usize>::empty());
    }
    while i < list.len()
        invariant
            0 <= i <= list.len(),
            out@ == list@.take(i as int).filter(is_not(x)),
        decreases list.len() - i,
    {
        proof {
            list@.lemma_take_succ_push(i as int);
            list@.take(i as int).lemma_filter_push(list@[i as int], is_not(x));
        }
        if list[i] != x {
            out.push(list[i]);
        }
        i += 1;
    }
    assert(list@.take(i as int) =~= list@);
    out
}

/// The first position of `list` that holds `v`, if any does.
pub fn position_of(list: &Vec<usize>, v: usize) -> (pos: Option<usize>)
    ensures
        pos is None <==> !list@.contains(v),
        pos is Some ==> pos->0 < list@.len() && list@[pos->0 as int] == v && forall|q: int|
            0 <= q < pos->0 ==> list@[q] != v,
{
    let mut i: usize = 0;
    while i < list.len()
        invariant
            0 <= i <= list.len(),
            forall|q: int| 0 <= q < i ==> list@[q] != v,
        decreases list.len() - i,
    {
        if list[i] == v {
            return Some(i);
        }
        i += 1;
    }
    None
}

/// Putting the vertex at position `vpos` of `before` back at position `p`
/// is a step of the hillclimber: `p` is a cheapest position for it, and its
/// old position only if that is the only cheapest one.
pub open spec fn is_reinsertion(w: Seq<Seq<u64>>, before: Seq<usize>, vpos: int, p: int) -> bool {
    let rest = before.remove(vpos);
    let v = before[vpos] as int;
    &&& is_cheapest_position(w, rest, v, p)
    &&& p == vpos ==> forall|q: int| is_cheapest_position(w, rest, v, q) ==> q == vpos
}

/// `b` comes from `a` by one step of the hillclimber: some vertex was taken
/// out and put back where it costs least.
pub open spec fn is_reinsertion_step(w: Seq<Seq<u64>>, a: Seq<usize>, b: Seq<usize>) -> bool {
    exists|vpos: int, p: int|
        0 <= vpos < a.len() && #[trigger] is_reinsertion(w, a, vpos, p) && b == a.remove(vpos).insert(
            p,
            a[vpos],
        )
}

/// Each ordering of `trace` comes from the one before by a step of the
/// hillclimber.
pub open spec fn is_climb(w: Seq<Seq<u64>>, trace: Seq<Seq<usize>>) -> bool {
    &&& trace.len() > 0
    &&& forall|t: int|
        0 <= t < trace.len() - 1 ==> is_reinsertion_step(w, #[trigger] trace[t], trace[t + 1])
}

/// The hillclimber can get from `from` to `to`: by reinsertions, each of a
/// vertex at a place where it costs least.
pub open spec fn climbs_to(w: Seq<Seq<u64>>, from: Seq<usize>, to: Seq<usize>) -> bool {
    exists|trace: Seq<Seq<usize>>|
        #[trigger] is_climb(w, trace) && trace[0] == from && trace[trace.len() - 1] == to
}

/// After how many insertions the ordering under way is improved, each time.
pub const CLIMB_EVERY: usize = 50;

/// `b` is what follows the insertion that gave `mid`: where `mid` holds a
/// multiple of `CLIMB_EVERY` vertices, the hillclimber has run on it until
/// it came to rest, or, once `aborted`, for some steps; else `b` is `mid`.
pub open spec fn is_rest(w: Seq<Seq<u64>>, mid: Seq<usize>, b: Seq<usize>, aborted: bool) -> bool {
    if mid.len() % (CLIMB_EVERY as nat) == 0 {
        climbs_out(w, mid, b, mid.len()) || (aborted && climbs_to(w, mid, b))
    } else {
        b == mid
    }
}

/// `b` is what one stage of building makes of `a` when `v` is next: `v` is
/// put where it costs least, and the hillclimber follows where it is due.
/// Once `aborted`, `v` may have been put at the end instead.
pub open spec fn is_stage(w: Seq<Seq<u64>>, a: Seq<usize>, v: usize, b: Seq<usize>, aborted: bool) -> bool {
    ||| aborted && b == a.push(v)
    ||| exists|p: int| #[trigger]
        is_cheapest_position(w, a, v as int, p) && is_rest(w, a.insert(p, v), b, aborted)
}

/// `stages` holds what the first `done` stages of building build: they
/// start from nothing and take the vertices in the order `order`, which
/// holds each once.
pub open spec fn is_build(
    w: Seq<Seq<u64>>,
    n: nat,
    stages: Seq<Seq<usize>>,
    order: Seq<usize>,
    done: int,
    aborted: bool,
) -> bool {
    &&& is_permutation(order, n)
    &&& 0 <= done <= n
    &&& stages.len() == done + 1
    &&& stages[0].len() == 0
    &&& forall|k: int|
        0 <= k < done ==> is_stage(w, #[trigger] stages[k], order[k], stages[k + 1], aborted)
}

/// Insertion with interleaved improvement can build `result`.
pub open spec fn builds_to(w: Seq<Seq<u64>>, n: nat, result: Seq<usize>, aborted: bool) -> bool {
    exists|stages: Seq<Seq<usize>>, order: Seq<usize>|
        #[trigger] is_build(w, n, stages, order, n as int, aborted) && stages[n as int] == result
}

/// The hillclimber gets nowhere in no steps.
pub proof fn lemma_climbs_refl(w: Seq<Seq<u64>>, a: Seq<usize>)
    ensures
        climbs_to(w, a, a),
{
    assert(is_climb(w, seq![a]));
}

/// Climbs can be joined.
pub proof fn lemma_climbs_trans(w: Seq<Seq<u64>>, a: Seq<usize>, b: Seq<usize>, c: Seq<usize>)
    requires
        climbs_to(w, a, b),
        climbs_to(w, b, c),
    ensures
        climbs_to(w, a, c),
{
    let first = choose|trace: Seq<Seq<usize>>|
        #[trigger] is_climb(w, trace) && trace[0] == a && trace[trace.len() - 1] == b;
    let second = choose|trace: Seq<Seq<usize>>|
        #[trigger] is_climb(w, trace) && trace[0] == b && trace[trace.len() - 1] == c;
    let joined = first + second.subrange(1, second.len() as int);
    assert forall|t: int| 0 <= t < joined.len() - 1 implies is_reinsertion_step(
        w,
        #[trigger] joined[t],
        joined[t + 1],
    ) by {
        if t < first.len() - 1 {
            assert(is_reinsertion_step(w, first[t], first[t + 1]));
        } else {
            let k = t - first.len() + 1;
            assert(is_reinsertion_step(w, second[k], second[k + 1]));
            assert(joined[t + 1] == second[k + 1]);
            if k == 0 {
                assert(joined[t] == first[first.len() - 1]);
            } else {
                assert(joined[t] == second[k]);
            }
        }
    }
    assert(is_climb(w, joined));
    assert(joined[0] == a);
    if second.len() == 1 {
        assert(joined =~= first);
    } else {
        assert(joined[joined.len() - 1] == second[second.len() - 1]);
    }
}

/// One step of the hillclimber is a climb.
pub proof fn lemma_climbs_step(w: Seq<Seq<u64>>, a: Seq<usize>, b: Seq<usize>, c: Seq<usize>)
    requires
        climbs_to(w, a, b),
        is_reinsertion_step(w, b, c),
    ensures
        climbs_to(w, a, c),
{
    let step = seq![b, c];
    assert forall|t: int| 0 <= t < step.len() - 1 implies is_reinsertion_step(
        w,
        #[trigger] step[t],
        step[t + 1],
    ) by {
        assert(t == 0);
    }
    assert(is_climb(w, step));
    assert(climbs_to(w, b, c));
    lemma_climbs_trans(w, a, b, c);
}

/// A build stays one once the flag is seen raised.
proof fn lemma_build_monotone(
    w: Seq<Seq<u64>>,
    n: nat,
    stages: Seq<Seq<usize>>,
    order: Seq<usize>,
    done: int,
    was_aborted: bool,
    aborted: bool,
)
    requires
        is_build(w, n, stages, order, done, was_aborted),
        was_aborted ==> aborted,
    ensures
        is_build(w, n, stages, order, done, aborted),
{
    assert forall|k: int| 0 <= k < done implies is_stage(
        w,
        #[trigger] stages[k],
        order[k],
        stages[k + 1],
        aborted,
    ) by {
        assert(is_stage(w, stages[k], order[k], stages[k + 1], was_aborted));
        if !(was_aborted && stages[k + 1] == stages[k].push(order[k])) {
            let p = choose|p: int| #[trigger]
                is_cheapest_position(w, stages[k], order[k] as int, p) && is_rest(
                    w,
                    stages[k].insert(p, order[k]),
                    stages[k + 1],
                    was_aborted,
                );
            assert(is_rest(w, stages[k].insert(p, order[k]), stages[k + 1], aborted));
        }
    }
}

/// What can be built can be built once the flag is seen raised.
pub proof fn lemma_builds_monotone(
    w: Seq<Seq<u64>>,
    n: nat,
    result: Seq<usize>,
    was_aborted: bool,
    aborted: bool,
)
    requires
        builds_to(w, n, result, was_aborted),
        was_aborted ==> aborted,
    ensures
        builds_to(w, n, result, aborted),
{
    let (stages, order) = choose|stages: Seq<Seq<usize>>, order: Seq<usize>|
        #[trigger] is_build(w, n, stages, order, n as int, was_aborted) && stages[n as int] == result;
    lemma_build_monotone(w, n, stages, order, n as int, was_aborted, aborted);
}

/// A build goes on by one stage.
proof fn lemma_build_push(
    w: Seq<Seq<u64>>,
    n: nat,
    stages: Seq<Seq<usize>>,
    order: Seq<usize>,
    done: int,
    next: Seq<usize>,
    was_aborted: bool,
    aborted: bool,
)
    requires
        is_build(w, n, stages, order, done, was_aborted),
        was_aborted ==> aborted,
        done < n,
        is_stage(w, stages[done], order[done], next, aborted),
    ensures
        is_build(w, n, stages.push(next), order, done + 1, aborted),
{
    lemma_build_monotone(w, n, stages, order, done, was_aborted, aborted);
    let longer = stages.push(next);
    assert forall|k: int| 0 <= k < done + 1 implies is_stage(
        w,
        #[trigger] longer[k],
        order[k],
        longer[k + 1],
        aborted,
    ) by {
        if k < done {
            assert(longer[k] == stages[k]);
            assert(longer[k + 1] == stages[k + 1]);
        }
    }
}

/// What taking the vertex at `vpos` out of `before` and putting it back at a
/// cheapest position `p` does to the ordering.
pub proof fn lemma_reinsertion(w: Seq<Seq<u64>>, n: nat, before: Seq<usize>, vpos: int, p: int)
    requires
        crate::cost::is_square(w, n),
        is_arrangement(before, n),
        0 <= vpos < before.len(),
        is_cheapest_position(w, before.remove(vpos), before[vpos] as int, p),
    ensures
        is_arrangement(before.remove(vpos).insert(p, before[vpos]), n),
        before.remove(vpos).insert(p, before[vpos]).len() == before.len(),
        forall|x: usize|
            before.remove(vpos).insert(p, before[vpos]).contains(x) <==> before.contains(x),
        eval(w, before.remove(vpos).insert(p, before[vpos])) == eval(w, before) - insert_cost(
            w,
            before.remove(vpos),
            before[vpos] as int,
            vpos,
        ) + insert_cost(w, before.remove(vpos), before[vpos] as int, p),
        0 <= eval(w, before.remove(vpos).insert(p, before[vpos])) <= eval(w, before),
{
    let rest = before.remove(vpos);
    let v = before[vpos];
    let after = rest.insert(p, v);
    lemma_remove_keeps_arrangement(before, n, vpos);
    lemma_eval_remove(w, before, vpos);
    lemma_insert_keeps_arrangement(rest, n, p, v);
    lemma_eval_insert(w, rest, p, v);
    lemma_eval_bounded(w, after, n);
    assert(before.contains(v)) by {
        assert(before[vpos] == v);
    }
    assert forall|x: usize| after.contains(x) <==> before.contains(x) by {
        if before.contains(x) && x != v {
            assert(rest.contains(x));
        }
        if after.contains(x) && x != v {
            assert(rest.contains(x));
            let q = choose|q: int| 0 <= q < rest.len() && rest[q] == x;
            let qq = if q < vpos { q } else { q + 1 };
            assert(before[qq] == x);
        }
    }
}

/// The positions that come into question for putting a vertex back that was
/// taken from position `vpos`, given the cost of each position: those of
/// least cost, without `vpos` itself unless it is the only one.
pub open spec fn reinsertion_candidates(cost: Seq<u64>, mincost: u64, vpos: usize) -> Seq<usize> {
    let minima = positions_of(cost, mincost, cost.len() as int);
    if minima.len() == 1 {
        minima
    } else {
        minima.filter(is_not(vpos))
    }
}

/// The least cost and the positions that come into question for putting a
/// vertex back that was taken from position `vpos`.
pub fn pick_candidates(cost: &Vec<u64>, vpos: usize) -> (res: (u64, Vec<usize>))
    requires
        cost@.len() > 0,
    ensures
        is_minimum(cost@, res.0),
        res.1@ == reinsertion_candidates(cost@, res.0, vpos),
        res.1@.len() > 0,
        forall|c: usize| res.1@.contains(c) ==> c < cost@.len() && cost@[c as int] == res.0,
        res.1@.contains(vpos) ==> forall|q: int|
            0 <= q < cost@.len() && cost@[q] == res.0 ==> q == vpos,
{
    let (mincost, minima) = get_min(cost);
    assert(cost@.len() == cost.len());
    let candidates = if minima.len() == 1 {
        minima
    } else {
        remove_value(&minima, vpos)
    };
    proof {
        lemma_positions_of(cost@, mincost, cost@.len() as int);
        #[allow(deprecated)]
        minima@.filter_lemma(is_not(vpos));
        if minima@.len() != 1 {
            assert(minima@[0] != minima@[1]);
            let other = if minima@[0] != vpos { 0 } else { 1 };
            assert(is_not(vpos)(minima@[other]));
            assert(candidates@.contains(minima@[other]));
            assert forall|c: usize| candidates@.contains(c) implies minima@.contains(c) && c
                != vpos by {
                let k = choose|k: int| 0 <= k < candidates@.len() && candidates@[k] == c;
                assert(is_not(vpos)(candidates@[k]));
                lemma_filter_subset(minima@, vpos, c);
            }
        } else {
            assert forall|q: int| 0 <= q < cost@.len() && cost@[q] == mincost implies q
                == minima@[0] by {
                assert(minima@.contains(q as usize));
            }
        }
    }
    (mincost, candidates)
}

/// Takes the vertex at position `vpos` out of `ordering` and puts it back
/// where it costs least; among several such positions one other than `vpos`
/// is picked at random. Returns whether the ordering became cheaper.
pub fn reinsert(
    scc: &SCC,
    diffs: &Vec<Vec<u64>>,
    ordering: &mut Vec<usize>,
    vpos: usize,
    rng: &mut ThreadRng,
) -> (improved: bool)
    requires
        scc.wf(),
        is_transpose(matrix(diffs@), scc.weights(), scc.n as nat),
        is_arrangement(old(ordering)@, scc.n as nat),
        vpos < old(ordering)@.len(),
    ensures
        exists|p: int|
            is_reinsertion(scc.weights(), old(ordering)@, vpos as int, p) && final(ordering)@
                == old(ordering)@.remove(vpos as int).insert(p, old(ordering)@[vpos as int]),
        is_reinsertion_step(scc.weights(), old(ordering)@, final(ordering)@),
        is_arrangement(final(ordering)@, scc.n as nat),
        final(ordering)@.len() == old(ordering)@.len(),
        forall|x: usize| final(ordering)@.contains(x) <==> old(ordering)@.contains(x),
        0 <= eval(scc.weights(), final(ordering)@) <= eval(scc.weights(), old(ordering)@),
        improved == (eval(scc.weights(), final(ordering)@) < eval(scc.weights(), old(ordering)@)),
{
    let ghost w = scc.weights();
    let ghost before = ordering@;
    let v = ordering[vpos];
    proof {
        lemma_remove_keeps_arrangement(before, scc.n as nat, vpos as int);
    }
    ordering.remove(vpos);
    let ghost rest = ordering@;
    proof {
        lemma_arrangement_length(rest, scc.n as nat, v);
        lemma_costs_fit(w, rest, scc.n as nat, v);
    }
    let cost = insert_cost_per_pos(scc, diffs, ordering, v);
    let (mincost, candidates) = pick_candidates(&cost, vpos);
    let improved = cost[vpos] > mincost;
    let inspos = match choose_from(&candidates, rng) {
        Some(p) => p,
        None => 0,
    };
    proof {
        assert(candidates@.contains(inspos));
        assert(cost@[inspos as int] == mincost);
        assert(is_cheapest_position(w, rest, v as int, inspos as int)) by {
            assert forall|q: int| 0 <= q <= rest.len() implies insert_cost(
                w,
                rest,
                v as int,
                inspos as int,
            ) <= insert_cost(w, rest, v as int, q) by {
                assert(mincost <= cost@[q]);
            }
        }
        assert(is_reinsertion(w, before, vpos as int, inspos as int)) by {
            if inspos == vpos {
                assert forall|q: int| is_cheapest_position(w, rest, v as int, q) implies q
                    == vpos by {
                    assert(cost@[q] == insert_cost(w, rest, v as int, q));
                    assert(cost@[q] <= cost@[inspos as int]);
                    assert(mincost <= cost@[q]);
                }
            }
        }
        lemma_reinsertion(w, scc.n as nat, before, vpos as int, inspos as int);
        assert(cost@[vpos as int] == insert_cost(w, rest, v as int, vpos as int));
    }
    ordering.insert(inspos, v);
    improved
}

/// What is left after `x` is filtered out was there before.
proof fn lemma_filter_subset(s: Seq<usize>, x: usize, y: usize)
    requires
        s.filter(is_not(x)).contains(y),
    ensures
        s.contains(y),
    decreases s.len(),
{
    reveal(Seq::filter);
    if s.len() > 0 {
        let sub = s.drop_last().filter(is_not(x));
        if sub.contains(y) {
            lemma_filter_subset(s.drop_last(), x, y);
            let k = choose|k: int| 0 <= k < s.drop_last().len() && s.drop_last()[k] == y;
            assert(s[k] == y);
        } else {
            let f = s.filter(is_not(x));
            let k = choose|k: int| 0 <= k < f.len() && f[k] == y;
            if is_not(x)(s.last()) {
                assert(f == sub.push(s.last()));
                if k < sub.len() {
                    assert(sub[k] == y);
                    assert(false);
                }
                assert(s[s.len() - 1] == y);
            } else {
                assert(false);
            }
        }
    }
}

/// The cost of the first `k` orderings together, each under the weights of
/// its component.
pub open spec fn total_cost(sccs: Seq<SCC>, ordering: Seq<Vec<usize>>, k: int) -> int
    decreases k,
{
    if k <= 0 {
        0
    } else {
        total_cost(sccs, ordering, k - 1) + eval(sccs[k - 1].weights(), ordering[k - 1]@)
    }
}

/// Each ordering is a permutation of the vertices of its component.
pub open spec fn all_permutations(sccs: Seq<SCC>, ordering: Seq<Vec<usize>>) -> bool {
    &&& ordering.len() == sccs.len()
    &&& forall|i: int|
        0 <= i < sccs.len() ==> is_permutation((#[trigger] ordering[i])@, sccs[i].n as nat)
}

/// No ordering of `after` costs more than its counterpart in `before`.
pub open spec fn none_worse(sccs: Seq<SCC>, after: Seq<Vec<usize>>, before: Seq<Vec<usize>>) -> bool {
    &&& after.len() == sccs.len()
    &&& before.len() == sccs.len()
    &&& forall|i: int|
        0 <= i < sccs.len() ==> eval(sccs[i].weights(), (#[trigger] after[i])@) <= eval(
            sccs[i].weights(),
            before[i]@,
        )
}

/// Costs are not negative.
proof fn lemma_total_cost_nonnegative(sccs: Seq<SCC>, ordering: Seq<Vec<usize>>, k: int)
    ensures
        total_cost(sccs, ordering, k) >= 0,
    decreases k,
{
    if k > 0 {
        lemma_total_cost_nonnegative(sccs, ordering, k - 1);
        lemma_eval_upto_monotone(sccs[k - 1].weights(), ordering[k - 1]@, 0, ordering[k - 1]@.len() as int);
    }
}

/// A change to one ordering changes the total by what it changes there.
proof fn lemma_total_cost_update(
    sccs: Seq<SCC>,
    ordering: Seq<Vec<usize>>,
    changed: Seq<Vec<usize>>,
    i: int,
    k: int,
)
    requires
        0 <= i < ordering.len(),
        0 <= k <= ordering.len(),
        changed.len() == ordering.len(),
        forall|j: int| 0 <= j < ordering.len() && j != i ==> changed[j] == ordering[j],
    ensures
        total_cost(sccs, changed, k) == total_cost(sccs, ordering, k) + if i < k {
            eval(sccs[i].weights(), changed[i]@) - eval(sccs[i].weights(), ordering[i]@)
        } else {
            0
        },
    decreases k,
{
    if k > 0 {
        lemma_total_cost_update(sccs, ordering, changed, i, k - 1);
    }
}

/// The hillclimber can get from each ordering of `before` to its
/// counterpart in `after`.
pub open spec fn all_climbed(sccs: Seq<SCC>, before: Seq<Vec<usize>>, after: Seq<Vec<usize>>) -> bool {
    &&& after.len() == sccs.len()
    &&& before.len() == sccs.len()
    &&& forall|i: int|
        0 <= i < sccs.len() ==> climbs_to(sccs[i].weights(), before[i]@, (#[trigger] after[i])@)
}

/// `b` comes from `a` by taking the vertex `v` out and putting it back where
/// it costs least, and at its old place only if no other place costs as
/// little.
pub open spec fn is_reinsertion_of(w: Seq<Seq<u64>>, a: Seq<usize>, v: usize, b: Seq<usize>) -> bool {
    exists|vpos: int, p: int|
        0 <= vpos < a.len() && a[vpos] == v && #[trigger] is_reinsertion(w, a, vpos, p) && b
            == a.remove(vpos).insert(p, v)
}

/// `trace` is one full sweep over an ordering of `n` vertices: `order` holds
/// each vertex once, and step `k` takes out the vertex `order[k]` and puts it
/// back where it costs least.
pub open spec fn is_sweep(w: Seq<Seq<u64>>, n: nat, trace: Seq<Seq<usize>>, order: Seq<usize>) -> bool {
    &&& is_permutation(order, n)
    &&& trace.len() == n + 1
    &&& forall|k: int|
        0 <= k < n ==> is_reinsertion_of(w, #[trigger] trace[k], order[k], trace[k + 1])
}

/// One full sweep leads from `from` to `to`.
pub open spec fn sweeps_to(w: Seq<Seq<u64>>, n: nat, from: Seq<usize>, to: Seq<usize>) -> bool {
    exists|trace: Seq<Seq<usize>>, order: Seq<usize>|
        #[trigger] is_sweep(w, n, trace, order) && trace[0] == from && trace[n as int] == to
}

/// One sweep of the hillclimber over component `i`: each of its vertices, in
/// random order, is taken out and put back where it costs least. The flag
/// is polled before each vertex; the sweep ends once it is seen raised, so
/// that nothing moves where it was seen before the call. A sweep that the
/// flag did not end is a full one. Returns whether the ordering became
/// cheaper.
pub fn sweep_component(
    sccs: &Vec<SCC>,
    inv_w: &Vec<Vec<Vec<u64>>>,
    i: usize,
    ordering: &mut Vec<usize>,
    rng: &mut ThreadRng,
    abort: &mut AbortFlag,
) -> (improved: bool)
    requires
        all_wf(sccs@),
        i < sccs@.len(),
        old(abort).seen() || all_transposes(inv_w@, sccs@),
        is_permutation(old(ordering)@, sccs@[i as int].n as nat),
    ensures
        old(abort).seen() ==> final(abort).seen(),
        final(abort).seen() || all_transposes(inv_w@, sccs@),
        is_permutation(final(ordering)@, sccs@[i as int].n as nat),
        old(abort).seen() ==> final(ordering)@ == old(ordering)@,
        !final(abort).seen() ==> sweeps_to(
            sccs@[i as int].weights(),
            sccs@[i as int].n as nat,
            old(ordering)@,
            final(ordering)@,
        ),
        climbs_to(sccs@[i as int].weights(), old(ordering)@, final(ordering)@),
        0 <= eval(sccs@[i as int].weights(), final(ordering)@) <= eval(
            sccs@[i as int].weights(),
            old(ordering)@,
        ),
        improved == (eval(sccs@[i as int].weights(), final(ordering)@) < eval(
            sccs@[i as int].weights(),
            old(ordering)@,
        )),
{
    let scc = &sccs[i];
    let ghost w = scc.weights();
    let ghost start = ordering@;
    let vertices = random_order(scc.n, rng);
    let mut improved = false;
    let mut k: usize = 0;
    let ghost mut trace: Seq<Seq<usize>> = seq![start];
    proof {
        lemma_climbs_refl(w, start);
        lemma_eval_bounded(w, start, scc.n as nat);
    }
    while k < vertices.len()
        invariant
            0 <= k <= vertices.len(),
            i < sccs@.len(),
            scc == sccs@[i as int],
            w == scc.weights(),
            scc.wf(),
            is_permutation(vertices@, scc.n as nat),
            old(abort).seen() ==> abort.seen(),
            abort.seen() || all_transposes(inv_w@, sccs@),
            start == old(ordering)@,
            is_permutation(ordering@, scc.n as nat),
            climbs_to(w, start, ordering@),
            0 <= eval(w, ordering@) <= eval(w, start),
            improved == (eval(w, ordering@) < eval(w, start)),
            old(abort).seen() ==> ordering@ == start,
            trace.len() == k + 1,
            trace[0] == start,
            trace[k as int] == ordering@,
            forall|j: int|
                0 <= j < k ==> is_reinsertion_of(w, #[trigger] trace[j], vertices@[j], trace[j + 1]),
        decreases vertices.len() - k,
    {
        if abort.poll() {
            return improved;
        }
        let v = vertices[k];
        let ghost before = ordering@;
        proof {
            lemma_permutation_contains(before, scc.n as nat, v);
        }
        let vpos = match position_of(ordering, v) {
            Some(p) => p,
            None => 0,
        };
        assert(is_transpose(matrix(inv_w@[i as int]@), w, scc.n as nat));
        let better = reinsert(scc, &inv_w[i], ordering, vpos, rng);
        if better {
            improved = true;
        }
        proof {
            lemma_climbs_step(w, start, before, ordering@);
            let longer = trace.push(ordering@);
            assert(is_reinsertion_of(w, before, v, ordering@));
            assert forall|j: int| 0 <= j < k + 1 implies is_reinsertion_of(
                w,
                #[trigger] longer[j],
                vertices@[j],
                longer[j + 1],
            ) by {
                if j < k {
                    assert(longer[j] == trace[j]);
                    assert(longer[j + 1] == trace[j + 1]);
                }
            }
            trace = longer;
        }
        k += 1;
    }
    proof {
        assert(is_sweep(w, scc.n as nat, trace, vertices@));
    }
    improved
}

/// `quiet` full sweeps in a row, none of which gained anything, end in
/// `result`.
pub open spec fn is_settled(w: Seq<Seq<u64>>, n: nat, result: Seq<usize>, quiet: nat) -> bool
    decreases quiet,
{
    quiet == 0 || exists|from: Seq<usize>| #[trigger]
        sweeps_to(w, n, from, result) && eval(w, from) == eval(w, result) && is_settled(
            w,
            n,
            from,
            (quiet - 1) as nat,
        )
}

/// Each ordering of more than one vertex is the end of `quiet` full sweeps
/// in a row that gained nothing.
pub open spec fn all_settled(sccs: Seq<SCC>, ordering: Seq<Vec<usize>>, quiet: nat) -> bool {
    forall|i: int|
        0 <= i < sccs.len() && sccs[i].n != 1 ==> is_settled(
            sccs[i].weights(),
            sccs[i].n as nat,
            (#[trigger] ordering[i])@,
            quiet,
        )
}

/// The number of sweeps in a row without a gain after which the hillclimber
/// ends.
pub const QUIET_SWEEPS: usize = 4;

/// The orderings of `after` are those of `before`.
pub open spec fn all_same(before: Seq<Vec<usize>>, after: Seq<Vec<usize>>) -> bool {
    &&& after.len() == before.len()
    &&& forall|i: int| 0 <= i < before.len() ==> (#[trigger] after[i])@ == before[i]@
}

/// Improves each ordering by sweeps over its vertices in random order: each
/// vertex is taken out and put back where it costs least. Ends after four
/// sweeps in a row without a gain, or when the flag is seen raised, which is
/// polled before each vertex. So where the flag was seen before the call the
/// orderings come back as they were given, and where it was never seen the
/// last four sweeps over each component were full ones that gained nothing.
/// Components of a single vertex are left alone.
pub fn hillclimber_sifting(
    sccs: &Vec<SCC>,
    initial_ordering: Vec<Vec<usize>>,
    abort: &mut AbortFlag,
) -> (ordering: Vec<Vec<usize>>)
    requires
        all_wf(sccs@),
        all_permutations(sccs@, initial_ordering@),
    ensures
        old(abort).seen() ==> final(abort).seen(),
        all_permutations(sccs@, ordering@),
        none_worse(sccs@, ordering@, initial_ordering@),
        all_climbed(sccs@, initial_ordering@, ordering@),
        old(abort).seen() ==> all_same(initial_ordering@, ordering@),
        !final(abort).seen() ==> all_settled(sccs@, ordering@, QUIET_SWEEPS as nat),
{
    let inv_w = get_inv_w(sccs, abort);
    let ghost initial = initial_ordering@;
    let mut ordering = initial_ordering;
    let mut rng = rand::thread_rng();
    let mut stale: usize = 0;
    proof {
        assert forall|i: int| 0 <= i < sccs@.len() implies climbs_to(
            sccs@[i].weights(),
            initial[i]@,
            (#[trigger] ordering@[i])@,
        ) by {
            lemma_climbs_refl(sccs@[i].weights(), initial[i]@);
        }
    }
    while stale < QUIET_SWEEPS
        invariant
            stale <= QUIET_SWEEPS,
            initial == initial_ordering@,
            all_wf(sccs@),
            old(abort).seen() ==> abort.seen(),
            abort.seen() || all_transposes(inv_w@, sccs@),
            all_permutations(sccs@, ordering@),
            none_worse(sccs@, ordering@, initial),
            all_climbed(sccs@, initial, ordering@),
            old(abort).seen() ==> all_same(initial, ordering@),
            all_settled(sccs@, ordering@, stale as nat),
        decreases total_cost(sccs@, ordering@, sccs@.len() as int), QUIET_SWEEPS - stale,
    {
        let ghost start = total_cost(sccs@, ordering@, sccs@.len() as int);
        proof {
            lemma_total_cost_nonnegative(sccs@, ordering@, sccs@.len() as int);
        }
        let mut improved = false;
        let mut i: usize = 0;
        while i < sccs.len()
            invariant
                0 <= i <= sccs.len(),
                initial == initial_ordering@,
                all_wf(sccs@),
                old(abort).seen() ==> abort.seen(),
                abort.seen() || all_transposes(inv_w@, sccs@),
                all_permutations(sccs@, ordering@),
                none_worse(sccs@, ordering@, initial),
                all_climbed(sccs@, initial, ordering@),
                total_cost(sccs@, ordering@, sccs@.len() as int) <= start,
                improved ==> total_cost(sccs@, ordering@, sccs@.len() as int) < start,
                old(abort).seen() ==> all_same(initial, ordering@),
                stale < QUIET_SWEEPS,
                !improved ==> forall|q: int|
                    0 <= q < i && sccs@[q].n != 1 ==> is_settled(
                        sccs@[q].weights(),
                        sccs@[q].n as nat,
                        (#[trigger] ordering@[q])@,
                        (stale + 1) as nat,
                    ),
                forall|q: int|
                    i <= q < sccs@.len() && sccs@[q].n != 1 ==> is_settled(
                        sccs@[q].weights(),
                        sccs@[q].n as nat,
                        (#[trigger] ordering@[q])@,
                        stale as nat,
                    ),
            decreases sccs.len() - i,
        {
            if sccs[i].n != 1 {
                let ghost before = ordering@;
                assert(is_permutation(before[i as int]@, sccs@[i as int].n as nat));
                let better = sweep_component(sccs, &inv_w, i, &mut ordering[i], &mut rng, abort);
                if better {
                    improved = true;
                }
                proof {
                    assert forall|q: int|
                        i + 1 <= q < sccs@.len() && sccs@[q].n != 1 implies is_settled(
                        sccs@[q].weights(),
                        sccs@[q].n as nat,
                        (#[trigger] ordering@[q])@,
                        stale as nat,
                    ) by {
                        assert(ordering@[q] == before[q]);
                    }
                    if !abort.seen() && !improved {
                        assert(sweeps_to(
                            sccs@[i as int].weights(),
                            sccs@[i as int].n as nat,
                            before[i as int]@,
                            ordering@[i as int]@,
                        ));
                        assert(is_settled(
                            sccs@[i as int].weights(),
                            sccs@[i as int].n as nat,
                            before[i as int]@,
                            stale as nat,
                        ));
                        assert forall|q: int| 0 <= q < i + 1 && sccs@[q].n != 1 implies is_settled(
                            sccs@[q].weights(),
                            sccs@[q].n as nat,
                            (#[trigger] ordering@[q])@,
                            (stale + 1) as nat,
                        ) by {
                            if q < i {
                                assert(ordering@[q] == before[q]);
                            }
                        }
                    }
                    lemma_total_cost_update(sccs@, before, ordering@, i as int, sccs@.len() as int);
                    assert forall|q: int| 0 <= q < sccs@.len() implies climbs_to(
                        sccs@[q].weights(),
                        initial[q]@,
                        (#[trigger] ordering@[q])@,
                    ) by {
                        assert(climbs_to(sccs@[q].weights(), initial[q]@, before[q]@));
                        if q == i {
                            lemma_climbs_trans(
                                sccs@[q].weights(),
                                initial[q]@,
                                before[q]@,
                                ordering@[q]@,
                            );
                        }
                    }
                }
                if abort.was_raised() {
                    return ordering;
                }
            }
            i += 1;
        }
        stale = if improved {
            0
        } else {
            stale + 1
        };
        proof {
            lemma_total_cost_nonnegative(sccs@, ordering@, sccs@.len() as int);
        }
    }
    ordering
}

/// Each ordering can be built by insertion with interleaved improvement.
pub open spec fn all_built(sccs: Seq<SCC>, ordering: Seq<Vec<usize>>, aborted: bool) -> bool {
    &&& ordering.len() == sccs.len()
    &&& forall|i: int|
        0 <= i < sccs.len() ==> builds_to(
            sccs[i].weights(),
            sccs[i].n as nat,
            (#[trigger] ordering[i])@,
            aborted,
        )
}

/// The last `quiet` steps of `trace` gained nothing.
pub open spec fn is_quiet_tail(w: Seq<Seq<u64>>, trace: Seq<Seq<usize>>, quiet: int) -> bool {
    forall|t: int|
        trace.len() - 1 - quiet <= t < trace.len() - 1 && 0 <= t ==> eval(w, #[trigger] trace[t])
            == eval(w, trace[t + 1])
}

/// The hillclimber gets from `from` to `to` and comes to rest there: in at
/// least `2 * len` steps, of which the last `2 * len - 1` gained nothing.
pub open spec fn climbs_out(w: Seq<Seq<u64>>, from: Seq<usize>, to: Seq<usize>, len: nat) -> bool {
    exists|trace: Seq<Seq<usize>>|
        #[trigger] is_climb(w, trace) && trace[0] == from && trace[trace.len() - 1] == to
            && trace.len() > 2 * len && is_quiet_tail(w, trace, 2 * len - 1)
}

/// A climb goes on by one more step, and what is known of its quiet end
/// goes on with it where the step gained nothing.
proof fn lemma_climb_push(
    w: Seq<Seq<u64>>,
    trace: Seq<Seq<usize>>,
    next: Seq<usize>,
    quiet: int,
    better: bool,
)
    requires
        is_climb(w, trace),
        is_reinsertion_step(w, trace[trace.len() - 1], next),
        is_quiet_tail(w, trace, quiet),
        !better ==> eval(w, trace[trace.len() - 1]) == eval(w, next),
    ensures
        is_climb(w, trace.push(next)),
        is_quiet_tail(
            w,
            trace.push(next),
            if better {
                0
            } else {
                quiet + 1
            },
        ),
{
    let longer = trace.push(next);
    assert forall|t: int| 0 <= t < longer.len() - 1 implies is_reinsertion_step(
        w,
        #[trigger] longer[t],
        longer[t + 1],
    ) by {
        if t < trace.len() - 1 {
            assert(longer[t] == trace[t]);
            assert(longer[t + 1] == trace[t + 1]);
        }
    }
    if !better {
        assert forall|t: int|
            longer.len() - 1 - (quiet + 1) <= t < longer.len() - 1 && 0 <= t implies eval(
            w,
            #[trigger] longer[t],
        ) == eval(w, longer[t + 1]) by {
            if t < trace.len() - 1 {
                assert(longer[t] == trace[t]);
                assert(longer[t + 1] == trace[t + 1]);
            }
        }
    }
}

/// Improves an ordering under way: a vertex at a random position is taken
/// out and put back where it costs least, again and again. The work ends
/// once the steps since the last gain, that step counted, are twice as many
/// as the ordering is long; where no step gained, once that many were made.
/// The flag is polled before each step and ends the work once it is seen
/// raised, so that nothing moves where it was seen before the call.
pub fn climb_partial(
    scc: &SCC,
    diffs: &Vec<Vec<u64>>,
    ordering: &mut Vec<usize>,
    rng: &mut ThreadRng,
    abort: &mut AbortFlag,
)
    requires
        scc.wf(),
        is_transpose(matrix(diffs@), scc.weights(), scc.n as nat),
        is_arrangement(old(ordering)@, scc.n as nat),
    ensures
        old(abort).seen() ==> final(abort).seen(),
        is_arrangement(final(ordering)@, scc.n as nat),
        final(ordering)@.len() == old(ordering)@.len(),
        forall|x: usize| final(ordering)@.contains(x) <==> old(ordering)@.contains(x),
        climbs_to(scc.weights(), old(ordering)@, final(ordering)@),
        eval(scc.weights(), final(ordering)@) <= eval(scc.weights(), old(ordering)@),
        old(abort).seen() ==> final(ordering)@ == old(ordering)@,
        !final(abort).seen() ==> climbs_out(
            scc.weights(),
            old(ordering)@,
            final(ordering)@,
            old(ordering)@.len(),
        ),
{
    let ghost w = scc.weights();
    let ghost start = ordering@;
    let len = ordering.len();
    let mut stale: u128 = 0;
    let ghost mut trace: Seq<Seq<usize>> = seq![start];
    proof {
        lemma_climbs_refl(w, start);
        lemma_eval_bounded(w, start, scc.n as nat);
    }
    while stale < 2 * (len as u128)
        invariant
            start == old(ordering)@,
            old(abort).seen() ==> ordering@ == start,
            is_climb(w, trace),
            trace[0] == start,
            trace[trace.len() - 1] == ordering@,
            trace.len() > stale,
            is_quiet_tail(w, trace, stale - 1),
            w == scc.weights(),
            scc.wf(),
            is_transpose(matrix(diffs@), w, scc.n as nat),
            old(abort).seen() ==> abort.seen(),
            is_arrangement(ordering@, scc.n as nat),
            ordering@.len() == len,
            stale <= 2 * len,
            forall|x: usize| ordering@.contains(x) <==> start.contains(x),
            climbs_to(w, start, ordering@),
            0 <= eval(w, ordering@) <= eval(w, start),
        ensures
            abort.seen() || stale == 2 * len,
        decreases eval(w, ordering@), 2 * len - stale,
    {
        if abort.poll() {
            break;
        }
        let ghost before = ordering@;
        let vpos = random_below(rng, len);
        let better = reinsert(scc, diffs, ordering, vpos, rng);
        proof {
            lemma_climbs_step(w, start, before, ordering@);
            lemma_climb_push(w, trace, ordering@, stale as int - 1, better);
            trace = trace.push(ordering@);
        }
        stale = if better {
            1
        } else {
            stale + 1
        };
    }
}

/// Builds an ordering of one component by insertion with interleaved
/// improvement: the vertices are taken in random order and each is put
/// where it costs least; whenever the ordering has grown by `CLIMB_EVERY`
/// vertices, the hillclimber runs on it. The flag is polled before each
/// insertion; once it is seen raised, the vertices left are put at the end.
fn build_plus(
    sccs: &Vec<SCC>,
    inv_w: &Vec<Vec<Vec<u64>>>,
    i: usize,
    rng: &mut ThreadRng,
    abort: &mut AbortFlag,
) -> (scc_ordering: Vec<usize>)
    requires
        all_wf(sccs@),
        i < sccs@.len(),
        old(abort).seen() || all_transposes(inv_w@, sccs@),
    ensures
        old(abort).seen() ==> final(abort).seen(),
        final(abort).seen() || all_transposes(inv_w@, sccs@),
        is_permutation(scc_ordering@, sccs@[i as int].n as nat),
        builds_to(
            sccs@[i as int].weights(),
            sccs@[i as int].n as nat,
            scc_ordering@,
            final(abort).seen(),
        ),
{
    let scc = &sccs[i];
    let n = scc.n;
    let ghost w = scc.weights();
    let mut scc_ordering: Vec<usize> = Vec::new();
    let vertices = random_order(n, rng);
    let ghost mut raised = false;
    let ghost mut stages: Seq<Seq<usize>> = seq![scc_ordering@];
    let mut k: usize = 0;
    while k < n
        invariant
            0 <= k <= n,
            i < sccs@.len(),
            scc == sccs@[i as int],
            n == scc.n,
            w == scc.weights(),
            scc.wf(),
            old(abort).seen() ==> abort.seen(),
            abort.seen() || all_transposes(inv_w@, sccs@),
            raised ==> abort.seen(),
            is_permutation(vertices@, n as nat),
            is_arrangement(scc_ordering@, n as nat),
            scc_ordering@.len() == k,
            forall|x: usize| scc_ordering@.contains(x) ==> vertices@.take(k as int).contains(x),
            is_build(w, n as nat, stages, vertices@, k as int, raised),
            stages[k as int] == scc_ordering@,
        decreases n - k,
    {
        let v = vertices[k];
        let ghost before = scc_ordering@;
        proof {
            if before.contains(v) {
                let t = vertices@.take(k as int);
                assert(t.contains(v));
                let j = choose|j: int| 0 <= j < t.len() && t[j] == v;
                assert(vertices@[j] == vertices@[k as int]);
                assert(false);
            }
        }
        if abort.poll() {
            scc_ordering.push(v);
            proof {
                assert(scc_ordering@ =~= before.insert(k as int, v));
                lemma_insert_keeps_arrangement(before, n as nat, k as int, v);
                assert(is_stage(w, before, v, scc_ordering@, true));
                lemma_build_push(
                    w,
                    n as nat,
                    stages,
                    vertices@,
                    k as int,
                    scc_ordering@,
                    raised,
                    true,
                );
                stages = stages.push(scc_ordering@);
                raised = true;
            }
        } else {
            assert(is_transpose(matrix(inv_w@[i as int]@), w, n as nat));
            let inspos = insert_at_best(scc, &inv_w[i], &mut scc_ordering, v, rng);
            let ghost inserted = scc_ordering@;
            proof {
                lemma_insert_keeps_arrangement(before, n as nat, inspos as int, v);
            }
            if scc_ordering.len() % CLIMB_EVERY == 0 {
                climb_partial(scc, &inv_w[i], &mut scc_ordering, rng, abort);
            }
            proof {
                assert(is_cheapest_position(w, before, v as int, inspos as int));
                assert(is_rest(w, inserted, scc_ordering@, abort.seen()));
                assert(is_stage(w, before, v, scc_ordering@, abort.seen()));
                lemma_build_push(
                    w,
                    n as nat,
                    stages,
                    vertices@,
                    k as int,
                    scc_ordering@,
                    raised,
                    abort.seen(),
                );
                stages = stages.push(scc_ordering@);
                raised = abort.seen();
            }
        }
        k += 1;
        proof {
            assert forall|x: usize| scc_ordering@.contains(x) implies vertices@.take(
                k as int,
            ).contains(x) by {
                if x == v {
                    assert(vertices@.take(k as int)[k - 1] == v);
                } else {
                    assert(before.contains(x));
                    let t = vertices@.take(k - 1);
                    assert(t.contains(x));
                    let j = choose|j: int| 0 <= j < t.len() && t[j] == x;
                    assert(vertices@.take(k as int)[j] == x);
                }
            }
        }
    }
    proof {
        lemma_build_monotone(w, n as nat, stages, vertices@, n as int, raised, abort.seen());
    }
    scc_ordering
}

/// As `insertion_sifting`, but after every fiftieth insertion the ordering
/// built so far is improved: a vertex at a random position is taken out and
/// put back where it costs least, again and again, until the steps since
/// the last gain are twice as many as the ordering is long, or the flag is
/// seen raised.
pub fn insertionplus_sifting(sccs: &Vec<SCC>, abort: &mut AbortFlag) -> (ordering: Vec<Vec<usize>>)
    requires
        all_wf(sccs@),
    ensures
        old(abort).seen() ==> final(abort).seen(),
        all_permutations(sccs@, ordering@),
        all_built(sccs@, ordering@, final(abort).seen()),
{
    let inv_w = get_inv_w(sccs, abort);
    let mut ordering: Vec<Vec<usize>> = Vec::new();
    let mut rng = rand::thread_rng();
    let mut i: usize = 0;
    while i < sccs.len()
        invariant
            0 <= i <= sccs.len(),
            all_wf(sccs@),
            old(abort).seen() ==> abort.seen(),
            abort.seen() || all_transposes(inv_w@, sccs@),
            ordering@.len() == i,
            forall|k: int|
                0 <= k < i ==> is_permutation((#[trigger] ordering@[k])@, sccs@[k].n as nat),
            forall|k: int|
                0 <= k < i ==> builds_to(
                    sccs@[k].weights(),
                    sccs@[k].n as nat,
                    (#[trigger] ordering@[k])@,
                    abort.seen(),
                ),
        decreases sccs.len() - i,
    {
        let ghost was_seen = abort.seen();
        let ghost built = ordering@;
        let scc_ordering = build_plus(sccs, &inv_w, i, &mut rng, abort);
        ordering.push(scc_ordering);
        proof {
            assert forall|k: int| 0 <= k < i + 1 implies builds_to(
                sccs@[k].weights(),
                sccs@[k].n as nat,
                (#[trigger] ordering@[k])@,
                abort.seen(),
            ) by {
                if k < i {
                    assert(ordering@[k] == built[k]);
                    lemma_builds_monotone(
                        sccs@[k].weights(),
                        sccs@[k].n as nat,
                        built[k]@,
                        was_seen,
                        abort.seen(),
                    );
                }
            }
        }
        i += 1;
    }
    ordering
}

/// Each ordering of `built` is one that insertion can build.
pub open spec fn all_greedy(sccs: Seq<SCC>, built: Seq<Vec<usize>>, aborted: bool) -> bool {
    &&& built.len() == sccs.len()
    &&& forall|i: int|
        0 <= i < sccs.len() ==> is_greedy_ordering(
            sccs[i].weights(),
            sccs[i].n as nat,
            (#[trigger] built[i])@,
            aborted,
        )
}

/// One candidate: the orderings that insertion builds, improved by the
/// hillclimber.
pub fn sample(sccs: &Vec<SCC>, abort: &mut AbortFlag) -> (perm: Vec<Vec<usize>>)
    requires
        all_wf(sccs@),
    ensures
        old(abort).seen() ==> final(abort).seen(),
        all_permutations(sccs@, perm@),
        exists|built: Seq<Vec<usize>>|
            #[trigger] all_greedy(sccs@, built, final(abort).seen()) && all_climbed(
                sccs@,
                built,
                perm@,
            ),
        !final(abort).seen() ==> all_settled(sccs@, perm@, QUIET_SWEEPS as nat),
{
    let built = insertion_sifting(sccs, abort);
    let ghost start = built@;
    let ghost was_seen = abort.seen();
    let perm = hillclimber_sifting(sccs, built, abort);
    proof {
        assert forall|i: int| 0 <= i < sccs@.len() implies is_greedy_ordering(
            sccs@[i].weights(),
            sccs@[i].n as nat,
            (#[trigger] start[i])@,
            abort.seen(),
        ) by {
            lemma_greedy_monotone(
                sccs@[i].weights(),
                sccs@[i].n as nat,
                start[i]@,
                was_seen,
                abort.seen(),
            );
        }
        assert(all_greedy(sccs@, start, abort.seen()));
    }
    perm
}

/// What insertion can build it can build once the flag is seen raised.
pub proof fn lemma_greedy_monotone(
    w: Seq<Seq<u64>>,
    n: nat,
    result: Seq<usize>,
    was_aborted: bool,
    aborted: bool,
)
    requires
        is_greedy_ordering(w, n, result, was_aborted),
        was_aborted ==> aborted,
    ensures
        is_greedy_ordering(w, n, result, aborted),
{
    let (order, at) = choose|order: Seq<usize>, at: Seq<usize>|
        is_insertion_run(w, n, order, at, result, was_aborted);
    assert(is_insertion_run(w, n, order, at, result, aborted));
}

/// One candidate for the refined components: the orderings that insertion
/// with interleaved improvement builds, improved by the hillclimber.
pub fn sample_plus(sccs: &Vec<SCC>, abort: &mut AbortFlag) -> (perm: Vec<Vec<usize>>)
    requires
        all_wf(sccs@),
    ensures
        old(abort).seen() ==> final(abort).seen(),
        all_permutations(sccs@, perm@),
        exists|built: Seq<Vec<usize>>|
            #[trigger] all_built(sccs@, built, final(abort).seen()) && all_climbed(
                sccs@,
                built,
                perm@,
            ),
        !final(abort).seen() ==> all_settled(sccs@, perm@, QUIET_SWEEPS as nat),
{
    let built = insertionplus_sifting(sccs, abort);
    let ghost start = built@;
    let ghost was_seen = abort.seen();
    let perm = hillclimber_sifting(sccs, built, abort);
    proof {
        assert forall|i: int| 0 <= i < sccs@.len() implies builds_to(
            sccs@[i].weights(),
            sccs@[i].n as nat,
            (#[trigger] start[i])@,
            abort.seen(),
        ) by {
            lemma_builds_monotone(
                sccs@[i].weights(),
                sccs@[i].n as nat,
                start[i]@,
                was_seen,
                abort.seen(),
            );
        }
        assert(all_built(sccs@, start, abort.seen()));
    }
    perm
}

/// The best value and ordering after a candidate of value `e` was held
/// against them: the candidate if it is strictly better, else what was best.
pub open spec fn recorded(
    e: int,
    old_val: u64,
    old_perm: Seq<usize>,
    candidate: Seq<usize>,
    new_val: u64,
    new_perm: Seq<usize>,
) -> bool {
    if e < old_val {
        new_val == e && new_perm == candidate
    } else {
        new_val == old_val && new_perm == old_perm
    }
}

/// Holds the candidate `perm` against the best orderings so far, component
/// by component, and keeps whichever costs less. The evaluation polls the
/// flag; once it is seen raised, `u64::MAX - 1` stands in for the cost of
/// the candidate.
pub fn record_best(
    sccs: &Vec<SCC>,
    perm: &Vec<Vec<usize>>,
    bestval: &mut Vec<u64>,
    bestperm: &mut Vec<Vec<usize>>,
    abort: &mut AbortFlag,
)
    requires
        all_wf(sccs@),
        all_permutations(sccs@, perm@),
        old(bestval)@.len() == sccs@.len(),
        old(bestperm)@.len() == sccs@.len(),
    ensures
        old(abort).seen() ==> final(abort).seen(),
        final(bestval)@.len() == sccs@.len(),
        final(bestperm)@.len() == sccs@.len(),
        forall|i: int| 0 <= i < sccs@.len() ==> (#[trigger] final(bestval)@[i]) <= old(bestval)@[i],
        forall|i: int|
            0 <= i < sccs@.len() ==> recorded(
                eval(sccs@[i].weights(), perm@[i]@),
                old(bestval)@[i],
                old(bestperm)@[i]@,
                perm@[i]@,
                #[trigger] final(bestval)@[i],
                final(bestperm)@[i]@,
            ) || (final(abort).seen() && recorded(
                u64::MAX - 1,
                old(bestval)@[i],
                old(bestperm)@[i]@,
                perm@[i]@,
                final(bestval)@[i],
                final(bestperm)@[i]@,
            )),
{
    let mut i: usize = 0;
    while i < sccs.len()
        invariant
            0 <= i <= sccs.len(),
            all_wf(sccs@),
            all_permutations(sccs@, perm@),
            bestval@.len() == sccs@.len(),
            bestperm@.len() == sccs@.len(),
            old(abort).seen() ==> abort.seen(),
            old(bestval)@.len() == sccs@.len(),
            old(bestperm)@.len() == sccs@.len(),
            forall|k: int| i <= k < sccs@.len() ==> (#[trigger] bestval@[k]) == old(bestval)@[k],
            forall|k: int| i <= k < sccs@.len() ==> (#[trigger] bestperm@[k]) == old(bestperm)@[k],
            forall|k: int| 0 <= k < sccs@.len() ==> (#[trigger] bestval@[k]) <= old(bestval)@[k],
            forall|k: int|
                0 <= k < i ==> recorded(
                    eval(sccs@[k].weights(), perm@[k]@),
                    old(bestval)@[k],
                    old(bestperm)@[k]@,
                    perm@[k]@,
                    #[trigger] bestval@[k],
                    bestperm@[k]@,
                ) || (abort.seen() && recorded(
                    u64::MAX - 1,
                    old(bestval)@[k],
                    old(bestperm)@[k]@,
                    perm@[k]@,
                    bestval@[k],
                    bestperm@[k]@,
                )),
        decreases sccs.len() - i,
    {
        assert(is_permutation(perm@[i as int]@, sccs@[i as int].n as nat));
        let scc_eval = eval_ordering_scc(&perm[i], &sccs[i], abort);
        if scc_eval < bestval[i] {
            bestval[i] = scc_eval;
            bestperm[i] = perm[i].clone();
        }
        i += 1;
    }
}

/// Each best value is the cost of its ordering, or, once `aborted`, stands
/// for an interrupted evaluation; each best ordering is a permutation.
pub open spec fn bests_valid(
    sccs: Seq<SCC>,
    bestval: Seq<u64>,
    bestperm: Seq<Vec<usize>>,
    aborted: bool,
) -> bool {
    &&& bestval.len() == sccs.len()
    &&& all_permutations(sccs, bestperm)
    &&& forall|i: int|
        0 <= i < sccs.len() ==> (#[trigger] bestval[i]) == eval(sccs[i].weights(), bestperm[i]@) || (
        aborted && bestval[i] == u64::MAX - 1)
}

/// No candidate was recorded yet.
pub open spec fn bests_fresh(sccs: Seq<SCC>, bestval: Seq<u64>, bestperm: Seq<Vec<usize>>) -> bool {
    &&& bestval.len() == sccs.len()
    &&& bestperm.len() == sccs.len()
    &&& forall|i: int| 0 <= i < sccs.len() ==> (#[trigger] bestval[i]) == u64::MAX
}

/// After a candidate was held against them, the bests are valid.
proof fn lemma_recorded_valid(
    sccs: Seq<SCC>,
    perm: Seq<Vec<usize>>,
    old_val: Seq<u64>,
    old_perm: Seq<Vec<usize>>,
    new_val: Seq<u64>,
    new_perm: Seq<Vec<usize>>,
    was_aborted: bool,
    aborted: bool,
)
    requires
        all_wf(sccs),
        all_permutations(sccs, perm),
        bests_fresh(sccs, old_val, old_perm) || bests_valid(sccs, old_val, old_perm, was_aborted),
        was_aborted ==> aborted,
        new_val.len() == sccs.len(),
        new_perm.len() == sccs.len(),
        forall|i: int|
            0 <= i < sccs.len() ==> recorded(
                eval(sccs[i].weights(), perm[i]@),
                old_val[i],
                old_perm[i]@,
                perm[i]@,
                #[trigger] new_val[i],
                new_perm[i]@,
            ) || (aborted && recorded(
                u64::MAX - 1,
                old_val[i],
                old_perm[i]@,
                perm[i]@,
                new_val[i],
                new_perm[i]@,
            )),
    ensures
        bests_valid(sccs, new_val, new_perm, aborted),
{
    assert forall|i: int| 0 <= i < sccs.len() implies is_permutation(
        (#[trigger] new_perm[i])@,
        sccs[i].n as nat,
    ) && (new_val[i] == eval(sccs[i].weights(), new_perm[i]@) || (aborted && new_val[i] == u64::MAX
        - 1)) by {
        assert(sccs[i].wf());
        assert(is_permutation(perm[i]@, sccs[i].n as nat));
        lemma_eval_bounded(sccs[i].weights(), perm[i]@, sccs[i].n as nat);
        let e = eval(sccs[i].weights(), perm[i]@);
        assert(e < u64::MAX - 1);
        assert(recorded(e, old_val[i], old_perm[i]@, perm[i]@, new_val[i], new_perm[i]@) || (aborted
            && recorded(u64::MAX - 1, old_val[i], old_perm[i]@, perm[i]@, new_val[i], new_perm[i]@)));
        if bests_fresh(sccs, old_val, old_perm) {
            assert(old_val[i] == u64::MAX);
        } else {
            assert(is_permutation(old_perm[i]@, sccs[i].n as nat));
            assert(old_val[i] == eval(sccs[i].weights(), old_perm[i]@) || (was_aborted && old_val[i]
                == u64::MAX - 1));
        }
    }
}

/// The time for which the first phase draws samples, in nanoseconds: sixty
/// seconds.
pub const SAMPLING_NANOS: u128 = 60_000_000_000;

/// Whether the first phase goes on to draw samples when `passed`
/// nanoseconds have passed since it began.
pub fn within_nanos(passed: u128) -> (left: bool)
    ensures
        left == (passed <= SAMPLING_NANOS),
{
    passed <= SAMPLING_NANOS
}

/// Whether no more than sixty seconds have passed since `start`. What the
/// clock says is not known here; `within_nanos` decides on it.
fn within_budget(start: &Instant) -> bool {
    let passed = start.elapsed();
    within_nanos(passed.as_nanos())
}

/// What the first phase hands on: how often each vertex stood before each
/// other in the samples, the number of samples, and the best ordering of
/// each component with its value.
pub struct Samples {
    pub freqs: Vec<Vec<Vec<u64>>>,
    pub cntruns: u64,
    pub bestval: Vec<u64>,
    pub bestperm: Vec<Vec<usize>>,
}

impl Samples {
    /// The counts have the sizes of the components and none exceeds the
    /// number of samples; the bests are valid.
    pub open spec fn wf(&self, sccs: Seq<SCC>, aborted: bool) -> bool {
        &&& self.freqs@.len() == sccs.len()
        &&& forall|i: int|
            0 <= i < sccs.len() ==> is_square(matrix((#[trigger] self.freqs@[i])@), sccs[i].n as nat)
        &&& forall|i: int, a: usize, b: usize|
            0 <= i < sccs.len() && a < sccs[i].n && b < sccs[i].n ==> (
            #[trigger] self.freqs@[i]@[a as int]@[b as int]) <= self.cntruns
        &&& bests_valid(sccs, self.bestval@, self.bestperm@, aborted)
    }
}

/// A table of zeros for each component.
fn zero_counts(sccs: &Vec<SCC>) -> (freqs: Vec<Vec<Vec<u64>>>)
    ensures
        freqs@.len() == sccs@.len(),
        forall|i: int|
            0 <= i < sccs@.len() ==> is_square(matrix((#[trigger] freqs@[i])@), sccs@[i].n as nat),
        forall|i: int, a: usize, b: usize|
            0 <= i < sccs@.len() && a < sccs@[i].n && b < sccs@[i].n ==> (
            #[trigger] freqs@[i]@[a as int]@[b as int]) == 0,
{
    let mut freqs: Vec<Vec<Vec<u64>>> = Vec::new();
    let mut i: usize = 0;
    while i < sccs.len()
        invariant
            0 <= i <= sccs.len(),
            freqs@.len() == i,
            forall|k: int|
                0 <= k < i ==> is_square(matrix((#[trigger] freqs@[k])@), sccs@[k].n as nat),
            forall|k: int, a: usize, b: usize|
                0 <= k < i && a < sccs@[k].n && b < sccs@[k].n ==> (
                #[trigger] freqs@[k]@[a as int]@[b as int]) == 0,
        decreases sccs.len() - i,
    {
        let n = sccs[i].n;
        let table: Vec<Vec<u64>> = vec![vec![0u64; n]; n];
        assert(is_square(matrix(table@), n as nat));
        freqs.push(table);
        i += 1;
    }
    freqs
}

/// Nothing was recorded yet: every best value is `u64::MAX`.
pub open spec fn is_fresh(sccs: Seq<SCC>, b: Bests) -> bool {
    &&& b.vals.len() == sccs.len()
    &&& b.perms.len() == sccs.len()
    &&& forall|i: int| 0 <= i < sccs.len() ==> (#[trigger] b.vals[i]) == u64::MAX
}

/// In how many of the first `k` candidates `a` stands before `b` in the
/// ordering of component `i`.
pub open spec fn times_before(cands: Seq<Seq<Seq<usize>>>, i: int, a: usize, b: usize, k: int) -> int
    decreases k,
{
    if k <= 0 {
        0
    } else {
        times_before(cands, i, a, b, k - 1) + if precedes(cands[k - 1][i], a, b) {
            1int
        } else {
            0int
        }
    }
}

/// The tables hold, for each pair of vertices of each component, in how
/// many of the first `k` candidates the one stands before the other.
pub open spec fn counts_match(
    sccs: Seq<SCC>,
    freqs: Seq<Vec<Vec<u64>>>,
    cands: Seq<Seq<Seq<usize>>>,
    k: int,
) -> bool {
    &&& freqs.len() == sccs.len()
    &&& forall|i: int|
        0 <= i < sccs.len() ==> is_square(matrix((#[trigger] freqs[i])@), sccs[i].n as nat)
    &&& forall|i: int, a: usize, b: usize|
        0 <= i < sccs.len() && a < sccs[i].n && b < sccs[i].n ==> (
        #[trigger] freqs[i]@[a as int]@[b as int]) == times_before(cands, i, a, b, k)
}

/// What the first phase has in hand after the candidates `cands`: each was
/// made by insertion and the hillclimber and held against the bests, which
/// were fresh at the start; the first `counted` of them were counted into
/// the tables. Only the last round may have been `cut` short.
pub open spec fn is_gathered(
    sccs: Seq<SCC>,
    states: Seq<Bests>,
    cands: Seq<Seq<Seq<usize>>>,
    counted: int,
    freqs: Seq<Vec<Vec<u64>>>,
    bestval: Seq<u64>,
    bestperm: Seq<Vec<usize>>,
    cut: bool,
) -> bool {
    &&& is_improvement(sccs, states, cands, cut, false)
    &&& is_fresh(sccs, states[0])
    &&& states[states.len() - 1] == bests_of(bestval, bestperm)
    &&& bestval.len() == sccs.len()
    &&& bestperm.len() == sccs.len()
    &&& 0 <= counted <= cands.len()
    &&& counts_match(sccs, freqs, cands, counted)
}

/// `samples` is what the first phase gathers: every candidate that was
/// counted was held against the bests, and so were those drawn after them
/// for want of ten. Unless `aborted`, ten candidates or more were counted,
/// or as many more were drawn as a `u64` counts.
pub open spec fn is_harvest(sccs: Seq<SCC>, samples: Samples, aborted: bool) -> bool {
    exists|states: Seq<Bests>, cands: Seq<Seq<Seq<usize>>>|
        #[trigger] is_gathered(
            sccs,
            states,
            cands,
            samples.cntruns as int,
            samples.freqs@,
            samples.bestval@,
            samples.bestperm@,
            aborted,
        ) && (aborted || samples.cntruns >= 10 || cands.len() - samples.cntruns == u64::MAX)
}

/// `ordering` is what the first phase ends with when the flag cuts it
/// short: the best ordering recorded of each component, one component after
/// the other, each vertex under its label; or, where no candidate was held
/// against the bests yet, some ordering of each component.
pub open spec fn is_early_end(sccs: Seq<SCC>, ordering: Seq<usize>) -> bool {
    exists|states: Seq<Bests>, cands: Seq<Seq<Seq<usize>>>|
        #[trigger] is_improvement(sccs, states, cands, true, false) && is_fresh(sccs, states[0]) && (
        if cands.len() == 0 {
            is_blockwise(sccs, ordering)
        } else {
            ordering == relabel_all(sccs, states[states.len() - 1].perms, sccs.len() as int)
        })
}

/// What the first `k` candidates count is a matter of these alone.
proof fn lemma_times_before_prefix(
    one: Seq<Seq<Seq<usize>>>,
    other: Seq<Seq<Seq<usize>>>,
    i: int,
    a: usize,
    b: usize,
    k: int,
)
    requires
        k <= one.len(),
        k <= other.len(),
        forall|t: int| 0 <= t < k ==> one[t] == other[t],
    ensures
        times_before(one, i, a, b, k) == times_before(other, i, a, b, k),
    decreases k,
{
    if k > 0 {
        lemma_times_before_prefix(one, other, i, a, b, k - 1);
    }
}

/// No pair is counted more often than there are candidates.
proof fn lemma_times_before_bounded(cands: Seq<Seq<Seq<usize>>>, i: int, a: usize, b: usize, k: int)
    requires
        0 <= k,
    ensures
        0 <= times_before(cands, i, a, b, k) <= k,
    decreases k,
{
    if k > 0 {
        lemma_times_before_bounded(cands, i, a, b, k - 1);
    }
}

/// No count exceeds the number of candidates counted.
proof fn lemma_counts_bounded(
    sccs: Seq<SCC>,
    freqs: Seq<Vec<Vec<u64>>>,
    cands: Seq<Seq<Seq<usize>>>,
    k: int,
)
    requires
        0 <= k,
        counts_match(sccs, freqs, cands, k),
    ensures
        forall|i: int, a: usize, b: usize|
            0 <= i < sccs.len() && a < sccs[i].n && b < sccs[i].n ==> (
            #[trigger] freqs[i]@[a as int]@[b as int]) <= k,
{
    assert forall|i: int, a: usize, b: usize|
        0 <= i < sccs.len() && a < sccs[i].n && b < sccs[i].n implies (
    #[trigger] freqs[i]@[a as int]@[b as int]) <= k by {
        lemma_times_before_bounded(cands, i, a, b, k);
    }
}

/// Valid bests are below the value that says that nothing was recorded.
proof fn lemma_valid_below(sccs: Seq<SCC>, bestval: Seq<u64>, bestperm: Seq<Vec<usize>>, aborted: bool)
    requires
        all_wf(sccs),
        bests_valid(sccs, bestval, bestperm, aborted),
    ensures
        forall|i: int| 0 <= i < sccs.len() ==> (#[trigger] bestval[i]) < u64::MAX,
{
    assert forall|i: int| 0 <= i < sccs.len() implies (#[trigger] bestval[i]) < u64::MAX by {
        assert(sccs[i].wf());
        assert(is_permutation(bestperm[i]@, sccs[i].n as nat));
        lemma_eval_bounded(sccs[i].weights(), bestperm[i]@, sccs[i].n as nat);
    }
}

/// A candidate held against the bests is one more round of the first phase.
proof fn lemma_gather_round(
    sccs: Seq<SCC>,
    states: Seq<Bests>,
    cands: Seq<Seq<Seq<usize>>>,
    counted: int,
    freqs: Seq<Vec<Vec<u64>>>,
    perm: Seq<Vec<usize>>,
    old_val: Seq<u64>,
    old_perm: Seq<Vec<usize>>,
    new_val: Seq<u64>,
    new_perm: Seq<Vec<usize>>,
    aborted: bool,
)
    requires
        is_gathered(sccs, states, cands, counted, freqs, old_val, old_perm, false),
        is_candidate(sccs, orderings(perm), false),
        new_val.len() == sccs.len(),
        new_perm.len() == sccs.len(),
        forall|i: int|
            0 <= i < sccs.len() ==> recorded(
                eval(sccs[i].weights(), perm[i]@),
                old_val[i],
                old_perm[i]@,
                perm[i]@,
                #[trigger] new_val[i],
                new_perm[i]@,
            ) || (aborted && recorded(
                u64::MAX - 1,
                old_val[i],
                old_perm[i]@,
                perm[i]@,
                new_val[i],
                new_perm[i]@,
            )),
    ensures
        is_gathered(
            sccs,
            states.push(bests_of(new_val, new_perm)),
            cands.push(orderings(perm)),
            counted,
            freqs,
            new_val,
            new_perm,
            aborted,
        ),
{
    let next = bests_of(new_val, new_perm);
    let cand = orderings(perm);
    lemma_round(sccs, perm, old_val, old_perm, new_val, new_perm, aborted, false);
    lemma_improvement_push(sccs, states, cands, cand, next, aborted, false);
    assert(states.push(next)[0] == states[0]);
    assert forall|i: int, a: usize, b: usize|
        0 <= i < sccs.len() && a < sccs[i].n && b < sccs[i].n implies (
    #[trigger] freqs[i]@[a as int]@[b as int]) == times_before(cands.push(cand), i, a, b, counted) by {
        lemma_times_before_prefix(cands, cands.push(cand), i, a, b, counted);
    }
}

/// Counting the last candidate, where all before it were counted, counts
/// one more.
proof fn lemma_gather_count(
    sccs: Seq<SCC>,
    states: Seq<Bests>,
    cands: Seq<Seq<Seq<usize>>>,
    before: Seq<Vec<Vec<u64>>>,
    after: Seq<Vec<Vec<u64>>>,
    bestval: Seq<u64>,
    bestperm: Seq<Vec<usize>>,
    cut: bool,
)
    requires
        cands.len() > 0,
        is_gathered(sccs, states, cands, cands.len() - 1, before, bestval, bestperm, cut),
        after.len() == sccs.len(),
        forall|i: int|
            0 <= i < sccs.len() ==> is_square(matrix((#[trigger] after[i])@), sccs[i].n as nat),
        forall|i: int, a: usize, b: usize|
            0 <= i < sccs.len() && a < sccs[i].n && b < sccs[i].n ==> (
            #[trigger] after[i]@[a as int]@[b as int]) == bumped(
                before[i]@[a as int]@[b as int],
                precedes(cands[cands.len() - 1][i], a, b),
            ),
    ensures
        is_gathered(sccs, states, cands, cands.len() as int, after, bestval, bestperm, cut),
{
    assert forall|i: int, a: usize, b: usize|
        0 <= i < sccs.len() && a < sccs[i].n && b < sccs[i].n implies (
    #[trigger] after[i]@[a as int]@[b as int]) == times_before(cands, i, a, b, cands.len() as int) by {
        assert(before[i]@[a as int]@[b as int] == times_before(cands, i, a, b, cands.len() - 1));
    }
}

/// The ordering that `early_end` hands out is one that the first phase may
/// end with.
proof fn lemma_early_end(
    sccs: Seq<SCC>,
    states: Seq<Bests>,
    cands: Seq<Seq<Seq<usize>>>,
    ordering: Seq<usize>,
    perm: Seq<Vec<usize>>,
    bestval: Seq<u64>,
    bestperm: Seq<Vec<usize>>,
)
    requires
        is_improvement(sccs, states, cands, true, false),
        is_fresh(sccs, states[0]),
        states[states.len() - 1] == bests_of(bestval, bestperm),
        is_blockwise(sccs, ordering),
        cands.len() > 0 && sccs.len() > 0 ==> bestval[0] != u64::MAX,
        ordering == relabel_all(
            sccs,
            orderings(
                if sccs.len() == 0 || bestval[0] == u64::MAX {
                    perm
                } else {
                    bestperm
                },
            ),
            sccs.len() as int,
        ),
    ensures
        is_early_end(sccs, ordering),
{
    if cands.len() > 0 && sccs.len() == 0 {
        assert(ordering == relabel_all(sccs, states[states.len() - 1].perms, 0));
    }
}

/// Counts the candidate `perm` into the tables, component by component.
/// Returns `false`, with the count unfinished, once the flag is seen raised.
fn count_sample(
    sccs: &Vec<SCC>,
    freqs: &mut Vec<Vec<Vec<u64>>>,
    perm: &Vec<Vec<usize>>,
    abort: &mut AbortFlag,
) -> (done: bool)
    requires
        all_permutations(sccs@, perm@),
        old(freqs)@.len() == sccs@.len(),
        forall|i: int|
            0 <= i < sccs@.len() ==> is_square(
                matrix((#[trigger] old(freqs)@[i])@),
                sccs@[i].n as nat,
            ),
        forall|i: int, a: usize, b: usize|
            0 <= i < sccs@.len() && a < sccs@[i].n && b < sccs@[i].n ==> (
            #[trigger] old(freqs)@[i]@[a as int]@[b as int]) < u64::MAX,
    ensures
        old(abort).seen() ==> final(abort).seen(),
        !done ==> final(abort).seen(),
        final(freqs)@.len() == sccs@.len(),
        forall|i: int|
            0 <= i < sccs@.len() ==> is_square(
                matrix((#[trigger] final(freqs)@[i])@),
                sccs@[i].n as nat,
            ),
        done ==> forall|i: int, a: usize, b: usize|
            0 <= i < sccs@.len() && a < sccs@[i].n && b < sccs@[i].n ==> (
            #[trigger] final(freqs)@[i]@[a as int]@[b as int]) == bumped(
                old(freqs)@[i]@[a as int]@[b as int],
                precedes(perm@[i]@, a, b),
            ),
{
    let ghost start = freqs@;
    let mut i: usize = 0;
    while i < sccs.len()
        invariant
            0 <= i <= sccs.len(),
            all_permutations(sccs@, perm@),
            start == old(freqs)@,
            old(abort).seen() ==> abort.seen(),
            freqs@.len() == sccs@.len(),
            forall|k: int|
                0 <= k < sccs@.len() ==> is_square(matrix((#[trigger] freqs@[k])@), sccs@[k].n as nat),
            forall|k: int| i <= k < sccs@.len() ==> (#[trigger] freqs@[k]) == start[k],
            forall|k: int, a: usize, b: usize|
                i <= k < sccs@.len() && a < sccs@[k].n && b < sccs@[k].n ==> (
                #[trigger] start[k]@[a as int]@[b as int]) < u64::MAX,
            forall|k: int, a: usize, b: usize|
                0 <= k < i && a < sccs@[k].n && b < sccs@[k].n ==> (
                #[trigger] freqs@[k]@[a as int]@[b as int]) == bumped(
                    start[k]@[a as int]@[b as int],
                    precedes(perm@[k]@, a, b),
                ),
        decreases sccs.len() - i,
    {
        let ghost tables = freqs@;
        assert(is_square(matrix(tables[i as int]@), sccs@[i as int].n as nat));
        assert(is_permutation(perm@[i as int]@, sccs@[i as int].n as nat));
        assert(tables[i as int] == start[i as int]);
        assert forall|a: usize, b: usize|
            a < tables[i as int]@.len() && b < tables[i as int]@.len() implies (
        #[trigger] tables[i as int]@[a as int]@[b as int]) < u64::MAX by {
            assert(start[i as int]@[a as int]@[b as int] < u64::MAX);
        }
        let done = count_precedences(&mut freqs[i], &perm[i], abort);
        if !done {
            return false;
        }
        proof {
            assert forall|k: int, a: usize, b: usize|
                0 <= k < i + 1 && a < sccs@[k].n && b < sccs@[k].n implies (
            #[trigger] freqs@[k]@[a as int]@[b as int]) == bumped(
                start[k]@[a as int]@[b as int],
                precedes(perm@[k]@, a, b),
            ) by {
                if k < i {
                    assert(freqs@[k] == tables[k]);
                    assert(tables[k]@[a as int]@[b as int] == bumped(
                        start[k]@[a as int]@[b as int],
                        precedes(perm@[k]@, a, b),
                    ));
                }
            }
            assert forall|k: int| i + 1 <= k < sccs@.len() implies (#[trigger] freqs@[k])
                == start[k] by {
                assert(freqs@[k] == tables[k]);
            }
            assert forall|k: int| 0 <= k < sccs@.len() implies is_square(
                matrix((#[trigger] freqs@[k])@),
                sccs@[k].n as nat,
            ) by {
                if k != i {
                    assert(freqs@[k] == tables[k]);
                }
            }
        }
        i += 1;
    }
    true
}

/// The ordering to end the first phase with: the best orderings, or the
/// candidate in hand where nothing has been recorded yet.
fn early_end(
    sccs: &Vec<SCC>,
    perm: &Vec<Vec<usize>>,
    bestval: &Vec<u64>,
    bestperm: &Vec<Vec<usize>>,
) -> (ordering: Vec<usize>)
    requires
        all_wf(sccs@),
        all_permutations(sccs@, perm@),
        bestval@.len() == sccs@.len(),
        bests_fresh(sccs@, bestval@, bestperm@) || bests_valid(sccs@, bestval@, bestperm@, true),
    ensures
        is_blockwise(sccs@, ordering@),
        ordering@ == relabel_all(
            sccs@,
            orderings(
                if sccs@.len() == 0 || bestval@[0] == u64::MAX {
                    perm@
                } else {
                    bestperm@
                },
            ),
            sccs@.len() as int,
        ),
{
    if sccs.len() == 0 || bestval[0] == u64::MAX {
        proof {
            lemma_blockwise(sccs@, perm@);
        }
        map_to_original_labels(perm, sccs)
    } else {
        proof {
            lemma_not_fresh(sccs@, bestval@, bestperm@, true);
            lemma_blockwise(sccs@, bestperm@);
        }
        map_to_original_labels(bestperm, sccs)
    }
}

/// Draws a candidate and, unless the flag is seen raised by then, holds it
/// against the bests. Returns the candidate, and whether it was held.
fn draw(
    sccs: &Vec<SCC>,
    bestval: &mut Vec<u64>,
    bestperm: &mut Vec<Vec<usize>>,
    abort: &mut AbortFlag,
) -> (res: (Vec<Vec<usize>>, bool))
    requires
        all_wf(sccs@),
        bests_fresh(sccs@, old(bestval)@, old(bestperm)@) || bests_valid(
            sccs@,
            old(bestval)@,
            old(bestperm)@,
            old(abort).seen(),
        ),
        old(bestval)@.len() == sccs@.len(),
        old(bestperm)@.len() == sccs@.len(),
    ensures
        old(abort).seen() ==> final(abort).seen(),
        all_permutations(sccs@, res.0@),
        !res.1 ==> final(abort).seen() && final(bestval)@ == old(bestval)@ && final(bestperm)@ == old(
            bestperm,
        )@,
        res.1 ==> !old(abort).seen() && is_candidate(sccs@, orderings(res.0@), false) && bests_valid(
            sccs@,
            final(bestval)@,
            final(bestperm)@,
            final(abort).seen(),
        ),
        res.1 ==> final(bestval)@.len() == sccs@.len() && final(bestperm)@.len() == sccs@.len(),
        res.1 ==> forall|i: int|
            0 <= i < sccs@.len() ==> recorded(
                eval(sccs@[i].weights(), res.0@[i]@),
                old(bestval)@[i],
                old(bestperm)@[i]@,
                res.0@[i]@,
                #[trigger] final(bestval)@[i],
                final(bestperm)@[i]@,
            ) || (final(abort).seen() && recorded(
                u64::MAX - 1,
                old(bestval)@[i],
                old(bestperm)@[i]@,
                res.0@[i]@,
                final(bestval)@[i],
                final(bestperm)@[i]@,
            )),
{
    let perm = sample(sccs, abort);
    let ghost seen_after = abort.seen();
    if abort.poll() {
        return (perm, false);
    }
    let ghost old_val = bestval@;
    let ghost old_perm = bestperm@;
    proof {
        assert(!seen_after);
        let built = choose|built: Seq<Vec<usize>>|
            #[trigger] all_greedy(sccs@, built, seen_after) && all_climbed(sccs@, built, perm@);
        lemma_candidate(sccs@, built, perm@, false);
    }
    record_best(sccs, &perm, bestval, bestperm, abort);
    proof {
        lemma_recorded_valid(
            sccs@,
            perm@,
            old_val,
            old_perm,
            bestval@,
            bestperm@,
            false,
            abort.seen(),
        );
    }
    (perm, true)
}

/// The first phase: candidates are drawn for sixty seconds, by insertion
/// and the hillclimber; each is held against the best so far and counted.
/// With fewer than ten counted after that, more are drawn and held against
/// the best, uncounted, until the flag is seen raised. Returns what was
/// gathered. Once the flag is seen raised after a candidate was drawn, or
/// while one is counted, the ordering to end with is returned instead: the
/// best ordering recorded of each component; the candidate in hand is
/// dropped, unless nothing was recorded yet.
pub fn harvest(sccs: &Vec<SCC>, abort: &mut AbortFlag) -> (res: Result<Samples, Vec<usize>>)
    requires
        all_wf(sccs@),
    ensures
        old(abort).seen() ==> final(abort).seen(),
        match res {
            Ok(samples) => samples.wf(sccs@, final(abort).seen()) && is_harvest(
                sccs@,
                samples,
                final(abort).seen(),
            ),
            Err(ordering) => final(abort).seen() && is_blockwise(sccs@, ordering@) && is_early_end(
                sccs@,
                ordering@,
            ),
        },
{
    let start = Instant::now();
    let mut freqs = zero_counts(sccs);
    let mut bestval: Vec<u64> = vec![u64::MAX; sccs.len()];
    let mut bestperm: Vec<Vec<usize>> = vec![Vec::new(); sccs.len()];
    let mut cntruns: u64 = 0;
    let ghost mut states: Seq<Bests> = seq![bests_of(bestval@, bestperm@)];
    let ghost mut cands: Seq<Seq<Seq<usize>>> = Seq::empty();
    let ghost mut cut = false;
    while cntruns < u64::MAX && within_budget(&start)
        invariant
            all_wf(sccs@),
            old(abort).seen() ==> abort.seen(),
            cut ==> abort.seen(),
            cands.len() == cntruns,
            is_gathered(sccs@, states, cands, cntruns as int, freqs@, bestval@, bestperm@, cut),
            cands.len() == 0 ==> bests_fresh(sccs@, bestval@, bestperm@),
            cands.len() > 0 ==> bests_valid(sccs@, bestval@, bestperm@, abort.seen()),
        decreases u64::MAX - cntruns,
    {
        let ghost old_val = bestval@;
        let ghost old_perm = bestperm@;
        let ghost tables = freqs@;
        let (perm, held) = draw(sccs, &mut bestval, &mut bestperm, abort);
        if !held {
            proof {
                lemma_improvement_monotone(sccs@, states, cands, cut, true, false);
                if cands.len() > 0 {
                    lemma_valid_monotone(sccs@, bestval@, bestperm@, abort.seen(), true);
                    lemma_valid_below(sccs@, bestval@, bestperm@, true);
                }
            }
            let ordering = early_end(sccs, &perm, &bestval, &bestperm);
            proof {
                lemma_early_end(sccs@, states, cands, ordering@, perm@, bestval@, bestperm@);
            }
            return Err(ordering);
        }
        proof {
            lemma_gather_round(
                sccs@,
                states,
                cands,
                cntruns as int,
                tables,
                perm@,
                old_val,
                old_perm,
                bestval@,
                bestperm@,
                abort.seen(),
            );
            states = states.push(bests_of(bestval@, bestperm@));
            cands = cands.push(orderings(perm@));
            cut = abort.seen();
            lemma_counts_bounded(sccs@, tables, cands, cntruns as int);
        }
        let done = count_sample(sccs, &mut freqs, &perm, abort);
        if !done {
            proof {
                lemma_improvement_monotone(sccs@, states, cands, cut, true, false);
                lemma_valid_monotone(sccs@, bestval@, bestperm@, cut, true);
                lemma_valid_below(sccs@, bestval@, bestperm@, true);
            }
            let ordering = early_end(sccs, &perm, &bestval, &bestperm);
            proof {
                lemma_early_end(sccs@, states, cands, ordering@, perm@, bestval@, bestperm@);
            }
            return Err(ordering);
        }
        proof {
            assert(cands[cands.len() - 1] == orderings(perm@));
            lemma_gather_count(sccs@, states, cands, tables, freqs@, bestval@, bestperm@, cut);
            lemma_valid_monotone(sccs@, bestval@, bestperm@, cut, abort.seen());
        }
        cntruns += 1;
    }
    if cntruns < 10 {
        let mut rounds: u64 = 0;
        while rounds < u64::MAX
            invariant
                all_wf(sccs@),
                old(abort).seen() ==> abort.seen(),
                cut ==> abort.seen(),
                cands.len() == cntruns + rounds,
                is_gathered(sccs@, states, cands, cntruns as int, freqs@, bestval@, bestperm@, cut),
                cands.len() == 0 ==> bests_fresh(sccs@, bestval@, bestperm@),
                cands.len() > 0 ==> bests_valid(sccs@, bestval@, bestperm@, abort.seen()),
            ensures
                abort.seen() || rounds == u64::MAX,
            decreases u64::MAX - rounds,
        {
            if abort.poll() {
                break;
            }
            let ghost old_val = bestval@;
            let ghost old_perm = bestperm@;
            let (perm, held) = draw(sccs, &mut bestval, &mut bestperm, abort);
            if !held {
                proof {
                    lemma_improvement_monotone(sccs@, states, cands, cut, true, false);
                    if cands.len() > 0 {
                        lemma_valid_monotone(sccs@, bestval@, bestperm@, false, true);
                        lemma_valid_below(sccs@, bestval@, bestperm@, true);
                    }
                }
                let ordering = early_end(sccs, &perm, &bestval, &bestperm);
                proof {
                    lemma_early_end(sccs@, states, cands, ordering@, perm@, bestval@, bestperm@);
                }
                return Err(ordering);
            }
            proof {
                lemma_gather_round(
                    sccs@,
                    states,
                    cands,
                    cntruns as int,
                    freqs@,
                    perm@,
                    old_val,
                    old_perm,
                    bestval@,
                    bestperm@,
                    abort.seen(),
                );
                states = states.push(bests_of(bestval@, bestperm@));
                cands = cands.push(orderings(perm@));
                cut = abort.seen();
            }
            rounds += 1;
        }
    }
    if sccs.len() > 0 && bestval[0] == u64::MAX {
        // nothing was recorded: the flag came before the first candidate
        proof {
            if cands.len() > 0 {
                lemma_valid_below(sccs@, bestval@, bestperm@, abort.seen());
            }
            lemma_improvement_monotone(sccs@, states, cands, cut, true, false);
        }
        let perm = sample(sccs, abort);
        let ordering = early_end(sccs, &perm, &bestval, &bestperm);
        proof {
            lemma_early_end(sccs@, states, cands, ordering@, perm@, bestval@, bestperm@);
        }
        return Err(ordering);
    }
    proof {
        if sccs@.len() > 0 {
            lemma_not_fresh(sccs@, bestval@, bestperm@, abort.seen());
        } else {
            assert(bests_valid(sccs@, bestval@, bestperm@, abort.seen()));
        }
        lemma_counts_bounded(sccs@, freqs@, cands, cntruns as int);
        lemma_improvement_monotone(sccs@, states, cands, cut, abort.seen(), false);
    }
    let samples = Samples { freqs, cntruns, bestval, bestperm };
    proof {
        assert(is_gathered(
            sccs@,
            states,
            cands,
            samples.cntruns as int,
            samples.freqs@,
            samples.bestval@,
            samples.bestperm@,
            abort.seen(),
        ));
    }
    Ok(samples)
}

/// Bests of which the first value is not the initial one are valid.
proof fn lemma_not_fresh(sccs: Seq<SCC>, bestval: Seq<u64>, bestperm: Seq<Vec<usize>>, aborted: bool)
    requires
        all_wf(sccs),
        sccs.len() > 0,
        bestval[0] != u64::MAX,
        bests_fresh(sccs, bestval, bestperm) || bests_valid(sccs, bestval, bestperm, aborted),
    ensures
        bests_valid(sccs, bestval, bestperm, aborted),
{
}

/// Valid bests stay valid when the flag is seen raised.
proof fn lemma_valid_monotone(
    sccs: Seq<SCC>,
    bestval: Seq<u64>,
    bestperm: Seq<Vec<usize>>,
    was_aborted: bool,
    aborted: bool,
)
    requires
        bests_valid(sccs, bestval, bestperm, was_aborted),
        was_aborted ==> aborted,
    ensures
        bests_valid(sccs, bestval, bestperm, aborted),
{
}

/// Permutations of the components, one after the other under their labels,
/// order each component within itself.
pub proof fn lemma_blockwise(sccs: Seq<SCC>, perm: Seq<Vec<usize>>)
    requires
        all_wf(sccs),
        all_permutations(sccs, perm),
    ensures
        all_in_range(sccs, perm),
        is_blockwise(sccs, relabel_all(sccs, orderings(perm), sccs.len() as int)),
{
    assert(is_blockwise_by(
        sccs,
        orderings(perm),
        relabel_all(sccs, orderings(perm), sccs.len() as int),
    )) by {
        assert forall|i: int| 0 <= i < sccs.len() implies is_permutation(
            #[trigger] orderings(perm)[i],
            sccs[i].n as nat,
        ) by {
            assert(is_permutation(perm[i]@, sccs[i].n as nat));
        }
    }
    assert forall|i: int, k: int| 0 <= i < sccs.len() && 0 <= k < perm[i]@.len() implies (
    #[trigger] perm[i]@[k]) < sccs[i].labels@.len() by {
        assert(is_permutation(perm[i]@, sccs[i].n as nat));
        assert(sccs[i].wf());
    }
}

/// The count that a pair must exceed for its edge to be kept: a thirtieth
/// of the number of samples.
pub open spec fn threshold_of(cntruns: u64) -> u64 {
    cntruns / 30
}

/// Valid bests, with a split appended, are valid.
proof fn lemma_bests_append(
    fine: Seq<SCC>,
    vals: Seq<u64>,
    perms: Seq<Vec<usize>>,
    was_aborted: bool,
    scc: SCC,
    freq: Seq<Seq<u64>>,
    threshold: u64,
    best: Seq<usize>,
    sub_fine: Seq<SCC>,
    sub_vals: Seq<u64>,
    sub_perms: Seq<Vec<usize>>,
    aborted: bool,
)
    requires
        all_wf(fine),
        bests_valid(fine, vals, perms, was_aborted),
        was_aborted ==> aborted,
        is_split(scc, freq, threshold, best, sub_fine, sub_vals, sub_perms, aborted),
    ensures
        all_wf(fine + sub_fine),
        bests_valid(fine + sub_fine, vals + sub_vals, perms + sub_perms, aborted),
{
    let parts = components(kept_edges(scc.edges(), freq, threshold));
    let fine2 = fine + sub_fine;
    let vals2 = vals + sub_vals;
    let perms2 = perms + sub_perms;
    assert forall|k: int| 0 <= k < fine2.len() implies (#[trigger] fine2[k]).wf() by {
        if k < fine.len() {
            assert(fine[k].wf());
        } else {
            let c = k - fine.len();
            assert(is_part_of(sub_fine[c], scc, parts[c]) && sub_fine[c].wf());
        }
    }
    assert forall|k: int| 0 <= k < fine2.len() implies is_permutation(
        (#[trigger] perms2[k])@,
        fine2[k].n as nat,
    ) by {
        if k < fine.len() {
            assert(is_permutation(perms[k]@, fine[k].n as nat));
        } else {
            let c = k - fine.len();
            assert(is_part_of(sub_fine[c], scc, parts[c]) && sub_fine[c].wf());
            assert(crate::refine::is_seed(best, parts[c], sub_perms[c]@));
        }
    }
    assert forall|k: int| 0 <= k < fine2.len() implies (#[trigger] vals2[k]) == eval(
        fine2[k].weights(),
        perms2[k]@,
    ) || (aborted && vals2[k] == u64::MAX - 1) by {
        if k < fine.len() {
            assert(vals[k] == eval(fine[k].weights(), perms[k]@) || (was_aborted && vals[k]
                == u64::MAX - 1));
        } else {
            let c = k - fine.len();
            assert(sub_vals[c] == eval(sub_fine[c].weights(), sub_perms[c]@) || (aborted
                && sub_vals[c] == u64::MAX - 1));
        }
    }
}

/// The components of the second phase: each component falls into the
/// strongly connected components of those of its precedence edges whose pair
/// was counted in more than a thirtieth of the samples. Returns the parts,
/// those of one component after those of the one before, and for each the
/// ordering that the best ordering of its component gives its vertices,
/// with its cost.
pub fn refine_components(sccs: &Vec<SCC>, samples: &Samples, abort: &mut AbortFlag) -> (res: (
    Vec<SCC>,
    Vec<u64>,
    Vec<Vec<usize>>,
))
    requires
        all_wf(sccs@),
        samples.wf(sccs@, old(abort).seen()),
    ensures
        old(abort).seen() ==> final(abort).seen(),
        all_wf(res.0@),
        bests_valid(res.0@, res.1@, res.2@, final(abort).seen()),
        exists|starts: Seq<int>|
            #[trigger] is_refinement(
                sccs@,
                samples.freqs@,
                threshold_of(samples.cntruns),
                samples.bestperm@,
                res.0@,
                res.1@,
                res.2@,
                starts,
                sccs@.len() as int,
                final(abort).seen(),
            ),
{
    let threshold = samples.cntruns / 30;
    let mut fine: Vec<SCC> = Vec::new();
    let mut vals: Vec<u64> = Vec::new();
    let mut perms: Vec<Vec<usize>> = Vec::new();
    let ghost mut starts: Seq<int> = seq![0int];
    let mut i: usize = 0;
    while i < sccs.len()
        invariant
            0 <= i <= sccs.len(),
            all_wf(sccs@),
            threshold == threshold_of(samples.cntruns),
            samples.freqs@.len() == sccs@.len(),
            forall|k: int|
                0 <= k < sccs@.len() ==> is_square(
                    matrix((#[trigger] samples.freqs@[k])@),
                    sccs@[k].n as nat,
                ),
            all_permutations(sccs@, samples.bestperm@),
            old(abort).seen() ==> abort.seen(),
            all_wf(fine@),
            bests_valid(fine@, vals@, perms@, abort.seen()),
            is_refinement(
                sccs@,
                samples.freqs@,
                threshold,
                samples.bestperm@,
                fine@,
                vals@,
                perms@,
                starts,
                i as int,
                abort.seen(),
            ),
        decreases sccs.len() - i,
    {
        let scc = &sccs[i];
        assert(is_permutation(samples.bestperm@[i as int]@, scc.n as nat));
        let ghost was_seen = abort.seen();
        let (mut sub_fine, mut sub_vals, mut sub_perms) = split_component(
            scc,
            &samples.freqs[i],
            threshold,
            &samples.bestperm[i],
            abort,
        );
        proof {
            lemma_bests_append(
                fine@,
                vals@,
                perms@,
                was_seen,
                *scc,
                matrix(samples.freqs@[i as int]@),
                threshold,
                samples.bestperm@[i as int]@,
                sub_fine@,
                sub_vals@,
                sub_perms@,
                abort.seen(),
            );
            crate::refine::lemma_refinement_extend(
                sccs@,
                samples.freqs@,
                threshold,
                samples.bestperm@,
                fine@,
                vals@,
                perms@,
                starts,
                i as int,
                was_seen,
                sub_fine@,
                sub_vals@,
                sub_perms@,
                abort.seen(),
            );
            starts = starts.push((fine@.len() + sub_fine@.len()) as int);
        }
        fine.append(&mut sub_fine);
        vals.append(&mut sub_vals);
        perms.append(&mut sub_perms);
        i += 1;
    }
    assert(is_refinement(
        sccs@,
        samples.freqs@,
        threshold_of(samples.cntruns),
        samples.bestperm@,
        fine@,
        vals@,
        perms@,
        starts,
        sccs@.len() as int,
        abort.seen(),
    ));
    (fine, vals, perms)
}

/// The best value and the best ordering of each component.
pub struct Bests {
    pub vals: Seq<u64>,
    pub perms: Seq<Seq<usize>>,
}

/// The bests that the two vectors hold.
pub open spec fn bests_of(bestval: Seq<u64>, bestperm: Seq<Vec<usize>>) -> Bests {
    Bests { vals: bestval, perms: orderings(bestperm) }
}

/// `b` is what a candidate is made from: built by insertion with
/// interleaved improvement where `plus`, else by insertion alone, and
/// neither interrupted.
pub open spec fn is_base(w: Seq<Seq<u64>>, n: nat, b: Seq<usize>, plus: bool) -> bool {
    if plus {
        builds_to(w, n, b, false)
    } else {
        is_greedy_ordering(w, n, b, false)
    }
}

/// `c` is a candidate for a component with the weights `w`: a permutation
/// that the hillclimber, not interrupted, arrives at from a base; so, with
/// more than one vertex, after four full sweeps that gained nothing.
pub open spec fn is_candidate_for(w: Seq<Seq<u64>>, n: nat, c: Seq<usize>, plus: bool) -> bool {
    &&& is_permutation(c, n)
    &&& exists|b: Seq<usize>| #[trigger] is_base(w, n, b, plus) && climbs_to(w, b, c)
    &&& n != 1 ==> is_settled(w, n, c, QUIET_SWEEPS as nat)
}

/// `cand` holds a candidate for each component.
pub open spec fn is_candidate(sccs: Seq<SCC>, cand: Seq<Seq<usize>>, plus: bool) -> bool {
    &&& cand.len() == sccs.len()
    &&& forall|i: int|
        0 <= i < sccs.len() ==> is_candidate_for(
            sccs[i].weights(),
            sccs[i].n as nat,
            #[trigger] cand[i],
            plus,
        )
}

/// `after` is what holding the candidate `cand` against `before` leaves:
/// for each component the candidate where it costs strictly less, else what
/// was best. Where the round was `cut` short by the flag, `u64::MAX - 1` may
/// have stood in for the cost of the candidate: that leaves a component as
/// it was, unless nothing was recorded for it yet.
pub open spec fn is_round(
    sccs: Seq<SCC>,
    before: Bests,
    cand: Seq<Seq<usize>>,
    after: Bests,
    cut: bool,
    plus: bool,
) -> bool {
    &&& is_candidate(sccs, cand, plus)
    &&& before.vals.len() == sccs.len()
    &&& before.perms.len() == sccs.len()
    &&& after.vals.len() == sccs.len()
    &&& after.perms.len() == sccs.len()
    &&& forall|i: int|
        0 <= i < sccs.len() ==> recorded(
            eval(sccs[i].weights(), cand[i]),
            before.vals[i],
            before.perms[i],
            cand[i],
            #[trigger] after.vals[i],
            after.perms[i],
        ) || (cut && recorded(
            u64::MAX - 1,
            before.vals[i],
            before.perms[i],
            cand[i],
            after.vals[i],
            after.perms[i],
        ))
}

/// Each state of `states` comes from the one before by a round with the
/// candidate of the same number; only the last round may have been `cut`
/// short.
pub open spec fn is_improvement(
    sccs: Seq<SCC>,
    states: Seq<Bests>,
    cands: Seq<Seq<Seq<usize>>>,
    cut: bool,
    plus: bool,
) -> bool {
    &&& states.len() == cands.len() + 1
    &&& forall|r: int|
        0 <= r < cands.len() ==> is_round(
            sccs,
            #[trigger] states[r],
            cands[r],
            states[r + 1],
            cut && r == cands.len() - 1,
            plus,
        )
}

/// `after` is what the second phase makes of `before`: candidates, made by
/// insertion with interleaved improvement, were held against the bests, one
/// after the other, until the flag was seen raised, or until as many were
/// held as a `u64` counts.
pub open spec fn improves_to(sccs: Seq<SCC>, before: Bests, after: Bests, aborted: bool) -> bool {
    exists|states: Seq<Bests>, cands: Seq<Seq<Seq<usize>>>|
        #[trigger] is_improvement(sccs, states, cands, aborted, true) && states[0] == before
            && states[states.len() - 1] == after && (aborted || cands.len() == u64::MAX)
}

/// What `sample_plus`, or `sample` where not `plus`, returns when the flag
/// was not seen is a candidate.
proof fn lemma_candidate(sccs: Seq<SCC>, built: Seq<Vec<usize>>, perm: Seq<Vec<usize>>, plus: bool)
    requires
        all_permutations(sccs, perm),
        if plus {
            all_built(sccs, built, false)
        } else {
            all_greedy(sccs, built, false)
        },
        all_climbed(sccs, built, perm),
        all_settled(sccs, perm, QUIET_SWEEPS as nat),
    ensures
        is_candidate(sccs, orderings(perm), plus),
{
    assert forall|i: int| 0 <= i < sccs.len() implies is_candidate_for(
        sccs[i].weights(),
        sccs[i].n as nat,
        #[trigger] orderings(perm)[i],
        plus,
    ) by {
        assert(is_permutation(perm[i]@, sccs[i].n as nat));
        assert(is_base(sccs[i].weights(), sccs[i].n as nat, built[i]@, plus));
        assert(climbs_to(sccs[i].weights(), built[i]@, perm[i]@));
        if sccs[i].n != 1 {
            assert(is_settled(sccs[i].weights(), sccs[i].n as nat, perm[i]@, QUIET_SWEEPS as nat));
        }
    }
}

/// What `record_best` leaves is a round.
proof fn lemma_round(
    sccs: Seq<SCC>,
    perm: Seq<Vec<usize>>,
    old_val: Seq<u64>,
    old_perm: Seq<Vec<usize>>,
    new_val: Seq<u64>,
    new_perm: Seq<Vec<usize>>,
    aborted: bool,
    plus: bool,
)
    requires
        is_candidate(sccs, orderings(perm), plus),
        old_val.len() == sccs.len(),
        old_perm.len() == sccs.len(),
        new_val.len() == sccs.len(),
        new_perm.len() == sccs.len(),
        forall|i: int|
            0 <= i < sccs.len() ==> recorded(
                eval(sccs[i].weights(), perm[i]@),
                old_val[i],
                old_perm[i]@,
                perm[i]@,
                #[trigger] new_val[i],
                new_perm[i]@,
            ) || (aborted && recorded(
                u64::MAX - 1,
                old_val[i],
                old_perm[i]@,
                perm[i]@,
                new_val[i],
                new_perm[i]@,
            )),
    ensures
        is_round(
            sccs,
            bests_of(old_val, old_perm),
            orderings(perm),
            bests_of(new_val, new_perm),
            aborted,
            plus,
        ),
{
    let before = bests_of(old_val, old_perm);
    let after = bests_of(new_val, new_perm);
    let cand = orderings(perm);
    assert forall|i: int| 0 <= i < sccs.len() implies recorded(
        eval(sccs[i].weights(), cand[i]),
        before.vals[i],
        before.perms[i],
        cand[i],
        #[trigger] after.vals[i],
        after.perms[i],
    ) || (aborted && recorded(
        u64::MAX - 1,
        before.vals[i],
        before.perms[i],
        cand[i],
        after.vals[i],
        after.perms[i],
    )) by {
        assert(recorded(
            eval(sccs[i].weights(), perm[i]@),
            old_val[i],
            old_perm[i]@,
            perm[i]@,
            new_val[i],
            new_perm[i]@,
        ) || (aborted && recorded(
            u64::MAX - 1,
            old_val[i],
            old_perm[i]@,
            perm[i]@,
            new_val[i],
            new_perm[i]@,
        )));
    }
}

/// A round stays one when it may have been cut short.
proof fn lemma_round_monotone(
    sccs: Seq<SCC>,
    before: Bests,
    cand: Seq<Seq<usize>>,
    after: Bests,
    was_cut: bool,
    cut: bool,
    plus: bool,
)
    requires
        is_round(sccs, before, cand, after, was_cut, plus),
        was_cut ==> cut,
    ensures
        is_round(sccs, before, cand, after, cut, plus),
{
}

/// An improvement stays one once the flag is seen raised.
proof fn lemma_improvement_monotone(
    sccs: Seq<SCC>,
    states: Seq<Bests>,
    cands: Seq<Seq<Seq<usize>>>,
    was_cut: bool,
    cut: bool,
    plus: bool,
)
    requires
        is_improvement(sccs, states, cands, was_cut, plus),
        was_cut ==> cut,
    ensures
        is_improvement(sccs, states, cands, cut, plus),
{
    assert forall|r: int| 0 <= r < cands.len() implies is_round(
        sccs,
        #[trigger] states[r],
        cands[r],
        states[r + 1],
        cut && r == cands.len() - 1,
        plus,
    ) by {
        lemma_round_monotone(
            sccs,
            states[r],
            cands[r],
            states[r + 1],
            was_cut && r == cands.len() - 1,
            cut && r == cands.len() - 1,
            plus,
        );
    }
}

/// One more round goes on an improvement of which no round was cut short.
proof fn lemma_improvement_push(
    sccs: Seq<SCC>,
    states: Seq<Bests>,
    cands: Seq<Seq<Seq<usize>>>,
    cand: Seq<Seq<usize>>,
    next: Bests,
    cut: bool,
    plus: bool,
)
    requires
        is_improvement(sccs, states, cands, false, plus),
        is_round(sccs, states[states.len() - 1], cand, next, cut, plus),
    ensures
        is_improvement(sccs, states.push(next), cands.push(cand), cut, plus),
{
    let states2 = states.push(next);
    let cands2 = cands.push(cand);
    assert forall|r: int| 0 <= r < cands2.len() implies is_round(
        sccs,
        #[trigger] states2[r],
        cands2[r],
        states2[r + 1],
        cut && r == cands2.len() - 1,
        plus,
    ) by {
        if r < cands.len() {
            assert(is_round(sccs, states[r], cands[r], states[r + 1], false, plus));
            assert(states2[r] == states[r] && states2[r + 1] == states[r + 1]);
            assert(cands2[r] == cands[r]);
        } else {
            assert(states2[r] == states[states.len() - 1]);
            assert(states2[r + 1] == next);
            assert(cands2[r] == cand);
        }
    }
}

/// The second phase: candidates for the components are drawn, by insertion
/// with interleaved improvement and hillclimbing, and held against the best
/// so far, one after the other, until the flag is seen raised; it is polled
/// before each candidate is drawn and before it is held against the bests.
/// No best value ever goes up.
pub fn improve(
    sccs: &Vec<SCC>,
    bestval: &mut Vec<u64>,
    bestperm: &mut Vec<Vec<usize>>,
    abort: &mut AbortFlag,
)
    requires
        all_wf(sccs@),
        bests_valid(sccs@, old(bestval)@, old(bestperm)@, old(abort).seen()),
    ensures
        old(abort).seen() ==> final(abort).seen(),
        bests_valid(sccs@, final(bestval)@, final(bestperm)@, final(abort).seen()),
        forall|i: int| 0 <= i < sccs@.len() ==> (#[trigger] final(bestval)@[i]) <= old(bestval)@[i],
        improves_to(
            sccs@,
            bests_of(old(bestval)@, old(bestperm)@),
            bests_of(final(bestval)@, final(bestperm)@),
            final(abort).seen(),
        ),
{
    let mut rounds: u64 = 0;
    let ghost mut states: Seq<Bests> = seq![bests_of(bestval@, bestperm@)];
    let ghost mut cands: Seq<Seq<Seq<usize>>> = Seq::empty();
    let ghost mut cut = false;
    while rounds < u64::MAX
        invariant
            all_wf(sccs@),
            old(abort).seen() ==> abort.seen(),
            old(bestval)@.len() == sccs@.len(),
            bests_valid(sccs@, bestval@, bestperm@, abort.seen()),
            forall|i: int| 0 <= i < sccs@.len() ==> (#[trigger] bestval@[i]) <= old(bestval)@[i],
            cut ==> abort.seen(),
            cands.len() == rounds,
            is_improvement(sccs@, states, cands, cut, true),
            states[0] == bests_of(old(bestval)@, old(bestperm)@),
            states[states.len() - 1] == bests_of(bestval@, bestperm@),
        ensures
            abort.seen() || rounds == u64::MAX,
        decreases u64::MAX - rounds,
    {
        if abort.poll() {
            break;
        }
        let perm = sample_plus(sccs, abort);
        let ghost seen_after = abort.seen();
        if abort.poll() {
            break;
        }
        let ghost old_val = bestval@;
        let ghost old_perm = bestperm@;
        proof {
            assert(!seen_after);
            let built = choose|built: Seq<Vec<usize>>|
                #[trigger] all_built(sccs@, built, seen_after) && all_climbed(sccs@, built, perm@);
            lemma_candidate(sccs@, built, perm@, true);
        }
        record_best(sccs, &perm, bestval, bestperm, abort);
        proof {
            lemma_recorded_valid(
                sccs@,
                perm@,
                old_val,
                old_perm,
                bestval@,
                bestperm@,
                false,
                abort.seen(),
            );
            assert forall|i: int| 0 <= i < sccs@.len() implies (#[trigger] bestval@[i]) <= old(
                bestval,
            )@[i] by {
                assert(bestval@[i] <= old_val[i]);
            }
            lemma_round(sccs@, perm@, old_val, old_perm, bestval@, bestperm@, abort.seen(), true);
            lemma_improvement_push(
                sccs@,
                states,
                cands,
                orderings(perm@),
                bests_of(bestval@, bestperm@),
                abort.seen(),
                true,
            );
            states = states.push(bests_of(bestval@, bestperm@));
            cands = cands.push(orderings(perm@));
            cut = abort.seen();
        }
        rounds += 1;
    }
    proof {
        lemma_improvement_monotone(sccs@, states, cands, cut, abort.seen(), true);
    }
}

/// `ordering` is what both phases arrive at: `samples` is what the first
/// gathers; `fine`, with `vals` and `perms`, are the parts into which the
/// components fall after it, each with the ordering that the best ordering
/// of its component gives it; `after` is what the second phase makes of
/// these; and `ordering` holds the orderings of `after`, one part after the
/// other, each vertex under its label.
pub open spec fn is_run(
    sccs: Seq<SCC>,
    samples: Samples,
    fine: Seq<SCC>,
    vals: Seq<u64>,
    perms: Seq<Vec<usize>>,
    starts: Seq<int>,
    after: Bests,
    ordering: Seq<usize>,
    aborted: bool,
) -> bool {
    &&& is_harvest(sccs, samples, aborted)
    &&& is_refinement(
        sccs,
        samples.freqs@,
        threshold_of(samples.cntruns),
        samples.bestperm@,
        fine,
        vals,
        perms,
        starts,
        sccs.len() as int,
        aborted,
    )
    &&& improves_to(fine, bests_of(vals, perms), after, aborted)
    &&& ordering == relabel_all(fine, after.perms, fine.len() as int)
}

/// `ordering` is what the heuristic returns when the flag does not cut its
/// first phase short.
pub open spec fn is_full_run(sccs: Seq<SCC>, ordering: Seq<usize>, aborted: bool) -> bool {
    exists|
        samples: Samples,
        fine: Seq<SCC>,
        vals: Seq<u64>,
        perms: Seq<Vec<usize>>,
        starts: Seq<int>,
        after: Bests,
    | #[trigger]
        is_run(sccs, samples, fine, vals, perms, starts, after, ordering, aborted)
}

/// What the first phase gathered stays so once the flag is seen raised.
proof fn lemma_harvest_monotone(sccs: Seq<SCC>, samples: Samples, was_aborted: bool, aborted: bool)
    requires
        is_harvest(sccs, samples, was_aborted),
        was_aborted ==> aborted,
    ensures
        is_harvest(sccs, samples, aborted),
{
    let (states, cands) = choose|states: Seq<Bests>, cands: Seq<Seq<Seq<usize>>>|
        #[trigger] is_gathered(
            sccs,
            states,
            cands,
            samples.cntruns as int,
            samples.freqs@,
            samples.bestval@,
            samples.bestperm@,
            was_aborted,
        ) && (was_aborted || samples.cntruns >= 10 || cands.len() - samples.cntruns == u64::MAX);
    lemma_improvement_monotone(sccs, states, cands, was_aborted, aborted, false);
    assert(is_gathered(
        sccs,
        states,
        cands,
        samples.cntruns as int,
        samples.freqs@,
        samples.bestval@,
        samples.bestperm@,
        aborted,
    ));
}

/// A refinement stays one once the flag is seen raised.
proof fn lemma_refinement_monotone(
    sccs: Seq<SCC>,
    freqs: Seq<Vec<Vec<u64>>>,
    threshold: u64,
    best: Seq<Vec<usize>>,
    fine: Seq<SCC>,
    vals: Seq<u64>,
    perms: Seq<Vec<usize>>,
    starts: Seq<int>,
    was_aborted: bool,
    aborted: bool,
)
    requires
        is_refinement(
            sccs,
            freqs,
            threshold,
            best,
            fine,
            vals,
            perms,
            starts,
            sccs.len() as int,
            was_aborted,
        ),
        was_aborted ==> aborted,
    ensures
        is_refinement(sccs, freqs, threshold, best, fine, vals, perms, starts, sccs.len() as int, aborted),
{
    assert forall|i: int| 0 <= i < sccs.len() implies #[trigger] crate::refine::block_is_split(
        sccs[i],
        matrix(freqs[i]@),
        threshold,
        best[i]@,
        fine,
        vals,
        perms,
        starts[i],
        starts[i + 1],
        aborted,
    ) by {
        assert(crate::refine::block_is_split(
            sccs[i],
            matrix(freqs[i]@),
            threshold,
            best[i]@,
            fine,
            vals,
            perms,
            starts[i],
            starts[i + 1],
            was_aborted,
        ));
        crate::refine::lemma_split_monotone(
            sccs[i],
            matrix(freqs[i]@),
            threshold,
            best[i]@,
            fine.subrange(starts[i], starts[i + 1]),
            vals.subrange(starts[i], starts[i + 1]),
            perms.subrange(starts[i], starts[i + 1]),
            was_aborted,
            aborted,
        );
    }
}

/// Orders the free side component by component. Candidates are drawn for a
/// minute, by insertion and hillclimbing; the components are then split
/// along the precedence edges that the candidates bear out, and the parts
/// are improved, by insertion with interleaved improvement and hillclimbing,
/// until the flag is raised. Returns the best ordering found of each part,
/// one part after the other, each vertex under its label: the components
/// stay in their order, and each is ordered within itself. Where the flag
/// cuts the first phase short, the best ordering recorded of each component
/// is returned, as it stands.
pub fn sifting_heuristic(_g: &BipartiteGraph, sccs: &Vec<SCC>, abort: &mut AbortFlag) -> (ordering:
    Vec<usize>)
    requires
        all_wf(sccs@),
    ensures
        old(abort).seen() ==> final(abort).seen(),
        is_blockwise(sccs@, ordering@),
        (final(abort).seen() && is_early_end(sccs@, ordering@)) || is_full_run(
            sccs@,
            ordering@,
            final(abort).seen(),
        ),
{
    match harvest(sccs, abort) {
        Err(ordering) => ordering,
        Ok(samples) => {
            let ghost first = abort.seen();
            let (newsccs, mut bestval, mut bestperm) = refine_components(sccs, &samples, abort);
            let ghost second = abort.seen();
            let ghost vals = bestval@;
            let ghost perms = bestperm@;
            let ghost starts = choose|starts: Seq<int>|
                #[trigger] is_refinement(
                    sccs@,
                    samples.freqs@,
                    threshold_of(samples.cntruns),
                    samples.bestperm@,
                    newsccs@,
                    bestval@,
                    bestperm@,
                    starts,
                    sccs@.len() as int,
                    abort.seen(),
                );
            let ghost parts = crate::refine::all_parts(
                sccs@,
                samples.freqs@,
                threshold_of(samples.cntruns),
                sccs@.len() as int,
            );
            proof {
                crate::refine::lemma_refinement_refines(
                    sccs@,
                    samples.freqs@,
                    threshold_of(samples.cntruns),
                    samples.bestperm@,
                    newsccs@,
                    bestval@,
                    bestperm@,
                    starts,
                    sccs@.len() as int,
                    abort.seen(),
                );
            }
            improve(&newsccs, &mut bestval, &mut bestperm, abort);
            proof {
                lemma_blockwise(newsccs@, bestperm@);
                assert forall|c: int| 0 <= c < newsccs@.len() implies is_permutation(
                    #[trigger] orderings(bestperm@)[c],
                    newsccs@[c].n as nat,
                ) by {
                    assert(is_permutation(bestperm@[c]@, newsccs@[c].n as nat));
                }
                lemma_refined_blockwise(sccs@, newsccs@, starts, parts, orderings(bestperm@));
                lemma_harvest_monotone(sccs@, samples, first, abort.seen());
                lemma_refinement_monotone(
                    sccs@,
                    samples.freqs@,
                    threshold_of(samples.cntruns),
                    samples.bestperm@,
                    newsccs@,
                    vals,
                    perms,
                    starts,
                    second,
                    abort.seen(),
                );
            }
            let ordering = map_to_original_labels(&bestperm, &newsccs);
            proof {
                assert(is_run(
                    sccs@,
                    samples,
                    newsccs@,
                    vals,
                    perms,
                    starts,
                    bests_of(bestval@, bestperm@),
                    ordering@,
                    abort.seen(),
                ));
            }
            ordering
        },
    }
}

} // verus!
