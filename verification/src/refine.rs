//! From sampled orderings to finer components: how often one vertex stood
//! before another, the edges that were seen often enough, and the parts into
//! which a component falls along them.

use vstd::prelude::*;
use crate::cost::{
    adjacency, eval, is_square, lemma_picked_bounded, lemma_seq_sum_is_picked,
    lemma_seq_sum_pointwise, matrix, row, row_totals, total,
};
use crate::global_abort::AbortFlag;
use crate::graph::{components, compute_sccs, is_graph};
use crate::permutation::{
    in_range, is_arrangement, is_permutation, lemma_arrangement_length, lemma_permutation_contains,
    lemma_rearranged_permutation, lemma_remove_keeps_arrangement,
};
use crate::scc::SCC;
use crate::sifting::{
    eval_ordering_scc, is_blockwise, is_blockwise_by, relabel, relabel_all, relabel_range,
};
use crate::sorting::{is_stable_order, ranks_before, stable_order, Fraction};
use crate::traversal::{concat_range, lemma_components_partition};

verus! {

/// `a` stands somewhere before `b` in `perm`.
pub open spec fn precedes(perm: Seq<usize>, a: usize, b: usize) -> bool {
    exists|j: int, k: int| 0 <= j < k < perm.len() && perm[j] == a && perm[k] == b
}

/// `a` stands at a position `j2` before `b` at a position `k2`, and the pair
/// of positions comes before `(j, k)`.
pub open spec fn counted(perm: Seq<usize>, a: usize, b: usize, j: int, k: int) -> bool {
    exists|j2: int, k2: int|
        0 <= j2 < k2 < perm.len() && perm[j2] == a && perm[k2] == b && (j2 < j || (j2 == j && k2
            < k))
}

/// One more than `x` where `hit`, else `x`.
pub open spec fn bumped(x: u64, hit: bool) -> int {
    if hit {
        x + 1
    } else {
        x as int
    }
}

/// Adds one to `freq[a][b]` for every pair of vertices of which `a` stands
/// before `b` in `perm`. The flag is polled once for each position; once it
/// is seen raised, the count stops and `false` is returned.
pub fn count_precedences(freq: &mut Vec<Vec<u64>>, perm: &Vec<usize>, abort: &mut AbortFlag) -> (done:
    bool)
    requires
        is_permutation(perm@, old(freq)@.len()),
        is_square(matrix(old(freq)@), old(freq)@.len()),
        forall|a: usize, b: usize|
            a < old(freq)@.len() && b < old(freq)@.len() ==> (
            #[trigger] old(freq)@[a as int]@[b as int]) < u64::MAX,
    ensures
        old(abort).seen() ==> final(abort).seen(),
        done == !(final(abort).seen() && perm@.len() > 0),
        is_square(matrix(final(freq)@), old(freq)@.len()),
        forall|a: usize, b: usize|
            a < old(freq)@.len() && b < old(freq)@.len() ==> old(freq)@[a as int]@[b as int] <= (
            #[trigger] final(freq)@[a as int]@[b as int]) <= old(freq)@[a as int]@[b as int] + 1,
        done ==> forall|a: usize, b: usize|
            a < old(freq)@.len() && b < old(freq)@.len() ==> (
            #[trigger] final(freq)@[a as int]@[b as int]) == bumped(
                old(freq)@[a as int]@[b as int],
                precedes(perm@, a, b),
            ),
{
    let n = perm.len();
    let ghost before = freq@;
    let mut j: usize = 0;
    proof {
        assert forall|a: usize, b: usize| a < n && b < n implies !#[trigger] counted(
            perm@,
            a,
            b,
            0,
            0,
        ) by {}
    }
    while j < n
        invariant
            0 <= j <= n,
            n == perm@.len(),
            n == before.len(),
            before == old(freq)@,
            is_permutation(perm@, n as nat),
            is_square(matrix(before), n as nat),
            is_square(matrix(freq@), n as nat),
            old(abort).seen() ==> abort.seen(),
            abort.seen() ==> j == 0,
            forall|a: usize, b: usize|
                a < n && b < n ==> (#[trigger] before[a as int]@[b as int]) < u64::MAX,
            forall|a: usize, b: usize|
                a < n && b < n ==> (#[trigger] freq@[a as int]@[b as int]) == bumped(
                    before[a as int]@[b as int],
                    counted(perm@, a, b, j as int, 0),
                ),
        decreases n - j,
    {
        if abort.poll() {
            return false;
        }
        let mut k: usize = j + 1;
        proof {
            assert forall|a: usize, b: usize| a < n && b < n implies counted(
                perm@,
                a,
                b,
                j as int,
                0,
            ) == #[trigger] counted(perm@, a, b, j as int, k as int) by {
                if counted(perm@, a, b, j as int, k as int) {
                    let (j2, k2) = choose|j2: int, k2: int|
                        0 <= j2 < k2 < perm@.len() && perm@[j2] == a && perm@[k2] == b && (j2 < j
                            || (j2 == j && k2 < k));
                    assert(j2 < j);
                }
            }
            assert forall|a: usize, b: usize| a < n && b < n implies (
            #[trigger] freq@[a as int]@[b as int]) == bumped(
                before[a as int]@[b as int],
                counted(perm@, a, b, j as int, k as int),
            ) by {
                assert(counted(perm@, a, b, j as int, 0) == counted(perm@, a, b, j as int, k as int));
            }
        }
        while k < n
            invariant
                0 <= j < k <= n,
                n == perm@.len(),
                n == before.len(),
                is_permutation(perm@, n as nat),
                is_square(matrix(before), n as nat),
                is_square(matrix(freq@), n as nat),
                forall|a: usize, b: usize|
                    a < n && b < n ==> (#[trigger] before[a as int]@[b as int]) < u64::MAX,
                forall|a: usize, b: usize|
                    a < n && b < n ==> (#[trigger] freq@[a as int]@[b as int]) == bumped(
                        before[a as int]@[b as int],
                        counted(perm@, a, b, j as int, k as int),
                    ),
            decreases n - k,
        {
            let a0 = perm[j];
            let b0 = perm[k];
            let ghost cur = freq@;
            proof {
                assert(matrix(freq@)[a0 as int].len() == n);
                if counted(perm@, a0, b0, j as int, k as int) {
                    let (j2, k2) = choose|j2: int, k2: int|
                        0 <= j2 < k2 < perm@.len() && perm@[j2] == a0 && perm@[k2] == b0 && (j2 < j
                            || (j2 == j && k2 < k));
                    assert(j2 == j);
                    assert(k2 == k);
                }
                assert(cur[a0 as int]@[b0 as int] == before[a0 as int]@[b0 as int]);
            }
            let x = freq[a0][b0] + 1;
            freq[a0][b0] = x;
            proof {
                assert forall|a: usize, b: usize| a < n && b < n implies (
                #[trigger] freq@[a as int]@[b as int]) == bumped(
                    before[a as int]@[b as int],
                    counted(perm@, a, b, j as int, k + 1),
                ) by {
                    let was = counted(perm@, a, b, j as int, k as int);
                    let is = counted(perm@, a, b, j as int, k + 1);
                    assert(matrix(cur)[a as int].len() == n);
                    assert(cur[a as int]@[b as int] == bumped(before[a as int]@[b as int], was));
                    if a == a0 && b == b0 {
                        assert(0 <= j < k < perm@.len() && perm@[j as int] == a0 && perm@[k as int]
                            == b0 && (j < j || (j == j && k < k + 1)));
                        assert(is);
                    } else {
                        if is {
                            let (j2, k2) = choose|j2: int, k2: int|
                                0 <= j2 < k2 < perm@.len() && perm@[j2] == a && perm@[k2] == b && (
                                j2 < j || (j2 == j && k2 < k + 1));
                            assert(j2 < j || (j2 == j && k2 < k));
                            assert(was);
                        }
                        if was {
                            let (j2, k2) = choose|j2: int, k2: int|
                                0 <= j2 < k2 < perm@.len() && perm@[j2] == a && perm@[k2] == b && (
                                j2 < j || (j2 == j && k2 < k));
                            assert(j2 < j || (j2 == j && k2 < k + 1));
                            assert(is);
                        }
                    }
                }
                assert(is_square(matrix(freq@), n as nat)) by {
                    assert forall|i: int| 0 <= i < n implies (#[trigger] matrix(freq@)[i]).len()
                        == n by {
                        assert(matrix(cur)[i].len() == n);
                    }
                }
            }
            k += 1;
        }
        proof {
            assert forall|a: usize, b: usize| a < n && b < n implies (
            #[trigger] freq@[a as int]@[b as int]) == bumped(
                before[a as int]@[b as int],
                counted(perm@, a, b, j + 1, 0),
            ) by {
                if counted(perm@, a, b, j as int, n as int) {
                    let (j2, k2) = choose|j2: int, k2: int|
                        0 <= j2 < k2 < perm@.len() && perm@[j2] == a && perm@[k2] == b && (j2 < j
                            || (j2 == j && k2 < n));
                    assert(j2 < j + 1 || (j2 == j + 1 && k2 < 0));
                }
                if counted(perm@, a, b, j + 1, 0) {
                    let (j2, k2) = choose|j2: int, k2: int|
                        0 <= j2 < k2 < perm@.len() && perm@[j2] == a && perm@[k2] == b && (j2 < j
                            + 1 || (j2 == j + 1 && k2 < 0));
                    assert(j2 < j || (j2 == j && k2 < n));
                }
            }
        }
        j += 1;
    }
    proof {
        assert forall|a: usize, b: usize| a < n && b < n implies (
        #[trigger] freq@[a as int]@[b as int]) == bumped(
            before[a as int]@[b as int],
            precedes(perm@, a, b),
        ) by {
            if precedes(perm@, a, b) {
                let (j2, k2) = choose|j2: int, k2: int|
                    0 <= j2 < k2 < perm@.len() && perm@[j2] == a && perm@[k2] == b;
                assert(j2 < n || (j2 == n && k2 < 0));
            }
        }
    }
    true
}

/// The first `k` neighbours of `row` that were counted more than
/// `threshold` times in `counts`.
pub open spec fn kept_row(row: Seq<usize>, counts: Seq<u64>, threshold: u64, k: int) -> Seq<usize>
    decreases k,
{
    if k <= 0 {
        Seq::empty()
    } else if counts[row[k - 1] as int] > threshold {
        kept_row(row, counts, threshold, k - 1).push(row[k - 1])
    } else {
        kept_row(row, counts, threshold, k - 1)
    }
}

/// The edges `(j, k)` of `g` with `freq[j][k] > threshold`, each adjacency
/// list in its order.
pub open spec fn kept_edges(g: Seq<Seq<usize>>, freq: Seq<Seq<u64>>, threshold: u64) -> Seq<
    Seq<usize>,
> {
    Seq::new(g.len(), |j: int| kept_row(g[j], freq[j], threshold, g[j].len() as int))
}

/// What `kept_row` keeps was there before.
proof fn lemma_kept_row_in_range(row: Seq<usize>, counts: Seq<u64>, threshold: u64, k: int, n: nat)
    requires
        0 <= k <= row.len(),
        in_range(row, n),
    ensures
        in_range(kept_row(row, counts, threshold, k), n),
    decreases k,
{
    if k > 0 {
        lemma_kept_row_in_range(row, counts, threshold, k - 1, n);
    }
}

/// The precedence edges `(j, k)` of the component whose pair was counted
/// more than `threshold` times.
pub fn frequent_edges(scc: &SCC, freq: &Vec<Vec<u64>>, threshold: u64) -> (h: Vec<Vec<usize>>)
    requires
        scc.wf(),
        is_square(matrix(freq@), scc.n as nat),
    ensures
        adjacency(h@) == kept_edges(scc.edges(), matrix(freq@), threshold),
        is_graph(adjacency(h@)),
        h@.len() == scc.n,
{
    let n = scc.n;
    let mut h: Vec<Vec<usize>> = Vec::new();
    let mut j: usize = 0;
    while j < n
        invariant
            0 <= j <= n,
            n == scc.n,
            scc.wf(),
            is_square(matrix(freq@), n as nat),
            h@.len() == j,
            forall|i: int|
                0 <= i < j ==> (#[trigger] h@[i])@ == kept_row(
                    scc.edges()[i],
                    matrix(freq@)[i],
                    threshold,
                    scc.edges()[i].len() as int,
                ),
            forall|i: int| 0 <= i < j ==> in_range((#[trigger] h@[i])@, n as nat),
        decreases n - j,
    {
        let row = &scc.g[j];
        let counts = &freq[j];
        let mut out: Vec<usize> = Vec::new();
        let mut i: usize = 0;
        assert(in_range(row@, n as nat)) by {
            assert forall|k: int| 0 <= k < row@.len() implies row@[k] < n by {
                assert(scc.edges()[j as int][k] < scc.edges().len());
            }
        }
        assert(matrix(freq@)[j as int].len() == n);
        while i < row.len()
            invariant
                0 <= i <= row.len(),
                in_range(row@, n as nat),
                counts@.len() == n,
                out@ == kept_row(row@, counts@, threshold, i as int),
            decreases row.len() - i,
        {
            let k = row[i];
            if counts[k] > threshold {
                out.push(k);
            }
            i += 1;
        }
        proof {
            lemma_kept_row_in_range(row@, counts@, threshold, row@.len() as int, n as nat);
        }
        h.push(out);
        j += 1;
    }
    proof {
        assert(adjacency(h@) =~= kept_edges(scc.edges(), matrix(freq@), threshold));
        assert forall|u: int, k: int|
            0 <= u < adjacency(h@).len() && 0 <= k < adjacency(h@)[u].len() implies (
        #[trigger] adjacency(h@)[u][k]) < adjacency(h@).len() by {
            assert(in_range(h@[u]@, n as nat));
        }
    }
    h
}

/// `inv` tells for each vertex its position in `perm`.
pub open spec fn is_inverse(inv: Seq<usize>, perm: Seq<usize>) -> bool {
    &&& inv.len() == perm.len()
    &&& forall|j: int| 0 <= j < perm.len() ==> inv[(#[trigger] perm[j]) as int] == j
}

/// The position of each vertex in the permutation `perm`.
pub fn inverse_permutation(perm: &Vec<usize>) -> (inv: Vec<usize>)
    requires
        is_permutation(perm@, perm@.len()),
    ensures
        is_inverse(inv@, perm@),
{
    let n = perm.len();
    let mut inv: Vec<usize> = vec![0; n];
    let mut j: usize = 0;
    while j < n
        invariant
            0 <= j <= n,
            n == perm@.len(),
            is_permutation(perm@, n as nat),
            inv@.len() == n,
            forall|i: int| 0 <= i < j ==> inv@[(#[trigger] perm@[i]) as int] == i,
        decreases n - j,
    {
        let ghost before = inv@;
        inv[perm[j]] = j;
        proof {
            assert forall|i: int| 0 <= i < j + 1 implies inv@[(#[trigger] perm@[i]) as int] == i by {
                if i < j {
                    assert(perm@[i] != perm@[j as int]);
                    assert(before[perm@[i] as int] == i);
                }
            }
        }
        j += 1;
    }
    inv
}

/// The positions below `k` at which `row` holds something other than zero,
/// ascending.
pub open spec fn support(row: Seq<u64>, k: int) -> Seq<usize>
    decreases k,
{
    if k <= 0 {
        Seq::empty()
    } else if row[k - 1] != 0 {
        support(row, k - 1).push((k - 1) as usize)
    } else {
        support(row, k - 1)
    }
}

/// `support` lists positions of the row.
proof fn lemma_support_in_range(row: Seq<u64>, k: int)
    requires
        0 <= k <= row.len(),
        row.len() <= usize::MAX,
    ensures
        in_range(support(row, k), row.len()),
    decreases k,
{
    if k > 0 {
        lemma_support_in_range(row, k - 1);
    }
}

/// `sub` is the part of `scc` on the vertices `part`: vertex `j` of `sub`
/// stands for vertex `part[j]` of `scc`, with its label and its weights, and
/// has an edge to every vertex against which its weight is not zero.
pub open spec fn is_part_of(sub: SCC, scc: SCC, part: Seq<usize>) -> bool {
    &&& sub.n == part.len()
    &&& sub.labels@ == relabel(scc.labels@, part)
    &&& is_square(sub.weights(), part.len())
    &&& forall|j: int, k: int|
        0 <= j < part.len() && 0 <= k < part.len() ==> (#[trigger] sub.weights()[j][k])
            == scc.weights()[part[j] as int][part[k] as int]
    &&& sub.edges().len() == part.len()
    &&& forall|j: int|
        0 <= j < part.len() ==> (#[trigger] sub.edges()[j]) == support(
            sub.weights()[j],
            part.len() as int,
        )
}

/// The weights among some of the vertices sum to no more than all weights.
pub proof fn lemma_part_total(w: Seq<Seq<u64>>, n: nat, part: Seq<usize>, sub: Seq<Seq<u64>>)
    requires
        is_square(w, n),
        is_arrangement(part, n),
        is_square(sub, part.len()),
        forall|j: int, k: int|
            0 <= j < part.len() && 0 <= k < part.len() ==> (#[trigger] sub[j][k]) == w[part[j] as int][part[k] as int],
    ensures
        total(sub) <= total(w),
{
    let m = part.len() as int;
    let sub_totals = row_totals(sub);
    let w_totals = row_totals(w);
    let picked_totals = Seq::new(part.len(), |j: int| w_totals[part[j] as int]);
    assert forall|j: int| 0 <= j < m implies sub_totals[j] <= picked_totals[j] by {
        let r = row(sub, j);
        let v = row(w, part[j] as int);
        assert(sub[j].len() == m);
        assert(w[part[j] as int].len() == n);
        assert forall|k: int| 0 <= k < m implies r[k] == v[part[k] as int] by {
            assert(sub[j][k] == w[part[j] as int][part[k] as int]);
        }
        lemma_seq_sum_is_picked(r, v, part, m);
        assert(r.take(m) =~= r);
        lemma_picked_bounded(v, part, m);
    }
    lemma_seq_sum_pointwise(sub_totals, picked_totals);
    lemma_seq_sum_is_picked(picked_totals, w_totals, part, m);
    assert(picked_totals.take(m) =~= picked_totals);
    assert forall|k: int| 0 <= k < w_totals.len() implies w_totals[k] >= 0 by {
        crate::cost::lemma_seq_sum_nonnegative(row(w, k));
    }
    lemma_picked_bounded(w_totals, part, m);
}

/// The part of the component on the vertices `part`, as a component of its
/// own: the weights are those of `scc`, and an edge goes from each vertex to
/// every vertex against which its weight is not zero.
pub fn sub_component(scc: &SCC, part: &Vec<usize>) -> (sub: SCC)
    requires
        scc.wf(),
        is_arrangement(part@, scc.n as nat),
    ensures
        is_part_of(sub, *scc, part@),
        sub.wf(),
{
    let m = part.len();
    let ghost w0 = scc.weights();
    let mut w: Vec<Vec<u64>> = Vec::new();
    let mut g: Vec<Vec<usize>> = Vec::new();
    let mut j: usize = 0;
    while j < m
        invariant
            0 <= j <= m,
            m == part@.len(),
            w0 == scc.weights(),
            scc.wf(),
            is_arrangement(part@, scc.n as nat),
            w@.len() == j,
            g@.len() == j,
            forall|a: int| 0 <= a < j ==> (#[trigger] w@[a])@.len() == m,
            forall|a: int, b: int|
                0 <= a < j && 0 <= b < m ==> (#[trigger] w@[a]@[b]) == w0[part@[a] as int][part@[b] as int],
            forall|a: int| 0 <= a < j ==> (#[trigger] g@[a])@ == support(w@[a]@, m as int),
        decreases m - j,
    {
        let mut row: Vec<u64> = Vec::new();
        let mut edges: Vec<usize> = Vec::new();
        let pj = part[j];
        let mut k: usize = 0;
        while k < m
            invariant
                0 <= k <= m,
                0 <= j < m,
                m == part@.len(),
                w0 == scc.weights(),
                scc.wf(),
                is_arrangement(part@, scc.n as nat),
                pj == part@[j as int],
                row@.len() == k,
                forall|b: int| 0 <= b < k ==> (#[trigger] row@[b]) == w0[pj as int][part@[b] as int],
                edges@ == support(row@, k as int),
            decreases m - k,
        {
            assert(w0[pj as int].len() == scc.n);
            let x = scc.w[pj][part[k]];
            let ghost before = row@;
            row.push(x);
            proof {
                lemma_support_prefix(before, row@, k as int);
            }
            if x != 0 {
                edges.push(k);
            }
            k += 1;
        }
        w.push(row);
        g.push(edges);
        j += 1;
    }
    let mut labels: Vec<usize> = Vec::new();
    let mut j: usize = 0;
    while j < m
        invariant
            0 <= j <= m,
            m == part@.len(),
            scc.wf(),
            is_arrangement(part@, scc.n as nat),
            labels@.len() == j,
            forall|a: int| 0 <= a < j ==> (#[trigger] labels@[a]) == scc.labels@[part@[a] as int],
        decreases m - j,
    {
        labels.push(scc.labels[part[j]]);
        j += 1;
    }
    let sub = SCC::new(labels, w, g);
    proof {
        assert(sub.labels@ =~= relabel(scc.labels@, part@));
        assert(is_part_of(sub, *scc, part@));
        lemma_part_total(w0, scc.n as nat, part@, sub.weights());
        assert forall|i: int| 0 <= i < sub.n implies (#[trigger] sub.weights()[i])[i] == 0 by {
            assert(sub.weights()[i][i] == w0[part@[i] as int][part@[i] as int]);
            assert(w0[part@[i] as int][part@[i] as int] == 0);
        }
        assert forall|u: int, k: int|
            0 <= u < sub.edges().len() && 0 <= k < sub.edges()[u].len() implies (
        #[trigger] sub.edges()[u][k]) < sub.edges().len() by {
            lemma_support_in_range(sub.weights()[u], m as int);
        }
    }
    sub
}

/// `support` up to `k` looks at the first `k` entries only.
proof fn lemma_support_prefix(row: Seq<u64>, longer: Seq<u64>, k: int)
    requires
        0 <= k <= row.len(),
        row.len() <= longer.len(),
        forall|i: int| 0 <= i < k ==> row[i] == longer[i],
    ensures
        support(row, k) == support(longer, k),
    decreases k,
{
    if k > 0 {
        lemma_support_prefix(row, longer, k - 1);
    }
}

/// The keys by which the vertices of `part` are seeded: the position of each
/// in an earlier ordering, of which `inv` is the inverse.
pub open spec fn seed_keys(part: Seq<usize>, inv: Seq<usize>) -> Seq<Fraction> {
    Seq::new(part.len(), |i: int| Fraction { num: inv[part[i] as int] as u64, den: 1 })
}

/// The vertices `0..part.len()` in the order in which the vertices they
/// stand for, `part[i]`, stood in an earlier ordering, of which `inv` is the
/// inverse.
pub fn seed_ordering(part: &Vec<usize>, inv: &Vec<usize>) -> (seed: Vec<usize>)
    requires
        in_range(part@, inv@.len()),
    ensures
        is_stable_order(seed_keys(part@, inv@), seed@),
        is_permutation(seed@, part@.len()),
{
    let mut keys: Vec<Fraction> = Vec::new();
    let mut i: usize = 0;
    while i < part.len()
        invariant
            0 <= i <= part.len(),
            in_range(part@, inv@.len()),
            keys@ == seed_keys(part@, inv@).take(i as int),
        decreases part.len() - i,
    {
        keys.push(Fraction::whole(inv[part[i]] as u64));
        i += 1;
        assert(keys@ =~= seed_keys(part@, inv@).take(i as int));
    }
    assert(keys@ =~= seed_keys(part@, inv@));
    stable_order(&keys)
}

/// Listing labels along a permutation of their positions rearranges them.
pub proof fn lemma_relabel_multiset(labels: Seq<usize>, pi: Seq<usize>)
    requires
        is_permutation(pi, labels.len()),
    ensures
        relabel(labels, pi).to_multiset() == labels.to_multiset(),
    decreases labels.len(),
{
    broadcast use vstd::seq_lib::group_to_multiset_ensures;

    let n = labels.len();
    lemma_arrangement_length(pi, (usize::MAX + 1) as nat, 0);
    if n == 0 {
        assert(relabel(labels, pi) =~= labels);
    } else {
        let last = (n - 1) as usize;
        lemma_permutation_contains(pi, n, last);
        let p = choose|p: int| 0 <= p < pi.len() && pi[p] == last;
        let rest = pi.remove(p);
        let shorter = labels.drop_last();
        lemma_remove_keeps_arrangement(pi, n, p);
        assert(is_permutation(rest, (n - 1) as nat)) by {
            assert forall|i: int| 0 <= i < rest.len() implies rest[i] < n - 1 by {
                assert(rest.contains(rest[i]));
                assert(rest[i] != last);
            }
        }
        lemma_relabel_multiset(shorter, rest);
        assert(relabel(labels, pi) =~= relabel(shorter, rest).insert(p, labels[n - 1])) by {
            let a = relabel(labels, pi);
            let b = relabel(shorter, rest).insert(p, labels[n - 1]);
            assert(a.len() == b.len());
            let inner = relabel(shorter, rest);
            assert(inner.len() == n - 1);
            assert forall|i: int| 0 <= i < a.len() implies a[i] == b[i] by {
                if i < p {
                    assert(rest[i] == pi[i]);
                    assert(rest[i] < n - 1);
                    assert(inner[i] == shorter[rest[i] as int]);
                    assert(b[i] == inner[i]);
                } else if i > p {
                    assert(rest[i - 1] == pi[i]);
                    assert(rest[i - 1] < n - 1);
                    assert(inner[i - 1] == shorter[rest[i - 1] as int]);
                    assert(b[i] == inner[i - 1]);
                } else {
                    assert(b[p] == labels[n - 1]);
                    assert(pi[p] == n - 1);
                }
            }
        }
        vstd::seq_lib::to_multiset_insert(relabel(shorter, rest), p, labels[n - 1]);
        assert(labels =~= shorter.push(labels[n - 1]));
        vstd::seq_lib::to_multiset_build(shorter, labels[n - 1]);
    }
}

/// The parts `lo..hi`, each in the order of its ordering, one after the
/// other.
pub open spec fn composed_range(parts: Seq<Seq<usize>>, perm: Seq<Seq<usize>>, lo: int, hi: int) -> Seq<
    usize,
>
    decreases hi - lo,
{
    if hi <= lo {
        Seq::empty()
    } else {
        composed_range(parts, perm, lo, hi - 1) + relabel(parts[hi - 1], perm[hi - 1])
    }
}

/// The components `lo..hi` of `fine` are the parts of `scc`: `parts[c]`
/// lists the vertices of part `c`, and together the parts hold every vertex
/// of `scc` once.
pub open spec fn block_valid(
    scc: SCC,
    fine: Seq<SCC>,
    parts: Seq<Seq<usize>>,
    lo: int,
    hi: int,
) -> bool {
    &&& 0 <= lo <= hi <= fine.len()
    &&& forall|c: int| lo <= c < hi ==> is_part_of(#[trigger] fine[c], scc, parts[c])
    &&& is_permutation(concat_range(parts, lo, hi), scc.n as nat)
}

/// The components `fine` split the first `m` components of `coarse` into
/// parts: those with the numbers `starts[i]..starts[i + 1]` are the parts
/// of component `i`, and `parts[c]` lists the vertices of part `c`.
pub open spec fn refines(
    coarse: Seq<SCC>,
    fine: Seq<SCC>,
    starts: Seq<int>,
    parts: Seq<Seq<usize>>,
    m: int,
) -> bool {
    &&& 0 <= m <= coarse.len()
    &&& starts.len() == m + 1
    &&& starts[0] == 0
    &&& starts[m] == fine.len()
    &&& parts.len() == fine.len()
    &&& forall|i: int|
        0 <= i < m ==> #[trigger] block_valid(coarse[i], fine, parts, starts[i], starts[i + 1])
}

/// A range of orderings is its first part followed by the rest.
proof fn lemma_relabel_range_split(sccs: Seq<SCC>, perm: Seq<Seq<usize>>, lo: int, mid: int, hi: int)
    requires
        lo <= mid <= hi,
    ensures
        relabel_range(sccs, perm, lo, hi) == relabel_range(sccs, perm, lo, mid) + relabel_range(
            sccs,
            perm,
            mid,
            hi,
        ),
    decreases hi - mid,
{
    if hi > mid {
        lemma_relabel_range_split(sccs, perm, lo, mid, hi - 1);
        let last = relabel(sccs[hi - 1].labels@, perm[hi - 1]);
        assert((relabel_range(sccs, perm, lo, mid) + relabel_range(sccs, perm, mid, hi - 1)) + last
            =~= relabel_range(sccs, perm, lo, mid) + (relabel_range(sccs, perm, mid, hi - 1)
            + last));
    } else {
        assert(relabel_range(sccs, perm, lo, mid) + Seq::<usize>::empty() =~= relabel_range(
            sccs,
            perm,
            lo,
            mid,
        ));
    }
}

/// The orderings of the parts of one component, under their labels, are one
/// ordering of the component under its labels.
proof fn lemma_block_relabel(
    labels: Seq<usize>,
    fine: Seq<SCC>,
    parts: Seq<Seq<usize>>,
    perm: Seq<Seq<usize>>,
    lo: int,
    hi: int,
)
    requires
        0 <= lo <= hi <= fine.len(),
        parts.len() == fine.len(),
        perm.len() == fine.len(),
        forall|c: int| lo <= c < hi ==> (#[trigger] fine[c]).labels@ == relabel(labels, parts[c]),
        forall|c: int| lo <= c < hi ==> in_range(#[trigger] perm[c], parts[c].len()),
    ensures
        relabel_range(fine, perm, lo, hi) == relabel(labels, composed_range(parts, perm, lo, hi)),
    decreases hi - lo,
{
    if hi > lo {
        lemma_block_relabel(labels, fine, parts, perm, lo, hi - 1);
        let c = hi - 1;
        let head = composed_range(parts, perm, lo, c);
        let tail = relabel(parts[c], perm[c]);
        assert(fine[c].labels@ == relabel(labels, parts[c]));
        assert(in_range(perm[c], parts[c].len()));
        assert(relabel(fine[c].labels@, perm[c]) =~= relabel(labels, tail));
        assert(relabel(labels, head) + relabel(labels, tail) =~= relabel(labels, head + tail));
    } else {
        assert(relabel(labels, composed_range(parts, perm, lo, hi)) =~= Seq::<usize>::empty());
    }
}

/// The parts in the order of their orderings hold what the parts hold.
pub proof fn lemma_composed_multiset(parts: Seq<Seq<usize>>, perm: Seq<Seq<usize>>, lo: int, hi: int)
    requires
        0 <= lo <= hi <= parts.len(),
        perm.len() == parts.len(),
        forall|c: int| lo <= c < hi ==> is_permutation(#[trigger] perm[c], parts[c].len()),
    ensures
        composed_range(parts, perm, lo, hi).to_multiset() == concat_range(parts, lo, hi).to_multiset(),
    decreases hi - lo,
{
    if hi > lo {
        lemma_composed_multiset(parts, perm, lo, hi - 1);
        let c = hi - 1;
        assert(is_permutation(perm[c], parts[c].len()));
        lemma_relabel_multiset(parts[c], perm[c]);
        vstd::seq_lib::lemma_multiset_commutative(
            composed_range(parts, perm, lo, c),
            relabel(parts[c], perm[c]),
        );
        vstd::seq_lib::lemma_multiset_commutative(concat_range(parts, lo, c), parts[c]);
    }
}

/// The orderings by which the parts of each component make up an ordering of
/// the whole component.
pub open spec fn composed(
    coarse: Seq<SCC>,
    starts: Seq<int>,
    parts: Seq<Seq<usize>>,
    perm: Seq<Seq<usize>>,
) -> Seq<Seq<usize>> {
    Seq::new(coarse.len(), |i: int| composed_range(parts, perm, starts[i], starts[i + 1]))
}

/// The orderings of the parts of the first `i` components are orderings of
/// these components.
proof fn lemma_refined_prefix(
    coarse: Seq<SCC>,
    fine: Seq<SCC>,
    starts: Seq<int>,
    parts: Seq<Seq<usize>>,
    perm: Seq<Seq<usize>>,
    i: int,
)
    requires
        refines(coarse, fine, starts, parts, coarse.len() as int),
        perm.len() == fine.len(),
        forall|c: int| 0 <= c < fine.len() ==> is_permutation(#[trigger] perm[c], fine[c].n as nat),
        0 <= i <= coarse.len(),
    ensures
        0 <= starts[i] <= fine.len(),
        relabel_range(fine, perm, 0, starts[i]) == relabel_all(
            coarse,
            composed(coarse, starts, parts, perm),
            i,
        ),
    decreases i,
{
    if i > 0 {
        lemma_refined_prefix(coarse, fine, starts, parts, perm, i - 1);
        let lo = starts[i - 1];
        let hi = starts[i];
        assert(block_valid(coarse[i - 1], fine, parts, starts[i - 1], starts[i - 1 + 1]));
        lemma_relabel_range_split(fine, perm, 0, lo, hi);
        assert forall|c: int| lo <= c < hi implies (#[trigger] fine[c]).labels@ == relabel(
            coarse[i - 1].labels@,
            parts[c],
        ) by {
            assert(is_part_of(fine[c], coarse[i - 1], parts[c]));
        }
        assert forall|c: int| lo <= c < hi implies in_range(#[trigger] perm[c], parts[c].len()) by {
            assert(is_part_of(fine[c], coarse[i - 1], parts[c]));
            assert(is_permutation(perm[c], fine[c].n as nat));
        }
        lemma_block_relabel(coarse[i - 1].labels@, fine, parts, perm, lo, hi);
    }
}

/// Blocks that come later do not change a range of blocks.
proof fn lemma_concat_range_prefix(parts: Seq<Seq<usize>>, more: Seq<Seq<usize>>, lo: int, hi: int)
    requires
        0 <= lo,
        hi <= parts.len(),
    ensures
        concat_range(parts + more, lo, hi) == concat_range(parts, lo, hi),
    decreases hi - lo,
{
    if hi > lo {
        lemma_concat_range_prefix(parts, more, lo, hi - 1);
        assert((parts + more)[hi - 1] == parts[hi - 1]);
    }
}

/// A range of blocks that were appended is a range of what was appended.
proof fn lemma_concat_range_shift(parts: Seq<Seq<usize>>, more: Seq<Seq<usize>>, k: int)
    requires
        0 <= k <= more.len(),
    ensures
        concat_range(parts + more, parts.len() as int, parts.len() + k) == concat_range(more, 0, k),
    decreases k,
{
    if k > 0 {
        lemma_concat_range_shift(parts, more, k - 1);
        assert((parts + more)[parts.len() + k - 1] == more[k - 1]);
    }
}

/// A block stays valid when more parts follow.
proof fn lemma_block_kept(
    scc: SCC,
    fine: Seq<SCC>,
    parts: Seq<Seq<usize>>,
    lo: int,
    hi: int,
    more_fine: Seq<SCC>,
    more_parts: Seq<Seq<usize>>,
)
    requires
        block_valid(scc, fine, parts, lo, hi),
        parts.len() == fine.len(),
    ensures
        block_valid(scc, fine + more_fine, parts + more_parts, lo, hi),
{
    lemma_concat_range_prefix(parts, more_parts, lo, hi);
    assert forall|c: int| lo <= c < hi implies is_part_of(
        #[trigger] (fine + more_fine)[c],
        scc,
        (parts + more_parts)[c],
    ) by {
        assert(is_part_of(fine[c], scc, parts[c]));
    }
}

/// The parts of a component, appended, are a valid block.
proof fn lemma_block_appended(
    scc: SCC,
    fine: Seq<SCC>,
    parts: Seq<Seq<usize>>,
    sub_fine: Seq<SCC>,
    sub_parts: Seq<Seq<usize>>,
)
    requires
        parts.len() == fine.len(),
        sub_fine.len() == sub_parts.len(),
        forall|c: int| 0 <= c < sub_parts.len() ==> is_part_of(#[trigger] sub_fine[c], scc, sub_parts[c]),
        is_permutation(concat_range(sub_parts, 0, sub_parts.len() as int), scc.n as nat),
    ensures
        block_valid(
            scc,
            fine + sub_fine,
            parts + sub_parts,
            fine.len() as int,
            (fine.len() + sub_fine.len()) as int,
        ),
{
    lemma_concat_range_shift(parts, sub_parts, sub_parts.len() as int);
    assert forall|c: int| fine.len() <= c < fine.len() + sub_fine.len() implies is_part_of(
        #[trigger] (fine + sub_fine)[c],
        scc,
        (parts + sub_parts)[c],
    ) by {
        assert((fine + sub_fine)[c] == sub_fine[c - fine.len()]);
        assert((parts + sub_parts)[c] == sub_parts[c - fine.len()]);
        assert(is_part_of(sub_fine[c - fine.len()], scc, sub_parts[c - fine.len()]));
    }
}

/// The parts of one more component go on a refinement.
pub proof fn lemma_refines_extend(
    coarse: Seq<SCC>,
    fine: Seq<SCC>,
    starts: Seq<int>,
    parts: Seq<Seq<usize>>,
    m: int,
    sub_fine: Seq<SCC>,
    sub_parts: Seq<Seq<usize>>,
)
    requires
        refines(coarse, fine, starts, parts, m),
        m < coarse.len(),
        sub_fine.len() == sub_parts.len(),
        forall|c: int|
            0 <= c < sub_parts.len() ==> is_part_of(#[trigger] sub_fine[c], coarse[m], sub_parts[c]),
        is_permutation(concat_range(sub_parts, 0, sub_parts.len() as int), coarse[m].n as nat),
    ensures
        refines(
            coarse,
            fine + sub_fine,
            starts.push((fine.len() + sub_fine.len()) as int),
            parts + sub_parts,
            m + 1,
        ),
{
    let fine2 = fine + sub_fine;
    let starts2 = starts.push((fine.len() + sub_fine.len()) as int);
    let parts2 = parts + sub_parts;
    assert forall|i: int| 0 <= i < m + 1 implies #[trigger] block_valid(
        coarse[i],
        fine2,
        parts2,
        starts2[i],
        starts2[i + 1],
    ) by {
        if i < m {
            assert(block_valid(coarse[i], fine, parts, starts[i], starts[i + 1]));
            lemma_block_kept(coarse[i], fine, parts, starts[i], starts[i + 1], sub_fine, sub_parts);
        } else {
            lemma_block_appended(coarse[m], fine, parts, sub_fine, sub_parts);
        }
    }
}

/// Orderings of the parts, one after the other, order each component within
/// itself.
pub proof fn lemma_refined_blockwise(
    coarse: Seq<SCC>,
    fine: Seq<SCC>,
    starts: Seq<int>,
    parts: Seq<Seq<usize>>,
    perm: Seq<Seq<usize>>,
)
    requires
        refines(coarse, fine, starts, parts, coarse.len() as int),
        perm.len() == fine.len(),
        forall|c: int| 0 <= c < fine.len() ==> is_permutation(#[trigger] perm[c], fine[c].n as nat),
    ensures
        is_blockwise(coarse, relabel_all(fine, perm, fine.len() as int)),
{
    let perms = composed(coarse, starts, parts, perm);
    lemma_refined_prefix(coarse, fine, starts, parts, perm, coarse.len() as int);
    assert forall|i: int| 0 <= i < coarse.len() implies is_permutation(
        #[trigger] perms[i],
        coarse[i].n as nat,
    ) by {
        let lo = starts[i];
        let hi = starts[i + 1];
        assert(block_valid(coarse[i], fine, parts, starts[i], starts[i + 1]));
        assert forall|c: int| lo <= c < hi implies is_permutation(
            #[trigger] perm[c],
            parts[c].len(),
        ) by {
            assert(is_part_of(fine[c], coarse[i], parts[c]));
            assert(is_permutation(perm[c], fine[c].n as nat));
        }
        lemma_composed_multiset(parts, perm, lo, hi);
        lemma_rearranged_permutation(
            composed_range(parts, perm, lo, hi),
            concat_range(parts, lo, hi),
            coarse[i].n as nat,
        );
    }
    assert(is_blockwise_by(coarse, perms, relabel_all(fine, perm, fine.len() as int)));
}

/// `seed` orders the vertices `0..part.len()` as the vertices they stand
/// for, `part[i]`, are ordered in `best`.
pub open spec fn is_seed(best: Seq<usize>, part: Seq<usize>, seed: Seq<usize>) -> bool {
    &&& is_permutation(seed, part.len())
    &&& forall|a: int, b: int|
        0 <= a < b < seed.len() ==> precedes(
            best,
            part[(#[trigger] seed[a]) as int],
            part[(#[trigger] seed[b]) as int],
        )
}

/// A stable order by position in `best` keeps the order of `best`.
proof fn lemma_seed(best: Seq<usize>, inv: Seq<usize>, part: Seq<usize>, seed: Seq<usize>)
    requires
        is_permutation(best, best.len()),
        is_inverse(inv, best),
        is_arrangement(part, best.len()),
        is_stable_order(seed_keys(part, inv), seed),
    ensures
        is_seed(best, part, seed),
{
    let keys = seed_keys(part, inv);
    let n = best.len();
    assert forall|a: int, b: int| 0 <= a < b < seed.len() implies precedes(
        best,
        part[(#[trigger] seed[a]) as int],
        part[(#[trigger] seed[b]) as int],
    ) by {
        let x = part[seed[a] as int];
        let y = part[seed[b] as int];
        assert(seed[a] != seed[b]);
        assert(x != y);
        lemma_permutation_contains(best, n, x);
        lemma_permutation_contains(best, n, y);
        let j = choose|j: int| 0 <= j < best.len() && best[j] == x;
        let k = choose|k: int| 0 <= k < best.len() && best[k] == y;
        assert(inv[best[j] as int] == j);
        assert(inv[best[k] as int] == k);
        assert(ranks_before(keys, seed[a], seed[b]));
        assert(keys[seed[a] as int].num == j as u64);
        assert(keys[seed[b] as int].num == k as u64);
        assert(j != k);
        assert(keys[seed[a] as int].lt(keys[seed[b] as int]) == (j < k)) by (nonlinear_arith)
            requires
                keys[seed[a] as int].num == j,
                keys[seed[b] as int].num == k,
                keys[seed[a] as int].den == 1,
                keys[seed[b] as int].den == 1,
                keys[seed[a] as int].lt(keys[seed[b] as int]) == (keys[seed[a] as int].num
                    * keys[seed[b] as int].den < keys[seed[b] as int].num * keys[seed[a] as int].den),
        ;
        assert(keys[seed[b] as int].lt(keys[seed[a] as int]) == (k < j)) by (nonlinear_arith)
            requires
                keys[seed[a] as int].num == j,
                keys[seed[b] as int].num == k,
                keys[seed[a] as int].den == 1,
                keys[seed[b] as int].den == 1,
                keys[seed[b] as int].lt(keys[seed[a] as int]) == (keys[seed[b] as int].num
                    * keys[seed[a] as int].den < keys[seed[a] as int].num * keys[seed[b] as int].den),
        ;
        assert(j < k);
    }
}

/// `fine`, `vals` and `perms` are what a component falls into along the
/// edges that were seen often enough: its parts are the strongly connected
/// components of those edges, each with the ordering that `best` gives its
/// vertices and with the cost of that ordering.
pub open spec fn is_split(
    scc: SCC,
    freq: Seq<Seq<u64>>,
    threshold: u64,
    best: Seq<usize>,
    fine: Seq<SCC>,
    vals: Seq<u64>,
    perms: Seq<Vec<usize>>,
    aborted: bool,
) -> bool {
    let parts = components(kept_edges(scc.edges(), freq, threshold));
    &&& fine.len() == parts.len()
    &&& vals.len() == parts.len()
    &&& perms.len() == parts.len()
    &&& forall|c: int|
        0 <= c < parts.len() ==> is_part_of(#[trigger] fine[c], scc, parts[c]) && fine[c].wf()
    &&& forall|c: int| 0 <= c < parts.len() ==> is_seed(best, parts[c], (#[trigger] perms[c])@)
    &&& forall|c: int|
        0 <= c < parts.len() ==> (#[trigger] vals[c]) == eval(fine[c].weights(), perms[c]@) || (
        aborted && vals[c] == u64::MAX - 1)
}

/// Splits a component along the precedence edges whose pair was counted
/// more than `threshold` times in `freq`. Returns the parts, in topological
/// order, and for each the ordering that `best` gives its vertices, with its
/// cost.
pub fn split_component(
    scc: &SCC,
    freq: &Vec<Vec<u64>>,
    threshold: u64,
    best: &Vec<usize>,
    abort: &mut AbortFlag,
) -> (res: (Vec<SCC>, Vec<u64>, Vec<Vec<usize>>))
    requires
        scc.wf(),
        is_square(matrix(freq@), scc.n as nat),
        is_permutation(best@, scc.n as nat),
    ensures
        old(abort).seen() ==> final(abort).seen(),
        is_split(*scc, matrix(freq@), threshold, best@, res.0@, res.1@, res.2@, final(abort).seen()),
{
    let h = frequent_edges(scc, freq, threshold);
    let inv = inverse_permutation(best);
    let hsccs = compute_sccs(&h);
    let ghost parts = components(adjacency(h@));
    proof {
        lemma_components_partition(adjacency(h@));
    }
    let mut fine: Vec<SCC> = Vec::new();
    let mut vals: Vec<u64> = Vec::new();
    let mut perms: Vec<Vec<usize>> = Vec::new();
    let mut c: usize = 0;
    while c < hsccs.len()
        invariant
            0 <= c <= hsccs.len(),
            scc.wf(),
            is_permutation(best@, scc.n as nat),
            is_inverse(inv@, best@),
            parts == adjacency(hsccs@),
            adjacency(h@).len() == scc.n,
            forall|k: int| 0 <= k < parts.len() ==> is_arrangement(#[trigger] parts[k], scc.n as nat),
            old(abort).seen() ==> abort.seen(),
            fine@.len() == c,
            vals@.len() == c,
            perms@.len() == c,
            forall|k: int| 0 <= k < c ==> is_part_of(#[trigger] fine@[k], *scc, parts[k]) && fine@[k].wf(),
            forall|k: int| 0 <= k < c ==> is_seed(best@, parts[k], (#[trigger] perms@[k])@),
            forall|k: int|
                0 <= k < c ==> (#[trigger] vals@[k]) == eval(fine@[k].weights(), perms@[k]@) || (
                abort.seen() && vals@[k] == u64::MAX - 1),
        decreases hsccs.len() - c,
    {
        let part = &hsccs[c];
        assert(part@ == parts[c as int]);
        assert(is_arrangement(parts[c as int], scc.n as nat));
        let sub = sub_component(scc, part);
        let seed = seed_ordering(part, &inv);
        proof {
            lemma_seed(best@, inv@, part@, seed@);
        }
        let val = eval_ordering_scc(&seed, &sub, abort);
        fine.push(sub);
        vals.push(val);
        perms.push(seed);
        c += 1;
    }
    (fine, vals, perms)
}

/// A split stays one when the flag is seen raised.
pub proof fn lemma_split_monotone(
    scc: SCC,
    freq: Seq<Seq<u64>>,
    threshold: u64,
    best: Seq<usize>,
    fine: Seq<SCC>,
    vals: Seq<u64>,
    perms: Seq<Vec<usize>>,
    was_aborted: bool,
    aborted: bool,
)
    requires
        is_split(scc, freq, threshold, best, fine, vals, perms, was_aborted),
        was_aborted ==> aborted,
    ensures
        is_split(scc, freq, threshold, best, fine, vals, perms, aborted),
{
}

/// What `refine_components` builds from the first `m` components: the
/// parts of component `i` have the numbers `starts[i]..starts[i + 1]` and
/// are the split of that component.
pub open spec fn is_refinement(
    sccs: Seq<SCC>,
    freqs: Seq<Vec<Vec<u64>>>,
    threshold: u64,
    best: Seq<Vec<usize>>,
    fine: Seq<SCC>,
    vals: Seq<u64>,
    perms: Seq<Vec<usize>>,
    starts: Seq<int>,
    m: int,
    aborted: bool,
) -> bool {
    &&& 0 <= m <= sccs.len()
    &&& starts.len() == m + 1
    &&& starts[0] == 0
    &&& starts[m] == fine.len()
    &&& vals.len() == fine.len()
    &&& perms.len() == fine.len()
    &&& forall|i: int|
        0 <= i < m ==> #[trigger] block_is_split(
            sccs[i],
            matrix(freqs[i]@),
            threshold,
            best[i]@,
            fine,
            vals,
            perms,
            starts[i],
            starts[i + 1],
            aborted,
        )
}

/// The entries `lo..hi` are the split of `scc`.
pub open spec fn block_is_split(
    scc: SCC,
    freq: Seq<Seq<u64>>,
    threshold: u64,
    best: Seq<usize>,
    fine: Seq<SCC>,
    vals: Seq<u64>,
    perms: Seq<Vec<usize>>,
    lo: int,
    hi: int,
    aborted: bool,
) -> bool {
    &&& 0 <= lo <= hi <= fine.len()
    &&& is_split(
        scc,
        freq,
        threshold,
        best,
        fine.subrange(lo, hi),
        vals.subrange(lo, hi),
        perms.subrange(lo, hi),
        aborted,
    )
}

/// The split of one more component goes on a refinement.
pub proof fn lemma_refinement_extend(
    sccs: Seq<SCC>,
    freqs: Seq<Vec<Vec<u64>>>,
    threshold: u64,
    best: Seq<Vec<usize>>,
    fine: Seq<SCC>,
    vals: Seq<u64>,
    perms: Seq<Vec<usize>>,
    starts: Seq<int>,
    m: int,
    was_aborted: bool,
    sub_fine: Seq<SCC>,
    sub_vals: Seq<u64>,
    sub_perms: Seq<Vec<usize>>,
    aborted: bool,
)
    requires
        is_refinement(sccs, freqs, threshold, best, fine, vals, perms, starts, m, was_aborted),
        was_aborted ==> aborted,
        m < sccs.len(),
        is_split(
            sccs[m],
            matrix(freqs[m]@),
            threshold,
            best[m]@,
            sub_fine,
            sub_vals,
            sub_perms,
            aborted,
        ),
    ensures
        is_refinement(
            sccs,
            freqs,
            threshold,
            best,
            fine + sub_fine,
            vals + sub_vals,
            perms + sub_perms,
            starts.push((fine.len() + sub_fine.len()) as int),
            m + 1,
            aborted,
        ),
{
    let fine2 = fine + sub_fine;
    let vals2 = vals + sub_vals;
    let perms2 = perms + sub_perms;
    let starts2 = starts.push((fine.len() + sub_fine.len()) as int);
    assert forall|i: int| 0 <= i < m + 1 implies #[trigger] block_is_split(
        sccs[i],
        matrix(freqs[i]@),
        threshold,
        best[i]@,
        fine2,
        vals2,
        perms2,
        starts2[i],
        starts2[i + 1],
        aborted,
    ) by {
        if i < m {
            let lo = starts[i];
            let hi = starts[i + 1];
            assert(block_is_split(
                sccs[i],
                matrix(freqs[i]@),
                threshold,
                best[i]@,
                fine,
                vals,
                perms,
                lo,
                hi,
                was_aborted,
            ));
            assert(fine2.subrange(lo, hi) =~= fine.subrange(lo, hi));
            assert(vals2.subrange(lo, hi) =~= vals.subrange(lo, hi));
            assert(perms2.subrange(lo, hi) =~= perms.subrange(lo, hi));
            lemma_split_monotone(
                sccs[i],
                matrix(freqs[i]@),
                threshold,
                best[i]@,
                fine.subrange(lo, hi),
                vals.subrange(lo, hi),
                perms.subrange(lo, hi),
                was_aborted,
                aborted,
            );
        } else {
            let lo = fine.len() as int;
            let hi = (fine.len() + sub_fine.len()) as int;
            assert(fine2.subrange(lo, hi) =~= sub_fine);
            assert(vals2.subrange(lo, hi) =~= sub_vals);
            assert(perms2.subrange(lo, hi) =~= sub_perms);
        }
    }
}

/// The parts of the first `m` components, those of one component after
/// those of the one before.
pub open spec fn all_parts(
    sccs: Seq<SCC>,
    freqs: Seq<Vec<Vec<u64>>>,
    threshold: u64,
    m: int,
) -> Seq<Seq<usize>>
    decreases m,
{
    if m <= 0 {
        Seq::empty()
    } else {
        all_parts(sccs, freqs, threshold, m - 1) + components(
            kept_edges(sccs[m - 1].edges(), matrix(freqs[m - 1]@), threshold),
        )
    }
}

/// A refinement refines.
pub proof fn lemma_refinement_refines(
    sccs: Seq<SCC>,
    freqs: Seq<Vec<Vec<u64>>>,
    threshold: u64,
    best: Seq<Vec<usize>>,
    fine: Seq<SCC>,
    vals: Seq<u64>,
    perms: Seq<Vec<usize>>,
    starts: Seq<int>,
    m: int,
    aborted: bool,
)
    requires
        is_refinement(sccs, freqs, threshold, best, fine, vals, perms, starts, m, aborted),
        forall|i: int| 0 <= i < sccs.len() ==> (#[trigger] sccs[i]).wf(),
    ensures
        refines(sccs, fine, starts, all_parts(sccs, freqs, threshold, m), m),
    decreases m,
{
    if m == 0 {
        assert(refines(sccs, fine, starts, all_parts(sccs, freqs, threshold, 0), 0));
    } else {
        let lo = starts[m - 1];
        let hi = starts[m];
        assert(block_is_split(
            sccs[m - 1],
            matrix(freqs[m - 1]@),
            threshold,
            best[m - 1]@,
            fine,
            vals,
            perms,
            starts[m - 1],
            starts[m - 1 + 1],
            aborted,
        ));
        let fine0 = fine.subrange(0, lo);
        let vals0 = vals.subrange(0, lo);
        let perms0 = perms.subrange(0, lo);
        let starts0 = starts.drop_last();
        assert(is_refinement(sccs, freqs, threshold, best, fine0, vals0, perms0, starts0, m - 1, aborted)) by {
            assert forall|i: int| 0 <= i < m - 1 implies #[trigger] block_is_split(
                sccs[i],
                matrix(freqs[i]@),
                threshold,
                best[i]@,
                fine0,
                vals0,
                perms0,
                starts0[i],
                starts0[i + 1],
                aborted,
            ) by {
                assert(block_is_split(
                    sccs[i],
                    matrix(freqs[i]@),
                    threshold,
                    best[i]@,
                    fine,
                    vals,
                    perms,
                    starts[i],
                    starts[i + 1],
                    aborted,
                ));
                lemma_refinement_starts(
                    sccs,
                    freqs,
                    threshold,
                    best,
                    fine,
                    vals,
                    perms,
                    starts,
                    m,
                    aborted,
                    i + 1,
                    m - 1,
                );
                let a = starts[i];
                let b = starts[i + 1];
                assert(fine0.subrange(a, b) =~= fine.subrange(a, b));
                assert(vals0.subrange(a, b) =~= vals.subrange(a, b));
                assert(perms0.subrange(a, b) =~= perms.subrange(a, b));
            }
        }
        lemma_refinement_refines(sccs, freqs, threshold, best, fine0, vals0, perms0, starts0, m - 1, aborted);
        let scc = sccs[m - 1];
        let h = kept_edges(scc.edges(), matrix(freqs[m - 1]@), threshold);
        let sub_parts = components(h);
        let sub_fine = fine.subrange(lo, hi);
        assert(scc.wf());
        lemma_components_partition(h);
        lemma_refines_extend(
            sccs,
            fine0,
            starts0,
            all_parts(sccs, freqs, threshold, m - 1),
            m - 1,
            sub_fine,
            sub_parts,
        );
        assert(fine0 + sub_fine =~= fine);
        assert(starts0.push((fine0.len() + sub_fine.len()) as int) =~= starts);
    }
}

/// The starts of a refinement ascend.
proof fn lemma_refinement_starts(
    sccs: Seq<SCC>,
    freqs: Seq<Vec<Vec<u64>>>,
    threshold: u64,
    best: Seq<Vec<usize>>,
    fine: Seq<SCC>,
    vals: Seq<u64>,
    perms: Seq<Vec<usize>>,
    starts: Seq<int>,
    m: int,
    aborted: bool,
    i: int,
    j: int,
)
    requires
        is_refinement(sccs, freqs, threshold, best, fine, vals, perms, starts, m, aborted),
        0 <= i <= j <= m,
    ensures
        starts[i] <= starts[j],
    decreases j - i,
{
    if i < j {
        lemma_refinement_starts(sccs, freqs, threshold, best, fine, vals, perms, starts, m, aborted, i + 1, j);
        assert(block_is_split(
            sccs[i],
            matrix(freqs[i]@),
            threshold,
            best[i]@,
            fine,
            vals,
            perms,
            starts[i],
            starts[i + 1],
            aborted,
        ));
    }
}

} // verus!
