//! The solver's entry point, and the ordering by mean neighbour that the
//! large-scale sifter starts from.

use vstd::prelude::*;
use crate::bipartite_graph::{lemma_degree_bounded, BipartiteGraph};
use crate::global_abort::AbortFlag;
use crate::graph::components;
use crate::permutation::{
    in_range, is_permutation, lemma_permutation_contains, lemma_rearranged_permutation,
};
use crate::refine::{composed_range, lemma_composed_multiset};
use crate::scc::SCC;
use crate::sifting::{
    is_blockwise, is_blockwise_by, is_early_end, is_full_run, relabel_range, sifting_heuristic,
};
use crate::sifting_large::{crossing_count, sifting_large, sifts_to};
use crate::sifting_very_large::sifting_very_large;
use crate::sorting::{is_stable_order, keys_valid, stable_order, Fraction};
use crate::traversal::{concat_range, lemma_components_partition, lemma_concat_range_same};

verus! {

/// The sum of the first `k` entries of `adj`.
pub open spec fn index_sum(adj: Seq<usize>, k: int) -> int
    decreases k,
{
    if k <= 0 {
        0
    } else {
        index_sum(adj, k - 1) + adj[k - 1]
    }
}

/// The mean of the entries of `adj` as a fraction; zero for no entries.
pub open spec fn mean_key(adj: Seq<usize>) -> Fraction {
    if adj.len() == 0 {
        Fraction { num: 0, den: 1 }
    } else {
        Fraction { num: index_sum(adj, adj.len() as int) as u64, den: adj.len() as u64 }
    }
}

/// For each free vertex the mean of its neighbours.
pub open spec fn mean_keys(g: &BipartiteGraph) -> Seq<Fraction> {
    Seq::new(g.n1 as nat, |u: int| mean_key(g.neighbours()[u]))
}

/// Entries below `n` sum to no more than `n` times their number.
proof fn lemma_index_sum_bounded(adj: Seq<usize>, n: nat, k: int)
    requires
        in_range(adj, n),
        0 <= k <= adj.len(),
    ensures
        0 <= index_sum(adj, k) <= k * n,
    decreases k,
{
    if k > 0 {
        lemma_index_sum_bounded(adj, n, k - 1);
        assert((k - 1) * n + n == k * n) by (nonlinear_arith);
    } else {
        assert(0 * n == 0);
    }
}

/// The mean of the neighbours of the free vertex `u`.
fn mean_of(g: &BipartiteGraph, u: usize) -> (key: Fraction)
    requires
        g.wf(),
        u < g.n1,
    ensures
        key == mean_key(g.neighbours()[u as int]),
        key.den > 0,
{
    let adj = &g.adjs[u];
    if adj.len() == 0 {
        return Fraction { num: 0, den: 1 };
    }
    let ghost n0 = g.n0 as nat;
    proof {
        lemma_degree_bounded(g.neighbours(), u as int, u as int);
        assert(in_range(g.neighbours()[u as int], n0));
    }
    let mut sum: u64 = 0;
    let mut i: usize = 0;
    while i < adj.len()
        invariant
            0 <= i <= adj.len(),
            adj@ == g.neighbours()[u as int],
            in_range(adj@, n0),
            n0 <= u32::MAX,
            adj@.len() <= 0x7fff_ffff,
            sum == index_sum(adj@, i as int),
        decreases adj.len() - i,
    {
        proof {
            lemma_index_sum_bounded(adj@, n0, i + 1);
            assert((i + 1) * n0 <= 0x7fff_ffff * 0xffff_ffff) by (nonlinear_arith)
                requires
                    0 <= i + 1 <= 0x7fff_ffff,
                    0 <= n0 <= 0xffff_ffff,
            ;
        }
        sum = sum + adj[i] as u64;
        i += 1;
    }
    Fraction { num: sum, den: adj.len() as u64 }
}

/// The free vertices in ascending order of the mean of their neighbours; a
/// vertex without neighbours has the mean zero, and vertices with the same
/// mean stand in ascending order.
pub fn mean_heuristic(g: &BipartiteGraph) -> (ordering: Vec<usize>)
    requires
        g.wf(),
    ensures
        is_stable_order(mean_keys(g), ordering@),
{
    let mut means: Vec<Fraction> = Vec::new();
    let mut u: usize = 0;
    while u < g.n1
        invariant
            0 <= u <= g.n1,
            g.wf(),
            means@ == mean_keys(g).take(u as int),
            keys_valid(means@),
        decreases g.n1 - u,
    {
        let key = mean_of(g, u);
        means.push(key);
        u += 1;
        assert(means@ =~= mean_keys(g).take(u as int));
    }
    assert(means@ =~= mean_keys(g));
    stable_order(&means)
}

/// Below this number of free vertices the components of the precedence
/// graph are sifted one by one.
pub const SMALL_LIMIT: usize = 10_000;

/// From this number of free vertices on the free side is sifted without a
/// cache of crossing numbers.
pub const LARGE_LIMIT: usize = 75_000;

/// The groups of the first `k` vertices of `res`, one after the other.
pub open spec fn expanded(groups: Seq<Seq<usize>>, res: Seq<usize>, k: int) -> Seq<usize>
    decreases k,
{
    if k <= 0 {
        Seq::empty()
    } else {
        expanded(groups, res, k - 1) + groups[res[k - 1] as int]
    }
}

/// Every entry of `s`, raised by `d`.
pub open spec fn shifted(s: Seq<usize>, d: int) -> Seq<usize> {
    Seq::new(s.len(), |i: int| (s[i] + d) as usize)
}

/// The output for the ordering `res` of the free vertices: the isolated
/// vertices, then the group of each free vertex in the order of `res`, all
/// under the numbers that the input has for them, which start at `n0 + 1`.
pub open spec fn assembled(g: &BipartiteGraph, res: Seq<usize>) -> Seq<usize> {
    shifted(g.isolated@ + expanded(g.groups(), res, res.len() as int), g.n0 + 1)
}

/// `sccs` are the components of the precedence graph of `g`.
pub open spec fn is_reduction(g: &BipartiteGraph, sccs: Seq<SCC>) -> bool {
    &&& sccs.len() == components(g.precedence_graph()).len()
    &&& forall|c: int|
        0 <= c < sccs.len() ==> g.is_component(
            #[trigger] sccs[c],
            components(g.precedence_graph())[c],
        ) && sccs[c].wf()
}

/// `res` is an ordering of the free vertices that the solver may end with: a
/// graph below `SMALL_LIMIT` is ordered within the components of its
/// precedence graph, which stay in their order; a larger one has no more
/// crossings than the ordering by mean neighbour.
pub open spec fn is_solution(g: &BipartiteGraph, res: Seq<usize>) -> bool {
    &&& is_permutation(res, g.n1 as nat)
    &&& g.n1 < SMALL_LIMIT ==> exists|sccs: Seq<SCC>|
        #[trigger] is_reduction(g, sccs) && is_blockwise(sccs, res)
    &&& g.n1 >= SMALL_LIMIT ==> forall|base: Seq<usize>|
        #[trigger] is_stable_order(mean_keys(g), base) ==> crossing_count(g, res) <= crossing_count(
            g,
            base,
        )
}

/// How the solver arrives at `res`. A graph below `SMALL_LIMIT` falls into
/// the components of its precedence graph, and `res` is what the two phases
/// make of these, or the best orderings recorded where the flag cut the
/// first phase short. A larger graph is sifted, from the ordering by mean
/// neighbour on.
pub open spec fn is_outcome(g: &BipartiteGraph, res: Seq<usize>, aborted: bool) -> bool {
    if g.n1 < SMALL_LIMIT {
        exists|sccs: Seq<SCC>| #[trigger]
            is_reduction(g, sccs) && ((aborted && is_early_end(sccs, res)) || is_full_run(
                sccs,
                res,
                aborted,
            ))
    } else {
        sifts_to(g, res, aborted)
    }
}

/// The components, ordered one by one within themselves, make up a
/// permutation of the free vertices.
pub proof fn lemma_blockwise_permutation(g: &BipartiteGraph, sccs: Seq<SCC>, res: Seq<usize>)
    requires
        g.wf(),
        is_reduction(g, sccs),
        is_blockwise(sccs, res),
    ensures
        is_permutation(res, g.n1 as nat),
{
    let comps = components(g.precedence_graph());
    let perms = choose|perms: Seq<Seq<usize>>| is_blockwise_by(sccs, perms, res);
    lemma_components_partition(g.precedence_graph());
    let k = sccs.len() as int;
    lemma_relabel_composed(sccs, comps, perms, k);
    assert forall|c: int| 0 <= c < k implies is_permutation(#[trigger] perms[c], comps[c].len()) by {
        assert(g.is_component(sccs[c], comps[c]));
    }
    lemma_composed_multiset(comps, perms, 0, k);
    lemma_rearranged_permutation(res, concat_range(comps, 0, k), g.n1 as nat);
}

/// The orderings under their labels are the components in the order of
/// their orderings.
proof fn lemma_relabel_composed(sccs: Seq<SCC>, comps: Seq<Seq<usize>>, perms: Seq<Seq<usize>>, k: int)
    requires
        0 <= k <= sccs.len(),
        comps.len() == sccs.len(),
        forall|c: int| 0 <= c < sccs.len() ==> (#[trigger] sccs[c]).labels@ == comps[c],
    ensures
        relabel_range(sccs, perms, 0, k) == composed_range(comps, perms, 0, k),
    decreases k,
{
    if k > 0 {
        lemma_relabel_composed(sccs, comps, perms, k - 1);
        assert(sccs[k - 1].labels@ == comps[k - 1]);
    }
}

/// The output for the ordering `res` of the free vertices.
pub fn assemble(g: &BipartiteGraph, res: &Vec<usize>) -> (ordering: Vec<usize>)
    requires
        g.wf(),
        is_permutation(res@, g.n1 as nat),
    ensures
        ordering@ == assembled(g, res@),
{
    let ghost groups = g.groups();
    let shift = g.n0 + 1;
    let mut ordering: Vec<usize> = Vec::new();
    let mut i: usize = 0;
    proof {
        lemma_output_in_range(g, res@);
    }
    while i < g.isolated.len()
        invariant
            0 <= i <= g.isolated.len(),
            ordering@ == g.isolated@.take(i as int),
        decreases g.isolated.len() - i,
    {
        ordering.push(g.isolated[i]);
        i += 1;
        assert(ordering@ =~= g.isolated@.take(i as int));
    }
    assert(g.isolated@.take(i as int) =~= g.isolated@);
    let mut k: usize = 0;
    while k < res.len()
        invariant
            0 <= k <= res.len(),
            g.wf(),
            groups == g.groups(),
            is_permutation(res@, g.n1 as nat),
            ordering@ == g.isolated@ + expanded(groups, res@, k as int),
        decreases res.len() - k,
    {
        let twins = &g.ids[res[k]];
        let ghost before = ordering@;
        let mut t: usize = 0;
        while t < twins.len()
            invariant
                0 <= t <= twins.len(),
                twins@ == groups[res@[k as int] as int],
                ordering@ == before + twins@.take(t as int),
            decreases twins.len() - t,
        {
            ordering.push(twins[t]);
            t += 1;
            assert(ordering@ =~= before + twins@.take(t as int));
        }
        assert(twins@.take(t as int) =~= twins@);
        k += 1;
        assert(ordering@ =~= g.isolated@ + expanded(groups, res@, k as int));
    }
    let ghost plain = ordering@;
    let mut j: usize = 0;
    while j < ordering.len()
        invariant
            0 <= j <= ordering.len(),
            ordering@.len() == plain.len(),
            shift == g.n0 + 1,
            forall|i: int| 0 <= i < plain.len() ==> (#[trigger] plain[i]) + shift <= usize::MAX,
            forall|i: int| 0 <= i < j ==> (#[trigger] ordering@[i]) == plain[i] + shift,
            forall|i: int| j <= i < plain.len() ==> (#[trigger] ordering@[i]) == plain[i],
        decreases ordering.len() - j,
    {
        let x = ordering[j] + shift;
        ordering[j] = x;
        j += 1;
    }
    assert(ordering@ =~= shifted(plain, shift as int));
    ordering
}

/// The groups along a permutation hold what the groups hold.
pub proof fn lemma_expanded_multiset(groups: Seq<Seq<usize>>, res: Seq<usize>)
    requires
        is_permutation(res, groups.len()),
    ensures
        expanded(groups, res, res.len() as int).to_multiset() == concat_range(
            groups,
            0,
            groups.len() as int,
        ).to_multiset(),
    decreases groups.len(),
{
    broadcast use vstd::seq_lib::group_to_multiset_ensures;

    let n = groups.len();
    crate::permutation::lemma_arrangement_length(res, (usize::MAX + 1) as nat, 0);
    if n == 0 {
    } else {
        let last = (n - 1) as usize;
        lemma_permutation_contains(res, n, last);
        let p = choose|p: int| 0 <= p < res.len() && res[p] == last;
        let rest = res.remove(p);
        let shorter = groups.drop_last();
        crate::permutation::lemma_remove_keeps_arrangement(res, n, p);
        assert(is_permutation(rest, (n - 1) as nat)) by {
            assert forall|i: int| 0 <= i < rest.len() implies rest[i] < n - 1 by {
                assert(rest.contains(rest[i]));
                assert(rest[i] != last);
            }
        }
        lemma_expanded_multiset(shorter, rest);
        lemma_expanded_same(groups, shorter, rest, rest.len() as int);
        lemma_expanded_removed(groups, res, p, res.len() as int);
        lemma_concat_range_same(shorter, groups, n - 1);
        vstd::seq_lib::lemma_multiset_commutative(concat_range(groups, 0, n - 1), groups[n - 1]);
    }
}

/// Groups that no vertex names do not matter.
proof fn lemma_expanded_same(groups: Seq<Seq<usize>>, shorter: Seq<Seq<usize>>, res: Seq<usize>, k: int)
    requires
        0 <= k <= res.len(),
        in_range(res, shorter.len()),
        shorter.len() <= groups.len(),
        forall|i: int| 0 <= i < shorter.len() ==> shorter[i] == groups[i],
    ensures
        expanded(groups, res, k) == expanded(shorter, res, k),
    decreases k,
{
    if k > 0 {
        lemma_expanded_same(groups, shorter, res, k - 1);
    }
}

/// Without the vertex at position `p` the expansion lacks the group of that
/// vertex and nothing else.
proof fn lemma_expanded_removed(groups: Seq<Seq<usize>>, res: Seq<usize>, p: int, k: int)
    requires
        0 <= p < res.len(),
        p < k <= res.len(),
    ensures
        expanded(groups, res, k).to_multiset() == expanded(groups, res.remove(p), k - 1).to_multiset().add(
            groups[res[p] as int].to_multiset(),
        ),
    decreases k,
{
    broadcast use vstd::seq_lib::group_to_multiset_ensures;

    let rest = res.remove(p);
    if k == p + 1 {
        lemma_expanded_prefix(groups, res, rest, p);
        vstd::seq_lib::lemma_multiset_commutative(expanded(groups, res, p), groups[res[p] as int]);
    } else {
        lemma_expanded_removed(groups, res, p, k - 1);
        assert(rest[k - 2] == res[k - 1]);
        let block = groups[res[k - 1] as int];
        vstd::seq_lib::lemma_multiset_commutative(expanded(groups, res, k - 1), block);
        vstd::seq_lib::lemma_multiset_commutative(expanded(groups, rest, k - 2), block);
        assert(expanded(groups, rest, k - 2).to_multiset().add(groups[res[p] as int].to_multiset()).add(
            block.to_multiset(),
        ) =~= expanded(groups, rest, k - 2).to_multiset().add(block.to_multiset()).add(
            groups[res[p] as int].to_multiset(),
        ));
    }
}

/// `expanded` looks at the first `k` vertices only.
proof fn lemma_expanded_prefix(groups: Seq<Seq<usize>>, res: Seq<usize>, other: Seq<usize>, k: int)
    requires
        0 <= k <= res.len(),
        k <= other.len(),
        forall|i: int| 0 <= i < k ==> res[i] == other[i],
    ensures
        expanded(groups, res, k) == expanded(groups, other, k),
    decreases k,
{
    if k > 0 {
        lemma_expanded_prefix(groups, res, other, k - 1);
    }
}

/// The output names every free vertex of the input exactly once: before the
/// shift it is a permutation of the vertices of the input.
pub proof fn lemma_output_permutation(g: &BipartiteGraph, res: Seq<usize>)
    requires
        g.wf(),
        is_permutation(res, g.n1 as nat),
    ensures
        is_permutation(
            g.isolated@ + expanded(g.groups(), res, res.len() as int),
            g.input_size(),
        ),
        assembled(g, res).len() == g.input_size(),
{
    lemma_expanded_multiset(g.groups(), res);
    let out = g.isolated@ + expanded(g.groups(), res, res.len() as int);
    let given = g.isolated@ + g.grouped();
    vstd::seq_lib::lemma_multiset_commutative(g.isolated@, expanded(g.groups(), res, res.len() as int));
    vstd::seq_lib::lemma_multiset_commutative(g.isolated@, g.grouped());
    lemma_rearranged_permutation(out, given, g.input_size());
}

/// Every entry of the output, also of one under way, leaves room for the
/// shift.
proof fn lemma_output_in_range(g: &BipartiteGraph, res: Seq<usize>)
    requires
        g.wf(),
        is_permutation(res, g.n1 as nat),
    ensures
        forall|k: int, i: int|
            0 <= k <= res.len() && 0 <= i < (g.isolated@ + expanded(g.groups(), res, k)).len() ==> (
            #[trigger] (g.isolated@ + expanded(g.groups(), res, k))[i]) + g.n0 + 1 <= usize::MAX,
{
    lemma_output_permutation(g, res);
    let full = g.isolated@ + expanded(g.groups(), res, res.len() as int);
    assert forall|k: int, i: int|
        0 <= k <= res.len() && 0 <= i < (g.isolated@ + expanded(g.groups(), res, k)).len() implies (
    #[trigger] (g.isolated@ + expanded(g.groups(), res, k))[i]) + g.n0 + 1 <= usize::MAX by {
        lemma_expanded_grows(g.groups(), res, k, res.len() as int);
        let part = g.isolated@ + expanded(g.groups(), res, k);
        assert(part[i] == full[i]);
        assert(full[i] < g.input_size());
    }
}

/// The expansion of more vertices starts with that of fewer.
proof fn lemma_expanded_grows(groups: Seq<Seq<usize>>, res: Seq<usize>, k: int, m: int)
    requires
        0 <= k <= m,
    ensures
        expanded(groups, res, k).is_prefix_of(expanded(groups, res, m)),
    decreases m,
{
    if k < m {
        lemma_expanded_grows(groups, res, k, m - 1);
    }
}

/// Orders the free side of `g`: isolated vertices first, then the free
/// vertices in the order that sifting finds, each with the vertices that it
/// stands for. Which sifter runs goes by the number of free vertices. The
/// ordering is given in the numbers of the input.
pub fn start(g: &BipartiteGraph, abort: &mut AbortFlag) -> (ordering: Vec<usize>)
    requires
        g.wf(),
    ensures
        old(abort).seen() ==> final(abort).seen(),
        exists|res: Seq<usize>| #[trigger]
            is_solution(g, res) && is_outcome(g, res, final(abort).seen()) && ordering@ == assembled(
                g,
                res,
            ),
{
    let res = if g.n1 < SMALL_LIMIT {
        let sccs = g.reduce();
        let res = sifting_heuristic(g, &sccs, abort);
        proof {
            assert(is_reduction(g, sccs@));
            lemma_blockwise_permutation(g, sccs@, res@);
        }
        res
    } else if g.n1 < LARGE_LIMIT {
        sifting_large(g, abort)
    } else {
        sifting_very_large(g, abort)
    };
    assert(is_solution(g, res@));
    assert(is_outcome(g, res@, abort.seen()));
    assemble(g, &res)
}

/// The output names every free vertex of the input exactly once, under the
/// numbers `n0 + 1`, ..., `n0 + n` that the input has for them.
pub proof fn lemma_output_covers(g: &BipartiteGraph, res: Seq<usize>)
    requires
        g.wf(),
        is_permutation(res, g.n1 as nat),
    ensures
        assembled(g, res).len() == g.input_size(),
        assembled(g, res).no_duplicates(),
        forall|i: int|
            0 <= i < assembled(g, res).len() ==> g.n0 < #[trigger] assembled(g, res)[i] <= g.n0
                + g.input_size(),
        forall|x: usize|
            g.n0 < x <= g.n0 + g.input_size() ==> #[trigger] assembled(g, res).contains(x),
{
    lemma_output_permutation(g, res);
    let plain = g.isolated@ + expanded(g.groups(), res, res.len() as int);
    let out = assembled(g, res);
    assert forall|i: int| 0 <= i < out.len() implies g.n0 < #[trigger] out[i] <= g.n0
        + g.input_size() by {
        assert(plain[i] < g.input_size());
    }
    assert forall|i: int, j: int| 0 <= i < out.len() && 0 <= j < out.len() && i != j implies out[i]
        != out[j] by {
        assert(plain[i] != plain[j]);
        assert(plain[i] < g.input_size() && plain[j] < g.input_size());
    }
    assert forall|x: usize| g.n0 < x <= g.n0 + g.input_size() implies #[trigger] out.contains(
        x,
    ) by {
        let y = (x - g.n0 - 1) as usize;
        lemma_permutation_contains(plain, g.input_size(), y);
        let i = choose|i: int| 0 <= i < plain.len() && plain[i] == y;
        assert(out[i] == x);
    }
}

/// The place in the output at which the group of the free vertex at
/// position `k` of `res` starts.
pub open spec fn group_offset(g: &BipartiteGraph, res: Seq<usize>, k: int) -> int {
    (g.isolated@.len() + expanded(g.groups(), res, k).len()) as int
}

/// The vertices that a free vertex stands for stay together in the output,
/// in their order: the group of the free vertex at position `k` of `res`
/// follows the isolated vertices and the groups of the free vertices before
/// it.
pub proof fn lemma_twins_contiguous(g: &BipartiteGraph, res: Seq<usize>, k: int)
    requires
        g.wf(),
        is_permutation(res, g.n1 as nat),
        0 <= k < res.len(),
    ensures
        group_offset(g, res, k) + g.groups()[res[k] as int].len() <= assembled(g, res).len(),
        assembled(g, res).subrange(
            group_offset(g, res, k),
            group_offset(g, res, k) + g.groups()[res[k] as int].len(),
        ) == shifted(g.groups()[res[k] as int], g.n0 + 1),
{
    let groups = g.groups();
    let full = expanded(groups, res, res.len() as int);
    let head = expanded(groups, res, k);
    let block = groups[res[k] as int];
    lemma_expanded_grows(groups, res, k + 1, res.len() as int);
    assert(expanded(groups, res, k + 1) == head + block);
    let off = group_offset(g, res, k);
    let out = assembled(g, res);
    assert(out.subrange(off, off + block.len()) =~= shifted(block, g.n0 + 1)) by {
        let want = shifted(block, g.n0 + 1);
        assert forall|i: int| 0 <= i < block.len() implies out[off + i] == #[trigger] want[i] by {
            assert((head + block)[head.len() + i] == block[i]);
            assert(full[head.len() + i] == block[i]);
        }
    }
}

} // verus!
