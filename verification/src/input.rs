//! From the edges of the input to the graph that the sifters work on:
//! adjacency lists are gathered and sorted, isolated vertices are set apart,
//! and free vertices with the same neighbours are merged.

use vstd::prelude::*;
use crate::bipartite_graph::{ascending, degrees, BipartiteGraph, EDGE_LIMIT};
use crate::cost::{adjacency, lemma_seq_sum_take, seq_sum};
use crate::permutation::{identity, in_range, is_permutation, lemma_rearranged_identity};
use crate::refine::lemma_relabel_multiset;
use crate::sifting::relabel;
use crate::sorting::{ranks_before, stable_order, Fraction};
use crate::traversal::{concat_range, lemma_concat_push, lemma_concat_range_same};

verus! {

/// The fixed-side ends of those among the first `k` edges that end at the
/// free vertex `x`, in the order of the edges.
pub open spec fn neighbours_of(edges: Seq<(usize, usize)>, x: int, k: int) -> Seq<usize>
    decreases k,
{
    if k <= 0 {
        Seq::empty()
    } else if edges[k - 1].1 == x {
        neighbours_of(edges, x, k - 1).push(edges[k - 1].0)
    } else {
        neighbours_of(edges, x, k - 1)
    }
}

/// Every edge joins a vertex of the fixed side to one of the free side.
pub open spec fn edges_valid(n0: usize, n1: usize, edges: Seq<(usize, usize)>) -> bool {
    forall|k: int| 0 <= k < edges.len() ==> (#[trigger] edges[k]).0 < n0 && edges[k].1 < n1
}

/// The total length of the first `m` lists.
pub open spec fn total_len(lists: Seq<Vec<usize>>, m: int) -> int
    decreases m,
{
    if m <= 0 {
        0
    } else {
        total_len(lists, m - 1) + lists[m - 1]@.len()
    }
}

/// One more entry in one list is one more in all.
proof fn lemma_total_len_update(lists: Seq<Vec<usize>>, changed: Seq<Vec<usize>>, x: int, m: int)
    requires
        0 <= x < lists.len(),
        0 <= m <= lists.len(),
        changed.len() == lists.len(),
        forall|i: int| 0 <= i < lists.len() && i != x ==> changed[i] == lists[i],
        changed[x]@.len() == lists[x]@.len() + 1,
    ensures
        total_len(changed, m) == total_len(lists, m) + if x < m {
            1int
        } else {
            0int
        },
    decreases m,
{
    if m > 0 {
        lemma_total_len_update(lists, changed, x, m - 1);
    }
}

/// Empty lists have no entries.
proof fn lemma_total_len_empty(lists: Seq<Vec<usize>>, m: int)
    requires
        0 <= m <= lists.len(),
        forall|i: int| 0 <= i < lists.len() ==> (#[trigger] lists[i])@.len() == 0,
    ensures
        total_len(lists, m) == 0,
    decreases m,
{
    if m > 0 {
        lemma_total_len_empty(lists, m - 1);
    }
}

/// For each free vertex the fixed-side ends of its edges, in the order of
/// the edges.
pub fn adjacency_lists(n1: usize, edges: &Vec<(usize, usize)>) -> (lists: Vec<Vec<usize>>)
    requires
        forall|k: int| 0 <= k < edges@.len() ==> (#[trigger] edges@[k]).1 < n1,
    ensures
        lists@.len() == n1,
        forall|x: int|
            0 <= x < n1 ==> (#[trigger] lists@[x])@ == neighbours_of(edges@, x, edges@.len() as int),
        total_len(lists@, n1 as int) == edges@.len(),
{
    let mut lists: Vec<Vec<usize>> = vec![Vec::new(); n1];
    proof {
        lemma_total_len_empty(lists@, n1 as int);
    }
    let mut k: usize = 0;
    while k < edges.len()
        invariant
            0 <= k <= edges.len(),
            forall|j: int| 0 <= j < edges@.len() ==> (#[trigger] edges@[j]).1 < n1,
            lists@.len() == n1,
            forall|x: int| 0 <= x < n1 ==> (#[trigger] lists@[x])@ == neighbours_of(edges@, x, k as int),
            total_len(lists@, n1 as int) == k,
        decreases edges.len() - k,
    {
        let (a, b) = edges[k];
        let ghost before = lists@;
        assert(edges@[k as int].1 < n1);
        lists[b].push(a);
        proof {
            lemma_total_len_update(before, lists@, b as int, n1 as int);
            assert forall|x: int| 0 <= x < n1 implies (#[trigger] lists@[x])@ == neighbours_of(
                edges@,
                x,
                k + 1,
            ) by {
                if x != b {
                    assert(lists@[x] == before[x]);
                }
            }
        }
        k += 1;
    }
    lists
}

/// The keys by which values are sorted: the values themselves.
pub open spec fn value_keys(list: Seq<usize>) -> Seq<Fraction> {
    Seq::new(list.len(), |i: int| Fraction { num: list[i] as u64, den: 1 })
}

/// The entries of `list` in ascending order.
pub fn sorted_copy(list: &Vec<usize>) -> (out: Vec<usize>)
    ensures
        ascending(out@),
        out@.to_multiset() == list@.to_multiset(),
        out@.len() == list@.len(),
{
    let mut keys: Vec<Fraction> = Vec::new();
    let mut i: usize = 0;
    while i < list.len()
        invariant
            0 <= i <= list.len(),
            keys@ == value_keys(list@).take(i as int),
        decreases list.len() - i,
    {
        keys.push(Fraction::whole(list[i] as u64));
        i += 1;
        assert(keys@ =~= value_keys(list@).take(i as int));
    }
    assert(keys@ =~= value_keys(list@));
    let order = stable_order(&keys);
    let mut out: Vec<usize> = Vec::new();
    let mut i: usize = 0;
    while i < order.len()
        invariant
            0 <= i <= order.len(),
            is_permutation(order@, list@.len()),
            out@ == relabel(list@, order@).take(i as int),
        decreases order.len() - i,
    {
        out.push(list[order[i]]);
        i += 1;
        assert(out@ =~= relabel(list@, order@).take(i as int));
    }
    proof {
        assert(out@ =~= relabel(list@, order@));
        lemma_relabel_multiset(list@, order@);
        assert forall|a: int, b: int| 0 <= a < b < out@.len() implies out@[a] <= out@[b] by {
            let (x, y) = (order@[a], order@[b]);
            assert(ranks_before(keys@, x, y));
            let (kx, ky) = (keys@[x as int], keys@[y as int]);
            assert(kx.num == list@[x as int] && ky.num == list@[y as int]);
            assert(!ky.lt(kx) ==> kx.num <= ky.num) by (nonlinear_arith)
                requires
                    kx.den == 1,
                    ky.den == 1,
                    ky.lt(kx) == (ky.num * kx.den < kx.num * ky.den),
            ;
            assert(kx.lt(ky) ==> kx.num <= ky.num) by (nonlinear_arith)
                requires
                    kx.den == 1,
                    ky.den == 1,
                    kx.lt(ky) == (kx.num * ky.den < ky.num * kx.den),
            ;
        }
    }
    out
}

/// Whether two lists hold the same entries in the same order.
pub fn same_list(a: &Vec<usize>, b: &Vec<usize>) -> (same: bool)
    ensures
        same == (a@ == b@),
{
    if a.len() != b.len() {
        return false;
    }
    let mut i: usize = 0;
    while i < a.len()
        invariant
            0 <= i <= a.len(),
            a@.len() == b@.len(),
            forall|k: int| 0 <= k < i ==> a@[k] == b@[k],
        decreases a.len() - i,
    {
        if a[i] != b[i] {
            return false;
        }
        i += 1;
    }
    assert(a@ =~= b@);
    true
}

/// Each of the first `m` entries of `s`, `k` times over.
pub open spec fn repeated(s: Seq<usize>, k: nat, m: int) -> Seq<usize>
    decreases m,
{
    if m <= 0 {
        Seq::empty()
    } else {
        repeated(s, k, m - 1) + Seq::new(k, |i: int| s[m - 1])
    }
}

/// What `repeated` is like.
pub proof fn lemma_repeated(s: Seq<usize>, k: nat, m: int, n: nat)
    requires
        0 <= m <= s.len(),
        ascending(s),
        in_range(s, n),
    ensures
        repeated(s, k, m).len() == m * k,
        ascending(repeated(s, k, m)),
        in_range(repeated(s, k, m), n),
        forall|i: int| 0 <= i < repeated(s, k, m).len() && m > 0 ==> repeated(s, k, m)[i] <= s[m - 1],
    decreases m,
{
    if m > 0 {
        lemma_repeated(s, k, m - 1, n);
        let head = repeated(s, k, m - 1);
        let cur = repeated(s, k, m);
        assert((m - 1) * k + k == m * k) by (nonlinear_arith);
        assert forall|i: int| 0 <= i < cur.len() implies cur[i] <= s[m - 1] && cur[i] < n by {
            if i < head.len() {
                assert(cur[i] == head[i]);
                assert(m - 1 > 0);
                assert(s[m - 2] <= s[m - 1]);
            } else {
                assert(cur[i] == s[m - 1]);
            }
        }
        assert forall|i: int, j: int| 0 <= i < j < cur.len() implies cur[i] <= cur[j] by {
            if j < head.len() {
                assert(cur[i] == head[i] && cur[j] == head[j]);
            } else {
                assert(cur[j] == s[m - 1]);
            }
        }
    } else {
        assert(0 * k == 0) by (nonlinear_arith);
    }
}

/// Each entry of `list`, `k` times over.
pub fn repeat_each(list: &Vec<usize>, k: usize) -> (out: Vec<usize>)
    ensures
        out@ == repeated(list@, k as nat, list@.len() as int),
{
    let mut out: Vec<usize> = Vec::new();
    let mut m: usize = 0;
    while m < list.len()
        invariant
            0 <= m <= list.len(),
            out@ == repeated(list@, k as nat, m as int),
        decreases list.len() - m,
    {
        let x = list[m];
        let ghost before = out@;
        let mut i: usize = 0;
        while i < k
            invariant
                0 <= i <= k,
                0 <= m < list.len(),
                x == list@[m as int],
                out@ == before + Seq::new(i as nat, |j: int| x),
            decreases k - i,
        {
            out.push(x);
            i += 1;
            assert(out@ =~= before + Seq::new(i as nat, |j: int| x));
        }
        m += 1;
        assert(Seq::new(k as nat, |j: int| x) =~= Seq::new(k as nat, |j: int| list@[m - 1]));
    }
    out
}

/// The number of the list among `base` that equals `list`, if there is one.
fn find_group(base: &Vec<Vec<usize>>, list: &Vec<usize>) -> (found: Option<usize>)
    ensures
        match found {
            Some(r) => r < base@.len() && base@[r as int]@ == list@,
            None => forall|r: int| 0 <= r < base@.len() ==> (#[trigger] base@[r])@ != list@,
        },
{
    let mut r: usize = 0;
    while r < base.len()
        invariant
            0 <= r <= base.len(),
            forall|q: int| 0 <= q < r ==> (#[trigger] base@[q])@ != list@,
        decreases base.len() - r,
    {
        if same_list(&base[r], list) {
            return Some(r);
        }
        r += 1;
    }
    None
}

/// The number of edges of the first `m` groups: each list of neighbours
/// counts once for each vertex of its group.
pub open spec fn group_edges(ids: Seq<Vec<usize>>, base: Seq<Vec<usize>>, m: int) -> int
    decreases m,
{
    if m <= 0 {
        0
    } else {
        group_edges(ids, base, m - 1) + ids[m - 1]@.len() * base[m - 1]@.len()
    }
}

/// One more vertex in a group adds the edges of the group once more.
proof fn lemma_group_edges_push(
    ids: Seq<Vec<usize>>,
    base: Seq<Vec<usize>>,
    changed: Seq<Vec<usize>>,
    r: int,
    m: int,
)
    requires
        0 <= r < ids.len(),
        0 <= m <= ids.len(),
        changed.len() == ids.len(),
        forall|i: int| 0 <= i < ids.len() && i != r ==> changed[i] == ids[i],
        changed[r]@.len() == ids[r]@.len() + 1,
    ensures
        group_edges(changed, base, m) == group_edges(ids, base, m) + if r < m {
            base[r]@.len() as int
        } else {
            0int
        },
    decreases m,
{
    if m > 0 {
        lemma_group_edges_push(ids, base, changed, r, m - 1);
        if r == m - 1 {
            let (a, b) = (ids[r]@.len() as int, base[r]@.len() as int);
            assert((a + 1) * b == a * b + b) by (nonlinear_arith);
        }
    }
}

/// `group_edges` looks at the first `m` groups only.
proof fn lemma_group_edges_prefix(
    ids: Seq<Vec<usize>>,
    base: Seq<Vec<usize>>,
    ids2: Seq<Vec<usize>>,
    base2: Seq<Vec<usize>>,
    m: int,
)
    requires
        0 <= m <= ids.len(),
        m <= base.len(),
        m <= ids2.len(),
        m <= base2.len(),
        forall|i: int| 0 <= i < m ==> ids2[i] == ids[i] && base2[i] == base[i],
    ensures
        group_edges(ids2, base2, m) == group_edges(ids, base, m),
    decreases m,
{
    if m > 0 {
        lemma_group_edges_prefix(ids, base, ids2, base2, m - 1);
    }
}

/// The groups and the isolated vertices that the first `x` free vertices
/// fall into.
pub open spec fn grouping_valid(
    sorted: Seq<Vec<usize>>,
    x: int,
    isolated: Seq<usize>,
    base: Seq<Vec<usize>>,
    ids: Seq<Vec<usize>>,
) -> bool {
    &&& base.len() == ids.len()
    &&& forall|i: int| 0 <= i < isolated.len() ==> sorted[(#[trigger] isolated[i]) as int]@.len() == 0
    &&& forall|r: int| 0 <= r < ids.len() ==> (#[trigger] ids[r])@.len() > 0 && base[r]@.len() > 0
    &&& forall|r: int, i: int|
        0 <= r < ids.len() && 0 <= i < ids[r]@.len() ==> (#[trigger] ids[r]@[i]) < x
            && sorted[ids[r]@[i] as int]@ == base[r]@
    &&& (isolated + concat_range(adjacency(ids), 0, ids.len() as int)).to_multiset() == identity(
        x as nat,
    ).to_multiset()
    &&& group_edges(ids, base, ids.len() as int) == total_len(sorted, x)
    &&& forall|r: int, q: int|
        0 <= r < q < base.len() ==> (#[trigger] base[r])@ != (#[trigger] base[q])@
    &&& strictly_ascending(isolated)
    &&& forall|i: int| 0 <= i < isolated.len() ==> (#[trigger] isolated[i]) < x
    &&& forall|r: int| 0 <= r < ids.len() ==> strictly_ascending((#[trigger] ids[r])@)
    &&& forall|r: int, q: int|
        0 <= r < q < ids.len() ==> (#[trigger] ids[r])@[0] < (#[trigger] ids[q])@[0]
}

/// Each entry of `s` is greater than the one before.
pub open spec fn strictly_ascending(s: Seq<usize>) -> bool {
    forall|i: int, j: int| 0 <= i < j < s.len() ==> s[i] < s[j]
}

/// The test "is at most".
pub open spec fn at_most() -> spec_fn(usize, usize) -> bool {
    |a: usize, b: usize| a <= b
}

/// Ascending lists of the same entries are the same.
pub proof fn lemma_ascending_unique(a: Seq<usize>, b: Seq<usize>)
    requires
        ascending(a),
        ascending(b),
        a.to_multiset() == b.to_multiset(),
    ensures
        a == b,
{
    let leq = at_most();
    assert(vstd::relations::sorted_by(a, leq));
    assert(vstd::relations::sorted_by(b, leq));
    assert(vstd::relations::total_ordering(leq)) by {
        assert(vstd::relations::reflexive(leq));
        assert(vstd::relations::antisymmetric(leq));
        assert(vstd::relations::transitive(leq));
        assert(vstd::relations::strongly_connected(leq));
    }
    vstd::seq_lib::lemma_sorted_unique(a, b, leq);
}

/// A new group at the end adds its vertices to those of the groups.
proof fn lemma_concat_new_group(parts: Seq<Seq<usize>>, block: Seq<usize>)
    ensures
        concat_range(parts.push(block), 0, parts.len() as int + 1) == concat_range(
            parts,
            0,
            parts.len() as int,
        ) + block,
{
    lemma_concat_range_same(parts, parts.push(block), parts.len() as int);
}

/// Sorts every list.
fn sort_all(lists: &Vec<Vec<usize>>) -> (sorted: Vec<Vec<usize>>)
    ensures
        sorted@.len() == lists@.len(),
        forall|x: int|
            0 <= x < lists@.len() ==> ascending((#[trigger] sorted@[x])@) && sorted@[x]@.to_multiset()
                == lists@[x]@.to_multiset() && sorted@[x]@.len() == lists@[x]@.len(),
        total_len(sorted@, lists@.len() as int) == total_len(lists@, lists@.len() as int),
{
    let mut sorted: Vec<Vec<usize>> = Vec::new();
    let mut x: usize = 0;
    while x < lists.len()
        invariant
            0 <= x <= lists.len(),
            sorted@.len() == x,
            forall|y: int|
                0 <= y < x ==> ascending((#[trigger] sorted@[y])@) && sorted@[y]@.to_multiset()
                    == lists@[y]@.to_multiset() && sorted@[y]@.len() == lists@[y]@.len(),
        decreases lists.len() - x,
    {
        sorted.push(sorted_copy(&lists[x]));
        x += 1;
    }
    proof {
        lemma_total_len_same(sorted@, lists@, lists@.len() as int);
    }
    sorted
}

/// Lists of the same lengths have the same total length.
proof fn lemma_total_len_same(a: Seq<Vec<usize>>, b: Seq<Vec<usize>>, m: int)
    requires
        0 <= m <= a.len(),
        m <= b.len(),
        forall|i: int| 0 <= i < m ==> (#[trigger] a[i])@.len() == b[i]@.len(),
    ensures
        total_len(a, m) == total_len(b, m),
    decreases m,
{
    if m > 0 {
        lemma_total_len_same(a, b, m - 1);
    }
}

/// Sets the free vertices without neighbours apart and merges those with
/// the same neighbours.
fn group_twins(sorted: &Vec<Vec<usize>>) -> (res: (Vec<usize>, Vec<Vec<usize>>, Vec<Vec<usize>>))
    ensures
        grouping_valid(sorted@, sorted@.len() as int, res.0@, res.1@, res.2@),
{
    let n1 = sorted.len();
    let mut isolated: Vec<usize> = Vec::new();
    let mut base: Vec<Vec<usize>> = Vec::new();
    let mut ids: Vec<Vec<usize>> = Vec::new();
    let mut x: usize = 0;
    proof {
        assert(isolated@ + concat_range(adjacency(ids@), 0, 0) =~= identity(0));
    }
    while x < n1
        invariant
            0 <= x <= n1,
            n1 == sorted@.len(),
            grouping_valid(sorted@, x as int, isolated@, base@, ids@),
        decreases n1 - x,
    {
        broadcast use vstd::seq_lib::group_to_multiset_ensures;

        let list = &sorted[x];
        let ghost iso0 = isolated@;
        let ghost base0 = base@;
        let ghost ids0 = ids@;
        let ghost groups0 = concat_range(adjacency(ids0), 0, ids0.len() as int);
        proof {
            assert(identity((x + 1) as nat) =~= identity(x as nat).push(x));
            vstd::seq_lib::lemma_multiset_commutative(iso0, groups0);
        }
        if list.len() == 0 {
            isolated.push(x);
            proof {
                vstd::seq_lib::lemma_multiset_commutative(isolated@, groups0);
                assert((isolated@ + groups0).to_multiset() =~= identity(
                    (x + 1) as nat,
                ).to_multiset());
                assert forall|i: int, j: int| 0 <= i < j < isolated@.len() implies isolated@[i]
                    < isolated@[j] by {
                    assert(isolated@[i] == iso0[i]);
                    if j < iso0.len() {
                        assert(isolated@[j] == iso0[j]);
                    }
                }
            }
        } else {
            match find_group(&base, list) {
                Some(r) => {
                    ids[r].push(x);
                    proof {
                        let parts0 = adjacency(ids0);
                        assert(adjacency(ids@) =~= parts0.update(r as int, parts0[r as int].push(x)));
                        lemma_concat_push(parts0, r as int, x, ids0.len() as int);
                        let groups1 = concat_range(adjacency(ids@), 0, ids@.len() as int);
                        vstd::seq_lib::lemma_multiset_commutative(iso0, groups1);
                        assert((iso0 + groups1).to_multiset() =~= identity(
                            (x + 1) as nat,
                        ).to_multiset());
                        lemma_group_edges_push(ids0, base0, ids@, r as int, ids0.len() as int);
                        assert forall|q: int, i: int|
                            0 <= q < ids@.len() && 0 <= i < ids@[q]@.len() implies (
                        #[trigger] ids@[q]@[i]) < x + 1 && sorted@[ids@[q]@[i] as int]@ == base@[q]@ by {
                            if q == r {
                                if i < ids0[q]@.len() {
                                    assert(ids@[q]@[i] == ids0[q]@[i]);
                                }
                            } else {
                                assert(ids@[q] == ids0[q]);
                            }
                        }
                        assert forall|q: int| 0 <= q < ids@.len() implies (#[trigger] ids@[q])@.len()
                            > 0 && base@[q]@.len() > 0 by {
                            assert(ids0[q]@.len() > 0);
                        }
                        assert forall|q: int| 0 <= q < ids@.len() implies strictly_ascending(
                            (#[trigger] ids@[q])@,
                        ) by {
                            assert(strictly_ascending(ids0[q]@));
                            if q == r {
                                assert forall|i: int, j: int|
                                    0 <= i < j < ids@[q]@.len() implies ids@[q]@[i] < ids@[q]@[j] by {
                                    assert(ids@[q]@[i] == ids0[q]@[i]);
                                    if j < ids0[q]@.len() {
                                        assert(ids@[q]@[j] == ids0[q]@[j]);
                                    }
                                }
                            }
                        }
                        assert forall|q: int, q2: int| 0 <= q < q2 < ids@.len() implies (
                        #[trigger] ids@[q])@[0] < (#[trigger] ids@[q2])@[0] by {
                            assert(ids0[q]@[0] < ids0[q2]@[0]);
                            assert(ids0[q]@.len() > 0 && ids0[q2]@.len() > 0);
                        }
                    }
                },
                None => {
                    let mut group: Vec<usize> = Vec::new();
                    group.push(x);
                    ids.push(group);
                    base.push(list.clone());
                    proof {
                        let parts0 = adjacency(ids0);
                        assert(adjacency(ids@) =~= parts0.push(seq![x]));
                        lemma_concat_new_group(parts0, seq![x]);
                        let groups1 = concat_range(adjacency(ids@), 0, ids@.len() as int);
                        assert(groups1 == groups0 + seq![x]);
                        vstd::seq_lib::lemma_multiset_commutative(iso0, groups1);
                        vstd::seq_lib::lemma_multiset_commutative(groups0, seq![x]);
                        assert(seq![x].to_multiset() =~= vstd::multiset::Multiset::empty().insert(x)) by {
                            assert(seq![x] =~= Seq::<usize>::empty().push(x));
                        }
                        assert((iso0 + groups1).to_multiset() =~= identity(
                            (x + 1) as nat,
                        ).to_multiset());
                        lemma_group_edges_prefix(ids0, base0, ids@, base@, ids0.len() as int);
                        assert(base@[ids0.len() as int]@ == list@);
                        assert(ids@[ids0.len() as int]@.len() == 1);
                        assert forall|q: int, i: int|
                            0 <= q < ids@.len() && 0 <= i < ids@[q]@.len() implies (
                        #[trigger] ids@[q]@[i]) < x + 1 && sorted@[ids@[q]@[i] as int]@ == base@[q]@ by {
                            if q < ids0.len() {
                                assert(ids@[q] == ids0[q]);
                                assert(base@[q] == base0[q]);
                            }
                        }
                        assert forall|q: int| 0 <= q < ids@.len() implies (#[trigger] ids@[q])@.len()
                            > 0 && base@[q]@.len() > 0 by {
                            if q < ids0.len() {
                                assert(ids@[q] == ids0[q]);
                                assert(base@[q] == base0[q]);
                            }
                        }
                        assert forall|q: int, q2: int| 0 <= q < q2 < base@.len() implies (
                        #[trigger] base@[q])@ != (#[trigger] base@[q2])@ by {
                            assert(base@[q] == base0[q]);
                            if q2 < base0.len() {
                                assert(base@[q2] == base0[q2]);
                            }
                        }
                        assert forall|q: int| 0 <= q < ids@.len() implies strictly_ascending(
                            (#[trigger] ids@[q])@,
                        ) by {
                            if q < ids0.len() {
                                assert(ids@[q] == ids0[q]);
                            }
                        }
                        assert forall|q: int, q2: int| 0 <= q < q2 < ids@.len() implies (
                        #[trigger] ids@[q])@[0] < (#[trigger] ids@[q2])@[0] by {
                            assert(ids@[q] == ids0[q]);
                            assert(ids0[q]@.len() > 0);
                            if q2 < ids0.len() {
                                assert(ids@[q2] == ids0[q2]);
                            } else {
                                assert(ids0[q]@[0] < x);
                            }
                        }
                    }
                },
            }
        }
        x += 1;
    }
    (isolated, base, ids)
}

/// The input can be taken: it stays within the limits on the size of a
/// graph, and every edge joins a vertex of the fixed side to one of the free
/// side.
pub open spec fn fits(n0: usize, n1: usize, edges: Seq<(usize, usize)>) -> bool {
    &&& n0 <= u32::MAX
    &&& edges.len() <= EDGE_LIMIT
    &&& n0 + n1 < usize::MAX
    &&& edges_valid(n0, n1, edges)
}

/// `adj` is what a free vertex has for neighbours that stands for `k`
/// vertices with the neighbours `raw`: these in ascending order, each `k`
/// times over.
pub open spec fn is_merged(adj: Seq<usize>, raw: Seq<usize>, k: nat) -> bool {
    raw.len() > 0 && exists|s: Seq<usize>|
        ascending(s) && s.to_multiset() == raw.to_multiset() && adj == #[trigger] repeated(
            s,
            k,
            s.len() as int,
        )
}

/// The graph holds the edges of the input: the isolated vertices have none,
/// and every free vertex has the neighbours of each vertex that it stands
/// for, once for each of them. Vertices with the same neighbours stand in
/// one group; isolated vertices, the vertices of a group and the groups, by
/// their first vertex, ascend.
pub open spec fn describes(g: &BipartiteGraph, edges: Seq<(usize, usize)>) -> bool {
    &&& forall|i: int|
        0 <= i < g.isolated@.len() ==> neighbours_of(
            edges,
            (#[trigger] g.isolated@[i]) as int,
            edges.len() as int,
        ).len() == 0
    &&& forall|r: int, i: int|
        0 <= r < g.n1 && 0 <= i < g.groups()[r].len() ==> is_merged(
            g.neighbours()[r],
            neighbours_of(edges, (#[trigger] g.groups()[r][i]) as int, edges.len() as int),
            g.groups()[r].len(),
        )
    &&& strictly_ascending(g.isolated@)
    &&& forall|r: int| 0 <= r < g.n1 ==> strictly_ascending(#[trigger] g.groups()[r])
    &&& forall|r: int, q: int|
        0 <= r < q < g.n1 ==> (#[trigger] g.groups()[r])[0] < (#[trigger] g.groups()[q])[0]
    &&& forall|r: int, q: int, i: int, j: int|
        0 <= r < q < g.n1 && 0 <= i < g.groups()[r].len() && 0 <= j < g.groups()[q].len()
            ==> neighbours_of(
            edges,
            (#[trigger] g.groups()[r][i]) as int,
            edges.len() as int,
        ).to_multiset() != neighbours_of(
            edges,
            (#[trigger] g.groups()[q][j]) as int,
            edges.len() as int,
        ).to_multiset()
}

/// The neighbours of a free vertex are vertices of the fixed side.
proof fn lemma_neighbours_in_range(n0: usize, n1: usize, edges: Seq<(usize, usize)>, x: int, k: int)
    requires
        edges_valid(n0, n1, edges),
        0 <= k <= edges.len(),
    ensures
        in_range(neighbours_of(edges, x, k), n0 as nat),
    decreases k,
{
    if k > 0 {
        lemma_neighbours_in_range(n0, n1, edges, x, k - 1);
    }
}

/// A rearrangement of entries below `n` has entries below `n`.
proof fn lemma_rearranged_in_range(s: Seq<usize>, t: Seq<usize>, n: nat)
    requires
        in_range(t, n),
        s.to_multiset() == t.to_multiset(),
    ensures
        in_range(s, n),
{
    broadcast use vstd::seq_lib::group_to_multiset_ensures;

    assert forall|i: int| 0 <= i < s.len() implies s[i] < n by {
        assert(s.contains(s[i]));
        assert(s.to_multiset().count(s[i]) > 0);
        assert(t.contains(s[i]));
        let k = choose|k: int| 0 <= k < t.len() && t[k] == s[i];
    }
}

/// The edges of a graph whose lists are the lists of the groups, each once
/// for each vertex of its group.
proof fn lemma_edge_count_groups(
    adjs: Seq<Seq<usize>>,
    ids: Seq<Vec<usize>>,
    base: Seq<Vec<usize>>,
    m: int,
)
    requires
        0 <= m <= adjs.len(),
        adjs.len() == ids.len(),
        adjs.len() == base.len(),
        forall|r: int| 0 <= r < adjs.len() ==> (#[trigger] adjs[r]).len() == ids[r]@.len() * base[r]@.len(),
    ensures
        seq_sum(degrees(adjs).take(m)) == group_edges(ids, base, m),
    decreases m,
{
    if m > 0 {
        lemma_edge_count_groups(adjs, ids, base, m - 1);
        lemma_seq_sum_take(degrees(adjs), m - 1);
        assert(degrees(adjs)[m - 1] == adjs[m - 1].len());
    } else {
        assert(degrees(adjs).take(0) =~= Seq::<int>::empty());
    }
}

impl BipartiteGraph {
    /// The graph with `n0` vertices on the fixed side, `n1` on the free
    /// side and the given edges, each from a vertex of the fixed side,
    /// counted from 0, to a vertex of the free side, counted from 0.
    /// Isolated free vertices are set apart, and free vertices with the
    /// same neighbours are merged into the first of them. `None` is
    /// returned for an input that does not fit.
    pub fn from_edges(n0: usize, n1: usize, edges: &Vec<(usize, usize)>) -> (res: Option<
        BipartiteGraph,
    >)
        ensures
            res is Some <==> fits(n0, n1, edges@),
            res is Some ==> res->0.wf() && res->0.n0 == n0 && res->0.input_size() == n1 && describes(
                &res->0,
                edges@,
            ),
    {
        if n0 > 0xffff_ffff || edges.len() > EDGE_LIMIT || n1 >= usize::MAX - n0 {
            return None;
        }
        let mut k: usize = 0;
        while k < edges.len()
            invariant
                0 <= k <= edges.len(),
                forall|j: int| 0 <= j < k ==> (#[trigger] edges@[j]).0 < n0 && edges@[j].1 < n1,
            decreases edges.len() - k,
        {
            if edges[k].0 >= n0 || edges[k].1 >= n1 {
                return None;
            }
            k += 1;
        }
        let lists = adjacency_lists(n1, edges);
        let sorted = sort_all(&lists);
        let (isolated, base, ids) = group_twins(&sorted);
        let ghost m = edges@.len() as int;
        let mut adjs: Vec<Vec<usize>> = Vec::new();
        let mut r: usize = 0;
        while r < base.len()
            invariant
                0 <= r <= base.len(),
                base@.len() == ids@.len(),
                adjs@.len() == r,
                forall|q: int|
                    0 <= q < r ==> (#[trigger] adjs@[q])@ == repeated(
                        base@[q]@,
                        ids@[q]@.len(),
                        base@[q]@.len() as int,
                    ),
            decreases base.len() - r,
        {
            adjs.push(repeat_each(&base[r], ids[r].len()));
            r += 1;
        }
        let g = BipartiteGraph { n0, n1: ids.len(), adjs, ids, isolated };
        proof {
            let nb = g.neighbours();
            assert forall|q: int| 0 <= q < g.n1 implies in_range(#[trigger] nb[q], n0 as nat)
                && ascending(nb[q]) && nb[q].len() == g.ids@[q]@.len() * base@[q]@.len() by {
                let y = g.ids@[q]@[0] as int;
                assert(g.ids@[q]@.len() > 0);
                assert(sorted@[y]@ == base@[q]@);
                lemma_neighbours_in_range(n0, n1, edges@, y, m);
                lemma_rearranged_in_range(sorted@[y]@, lists@[y]@, n0 as nat);
                lemma_repeated(base@[q]@, g.ids@[q]@.len(), base@[q]@.len() as int, n0 as nat);
                let (a, b) = (base@[q]@.len() as int, g.ids@[q]@.len() as int);
                assert(a * b == b * a) by (nonlinear_arith);
            }
            lemma_edge_count_groups(nb, g.ids@, base@, g.n1 as int);
            assert(degrees(nb).take(g.n1 as int) =~= degrees(nb));
            let all = g.isolated@ + g.grouped();
            lemma_rearranged_identity(all, n1 as nat);
            assert(describes(&g, edges@)) by {
                assert forall|i: int| 0 <= i < g.isolated@.len() implies neighbours_of(
                    edges@,
                    (#[trigger] g.isolated@[i]) as int,
                    m,
                ).len() == 0 by {
                    let y = g.isolated@[i] as int;
                    assert(all[i] == g.isolated@[i]);
                    assert(sorted@[y]@.len() == 0);
                }
                assert forall|q: int, i: int| 0 <= q < g.n1 && 0 <= i < g.groups()[q].len() implies is_merged(
                    g.neighbours()[q],
                    neighbours_of(edges@, (#[trigger] g.groups()[q][i]) as int, m),
                    g.groups()[q].len(),
                ) by {
                    let y = g.ids@[q]@[i] as int;
                    assert(sorted@[y]@ == base@[q]@);
                    assert(g.neighbours()[q] == repeated(
                        base@[q]@,
                        g.groups()[q].len(),
                        base@[q]@.len() as int,
                    ));
                }
                assert forall|q: int| 0 <= q < g.n1 implies strictly_ascending(
                    #[trigger] g.groups()[q],
                ) by {
                    assert(strictly_ascending(g.ids@[q]@));
                }
                assert forall|q: int, q2: int| 0 <= q < q2 < g.n1 implies (#[trigger] g.groups()[q])[0]
                    < (#[trigger] g.groups()[q2])[0] by {
                    assert(g.ids@[q]@[0] < g.ids@[q2]@[0]);
                }
                assert forall|q: int, q2: int, i: int, j: int|
                    0 <= q < q2 < g.n1 && 0 <= i < g.groups()[q].len() && 0 <= j
                        < g.groups()[q2].len() implies neighbours_of(
                    edges@,
                    (#[trigger] g.groups()[q][i]) as int,
                    m,
                ).to_multiset() != neighbours_of(
                    edges@,
                    (#[trigger] g.groups()[q2][j]) as int,
                    m,
                ).to_multiset() by {
                    let y = g.ids@[q]@[i] as int;
                    let z = g.ids@[q2]@[j] as int;
                    assert(sorted@[y]@ == base@[q]@);
                    assert(sorted@[z]@ == base@[q2]@);
                    assert(base@[q]@ != base@[q2]@);
                    if lists@[y]@.to_multiset() == lists@[z]@.to_multiset() {
                        lemma_ascending_unique(sorted@[y]@, sorted@[z]@);
                    }
                }
            }
        }
        Some(g)
    }
}

} // verus!
