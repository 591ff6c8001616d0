//! What an ordering costs under a matrix of pairwise weights.
//!
//! `w[a][b]` is what is paid when `a` stands somewhere after `b`.

use vstd::prelude::*;
use crate::permutation::{is_arrangement, lemma_insert_keeps_arrangement};

verus! {

/// The rows of a matrix as sequences.
pub open spec fn matrix(w: Seq<Vec<u64>>) -> Seq<Seq<u64>> {
    Seq::new(w.len(), |i: int| w[i]@)
}

/// The rows of a graph's adjacency lists as sequences.
pub open spec fn adjacency(g: Seq<Vec<usize>>) -> Seq<Seq<usize>> {
    Seq::new(g.len(), |i: int| g[i]@)
}

/// `w` has `n` rows of `n` entries.
pub open spec fn is_square(w: Seq<Seq<u64>>, n: nat) -> bool {
    &&& w.len() == n
    &&& forall|i: int| 0 <= i < n ==> (#[trigger] w[i]).len() == n
}

/// `d[a][b] == w[b][a]` throughout.
pub open spec fn is_transpose(d: Seq<Seq<u64>>, w: Seq<Seq<u64>>, n: nat) -> bool {
    &&& is_square(d, n)
    &&& is_square(w, n)
    &&& forall|a: int, b: int| 0 <= a < n && 0 <= b < n ==> d[a][b] == w[b][a]
}

/// The sum of the entries of `s`.
pub open spec fn seq_sum(s: Seq<int>) -> int
    decreases s.len(),
{
    if s.len() == 0 {
        0
    } else {
        seq_sum(s.drop_last()) + s.last()
    }
}

/// Row `a` of `w`, as integers.
pub open spec fn row(w: Seq<Seq<u64>>, a: int) -> Seq<int> {
    Seq::new(w[a].len(), |b: int| w[a][b] as int)
}

/// The sum of each row of `w`.
pub open spec fn row_totals(w: Seq<Seq<u64>>) -> Seq<int> {
    Seq::new(w.len(), |a: int| seq_sum(row(w, a)))
}

/// The sum of all entries of `w`.
pub open spec fn total(w: Seq<Seq<u64>>) -> int {
    seq_sum(row_totals(w))
}

/// What `v` pays against the first `i` entries of `pi` when it stands after
/// them: the sum of `w[v][pi[k]]` over `k < i`.
pub open spec fn pre_cost(w: Seq<Seq<u64>>, pi: Seq<usize>, v: int, i: int) -> int
    decreases i,
{
    if i <= 0 {
        0
    } else {
        pre_cost(w, pi, v, i - 1) + w[v][pi[i - 1] as int]
    }
}

/// What the entries of `pi` from `i` on pay against `v` when they stand after
/// it: the sum of `w[pi[k]][v]` over `k >= i`.
pub open spec fn suf_cost(w: Seq<Seq<u64>>, pi: Seq<usize>, v: int, i: int) -> int
    decreases pi.len() - i,
{
    if i >= pi.len() {
        0
    } else {
        w[pi[i] as int][v] + suf_cost(w, pi, v, i + 1)
    }
}

/// What is added to the cost of `pi` when `v` is put in at position `i`.
pub open spec fn insert_cost(w: Seq<Seq<u64>>, pi: Seq<usize>, v: int, i: int) -> int {
    pre_cost(w, pi, v, i) + suf_cost(w, pi, v, i)
}

/// The cost of the first `j` entries of `pi` among themselves.
pub open spec fn eval_upto(w: Seq<Seq<u64>>, pi: Seq<usize>, j: int) -> int
    decreases j,
{
    if j <= 0 {
        0
    } else {
        eval_upto(w, pi, j - 1) + pre_cost(w, pi, pi[j - 1] as int, j - 1)
    }
}

/// The cost of the ordering `pi`: the sum of `w[pi[j]][pi[i]]` over all
/// positions `i < j`.
pub open spec fn eval(w: Seq<Seq<u64>>, pi: Seq<usize>) -> int {
    eval_upto(w, pi, pi.len() as int)
}

/// The sum of `w[pi[k]][v]` over `i <= k < j`.
pub open spec fn suf_range(w: Seq<Seq<u64>>, pi: Seq<usize>, v: int, i: int, j: int) -> int {
    suf_cost(w, pi, v, i) - suf_cost(w, pi, v, j)
}

/// Costs are not negative.
pub proof fn lemma_costs_nonnegative(w: Seq<Seq<u64>>, pi: Seq<usize>, v: int, i: int)
    ensures
        pre_cost(w, pi, v, i) >= 0,
        suf_cost(w, pi, v, i) >= 0,
    decreases i, pi.len() - i,
{
    if i > 0 {
        lemma_pre_nonnegative(w, pi, v, i);
    }
    if i < pi.len() {
        lemma_suf_nonnegative(w, pi, v, i);
    }
}

/// `pre_cost` is not negative.
proof fn lemma_pre_nonnegative(w: Seq<Seq<u64>>, pi: Seq<usize>, v: int, i: int)
    ensures
        pre_cost(w, pi, v, i) >= 0,
    decreases i,
{
    if i > 0 {
        lemma_pre_nonnegative(w, pi, v, i - 1);
    }
}

/// `suf_cost` is not negative.
proof fn lemma_suf_nonnegative(w: Seq<Seq<u64>>, pi: Seq<usize>, v: int, i: int)
    ensures
        suf_cost(w, pi, v, i) >= 0,
    decreases pi.len() - i,
{
    if i < pi.len() {
        lemma_suf_nonnegative(w, pi, v, i + 1);
    }
}

/// The cost of a prefix grows with the prefix.
pub proof fn lemma_eval_upto_monotone(w: Seq<Seq<u64>>, pi: Seq<usize>, i: int, j: int)
    requires
        i <= j,
    ensures
        0 <= eval_upto(w, pi, i) <= eval_upto(w, pi, j),
    decreases j,
{
    if j <= 0 {
    } else if i == j {
        lemma_eval_upto_monotone(w, pi, i - 1, j - 1);
        lemma_pre_nonnegative(w, pi, pi[j - 1] as int, j - 1);
    } else {
        lemma_eval_upto_monotone(w, pi, i, j - 1);
        lemma_pre_nonnegative(w, pi, pi[j - 1] as int, j - 1);
    }
}

/// `pre_cost` looks at the first `i` entries only.
pub proof fn lemma_pre_cost_prefix(
    w: Seq<Seq<u64>>,
    pi: Seq<usize>,
    sigma: Seq<usize>,
    v: int,
    i: int,
)
    requires
        i <= pi.len(),
        i <= sigma.len(),
        forall|k: int| 0 <= k < i ==> pi[k] == sigma[k],
    ensures
        pre_cost(w, pi, v, i) == pre_cost(w, sigma, v, i),
    decreases i,
{
    if i > 0 {
        lemma_pre_cost_prefix(w, pi, sigma, v, i - 1);
    }
}

/// `eval_upto` looks at the first `j` entries only.
pub proof fn lemma_eval_upto_prefix(w: Seq<Seq<u64>>, pi: Seq<usize>, sigma: Seq<usize>, j: int)
    requires
        j <= pi.len(),
        j <= sigma.len(),
        forall|k: int| 0 <= k < j ==> pi[k] == sigma[k],
    ensures
        eval_upto(w, pi, j) == eval_upto(w, sigma, j),
    decreases j,
{
    if j > 0 {
        lemma_eval_upto_prefix(w, pi, sigma, j - 1);
        lemma_pre_cost_prefix(w, pi, sigma, pi[j - 1] as int, j - 1);
    }
}

/// `pre_cost` of another vertex `x` over an ordering into which `v` was put.
proof fn lemma_pre_cost_inserted(
    w: Seq<Seq<u64>>,
    pi: Seq<usize>,
    p: int,
    v: usize,
    x: int,
    i: int,
)
    requires
        0 <= p <= pi.len(),
        0 <= i <= pi.len() + 1,
    ensures
        i <= p ==> pre_cost(w, pi.insert(p, v), x, i) == pre_cost(w, pi, x, i),
        i > p ==> pre_cost(w, pi.insert(p, v), x, i) == pre_cost(w, pi, x, i - 1) + w[x][v as int],
    decreases i,
{
    let ins = pi.insert(p, v);
    if i > 0 {
        lemma_pre_cost_inserted(w, pi, p, v, x, i - 1);
        if i - 1 < p {
            assert(ins[i - 1] == pi[i - 1]);
        } else if i - 1 == p {
            assert(ins[i - 1] == v);
        } else {
            assert(ins[i - 1] == pi[i - 2]);
        }
    }
}

/// Putting `v` in at position `p` adds exactly its insertion cost there.
pub proof fn lemma_eval_insert(w: Seq<Seq<u64>>, pi: Seq<usize>, p: int, v: usize)
    requires
        0 <= p <= pi.len(),
    ensures
        eval(w, pi.insert(p, v)) == eval(w, pi) + insert_cost(w, pi, v as int, p),
{
    let ins = pi.insert(p, v);
    assert forall|k: int| 0 <= k < p implies ins[k] == pi[k] by {}
    lemma_eval_upto_prefix(w, ins, pi, p);
    lemma_pre_cost_inserted(w, pi, p, v, v as int, p);
    assert(ins[p] == v);
    assert(eval_upto(w, ins, p + 1) == eval_upto(w, pi, p) + pre_cost(w, pi, v as int, p));
    lemma_eval_insert_tail(w, pi, p, v, pi.len() as int + 1);
    assert(suf_cost(w, pi, v as int, pi.len() as int) == 0);
}

/// The cost of the first `j` entries after `v` was put in at `p`, for `j`
/// beyond `p`.
proof fn lemma_eval_insert_tail(w: Seq<Seq<u64>>, pi: Seq<usize>, p: int, v: usize, j: int)
    requires
        0 <= p <= pi.len(),
        p + 1 <= j <= pi.len() + 1,
        eval_upto(w, pi.insert(p, v), p + 1) == eval_upto(w, pi, p) + pre_cost(
            w,
            pi,
            v as int,
            p,
        ),
    ensures
        eval_upto(w, pi.insert(p, v), j) == eval_upto(w, pi, j - 1) + pre_cost(w, pi, v as int, p)
            + suf_range(w, pi, v as int, p, j - 1),
    decreases j,
{
    let ins = pi.insert(p, v);
    if j > p + 1 {
        lemma_eval_insert_tail(w, pi, p, v, j - 1);
        let x = pi[j - 2];
        assert(ins[j - 1] == x);
        lemma_pre_cost_inserted(w, pi, p, v, x as int, j - 1);
    }
}

/// Taking the entry at position `p` out removes exactly what putting it back
/// there would add.
pub proof fn lemma_eval_remove(w: Seq<Seq<u64>>, pi: Seq<usize>, p: int)
    requires
        0 <= p < pi.len(),
    ensures
        eval(w, pi) == eval(w, pi.remove(p)) + insert_cost(w, pi.remove(p), pi[p] as int, p),
{
    lemma_remove_insert(pi, p);
    lemma_eval_insert(w, pi.remove(p), p, pi[p]);
}

/// Taking an entry out and putting it back at the same position changes
/// nothing.
pub proof fn lemma_remove_insert(pi: Seq<usize>, p: int)
    requires
        0 <= p < pi.len(),
    ensures
        pi.remove(p).insert(p, pi[p]) == pi,
{
    assert(pi.remove(p).insert(p, pi[p]) =~= pi);
}

/// The sum of `vals[idx[k]]` over `k < i`.
pub open spec fn picked(vals: Seq<int>, idx: Seq<usize>, i: int) -> int
    decreases i,
{
    if i <= 0 {
        0
    } else {
        picked(vals, idx, i - 1) + vals[idx[i - 1] as int]
    }
}

/// `picked` looks at the first `i` places only.
proof fn lemma_picked_prefix(vals: Seq<int>, idx: Seq<usize>, other: Seq<usize>, i: int)
    requires
        i <= idx.len(),
        i <= other.len(),
        forall|k: int| 0 <= k < i ==> idx[k] == other[k],
    ensures
        picked(vals, idx, i) == picked(vals, other, i),
    decreases i,
{
    if i > 0 {
        lemma_picked_prefix(vals, idx, other, i - 1);
    }
}

/// Without the last value, which no place names, the same is picked.
proof fn lemma_picked_shorter_vals(vals: Seq<int>, idx: Seq<usize>, i: int)
    requires
        vals.len() > 0,
        0 <= i <= idx.len(),
        forall|k: int| 0 <= k < i ==> idx[k] < vals.len() - 1,
    ensures
        picked(vals, idx, i) == picked(vals.drop_last(), idx, i),
    decreases i,
{
    if i > 0 {
        lemma_picked_shorter_vals(vals, idx, i - 1);
    }
}

/// Without the place at position `p` its value is missing from what is
/// picked.
proof fn lemma_picked_remove(vals: Seq<int>, idx: Seq<usize>, p: int, i: int)
    requires
        0 <= p < i <= idx.len(),
    ensures
        picked(vals, idx, i) == picked(vals, idx.remove(p), i - 1) + vals[idx[p] as int],
    decreases i,
{
    let r = idx.remove(p);
    if i - 1 == p {
        lemma_picked_prefix(vals, idx, r, p);
    } else {
        lemma_picked_remove(vals, idx, p, i - 1);
        assert(r[i - 2] == idx[i - 1]);
    }
}

/// Entries picked at distinct places add up to no more than the whole.
pub proof fn lemma_picked_bounded(vals: Seq<int>, idx: Seq<usize>, i: int)
    requires
        forall|k: int| 0 <= k < vals.len() ==> vals[k] >= 0,
        0 <= i <= idx.len(),
        forall|k: int| 0 <= k < i ==> idx[k] < vals.len(),
        forall|k: int, l: int| 0 <= k < l < i ==> idx[k] != idx[l],
    ensures
        0 <= picked(vals, idx, i) <= seq_sum(vals),
    decreases vals.len(),
{
    if vals.len() == 0 {
        if i > 0 {
            assert(idx[0] < vals.len());
        }
    } else {
        let m = vals.len() - 1;
        let shorter = vals.drop_last();
        assert forall|k: int| 0 <= k < shorter.len() implies shorter[k] >= 0 by {
            assert(shorter[k] == vals[k]);
        }
        if exists|p: int| 0 <= p < i && idx[p] == m {
            let p = choose|p: int| 0 <= p < i && idx[p] == m;
            let r = idx.remove(p);
            lemma_picked_remove(vals, idx, p, i);
            assert forall|k: int| 0 <= k < i - 1 implies r[k] < m by {
                let kk = if k < p { k } else { k + 1 };
                assert(r[k] == idx[kk]);
                assert(kk != p);
                if kk < p {
                    assert(idx[kk] != idx[p]);
                } else {
                    assert(idx[p] != idx[kk]);
                }
            }
            assert forall|k: int, l: int| 0 <= k < l < i - 1 implies r[k] != r[l] by {
                let kk = if k < p { k } else { k + 1 };
                let ll = if l < p { l } else { l + 1 };
                assert(r[k] == idx[kk] && r[l] == idx[ll]);
            }
            lemma_picked_shorter_vals(vals, r, i - 1);
            lemma_picked_bounded(shorter, r, i - 1);
        } else {
            lemma_picked_shorter_vals(vals, idx, i);
            lemma_picked_bounded(shorter, idx, i);
        }
    }
}

/// `pre_cost` picks from the row of `v`.
proof fn lemma_pre_cost_is_picked(w: Seq<Seq<u64>>, pi: Seq<usize>, v: int, i: int)
    requires
        0 <= i <= pi.len(),
        forall|k: int| 0 <= k < i ==> pi[k] < w[v].len(),
    ensures
        pre_cost(w, pi, v, i) == picked(row(w, v), pi, i),
    decreases i,
{
    if i > 0 {
        lemma_pre_cost_is_picked(w, pi, v, i - 1);
    }
}

/// The first `j` entries cost no more than their rows hold.
proof fn lemma_eval_upto_bounded(w: Seq<Seq<u64>>, pi: Seq<usize>, n: nat, j: int)
    requires
        is_square(w, n),
        is_arrangement(pi, n),
        0 <= j <= pi.len(),
    ensures
        eval_upto(w, pi, j) <= picked(row_totals(w), pi, j),
    decreases j,
{
    if j > 0 {
        lemma_eval_upto_bounded(w, pi, n, j - 1);
        let v = pi[j - 1] as int;
        lemma_pre_cost_is_picked(w, pi, v, j - 1);
        lemma_picked_bounded(row(w, v), pi, j - 1);
    }
}

/// Entries that are not negative sum to a number that is not negative.
pub proof fn lemma_seq_sum_nonnegative(s: Seq<int>)
    requires
        forall|k: int| 0 <= k < s.len() ==> s[k] >= 0,
    ensures
        seq_sum(s) >= 0,
    decreases s.len(),
{
    if s.len() > 0 {
        let t = s.drop_last();
        assert forall|k: int| 0 <= k < t.len() implies t[k] >= 0 by {
            assert(t[k] == s[k]);
        }
        lemma_seq_sum_nonnegative(t);
    }
}

/// No ordering of distinct vertices costs more than all weights together.
pub proof fn lemma_eval_bounded(w: Seq<Seq<u64>>, pi: Seq<usize>, n: nat)
    requires
        is_square(w, n),
        is_arrangement(pi, n),
    ensures
        0 <= eval(w, pi) <= total(w),
{
    lemma_eval_upto_bounded(w, pi, n, pi.len() as int);
    let totals = row_totals(w);
    assert forall|k: int| 0 <= k < totals.len() implies totals[k] >= 0 by {
        lemma_seq_sum_nonnegative(row(w, k));
    }
    lemma_picked_bounded(totals, pi, pi.len() as int);
    lemma_eval_upto_monotone(w, pi, 0, pi.len() as int);
}

/// No insertion into an ordering of distinct vertices costs more than all
/// weights together.
pub proof fn lemma_insert_cost_bounded(w: Seq<Seq<u64>>, pi: Seq<usize>, n: nat, v: usize, i: int)
    requires
        is_square(w, n),
        is_arrangement(pi, n),
        v < n,
        !pi.contains(v),
        0 <= i <= pi.len(),
    ensures
        0 <= pre_cost(w, pi, v as int, i),
        0 <= suf_cost(w, pi, v as int, i),
        insert_cost(w, pi, v as int, i) <= total(w),
{
    lemma_costs_nonnegative(w, pi, v as int, i);
    lemma_insert_keeps_arrangement(pi, n, i, v);
    lemma_eval_insert(w, pi, i, v);
    lemma_eval_bounded(w, pi.insert(i, v), n);
    lemma_eval_bounded(w, pi, n);
}

/// The sum of a prefix, one entry on.
pub proof fn lemma_seq_sum_take(s: Seq<int>, i: int)
    requires
        0 <= i < s.len(),
    ensures
        seq_sum(s.take(i + 1)) == seq_sum(s.take(i)) + s[i],
{
    assert(s.take(i + 1).drop_last() =~= s.take(i));
}

/// A prefix of non-negative entries sums to no more than the whole.
pub proof fn lemma_seq_sum_prefix(s: Seq<int>, i: int)
    requires
        0 <= i <= s.len(),
        forall|k: int| 0 <= k < s.len() ==> s[k] >= 0,
    ensures
        0 <= seq_sum(s.take(i)) <= seq_sum(s),
    decreases s.len() - i,
{
    if i == s.len() {
        assert(s.take(i) =~= s);
        lemma_seq_sum_nonnegative(s);
    } else {
        lemma_seq_sum_prefix(s, i + 1);
        lemma_seq_sum_take(s, i);
        let t = s.take(i);
        assert forall|k: int| 0 <= k < t.len() implies t[k] >= 0 by {
            assert(t[k] == s[k]);
        }
        lemma_seq_sum_nonnegative(t);
    }
}

/// The sum of the entries of `r`, unless it exceeds `u64::MAX`.
pub fn checked_row_sum(r: &Vec<u64>) -> (sum: Option<u64>)
    ensures
        sum is Some <==> seq_sum(r@.map_values(|x: u64| x as int)) <= u64::MAX,
        sum is Some ==> sum->0 == seq_sum(r@.map_values(|x: u64| x as int)),
{
    let ghost ints = r@.map_values(|x: u64| x as int);
    let mut acc: u64 = 0;
    let mut i: usize = 0;
    assert(ints.take(0) =~= Seq::<int>::empty());
    while i < r.len()
        invariant
            0 <= i <= r.len(),
            ints == r@.map_values(|x: u64| x as int),
            acc == seq_sum(ints.take(i as int)),
        decreases r.len() - i,
    {
        proof {
            lemma_seq_sum_take(ints, i as int);
            lemma_seq_sum_prefix(ints, i + 1);
        }
        match acc.checked_add(r[i]) {
            Some(next) => {
                acc = next;
            },
            None => {
                return None;
            },
        }
        i += 1;
    }
    assert(ints.take(i as int) =~= ints);
    Some(acc)
}

/// The sum of all entries of `w`, unless it exceeds `u64::MAX`.
pub fn checked_total(w: &Vec<Vec<u64>>) -> (sum: Option<u64>)
    ensures
        sum is Some <==> total(matrix(w@)) <= u64::MAX,
        sum is Some ==> sum->0 == total(matrix(w@)),
{
    let ghost m = matrix(w@);
    let ghost totals = row_totals(m);
    let mut acc: u64 = 0;
    let mut i: usize = 0;
    assert(totals.take(0) =~= Seq::<int>::empty());
    assert forall|k: int| 0 <= k < totals.len() implies totals[k] >= 0 by {
        lemma_seq_sum_nonnegative(row(m, k));
    }
    while i < w.len()
        invariant
            0 <= i <= w.len(),
            m == matrix(w@),
            totals == row_totals(m),
            forall|k: int| 0 <= k < totals.len() ==> totals[k] >= 0,
            acc == seq_sum(totals.take(i as int)),
        decreases w.len() - i,
    {
        proof {
            lemma_seq_sum_take(totals, i as int);
            lemma_seq_sum_prefix(totals, i + 1);
            assert(row(m, i as int) =~= w@[i as int]@.map_values(|x: u64| x as int));
        }
        let row_sum = checked_row_sum(&w[i]);
        match row_sum {
            Some(rs) => match acc.checked_add(rs) {
                Some(next) => {
                    acc = next;
                },
                None => {
                    return None;
                },
            },
            None => {
                return None;
            },
        }
        i += 1;
    }
    assert(totals.take(i as int) =~= totals);
    Some(acc)
}

/// The sum of a sequence is what its entries pick from where they come from.
pub proof fn lemma_seq_sum_is_picked(s: Seq<int>, vals: Seq<int>, idx: Seq<usize>, i: int)
    requires
        0 <= i <= s.len(),
        i <= idx.len(),
        forall|k: int| 0 <= k < i ==> s[k] == vals[idx[k] as int],
    ensures
        seq_sum(s.take(i)) == picked(vals, idx, i),
    decreases i,
{
    if i > 0 {
        lemma_seq_sum_is_picked(s, vals, idx, i - 1);
        lemma_seq_sum_take(s, i - 1);
    } else {
        assert(s.take(0) =~= Seq::<int>::empty());
    }
}

/// A sequence that is nowhere larger sums to no more.
pub proof fn lemma_seq_sum_pointwise(s: Seq<int>, t: Seq<int>)
    requires
        s.len() == t.len(),
        forall|k: int| 0 <= k < s.len() ==> s[k] <= t[k],
    ensures
        seq_sum(s) <= seq_sum(t),
    decreases s.len(),
{
    if s.len() > 0 {
        let s2 = s.drop_last();
        let t2 = t.drop_last();
        assert forall|k: int| 0 <= k < s2.len() implies s2[k] <= t2[k] by {
            assert(s2[k] == s[k] && t2[k] == t[k]);
        }
        lemma_seq_sum_pointwise(s2, t2);
    }
}

/// A sequence whose entries are at most `c` times those of another sums to
/// at most `c` times its sum.
pub proof fn lemma_seq_sum_scaled(s: Seq<int>, t: Seq<int>, c: int)
    requires
        s.len() == t.len(),
        forall|k: int| 0 <= k < s.len() ==> s[k] <= c * t[k],
    ensures
        seq_sum(s) <= c * seq_sum(t),
    decreases s.len(),
{
    if s.len() > 0 {
        let s2 = s.drop_last();
        let t2 = t.drop_last();
        assert forall|k: int| 0 <= k < s2.len() implies s2[k] <= c * t2[k] by {
            assert(s2[k] == s[k] && t2[k] == t[k]);
        }
        lemma_seq_sum_scaled(s2, t2, c);
        assert(c * (seq_sum(t2) + t.last()) == c * seq_sum(t2) + c * t.last()) by (nonlinear_arith);
    } else {
        assert(c * 0 == 0);
    }
}

/// What `v` pays against each entry of `pi` when it stands after it.
pub open spec fn paid_by(w: Seq<Seq<u64>>, pi: Seq<usize>, v: int) -> Seq<int> {
    Seq::new(pi.len(), |k: int| w[v][pi[k] as int] as int)
}

/// What each entry of `pi` pays against `v` when it stands after it.
pub open spec fn paid_to(w: Seq<Seq<u64>>, pi: Seq<usize>, v: int) -> Seq<int> {
    Seq::new(pi.len(), |k: int| w[pi[k] as int][v] as int)
}

/// `pre_cost` is the sum of what `v` pays against the first `i` entries.
proof fn lemma_pre_cost_sum(w: Seq<Seq<u64>>, pi: Seq<usize>, v: int, i: int)
    requires
        0 <= i <= pi.len(),
    ensures
        pre_cost(w, pi, v, i) == seq_sum(paid_by(w, pi, v).take(i)),
    decreases i,
{
    if i > 0 {
        lemma_pre_cost_sum(w, pi, v, i - 1);
        lemma_seq_sum_take(paid_by(w, pi, v), i - 1);
    } else {
        assert(paid_by(w, pi, v).take(0) =~= Seq::<int>::empty());
    }
}

/// `suf_cost` is the sum of what the entries from `i` on pay against `v`.
proof fn lemma_suf_cost_sum(w: Seq<Seq<u64>>, pi: Seq<usize>, v: int, i: int)
    requires
        0 <= i <= pi.len(),
    ensures
        suf_cost(w, pi, v, i) + seq_sum(paid_to(w, pi, v).take(i)) == seq_sum(paid_to(w, pi, v)),
    decreases pi.len() - i,
{
    if i < pi.len() {
        lemma_suf_cost_sum(w, pi, v, i + 1);
        lemma_seq_sum_take(paid_to(w, pi, v), i);
    } else {
        assert(paid_to(w, pi, v).take(i) =~= paid_to(w, pi, v));
    }
}

/// Every cost of putting `v` into `pi` fits in a `u64`.
pub open spec fn costs_fit(w: Seq<Seq<u64>>, pi: Seq<usize>, v: int) -> bool {
    forall|i: int| 0 <= i <= pi.len() ==> #[trigger] insert_cost(w, pi, v, i) <= u64::MAX
}

/// `suf_cost` shrinks as the suffix does.
pub proof fn lemma_suf_cost_monotone(w: Seq<Seq<u64>>, pi: Seq<usize>, v: int, i: int, j: int)
    requires
        0 <= i <= j,
    ensures
        0 <= suf_cost(w, pi, v, j) <= suf_cost(w, pi, v, i),
    decreases j - i,
{
    lemma_costs_nonnegative(w, pi, v, j);
    if i < j {
        lemma_suf_cost_monotone(w, pi, v, i + 1, j);
        if i >= pi.len() {
            assert(suf_cost(w, pi, v, i) == 0);
            assert(suf_cost(w, pi, v, j) == 0);
        }
    }
}

/// The costs of putting a vertex into an ordering of a matrix whose entries
/// together fit in a `u64` fit too.
pub proof fn lemma_costs_fit(w: Seq<Seq<u64>>, pi: Seq<usize>, n: nat, v: usize)
    requires
        is_square(w, n),
        is_arrangement(pi, n),
        v < n,
        !pi.contains(v),
        total(w) <= u64::MAX,
    ensures
        costs_fit(w, pi, v as int),
{
    assert forall|i: int| 0 <= i <= pi.len() implies #[trigger] insert_cost(w, pi, v as int, i)
        <= u64::MAX by {
        lemma_insert_cost_bounded(w, pi, n, v, i);
    }
}

/// At the end of an ordering a vertex costs what it pays against all the
/// others; at the front it costs what all the others pay against it.
pub proof fn lemma_insert_cost_boundary(w: Seq<Seq<u64>>, pi: Seq<usize>, v: int)
    ensures
        insert_cost(w, pi, v, pi.len() as int) == seq_sum(paid_by(w, pi, v)),
        insert_cost(w, pi, v, 0) == seq_sum(paid_to(w, pi, v)),
{
    lemma_pre_cost_sum(w, pi, v, pi.len() as int);
    assert(paid_by(w, pi, v).take(pi.len() as int) =~= paid_by(w, pi, v));
    lemma_suf_cost_sum(w, pi, v, 0);
    assert(paid_to(w, pi, v).take(0) =~= Seq::<int>::empty());
}

} // verus!
