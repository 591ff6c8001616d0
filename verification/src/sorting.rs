//! Stable sorting of indices by a fraction-valued key.

use vstd::prelude::*;
use crate::permutation::{identity_order, in_range, is_permutation, lemma_rearranged_identity};

verus! {

/// The non-negative fraction `num / den`; `den` is positive.
#[derive(Clone, Copy, Debug)]
pub struct Fraction {
    pub num: u64,
    pub den: u64,
}

impl Fraction {
    /// `self` is less than `other` as a number.
    pub open spec fn lt(self, other: Fraction) -> bool {
        self.num * other.den < other.num * self.den
    }

    /// The whole number `n`.
    pub fn whole(n: u64) -> (f: Fraction)
        ensures
            f.num == n,
            f.den == 1,
    {
        Fraction { num: n, den: 1 }
    }

    /// Whether `self` is less than `other` as a number.
    pub fn less(&self, other: &Fraction) -> (b: bool)
        ensures
            b == self.lt(*other),
    {
        assert(self.num * other.den <= u128::MAX && other.num * self.den <= u128::MAX) by (nonlinear_arith)
            requires
                self.num <= u64::MAX,
                self.den <= u64::MAX,
                other.num <= u64::MAX,
                other.den <= u64::MAX,
        ;
        (self.num as u128) * (other.den as u128) < (other.num as u128) * (self.den as u128)
    }
}

/// Every key has a positive denominator.
pub open spec fn keys_valid(keys: Seq<Fraction>) -> bool {
    forall|i: int| 0 <= i < keys.len() ==> (#[trigger] keys[i]).den > 0
}

/// Index `i` comes before index `j`: its key is less, or the keys are equal
/// and `i` is less.
pub open spec fn ranks_before(keys: Seq<Fraction>, i: usize, j: usize) -> bool {
    keys[i as int].lt(keys[j as int]) || (!keys[j as int].lt(keys[i as int]) && i < j)
}

/// `order` lists every index of `keys` once, in ascending order of key and,
/// among equal keys, of index.
pub open spec fn is_stable_order(keys: Seq<Fraction>, order: Seq<usize>) -> bool {
    &&& is_permutation(order, keys.len())
    &&& forall|a: int, b: int|
        0 <= a < b < order.len() ==> ranks_before(keys, #[trigger] order[a], #[trigger] order[b])
}

/// No entry of `s` comes before an earlier entry.
pub open spec fn ordered(keys: Seq<Fraction>, s: Seq<usize>) -> bool {
    forall|a: int, b: int|
        0 <= a < b < s.len() ==> !ranks_before(keys, #[trigger] s[b], #[trigger] s[a])
}

/// `lt` on fractions is transitive, also through an equality.
proof fn lemma_fraction_order(a: Fraction, b: Fraction, c: Fraction)
    requires
        a.den > 0,
        b.den > 0,
        c.den > 0,
    ensures
        !(a.lt(b) && b.lt(a)),
        a.lt(b) && !c.lt(b) ==> a.lt(c),
        !b.lt(a) && b.lt(c) ==> a.lt(c),
        !b.lt(a) && !c.lt(b) ==> !c.lt(a),
{
    let (an, ad) = (a.num as int, a.den as int);
    let (bn, bd) = (b.num as int, b.den as int);
    let (cn, cd) = (c.num as int, c.den as int);
    // a < b, b <= c: an*bd < bn*ad, bn*cd <= cn*bd
    assert(an * bd < bn * ad && bn * cd <= cn * bd ==> an * cd < cn * ad) by (nonlinear_arith)
        requires
            ad > 0,
            bd > 0,
            cd > 0,
            an >= 0,
            bn >= 0,
            cn >= 0,
    {
        if an * bd < bn * ad && bn * cd <= cn * bd {
            assert(an * bd * cd < bn * ad * cd);
            assert(bn * cd * ad <= cn * bd * ad);
            assert(an * cd * bd < cn * ad * bd);
        }
    }
    // a <= b, b < c
    assert(an * bd <= bn * ad && bn * cd < cn * bd ==> an * cd < cn * ad) by (nonlinear_arith)
        requires
            ad > 0,
            bd > 0,
            cd > 0,
            an >= 0,
            bn >= 0,
            cn >= 0,
    {
        if an * bd <= bn * ad && bn * cd < cn * bd {
            assert(an * bd * cd <= bn * ad * cd);
            assert(bn * cd * ad < cn * bd * ad);
            assert(an * cd * bd < cn * ad * bd);
        }
    }
    // a <= b, b <= c
    assert(an * bd <= bn * ad && bn * cd <= cn * bd ==> an * cd <= cn * ad) by (nonlinear_arith)
        requires
            ad > 0,
            bd > 0,
            cd > 0,
            an >= 0,
            bn >= 0,
            cn >= 0,
    {
        if an * bd <= bn * ad && bn * cd <= cn * bd {
            assert(an * bd * cd <= bn * ad * cd);
            assert(bn * cd * ad <= cn * bd * ad);
            assert(an * cd * bd <= cn * ad * bd);
        }
    }
}

/// `ranks_before` is a strict total order on the indices of `keys`.
pub proof fn lemma_ranks_total_order(keys: Seq<Fraction>, i: usize, j: usize, k: usize)
    requires
        keys_valid(keys),
        i < keys.len(),
        j < keys.len(),
        k < keys.len(),
    ensures
        !ranks_before(keys, i, i),
        i != j ==> (ranks_before(keys, i, j) <==> !ranks_before(keys, j, i)),
        ranks_before(keys, i, j) && ranks_before(keys, j, k) ==> ranks_before(keys, i, k),
        !ranks_before(keys, j, i) && !ranks_before(keys, k, j) ==> !ranks_before(keys, k, i),
{
    let (a, b, c) = (keys[i as int], keys[j as int], keys[k as int]);
    lemma_fraction_order(a, b, c);
    lemma_fraction_order(b, a, c);
    lemma_fraction_order(a, c, b);
    lemma_fraction_order(c, b, a);
    lemma_fraction_order(b, c, a);
    lemma_fraction_order(c, a, b);
}

/// Whether index `i` comes before index `j`.
fn comes_before(keys: &Vec<Fraction>, i: usize, j: usize) -> (b: bool)
    requires
        i < keys@.len(),
        j < keys@.len(),
    ensures
        b == ranks_before(keys@, i, j),
{
    if keys[i].less(&keys[j]) {
        true
    } else if keys[j].less(&keys[i]) {
        false
    } else {
        i < j
    }
}

/// Merges two ordered lists of indices into one.
fn merge(keys: &Vec<Fraction>, a: &Vec<usize>, b: &Vec<usize>) -> (out: Vec<usize>)
    requires
        keys_valid(keys@),
        in_range(a@, keys@.len()),
        in_range(b@, keys@.len()),
        ordered(keys@, a@),
        ordered(keys@, b@),
    ensures
        out@.to_multiset() == a@.to_multiset().add(b@.to_multiset()),
        ordered(keys@, out@),
        in_range(out@, keys@.len()),
{
    broadcast use vstd::seq_lib::group_to_multiset_ensures;

    let mut out: Vec<usize> = Vec::new();
    let mut i: usize = 0;
    let mut j: usize = 0;
    proof {
        assert(a@.take(0) =~= Seq::<usize>::empty());
        assert(b@.take(0) =~= Seq::<usize>::empty());
        assert(out@.to_multiset() =~= a@.take(0).to_multiset().add(b@.take(0).to_multiset()));
    }
    while i < a.len() || j < b.len()
        invariant
            0 <= i <= a.len(),
            0 <= j <= b.len(),
            keys_valid(keys@),
            in_range(a@, keys@.len()),
            in_range(b@, keys@.len()),
            in_range(out@, keys@.len()),
            ordered(keys@, a@),
            ordered(keys@, b@),
            ordered(keys@, out@),
            out@.len() == i + j,
            out@.to_multiset() == a@.take(i as int).to_multiset().add(b@.take(j as int).to_multiset()),
            forall|p: int, q: int|
                0 <= p < out@.len() && i <= q < a@.len() ==> !ranks_before(
                    keys@,
                    #[trigger] a@[q],
                    #[trigger] out@[p],
                ),
            forall|p: int, q: int|
                0 <= p < out@.len() && j <= q < b@.len() ==> !ranks_before(
                    keys@,
                    #[trigger] b@[q],
                    #[trigger] out@[p],
                ),
        decreases a.len() - i + b.len() - j,
    {
        let take_b = if i >= a.len() {
            true
        } else if j >= b.len() {
            false
        } else {
            comes_before(keys, b[j], a[i])
        };
        let ghost before = out@;
        if take_b {
            let x = b[j];
            out.push(x);
            proof {
                b@.lemma_take_succ_push(j as int);
                assert(out@ == before.push(x));
                vstd::seq_lib::to_multiset_build(before, x);
                vstd::seq_lib::to_multiset_build(b@.take(j as int), x);
                assert(b@.take(j + 1) == b@.take(j as int).push(x));
                assert(out@.to_multiset() =~= a@.take(i as int).to_multiset().add(
                    b@.take(j + 1).to_multiset(),
                ));
                assert forall|p: int, q: int| 0 <= p < out@.len() && i <= q < a@.len() implies !ranks_before(
                    keys@,
                    #[trigger] a@[q],
                    #[trigger] out@[p],
                ) by {
                    if p == before.len() {
                        // x comes before a[i], which does not come after a[q]
                        lemma_ranks_total_order(keys@, x, a@[i as int], a@[q]);
                        lemma_ranks_total_order(keys@, a@[i as int], x, a@[q]);
                    } else {
                        assert(out@[p] == before[p]);
                    }
                }
                assert forall|p: int, q: int|
                    0 <= p < out@.len() && j + 1 <= q < b@.len() implies !ranks_before(
                    keys@,
                    #[trigger] b@[q],
                    #[trigger] out@[p],
                ) by {
                    if p == before.len() {
                    } else {
                        assert(out@[p] == before[p]);
                    }
                }
                assert forall|p: int, q: int| 0 <= p < q < out@.len() implies !ranks_before(
                    keys@,
                    #[trigger] out@[q],
                    #[trigger] out@[p],
                ) by {
                    assert(out@[p] == before[p]);
                    if q == before.len() {
                        assert(out@[q] == b@[j as int]);
                    } else {
                        assert(out@[q] == before[q]);
                    }
                }
            }
            j += 1;
        } else {
            let x = a[i];
            out.push(x);
            proof {
                a@.lemma_take_succ_push(i as int);
                assert(out@ == before.push(x));
                vstd::seq_lib::to_multiset_build(before, x);
                vstd::seq_lib::to_multiset_build(a@.take(i as int), x);
                assert(a@.take(i + 1) == a@.take(i as int).push(x));
                assert(out@.to_multiset() =~= a@.take(i + 1).to_multiset().add(
                    b@.take(j as int).to_multiset(),
                ));
                assert forall|p: int, q: int|
                    0 <= p < out@.len() && i + 1 <= q < a@.len() implies !ranks_before(
                    keys@,
                    #[trigger] a@[q],
                    #[trigger] out@[p],
                ) by {
                    if p == before.len() {
                    } else {
                        assert(out@[p] == before[p]);
                    }
                }
                assert forall|p: int, q: int| 0 <= p < out@.len() && j <= q < b@.len() implies !ranks_before(
                    keys@,
                    #[trigger] b@[q],
                    #[trigger] out@[p],
                ) by {
                    if p == before.len() {
                        // b[j] does not come before x, and b[q] not before b[j]
                        lemma_ranks_total_order(keys@, x, b@[j as int], b@[q]);
                    } else {
                        assert(out@[p] == before[p]);
                    }
                }
                assert forall|p: int, q: int| 0 <= p < q < out@.len() implies !ranks_before(
                    keys@,
                    #[trigger] out@[q],
                    #[trigger] out@[p],
                ) by {
                    assert(out@[p] == before[p]);
                    if q == before.len() {
                        assert(out@[q] == a@[i as int]);
                    } else {
                        assert(out@[q] == before[q]);
                    }
                }
            }
            i += 1;
        }
    }
    proof {
        assert(a@.take(i as int) =~= a@);
        assert(b@.take(j as int) =~= b@);
    }
    out
}

/// The entries `items[lo..hi]` in order.
fn sort_range(keys: &Vec<Fraction>, items: &Vec<usize>, lo: usize, hi: usize) -> (out: Vec<usize>)
    requires
        keys_valid(keys@),
        in_range(items@, keys@.len()),
        lo <= hi <= items@.len(),
    ensures
        out@.to_multiset() == items@.subrange(lo as int, hi as int).to_multiset(),
        ordered(keys@, out@),
        in_range(out@, keys@.len()),
    decreases hi - lo,
{
    broadcast use vstd::seq_lib::group_to_multiset_ensures;

    if hi - lo <= 1 {
        let mut out: Vec<usize> = Vec::new();
        if hi > lo {
            out.push(items[lo]);
        }
        assert(out@ =~= items@.subrange(lo as int, hi as int));
        out
    } else {
        let mid = lo + (hi - lo) / 2;
        let left = sort_range(keys, items, lo, mid);
        let right = sort_range(keys, items, mid, hi);
        proof {
            let l = items@.subrange(lo as int, mid as int);
            let r = items@.subrange(mid as int, hi as int);
            assert(l + r =~= items@.subrange(lo as int, hi as int));
            vstd::seq_lib::lemma_multiset_commutative(l, r);
        }
        merge(keys, &left, &right)
    }
}

/// The indices of `keys` in ascending order of key; indices with equal keys
/// stand in ascending order.
pub fn stable_order(keys: &Vec<Fraction>) -> (order: Vec<usize>)
    requires
        keys_valid(keys@),
    ensures
        is_stable_order(keys@, order@),
{
    let items = identity_order(keys.len());
    let order = sort_range(keys, &items, 0, keys.len());
    proof {
        assert(items@.subrange(0, keys@.len() as int) =~= items@);
        lemma_rearranged_identity(order@, keys@.len());
        assert forall|a: int, b: int| 0 <= a < b < order@.len() implies ranks_before(
            keys@,
            #[trigger] order@[a],
            #[trigger] order@[b],
        ) by {
            lemma_ranks_total_order(keys@, order@[a], order@[b], order@[a]);
        }
    }
    order
}

/// Only one ordering of the indices is stable: the contract of
/// `stable_order` leaves no choice.
pub proof fn lemma_stable_order_unique(keys: Seq<Fraction>, x: Seq<usize>, y: Seq<usize>)
    requires
        keys_valid(keys),
        is_stable_order(keys, x),
        is_stable_order(keys, y),
    ensures
        x == y,
{
    assert forall|i: int| 0 <= i < x.len() implies x[i] == y[i] by {
        lemma_stable_prefix(keys, x, y, i);
    }
    assert(x =~= y);
}

/// Two stable orderings agree at every position.
proof fn lemma_stable_prefix(keys: Seq<Fraction>, x: Seq<usize>, y: Seq<usize>, i: int)
    requires
        keys_valid(keys),
        is_stable_order(keys, x),
        is_stable_order(keys, y),
        0 <= i < x.len(),
    ensures
        x[i] == y[i],
    decreases i,
{
    // by induction the orderings agree below i
    assert forall|k: int| 0 <= k < i implies x[k] == y[k] by {
        lemma_stable_prefix(keys, x, y, k);
    }
    if x[i] != y[i] {
        // x[i] stands in y at some position p > i, y[i] in x at some q > i
        crate::permutation::lemma_permutation_contains(y, keys.len(), x[i]);
        let p = choose|p: int| 0 <= p < y.len() && y[p] == x[i];
        crate::permutation::lemma_permutation_contains(x, keys.len(), y[i]);
        let q = choose|q: int| 0 <= q < x.len() && x[q] == y[i];
        if p < i {
            assert(x[p] == y[p]);
            assert(x[p] == x[i]);
        }
        if q < i {
            assert(y[q] == x[q]);
            assert(y[q] == y[i]);
        }
        assert(p > i && q > i);
        assert(ranks_before(keys, y[i], y[p]));
        assert(ranks_before(keys, x[i], x[q]));
        lemma_ranks_total_order(keys, x[i], y[i], x[i]);
        assert(false);
    }
}

} // verus!
