//! Sequences that list vertices without repetition.

use vstd::prelude::*;

verus! {

/// Every entry of `s` is below `n`.
pub open spec fn in_range(s: Seq<usize>, n: nat) -> bool {
    forall|i: int| 0 <= i < s.len() ==> s[i] < n
}

/// `s` lists some of the vertices below `n`, none of them twice.
pub open spec fn is_arrangement(s: Seq<usize>, n: nat) -> bool {
    in_range(s, n) && s.no_duplicates()
}

/// `s` lists every vertex below `n` exactly once.
pub open spec fn is_permutation(s: Seq<usize>, n: nat) -> bool {
    s.len() == n && is_arrangement(s, n)
}

/// The vertices below `n` in ascending order.
pub open spec fn identity(n: nat) -> Seq<usize> {
    Seq::new(n, |i: int| i as usize)
}

/// The vertices below `n` in ascending order.
pub fn identity_order(n: usize) -> (v: Vec<usize>)
    ensures
        v@ == identity(n as nat),
{
    let mut v: Vec<usize> = Vec::new();
    let mut i: usize = 0;
    while i < n
        invariant
            i <= n,
            v@ == identity(i as nat),
        decreases n - i,
    {
        v.push(i);
        i += 1;
        assert(v@ =~= identity(i as nat));
    }
    v
}

/// A full-length arrangement mentions every vertex.
pub proof fn lemma_permutation_contains(s: Seq<usize>, n: nat, v: usize)
    requires
        is_permutation(s, n),
        v < n,
    ensures
        s.contains(v),
    decreases n,
{
    let m = (n - 1) as nat;
    if s.contains(m as usize) {
        let p = choose|p: int| 0 <= p < s.len() && s[p] == m as usize;
        if v != m as usize {
            let r = s.remove(p);
            assert forall|i: int| 0 <= i < r.len() implies r[i] < m by {
                if i < p {
                    assert(r[i] == s[i]);
                } else {
                    assert(r[i] == s[i + 1]);
                }
            }
            assert(r.no_duplicates()) by {
                assert forall|i: int, j: int|
                    0 <= i < r.len() && 0 <= j < r.len() && i != j implies r[i] != r[j] by {
                    let ii = if i < p { i } else { i + 1 };
                    let jj = if j < p { j } else { j + 1 };
                    assert(r[i] == s[ii] && r[j] == s[jj]);
                }
            }
            lemma_permutation_contains(r, m, v);
            let q = choose|q: int| 0 <= q < r.len() && r[q] == v;
            let qq = if q < p { q } else { q + 1 };
            assert(s[qq] == v);
        }
    } else {
        // every entry is below n - 1, so the first n - 1 of them already
        // use up all those values and the last entry repeats one of them
        let r = s.drop_last();
        assert forall|i: int| 0 <= i < r.len() implies r[i] < m by {
            assert(r[i] == s[i]);
            assert(s[i] != m as usize);
        }
        assert(r.no_duplicates()) by {
            assert forall|i: int, j: int|
                0 <= i < r.len() && 0 <= j < r.len() && i != j implies r[i] != r[j] by {
                assert(r[i] == s[i] && r[j] == s[j]);
            }
        }
        let last = s[n - 1];
        assert(last != m as usize);
        lemma_permutation_contains(r, m, last);
        let q = choose|q: int| 0 <= q < r.len() && r[q] == last;
        assert(s[q] == s[n - 1]);
        assert(false);
    }
}

/// A rearrangement of the ascending order is a permutation.
pub proof fn lemma_rearranged_identity(s: Seq<usize>, n: nat)
    requires
        n <= usize::MAX,
        s.to_multiset() == identity(n).to_multiset(),
    ensures
        is_permutation(s, n),
{
    broadcast use vstd::seq_lib::group_to_multiset_ensures;

    let id = identity(n);
    assert(id.no_duplicates());
    id.lemma_multiset_has_no_duplicates();
    s.lemma_multiset_has_no_duplicates_conv();
    assert(s.len() == s.to_multiset().len());
    assert(id.len() == id.to_multiset().len());
    assert forall|i: int| 0 <= i < s.len() implies s[i] < n by {
        assert(s.contains(s[i]));
        assert(s.to_multiset().count(s[i]) > 0);
        assert(id.contains(s[i]));
        let k = choose|k: int| 0 <= k < id.len() && id[k] == s[i];
        assert(id[k] == k as usize);
    }
}

/// Taking an entry out of an arrangement leaves an arrangement without it.
pub proof fn lemma_remove_keeps_arrangement(s: Seq<usize>, n: nat, p: int)
    requires
        is_arrangement(s, n),
        0 <= p < s.len(),
    ensures
        is_arrangement(s.remove(p), n),
        !s.remove(p).contains(s[p]),
        forall|v: usize| v != s[p] && s.contains(v) ==> s.remove(p).contains(v),
{
    let r = s.remove(p);
    assert forall|i: int| 0 <= i < r.len() implies r[i] < n && r[i] != s[p] by {
        let ii = if i < p { i } else { i + 1 };
        assert(r[i] == s[ii]);
    }
    assert forall|i: int, j: int|
        0 <= i < r.len() && 0 <= j < r.len() && i != j implies r[i] != r[j] by {
        let ii = if i < p { i } else { i + 1 };
        let jj = if j < p { j } else { j + 1 };
        assert(r[i] == s[ii] && r[j] == s[jj]);
    }
    assert forall|v: usize| v != s[p] && s.contains(v) implies r.contains(v) by {
        let q = choose|q: int| 0 <= q < s.len() && s[q] == v;
        let qq = if q < p { q } else { q - 1 };
        assert(r[qq] == v);
    }
}

/// Putting a new vertex into an arrangement gives an arrangement with it.
pub proof fn lemma_insert_keeps_arrangement(s: Seq<usize>, n: nat, p: int, v: usize)
    requires
        is_arrangement(s, n),
        0 <= p <= s.len(),
        v < n,
        !s.contains(v),
    ensures
        is_arrangement(s.insert(p, v), n),
        s.insert(p, v).contains(v),
        forall|x: usize| s.contains(x) ==> s.insert(p, v).contains(x),
        forall|x: usize| s.insert(p, v).contains(x) ==> x == v || s.contains(x),
{
    let r = s.insert(p, v);
    assert(r[p] == v);
    assert forall|i: int| 0 <= i < r.len() && i != p implies r[i] < n && r[i] != v
        && s.contains(r[i]) by {
        let ii = if i < p { i } else { i - 1 };
        assert(r[i] == s[ii]);
    }
    assert forall|i: int, j: int|
        0 <= i < r.len() && 0 <= j < r.len() && i != j implies r[i] != r[j] by {
        if i != p && j != p {
            let ii = if i < p { i } else { i - 1 };
            let jj = if j < p { j } else { j - 1 };
            assert(r[i] == s[ii] && r[j] == s[jj]);
        }
    }
    assert forall|x: usize| s.contains(x) implies r.contains(x) by {
        let q = choose|q: int| 0 <= q < s.len() && s[q] == x;
        let qq = if q < p { q } else { q + 1 };
        assert(r[qq] == x);
    }
    assert forall|x: usize| r.contains(x) implies x == v || s.contains(x) by {
        let q = choose|q: int| 0 <= q < r.len() && r[q] == x;
        if q != p {
            let qq = if q < p { q } else { q - 1 };
            assert(r[q] == s[qq]);
        }
    }
}

/// An arrangement is no longer than the range it draws from, and shorter
/// when it leaves a vertex out.
pub proof fn lemma_arrangement_length(s: Seq<usize>, n: nat, v: usize)
    requires
        is_arrangement(s, n),
    ensures
        s.len() <= n,
        v < n && !s.contains(v) ==> s.len() < n,
{
    if s.len() >= n {
        let t = s.take(n as int);
        assert(is_permutation(t, n)) by {
            assert forall|i: int| 0 <= i < t.len() implies t[i] < n by {
                assert(t[i] == s[i]);
            }
            assert forall|i: int, j: int|
                0 <= i < t.len() && 0 <= j < t.len() && i != j implies t[i] != t[j] by {
                assert(t[i] == s[i] && t[j] == s[j]);
            }
        }
        if s.len() > n {
            let x = s[n as int];
            lemma_permutation_contains(t, n, x);
            let q = choose|q: int| 0 <= q < t.len() && t[q] == x;
            assert(s[q] == s[n as int]);
            assert(false);
        }
        if v < n && !s.contains(v) {
            lemma_permutation_contains(t, n, v);
            let q = choose|q: int| 0 <= q < t.len() && t[q] == v;
            assert(s[q] == v);
            assert(false);
        }
    }
}

/// A rearrangement of a permutation is a permutation.
pub proof fn lemma_rearranged_permutation(s: Seq<usize>, t: Seq<usize>, n: nat)
    requires
        is_permutation(t, n),
        s.to_multiset() == t.to_multiset(),
    ensures
        is_permutation(s, n),
{
    broadcast use vstd::seq_lib::group_to_multiset_ensures;

    t.lemma_multiset_has_no_duplicates();
    s.lemma_multiset_has_no_duplicates_conv();
    assert(s.len() == s.to_multiset().len());
    assert(t.len() == t.to_multiset().len());
    assert forall|i: int| 0 <= i < s.len() implies s[i] < n by {
        assert(s.contains(s[i]));
        assert(s.to_multiset().count(s[i]) > 0);
        assert(t.contains(s[i]));
        let k = choose|k: int| 0 <= k < t.len() && t[k] == s[i];
    }
}

/// Whether `s` lists every vertex below its length exactly once.
pub fn check_permutation(s: &Vec<usize>) -> (ok: bool)
    ensures
        ok == is_permutation(s@, s@.len()),
{
    let n = s.len();
    let mut seen: Vec<bool> = vec![false; n];
    let mut i: usize = 0;
    while i < n
        invariant
            0 <= i <= n,
            n == s@.len(),
            seen@.len() == n,
            forall|k: int| 0 <= k < i ==> s@[k] < n,
            forall|k: int, l: int| 0 <= k < l < i ==> s@[k] != s@[l],
            forall|x: int| 0 <= x < n ==> (#[trigger] seen@[x] <==> exists|k: int|
                0 <= k < i && s@[k] == x),
        decreases n - i,
    {
        let x = s[i];
        if x >= n {
            return false;
        }
        if seen[x] {
            proof {
                let k = choose|k: int| 0 <= k < i && s@[k] == x;
                assert(s@[k] == s@[i as int]);
            }
            return false;
        }
        let ghost before = seen@;
        seen[x] = true;
        proof {
            assert forall|y: int| 0 <= y < n implies (#[trigger] seen@[y] <==> exists|k: int|
                0 <= k < i + 1 && s@[k] == y) by {
                if y == x {
                    assert(s@[i as int] == y);
                } else {
                    assert(seen@[y] == before[y]);
                    if before[y] {
                        let k = choose|k: int| 0 <= k < i && s@[k] == y;
                        assert(0 <= k < i + 1 && s@[k] == y);
                    }
                    if exists|k: int| 0 <= k < i + 1 && s@[k] == y {
                        let k = choose|k: int| 0 <= k < i + 1 && s@[k] == y;
                        assert(k < i);
                    }
                }
            }
            assert forall|k: int, l: int| 0 <= k < l < i + 1 implies s@[k] != s@[l] by {
                if l == i {
                    if s@[k] == x {
                        assert(before[x as int]);
                    }
                }
            }
        }
        i += 1;
    }
    true
}

} // verus!
