//! What depth-first traversal guarantees: every vertex is left exactly once,
//! and the components found from it split the vertices among them.

use vstd::prelude::*;
use crate::graph::{
    classes, component_labels, components, dfs_from, dfs_scan, dfs_visit, enter, label_pass,
    labelling_of, leave, lemma_dfs_visit_shrinks, lemma_unseen_update, marks, members,
    reverse_graph, spread, top_order, unlabelled, unseen_count, unvisited, visit_of, Labelling,
    Visit,
};
use crate::permutation::{
    identity, in_range, is_arrangement, is_permutation, lemma_arrangement_length,
    lemma_rearranged_identity,
};

verus! {

/// `x` was entered and not left yet.
pub open spec fn pending(st: Visit, x: int) -> bool {
    0 <= x < st.seen.len() && st.seen[x] && !st.post.contains(x as usize)
}

/// Every vertex was left at most once, and only after it was entered.
pub open spec fn tidy(st: Visit) -> bool {
    &&& st.post.no_duplicates()
    &&& forall|i: int|
        0 <= i < st.post.len() ==> (#[trigger] st.post[i]) < st.seen.len() && st.seen[st.post[i] as int]
}

/// `later` continues `st`: nothing was forgotten, and the same vertices are
/// pending.
pub open spec fn continues(st: Visit, later: Visit) -> bool {
    &&& later.seen.len() == st.seen.len()
    &&& st.post.is_prefix_of(later.post)
    &&& forall|x: int| 0 <= x < st.seen.len() && st.seen[x] ==> later.seen[x]
    &&& forall|x: int| pending(later, x) <==> pending(st, x)
    &&& tidy(later)
}

/// What continues a continuation continues what that continues.
proof fn lemma_continues_transitive(a: Visit, b: Visit, c: Visit)
    requires
        continues(a, b),
        continues(b, c),
    ensures
        continues(a, c),
{
    assert forall|x: int| pending(c, x) <==> pending(a, x) by {
        assert(pending(c, x) <==> pending(b, x));
        assert(pending(b, x) <==> pending(a, x));
    }
}

/// A traversal from `u` continues the state it starts from, and has entered
/// `u` when it ends.
pub proof fn lemma_dfs_visit_continues(g: Seq<Seq<usize>>, st: Visit, u: int)
    requires
        tidy(st),
        st.seen.len() <= usize::MAX,
    ensures
        continues(st, dfs_visit(g, st, u)),
        0 <= u < st.seen.len() ==> dfs_visit(g, st, u).seen[u],
    decreases unseen_count(st.seen), 0int, 0int,
{
    if 0 <= u < st.seen.len() && !st.seen[u] {
        lemma_unseen_update(st.seen, u);
        let inside = enter(st, u);
        assert(tidy(inside));
        lemma_dfs_scan_continues(g, inside, u, 0);
        let scanned = dfs_scan(g, inside, u, 0);
        let done = leave(scanned, u);
        assert(pending(inside, u)) by {
            if st.post.contains(u as usize) {
                let i = choose|i: int| 0 <= i < st.post.len() && st.post[i] == u as usize;
                assert(st.seen[st.post[i] as int]);
            }
        }
        assert(pending(scanned, u));
        assert(tidy(done)) by {
            assert forall|i: int, j: int|
                0 <= i < done.post.len() && 0 <= j < done.post.len() && i != j implies done.post[i]
                != done.post[j] by {
                if i < scanned.post.len() && j < scanned.post.len() {
                } else if i < scanned.post.len() {
                    assert(scanned.post[i] == done.post[i]);
                } else {
                    assert(scanned.post[j] == done.post[j]);
                }
            }
            assert forall|i: int| 0 <= i < done.post.len() implies (#[trigger] done.post[i])
                < done.seen.len() && done.seen[done.post[i] as int] by {
                if i < scanned.post.len() {
                    assert(done.post[i] == scanned.post[i]);
                }
            }
        }
        assert forall|x: int| pending(done, x) <==> pending(st, x) by {
            assert(pending(scanned, x) <==> pending(inside, x));
            if !(0 <= x < st.seen.len()) {
            } else if x == u {
                assert(done.post[scanned.post.len() as int] == u as usize);
            } else {
                if scanned.post.contains(x as usize) {
                    let i = choose|i: int| 0 <= i < scanned.post.len() && scanned.post[i] == x as usize;
                    assert(done.post[i] == x as usize);
                }
                if done.post.contains(x as usize) {
                    let i = choose|i: int| 0 <= i < done.post.len() && done.post[i] == x as usize;
                    assert(scanned.post[i] == x as usize);
                }
            }
        }
    }
}

/// A traversal from the neighbours of `u` continues the state it starts
/// from.
pub proof fn lemma_dfs_scan_continues(g: Seq<Seq<usize>>, st: Visit, u: int, k: int)
    requires
        tidy(st),
        st.seen.len() <= usize::MAX,
    ensures
        continues(st, dfs_scan(g, st, u, k)),
    decreases unseen_count(st.seen), 1int, g[u].len() - k,
{
    if 0 <= k < g[u].len() {
        let next = dfs_visit(g, st, g[u][k] as int);
        lemma_dfs_visit_shrinks(g, st, g[u][k] as int);
        lemma_dfs_visit_continues(g, st, g[u][k] as int);
        lemma_dfs_scan_continues(g, next, u, k + 1);
        lemma_continues_transitive(st, next, dfs_scan(g, next, u, k + 1));
    }
}

/// A traversal from each of the vertices from `u` on continues the state it
/// starts from and has entered each of them when it ends.
proof fn lemma_dfs_from_continues(g: Seq<Seq<usize>>, st: Visit, u: int)
    requires
        tidy(st),
        st.seen.len() == g.len(),
        st.seen.len() <= usize::MAX,
        0 <= u,
    ensures
        continues(st, dfs_from(g, st, u)),
        forall|x: int| u <= x < g.len() ==> dfs_from(g, st, u).seen[x],
    decreases g.len() - u,
{
    if 0 <= u < g.len() {
        let next = dfs_visit(g, st, u);
        lemma_dfs_visit_continues(g, st, u);
        lemma_dfs_from_continues(g, next, u + 1);
        lemma_continues_transitive(st, next, dfs_from(g, next, u + 1));
    }
}

/// A sequence that names each of `n` vertices has at least `n` entries.
pub proof fn lemma_covering_length(s: Seq<usize>, n: nat)
    requires
        n <= usize::MAX + 1,
        forall|v: usize| v < n ==> s.contains(v),
    ensures
        s.len() >= n,
    decreases n,
{
    if n > 0 {
        let last = (n - 1) as usize;
        assert(s.contains(last));
        let p = choose|p: int| 0 <= p < s.len() && s[p] == last;
        let r = s.remove(p);
        assert forall|v: usize| v < n - 1 implies r.contains(v) by {
            assert(s.contains(v));
            let q = choose|q: int| 0 <= q < s.len() && s[q] == v;
            let qq = if q < p { q } else { q - 1 };
            assert(r[qq] == v);
        }
        lemma_covering_length(r, (n - 1) as nat);
    }
}

/// `top_order` lists every vertex exactly once.
pub proof fn lemma_top_order_permutation(g: Seq<Seq<usize>>)
    requires
        g.len() <= usize::MAX,
    ensures
        is_permutation(top_order(g), g.len()),
{
    let start = unvisited(g.len());
    let end = dfs_from(g, start, 0);
    lemma_dfs_from_continues(g, start, 0);
    let post = end.post;
    assert forall|v: usize| v < g.len() implies post.contains(v) by {
        assert(end.seen[v as int]);
        assert(!pending(start, v as int));
        assert(!pending(end, v as int));
    }
    lemma_covering_length(post, g.len());
    lemma_arrangement_length(post, g.len(), 0);
    let ord = top_order(g);
    assert forall|i: int| 0 <= i < ord.len() implies ord[i] < g.len() by {
        assert(ord[i] == post[post.len() - 1 - i]);
    }
    assert forall|i: int, j: int| 0 <= i < ord.len() && 0 <= j < ord.len() && i != j implies ord[i]
        != ord[j] by {
        assert(ord[i] == post[post.len() - 1 - i]);
        assert(ord[j] == post[post.len() - 1 - j]);
    }
}

/// Every label in use is below the count, and the count fits.
pub open spec fn labels_ok(l: Labelling, n: nat) -> bool {
    &&& l.labels.len() == n
    &&& l.count <= usize::MAX
    &&& forall|x: int|
        0 <= x < n ==> match #[trigger] l.labels[x] {
            Some(c) => c < l.count,
            None => true,
        }
}

/// `later` keeps every label of `l`.
pub open spec fn keeps_labels(l: Labelling, later: Labelling) -> bool {
    forall|x: int|
        0 <= x < l.labels.len() && l.labels[x] is Some ==> (#[trigger] later.labels[x])
            == l.labels[x]
}

/// `spread` labels `u`, keeps the labels that are there and uses only the
/// new label besides.
pub proof fn lemma_spread(g: Seq<Seq<usize>>, labels: Seq<Option<usize>>, u: int, label: usize)
    requires
        0 <= u < labels.len(),
        labels.len() <= usize::MAX,
    ensures
        spread(g, labels, u, label).len() == labels.len(),
        spread(g, labels, u, label)[u] is Some,
        forall|x: int|
            0 <= x < labels.len() ==> (#[trigger] spread(g, labels, u, label)[x]) == labels[x]
                || (labels[x] is None && spread(g, labels, u, label)[x] == Some(label)),
{
    let start = visit_of(marks(labels), Seq::empty());
    assert(tidy(start));
    lemma_dfs_visit_continues(g, start, u);
}

/// `label_pass` from position `i` on labels every vertex from there on and
/// keeps the labels that are there.
proof fn lemma_label_pass(g: Seq<Seq<usize>>, ord: Seq<usize>, cur: Labelling, i: int, n: nat)
    requires
        0 <= i <= ord.len(),
        ord.len() <= usize::MAX,
        n <= usize::MAX,
        in_range(ord, n),
        labels_ok(cur, n),
        cur.count <= i,
    ensures
        labels_ok(label_pass(g, ord, cur, i), n),
        keeps_labels(cur, label_pass(g, ord, cur, i)),
        forall|k: int| i <= k < ord.len() ==> label_pass(g, ord, cur, i).labels[ord[k] as int] is Some,
    decreases ord.len() - i,
{
    if i < ord.len() {
        let u = ord[i] as int;
        let next = if cur.labels[u] is None {
            labelling_of(spread(g, cur.labels, u, cur.count as usize), cur.count + 1)
        } else {
            cur
        };
        if cur.labels[u] is None {
            lemma_spread(g, cur.labels, u, cur.count as usize);
            assert(labels_ok(next, n)) by {
                assert forall|x: int| 0 <= x < n implies match #[trigger] next.labels[x] {
                    Some(c) => c < next.count,
                    None => true,
                } by {
                    assert(next.labels[x] == cur.labels[x] || next.labels[x] == Some(
                        cur.count as usize,
                    ));
                }
            }
        }
        assert(keeps_labels(cur, next));
        lemma_label_pass(g, ord, next, i + 1, n);
        let end = label_pass(g, ord, next, i + 1);
        assert(end.labels[ord[i] as int] is Some) by {
            assert(next.labels[u] is Some);
        }
        assert(keeps_labels(cur, end)) by {
            assert forall|x: int| 0 <= x < cur.labels.len() && cur.labels[x] is Some implies (
            #[trigger] end.labels[x]) == cur.labels[x] by {
                assert(next.labels[x] == cur.labels[x]);
            }
        }
    }
}

/// Every vertex has a label.
pub open spec fn all_labelled(l: Labelling) -> bool {
    forall|x: int| 0 <= x < l.labels.len() ==> (#[trigger] l.labels[x]) is Some
}

/// The labelling by component gives every vertex a label below the count.
pub proof fn lemma_component_labels(h: Seq<Seq<usize>>)
    requires
        h.len() <= usize::MAX,
    ensures
        labels_ok(component_labels(h), h.len()),
        all_labelled(component_labels(h)),
{
    let ord = top_order(h);
    lemma_top_order_permutation(h);
    lemma_label_pass(reverse_graph(h), ord, unlabelled(h.len()), 0, h.len());
    let l = component_labels(h);
    assert forall|x: int| 0 <= x < l.labels.len() implies (#[trigger] l.labels[x]) is Some by {
        crate::permutation::lemma_permutation_contains(ord, h.len(), x as usize);
        let k = choose|k: int| 0 <= k < ord.len() && ord[k] == x as usize;
        assert(l.labels[ord[k] as int] is Some);
    }
}

/// The blocks `lo..hi` of `parts`, one after the other.
pub open spec fn concat_range(parts: Seq<Seq<usize>>, lo: int, hi: int) -> Seq<usize>
    decreases hi - lo,
{
    if hi <= lo {
        Seq::empty()
    } else {
        concat_range(parts, lo, hi - 1) + parts[hi - 1]
    }
}

/// The members of a label below `k` are vertices below `k`, ascending.
pub proof fn lemma_members(labels: Seq<Option<usize>>, label: usize, k: int)
    requires
        0 <= k <= labels.len(),
        labels.len() <= usize::MAX,
    ensures
        forall|i: int|
            0 <= i < members(labels, label, k).len() ==> (#[trigger] members(labels, label, k)[i])
                < k && labels[members(labels, label, k)[i] as int] == Some(label),
        forall|i: int, j: int|
            0 <= i < j < members(labels, label, k).len() ==> members(labels, label, k)[i]
                < members(labels, label, k)[j],
        forall|x: usize| x < k && labels[x as int] == Some(label) ==> members(labels, label, k).contains(x),
    decreases k,
{
    if k > 0 {
        lemma_members(labels, label, k - 1);
        let prev = members(labels, label, k - 1);
        let cur = members(labels, label, k);
        assert forall|x: usize| x < k && labels[x as int] == Some(label) implies cur.contains(x) by {
            if x < k - 1 {
                assert(prev.contains(x));
                let i = choose|i: int| 0 <= i < prev.len() && prev[i] == x;
                assert(cur[i] == x);
            } else {
                assert(cur[prev.len() as int] == x);
            }
        }
    }
}

/// The classes among the vertices below `k`, one after the other, hold each
/// of these vertices once.
proof fn lemma_classes_multiset(labels: Seq<Option<usize>>, count: nat, k: int)
    requires
        0 <= k <= labels.len(),
        labels.len() <= usize::MAX,
        labels_ok(labelling_of(labels, count), labels.len()),
        all_labelled(labelling_of(labels, count)),
    ensures
        concat_range(classes_upto(labels, count, k), 0, count as int).to_multiset() == identity(
            k as nat,
        ).to_multiset(),
    decreases k,
{
    broadcast use vstd::seq_lib::group_to_multiset_ensures;

    let cur = classes_upto(labels, count, k);
    if k == 0 {
        lemma_concat_empty(cur, count as int);
        assert(identity(0) =~= Seq::<usize>::empty());
    } else {
        lemma_classes_multiset(labels, count, k - 1);
        let prev = classes_upto(labels, count, k - 1);
        let x = (k - 1) as usize;
        assert(labels[k - 1] is Some);
        let c = labels[k - 1]->0;
        assert(c < count);
        assert(cur =~= prev.update(c as int, prev[c as int].push(x)));
        lemma_concat_push(prev, c as int, x, count as int);
        assert(identity(k as nat) =~= identity((k - 1) as nat).push(x));
    }
}

/// The classes of the labels below `count` among the vertices below `k`.
pub open spec fn classes_upto(labels: Seq<Option<usize>>, count: nat, k: int) -> Seq<Seq<usize>> {
    Seq::new(count, |c: int| members(labels, c as usize, k))
}

/// A range of blocks depends on the blocks in it only.
pub proof fn lemma_concat_range_same(parts: Seq<Seq<usize>>, other: Seq<Seq<usize>>, k: int)
    requires
        0 <= k <= parts.len(),
        k <= other.len(),
        forall|i: int| 0 <= i < k ==> parts[i] == other[i],
    ensures
        concat_range(other, 0, k) == concat_range(parts, 0, k),
    decreases k,
{
    if k > 0 {
        lemma_concat_range_same(parts, other, k - 1);
    }
}

/// Empty blocks make an empty whole.
pub proof fn lemma_concat_empty(parts: Seq<Seq<usize>>, hi: int)
    requires
        0 <= hi <= parts.len(),
        forall|c: int| 0 <= c < hi ==> (#[trigger] parts[c]).len() == 0,
    ensures
        concat_range(parts, 0, hi) == Seq::<usize>::empty(),
    decreases hi,
{
    if hi > 0 {
        lemma_concat_empty(parts, hi - 1);
        assert(concat_range(parts, 0, hi - 1) + parts[hi - 1] =~= Seq::<usize>::empty());
    }
}

/// One more entry in one block is one more entry in the whole.
pub proof fn lemma_concat_push(parts: Seq<Seq<usize>>, c: int, x: usize, hi: int)
    requires
        0 <= hi <= parts.len(),
        0 <= c < parts.len(),
    ensures
        concat_range(parts.update(c, parts[c].push(x)), 0, hi).to_multiset() == if c < hi {
            concat_range(parts, 0, hi).to_multiset().insert(x)
        } else {
            concat_range(parts, 0, hi).to_multiset()
        },
    decreases hi,
{
    broadcast use vstd::seq_lib::group_to_multiset_ensures;

    let changed = parts.update(c, parts[c].push(x));
    if hi > 0 {
        lemma_concat_push(parts, c, x, hi - 1);
        let head = concat_range(parts, 0, hi - 1);
        let head2 = concat_range(changed, 0, hi - 1);
        vstd::seq_lib::lemma_multiset_commutative(head, parts[hi - 1]);
        vstd::seq_lib::lemma_multiset_commutative(head2, changed[hi - 1]);
        if c == hi - 1 {
            vstd::seq_lib::to_multiset_build(parts[c], x);
            assert(head2.to_multiset().add(parts[c].to_multiset().insert(x)) =~= head.to_multiset().add(
                parts[c].to_multiset(),
            ).insert(x));
        } else if c < hi - 1 {
            assert(head.to_multiset().insert(x).add(parts[hi - 1].to_multiset())
                =~= head.to_multiset().add(parts[hi - 1].to_multiset()).insert(x));
        }
    }
}

/// The components of a graph split its vertices among them: one after the
/// other they list every vertex exactly once, each component in ascending
/// order.
pub proof fn lemma_components_partition(h: Seq<Seq<usize>>)
    requires
        h.len() <= usize::MAX,
    ensures
        is_permutation(concat_range(components(h), 0, components(h).len() as int), h.len()),
        forall|c: int|
            0 <= c < components(h).len() ==> is_arrangement(#[trigger] components(h)[c], h.len()),
{
    let l = component_labels(h);
    lemma_component_labels(h);
    let n = h.len();
    assert(labelling_of(l.labels, l.count) == l);
    lemma_classes_multiset(l.labels, l.count, n as int);
    assert(classes_upto(l.labels, l.count, n as int) =~= components(h));
    lemma_rearranged_identity(concat_range(components(h), 0, l.count as int), n);
    assert forall|c: int| 0 <= c < components(h).len() implies is_arrangement(
        #[trigger] components(h)[c],
        n,
    ) by {
        lemma_members(l.labels, c as usize, n as int);
    }
}

} // verus!
