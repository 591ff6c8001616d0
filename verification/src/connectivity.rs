//! Reachability in directed graphs, and why the components that
//! `compute_sccs` finds are the strongly connected ones.

use vstd::prelude::*;
use crate::graph::{
    add_reversed, component_labels, components, dfs_from, dfs_scan, dfs_visit, enter, has_edge,
    is_graph, label_pass, labelling_of, leave, lemma_dfs_visit_shrinks, lemma_unseen_update, marks,
    reverse_graph, reversed_upto, spread, top_order, unlabelled, unseen_count, unvisited, visit_of,
    Labelling, Visit,
};
use crate::permutation::{is_permutation, lemma_permutation_contains};
use crate::traversal::{
    continues, labels_ok, lemma_component_labels, lemma_dfs_scan_continues,
    lemma_dfs_visit_continues, lemma_members, lemma_top_order_permutation, pending, tidy,
};

verus! {

/// `p` is a walk along edges of `g`.
pub open spec fn is_path(g: Seq<Seq<usize>>, p: Seq<int>) -> bool {
    &&& p.len() > 0
    &&& forall|i: int| 0 <= i < p.len() ==> 0 <= #[trigger] p[i] < g.len()
    &&& forall|i: int| 0 <= i < p.len() - 1 ==> has_edge(g, #[trigger] p[i], p[i + 1])
}

/// `p` is a walk from `u` to `v`.
pub open spec fn is_path_between(g: Seq<Seq<usize>>, p: Seq<int>, u: int, v: int) -> bool {
    is_path(g, p) && p[0] == u && p[p.len() - 1] == v
}

/// There is a walk from `u` to `v`.
pub open spec fn reaches(g: Seq<Seq<usize>>, u: int, v: int) -> bool {
    exists|p: Seq<int>| is_path_between(g, p, u, v)
}

/// `u` and `v` reach each other.
pub open spec fn connected(g: Seq<Seq<usize>>, u: int, v: int) -> bool {
    reaches(g, u, v) && reaches(g, v, u)
}

/// Every vertex reaches itself.
pub proof fn lemma_reaches_self(g: Seq<Seq<usize>>, u: int)
    requires
        0 <= u < g.len(),
    ensures
        reaches(g, u, u),
{
    assert(is_path_between(g, seq![u], u, u));
}

/// An edge is a walk.
pub proof fn lemma_reaches_edge(g: Seq<Seq<usize>>, u: int, v: int)
    requires
        has_edge(g, u, v),
    ensures
        reaches(g, u, v),
{
    let p = seq![u, v];
    assert(is_path(g, p)) by {
        assert forall|i: int| 0 <= i < p.len() - 1 implies has_edge(g, #[trigger] p[i], p[i + 1]) by {
            assert(i == 0);
        }
    }
    assert(is_path_between(g, p, u, v));
}

/// Only vertices reach and are reached.
pub proof fn lemma_reaches_valid(g: Seq<Seq<usize>>, u: int, v: int)
    requires
        reaches(g, u, v),
    ensures
        0 <= u < g.len(),
        0 <= v < g.len(),
{
    let p = choose|p: Seq<int>| is_path_between(g, p, u, v);
    assert(0 <= p[0] < g.len());
    assert(0 <= p[p.len() - 1] < g.len());
}

/// Walks can be joined.
pub proof fn lemma_reaches_trans(g: Seq<Seq<usize>>, u: int, v: int, w: int)
    requires
        reaches(g, u, v),
        reaches(g, v, w),
    ensures
        reaches(g, u, w),
{
    let p = choose|p: Seq<int>| is_path_between(g, p, u, v);
    let q = choose|q: Seq<int>| is_path_between(g, q, v, w);
    let r = p + q.subrange(1, q.len() as int);
    assert(is_path(g, r)) by {
        assert forall|i: int| 0 <= i < r.len() implies 0 <= #[trigger] r[i] < g.len() by {
            if i < p.len() {
                assert(r[i] == p[i]);
            } else {
                assert(r[i] == q[i - p.len() + 1]);
            }
        }
        assert forall|i: int| 0 <= i < r.len() - 1 implies has_edge(g, #[trigger] r[i], r[i + 1]) by {
            if i < p.len() - 1 {
                assert(r[i] == p[i] && r[i + 1] == p[i + 1]);
            } else if i == p.len() - 1 {
                assert(r[i] == p[i]);
                assert(p[i] == q[0]);
                assert(r[i + 1] == q[1]);
                assert(has_edge(g, q[0int], q[0int + 1]));
            } else {
                let k = i - p.len() + 1;
                assert(r[i] == q[k] && r[i + 1] == q[k + 1]);
            }
        }
    }
    assert(r[0] == p[0]);
    if q.len() == 1 {
        assert(r =~= p);
        assert(v == w);
    } else {
        assert(r[r.len() - 1] == q[q.len() - 1]);
    }
    assert(is_path_between(g, r, u, w));
}

/// Every vertex on a walk is reached from its start and reaches its end.
pub proof fn lemma_path_split(g: Seq<Seq<usize>>, p: Seq<int>, i: int)
    requires
        is_path(g, p),
        0 <= i < p.len(),
    ensures
        reaches(g, p[0], p[i]),
        reaches(g, p[i], p[p.len() - 1]),
{
    let head = p.subrange(0, i + 1);
    let tail = p.subrange(i, p.len() as int);
    assert(is_path(g, head)) by {
        assert forall|k: int| 0 <= k < head.len() implies 0 <= #[trigger] head[k] < g.len() by {
            assert(head[k] == p[k]);
        }
        assert forall|k: int| 0 <= k < head.len() - 1 implies has_edge(
            g,
            #[trigger] head[k],
            head[k + 1],
        ) by {
            assert(head[k] == p[k] && head[k + 1] == p[k + 1]);
        }
    }
    assert(is_path(g, tail)) by {
        assert forall|k: int| 0 <= k < tail.len() implies 0 <= #[trigger] tail[k] < g.len() by {
            assert(tail[k] == p[i + k]);
        }
        assert forall|k: int| 0 <= k < tail.len() - 1 implies has_edge(
            g,
            #[trigger] tail[k],
            tail[k + 1],
        ) by {
            assert(tail[k] == p[i + k] && tail[k + 1] == p[i + k + 1]);
        }
    }
    assert(is_path_between(g, head, p[0], p[i]));
    assert(is_path_between(g, tail, p[i], p[p.len() - 1]));
}

/// Connected vertices are connected the other way round, and connection
/// carries over.
pub proof fn lemma_connected_trans(g: Seq<Seq<usize>>, u: int, v: int, w: int)
    requires
        connected(g, u, v),
        connected(g, v, w),
    ensures
        connected(g, u, w),
        connected(g, v, u),
{
    lemma_reaches_trans(g, u, v, w);
    lemma_reaches_trans(g, w, v, u);
}

/// Every vertex on a walk between connected vertices is connected to them.
pub proof fn lemma_path_within(g: Seq<Seq<usize>>, p: Seq<int>, i: int)
    requires
        is_path(g, p),
        0 <= i < p.len(),
        reaches(g, p[p.len() - 1], p[0]),
    ensures
        connected(g, p[0], p[i]),
{
    lemma_path_split(g, p, i);
    lemma_reaches_trans(g, p[i], p[p.len() - 1], p[0]);
}

/// `y` is among the first `m` entries of `post`.
pub open spec fn in_prefix(post: Seq<usize>, y: int, m: int) -> bool {
    exists|j: int| 0 <= j < m && j < post.len() && #[trigger] post[j] == y
}

/// No vertex that was left has an edge to a vertex that was not entered.
pub open spec fn no_escape(g: Seq<Seq<usize>>, st: Visit) -> bool {
    forall|i: int, y: int|
        0 <= i < st.post.len() && #[trigger] has_edge(g, st.post[i] as int, y) ==> st.seen[y]
}

/// Every entry of `later` from position `from` on is reached from `u`.
pub open spec fn fresh_reached(g: Seq<Seq<usize>>, later: Seq<usize>, from: int, u: int) -> bool {
    forall|i: int| from <= i < later.len() ==> reaches(g, u, #[trigger] later[i] as int)
}

/// A traversal from `u` lets no edge escape and leaves only vertices that
/// `u` reaches.
pub proof fn lemma_visit_closed(g: Seq<Seq<usize>>, st: Visit, u: int)
    requires
        is_graph(g),
        st.seen.len() == g.len(),
        g.len() <= usize::MAX,
        tidy(st),
        no_escape(g, st),
        0 <= u < g.len(),
    ensures
        no_escape(g, dfs_visit(g, st, u)),
        fresh_reached(g, dfs_visit(g, st, u).post, st.post.len() as int, u),
        continues(st, dfs_visit(g, st, u)),
        dfs_visit(g, st, u).seen[u],
    decreases unseen_count(st.seen), 0int, 0int,
{
    lemma_dfs_visit_continues(g, st, u);
    if !st.seen[u] {
        lemma_unseen_update(st.seen, u);
        let inside = enter(st, u);
        assert(tidy(inside));
        assert(no_escape(g, inside)) by {
            assert forall|i: int, y: int|
                0 <= i < inside.post.len() && #[trigger] has_edge(
                    g,
                    inside.post[i] as int,
                    y,
                ) implies inside.seen[y] by {
                assert(has_edge(g, st.post[i] as int, y));
            }
        }
        lemma_scan_closed(g, inside, u, 0);
        lemma_dfs_scan_continues(g, inside, u, 0);
        let scanned = dfs_scan(g, inside, u, 0);
        let done = leave(scanned, u);
        assert(no_escape(g, done)) by {
            assert forall|i: int, y: int|
                0 <= i < done.post.len() && #[trigger] has_edge(g, done.post[i] as int, y) implies done.seen[y] by {
                if i < scanned.post.len() {
                    assert(done.post[i] == scanned.post[i]);
                    assert(has_edge(g, scanned.post[i] as int, y));
                } else {
                    assert(done.post[i] == u);
                    let k = choose|k: int| 0 <= k < g[u].len() && g[u][k] == y as usize;
                    assert(scanned.seen[g[u][k] as int]);
                }
            }
        }
        assert(fresh_reached(g, done.post, st.post.len() as int, u)) by {
            assert forall|i: int| st.post.len() <= i < done.post.len() implies reaches(
                g,
                u,
                #[trigger] done.post[i] as int,
            ) by {
                if i < scanned.post.len() {
                    assert(done.post[i] == scanned.post[i]);
                } else {
                    lemma_reaches_self(g, u);
                }
            }
        }
    } else {
        lemma_reaches_self(g, u);
    }
}

/// A traversal from the neighbours of `u` lets no edge escape, enters every
/// neighbour and leaves only vertices that `u` reaches.
pub proof fn lemma_scan_closed(g: Seq<Seq<usize>>, st: Visit, u: int, k: int)
    requires
        is_graph(g),
        st.seen.len() == g.len(),
        g.len() <= usize::MAX,
        tidy(st),
        no_escape(g, st),
        0 <= u < g.len(),
        0 <= k <= g[u].len(),
        forall|j: int| 0 <= j < k ==> st.seen[g[u][j] as int],
    ensures
        no_escape(g, dfs_scan(g, st, u, k)),
        fresh_reached(g, dfs_scan(g, st, u, k).post, st.post.len() as int, u),
        forall|j: int| 0 <= j < g[u].len() ==> dfs_scan(g, st, u, k).seen[g[u][j] as int],
    decreases unseen_count(st.seen), 1int, g[u].len() - k,
{
    if k < g[u].len() {
        let v = g[u][k] as int;
        assert(v < g.len());
        let next = dfs_visit(g, st, v);
        lemma_dfs_visit_shrinks(g, st, v);
        lemma_visit_closed(g, st, v);
        assert forall|j: int| 0 <= j < k + 1 implies next.seen[g[u][j] as int] by {
            if j < k {
                assert(st.seen[g[u][j] as int]);
            }
        }
        lemma_scan_closed(g, next, u, k + 1);
        let end = dfs_scan(g, next, u, k + 1);
        assert(has_edge(g, u, v)) by {
            assert(g[u][k] == v as usize);
        }
        lemma_reaches_edge(g, u, v);
        assert(fresh_reached(g, end.post, st.post.len() as int, u)) by {
            lemma_dfs_scan_continues(g, next, u, k + 1);
            assert forall|i: int| st.post.len() <= i < end.post.len() implies reaches(
                g,
                u,
                #[trigger] end.post[i] as int,
            ) by {
                if i < next.post.len() {
                    assert(end.post[i] == next.post[i]);
                    assert(reaches(g, v, next.post[i] as int));
                    lemma_reaches_trans(g, u, v, next.post[i] as int);
                }
            }
        }
    }
}

/// Every vertex connected to the one left at position `i` was left no later.
pub open spec fn closed_at(g: Seq<Seq<usize>>, post: Seq<usize>, i: int) -> bool {
    forall|x: int| #[trigger] connected(g, post[i] as int, x) ==> in_prefix(post, x, i + 1)
}

/// Every vertex that the one left at position `i` reaches was left no later.
pub open spec fn settled_at(g: Seq<Seq<usize>>, post: Seq<usize>, i: int) -> bool {
    forall|y: int| #[trigger] reaches(g, post[i] as int, y) ==> in_prefix(post, y, i + 1)
}

/// Whenever a vertex is the last of those connected to it to be left, all
/// that it reaches has been left by then.
pub open spec fn finishing(g: Seq<Seq<usize>>, post: Seq<usize>) -> bool {
    forall|i: int| 0 <= i < post.len() && #[trigger] closed_at(g, post, i) ==> settled_at(g, post, i)
}

/// Every pending vertex reaches `u`.
pub open spec fn pending_reach(g: Seq<Seq<usize>>, st: Visit, u: int) -> bool {
    forall|z: int| #[trigger] pending(st, z) ==> reaches(g, z, u)
}

/// Whether a vertex is among the first entries does not change when more
/// vertices are left.
proof fn lemma_in_prefix_same(post: Seq<usize>, later: Seq<usize>, x: int, m: int)
    requires
        post.is_prefix_of(later),
        0 <= m <= post.len(),
    ensures
        in_prefix(post, x, m) == in_prefix(later, x, m),
{
    if in_prefix(post, x, m) {
        let j = choose|j: int| 0 <= j < m && j < post.len() && #[trigger] post[j] == x;
        assert(later[j] == x);
    }
    if in_prefix(later, x, m) {
        let j = choose|j: int| 0 <= j < m && j < later.len() && #[trigger] later[j] == x;
        assert(post[j] == x);
    }
}

/// What is said of a position does not change when more vertices are left.
proof fn lemma_prefix_same(g: Seq<Seq<usize>>, post: Seq<usize>, later: Seq<usize>, i: int)
    requires
        post.is_prefix_of(later),
        0 <= i < post.len(),
    ensures
        closed_at(g, post, i) == closed_at(g, later, i),
        settled_at(g, post, i) == settled_at(g, later, i),
{
    assert(post[i] == later[i]);
    if closed_at(g, post, i) {
        assert forall|x: int| #[trigger] connected(g, later[i] as int, x) implies in_prefix(
            later,
            x,
            i + 1,
        ) by {
            lemma_in_prefix_same(post, later, x, i + 1);
        }
    }
    if closed_at(g, later, i) {
        assert forall|x: int| #[trigger] connected(g, post[i] as int, x) implies in_prefix(
            post,
            x,
            i + 1,
        ) by {
            lemma_in_prefix_same(post, later, x, i + 1);
        }
    }
    if settled_at(g, post, i) {
        assert forall|y: int| #[trigger] reaches(g, later[i] as int, y) implies in_prefix(
            later,
            y,
            i + 1,
        ) by {
            lemma_in_prefix_same(post, later, y, i + 1);
        }
    }
    if settled_at(g, later, i) {
        assert forall|y: int| #[trigger] reaches(g, post[i] as int, y) implies in_prefix(
            post,
            y,
            i + 1,
        ) by {
            lemma_in_prefix_same(post, later, y, i + 1);
        }
    }
}

/// What is finishing stays so when more vertices are left, as long as these
/// settle what they close.
proof fn lemma_finishing_extends(g: Seq<Seq<usize>>, post: Seq<usize>, later: Seq<usize>)
    requires
        finishing(g, post),
        post.is_prefix_of(later),
        forall|i: int|
            post.len() <= i < later.len() && #[trigger] closed_at(g, later, i) ==> settled_at(
                g,
                later,
                i,
            ),
    ensures
        finishing(g, later),
{
    assert forall|i: int| 0 <= i < later.len() && #[trigger] closed_at(g, later, i) implies settled_at(
        g,
        later,
        i,
    ) by {
        if i < post.len() {
            lemma_prefix_same(g, post, later, i);
        }
    }
}

/// When `u` is left last and closes, every vertex on a walk from `u` has
/// been left.
proof fn lemma_walk_left(g: Seq<Seq<usize>>, done: Visit, u: int, p: Seq<int>, k: int)
    requires
        is_graph(g),
        done.seen.len() == g.len(),
        g.len() <= usize::MAX,
        no_escape(g, done),
        pending_reach(g, done, u),
        done.post.len() > 0,
        done.post[done.post.len() - 1] == u,
        closed_at(g, done.post, done.post.len() - 1),
        is_path(g, p),
        p[0] == u,
        0 <= k < p.len(),
    ensures
        in_prefix(done.post, p[k], done.post.len() as int),
    decreases k,
{
    let last = done.post.len() - 1;
    if k == 0 {
        assert(done.post[last] == p[0]);
    } else {
        lemma_walk_left(g, done, u, p, k - 1);
        let j = choose|j: int|
            0 <= j < done.post.len() && j < done.post.len() && #[trigger] done.post[j] == p[k - 1];
        assert(has_edge(g, p[k - 1], p[k - 1 + 1]));
        assert(has_edge(g, done.post[j] as int, p[k]));
        assert(done.seen[p[k]]);
        if !done.post.contains(p[k] as usize) {
            assert(pending(done, p[k]));
            lemma_path_split(g, p, k);
            assert(connected(g, u, p[k]));
            assert(in_prefix(done.post, p[k], last + 1));
            let m = choose|m: int| 0 <= m < last + 1 && m < done.post.len() && #[trigger] done.post[m] == p[k];
            assert(done.post[m] == p[k] as usize);
            assert(false);
        } else {
            let m = choose|m: int| 0 <= m < done.post.len() && done.post[m] == p[k] as usize;
            assert(done.post[m] == p[k]);
        }
    }
}

/// A traversal from `u` keeps the order of leaving finishing.
pub proof fn lemma_visit_finishing(g: Seq<Seq<usize>>, st: Visit, u: int)
    requires
        is_graph(g),
        st.seen.len() == g.len(),
        g.len() <= usize::MAX,
        tidy(st),
        no_escape(g, st),
        finishing(g, st.post),
        pending_reach(g, st, u),
        0 <= u < g.len(),
    ensures
        finishing(g, dfs_visit(g, st, u).post),
    decreases unseen_count(st.seen), 0int, 0int,
{
    if !st.seen[u] {
        lemma_unseen_update(st.seen, u);
        let inside = enter(st, u);
        assert(tidy(inside));
        assert(no_escape(g, inside)) by {
            assert forall|i: int, y: int|
                0 <= i < inside.post.len() && #[trigger] has_edge(
                    g,
                    inside.post[i] as int,
                    y,
                ) implies inside.seen[y] by {
                assert(has_edge(g, st.post[i] as int, y));
            }
        }
        assert(pending(inside, u)) by {
            if st.post.contains(u as usize) {
                let i = choose|i: int| 0 <= i < st.post.len() && st.post[i] == u as usize;
                assert(st.seen[st.post[i] as int]);
            }
        }
        assert(pending_reach(g, inside, u)) by {
            assert forall|z: int| #[trigger] pending(inside, z) implies reaches(g, z, u) by {
                if z == u {
                    lemma_reaches_self(g, u);
                } else {
                    assert(pending(st, z));
                }
            }
        }
        lemma_scan_finishing(g, inside, u, 0);
        lemma_scan_closed(g, inside, u, 0);
        lemma_dfs_scan_continues(g, inside, u, 0);
        lemma_visit_closed(g, st, u);
        let scanned = dfs_scan(g, inside, u, 0);
        let done = leave(scanned, u);
        assert(done == dfs_visit(g, st, u));
        let last = done.post.len() - 1;
        assert(done.post[last] == u);
        assert(scanned.post.is_prefix_of(done.post));
        assert(pending_reach(g, done, u)) by {
            assert forall|z: int| #[trigger] pending(done, z) implies reaches(g, z, u) by {
                assert(pending(st, z));
            }
        }
        assert forall|i: int|
            scanned.post.len() <= i < done.post.len() && #[trigger] closed_at(
                g,
                done.post,
                i,
            ) implies settled_at(g, done.post, i) by {
            assert(i == last);
            assert forall|y: int| #[trigger] reaches(g, done.post[i] as int, y) implies in_prefix(
                done.post,
                y,
                i + 1,
            ) by {
                let p = choose|p: Seq<int>| is_path_between(g, p, u, y);
                lemma_walk_left(g, done, u, p, p.len() - 1);
            }
        }
        lemma_finishing_extends(g, scanned.post, done.post);
    }
}

/// A traversal from the neighbours of `u` keeps the order of leaving
/// finishing.
pub proof fn lemma_scan_finishing(g: Seq<Seq<usize>>, st: Visit, u: int, k: int)
    requires
        is_graph(g),
        st.seen.len() == g.len(),
        g.len() <= usize::MAX,
        tidy(st),
        no_escape(g, st),
        finishing(g, st.post),
        pending(st, u),
        pending_reach(g, st, u),
        0 <= u < g.len(),
        0 <= k <= g[u].len(),
    ensures
        finishing(g, dfs_scan(g, st, u, k).post),
    decreases unseen_count(st.seen), 1int, g[u].len() - k,
{
    if k < g[u].len() {
        let v = g[u][k] as int;
        assert(v < g.len());
        let next = dfs_visit(g, st, v);
        lemma_dfs_visit_shrinks(g, st, v);
        assert(has_edge(g, u, v)) by {
            assert(g[u][k] == v as usize);
        }
        lemma_reaches_edge(g, u, v);
        assert(pending_reach(g, st, v)) by {
            assert forall|z: int| #[trigger] pending(st, z) implies reaches(g, z, v) by {
                lemma_reaches_trans(g, z, u, v);
            }
        }
        lemma_visit_finishing(g, st, v);
        lemma_visit_closed(g, st, v);
        assert(pending(next, u));
        assert(pending_reach(g, next, u)) by {
            assert forall|z: int| #[trigger] pending(next, z) implies reaches(g, z, u) by {
                assert(pending(st, z));
            }
        }
        lemma_scan_finishing(g, next, u, k + 1);
    }
}

/// No vertex is pending.
pub open spec fn none_pending(st: Visit) -> bool {
    forall|z: int| !#[trigger] pending(st, z)
}

/// A traversal from each vertex in turn keeps the order of leaving
/// finishing.
proof fn lemma_from_finishing(g: Seq<Seq<usize>>, st: Visit, u: int)
    requires
        is_graph(g),
        st.seen.len() == g.len(),
        g.len() <= usize::MAX,
        tidy(st),
        no_escape(g, st),
        finishing(g, st.post),
        none_pending(st),
        0 <= u,
    ensures
        finishing(g, dfs_from(g, st, u).post),
    decreases g.len() - u,
{
    if u < g.len() {
        let next = dfs_visit(g, st, u);
        assert(pending_reach(g, st, u));
        lemma_visit_finishing(g, st, u);
        lemma_visit_closed(g, st, u);
        assert(none_pending(next)) by {
            assert forall|z: int| !#[trigger] pending(next, z) by {
                assert(!pending(st, z));
            }
        }
        lemma_from_finishing(g, next, u + 1);
    }
}

/// The order in which the first pass leaves the vertices is finishing.
pub proof fn lemma_first_pass(g: Seq<Seq<usize>>)
    requires
        is_graph(g),
        g.len() <= usize::MAX,
    ensures
        finishing(g, dfs_from(g, unvisited(g.len()), 0).post),
{
    let start = unvisited(g.len());
    assert(none_pending(start));
    assert(finishing(g, start.post));
    assert(no_escape(g, start));
    lemma_from_finishing(g, start, 0);
}

/// The last position below `m` whose vertex is connected to `x`, or -1.
pub open spec fn last_connected(g: Seq<Seq<usize>>, post: Seq<usize>, x: int, m: int) -> int
    decreases m,
{
    if m <= 0 {
        -1
    } else if connected(g, x, post[m - 1] as int) {
        m - 1
    } else {
        last_connected(g, post, x, m - 1)
    }
}

/// What `last_connected` finds.
proof fn lemma_last_connected(g: Seq<Seq<usize>>, post: Seq<usize>, x: int, m: int)
    requires
        0 <= m <= post.len(),
    ensures
        -1 <= last_connected(g, post, x, m) < m,
        last_connected(g, post, x, m) >= 0 ==> connected(
            g,
            x,
            post[last_connected(g, post, x, m)] as int,
        ),
        forall|j: int|
            last_connected(g, post, x, m) < j < m ==> !connected(g, x, #[trigger] post[j] as int),
    decreases m,
{
    if m > 0 {
        lemma_last_connected(g, post, x, m - 1);
    }
}

/// Whatever `x` reaches was left no later than some vertex connected to `x`.
pub proof fn lemma_later_connected(g: Seq<Seq<usize>>, post: Seq<usize>, x: int, y: int) -> (at: (
    int,
    int,
))
    requires
        g.len() <= usize::MAX,
        is_permutation(post, g.len()),
        finishing(g, post),
        reaches(g, x, y),
    ensures
        0 <= at.1 <= at.0 < post.len(),
        post[at.1] == y,
        connected(g, x, post[at.0] as int),
{
    let n = post.len() as int;
    lemma_reaches_valid(g, x, y);
    lemma_reaches_self(g, x);
    lemma_last_connected(g, post, x, n);
    let i = last_connected(g, post, x, n);
    lemma_permutation_contains(post, g.len(), x as usize);
    let ix = choose|ix: int| 0 <= ix < post.len() && post[ix] == x as usize;
    assert(connected(g, x, post[ix] as int));
    assert(i >= 0);
    let top = post[i] as int;
    assert(closed_at(g, post, i)) by {
        assert forall|z: int| #[trigger] connected(g, post[i] as int, z) implies in_prefix(
            post,
            z,
            i + 1,
        ) by {
            lemma_connected_trans(g, x, top, z);
            lemma_reaches_valid(g, top, z);
            lemma_permutation_contains(post, g.len(), z as usize);
            let iz = choose|iz: int| 0 <= iz < post.len() && post[iz] == z as usize;
            assert(connected(g, x, post[iz] as int));
            assert(iz <= i);
            assert(post[iz] == z);
        }
    }
    assert(settled_at(g, post, i));
    lemma_reaches_trans(g, top, x, y);
    assert(in_prefix(post, y, i + 1));
    let j = choose|j: int| 0 <= j < i + 1 && j < post.len() && #[trigger] post[j] == y;
    (i, j)
}

/// The adjacency lists after edges were entered in reverse hold what they
/// held and the new edges.
proof fn lemma_add_reversed(rows: Seq<Seq<usize>>, targets: Seq<usize>, u: usize, k: int)
    requires
        0 <= k <= targets.len(),
        forall|j: int| 0 <= j < targets.len() ==> targets[j] < rows.len(),
    ensures
        add_reversed(rows, targets, u, k).len() == rows.len(),
        forall|v: int, w: usize|
            0 <= v < rows.len() ==> (#[trigger] add_reversed(rows, targets, u, k)[v].contains(w) <==> (
            rows[v].contains(w) || (w == u && exists|j: int|
                0 <= j < k && #[trigger] targets[j] == v))),
    decreases k,
{
    if k > 0 {
        lemma_add_reversed(rows, targets, u, k - 1);
        let rest = add_reversed(rows, targets, u, k - 1);
        let t = targets[k - 1] as int;
        let cur = add_reversed(rows, targets, u, k);
        assert(cur == rest.update(t, rest[t].push(u)));
        assert forall|v: int, w: usize| 0 <= v < rows.len() implies (#[trigger] cur[v].contains(w) <==> (
        rows[v].contains(w) || (w == u && exists|j: int| 0 <= j < k && #[trigger] targets[j] == v))) by {
            let was = rest[v].contains(w);
            assert(was <==> (rows[v].contains(w) || (w == u && exists|j: int|
                0 <= j < k - 1 && #[trigger] targets[j] == v)));
            if v == t {
                assert(cur[v] == rest[t].push(u));
                if cur[v].contains(w) {
                    let i = choose|i: int| 0 <= i < cur[v].len() && cur[v][i] == w;
                    if i < rest[t].len() {
                        assert(rest[t][i] == w);
                    } else {
                        assert(w == u);
                        assert(targets[k - 1] == v);
                    }
                }
                if was {
                    let i = choose|i: int| 0 <= i < rest[v].len() && rest[v][i] == w;
                    assert(cur[v][i] == w);
                }
                if w == u {
                    assert(cur[v][rest[t].len() as int] == u);
                }
            } else {
                assert(cur[v] == rest[v]);
                if w == u && exists|j: int| 0 <= j < k && #[trigger] targets[j] == v {
                    let j = choose|j: int| 0 <= j < k && #[trigger] targets[j] == v;
                    assert(j < k - 1);
                }
            }
        }
    }
}

/// The reverse of the edges from the vertices below `m` holds exactly these
/// edges, turned round.
proof fn lemma_reversed_upto(h: Seq<Seq<usize>>, m: int)
    requires
        is_graph(h),
        0 <= m <= h.len(),
        h.len() <= usize::MAX,
    ensures
        reversed_upto(h, m).len() == h.len(),
        forall|v: int, w: usize|
            0 <= v < h.len() ==> (#[trigger] reversed_upto(h, m)[v].contains(w) <==> (w < m
                && h[w as int].contains(v as usize))),
    decreases m,
{
    if m > 0 {
        lemma_reversed_upto(h, m - 1);
        let rows = reversed_upto(h, m - 1);
        let targets = h[m - 1];
        let u = (m - 1) as usize;
        assert forall|j: int| 0 <= j < targets.len() implies targets[j] < rows.len() by {
            assert(h[m - 1][j] < h.len());
        }
        lemma_add_reversed(rows, targets, u, targets.len() as int);
        let cur = reversed_upto(h, m);
        assert forall|v: int, w: usize| 0 <= v < h.len() implies (#[trigger] cur[v].contains(w) <==> (w
            < m && h[w as int].contains(v as usize))) by {
            assert(cur[v].contains(w) <==> (rows[v].contains(w) || (w == u && exists|j: int|
                0 <= j < targets.len() && #[trigger] targets[j] == v)));
            if w == u {
                if exists|j: int| 0 <= j < targets.len() && #[trigger] targets[j] == v {
                    let j = choose|j: int| 0 <= j < targets.len() && #[trigger] targets[j] == v;
                    assert(h[u as int][j] == v as usize);
                }
                if h[u as int].contains(v as usize) {
                    let j = choose|j: int| 0 <= j < h[u as int].len() && h[u as int][j] == v as usize;
                    assert(targets[j] == v);
                }
            }
        }
    } else {
        assert forall|v: int, w: usize| 0 <= v < h.len() implies !(#[trigger] reversed_upto(
            h,
            m,
        )[v].contains(w)) by {}
    }
}

/// The reverse graph has the edges of the graph, turned round.
pub proof fn lemma_reverse_graph(h: Seq<Seq<usize>>)
    requires
        is_graph(h),
        h.len() <= usize::MAX,
    ensures
        reverse_graph(h).len() == h.len(),
        is_graph(reverse_graph(h)),
        forall|v: int, w: int| #[trigger] has_edge(reverse_graph(h), v, w) <==> has_edge(h, w, v),
{
    let r = reverse_graph(h);
    lemma_reversed_upto(h, h.len() as int);
    assert forall|v: int, k: int| 0 <= v < r.len() && 0 <= k < r[v].len() implies (#[trigger] r[v][k])
        < r.len() by {
        assert(r[v].contains(r[v][k]));
    }
    assert forall|v: int, w: int| #[trigger] has_edge(r, v, w) <==> has_edge(h, w, v) by {
        if 0 <= v < h.len() && 0 <= w < h.len() {
            assert(r[v].contains(w as usize) <==> (w as usize) < h.len() && h[w as usize as int].contains(
                v as usize,
            ));
        }
    }
}

/// A walk, backwards, is a walk in the reverse graph.
proof fn lemma_reverse_path(h: Seq<Seq<usize>>, r: Seq<Seq<usize>>, p: Seq<int>)
    requires
        r.len() == h.len(),
        forall|v: int, w: int| #[trigger] has_edge(r, v, w) <==> has_edge(h, w, v),
        is_path(h, p),
    ensures
        is_path(r, p.reverse()),
        p.reverse()[0] == p[p.len() - 1],
        p.reverse()[p.len() - 1] == p[0],
{
    let q = p.reverse();
    assert forall|i: int| 0 <= i < q.len() implies 0 <= #[trigger] q[i] < r.len() by {
        assert(q[i] == p[p.len() - 1 - i]);
    }
    assert forall|i: int| 0 <= i < q.len() - 1 implies has_edge(r, #[trigger] q[i], q[i + 1]) by {
        let k = p.len() - 2 - i;
        assert(q[i] == p[k + 1]);
        assert(q[i + 1] == p[k]);
        assert(has_edge(h, p[k], p[k + 1]));
    }
}

/// In the reverse graph the vertices reach that are reached in the graph.
pub proof fn lemma_reverse_reaches(h: Seq<Seq<usize>>, u: int, v: int)
    requires
        is_graph(h),
        h.len() <= usize::MAX,
    ensures
        reaches(reverse_graph(h), u, v) == reaches(h, v, u),
{
    let r = reverse_graph(h);
    lemma_reverse_graph(h);
    if reaches(h, v, u) {
        let p = choose|p: Seq<int>| is_path_between(h, p, v, u);
        lemma_reverse_path(h, r, p);
        assert(is_path_between(r, p.reverse(), u, v));
    }
    if reaches(r, u, v) {
        let p = choose|p: Seq<int>| is_path_between(r, p, u, v);
        assert forall|a: int, b: int| #[trigger] has_edge(h, a, b) <==> has_edge(r, b, a) by {
            assert(has_edge(r, b, a) <==> has_edge(h, a, b));
        }
        lemma_reverse_path(r, h, p);
        assert(is_path_between(h, p.reverse(), v, u));
    }
}

/// `spread` gives the new label only to vertices that `u` reaches.
pub proof fn lemma_spread_sound(
    g: Seq<Seq<usize>>,
    labels: Seq<Option<usize>>,
    u: int,
    label: usize,
    x: int,
)
    requires
        is_graph(g),
        labels.len() == g.len(),
        g.len() <= usize::MAX,
        0 <= u < g.len(),
        0 <= x < g.len(),
        labels[x] is None,
        spread(g, labels, u, label)[x] is Some,
    ensures
        reaches(g, u, x),
{
    let start = visit_of(marks(labels), Seq::empty());
    assert(tidy(start));
    assert(no_escape(g, start));
    lemma_visit_closed(g, start, u);
    let end = dfs_visit(g, start, u);
    assert(end.seen[x]);
    assert(!pending(start, x));
    assert(!pending(end, x));
    let i = choose|i: int| 0 <= i < end.post.len() && end.post[i] == x as usize;
    assert(reaches(g, u, end.post[i] as int));
}

/// `spread` gives the new label to every vertex on a walk from `u` over
/// vertices without a label.
pub proof fn lemma_spread_complete(
    g: Seq<Seq<usize>>,
    labels: Seq<Option<usize>>,
    u: int,
    label: usize,
    p: Seq<int>,
    k: int,
)
    requires
        is_graph(g),
        labels.len() == g.len(),
        g.len() <= usize::MAX,
        is_path(g, p),
        p[0] == u,
        forall|i: int| 0 <= i < p.len() ==> labels[#[trigger] p[i]] is None,
        0 <= k < p.len(),
    ensures
        spread(g, labels, u, label)[p[k]] == Some(label),
        dfs_visit(g, visit_of(marks(labels), Seq::empty()), u).post.contains(p[k] as usize),
    decreases k,
{
    let start = visit_of(marks(labels), Seq::empty());
    assert(tidy(start));
    assert(no_escape(g, start));
    assert(0 <= p[0] < g.len());
    lemma_visit_closed(g, start, u);
    let end = dfs_visit(g, start, u);
    assert(labels[p[k]] is None);
    assert(0 <= p[k] < g.len());
    if k == 0 {
        assert(end.seen[u]);
    } else {
        lemma_spread_complete(g, labels, u, label, p, k - 1);
        let i = choose|i: int| 0 <= i < end.post.len() && end.post[i] == p[k - 1] as usize;
        assert(has_edge(g, p[k - 1], p[k - 1 + 1]));
        assert(has_edge(g, end.post[i] as int, p[k]));
        assert(end.seen[p[k]]);
    }
    assert(!pending(start, p[k]));
    assert(!pending(end, p[k]));
}

/// `x` has a label, and `y` has the same.
pub open spec fn same_label(l: Labelling, x: int, y: int) -> bool {
    l.labels[x] is Some && l.labels[x] == l.labels[y]
}

/// The labelling is right so far: the last `i` vertices of `post` have
/// labels; connected vertices are labelled alike, and only these; and what
/// reaches a vertex with a label has a label that is no greater.
pub open spec fn sound(g: Seq<Seq<usize>>, post: Seq<usize>, l: Labelling, i: int) -> bool {
    &&& labels_ok(l, g.len())
    &&& l.count <= i
    &&& forall|k: int| post.len() - i <= k < post.len() ==> l.labels[#[trigger] post[k] as int] is Some
    &&& forall|x: int, y: int| #[trigger] connected(g, x, y) ==> l.labels[x] == l.labels[y]
    &&& forall|x: int, y: int|
        0 <= x < g.len() && 0 <= y < g.len() && #[trigger] same_label(l, x, y) ==> connected(g, x, y)
    &&& forall|x: int, y: int|
        #[trigger] reaches(g, y, x) && l.labels[x] is Some ==> l.labels[y] is Some && l.labels[y]->0
            <= l.labels[x]->0
}

/// A vertex without a label that reaches the first vertex without a label
/// is connected to it.
proof fn lemma_reaching_connected(
    g: Seq<Seq<usize>>,
    post: Seq<usize>,
    cur: Labelling,
    i: int,
    x: int,
)
    requires
        is_graph(g),
        g.len() <= usize::MAX,
        is_permutation(post, g.len()),
        finishing(g, post),
        sound(g, post, cur, i),
        0 <= i < post.len(),
        cur.labels[post[post.len() - 1 - i] as int] is None,
        reaches(g, x, post[post.len() - 1 - i] as int),
        cur.labels[x] is None,
    ensures
        connected(g, post[post.len() - 1 - i] as int, x),
{
    let n = post.len() as int;
    let u = post[n - 1 - i] as int;
    let at = lemma_later_connected(g, post, x, u);
    let top = post[at.0] as int;
    // the vertex connected to x that was left last has no label either
    assert(cur.labels[x] == cur.labels[top]);
    if at.0 >= n - i {
        assert(cur.labels[post[at.0] as int] is Some);
    }
    assert(at.0 < n - i);
    // post[at.1] == u, and u stands at n - 1 - i
    assert(at.1 == n - 1 - i) by {
        if at.1 != n - 1 - i {
            assert(post[at.1] != post[n - 1 - i]);
        }
    }
    assert(at.0 == n - 1 - i);
    lemma_connected_trans(g, x, u, x);
}

/// The vertices that get the new label are those connected to the first
/// vertex without a label.
proof fn lemma_new_labels(g: Seq<Seq<usize>>, post: Seq<usize>, cur: Labelling, i: int, x: int)
    requires
        is_graph(g),
        g.len() <= usize::MAX,
        is_permutation(post, g.len()),
        finishing(g, post),
        sound(g, post, cur, i),
        0 <= i < post.len(),
        cur.labels[post[post.len() - 1 - i] as int] is None,
        0 <= x < g.len(),
    ensures
        connected(g, post[post.len() - 1 - i] as int, x) <==> (cur.labels[x] is None && spread(
            reverse_graph(g),
            cur.labels,
            post[post.len() - 1 - i] as int,
            cur.count as usize,
        )[x] is Some),
        cur.labels[x] is None && spread(
            reverse_graph(g),
            cur.labels,
            post[post.len() - 1 - i] as int,
            cur.count as usize,
        )[x] is Some ==> spread(
            reverse_graph(g),
            cur.labels,
            post[post.len() - 1 - i] as int,
            cur.count as usize,
        )[x] == Some(cur.count as usize),
        cur.labels[x] is Some ==> spread(
            reverse_graph(g),
            cur.labels,
            post[post.len() - 1 - i] as int,
            cur.count as usize,
        )[x] == cur.labels[x],
{
    let n = post.len() as int;
    let u = post[n - 1 - i] as int;
    let r = reverse_graph(g);
    let c = cur.count as usize;
    let after = spread(r, cur.labels, u, c);
    lemma_reverse_graph(g);
    crate::traversal::lemma_spread(r, cur.labels, u, c);
    if cur.labels[x] is None && after[x] is Some {
        lemma_spread_sound(r, cur.labels, u, c, x);
        lemma_reverse_reaches(g, u, x);
        lemma_reaching_connected(g, post, cur, i, x);
    }
    if connected(g, u, x) {
        assert(cur.labels[u] == cur.labels[x]);
        let p = choose|p: Seq<int>| is_path_between(g, p, x, u);
        let q = p.reverse();
        lemma_reverse_path(g, r, p);
        assert forall|k: int| 0 <= k < q.len() implies cur.labels[#[trigger] q[k]] is None by {
            let kk = p.len() - 1 - k;
            assert(q[k] == p[kk]);
            lemma_path_within(g, p, kk);
            lemma_connected_trans(g, u, x, p[kk]);
            assert(cur.labels[u] == cur.labels[p[kk]]);
        }
        lemma_spread_complete(r, cur.labels, u, c, q, q.len() - 1);
    }
}

/// Giving the next label to the first vertex without one keeps the
/// labelling right.
proof fn lemma_label_step(g: Seq<Seq<usize>>, post: Seq<usize>, cur: Labelling, i: int)
    requires
        is_graph(g),
        g.len() <= usize::MAX,
        is_permutation(post, g.len()),
        finishing(g, post),
        sound(g, post, cur, i),
        0 <= i < post.len(),
        cur.labels[post[post.len() - 1 - i] as int] is None,
    ensures
        sound(
            g,
            post,
            labelling_of(
                spread(
                    reverse_graph(g),
                    cur.labels,
                    post[post.len() - 1 - i] as int,
                    cur.count as usize,
                ),
                cur.count + 1,
            ),
            i + 1,
        ),
{
    let n = post.len() as int;
    let u = post[n - 1 - i] as int;
    let r = reverse_graph(g);
    let c = cur.count as usize;
    let after = spread(r, cur.labels, u, c);
    let next = labelling_of(after, cur.count + 1);
    lemma_reverse_graph(g);
    crate::traversal::lemma_spread(r, cur.labels, u, c);
    assert forall|x: int| 0 <= x < g.len() implies (#[trigger] after[x]) == if connected(g, u, x) {
        Some(c)
    } else {
        cur.labels[x]
    } by {
        lemma_new_labels(g, post, cur, i, x);
    }
    assert(labels_ok(next, g.len())) by {
        assert forall|x: int| 0 <= x < g.len() implies match #[trigger] next.labels[x] {
            Some(d) => d < next.count,
            None => true,
        } by {
            assert(after[x] == Some(c) || after[x] == cur.labels[x]);
        }
    }
    assert forall|k: int| post.len() - (i + 1) <= k < post.len() implies next.labels[#[trigger] post[k] as int] is Some by {
        if k == n - 1 - i {
            lemma_reaches_self(g, u);
        } else {
            assert(cur.labels[post[k] as int] is Some);
        }
    }
    assert forall|x: int, y: int| #[trigger] connected(g, x, y) implies next.labels[x]
        == next.labels[y] by {
        lemma_reaches_valid(g, x, y);
        assert(cur.labels[x] == cur.labels[y]);
        if connected(g, u, x) {
            lemma_connected_trans(g, u, x, y);
        }
        if connected(g, u, y) {
            lemma_connected_trans(g, x, y, u);
            lemma_connected_trans(g, y, u, u);
        }
    }
    assert forall|x: int, y: int|
        0 <= x < g.len() && 0 <= y < g.len() && #[trigger] same_label(next, x, y) implies connected(
        g,
        x,
        y,
    ) by {
        if connected(g, u, x) {
            // x has the new label, and so has y, which had none before
            if !connected(g, u, y) {
                assert(cur.labels[y] == Some(c));
            }
            lemma_connected_trans(g, x, u, y);
            lemma_connected_trans(g, u, x, u);
        } else {
            if connected(g, u, y) {
                assert(cur.labels[x] == Some(c));
            }
            assert(same_label(cur, x, y));
        }
    }
    assert forall|x: int, y: int|
        #[trigger] reaches(g, y, x) && next.labels[x] is Some implies next.labels[y] is Some
        && next.labels[y]->0 <= next.labels[x]->0 by {
        lemma_reaches_valid(g, y, x);
        if connected(g, u, x) {
            // y reaches u
            lemma_reaches_trans(g, y, x, u);
            if cur.labels[y] is None {
                lemma_reaching_connected(g, post, cur, i, y);
            }
        } else {
            assert(cur.labels[x] is Some);
            assert(cur.labels[y] is Some && cur.labels[y]->0 <= cur.labels[x]->0);
            if connected(g, u, y) {
                assert(cur.labels[u] == cur.labels[y]);
            }
        }
    }
}

/// Labelling from position `i` on keeps the labelling right.
proof fn lemma_label_pass_sound(g: Seq<Seq<usize>>, post: Seq<usize>, cur: Labelling, i: int)
    requires
        is_graph(g),
        g.len() <= usize::MAX,
        is_permutation(post, g.len()),
        finishing(g, post),
        sound(g, post, cur, i),
        0 <= i <= post.len(),
    ensures
        sound(g, post, label_pass(reverse_graph(g), post.reverse(), cur, i), post.len() as int),
    decreases post.len() - i,
{
    let ord = post.reverse();
    if i < post.len() {
        let u = ord[i] as int;
        assert(ord[i] == post[post.len() - 1 - i]);
        if cur.labels[u] is None {
            lemma_label_step(g, post, cur, i);
            let next = labelling_of(
                spread(reverse_graph(g), cur.labels, u, cur.count as usize),
                cur.count + 1,
            );
            lemma_label_pass_sound(g, post, next, i + 1);
        } else {
            assert(sound(g, post, cur, i + 1)) by {
                assert forall|k: int| post.len() - (i + 1) <= k < post.len() implies cur.labels[#[trigger] post[k] as int] is Some by {
                    if k == post.len() - 1 - i {
                    } else {
                        assert(post.len() - i <= k);
                    }
                }
            }
            lemma_label_pass_sound(g, post, cur, i + 1);
        }
    }
}

/// The component that holds `x`: the number of its label.
pub open spec fn component_of(h: Seq<Seq<usize>>, x: int) -> int {
    component_labels(h).labels[x]->0 as int
}

/// The components that `compute_sccs` finds are the strongly connected
/// components, in topological order: two vertices are in the same component
/// exactly if each reaches the other, and no edge leads from a component to
/// one before it.
pub proof fn lemma_components_strongly_connected(h: Seq<Seq<usize>>)
    requires
        is_graph(h),
        h.len() <= usize::MAX,
    ensures
        forall|x: int| 0 <= x < h.len() ==> 0 <= #[trigger] component_of(h, x) < components(h).len(),
        forall|x: int, y: int|
            0 <= x < h.len() && 0 <= y < h.len() ==> (#[trigger] component_of(h, x)
                == #[trigger] component_of(h, y) <==> connected(h, x, y)),
        forall|x: int, y: int|
            #[trigger] has_edge(h, x, y) ==> component_of(h, x) <= component_of(h, y),
{
    let post = dfs_from(h, unvisited(h.len()), 0).post;
    let ord = top_order(h);
    assert(ord == post.reverse());
    lemma_top_order_permutation(h);
    assert(is_permutation(post, h.len())) by {
        assert(post.len() == ord.len());
        assert forall|i: int| 0 <= i < post.len() implies post[i] < h.len() by {
            assert(ord[post.len() - 1 - i] == post[i]);
        }
        assert forall|i: int, j: int| 0 <= i < post.len() && 0 <= j < post.len() && i != j implies post[i]
            != post[j] by {
            assert(ord[post.len() - 1 - i] == post[i]);
            assert(ord[post.len() - 1 - j] == post[j]);
        }
    }
    lemma_first_pass(h);
    let start = unlabelled(h.len());
    assert(sound(h, post, start, 0));
    lemma_label_pass_sound(h, post, start, 0);
    lemma_component_labels(h);
    let l = component_labels(h);
    assert forall|x: int, y: int| 0 <= x < h.len() && 0 <= y < h.len() implies (
    #[trigger] component_of(h, x) == #[trigger] component_of(h, y) <==> connected(h, x, y)) by {
        assert(l.labels[x] is Some && l.labels[y] is Some);
        if component_of(h, x) == component_of(h, y) {
            assert(same_label(l, x, y));
        }
    }
    assert forall|x: int, y: int| #[trigger] has_edge(h, x, y) implies component_of(h, x)
        <= component_of(h, y) by {
        lemma_reaches_edge(h, x, y);
        assert(l.labels[y] is Some);
    }
    assert forall|x: int| 0 <= x < h.len() implies 0 <= #[trigger] component_of(h, x) < components(
        h,
    ).len() by {
        assert(l.labels[x] is Some);
    }
}

/// The component with the number `c` lists exactly the vertices of which it
/// is the component.
pub proof fn lemma_component_members(h: Seq<Seq<usize>>, c: int, x: int)
    requires
        h.len() <= usize::MAX,
        0 <= c < components(h).len(),
        0 <= x < h.len(),
    ensures
        components(h)[c].contains(x as usize) <==> component_of(h, x) == c,
{
    let l = component_labels(h);
    lemma_component_labels(h);
    lemma_members(l.labels, c as usize, h.len() as int);
    assert(l.labels[x] is Some);
    let m = components(h)[c];
    if m.contains(x as usize) {
        let i = choose|i: int| 0 <= i < m.len() && m[i] == x as usize;
        assert(l.labels[m[i] as int] == Some(c as usize));
    }
}

/// Within a component every vertex reaches every other without leaving the
/// component.
pub proof fn lemma_component_walk(h: Seq<Seq<usize>>, x: int, y: int) -> (p: Seq<int>)
    requires
        is_graph(h),
        h.len() <= usize::MAX,
        0 <= x < h.len(),
        0 <= y < h.len(),
        component_of(h, x) == component_of(h, y),
    ensures
        is_path_between(h, p, x, y),
        forall|i: int| 0 <= i < p.len() ==> component_of(h, #[trigger] p[i]) == component_of(h, x),
{
    lemma_components_strongly_connected(h);
    assert(connected(h, x, y));
    let p = choose|p: Seq<int>| is_path_between(h, p, x, y);
    assert forall|i: int| 0 <= i < p.len() implies component_of(h, #[trigger] p[i]) == component_of(
        h,
        x,
    ) by {
        lemma_path_within(h, p, i);
        assert(0 <= p[i] < h.len());
    }
    p
}

/// Along a walk the components never go back: the graph of components has
/// no cycle.
pub proof fn lemma_no_way_back(h: Seq<Seq<usize>>, x: int, y: int)
    requires
        is_graph(h),
        h.len() <= usize::MAX,
        reaches(h, x, y),
    ensures
        component_of(h, x) <= component_of(h, y),
{
    let p = choose|p: Seq<int>| is_path_between(h, p, x, y);
    lemma_components_strongly_connected(h);
    lemma_walk_ascends(h, p, p.len() - 1);
}

/// Along a walk the components never go back.
proof fn lemma_walk_ascends(h: Seq<Seq<usize>>, p: Seq<int>, k: int)
    requires
        is_path(h, p),
        0 <= k < p.len(),
        forall|x: int, y: int|
            #[trigger] has_edge(h, x, y) ==> component_of(h, x) <= component_of(h, y),
    ensures
        component_of(h, p[0]) <= component_of(h, p[k]),
    decreases k,
{
    if k > 0 {
        lemma_walk_ascends(h, p, k - 1);
        assert(has_edge(h, p[k - 1], p[k - 1 + 1]));
    }
}

/// No edge closes a cycle: where an edge leads, no walk leads back from.
pub open spec fn is_acyclic(g: Seq<Seq<usize>>) -> bool {
    forall|u: int, v: int| #[trigger] has_edge(g, u, v) ==> !reaches(g, v, u)
}

/// The position of `v` in `s`.
pub open spec fn position_in(s: Seq<usize>, v: int) -> int {
    choose|i: int| 0 <= i < s.len() && s[i] == v
}

/// In a graph without cycles no two vertices are connected.
proof fn lemma_acyclic_alone(g: Seq<Seq<usize>>, u: int, x: int)
    requires
        is_acyclic(g),
        connected(g, u, x),
    ensures
        u == x,
{
    if u != x {
        let p = choose|p: Seq<int>| is_path_between(g, p, u, x);
        assert(p.len() >= 2);
        assert(has_edge(g, p[0int], p[0int + 1]));
        lemma_path_split(g, p, 1);
        lemma_reaches_trans(g, p[1], x, u);
    }
}

/// For a graph without cycles `top_order` is a topological ordering: every
/// edge leads from a vertex to one that stands later.
pub proof fn lemma_top_order_topological(g: Seq<Seq<usize>>, u: int, v: int)
    requires
        is_graph(g),
        g.len() <= usize::MAX,
        is_acyclic(g),
        has_edge(g, u, v),
    ensures
        position_in(top_order(g), u) < position_in(top_order(g), v),
{
    let post = dfs_from(g, unvisited(g.len()), 0).post;
    let ord = top_order(g);
    let n = post.len() as int;
    assert(ord == post.reverse());
    lemma_top_order_permutation(g);
    lemma_first_pass(g);
    lemma_permutation_contains(ord, g.len(), u as usize);
    lemma_permutation_contains(ord, g.len(), v as usize);
    let a = position_in(ord, u);
    let b = position_in(ord, v);
    assert(ord[a] == u && ord[b] == v);
    // u was left at n - 1 - a; with no cycle it is alone in its component
    let i = n - 1 - a;
    assert(post[i] == ord[a]);
    assert(closed_at(g, post, i)) by {
        assert forall|x: int| #[trigger] connected(g, post[i] as int, x) implies in_prefix(
            post,
            x,
            i + 1,
        ) by {
            lemma_acyclic_alone(g, u, x);
        }
    }
    assert(settled_at(g, post, i));
    lemma_reaches_edge(g, u, v);
    assert(in_prefix(post, v, i + 1));
    let j = choose|j: int| 0 <= j < i + 1 && j < post.len() && #[trigger] post[j] == v;
    assert(ord[n - 1 - j] == post[j]);
    assert(n - 1 - j == b) by {
        if n - 1 - j != b {
            assert(ord[n - 1 - j] != ord[b]);
        }
    }
    // an edge from a vertex to itself would be a cycle
    if j == i {
        lemma_reaches_self(g, u);
    }
}

} // verus!
