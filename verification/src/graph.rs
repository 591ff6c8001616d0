//! Directed graphs as adjacency lists over the vertices `0..n`: induced
//! subgraphs, depth-first orderings and strongly connected components.

use vstd::prelude::*;
use crate::cost::adjacency;
use crate::permutation::in_range;

verus! {

/// Every neighbour named in `g` is a vertex of `g`.
pub open spec fn is_graph(g: Seq<Seq<usize>>) -> bool {
    forall|u: int, k: int| 0 <= u < g.len() && 0 <= k < g[u].len() ==> (#[trigger] g[u][k]) < g.len()
}

/// `g` has the edge from `u` to `v`.
pub open spec fn has_edge(g: Seq<Seq<usize>>, u: int, v: int) -> bool {
    0 <= u < g.len() && 0 <= v < g.len() && g[u].contains(v as usize)
}

/// The last position below `k` at which `subset` holds `v`.
pub open spec fn last_position(subset: Seq<usize>, v: usize, k: int) -> Option<usize>
    decreases k,
{
    if k <= 0 {
        None
    } else if subset[k - 1] == v {
        Some((k - 1) as usize)
    } else {
        last_position(subset, v, k - 1)
    }
}

/// The first `k` neighbours of `row` that `subset` holds, each replaced by
/// the last position at which `subset` holds it.
pub open spec fn induced_row(row: Seq<usize>, subset: Seq<usize>, k: int) -> Seq<usize>
    decreases k,
{
    if k <= 0 {
        Seq::empty()
    } else {
        let rest = induced_row(row, subset, k - 1);
        match last_position(subset, row[k - 1], subset.len() as int) {
            Some(p) => rest.push(p),
            None => rest,
        }
    }
}

/// The subgraph of `g` on the vertices of `subset`, in which vertex `i`
/// stands for `subset[i]`: each adjacency list keeps its order.
pub open spec fn induced(g: Seq<Seq<usize>>, subset: Seq<usize>) -> Seq<Seq<usize>> {
    Seq::new(
        subset.len(),
        |i: int| induced_row(g[subset[i] as int], subset, g[subset[i] as int].len() as int),
    )
}

/// What `last_position` finds.
pub proof fn lemma_last_position(subset: Seq<usize>, v: usize, k: int)
    requires
        0 <= k <= subset.len(),
        subset.len() <= usize::MAX,
    ensures
        match last_position(subset, v, k) {
            Some(p) => p < k && subset[p as int] == v && forall|q: int| p < q < k ==> subset[q] != v,
            None => forall|q: int| 0 <= q < k ==> subset[q] != v,
        },
    decreases k,
{
    if k > 0 {
        lemma_last_position(subset, v, k - 1);
    }
}

/// The subgraph of `g` induced by `subset`. In the result vertex `i` stands
/// for vertex `subset[i]` of `g`.
pub fn get_subgraph(g: &Vec<Vec<usize>>, subset: &Vec<usize>) -> (h: Vec<Vec<usize>>)
    requires
        is_graph(adjacency(g@)),
        in_range(subset@, g@.len()),
    ensures
        adjacency(h@) == induced(adjacency(g@), subset@),
        is_graph(adjacency(h@)),
{
    let n = g.len();
    let mut imp: Vec<Option<usize>> = vec![None; n];
    let mut i: usize = 0;
    while i < subset.len()
        invariant
            0 <= i <= subset.len(),
            n == g@.len(),
            in_range(subset@, n as nat),
            imp@.len() == n,
            forall|v: int| 0 <= v < n ==> (#[trigger] imp@[v]) == last_position(subset@, v as usize, i as int),
        decreases subset.len() - i,
    {
        imp[subset[i]] = Some(i);
        i += 1;
    }
    let mut h: Vec<Vec<usize>> = Vec::new();
    let mut i: usize = 0;
    while i < subset.len()
        invariant
            0 <= i <= subset.len(),
            n == g@.len(),
            is_graph(adjacency(g@)),
            in_range(subset@, n as nat),
            imp@.len() == n,
            forall|v: int|
                0 <= v < n ==> (#[trigger] imp@[v]) == last_position(
                    subset@,
                    v as usize,
                    subset@.len() as int,
                ),
            h@.len() == i,
            forall|j: int|
                0 <= j < i ==> (#[trigger] h@[j])@ == induced_row(
                    g@[subset@[j] as int]@,
                    subset@,
                    g@[subset@[j] as int]@.len() as int,
                ),
        decreases subset.len() - i,
    {
        let row = &g[subset[i]];
        let mut out: Vec<usize> = Vec::new();
        let mut k: usize = 0;
        while k < row.len()
            invariant
                0 <= k <= row.len(),
                0 <= i < subset.len(),
                n == g@.len(),
                is_graph(adjacency(g@)),
                in_range(subset@, n as nat),
                row@ == adjacency(g@)[subset@[i as int] as int],
                imp@.len() == n,
                forall|v: int|
                    0 <= v < n ==> (#[trigger] imp@[v]) == last_position(
                        subset@,
                        v as usize,
                        subset@.len() as int,
                    ),
                out@ == induced_row(row@, subset@, k as int),
            decreases row.len() - k,
        {
            let v = row[k];
            assert(adjacency(g@)[subset@[i as int] as int][k as int] < n);
            match imp[v] {
                Some(newv) => {
                    out.push(newv);
                },
                None => {},
            }
            k += 1;
        }
        h.push(out);
        i += 1;
    }
    assert(adjacency(h@) =~= induced(adjacency(g@), subset@));
    proof {
        lemma_induced_is_graph(adjacency(g@), subset@);
    }
    h
}

/// What `induced_row` lists are positions of `subset`.
proof fn lemma_induced_row_in_range(row: Seq<usize>, subset: Seq<usize>, k: int)
    requires
        0 <= k <= row.len(),
        subset.len() <= usize::MAX,
    ensures
        in_range(induced_row(row, subset, k), subset.len()),
    decreases k,
{
    if k > 0 {
        lemma_induced_row_in_range(row, subset, k - 1);
        lemma_last_position(subset, row[k - 1], subset.len() as int);
    }
}

/// An induced subgraph is a graph.
pub proof fn lemma_induced_is_graph(g: Seq<Seq<usize>>, subset: Seq<usize>)
    requires
        subset.len() <= usize::MAX,
    ensures
        is_graph(induced(g, subset)),
{
    let h = induced(g, subset);
    assert forall|u: int, k: int| 0 <= u < h.len() && 0 <= k < h[u].len() implies (#[trigger] h[u][k])
        < h.len() by {
        let row = g[subset[u] as int];
        lemma_induced_row_in_range(row, subset, row.len() as int);
    }
}

/// What `induced_row` contains.
proof fn lemma_induced_row_contains(row: Seq<usize>, subset: Seq<usize>, k: int, j: int)
    requires
        0 <= k <= row.len(),
        subset.len() <= usize::MAX,
        subset.no_duplicates(),
        0 <= j < subset.len(),
    ensures
        induced_row(row, subset, k).contains(j as usize) <==> exists|t: int|
            0 <= t < k && #[trigger] row[t] == subset[j],
    decreases k,
{
    if k > 0 {
        lemma_induced_row_contains(row, subset, k - 1, j);
        lemma_last_position(subset, row[k - 1], subset.len() as int);
        let rest = induced_row(row, subset, k - 1);
        let cur = induced_row(row, subset, k);
        let found = last_position(subset, row[k - 1], subset.len() as int);
        if cur.contains(j as usize) {
            let i = choose|i: int| 0 <= i < cur.len() && cur[i] == j as usize;
            if i < rest.len() {
                assert(rest[i] == j as usize);
                assert(rest.contains(j as usize));
            } else {
                assert(found == Some(j as usize));
                assert(row[k - 1] == subset[j]);
            }
        }
        if exists|t: int| 0 <= t < k && #[trigger] row[t] == subset[j] {
            let t = choose|t: int| 0 <= t < k && #[trigger] row[t] == subset[j];
            if t < k - 1 {
                assert(rest.contains(j as usize));
                let i = choose|i: int| 0 <= i < rest.len() && rest[i] == j as usize;
                assert(cur[i] == j as usize);
            } else {
                // subset holds row[k - 1] at j only
                assert(found is Some);
                assert(subset[found->0 as int] == subset[j]);
                assert(found->0 == j);
                assert(cur[rest.len() as int] == j as usize);
            }
        }
    }
}

/// The subgraph induced by vertices that are listed once has an edge from
/// `i` to `j` exactly where the graph has one from the vertex that `i`
/// stands for to the one that `j` stands for.
pub proof fn lemma_induced_edges(g: Seq<Seq<usize>>, subset: Seq<usize>, i: int, j: int)
    requires
        is_graph(g),
        in_range(subset, g.len()),
        subset.len() <= usize::MAX,
        subset.no_duplicates(),
        0 <= i < subset.len(),
        0 <= j < subset.len(),
    ensures
        has_edge(induced(g, subset), i, j) <==> has_edge(g, subset[i] as int, subset[j] as int),
{
    let row = g[subset[i] as int];
    lemma_induced_row_contains(row, subset, row.len() as int, j);
    if row.contains(subset[j]) {
        let t = choose|t: int| 0 <= t < row.len() && row[t] == subset[j];
        assert(row[t] == subset[j]);
    }
}

/// How far a depth-first traversal has come: which vertices it has entered,
/// and which it has left, in the order in which it left them.
pub struct Visit {
    pub seen: Seq<bool>,
    pub post: Seq<usize>,
}

/// The number of vertices not yet entered.
pub open spec fn unseen_count(seen: Seq<bool>) -> nat
    decreases seen.len(),
{
    if seen.len() == 0 {
        0
    } else {
        unseen_count(seen.drop_last()) + if seen.last() {
            0nat
        } else {
            1nat
        }
    }
}

/// Entering a vertex leaves one vertex fewer to enter.
pub proof fn lemma_unseen_update(seen: Seq<bool>, u: int)
    requires
        0 <= u < seen.len(),
        !seen[u],
    ensures
        unseen_count(seen.update(u, true)) + 1 == unseen_count(seen),
    decreases seen.len(),
{
    let after = seen.update(u, true);
    if u == seen.len() - 1 {
        assert(after.drop_last() =~= seen.drop_last());
    } else {
        assert(after.drop_last() =~= seen.drop_last().update(u, true));
        lemma_unseen_update(seen.drop_last(), u);
    }
}

/// The traversal state with the given parts.
pub open spec fn visit_of(seen: Seq<bool>, post: Seq<usize>) -> Visit {
    Visit { seen, post }
}

/// The traversal state after entering `u`.
pub open spec fn enter(st: Visit, u: int) -> Visit {
    Visit { seen: st.seen.update(u, true), post: st.post }
}

/// The traversal state after leaving `u`.
pub open spec fn leave(st: Visit, u: int) -> Visit {
    Visit { seen: st.seen, post: st.post.push(u as usize) }
}

/// Depth-first traversal from `u`: nothing if `u` was entered before;
/// otherwise `u` is entered, its neighbours are traversed in the order of its
/// adjacency list, and `u` is left.
pub open spec fn dfs_visit(g: Seq<Seq<usize>>, st: Visit, u: int) -> Visit
    decreases unseen_count(st.seen), 0int, 0int,
{
    if 0 <= u < st.seen.len() && !st.seen[u] {
        proof {
            lemma_unseen_update(st.seen, u);
        }
        leave(dfs_scan(g, enter(st, u), u, 0), u)
    } else {
        st
    }
}

/// Depth-first traversal from the neighbours of `u`, from the `k`-th on.
pub open spec fn dfs_scan(g: Seq<Seq<usize>>, st: Visit, u: int, k: int) -> Visit
    decreases unseen_count(st.seen), 1int, g[u].len() - k,
{
    if 0 <= k < g[u].len() {
        let next = dfs_visit(g, st, g[u][k] as int);
        if unseen_count(next.seen) <= unseen_count(st.seen) {
            dfs_scan(g, next, u, k + 1)
        } else {
            next
        }
    } else {
        st
    }
}

/// Depth-first traversal from each of the vertices `u`, `u + 1`, ... in turn.
pub open spec fn dfs_from(g: Seq<Seq<usize>>, st: Visit, u: int) -> Visit
    decreases g.len() - u,
{
    if 0 <= u < g.len() {
        dfs_from(g, dfs_visit(g, st, u), u + 1)
    } else {
        st
    }
}

/// The state in which no vertex of `n` has been entered.
pub open spec fn unvisited(n: nat) -> Visit {
    Visit { seen: Seq::new(n, |i: int| false), post: Seq::empty() }
}

/// The vertices of `g` in the reverse of the order in which a depth-first
/// traversal leaves them that starts from every vertex not yet entered, in
/// ascending order.
pub open spec fn top_order(g: Seq<Seq<usize>>) -> Seq<usize> {
    dfs_from(g, unvisited(g.len()), 0).post.reverse()
}

/// A traversal enters vertices and never forgets one.
pub proof fn lemma_dfs_visit_shrinks(g: Seq<Seq<usize>>, st: Visit, u: int)
    ensures
        dfs_visit(g, st, u).seen.len() == st.seen.len(),
        unseen_count(dfs_visit(g, st, u).seen) <= unseen_count(st.seen),
    decreases unseen_count(st.seen), 0int, 0int,
{
    if 0 <= u < st.seen.len() && !st.seen[u] {
        lemma_unseen_update(st.seen, u);
        lemma_dfs_scan_shrinks(g, enter(st, u), u, 0);
    }
}

/// A traversal enters vertices and never forgets one.
pub proof fn lemma_dfs_scan_shrinks(g: Seq<Seq<usize>>, st: Visit, u: int, k: int)
    ensures
        dfs_scan(g, st, u, k).seen.len() == st.seen.len(),
        unseen_count(dfs_scan(g, st, u, k).seen) <= unseen_count(st.seen),
    decreases unseen_count(st.seen), 1int, g[u].len() - k,
{
    if 0 <= k < g[u].len() {
        let next = dfs_visit(g, st, g[u][k] as int);
        lemma_dfs_visit_shrinks(g, st, g[u][k] as int);
        lemma_dfs_scan_shrinks(g, next, u, k + 1);
    }
}

/// The scan of the neighbours of `u` goes on after each of them.
pub proof fn lemma_dfs_scan_step(g: Seq<Seq<usize>>, st: Visit, u: int, k: int)
    requires
        0 <= k < g[u].len(),
    ensures
        dfs_scan(g, st, u, k) == dfs_scan(g, dfs_visit(g, st, g[u][k] as int), u, k + 1),
{
    lemma_dfs_visit_shrinks(g, st, g[u][k] as int);
}

/// What is left to do of a traversal whose pending calls are `stack`: each
/// frame `(u, k)` stands for the scan of the neighbours of `u` from the
/// `k`-th on, after which `u` is left; the last frame comes first.
pub open spec fn unwind(g: Seq<Seq<usize>>, st: Visit, stack: Seq<(usize, usize)>) -> Visit
    decreases stack.len(),
{
    if stack.len() == 0 {
        st
    } else {
        let u = stack.last().0 as int;
        let k = stack.last().1 as int;
        unwind(g, leave(dfs_scan(g, st, u, k), u), stack.drop_last())
    }
}

/// The frames name vertices of `g` and positions within their adjacency
/// lists.
pub open spec fn frames_valid(g: Seq<Seq<usize>>, stack: Seq<(usize, usize)>) -> bool {
    forall|i: int|
        0 <= i < stack.len() ==> (#[trigger] stack[i]).0 < g.len() && stack[i].1
            <= g[stack[i].0 as int].len()
}

/// The number of steps that the frames still take by themselves.
pub open spec fn frames_measure(g: Seq<Seq<usize>>, stack: Seq<(usize, usize)>) -> nat
    decreases stack.len(),
{
    if stack.len() == 0 {
        0
    } else {
        let u = stack.last().0 as int;
        let k = stack.last().1 as int;
        frames_measure(g, stack.drop_last()) + if k <= g[u].len() {
            (g[u].len() - k + 1) as nat
        } else {
            0nat
        }
    }
}

/// The top frame moves on past a neighbour that was entered before.
proof fn lemma_unwind_skip(
    g: Seq<Seq<usize>>,
    st: Visit,
    stack: Seq<(usize, usize)>,
    moved: Seq<(usize, usize)>,
)
    requires
        stack.len() > 0,
        frames_valid(g, stack),
        stack.last().1 < g[stack.last().0 as int].len(),
        st.seen.len() == g.len(),
        is_graph(g),
        st.seen[g[stack.last().0 as int][stack.last().1 as int] as int],
        moved.len() == stack.len(),
        moved.drop_last() == stack.drop_last(),
        moved.last().0 == stack.last().0,
        moved.last().1 == stack.last().1 + 1,
    ensures
        unwind(g, st, moved) == unwind(g, st, stack),
        frames_measure(g, moved) < frames_measure(g, stack),
{
    let u = stack.last().0 as int;
    let k = stack.last().1 as int;
    lemma_dfs_scan_step(g, st, u, k);
}

/// The top frame moves on to a neighbour that is entered now.
proof fn lemma_unwind_descend(
    g: Seq<Seq<usize>>,
    st: Visit,
    stack: Seq<(usize, usize)>,
    moved: Seq<(usize, usize)>,
)
    requires
        stack.len() > 0,
        frames_valid(g, stack),
        stack.last().1 < g[stack.last().0 as int].len(),
        st.seen.len() == g.len(),
        is_graph(g),
        !st.seen[g[stack.last().0 as int][stack.last().1 as int] as int],
        moved.len() == stack.len(),
        moved.drop_last() == stack.drop_last(),
        moved.last().0 == stack.last().0,
        moved.last().1 == stack.last().1 + 1,
    ensures
        unwind(
            g,
            enter(st, g[stack.last().0 as int][stack.last().1 as int] as int),
            moved.push((g[stack.last().0 as int][stack.last().1 as int], 0usize)),
        ) == unwind(g, st, stack),
        unseen_count(enter(st, g[stack.last().0 as int][stack.last().1 as int] as int).seen)
            < unseen_count(st.seen),
{
    let u = stack.last().0 as int;
    let k = stack.last().1 as int;
    let v = g[u][k];
    assert(v < g.len());
    let deeper = moved.push((v, 0usize));
    assert(deeper.drop_last() =~= moved);
    assert(deeper.last() == (v, 0usize));
    lemma_dfs_scan_step(g, st, u, k);
    lemma_unseen_update(st.seen, v as int);
    let entered = dfs_visit(g, st, v as int);
    assert(entered == leave(dfs_scan(g, enter(st, v as int), v as int, 0), v as int));
    assert(unwind(g, enter(st, v as int), deeper) == unwind(g, entered, moved));
    assert(unwind(g, entered, moved) == unwind(
        g,
        leave(dfs_scan(g, entered, u, k + 1), u),
        moved.drop_last(),
    ));
}

/// The top frame has no neighbour left: its vertex is left.
proof fn lemma_unwind_return(g: Seq<Seq<usize>>, st: Visit, stack: Seq<(usize, usize)>)
    requires
        stack.len() > 0,
        frames_valid(g, stack),
        stack.last().1 >= g[stack.last().0 as int].len(),
    ensures
        unwind(g, leave(st, stack.last().0 as int), stack.drop_last()) == unwind(g, st, stack),
        frames_measure(g, stack.drop_last()) < frames_measure(g, stack),
{
}

/// The traversal of `u` is what is left to do once `u` is entered and its
/// frame is the only one.
proof fn lemma_unwind_start(g: Seq<Seq<usize>>, st: Visit, u: usize)
    requires
        u < st.seen.len(),
        !st.seen[u as int],
    ensures
        unwind(g, enter(st, u as int), seq![(u, 0usize)]) == dfs_visit(g, st, u as int),
{
    reveal_with_fuel(unwind, 2);
    let stack = seq![(u, 0usize)];
    assert(stack.drop_last() =~= Seq::<(usize, usize)>::empty());
    assert(stack.last() == (u, 0usize));
}

/// Depth-first traversal from `u` with a stack of its own in place of
/// recursion.
fn top_ordering_dfs(g: &Vec<Vec<usize>>, vis: &mut Vec<bool>, ord: &mut Vec<usize>, u: usize)
    requires
        is_graph(adjacency(g@)),
        old(vis)@.len() == g@.len(),
        u < g@.len(),
    ensures
        final(vis)@.len() == g@.len(),
        visit_of(final(vis)@, final(ord)@) == dfs_visit(
            adjacency(g@),
            visit_of(old(vis)@, old(ord)@),
            u as int,
        ),
{
    if vis[u] {
        return ;
    }
    let ghost adj = adjacency(g@);
    let ghost target = dfs_visit(adj, visit_of(vis@, ord@), u as int);
    proof {
        lemma_unwind_start(adj, visit_of(vis@, ord@), u);
    }
    vis[u] = true;
    let mut stack: Vec<(usize, usize)> = Vec::new();
    stack.push((u, 0));
    proof {
        assert(stack@ =~= seq![(u, 0usize)]);
        assert(visit_of(vis@, ord@) == enter(visit_of(old(vis)@, old(ord)@), u as int));
    }
    while stack.len() > 0
        invariant
            adj == adjacency(g@),
            is_graph(adj),
            vis@.len() == g@.len(),
            frames_valid(adj, stack@),
            unwind(adj, visit_of(vis@, ord@), stack@) == target,
        decreases unseen_count(vis@), frames_measure(adj, stack@),
    {
        let top = stack.len() - 1;
        let (x, k) = stack[top];
        let ghost st = visit_of(vis@, ord@);
        let ghost frames = stack@;
        if k < g[x].len() {
            let v = g[x][k];
            assert(adj[x as int][k as int] < g@.len());
            stack[top] = (x, k + 1);
            assert(stack@.drop_last() =~= frames.drop_last());
            if !vis[v] {
                proof {
                    lemma_unwind_descend(adj, st, frames, stack@);
                }
                vis[v] = true;
                stack.push((v, 0));
                assert(visit_of(vis@, ord@) == enter(st, v as int));
            } else {
                proof {
                    lemma_unwind_skip(adj, st, frames, stack@);
                }
            }
        } else {
            proof {
                lemma_unwind_return(adj, st, frames);
            }
            stack.pop();
            ord.push(x);
            assert(visit_of(vis@, ord@) == leave(st, x as int));
        }
    }
}

/// The entries of `v` in reverse order.
pub fn reversed(v: &Vec<usize>) -> (r: Vec<usize>)
    ensures
        r@ == v@.reverse(),
{
    let mut r: Vec<usize> = Vec::new();
    let mut i: usize = v.len();
    while i > 0
        invariant
            0 <= i <= v.len(),
            r@.len() == v.len() - i,
            forall|k: int| 0 <= k < r@.len() ==> r@[k] == v@[v.len() - 1 - k],
        decreases i,
    {
        i -= 1;
        r.push(v[i]);
    }
    assert(r@ =~= v@.reverse());
    r
}

/// The vertices of `g` in the reverse of the order in which a depth-first
/// traversal leaves them; the traversal starts from every vertex that it has
/// not entered yet, in ascending order, and follows each adjacency list in
/// its order. For an acyclic `g` this is a topological ordering.
pub fn top_ordering(g: &Vec<Vec<usize>>) -> (ord: Vec<usize>)
    requires
        is_graph(adjacency(g@)),
    ensures
        ord@ == top_order(adjacency(g@)),
{
    let n = g.len();
    let ghost adj = adjacency(g@);
    let mut vis: Vec<bool> = vec![false; n];
    let mut ord: Vec<usize> = Vec::new();
    assert(visit_of(vis@, ord@) == unvisited(n as nat)) by {
        assert(vis@ =~= Seq::new(n as nat, |i: int| false));
    }
    let mut u: usize = 0;
    while u < n
        invariant
            0 <= u <= n,
            n == g@.len(),
            adj == adjacency(g@),
            is_graph(adj),
            vis@.len() == n,
            dfs_from(adj, visit_of(vis@, ord@), u as int) == dfs_from(
                adj,
                unvisited(n as nat),
                0,
            ),
        decreases n - u,
    {
        if !vis[u] {
            top_ordering_dfs(g, &mut vis, &mut ord, u);
        }
        u += 1;
    }
    reversed(&ord)
}

/// The adjacency lists after the first `k` edges of `u`, those to `targets`,
/// have been entered in reverse.
pub open spec fn add_reversed(rows: Seq<Seq<usize>>, targets: Seq<usize>, u: usize, k: int) -> Seq<
    Seq<usize>,
>
    decreases k,
{
    if k <= 0 {
        rows
    } else {
        let rest = add_reversed(rows, targets, u, k - 1);
        let v = targets[k - 1] as int;
        rest.update(v, rest[v].push(u))
    }
}

/// The reverse of the edges that leave the vertices below `u`.
pub open spec fn reversed_upto(h: Seq<Seq<usize>>, u: int) -> Seq<Seq<usize>>
    decreases u,
{
    if u <= 0 {
        Seq::new(h.len(), |i: int| Seq::empty())
    } else {
        add_reversed(reversed_upto(h, u - 1), h[u - 1], (u - 1) as usize, h[u - 1].len() as int)
    }
}

/// The graph with every edge of `h` turned round. The list of `v` names the
/// vertices with an edge to `v` in ascending order, each as often as it has
/// such an edge.
pub open spec fn reverse_graph(h: Seq<Seq<usize>>) -> Seq<Seq<usize>> {
    reversed_upto(h, h.len() as int)
}

/// Which vertices have a label.
pub open spec fn marks(labels: Seq<Option<usize>>) -> Seq<bool> {
    Seq::new(labels.len(), |x: int| labels[x] is Some)
}

/// The labels after `label` has been given to every vertex without one that
/// a depth-first traversal from `u` enters which passes no vertex with a
/// label.
pub open spec fn spread(g: Seq<Seq<usize>>, labels: Seq<Option<usize>>, u: int, label: usize) -> Seq<
    Option<usize>,
> {
    let reached = dfs_visit(g, visit_of(marks(labels), Seq::empty()), u).seen;
    Seq::new(
        labels.len(),
        |x: int|
            if labels[x] is None && reached[x] {
                Some(label)
            } else {
                labels[x]
            },
    )
}

/// Labels and the number of labels in use.
pub struct Labelling {
    pub labels: Seq<Option<usize>>,
    pub count: nat,
}

/// The labelling with the given parts.
pub open spec fn labelling_of(labels: Seq<Option<usize>>, count: nat) -> Labelling {
    Labelling { labels, count }
}

/// The labelling after the vertices `ord[i]`, `ord[i + 1]`, ... have been
/// looked at in turn: each that has no label yet gets the next unused one,
/// and so does every vertex that `spread` reaches from it in `g`.
pub open spec fn label_pass(g: Seq<Seq<usize>>, ord: Seq<usize>, cur: Labelling, i: int) -> Labelling
    decreases ord.len() - i,
{
    if 0 <= i < ord.len() {
        let u = ord[i] as int;
        if cur.labels[u] is None {
            label_pass(
                g,
                ord,
                labelling_of(spread(g, cur.labels, u, cur.count as usize), cur.count + 1),
                i + 1,
            )
        } else {
            label_pass(g, ord, cur, i + 1)
        }
    } else {
        cur
    }
}

/// The vertices below `k` that carry `label`, ascending.
pub open spec fn members(labels: Seq<Option<usize>>, label: usize, k: int) -> Seq<usize>
    decreases k,
{
    if k <= 0 {
        Seq::empty()
    } else if labels[k - 1] == Some(label) {
        members(labels, label, k - 1).push((k - 1) as usize)
    } else {
        members(labels, label, k - 1)
    }
}

/// The vertices of each label, in the order of the labels.
pub open spec fn classes(l: Labelling) -> Seq<Seq<usize>> {
    Seq::new(l.count, |c: int| members(l.labels, c as usize, l.labels.len() as int))
}

/// The labelling in which no vertex of `n` has a label.
pub open spec fn unlabelled(n: nat) -> Labelling {
    Labelling { labels: Seq::new(n, |i: int| None), count: 0 }
}

/// The labelling of the vertices of `h` by strongly connected component:
/// labels are given along `top_order(h)` and spread through the reverse of
/// `h`.
pub open spec fn component_labels(h: Seq<Seq<usize>>) -> Labelling {
    label_pass(reverse_graph(h), top_order(h), unlabelled(h.len()), 0)
}

/// The strongly connected components of `h`: each lists its vertices in
/// ascending order; the components stand in the order in which the first
/// vertex of each occurs in `top_order(h)`.
pub open spec fn components(h: Seq<Seq<usize>>) -> Seq<Seq<usize>> {
    classes(component_labels(h))
}

/// Every vertex that was left is a vertex of the graph.
pub open spec fn post_in_range(st: Visit) -> bool {
    forall|i: int| 0 <= i < st.post.len() ==> (#[trigger] st.post[i]) < st.seen.len()
}

/// A traversal leaves vertices of the graph only.
pub proof fn lemma_dfs_visit_post_in_range(g: Seq<Seq<usize>>, st: Visit, u: int)
    requires
        post_in_range(st),
    ensures
        post_in_range(dfs_visit(g, st, u)),
    decreases unseen_count(st.seen), 0int, 0int,
{
    if 0 <= u < st.seen.len() && !st.seen[u] {
        lemma_unseen_update(st.seen, u);
        lemma_dfs_scan_post_in_range(g, enter(st, u), u, 0);
        lemma_dfs_scan_shrinks(g, enter(st, u), u, 0);
    }
}

/// A traversal leaves vertices of the graph only.
pub proof fn lemma_dfs_scan_post_in_range(g: Seq<Seq<usize>>, st: Visit, u: int, k: int)
    requires
        post_in_range(st),
    ensures
        post_in_range(dfs_scan(g, st, u, k)),
    decreases unseen_count(st.seen), 1int, g[u].len() - k,
{
    if 0 <= k < g[u].len() {
        let next = dfs_visit(g, st, g[u][k] as int);
        lemma_dfs_visit_shrinks(g, st, g[u][k] as int);
        lemma_dfs_visit_post_in_range(g, st, g[u][k] as int);
        lemma_dfs_scan_post_in_range(g, next, u, k + 1);
    }
}

/// A traversal leaves vertices of the graph only.
proof fn lemma_dfs_from_post_in_range(g: Seq<Seq<usize>>, st: Visit, u: int)
    requires
        st.seen.len() == g.len(),
        post_in_range(st),
    ensures
        post_in_range(dfs_from(g, st, u)),
        dfs_from(g, st, u).seen.len() == g.len(),
    decreases g.len() - u,
{
    if 0 <= u < g.len() {
        lemma_dfs_visit_shrinks(g, st, u);
        lemma_dfs_visit_post_in_range(g, st, u);
        lemma_dfs_from_post_in_range(g, dfs_visit(g, st, u), u + 1);
    }
}

/// `top_order` names vertices of the graph only.
pub proof fn lemma_top_order_in_range(g: Seq<Seq<usize>>)
    ensures
        in_range(top_order(g), g.len()),
{
    lemma_dfs_from_post_in_range(g, unvisited(g.len()), 0);
    let st = dfs_from(g, unvisited(g.len()), 0);
    assert forall|i: int| 0 <= i < top_order(g).len() implies top_order(g)[i] < g.len() by {
        assert(top_order(g)[i] == st.post[st.post.len() - 1 - i]);
    }
}

/// The reverse of the graph `h`.
fn reverse_of(h: &Vec<Vec<usize>>) -> (hrev: Vec<Vec<usize>>)
    requires
        is_graph(adjacency(h@)),
    ensures
        adjacency(hrev@) == reverse_graph(adjacency(h@)),
        is_graph(adjacency(hrev@)),
        hrev@.len() == h@.len(),
{
    let n = h.len();
    let ghost adj = adjacency(h@);
    let mut hrev: Vec<Vec<usize>> = vec![Vec::new(); n];
    assert(adjacency(hrev@) =~= reversed_upto(adj, 0));
    let mut u: usize = 0;
    while u < n
        invariant
            0 <= u <= n,
            n == h@.len(),
            adj == adjacency(h@),
            is_graph(adj),
            hrev@.len() == n,
            adjacency(hrev@) == reversed_upto(adj, u as int),
            is_graph(adjacency(hrev@)),
        decreases n - u,
    {
        let row = &h[u];
        let ghost before = adjacency(hrev@);
        let mut k: usize = 0;
        while k < row.len()
            invariant
                0 <= k <= row.len(),
                0 <= u < n,
                n == h@.len(),
                adj == adjacency(h@),
                is_graph(adj),
                row@ == adj[u as int],
                hrev@.len() == n,
                adjacency(hrev@) == add_reversed(before, row@, u, k as int),
                is_graph(adjacency(hrev@)),
            decreases row.len() - k,
        {
            let v = row[k];
            assert(adj[u as int][k as int] < n);
            let ghost rows = adjacency(hrev@);
            hrev[v].push(u);
            proof {
                let after = adjacency(hrev@);
                assert(after =~= rows.update(v as int, rows[v as int].push(u)));
                assert forall|a: int, b: int| 0 <= a < after.len() && 0 <= b < after[a].len() implies (
                #[trigger] after[a][b]) < after.len() by {
                    if a == v && b == rows[v as int].len() {
                    } else {
                        assert(after[a][b] == rows[a][b]);
                    }
                }
            }
            k += 1;
        }
        u += 1;
    }
    hrev
}

/// Gives `label` to `u` and to every vertex without a label that can be
/// reached from `u` over vertices without a label, with a stack of its own
/// in place of recursion.
fn propagate_label(
    g: &Vec<Vec<usize>>,
    vertex_labels: &mut Vec<Option<usize>>,
    u: usize,
    label: usize,
)
    requires
        is_graph(adjacency(g@)),
        old(vertex_labels)@.len() == g@.len(),
        u < g@.len(),
    ensures
        final(vertex_labels)@ == spread(adjacency(g@), old(vertex_labels)@, u as int, label),
{
    let ghost adj = adjacency(g@);
    let ghost before = vertex_labels@;
    let ghost start = visit_of(marks(before), Seq::empty());
    let ghost target = dfs_visit(adj, start, u as int);
    if vertex_labels[u].is_some() {
        assert(vertex_labels@ =~= spread(adj, before, u as int, label));
        return ;
    }
    let ghost mut post: Seq<usize> = Seq::empty();
    proof {
        lemma_unwind_start(adj, start, u);
    }
    vertex_labels[u] = Some(label);
    let mut stack: Vec<(usize, usize)> = Vec::new();
    stack.push((u, 0));
    proof {
        assert(stack@ =~= seq![(u, 0usize)]);
        assert(marks(vertex_labels@) =~= marks(before).update(u as int, true));
    }
    while stack.len() > 0
        invariant
            adj == adjacency(g@),
            is_graph(adj),
            vertex_labels@.len() == g@.len(),
            before.len() == g@.len(),
            frames_valid(adj, stack@),
            unwind(adj, visit_of(marks(vertex_labels@), post), stack@) == target,
            forall|x: int|
                0 <= x < before.len() ==> (#[trigger] vertex_labels@[x]) == if before[x] is None
                    && marks(vertex_labels@)[x] {
                    Some(label)
                } else {
                    before[x]
                },
        decreases unseen_count(marks(vertex_labels@)), frames_measure(adj, stack@),
    {
        let top = stack.len() - 1;
        let (x, k) = stack[top];
        let ghost st = visit_of(marks(vertex_labels@), post);
        let ghost frames = stack@;
        let ghost labels_before = vertex_labels@;
        if k < g[x].len() {
            let v = g[x][k];
            assert(adj[x as int][k as int] < g@.len());
            stack[top] = (x, k + 1);
            assert(stack@.drop_last() =~= frames.drop_last());
            if vertex_labels[v].is_none() {
                proof {
                    lemma_unwind_descend(adj, st, frames, stack@);
                }
                vertex_labels[v] = Some(label);
                stack.push((v, 0));
                proof {
                    assert(marks(vertex_labels@) =~= marks(labels_before).update(v as int, true));
                    assert(visit_of(marks(vertex_labels@), post) == enter(st, v as int));
                }
            } else {
                proof {
                    lemma_unwind_skip(adj, st, frames, stack@);
                }
            }
        } else {
            proof {
                lemma_unwind_return(adj, st, frames);
                post = post.push(x);
            }
            stack.pop();
            assert(visit_of(marks(vertex_labels@), post) == leave(st, x as int));
        }
    }
    assert(vertex_labels@ =~= spread(adj, before, u as int, label));
}

/// The strongly connected components of `h`, by two depth-first passes: the
/// first orders the vertices, the second spreads a fresh label through the
/// reverse graph from each vertex that has none, in that order. Each
/// component lists its vertices in ascending order; the components stand in
/// the order in which their labels were given, which is a topological order
/// of the graph of components.
pub fn compute_sccs(h: &Vec<Vec<usize>>) -> (scc: Vec<Vec<usize>>)
    requires
        is_graph(adjacency(h@)),
    ensures
        adjacency(scc@) == components(adjacency(h@)),
{
    let n = h.len();
    let ghost adj = adjacency(h@);
    let ord = top_ordering(h);
    let hrev = reverse_of(h);
    let ghost rev = adjacency(hrev@);
    proof {
        lemma_top_order_in_range(adj);
    }
    let mut label: usize = 0;
    let mut vertex_labels: Vec<Option<usize>> = vec![None; n];
    assert(labelling_of(vertex_labels@, 0) == unlabelled(n as nat)) by {
        assert(vertex_labels@ =~= Seq::new(n as nat, |i: int| None::<usize>));
    }
    let mut i: usize = 0;
    while i < ord.len()
        invariant
            0 <= i <= ord.len(),
            n == h@.len(),
            adj == adjacency(h@),
            rev == adjacency(hrev@),
            rev == reverse_graph(adj),
            is_graph(rev),
            hrev@.len() == n,
            ord@ == top_order(adj),
            in_range(ord@, n as nat),
            vertex_labels@.len() == n,
            label <= i,
            forall|x: int|
                0 <= x < n ==> match #[trigger] vertex_labels@[x] {
                    Some(c) => c < label,
                    None => true,
                },
            label_pass(rev, ord@, labelling_of(vertex_labels@, label as nat), i as int)
                == component_labels(adj),
        decreases ord.len() - i,
    {
        let u = ord[i];
        if vertex_labels[u].is_none() {
            propagate_label(&hrev, &mut vertex_labels, u, label);
            label += 1;
        }
        i += 1;
    }
    let ghost l = labelling_of(vertex_labels@, label as nat);
    assert(l == component_labels(adj));
    let mut scc: Vec<Vec<usize>> = vec![Vec::new(); label];
    let mut u: usize = 0;
    assert forall|c: int| 0 <= c < label implies (#[trigger] scc@[c])@ == members(
        vertex_labels@,
        c as usize,
        0,
    ) by {
        assert(scc@[c]@ =~= Seq::<usize>::empty());
    }
    while u < n
        invariant
            0 <= u <= n,
            vertex_labels@.len() == n,
            scc@.len() == label,
            forall|x: int|
                0 <= x < n ==> match #[trigger] vertex_labels@[x] {
                    Some(c) => c < label,
                    None => true,
                },
            forall|c: int|
                0 <= c < label ==> (#[trigger] scc@[c])@ == members(
                    vertex_labels@,
                    c as usize,
                    u as int,
                ),
        decreases n - u,
    {
        match vertex_labels[u] {
            Some(c) => {
                scc[c].push(u);
            },
            None => {},
        }
        u += 1;
    }
    assert(adjacency(scc@) =~= classes(l));
    scc
}

} // verus!
