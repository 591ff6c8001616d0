//! Sifting on the whole free side at once, for graphs too large for a matrix
//! of crossing numbers: each vertex is moved to the position, within a
//! limited range, at which the number of crossings is least.

use vstd::prelude::*;
use crate::bipartite_graph::{
    degrees, edge_count, lemma_degree_bounded, lemma_pair_crossings_bounded, BipartiteGraph,
};
use crate::cost::{
    eval, insert_cost, lemma_eval_insert, lemma_eval_remove, lemma_picked_bounded,
    lemma_remove_insert, picked,
};
use crate::global_abort::AbortFlag;
use crate::heuristic::{mean_heuristic, mean_keys};
use crate::permutation::{is_permutation, lemma_permutation_contains};
use crate::random::random_below;
use crate::sifting::random_order;
use crate::sorting::is_stable_order;
use rand::rngs::ThreadRng;

verus! {

/// The byte that stands for "not known" in the cache.
pub const UNKNOWN: u8 = 255;

/// The crossing numbers as weights: what `a` pays for standing after `b` is
/// the number of crossings when `b` stands before `a`.
pub open spec fn crossing_matrix(g: &BipartiteGraph) -> Seq<Seq<u64>> {
    Seq::new(g.n1 as nat, |a: int| Seq::new(g.n1 as nat, |b: int| g.crossing(b, a) as u64))
}

/// The number of crossings between the edges of all pairs of free vertices
/// when these stand in the order `pi`.
pub open spec fn crossing_count(g: &BipartiteGraph, pi: Seq<usize>) -> int {
    eval(crossing_matrix(g), pi)
}

/// Every byte of the cache is `UNKNOWN` or the crossing number of its pair.
/// A cache without rows caches nothing.
pub open spec fn cache_valid(g: &BipartiteGraph, cm: Seq<Vec<u8>>) -> bool {
    cm.len() == 0 || {
        &&& cm.len() == g.n1
        &&& forall|u: int| 0 <= u < g.n1 ==> (#[trigger] cm[u])@.len() == g.n1
        &&& forall|u: int, v: int|
            0 <= u < g.n1 && 0 <= v < g.n1 ==> (#[trigger] cm[u]@[v]) == UNKNOWN || cm[u]@[v]
                == g.crossing(u, v)
    }
}

/// The number of crossings between the edges of `u` and `v` when `u` stands
/// before `v`, from the cache if it is there. A number below 255 that was
/// not in the cache is put there.
pub fn get_crossings(g: &BipartiteGraph, cm: &mut Vec<Vec<u8>>, u: usize, v: usize) -> (x: u64)
    requires
        g.wf(),
        u < g.n1,
        v < g.n1,
        cache_valid(g, old(cm)@),
    ensures
        x == g.crossing(u as int, v as int),
        x <= 0x3fff_ffff_0000_0001,
        cache_valid(g, final(cm)@),
        final(cm)@.len() == old(cm)@.len(),
        old(cm)@.len() > 0 ==> final(cm)@[u as int]@[v as int] == if x < 255 {
            x as u8
        } else {
            UNKNOWN
        },
        forall|a: int, b: int|
            0 <= a < old(cm)@.len() && 0 <= b < g.n1 && !(a == u && b == v) ==> (
            #[trigger] final(cm)@[a]@[b]) == old(cm)@[a]@[b],
{
    if cm.len() == 0 {
        return g.pair_crossing_number(u, v);
    }
    proof {
        let m = crate::bipartite_graph::edge_count(g.neighbours());
        crate::bipartite_graph::lemma_degree_bounded(g.neighbours(), u as int, v as int);
        crate::bipartite_graph::lemma_pair_crossings_bounded(g.neighbours()[u as int], g.neighbours()[v as int]);
        assert(m * m <= 0x3fff_ffff_0000_0001) by (nonlinear_arith)
            requires
                0 <= m <= 0x7fff_ffff,
        ;
    }
    let cached = cm[u][v];
    if cached == UNKNOWN {
        let x = g.pair_crossing_number(u, v);
        if x < 255 {
            let ghost before = cm@;
            cm[u][v] = x as u8;
            proof {
                assert forall|a: int| 0 <= a < g.n1 implies (#[trigger] cm@[a])@.len() == g.n1 by {
                    assert(before[a]@.len() == g.n1);
                }
                assert forall|a: int, b: int| 0 <= a < g.n1 && 0 <= b < g.n1 implies (
                #[trigger] cm@[a]@[b]) == UNKNOWN || cm@[a]@[b] == g.crossing(a, b) by {
                    assert(before[a]@.len() == g.n1);
                    if !(a == u && b == v) {
                        assert(cm@[a]@[b] == before[a]@[b]);
                    }
                }
            }
        }
        return x;
    }
    cached as u64
}

/// `pos` tells for each vertex its position in the permutation `perm`.
pub open spec fn positions_valid(perm: Seq<usize>, pos: Seq<usize>) -> bool {
    &&& is_permutation(perm, perm.len())
    &&& pos.len() == perm.len()
    &&& forall|i: int| 0 <= i < perm.len() ==> pos[(#[trigger] perm[i]) as int] == i
}

/// `s` with the entries at `i` and `i + 1` exchanged.
pub open spec fn swapped(s: Seq<usize>, i: int) -> Seq<usize> {
    s.update(i, s[i + 1]).update(i + 1, s[i])
}

/// Exchanges the vertices at the positions `swap` and `swap + 1`.
pub fn update_perm_pos(perm: &mut Vec<usize>, pos: &mut Vec<usize>, swap: usize)
    requires
        positions_valid(old(perm)@, old(pos)@),
        swap + 1 < old(perm)@.len(),
    ensures
        final(perm)@ == swapped(old(perm)@, swap as int),
        positions_valid(final(perm)@, final(pos)@),
{
    let ghost before = perm@;
    let ghost n = perm@.len();
    assert(perm@.len() == perm.len());
    let a = perm[swap];
    let b = perm[swap + 1];
    perm[swap] = b;
    perm[swap + 1] = a;
    pos[b] = swap;
    pos[a] = swap + 1;
    proof {
        assert(perm@ =~= swapped(before, swap as int));
        assert(a != b);
        assert forall|i: int, j: int| 0 <= i < n && 0 <= j < n && i != j implies perm@[i]
            != perm@[j] by {
            let ii = if i == swap { swap + 1 } else if i == swap + 1 { swap as int } else { i };
            let jj = if j == swap { swap + 1 } else if j == swap + 1 { swap as int } else { j };
            assert(perm@[i] == before[ii] && perm@[j] == before[jj]);
        }
        assert forall|i: int| 0 <= i < n implies pos@[(#[trigger] perm@[i]) as int] == i by {
            if i != swap && i != swap + 1 {
                assert(perm@[i] == before[i]);
                assert(before[i] != a && before[i] != b);
            }
        }
    }
}

/// What moving the vertex at position `v` of `perm` to position `to` adds to
/// the number of crossings.
pub open spec fn gain(g: &BipartiteGraph, perm: Seq<usize>, v: int, to: int) -> int {
    insert_cost(crossing_matrix(g), perm.remove(v), perm[v] as int, to) - insert_cost(
        crossing_matrix(g),
        perm.remove(v),
        perm[v] as int,
        v,
    )
}

/// `perm` with the vertex at position `v` moved to position `to`.
pub open spec fn moved(perm: Seq<usize>, v: int, to: int) -> Seq<usize> {
    perm.remove(v).insert(to, perm[v])
}

/// A move changes the number of crossings by its gain.
pub proof fn lemma_moved_count(g: &BipartiteGraph, perm: Seq<usize>, v: int, to: int)
    requires
        0 <= v < perm.len(),
        0 <= to < perm.len(),
    ensures
        crossing_count(g, moved(perm, v, to)) == crossing_count(g, perm) + gain(g, perm, v, to),
{
    lemma_eval_remove(crossing_matrix(g), perm, v);
    lemma_eval_insert(crossing_matrix(g), perm.remove(v), to, perm[v]);
}

/// What one step of the scan adds: the vertex at position `v` passes the
/// vertex at position `i`.
pub open spec fn step_delta(g: &BipartiteGraph, perm: Seq<usize>, v: int, up: bool, i: int) -> int {
    if up {
        g.crossing(perm[i] as int, perm[v] as int) - g.crossing(perm[v] as int, perm[i] as int)
    } else {
        g.crossing(perm[v] as int, perm[i] as int) - g.crossing(perm[i] as int, perm[v] as int)
    }
}

/// The position that the scan looks at in its step number `step`.
pub open spec fn scan_position(v: int, up: bool, step: int) -> int {
    if up {
        v + step + 1
    } else {
        v - step - 1
    }
}

/// How far a scan has come: the least gain so far and the position that has
/// it, the gain at the position looked at last, and the number of steps
/// since the least gain was found.
pub struct Scan {
    pub minval: int,
    pub minidx: int,
    pub acc: int,
    pub since: int,
}

/// Whether the scan, `since` steps after its last improvement and at the
/// gain `acc`, goes no further in the range mode `range`.
pub open spec fn scan_stops(range: usize, since: int, acc: int) -> bool {
    (range < 2 && (since > 500 || acc > 1000)) || (range == 2 && (since > 5000 || acc > 10000))
}

/// The scan after `k` steps, none of which stopped it.
pub open spec fn scan(g: &BipartiteGraph, perm: Seq<usize>, v: int, up: bool, k: int) -> Scan
    decreases k,
{
    if k <= 0 {
        Scan { minval: i64::MAX as int, minidx: 0, acc: 0, since: 0 }
    } else {
        let s = scan(g, perm, v, up, k - 1);
        let i = scan_position(v, up, k - 1);
        let acc = s.acc + step_delta(g, perm, v, up, i);
        if acc <= s.minval {
            Scan { minval: acc, minidx: i, acc, since: 0 }
        } else {
            Scan { minval: s.minval, minidx: s.minidx, acc, since: s.since + 1 }
        }
    }
}

/// The scan would stop before its step number `k`.
pub open spec fn stops_before(g: &BipartiteGraph, perm: Seq<usize>, v: int, up: bool, range: usize, k: int) -> bool {
    scan_stops(range, scan(g, perm, v, up, k).since + 1, scan(g, perm, v, up, k).acc)
}

/// The number of positions on the side of `v` that the scan looks at.
pub open spec fn scan_length(n: int, v: int, up: bool) -> int {
    if up {
        n - v - 1
    } else {
        v
    }
}

/// `(minval, minidx)` is what a scan returns: the state after `k` steps,
/// where `k` is the first step that stops the scan, or the number of
/// positions on that side, or, once `aborted`, any number of steps before.
pub open spec fn is_scan_result(
    g: &BipartiteGraph,
    perm: Seq<usize>,
    v: int,
    up: bool,
    range: usize,
    aborted: bool,
    minval: i64,
    minidx: usize,
) -> bool {
    exists|k: int|
        0 <= k <= scan_length(perm.len() as int, v, up) && (forall|j: int|
            0 <= j < k ==> !#[trigger] stops_before(g, perm, v, up, range, j)) && (k == scan_length(
            perm.len() as int,
            v,
            up,
        ) || stops_before(g, perm, v, up, range, k) || aborted) && minval == (#[trigger] scan(
            g,
            perm,
            v,
            up,
            k,
        )).minval && minidx == scan(g, perm, v, up, k).minidx
}

/// The largest value that a sum of differences of crossing numbers takes.
pub open spec fn gain_limit() -> int {
    0x3fff_ffff_0000_0001
}

/// The vertices that a scan passes, in its order.
pub open spec fn visited(perm: Seq<usize>, v: int, up: bool) -> Seq<usize> {
    Seq::new(
        scan_length(perm.len() as int, v, up) as nat,
        |s: int| perm[scan_position(v, up, s)],
    )
}

/// Crossing numbers fit their type.
proof fn lemma_crossing_fits(g: &BipartiteGraph, a: int, b: int)
    requires
        g.wf(),
        0 <= a < g.n1,
        0 <= b < g.n1,
    ensures
        g.crossing(a, b) <= g.neighbours()[a].len() * g.neighbours()[b].len(),
        g.neighbours()[a].len() * g.neighbours()[b].len() <= gain_limit(),
        crossing_matrix(g)[b][a] == g.crossing(a, b),
{
    lemma_degree_bounded(g.neighbours(), a, b);
    lemma_pair_crossings_bounded(g.neighbours()[a], g.neighbours()[b]);
    let m = edge_count(g.neighbours());
    assert(m * m <= 0x3fff_ffff_0000_0001) by (nonlinear_arith)
        requires
            0 <= m <= 0x7fff_ffff,
    ;
}

/// The gain of a scan stays within what the degrees of the vertices passed
/// allow.
proof fn lemma_scan_acc_bounded(g: &BipartiteGraph, perm: Seq<usize>, v: int, up: bool, k: int)
    requires
        g.wf(),
        is_permutation(perm, g.n1 as nat),
        0 <= v < perm.len(),
        0 <= k <= scan_length(perm.len() as int, v, up),
    ensures
        -(g.neighbours()[perm[v] as int].len() * picked(
            degrees(g.neighbours()),
            visited(perm, v, up),
            k,
        )) <= scan(g, perm, v, up, k).acc <= g.neighbours()[perm[v] as int].len() * picked(
            degrees(g.neighbours()),
            visited(perm, v, up),
            k,
        ),
        picked(degrees(g.neighbours()), visited(perm, v, up), k) >= 0,
    decreases k,
{
    let d = g.neighbours()[perm[v] as int].len() as int;
    if k > 0 {
        lemma_scan_acc_bounded(g, perm, v, up, k - 1);
        let i = scan_position(v, up, k - 1);
        let y = perm[i] as int;
        let x = perm[v] as int;
        assert(visited(perm, v, up)[k - 1] == perm[i]);
        lemma_crossing_fits(g, x, y);
        lemma_crossing_fits(g, y, x);
        let dy = g.neighbours()[y].len() as int;
        let prev = picked(degrees(g.neighbours()), visited(perm, v, up), k - 1);
        let delta = step_delta(g, perm, v, up, i);
        assert(degrees(g.neighbours())[y] == dy);
        assert(dy * d == d * dy) by (nonlinear_arith);
        assert(-(d * dy) <= delta <= d * dy);
        assert(d * (prev + dy) == d * prev + d * dy) by (nonlinear_arith);
    } else {
        assert(d * 0 == 0);
    }
}

/// The gain of a scan stays within the limit.
proof fn lemma_scan_acc_limit(g: &BipartiteGraph, perm: Seq<usize>, v: int, up: bool, k: int)
    requires
        g.wf(),
        is_permutation(perm, g.n1 as nat),
        0 <= v < perm.len(),
        0 <= k <= scan_length(perm.len() as int, v, up),
    ensures
        -gain_limit() <= scan(g, perm, v, up, k).acc <= gain_limit(),
{
    lemma_scan_acc_bounded(g, perm, v, up, k);
    let ds = degrees(g.neighbours());
    let vis = visited(perm, v, up);
    assert forall|a: int, b: int| 0 <= a < b < k implies vis[a] != vis[b] by {
        assert(vis[a] == perm[scan_position(v, up, a)]);
        assert(vis[b] == perm[scan_position(v, up, b)]);
    }
    lemma_picked_bounded(ds, vis, k);
    lemma_degree_bounded(g.neighbours(), perm[v] as int, perm[v] as int);
    let d = g.neighbours()[perm[v] as int].len() as int;
    let p = picked(ds, vis, k);
    let m = edge_count(g.neighbours());
    assert(d * p <= gain_limit()) by (nonlinear_arith)
        requires
            0 <= d <= m,
            0 <= p <= m,
            0 <= m <= 0x7fff_ffff,
            gain_limit() == 0x3fff_ffff_0000_0001,
    ;
}

/// Putting a vertex one position further on changes its insertion cost by
/// what it pays to the vertex that it passes less what that vertex paid.
proof fn lemma_insert_cost_step(w: Seq<Seq<u64>>, rest: Seq<usize>, x: int, p: int)
    requires
        0 <= p < rest.len(),
    ensures
        insert_cost(w, rest, x, p + 1) - insert_cost(w, rest, x, p) == w[x][rest[p] as int]
            - w[rest[p] as int][x],
{
}

/// After `k` steps the scan holds the gain of the position it has reached,
/// and its least gain is that of the position it names.
pub proof fn lemma_scan_gain(g: &BipartiteGraph, perm: Seq<usize>, v: int, up: bool, k: int)
    requires
        g.wf(),
        is_permutation(perm, g.n1 as nat),
        0 <= v < perm.len(),
        0 <= k <= scan_length(perm.len() as int, v, up),
    ensures
        k == 0 ==> scan(g, perm, v, up, k).minval == i64::MAX && scan(g, perm, v, up, k).minidx == 0
            && scan(g, perm, v, up, k).acc == 0,
        k > 0 ==> scan(g, perm, v, up, k).acc == gain(g, perm, v, scan_position(v, up, k - 1)),
        k > 0 ==> scan(g, perm, v, up, k).minval == gain(
            g,
            perm,
            v,
            scan(g, perm, v, up, k).minidx,
        ),
        k > 0 ==> -gain_limit() <= scan(g, perm, v, up, k).minval <= gain_limit(),
        k > 0 && up ==> v < scan(g, perm, v, up, k).minidx <= v + k,
        k > 0 && !up ==> v - k <= scan(g, perm, v, up, k).minidx < v,
        0 <= scan(g, perm, v, up, k).since <= k,
    decreases k,
{
    if k > 0 {
        lemma_scan_gain(g, perm, v, up, k - 1);
        lemma_scan_acc_limit(g, perm, v, up, k);
        let w = crossing_matrix(g);
        let rest = perm.remove(v);
        let x = perm[v] as int;
        let i = scan_position(v, up, k - 1);
        let y = perm[i] as int;
        lemma_crossing_fits(g, x, y);
        lemma_crossing_fits(g, y, x);
        if up {
            // the vertex goes from position i - 1 to position i of the rest
            assert(rest[i - 1] == perm[i]);
            lemma_insert_cost_step(w, rest, x, i - 1);
            if k == 1 {
                assert(i - 1 == v);
            } else {
                assert(scan_position(v, up, k - 2) == i - 1);
            }
        } else {
            assert(rest[i] == perm[i]);
            lemma_insert_cost_step(w, rest, x, i);
            if k == 1 {
                assert(i + 1 == v);
            } else {
                assert(scan_position(v, up, k - 2) == i + 1);
            }
        }
    }
}

/// The scan counts no more steps since its last improvement than it took.
proof fn lemma_scan_since(g: &BipartiteGraph, perm: Seq<usize>, v: int, up: bool, k: int)
    requires
        0 <= k,
    ensures
        0 <= scan(g, perm, v, up, k).since <= k,
    decreases k,
{
    if k > 0 {
        lemma_scan_since(g, perm, v, up, k - 1);
    }
}

/// The state of a scan that was not stopped before its step `k`, and that
/// has reason to end there, is what the scan returns.
proof fn lemma_scan_result(
    g: &BipartiteGraph,
    perm: Seq<usize>,
    v: int,
    up: bool,
    range: usize,
    aborted: bool,
    k: int,
    minval: i64,
    minidx: usize,
)
    requires
        0 <= k <= scan_length(perm.len() as int, v, up),
        forall|j: int| 0 <= j < k ==> !#[trigger] stops_before(g, perm, v, up, range, j),
        k == scan_length(perm.len() as int, v, up) || stops_before(g, perm, v, up, range, k)
            || aborted,
        minval == scan(g, perm, v, up, k).minval,
        minidx == scan(g, perm, v, up, k).minidx,
    ensures
        is_scan_result(g, perm, v, up, range, aborted, minval, minidx),
{
}

/// The best position for the vertex at position `v` among the positions
/// after it, if `up` is 1, or before it: the vertex passes one neighbour
/// after the other, and the least change in the number of crossings is kept,
/// with the last position that has it. The scan ends when the range limit of
/// the mode `range` is reached, or when the flag is seen raised, which is
/// polled before each step.
pub fn best_reinsert(
    g: &BipartiteGraph,
    perm: &Vec<usize>,
    cm: &mut Vec<Vec<u8>>,
    v: usize,
    up: usize,
    range: usize,
    abort: &mut AbortFlag,
) -> (res: (i64, usize))
    requires
        g.wf(),
        is_permutation(perm@, g.n1 as nat),
        v < perm@.len(),
        cache_valid(g, old(cm)@),
    ensures
        old(abort).seen() ==> final(abort).seen(),
        cache_valid(g, final(cm)@),
        final(cm)@.len() == old(cm)@.len(),
        is_scan_result(g, perm@, v as int, up == 1, range, final(abort).seen(), res.0, res.1),
{
    let mut minval: i64 = i64::MAX;
    let mut minidx: usize = 0;
    let mut acc: i64 = 0;
    let mut steps_since_min: usize = 0;
    let num_steps = if up == 1 {
        perm.len() - v - 1
    } else {
        v
    };
    let ghost n = perm@.len() as int;
    let ghost upward = up == 1;
    let mut step: usize = 0;
    while step < num_steps
        invariant_except_break
            0 <= step <= num_steps,
            forall|j: int|
                0 <= j < step ==> !#[trigger] stops_before(g, perm@, v as int, upward, range, j),
            minval == scan(g, perm@, v as int, upward, step as int).minval,
            minidx == scan(g, perm@, v as int, upward, step as int).minidx,
            acc == scan(g, perm@, v as int, upward, step as int).acc,
            steps_since_min == scan(g, perm@, v as int, upward, step as int).since,
        invariant
            g.wf(),
            is_permutation(perm@, g.n1 as nat),
            n == perm@.len(),
            v < n,
            upward == (up == 1),
            num_steps == scan_length(n, v as int, upward),
            old(abort).seen() ==> abort.seen(),
            cache_valid(g, cm@),
            cm@.len() == old(cm)@.len(),
        ensures
            is_scan_result(g, perm@, v as int, upward, range, abort.seen(), minval, minidx),
        decreases num_steps - step,
    {
        if abort.poll() {
            proof {
                lemma_scan_result(
                    g,
                    perm@,
                    v as int,
                    upward,
                    range,
                    abort.seen(),
                    step as int,
                    minval,
                    minidx,
                );
            }
            break;
        }
        let i = if up == 1 {
            v + step + 1
        } else {
            v - step - 1
        };
        proof {
            lemma_scan_since(g, perm@, v as int, upward, step as int);
        }
        steps_since_min += 1;
        if (range < 2 && (steps_since_min > 500 || acc > 1000)) || (range == 2 && (steps_since_min
            > 5000 || acc > 10000)) {
            proof {
                assert(stops_before(g, perm@, v as int, upward, range, step as int));
                lemma_scan_result(
                    g,
                    perm@,
                    v as int,
                    upward,
                    range,
                    abort.seen(),
                    step as int,
                    minval,
                    minidx,
                );
            }
            break;
        }
        assert(!stops_before(g, perm@, v as int, upward, range, step as int));
        let pi = perm[i];
        let pv = perm[v];
        let a = get_crossings(g, cm, pi, pv);
        let b = get_crossings(g, cm, pv, pi);
        proof {
            lemma_scan_acc_limit(g, perm@, v as int, upward, step + 1);
            assert(i == scan_position(v as int, upward, step as int));
        }
        if up == 1 {
            acc = acc + (a as i64 - b as i64);
        } else {
            acc = acc + (b as i64 - a as i64);
        }
        if acc <= minval {
            minval = acc;
            minidx = i;
            steps_since_min = 0;
        }
        step += 1;
    }
    (minval, minidx)
}

/// A scan that returns a value other than the initial one returns the gain
/// of the position that it names, which lies on the side that it scanned.
pub proof fn lemma_scan_result_gain(
    g: &BipartiteGraph,
    perm: Seq<usize>,
    v: int,
    up: bool,
    range: usize,
    aborted: bool,
    minval: i64,
    minidx: usize,
)
    requires
        g.wf(),
        is_permutation(perm, g.n1 as nat),
        0 <= v < perm.len(),
        is_scan_result(g, perm, v, up, range, aborted, minval, minidx),
    ensures
        minval == i64::MAX || (minval == gain(g, perm, v, minidx as int) && if up {
            v < minidx < perm.len()
        } else {
            minidx < v
        }),
{
    let k = choose|k: int|
        0 <= k <= scan_length(perm.len() as int, v, up) && (forall|j: int|
            0 <= j < k ==> !#[trigger] stops_before(g, perm, v, up, range, j)) && (k == scan_length(
            perm.len() as int,
            v,
            up,
        ) || stops_before(g, perm, v, up, range, k) || aborted) && minval == (#[trigger] scan(
            g,
            perm,
            v,
            up,
            k,
        )).minval && minidx == scan(g, perm, v, up, k).minidx;
    lemma_scan_gain(g, perm, v, up, k);
}

/// A scan that is not interrupted has one result only.
pub proof fn lemma_scan_result_unique(
    g: &BipartiteGraph,
    perm: Seq<usize>,
    v: int,
    up: bool,
    range: usize,
    first: (i64, usize),
    second: (i64, usize),
)
    requires
        is_scan_result(g, perm, v, up, range, false, first.0, first.1),
        is_scan_result(g, perm, v, up, range, false, second.0, second.1),
    ensures
        first == second,
{
    let len = scan_length(perm.len() as int, v, up);
    let k1 = choose|k: int|
        0 <= k <= len && (forall|j: int|
            0 <= j < k ==> !#[trigger] stops_before(g, perm, v, up, range, j)) && (k == len
            || stops_before(g, perm, v, up, range, k)) && first.0 == (#[trigger] scan(
            g,
            perm,
            v,
            up,
            k,
        )).minval && first.1 == scan(g, perm, v, up, k).minidx;
    let k2 = choose|k: int|
        0 <= k <= len && (forall|j: int|
            0 <= j < k ==> !#[trigger] stops_before(g, perm, v, up, range, j)) && (k == len
            || stops_before(g, perm, v, up, range, k)) && second.0 == (#[trigger] scan(
            g,
            perm,
            v,
            up,
            k,
        )).minval && second.1 == scan(g, perm, v, up, k).minidx;
    if k1 < k2 {
        assert(!stops_before(g, perm, v, up, range, k1));
    }
    if k2 < k1 {
        assert(!stops_before(g, perm, v, up, range, k2));
    }
}

/// Exchanging the moved vertex with the one after it moves it one further.
proof fn lemma_moved_step(perm: Seq<usize>, v: int, i: int)
    requires
        0 <= v < perm.len(),
        0 <= i < perm.len() - 1,
    ensures
        swapped(moved(perm, v, i), i) == moved(perm, v, i + 1),
{
    let a = swapped(moved(perm, v, i), i);
    let b = moved(perm, v, i + 1);
    assert(a.len() == b.len());
    assert forall|k: int| 0 <= k < a.len() implies a[k] == b[k] by {
        let rest = perm.remove(v);
        if k < i {
            assert(a[k] == rest[k]);
        } else if k == i {
            assert(a[k] == rest[i]);
        } else if k == i + 1 {
            assert(a[k] == perm[v]);
        } else {
            assert(a[k] == rest[k - 1]);
        }
    }
    assert(a =~= b);
}

/// Moves the vertex at position `v` to position `to` by exchanging it with
/// one neighbour after the other.
fn shift(perm: &mut Vec<usize>, pos: &mut Vec<usize>, v: usize, to: usize)
    requires
        positions_valid(old(perm)@, old(pos)@),
        v < old(perm)@.len(),
        to < old(perm)@.len(),
    ensures
        final(perm)@ == moved(old(perm)@, v as int, to as int),
        positions_valid(final(perm)@, final(pos)@),
{
    let ghost orig = perm@;
    proof {
        lemma_remove_insert(orig, v as int);
    }
    if to > v {
        let mut i: usize = v;
        while i < to
            invariant
                v <= i <= to,
                to < orig.len(),
                perm@ == moved(orig, v as int, i as int),
                positions_valid(perm@, pos@),
            decreases to - i,
        {
            update_perm_pos(perm, pos, i);
            proof {
                lemma_moved_step(orig, v as int, i as int);
            }
            i += 1;
        }
    } else {
        let mut i: usize = v;
        while i > to
            invariant
                to <= i <= v,
                v < orig.len(),
                perm@ == moved(orig, v as int, i as int),
                positions_valid(perm@, pos@),
            decreases i,
        {
            i -= 1;
            let ghost before = perm@;
            update_perm_pos(perm, pos, i);
            proof {
                lemma_moved_step(orig, v as int, i as int);
                assert(swapped(swapped(moved(orig, v as int, i as int), i as int), i as int)
                    =~= moved(orig, v as int, i as int));
            }
        }
    }
}

/// `after` is what sifting makes of `perm` when the scans upwards and
/// downwards from position `v` return `up` and `down`: the vertex goes to
/// the position of the lesser gain, or to either with equal gains, unless
/// the gain is above zero.
pub open spec fn sifted(
    perm: Seq<usize>,
    v: int,
    up: (i64, usize),
    down: (i64, usize),
    after: Seq<usize>,
) -> bool {
    if up.0 > 0 && down.0 > 0 {
        after == perm
    } else if up.0 < down.0 {
        after == moved(perm, v, up.1 as int)
    } else if up.0 > down.0 {
        after == moved(perm, v, down.1 as int)
    } else {
        after == moved(perm, v, up.1 as int) || after == moved(perm, v, down.1 as int)
    }
}

/// Moves `vert` to the best position that scans in both directions find,
/// unless that would add crossings. With equal gains in both directions a
/// coin decides. Returns `true`, and leaves the ordering as it is, once the
/// flag is seen raised.
pub fn sift_vertex(
    g: &BipartiteGraph,
    perm: &mut Vec<usize>,
    pos: &mut Vec<usize>,
    cm: &mut Vec<Vec<u8>>,
    vert: usize,
    range: usize,
    rng: &mut ThreadRng,
    abort: &mut AbortFlag,
) -> (aborted: bool)
    requires
        g.wf(),
        old(perm)@.len() == g.n1,
        positions_valid(old(perm)@, old(pos)@),
        vert < g.n1,
        cache_valid(g, old(cm)@),
    ensures
        old(abort).seen() ==> final(abort).seen(),
        aborted == final(abort).seen(),
        aborted ==> final(perm)@ == old(perm)@,
        final(perm)@.len() == g.n1,
        positions_valid(final(perm)@, final(pos)@),
        cache_valid(g, final(cm)@),
        final(cm)@.len() == old(cm)@.len(),
        is_harmless_move(g, old(perm)@, old(pos)@[vert as int] as int, final(perm)@),
        !aborted ==> is_best_move(
            g,
            old(perm)@,
            old(pos)@[vert as int] as int,
            range,
            final(perm)@,
        ),
        !aborted ==> is_sift_of(g, old(perm)@, vert, range, final(perm)@),
        crossing_count(g, final(perm)@) <= crossing_count(g, old(perm)@),
{
    if abort.poll() {
        return true;
    }
    proof {
        lemma_permutation_contains(perm@, g.n1 as nat, vert);
        let q = choose|q: int| 0 <= q < perm@.len() && perm@[q] == vert;
        assert(pos@[perm@[q] as int] == q);
    }
    let v = pos[vert];
    let ghost before = perm@;
    let (minval_up, minidx_up) = best_reinsert(g, perm, cm, v, 1, range, abort);
    let ghost seen_up = abort.seen();
    if abort.poll() {
        return true;
    }
    let (minval_down, minidx_down) = best_reinsert(g, perm, cm, v, 0, range, abort);
    let ghost seen_down = abort.seen();
    if abort.poll() {
        return true;
    }
    assert(!seen_up && !seen_down);
    proof {
        lemma_scan_result_gain(g, perm@, v as int, true, range, false, minval_up, minidx_up);
        lemma_scan_result_gain(g, perm@, v as int, false, range, false, minval_down, minidx_down);
    }
    let minval;
    let minidx;
    if minval_up < minval_down {
        minval = minval_up;
        minidx = minidx_up;
    } else if minval_up > minval_down {
        minval = minval_down;
        minidx = minidx_down;
    } else {
        minval = minval_up;
        if random_below(rng, 2) == 0 {
            minidx = minidx_up;
        } else {
            minidx = minidx_down;
        }
    }
    if minval <= 0 {
        proof {
            lemma_moved_count(g, before, v as int, minidx as int);
        }
        shift(perm, pos, v, minidx);
        assert(perm@ == moved(before, v as int, minidx as int));
    }
    assert(sifted(before, v as int, (minval_up, minidx_up), (minval_down, minidx_down), perm@));
    assert(is_best_move(g, before, v as int, range, perm@));
    assert(is_harmless_move(g, before, v as int, perm@));
    assert(is_sift_of(g, before, vert, range, perm@));
    false
}

/// `b` is `a`, or comes from it by moving the vertex at position `v` to a
/// position at which the ordering has no more crossings than before.
pub open spec fn is_harmless_move(g: &BipartiteGraph, a: Seq<usize>, v: int, b: Seq<usize>) -> bool {
    b == a || exists|to: int|
        0 <= to < a.len() && gain(g, a, v, to) <= 0 && b == #[trigger] moved(a, v, to)
}

/// `b` comes from `a` by sifting the vertex at position `v`: scans upwards
/// and downwards, over `range`, find where it stands best, and `b` is what
/// the better of the two gives.
pub open spec fn is_best_move(
    g: &BipartiteGraph,
    a: Seq<usize>,
    v: int,
    range: usize,
    b: Seq<usize>,
) -> bool {
    exists|up: (i64, usize), down: (i64, usize)|
        is_scan_result(g, a, v, true, range, false, up.0, up.1) && is_scan_result(
            g,
            a,
            v,
            false,
            range,
            false,
            down.0,
            down.1,
        ) && #[trigger] sifted(a, v, up, down, b)
}

/// `b` comes from `a` by sifting the vertex `vert`.
pub open spec fn is_sift_of(
    g: &BipartiteGraph,
    a: Seq<usize>,
    vert: usize,
    range: usize,
    b: Seq<usize>,
) -> bool {
    exists|v: int|
        0 <= v < a.len() && a[v] == vert && #[trigger] is_harmless_move(g, a, v, b) && is_best_move(
            g,
            a,
            v,
            range,
            b,
        )
}

/// `trace` is the first `done` steps of a sweep that takes the vertices in
/// the order `order`, which holds each once: step `k` sifts `order[k]`.
pub open spec fn is_sift_sweep(
    g: &BipartiteGraph,
    range: usize,
    trace: Seq<Seq<usize>>,
    order: Seq<usize>,
    done: int,
) -> bool {
    &&& is_permutation(order, g.n1 as nat)
    &&& 0 <= done <= g.n1
    &&& trace.len() == done + 1
    &&& forall|k: int|
        0 <= k < done ==> is_sift_of(g, #[trigger] trace[k], order[k], range, trace[k + 1])
}

/// A sweep leads from `from` to `to`; a `full` one has sifted every vertex.
pub open spec fn sift_sweeps_to(
    g: &BipartiteGraph,
    range: usize,
    from: Seq<usize>,
    to: Seq<usize>,
    full: bool,
) -> bool {
    exists|trace: Seq<Seq<usize>>, order: Seq<usize>, done: int|
        #[trigger] is_sift_sweep(g, range, trace, order, done) && trace[0] == from && trace[done]
            == to && (full ==> done == g.n1)
}

/// Sweep `t` of a run leads from `states[t]` to `states[t + 1]`. The sweeps'
/// ranges go round 0, 1, 2. It is a full sweep, unless the run was `aborted`
/// and this is its last.
pub open spec fn is_sweep_at(g: &BipartiteGraph, states: Seq<Seq<usize>>, t: int, aborted: bool) -> bool {
    sift_sweeps_to(
        g,
        (t % 3) as usize,
        states[t],
        states[t + 1],
        !(aborted && t == states.len() - 2),
    )
}

/// `states` holds the ordering before the first sweep and after each sweep.
pub open spec fn all_sweeps(g: &BipartiteGraph, states: Seq<Seq<usize>>, aborted: bool) -> bool {
    &&& states.len() > 0
    &&& forall|t: int| 0 <= t < states.len() - 1 ==> #[trigger] is_sweep_at(g, states, t, aborted)
}

/// `states` is a whole run: one that was not `aborted` has made as many
/// sweeps as can be counted.
pub open spec fn is_sift_run(g: &BipartiteGraph, states: Seq<Seq<usize>>, aborted: bool) -> bool {
    &&& all_sweeps(g, states, aborted)
    &&& aborted || states.len() > usize::MAX
}

/// Sifting leads from the ordering by mean neighbour to `result`.
pub open spec fn sifts_to(g: &BipartiteGraph, result: Seq<usize>, aborted: bool) -> bool {
    exists|states: Seq<Seq<usize>>|
        #[trigger] is_sift_run(g, states, aborted) && is_stable_order(mean_keys(g), states[0])
            && states[states.len() - 1] == result
}

/// Full sweeps may be followed by the end of the run.
proof fn lemma_sweeps_end(g: &BipartiteGraph, states: Seq<Seq<usize>>)
    requires
        all_sweeps(g, states, false),
    ensures
        all_sweeps(g, states, true),
{
    assert forall|t: int| 0 <= t < states.len() - 1 implies #[trigger] is_sweep_at(
        g,
        states,
        t,
        true,
    ) by {
        assert(is_sweep_at(g, states, t, false));
    }
}

/// A run of full sweeps goes on by one sweep; one that is not full is its
/// last.
proof fn lemma_sweeps_push(g: &BipartiteGraph, states: Seq<Seq<usize>>, next: Seq<usize>, full: bool)
    requires
        all_sweeps(g, states, false),
        sift_sweeps_to(
            g,
            ((states.len() - 1) % 3) as usize,
            states[states.len() - 1],
            next,
            full,
        ),
    ensures
        all_sweeps(g, states.push(next), !full),
{
    let longer = states.push(next);
    let aborted = !full;
    assert forall|t: int| 0 <= t < longer.len() - 1 implies #[trigger] is_sweep_at(
        g,
        longer,
        t,
        aborted,
    ) by {
        if t < states.len() - 1 {
            assert(is_sweep_at(g, states, t, false));
            assert(longer[t] == states[t]);
            assert(longer[t + 1] == states[t + 1]);
        }
    }
}

/// One sweep: sifts every vertex once, in random order, over `range`. Ends
/// early, and returns `true`, once the flag is seen raised.
fn sift_sweep(
    g: &BipartiteGraph,
    perm: &mut Vec<usize>,
    pos: &mut Vec<usize>,
    cm: &mut Vec<Vec<u8>>,
    range: usize,
    rng: &mut ThreadRng,
    abort: &mut AbortFlag,
) -> (aborted: bool)
    requires
        g.wf(),
        old(perm)@.len() == g.n1,
        positions_valid(old(perm)@, old(pos)@),
        cache_valid(g, old(cm)@),
    ensures
        old(abort).seen() ==> final(abort).seen(),
        aborted == final(abort).seen(),
        final(perm)@.len() == g.n1,
        positions_valid(final(perm)@, final(pos)@),
        cache_valid(g, final(cm)@),
        sift_sweeps_to(g, range, old(perm)@, final(perm)@, !aborted),
        crossing_count(g, final(perm)@) <= crossing_count(g, old(perm)@),
{
    let vertices = random_order(perm.len(), rng);
    let ghost from = perm@;
    let ghost mut trace: Seq<Seq<usize>> = seq![from];
    let mut k: usize = 0;
    while k < vertices.len()
        invariant
            0 <= k <= vertices.len(),
            is_permutation(vertices@, g.n1 as nat),
            g.wf(),
            perm@.len() == g.n1,
            positions_valid(perm@, pos@),
            cache_valid(g, cm@),
            old(abort).seen() ==> abort.seen(),
            from == old(perm)@,
            crossing_count(g, perm@) <= crossing_count(g, from),
            is_sift_sweep(g, range, trace, vertices@, k as int),
            trace[0] == from,
            trace[k as int] == perm@,
        decreases vertices.len() - k,
    {
        let aborted = sift_vertex(g, perm, pos, cm, vertices[k], range, rng, abort);
        if aborted {
            return true;
        }
        proof {
            let longer = trace.push(perm@);
            assert forall|j: int| 0 <= j < k + 1 implies is_sift_of(
                g,
                #[trigger] longer[j],
                vertices@[j],
                range,
                longer[j + 1],
            ) by {
                if j < k {
                    assert(longer[j] == trace[j]);
                    assert(longer[j + 1] == trace[j + 1]);
                }
            }
            trace = longer;
        }
        k += 1;
    }
    abort.was_raised()
}

/// Sifts every vertex, in random order, sweep after sweep until the flag is
/// seen raised, with the cache given; a cache without rows caches nothing.
/// The flag is polled before each sweep and before each vertex.
pub(crate) fn sift(g: &BipartiteGraph, cm: Vec<Vec<u8>>, abort: &mut AbortFlag) -> (perm: Vec<usize>)
    requires
        g.wf(),
        cache_valid(g, cm@),
    ensures
        old(abort).seen() ==> final(abort).seen(),
        is_permutation(perm@, g.n1 as nat),
        forall|base: Seq<usize>|
            is_stable_order(mean_keys(g), base) ==> crossing_count(g, perm@) <= crossing_count(
                g,
                base,
            ),
        old(abort).seen() ==> is_stable_order(mean_keys(g), perm@),
        sifts_to(g, perm@, final(abort).seen()),
{
    let mut cm = cm;
    let mut rng = rand::thread_rng();
    let mut perm: Vec<usize> = mean_heuristic(g);
    let ghost start = perm@;
    let n = perm.len();
    let mut pos: Vec<usize> = vec![0; n];
    let mut i: usize = 0;
    while i < n
        invariant
            0 <= i <= n,
            n == perm@.len(),
            is_permutation(perm@, n as nat),
            pos@.len() == n,
            forall|k: int| 0 <= k < i ==> pos@[(#[trigger] perm@[k]) as int] == k,
        decreases n - i,
    {
        let ghost before = pos@;
        pos[perm[i]] = i;
        proof {
            assert forall|k: int| 0 <= k < i + 1 implies pos@[(#[trigger] perm@[k]) as int] == k by {
                if k < i {
                    assert(perm@[k] != perm@[i as int]);
                    assert(before[perm@[k] as int] == k);
                }
            }
        }
        i += 1;
    }
    let mut iter: usize = 0;
    let ghost mut states: Seq<Seq<usize>> = seq![start];
    while iter < usize::MAX
        invariant
            g.wf(),
            n == g.n1,
            perm@.len() == n,
            positions_valid(perm@, pos@),
            cache_valid(g, cm@),
            old(abort).seen() ==> abort.seen(),
            old(abort).seen() ==> perm@ == start,
            is_stable_order(mean_keys(g), start),
            crossing_count(g, perm@) <= crossing_count(g, start),
            states.len() == iter + 1,
            states[0] == start,
            states[iter as int] == perm@,
            all_sweeps(g, states, false),
        decreases usize::MAX - iter,
    {
        if abort.poll() {
            proof {
                lemma_baseline(g, start);
                lemma_sweeps_end(g, states);
                assert(is_sift_run(g, states, true));
            }
            return perm;
        }
        let aborted = sift_sweep(g, &mut perm, &mut pos, &mut cm, iter % 3, &mut rng, abort);
        proof {
            lemma_sweeps_push(g, states, perm@, !aborted);
            states = states.push(perm@);
        }
        if aborted {
            proof {
                lemma_baseline(g, start);
                assert(is_sift_run(g, states, true));
            }
            return perm;
        }
        iter += 1;
    }
    proof {
        lemma_baseline(g, start);
        if abort.seen() {
            lemma_sweeps_end(g, states);
        }
        assert(is_sift_run(g, states, abort.seen()));
    }
    perm
}

/// There is one ordering by mean neighbour only.
proof fn lemma_baseline(g: &BipartiteGraph, start: Seq<usize>)
    requires
        g.wf(),
        is_stable_order(mean_keys(g), start),
    ensures
        forall|base: Seq<usize>| is_stable_order(mean_keys(g), base) ==> base == start,
{
    assert forall|base: Seq<usize>| is_stable_order(mean_keys(g), base) implies base == start by {
        assert(crate::sorting::keys_valid(mean_keys(g))) by {
            assert forall|i: int| 0 <= i < mean_keys(g).len() implies (#[trigger] mean_keys(
                g,
            )[i]).den > 0 by {
                lemma_degree_bounded(g.neighbours(), i, i);
            }
        }
        crate::sorting::lemma_stable_order_unique(mean_keys(g), base, start);
    }
}

/// A cache for every pair of free vertices, with nothing known.
fn empty_cache(n: usize) -> (cm: Vec<Vec<u8>>)
    ensures
        cm@.len() == n,
        forall|u: int| 0 <= u < n ==> (#[trigger] cm@[u])@.len() == n,
        forall|u: int, v: int| 0 <= u < n && 0 <= v < n ==> (#[trigger] cm@[u]@[v]) == UNKNOWN,
{
    vec![vec![UNKNOWN; n]; n]
}

/// Orders the free side by sifting, with a cache of one byte for each pair
/// of free vertices. Starts from the ordering by mean neighbour and moves
/// one vertex after the other to a position, within the range of the sweep,
/// at which the number of crossings is least, as long as the flag is not
/// seen raised. No move adds crossings. Where the flag was seen before the
/// call, the ordering by mean neighbour comes back.
pub fn sifting_large(g: &BipartiteGraph, abort: &mut AbortFlag) -> (perm: Vec<usize>)
    requires
        g.wf(),
    ensures
        old(abort).seen() ==> final(abort).seen(),
        is_permutation(perm@, g.n1 as nat),
        forall|base: Seq<usize>|
            is_stable_order(mean_keys(g), base) ==> crossing_count(g, perm@) <= crossing_count(
                g,
                base,
            ),
        old(abort).seen() ==> is_stable_order(mean_keys(g), perm@),
        sifts_to(g, perm@, final(abort).seen()),
{
    let cm = empty_cache(g.n1);
    sift(g, cm, abort)
}

} // verus!
