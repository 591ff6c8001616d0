use std::sync::atomic::AtomicBool;

use sisyphus::global_abort::AbortFlag;
use sisyphus::scc::SCC;
use sisyphus::sifting::{
    climb_partial, eval_ordering_scc, get_inv_w, hillclimber_sifting, improve, insertion_sifting,
    insertionplus_sifting, random_order, record_best, reinsert, sample, sample_plus,
    sweep_component, CLIMB_EVERY, QUIET_SWEEPS,
};

/// A component in which vertex `i` wants to stand at position `i`: standing
/// after a larger vertex costs the difference.
fn ladder(n: usize) -> SCC {
    let mut w = vec![vec![0u64; n]; n];
    let mut g = vec![Vec::new(); n];
    for a in 0..n {
        for b in 0..n {
            if a < b {
                w[a][b] = (b - a) as u64;
                g[a].push(b);
            }
        }
    }
    SCC::new((100..100 + n).collect(), w, g)
}

fn flat(n: usize) -> SCC {
    SCC::new((0..n).collect(), vec![vec![0u64; n]; n], vec![Vec::new(); n])
}

fn transpose(w: &Vec<Vec<u64>>) -> Vec<Vec<u64>> {
    let n = w.len();
    let mut d = vec![vec![0u64; n]; n];
    for a in 0..n {
        for b in 0..n {
            d[a][b] = w[b][a];
        }
    }
    d
}

fn is_permutation(pi: &Vec<usize>, n: usize) -> bool {
    let mut seen = vec![false; n];
    for &v in pi {
        if v >= n || seen[v] {
            return false;
        }
        seen[v] = true;
    }
    pi.len() == n
}

fn cost_of_part(pi: &Vec<usize>, scc: &SCC) -> u64 {
    let mut total = 0;
    for j in 0..pi.len() {
        for i in 0..j {
            total += scc.w[pi[j]][pi[i]];
        }
    }
    total
}

fn cost(pi: &Vec<usize>, scc: &SCC) -> u64 {
    let source = AtomicBool::new(false);
    let mut abort = AbortFlag::new(&source);
    eval_ordering_scc(pi, scc, &mut abort)
}

#[test]
fn random_order_is_a_permutation_and_not_always_the_same() {
    let mut rng = rand::thread_rng();
    let first = random_order(30, &mut rng);
    assert!(is_permutation(&first, 30));
    let mut differs = false;
    for _ in 0..20 {
        let next = random_order(30, &mut rng);
        assert!(is_permutation(&next, 30));
        if next != first {
            differs = true;
        }
    }
    assert!(differs);
    let ascending: Vec<usize> = (0..30).collect();
    let mut moved = false;
    for _ in 0..20 {
        if random_order(30, &mut rng) != ascending {
            moved = true;
        }
    }
    assert!(moved);
}

#[test]
fn insertion_finds_the_order_of_the_ladder() {
    // every insertion has one cheapest position, so the result is forced
    let sccs = vec![ladder(12)];
    let source = AtomicBool::new(false);
    let mut abort = AbortFlag::new(&source);
    let ordering = insertion_sifting(&sccs, &mut abort);
    assert_eq!(ordering, vec![(0..12).collect::<Vec<usize>>()]);
    assert_eq!(cost(&ordering[0], &sccs[0]), 0);
}

#[test]
fn insertion_gives_a_permutation_of_each_component() {
    let sccs = vec![flat(7), ladder(5), flat(0), flat(1)];
    let source = AtomicBool::new(false);
    let mut abort = AbortFlag::new(&source);
    let ordering = insertion_sifting(&sccs, &mut abort);
    assert_eq!(ordering.len(), 4);
    for i in 0..4 {
        assert!(is_permutation(&ordering[i], sccs[i].n));
    }
}

#[test]
fn insertion_once_aborted_still_gives_full_permutations() {
    let sccs = vec![ladder(9), flat(3)];
    let source = AtomicBool::new(true);
    let mut abort = AbortFlag::new(&source);
    let ordering = insertion_sifting(&sccs, &mut abort);
    assert!(is_permutation(&ordering[0], 9));
    assert!(is_permutation(&ordering[1], 3));
    assert!(abort.was_raised());
}

#[test]
fn insertionplus_gives_a_permutation_of_each_component() {
    // more than fifty vertices, so that the interleaved improvement runs
    let sccs = vec![ladder(120), flat(60)];
    let source = AtomicBool::new(false);
    let mut abort = AbortFlag::new(&source);
    let ordering = insertionplus_sifting(&sccs, &mut abort);
    assert!(is_permutation(&ordering[0], 120));
    assert!(is_permutation(&ordering[1], 60));
    assert_eq!(ordering[0], (0..120).collect::<Vec<usize>>());
}

#[test]
fn insertionplus_once_aborted_still_gives_full_permutations() {
    let sccs = vec![ladder(70)];
    let source = AtomicBool::new(true);
    let mut abort = AbortFlag::new(&source);
    let ordering = insertionplus_sifting(&sccs, &mut abort);
    assert!(is_permutation(&ordering[0], 70));
}

#[test]
fn reinsert_moves_a_vertex_to_its_cheapest_place() {
    let scc = ladder(5);
    let diffs = transpose(&scc.w);
    let mut rng = rand::thread_rng();
    // vertex 0 stands last; its only cheapest place is the front
    let mut ordering = vec![1, 2, 3, 4, 0];
    let before = cost(&ordering, &scc);
    let improved = reinsert(&scc, &diffs, &mut ordering, 4, &mut rng);
    assert!(improved);
    assert_eq!(ordering, vec![0, 1, 2, 3, 4]);
    assert_eq!(before, 1 + 2 + 3 + 4);
    assert_eq!(cost(&ordering, &scc), 0);
}

#[test]
fn reinsert_leaves_a_vertex_where_nothing_is_cheaper() {
    let scc = ladder(4);
    let diffs = transpose(&scc.w);
    let mut rng = rand::thread_rng();
    let mut ordering = vec![0, 1, 2, 3];
    let improved = reinsert(&scc, &diffs, &mut ordering, 2, &mut rng);
    assert!(!improved);
    assert_eq!(ordering, vec![0, 1, 2, 3]);
}

#[test]
fn reinsert_among_equal_places_takes_another_one() {
    let scc = flat(3);
    let diffs = transpose(&scc.w);
    let mut rng = rand::thread_rng();
    for _ in 0..20 {
        let mut ordering = vec![0, 1, 2];
        let improved = reinsert(&scc, &diffs, &mut ordering, 1, &mut rng);
        assert!(!improved);
        // vertex 1 went to position 0 or 2, never back to 1
        assert!(ordering == vec![1, 0, 2] || ordering == vec![0, 2, 1]);
    }
}

#[test]
fn hillclimber_never_makes_an_ordering_worse() {
    let sccs = vec![ladder(25), flat(4), ladder(1)];
    let initial = vec![(0..25).rev().collect::<Vec<usize>>(), vec![2, 0, 3, 1], vec![0]];
    let before: Vec<u64> = (0..3).map(|i| cost(&initial[i], &sccs[i])).collect();
    let source = AtomicBool::new(false);
    let mut abort = AbortFlag::new(&source);
    let ordering = hillclimber_sifting(&sccs, initial, &mut abort);
    for i in 0..3 {
        assert!(is_permutation(&ordering[i], sccs[i].n));
        assert!(cost(&ordering[i], &sccs[i]) <= before[i]);
    }
    // the first vertex looked at has a better place than its own
    assert!(cost(&ordering[0], &sccs[0]) < before[0]);
}

#[test]
fn hillclimber_once_aborted_returns_what_it_was_given() {
    let sccs = vec![ladder(6)];
    let initial = vec![vec![5, 4, 3, 2, 1, 0]];
    let source = AtomicBool::new(true);
    let mut abort = AbortFlag::new(&source);
    let ordering = hillclimber_sifting(&sccs, initial.clone(), &mut abort);
    assert_eq!(ordering, initial);
}

#[test]
fn samples_are_permutations() {
    let sccs = vec![ladder(8), flat(5)];
    let source = AtomicBool::new(false);
    let mut abort = AbortFlag::new(&source);
    let a = sample(&sccs, &mut abort);
    let b = sample_plus(&sccs, &mut abort);
    for i in 0..2 {
        assert!(is_permutation(&a[i], sccs[i].n));
        assert!(is_permutation(&b[i], sccs[i].n));
    }
    assert_eq!(a[0], (0..8).collect::<Vec<usize>>());
    assert_eq!(b[0], (0..8).collect::<Vec<usize>>());
}

#[test]
fn record_best_keeps_the_cheaper_ordering() {
    let sccs = vec![ladder(3), ladder(3)];
    let source = AtomicBool::new(false);
    let mut abort = AbortFlag::new(&source);
    let mut bestval = vec![u64::MAX, 1];
    let mut bestperm = vec![vec![], vec![0, 2, 1]];
    // costs 4 and 3
    let candidate = vec![vec![2, 1, 0], vec![1, 2, 0]];
    record_best(&sccs, &candidate, &mut bestval, &mut bestperm, &mut abort);
    assert_eq!(bestval, vec![4, 1]);
    assert_eq!(bestperm, vec![vec![2, 1, 0], vec![0, 2, 1]]);
    // costs 3 and 1; an equal value is no improvement
    let candidate = vec![vec![1, 2, 0], vec![1, 0, 2]];
    record_best(&sccs, &candidate, &mut bestval, &mut bestperm, &mut abort);
    assert_eq!(bestval, vec![3, 1]);
    assert_eq!(bestperm, vec![vec![1, 2, 0], vec![0, 2, 1]]);
}

#[test]
fn record_best_once_aborted_records_the_sentinel_only_over_the_initial_value() {
    let sccs = vec![ladder(3), ladder(3)];
    let source = AtomicBool::new(true);
    let mut abort = AbortFlag::new(&source);
    let mut bestval = vec![u64::MAX, 3];
    let mut bestperm = vec![vec![], vec![2, 0, 1]];
    let candidate = vec![vec![0, 1, 2], vec![0, 1, 2]];
    record_best(&sccs, &candidate, &mut bestval, &mut bestperm, &mut abort);
    assert_eq!(bestval, vec![u64::MAX - 1, 3]);
    assert_eq!(bestperm, vec![vec![0, 1, 2], vec![2, 0, 1]]);
}

#[test]
fn improve_once_aborted_changes_nothing() {
    let sccs = vec![ladder(4)];
    let source = AtomicBool::new(true);
    let mut abort = AbortFlag::new(&source);
    // the reversed ladder costs 1 + 2 + 3 + 1 + 2 + 1
    let mut bestval = vec![10];
    let mut bestperm = vec![vec![3, 2, 1, 0]];
    assert_eq!(cost(&bestperm[0], &sccs[0]), 10);
    improve(&sccs, &mut bestval, &mut bestperm, &mut abort);
    assert_eq!(bestval, vec![10]);
    assert_eq!(bestperm, vec![vec![3, 2, 1, 0]]);
}

#[test]
fn one_sweep_improves_a_reversed_ladder() {
    let sccs = vec![flat(2), ladder(10)];
    let source = AtomicBool::new(false);
    let mut abort = AbortFlag::new(&source);
    let inv_w = get_inv_w(&sccs, &mut abort);
    let mut rng = rand::thread_rng();
    let mut ordering: Vec<usize> = (0..10).rev().collect();
    let before = cost(&ordering, &sccs[1]);
    let improved = sweep_component(&sccs, &inv_w, 1, &mut ordering, &mut rng, &mut abort);
    assert!(improved);
    assert!(is_permutation(&ordering, 10));
    assert!(cost(&ordering, &sccs[1]) < before);
    // a sweep over an ordering without a fault gains nothing
    let mut sorted: Vec<usize> = (0..10).collect();
    assert!(!sweep_component(&sccs, &inv_w, 1, &mut sorted, &mut rng, &mut abort));
    assert_eq!(sorted, (0..10).collect::<Vec<usize>>());
}

#[test]
fn a_sweep_once_aborted_moves_nothing() {
    let sccs = vec![ladder(5)];
    let source = AtomicBool::new(true);
    let mut abort = AbortFlag::new(&source);
    let inv_w = get_inv_w(&sccs, &mut abort);
    assert!(inv_w.is_empty());
    let mut rng = rand::thread_rng();
    let mut ordering = vec![4, 3, 2, 1, 0];
    assert!(!sweep_component(&sccs, &inv_w, 0, &mut ordering, &mut rng, &mut abort));
    assert_eq!(ordering, vec![4, 3, 2, 1, 0]);
}

#[test]
fn climbing_improves_part_of_a_ladder() {
    let scc = ladder(9);
    let diffs = transpose(&scc.w);
    let mut rng = rand::thread_rng();
    let source = AtomicBool::new(false);
    let mut abort = AbortFlag::new(&source);
    // four of the nine vertices, out of order
    let mut ordering = vec![7, 2, 8, 0];
    let before = cost_of_part(&ordering, &scc);
    climb_partial(&scc, &diffs, &mut ordering, &mut rng, &mut abort);
    let mut sorted = ordering.clone();
    sorted.sort();
    assert_eq!(sorted, vec![0, 2, 7, 8]);
    // every vertex has a better place than its own, so the first step pays
    assert!(cost_of_part(&ordering, &scc) < before);
    // from the optimum no step leads away
    let mut best = vec![0, 2, 7, 8];
    climb_partial(&scc, &diffs, &mut best, &mut rng, &mut abort);
    assert_eq!(best, vec![0, 2, 7, 8]);
}

#[test]
fn hillclimber_turns_a_crossed_pair_round() {
    let sccs = vec![SCC::new(vec![0, 1], vec![vec![0, 0], vec![1, 0]], vec![vec![], vec![]])];
    let source = AtomicBool::new(false);
    let mut abort = AbortFlag::new(&source);
    // vertex 1 after vertex 0 costs 1, the other way round nothing
    assert_eq!(cost(&vec![0, 1], &sccs[0]), 1);
    let ordering = hillclimber_sifting(&sccs, vec![vec![0, 1]], &mut abort);
    assert_eq!(ordering, vec![vec![1, 0]]);
}

#[test]
fn hillclimber_ends_where_no_vertex_has_a_better_place() {
    // in a ladder out of order some vertex stands before a smaller one next
    // to it, and gains by moving behind it: sweeps without a gain leave the
    // ladder in order
    let sccs = vec![ladder(12), ladder(1), ladder(7)];
    let initial = vec![(0..12).rev().collect::<Vec<usize>>(), vec![0], vec![3, 6, 0, 5, 1, 4, 2]];
    let source = AtomicBool::new(false);
    let mut abort = AbortFlag::new(&source);
    let ordering = hillclimber_sifting(&sccs, initial, &mut abort);
    assert_eq!(ordering[0], (0..12).collect::<Vec<usize>>());
    assert_eq!(ordering[1], vec![0]);
    assert_eq!(ordering[2], (0..7).collect::<Vec<usize>>());
}

#[test]
fn a_sample_of_a_ladder_is_in_order() {
    let sccs = vec![ladder(9)];
    let source = AtomicBool::new(false);
    let mut abort = AbortFlag::new(&source);
    assert_eq!(sample(&sccs, &mut abort), vec![(0..9).collect::<Vec<usize>>()]);
    assert_eq!(sample_plus(&sccs, &mut abort), vec![(0..9).collect::<Vec<usize>>()]);
}

#[test]
fn climbing_once_aborted_moves_nothing() {
    let scc = ladder(5);
    let diffs = transpose(&scc.w);
    let mut rng = rand::thread_rng();
    let source = AtomicBool::new(true);
    let mut abort = AbortFlag::new(&source);
    let mut ordering = vec![4, 1, 3];
    climb_partial(&scc, &diffs, &mut ordering, &mut rng, &mut abort);
    assert_eq!(ordering, vec![4, 1, 3]);
}

#[test]
fn climbing_nothing_ends_at_once() {
    let scc = ladder(3);
    let diffs = transpose(&scc.w);
    let mut rng = rand::thread_rng();
    let source = AtomicBool::new(false);
    let mut abort = AbortFlag::new(&source);
    let mut ordering: Vec<usize> = Vec::new();
    climb_partial(&scc, &diffs, &mut ordering, &mut rng, &mut abort);
    assert!(ordering.is_empty());
}

#[test]
fn insertionplus_keeps_a_long_ladder_in_order() {
    // more vertices than lie between two runs of the hillclimber
    assert_eq!(CLIMB_EVERY, 50);
    let sccs = vec![ladder(120)];
    let source = AtomicBool::new(false);
    let mut abort = AbortFlag::new(&source);
    let ordering = insertionplus_sifting(&sccs, &mut abort);
    assert_eq!(ordering, vec![(0..120).collect::<Vec<usize>>()]);
}

#[test]
fn hillclimber_ends_after_four_quiet_sweeps() {
    assert_eq!(QUIET_SWEEPS, 4);
    // nothing can be gained where no pair costs anything
    let sccs = vec![flat(5)];
    let source = AtomicBool::new(false);
    let mut abort = AbortFlag::new(&source);
    let ordering = hillclimber_sifting(&sccs, vec![vec![4, 2, 0, 1, 3]], &mut abort);
    assert!(is_permutation(&ordering[0], 5));
    assert_eq!(cost(&ordering[0], &sccs[0]), 0);
}
