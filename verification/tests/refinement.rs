use std::sync::atomic::AtomicBool;

use sisyphus::bipartite_graph::BipartiteGraph;
use sisyphus::global_abort::AbortFlag;
use sisyphus::refine::{
    count_precedences, frequent_edges, inverse_permutation, seed_ordering, split_component,
    sub_component,
};
use sisyphus::scc::SCC;
use sisyphus::sifting::{
    harvest, refine_components, sifting_heuristic, within_nanos, Samples, SAMPLING_NANOS,
};

fn square() -> SCC {
    // a cycle 0 -> 1 -> 2 -> 3 -> 0 of precedence edges
    let w = vec![vec![0, 3, 0, 0], vec![0, 0, 2, 0], vec![0, 0, 0, 5], vec![1, 0, 0, 0]];
    let g = vec![vec![1], vec![2], vec![3], vec![0]];
    SCC::new(vec![40, 41, 42, 43], w, g)
}

fn no_graph() -> BipartiteGraph {
    BipartiteGraph::from_edges(0, 0, &vec![]).unwrap()
}

#[test]
fn precedences_are_counted_once_for_each_pair() {
    let mut freq = vec![vec![0u64; 3]; 3];
    let source = AtomicBool::new(false);
    let mut abort = AbortFlag::new(&source);
    assert!(count_precedences(&mut freq, &vec![2, 0, 1], &mut abort));
    assert_eq!(freq, vec![vec![0, 1, 0], vec![0, 0, 0], vec![1, 1, 0]]);
    assert!(count_precedences(&mut freq, &vec![0, 2, 1], &mut abort));
    assert_eq!(freq, vec![vec![0, 2, 1], vec![0, 0, 0], vec![1, 2, 0]]);
}

#[test]
fn precedences_are_not_counted_once_aborted() {
    let mut freq = vec![vec![0u64; 2]; 2];
    let source = AtomicBool::new(true);
    let mut abort = AbortFlag::new(&source);
    assert!(!count_precedences(&mut freq, &vec![1, 0], &mut abort));
    assert_eq!(freq, vec![vec![0, 0], vec![0, 0]]);
}

#[test]
fn frequent_edges_are_those_counted_more_than_the_threshold() {
    let scc = square();
    let freq = vec![vec![0, 4, 9, 9], vec![9, 0, 3, 9], vec![9, 9, 0, 5], vec![2, 9, 9, 0]];
    assert_eq!(frequent_edges(&scc, &freq, 3), vec![vec![1], vec![], vec![3], vec![]]);
    assert_eq!(frequent_edges(&scc, &freq, 0), vec![vec![1], vec![2], vec![3], vec![0]]);
    assert_eq!(
        frequent_edges(&scc, &freq, 5),
        vec![Vec::<usize>::new(), vec![], vec![], vec![]]
    );
}

#[test]
fn inverse_permutation_gives_positions() {
    assert_eq!(inverse_permutation(&vec![2, 0, 3, 1]), vec![1, 3, 0, 2]);
    assert_eq!(inverse_permutation(&vec![]), Vec::<usize>::new());
}

#[test]
fn sub_component_slices_weights_and_labels() {
    let scc = square();
    let sub = sub_component(&scc, &vec![3, 0, 1]);
    assert_eq!(sub.n, 3);
    assert_eq!(sub.labels, vec![43, 40, 41]);
    assert_eq!(sub.w, vec![vec![0, 1, 0], vec![0, 0, 3], vec![0, 0, 0]]);
    // an edge wherever the weight is not zero
    assert_eq!(sub.g, vec![vec![1], vec![2], vec![]]);
    assert!(sub.check());
}

#[test]
fn seed_keeps_the_order_of_the_best_ordering() {
    // best ordering 3, 1, 0, 2; the part holds 0, 1 and 3
    let inv = inverse_permutation(&vec![3, 1, 0, 2]);
    assert_eq!(seed_ordering(&vec![0, 1, 3], &inv), vec![2, 1, 0]);
    assert_eq!(seed_ordering(&vec![3, 0], &inv), vec![0, 1]);
}

#[test]
fn split_along_frequent_edges() {
    let scc = square();
    // the edges 0 -> 1 and 2 -> 3 were borne out, the others not
    let freq = vec![vec![0, 9, 0, 0], vec![0, 0, 1, 0], vec![0, 0, 0, 9], vec![1, 0, 0, 0]];
    let source = AtomicBool::new(false);
    let mut abort = AbortFlag::new(&source);
    let (fine, vals, perms) = split_component(&scc, &freq, 3, &vec![2, 3, 0, 1], &mut abort);
    // no cycle is left: four parts, in topological order of the kept edges
    assert_eq!(fine.len(), 4);
    let labels: Vec<Vec<usize>> = fine.iter().map(|s| s.labels.clone()).collect();
    assert_eq!(labels, vec![vec![42], vec![43], vec![40], vec![41]]);
    assert_eq!(vals, vec![0, 0, 0, 0]);
    assert_eq!(perms, vec![vec![0], vec![0], vec![0], vec![0]]);
}

#[test]
fn split_keeps_what_stays_connected() {
    let scc = square();
    let freq = vec![vec![9u64; 4]; 4];
    let source = AtomicBool::new(false);
    let mut abort = AbortFlag::new(&source);
    let (fine, vals, perms) = split_component(&scc, &freq, 3, &vec![2, 3, 0, 1], &mut abort);
    assert_eq!(fine.len(), 1);
    assert_eq!(fine[0].labels, vec![40, 41, 42, 43]);
    assert_eq!(fine[0].w, scc.w);
    // the seed is the best ordering: 2, 3, 0, 1 costs w[3][2] + w[0][2] + w[0][3] + w[1][2] + w[1][3] + w[1][0]
    assert_eq!(perms, vec![vec![2, 3, 0, 1]]);
    assert_eq!(vals, vec![0 + 0 + 0 + 2 + 0 + 0]);
}

#[test]
fn refine_components_lists_the_parts_component_by_component() {
    let sccs = vec![square(), square()];
    let keep = vec![vec![9u64; 4]; 4];
    let cut = vec![vec![0, 9, 0, 0], vec![0, 0, 1, 0], vec![0, 0, 0, 9], vec![1, 0, 0, 0]];
    let samples = Samples {
        freqs: vec![cut, keep],
        cntruns: 90,
        bestval: vec![2, 2],
        bestperm: vec![vec![2, 3, 0, 1], vec![2, 3, 0, 1]],
    };
    let source = AtomicBool::new(false);
    let mut abort = AbortFlag::new(&source);
    let (fine, vals, perms) = refine_components(&sccs, &samples, &mut abort);
    let labels: Vec<Vec<usize>> = fine.iter().map(|s| s.labels.clone()).collect();
    assert_eq!(labels, vec![vec![42], vec![43], vec![40], vec![41], vec![40, 41, 42, 43]]);
    assert_eq!(vals, vec![0, 0, 0, 0, 2]);
    assert_eq!(perms, vec![vec![0], vec![0], vec![0], vec![0], vec![2, 3, 0, 1]]);
}

#[test]
fn harvest_once_aborted_ends_with_an_ordering() {
    let sccs = vec![square()];
    let source = AtomicBool::new(true);
    let mut abort = AbortFlag::new(&source);
    match harvest(&sccs, &mut abort) {
        Err(ordering) => {
            let mut sorted = ordering.clone();
            sorted.sort();
            assert_eq!(sorted, vec![40, 41, 42, 43]);
        }
        Ok(_) => panic!("nothing was sampled"),
    }
}

#[test]
fn sifting_heuristic_once_aborted_orders_each_component_within_itself() {
    let a = square();
    let b = SCC::new(vec![7], vec![vec![0]], vec![vec![]]);
    let c = SCC::new(vec![9, 8], vec![vec![0, 1], vec![1, 0]], vec![vec![1], vec![0]]);
    let sccs = vec![a, b, c];
    let source = AtomicBool::new(true);
    let mut abort = AbortFlag::new(&source);
    let ordering = sifting_heuristic(&no_graph(), &sccs, &mut abort);
    assert_eq!(ordering.len(), 7);
    let mut first = ordering[0..4].to_vec();
    first.sort();
    assert_eq!(first, vec![40, 41, 42, 43]);
    assert_eq!(ordering[4], 7);
    let mut last = ordering[5..7].to_vec();
    last.sort();
    assert_eq!(last, vec![8, 9]);
}

#[test]
fn sifting_heuristic_of_no_components_is_empty() {
    let source = AtomicBool::new(true);
    let mut abort = AbortFlag::new(&source);
    assert_eq!(sifting_heuristic(&no_graph(), &vec![], &mut abort), Vec::<usize>::new());
}

#[test]
fn samples_are_drawn_for_sixty_seconds() {
    assert_eq!(SAMPLING_NANOS, 60 * 1_000_000_000);
    assert!(within_nanos(0));
    assert!(within_nanos(59_999_999_999));
    assert!(within_nanos(60_000_000_000));
    assert!(!within_nanos(60_000_000_001));
    assert!(!within_nanos(u128::MAX));
}

#[test]
fn harvest_once_aborted_ends_with_the_components_in_their_order() {
    let a = SCC::new(vec![5], vec![vec![0]], vec![vec![]]);
    let b = SCC::new(vec![3, 4], vec![vec![0, 2], vec![0, 0]], vec![vec![1], vec![]]);
    let sccs = vec![a, b];
    let source = AtomicBool::new(true);
    let mut abort = AbortFlag::new(&source);
    match harvest(&sccs, &mut abort) {
        Err(ordering) => {
            assert_eq!(ordering.len(), 3);
            assert_eq!(ordering[0], 5);
            let mut rest = ordering[1..3].to_vec();
            rest.sort();
            assert_eq!(rest, vec![3, 4]);
        }
        Ok(_) => panic!("the flag was raised before the first candidate"),
    }
}
