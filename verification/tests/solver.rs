use std::sync::atomic::AtomicBool;

use sisyphus::bipartite_graph::BipartiteGraph;
use sisyphus::global_abort::AbortFlag;
use sisyphus::heuristic::{assemble, start};

/// The edges of an instance, given as in the input with vertices counted
/// from 1 and the free side after the fixed side.
fn graph(n0: usize, n1: usize, edges: &[(usize, usize)]) -> BipartiteGraph {
    let plain: Vec<(usize, usize)> = edges.iter().map(|&(a, b)| (a - 1, b - n0 - 1)).collect();
    BipartiteGraph::from_edges(n0, n1, &plain).unwrap()
}

fn solve(g: &BipartiteGraph) -> Vec<usize> {
    let source = AtomicBool::new(true);
    let mut abort = AbortFlag::new(&source);
    start(g, &mut abort)
}

#[test]
fn parallel_edges_do_not_cross() {
    let g = graph(2, 2, &[(1, 3), (2, 4)]);
    assert_eq!(solve(&g), vec![3, 4]);
}

#[test]
fn crossing_edges_are_untangled() {
    let g = graph(2, 2, &[(1, 4), (2, 3)]);
    assert_eq!(solve(&g), vec![4, 3]);
}

#[test]
fn fully_connected_vertices_are_twins() {
    let mut edges = Vec::new();
    for a in 1..=3 {
        for b in 4..=6 {
            edges.push((a, b));
        }
    }
    let g = graph(3, 3, &edges);
    assert_eq!(g.n1, 1);
    assert_eq!(solve(&g), vec![4, 5, 6]);
}

#[test]
fn twins_stay_together() {
    let g = graph(2, 3, &[(1, 3), (1, 4), (2, 5)]);
    assert_eq!(solve(&g), vec![3, 4, 5]);
    // the twins 3 and 5 around their neighbour's other end
    let g = graph(2, 3, &[(2, 3), (1, 4), (2, 5)]);
    assert_eq!(solve(&g), vec![4, 3, 5]);
}

#[test]
fn isolated_vertices_come_first_in_their_order() {
    let g = graph(1, 3, &[]);
    assert_eq!(solve(&g), vec![2, 3, 4]);
    let g = graph(2, 4, &[(1, 6), (2, 4)]);
    assert_eq!(solve(&g), vec![3, 5, 6, 4]);
}

#[test]
fn every_free_vertex_appears_once() {
    let mut edges = Vec::new();
    let mut x: u64 = 99;
    for b in 0..40 {
        for _ in 0..(b % 4) {
            x = x.wrapping_mul(6364136223846793005).wrapping_add(1442695040888963407);
            edges.push((((x >> 33) as usize) % 7 + 1, b + 8));
        }
    }
    let g = graph(7, 40, &edges);
    let mut out = solve(&g);
    assert_eq!(out.len(), 40);
    out.sort();
    assert_eq!(out, (8..48).collect::<Vec<usize>>());
}

#[test]
fn assemble_expands_groups_in_the_order_given() {
    let edges = vec![(0, 0), (2, 0), (1, 1), (2, 2), (0, 2), (0, 4), (2, 4)];
    let g = BipartiteGraph::from_edges(3, 5, &edges).unwrap();
    assert_eq!(g.isolated, vec![3]);
    assert_eq!(g.ids, vec![vec![0, 2, 4], vec![1]]);
    assert_eq!(assemble(&g, &vec![1, 0]), vec![3 + 4, 1 + 4, 0 + 4, 2 + 4, 4 + 4]);
    assert_eq!(assemble(&g, &vec![0, 1]), vec![3 + 4, 0 + 4, 2 + 4, 4 + 4, 1 + 4]);
}

#[test]
fn graphs_of_ten_thousand_free_vertices_go_to_the_large_sifter() {
    // free vertex b has the one neighbour b: the order by mean neighbour is 0, 1, 2, ...
    let n = 10_000;
    let edges: Vec<(usize, usize)> = (0..n).map(|b| (b, b)).collect();
    let g = BipartiteGraph::from_edges(n, n, &edges).unwrap();
    assert_eq!(g.n1, n);
    let out = solve(&g);
    assert_eq!(out, (n + 1..2 * n + 1).collect::<Vec<usize>>());
}
