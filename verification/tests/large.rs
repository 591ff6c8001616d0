use std::sync::atomic::AtomicBool;

use sisyphus::bipartite_graph::BipartiteGraph;
use sisyphus::global_abort::AbortFlag;
use sisyphus::heuristic::mean_heuristic;
use sisyphus::sifting_large::{
    best_reinsert, get_crossings, sift_vertex, sifting_large, update_perm_pos,
};
use sisyphus::sifting_very_large::sifting_very_large;

fn reversed_three() -> BipartiteGraph {
    // free vertex b has the one neighbour 2 - b: the order 2, 1, 0 has no crossing
    BipartiteGraph::from_edges(3, 3, &vec![(2, 0), (1, 1), (0, 2)]).unwrap()
}

/// A graph of `n` free vertices with two or three neighbours each, drawn by
/// a fixed recurrence.
fn scattered(n: usize) -> BipartiteGraph {
    let mut edges = Vec::new();
    let mut x: u64 = 12345;
    for b in 0..n {
        for _ in 0..(2 + b % 2) {
            x = x.wrapping_mul(6364136223846793005).wrapping_add(1442695040888963407);
            edges.push((((x >> 33) as usize) % n, b));
        }
    }
    BipartiteGraph::from_edges(n, n, &edges).unwrap()
}

fn crossings(g: &BipartiteGraph, perm: &Vec<usize>) -> u64 {
    let mut total = 0;
    for i in 0..perm.len() {
        for j in (i + 1)..perm.len() {
            total += g.pair_crossing_number(perm[i], perm[j]);
        }
    }
    total
}

fn is_permutation(pi: &Vec<usize>, n: usize) -> bool {
    let mut seen = vec![false; n];
    for &v in pi {
        if v >= n || seen[v] {
            return false;
        }
        seen[v] = true;
    }
    pi.len() == n
}

#[test]
fn mean_heuristic_orders_by_mean_neighbour() {
    let g = BipartiteGraph {
        n0: 5,
        n1: 4,
        adjs: vec![vec![2, 3], vec![0], vec![1, 4], vec![1]],
        ids: vec![vec![0], vec![1], vec![2], vec![3]],
        isolated: vec![],
    };
    // means 2.5, 0, 2.5 and 1; equal means keep their order
    assert_eq!(mean_heuristic(&g), vec![1, 3, 0, 2]);
}

#[test]
fn mean_heuristic_tells_close_means_apart() {
    let g = BipartiteGraph {
        n0: 100,
        n1: 3,
        adjs: vec![vec![33, 33, 34], vec![33, 33, 33, 34], vec![33]],
        ids: vec![vec![0], vec![1], vec![2]],
        isolated: vec![],
    };
    // 100/3, 133/4 and 33
    assert_eq!(mean_heuristic(&g), vec![2, 1, 0]);
}

#[test]
fn crossings_come_from_the_cache_after_the_first_time() {
    let g = reversed_three();
    let mut cm = vec![vec![255u8; 3]; 3];
    assert_eq!(get_crossings(&g, &mut cm, 0, 1), 1);
    assert_eq!(cm[0][1], 1);
    assert_eq!(get_crossings(&g, &mut cm, 1, 0), 0);
    assert_eq!(cm[1][0], 0);
    assert_eq!(get_crossings(&g, &mut cm, 0, 1), 1);
    assert_eq!(cm, vec![vec![255, 1, 255], vec![0, 255, 255], vec![255, 255, 255]]);
}

#[test]
fn crossings_of_255_and_more_are_not_cached() {
    // 16 edges to the last vertex against 16 edges to the first
    let mut edges = Vec::new();
    for _ in 0..16 {
        edges.push((1, 0));
        edges.push((0, 1));
    }
    let g = BipartiteGraph::from_edges(2, 2, &edges).unwrap();
    let mut cm = vec![vec![255u8; 2]; 2];
    assert_eq!(get_crossings(&g, &mut cm, 0, 1), 256);
    assert_eq!(cm[0][1], 255);
    assert_eq!(get_crossings(&g, &mut cm, 0, 1), 256);
    assert_eq!(get_crossings(&g, &mut cm, 1, 0), 0);
    assert_eq!(cm[1][0], 0);
}

#[test]
fn crossings_without_a_cache() {
    let g = reversed_three();
    let mut cm: Vec<Vec<u8>> = Vec::new();
    assert_eq!(get_crossings(&g, &mut cm, 0, 2), 1);
    assert!(cm.is_empty());
}

#[test]
fn swapping_neighbours_keeps_positions_right() {
    let mut perm = vec![2, 0, 3, 1];
    let mut pos = vec![1, 3, 0, 2];
    update_perm_pos(&mut perm, &mut pos, 1);
    assert_eq!(perm, vec![2, 3, 0, 1]);
    assert_eq!(pos, vec![2, 3, 0, 1]);
}

#[test]
fn best_reinsert_scans_upwards_and_downwards() {
    let g = reversed_three();
    let perm = vec![0, 1, 2];
    let mut cm = vec![vec![255u8; 3]; 3];
    let source = AtomicBool::new(false);
    let mut abort = AbortFlag::new(&source);
    // moving the first vertex past each of the others saves one crossing
    assert_eq!(best_reinsert(&g, &perm, &mut cm, 0, 1, 0, &mut abort), (-2, 2));
    assert_eq!(best_reinsert(&g, &perm, &mut cm, 0, 0, 0, &mut abort), (i64::MAX, 0));
    assert_eq!(best_reinsert(&g, &perm, &mut cm, 2, 0, 2, &mut abort), (-2, 0));
    assert_eq!(best_reinsert(&g, &perm, &mut cm, 2, 1, 2, &mut abort), (i64::MAX, 0));
    assert_eq!(best_reinsert(&g, &perm, &mut cm, 1, 1, 1, &mut abort), (-1, 2));
    assert_eq!(best_reinsert(&g, &perm, &mut cm, 1, 0, 1, &mut abort), (-1, 0));
}

#[test]
fn best_reinsert_keeps_the_last_of_equal_minima() {
    let g = reversed_three();
    // in the best order every move adds a crossing
    let perm = vec![2, 1, 0];
    let mut cm = vec![vec![255u8; 3]; 3];
    let source = AtomicBool::new(false);
    let mut abort = AbortFlag::new(&source);
    assert_eq!(best_reinsert(&g, &perm, &mut cm, 0, 1, 0, &mut abort), (1, 1));
    // two twins next to each other cost nothing to pass
    let g = BipartiteGraph {
        n0: 2,
        n1: 3,
        adjs: vec![vec![0], vec![0], vec![0]],
        ids: vec![vec![0], vec![1], vec![2]],
        isolated: vec![],
    };
    let mut cm = vec![vec![255u8; 3]; 3];
    assert_eq!(best_reinsert(&g, &vec![0, 1, 2], &mut cm, 0, 1, 0, &mut abort), (0, 2));
}

#[test]
fn best_reinsert_once_aborted_has_scanned_nothing() {
    let g = reversed_three();
    let mut cm = vec![vec![255u8; 3]; 3];
    let source = AtomicBool::new(true);
    let mut abort = AbortFlag::new(&source);
    assert_eq!(best_reinsert(&g, &vec![0, 1, 2], &mut cm, 0, 1, 0, &mut abort), (i64::MAX, 0));
}

#[test]
fn best_reinsert_stops_at_the_range_limit() {
    // the first vertex has the neighbour 0, the 599 others the neighbour 1:
    // every vertex that it passes adds a crossing
    let n = 600;
    let mut adjs = vec![vec![1usize]; n];
    adjs[0] = vec![0];
    let g = BipartiteGraph {
        n0: 2,
        n1: n,
        adjs,
        ids: (0..n).map(|v| vec![v]).collect(),
        isolated: vec![],
    };
    let perm: Vec<usize> = (0..n).collect();
    let source = AtomicBool::new(false);
    let mut abort = AbortFlag::new(&source);
    // the least gain is that of the first step; 500 steps later the scan stops
    let mut cm = vec![vec![255u8; n]; n];
    assert_eq!(best_reinsert(&g, &perm, &mut cm, 0, 1, 0, &mut abort), (1, 1));
    assert_eq!(cm[501][0], 1);
    assert_eq!(cm[0][501], 0);
    assert_eq!(cm[502][0], 255);
    let mut cm = vec![vec![255u8; n]; n];
    assert_eq!(best_reinsert(&g, &perm, &mut cm, 0, 1, 1, &mut abort), (1, 1));
    assert_eq!(cm[501][0], 1);
    assert_eq!(cm[502][0], 255);
    // in the third mode the limit is 5000 steps: the scan goes to the end
    let mut cm = vec![vec![255u8; n]; n];
    assert_eq!(best_reinsert(&g, &perm, &mut cm, 0, 1, 2, &mut abort), (1, 1));
    assert_eq!(cm[599][0], 1);
}

#[test]
fn best_reinsert_stops_when_the_gain_grows_too_large() {
    // each vertex passed adds 400 crossings: after three steps the gain is
    // beyond 1000
    let n = 10;
    let mut adjs = vec![vec![1usize; 20]; n];
    adjs[0] = vec![0; 20];
    let g = BipartiteGraph {
        n0: 2,
        n1: n,
        adjs,
        ids: (0..n).map(|v| vec![v]).collect(),
        isolated: vec![],
    };
    let perm: Vec<usize> = (0..n).collect();
    let source = AtomicBool::new(false);
    let mut abort = AbortFlag::new(&source);
    let mut cm = vec![vec![255u8; n]; n];
    assert_eq!(best_reinsert(&g, &perm, &mut cm, 0, 1, 0, &mut abort), (400, 1));
    // looked at: positions 1, 2 and 3; the numbers are too large for the cache
    assert_eq!(cm[0][3], 0);
    assert_eq!(cm[3][0], 255);
    assert_eq!(cm[0][4], 255);
    let mut cm = vec![vec![255u8; n]; n];
    assert_eq!(best_reinsert(&g, &perm, &mut cm, 0, 1, 2, &mut abort), (400, 1));
    assert_eq!(cm[0][9], 0);
}

#[test]
fn sift_vertex_moves_to_the_best_place() {
    let g = reversed_three();
    let mut perm = vec![0, 1, 2];
    let mut pos = vec![0, 1, 2];
    let mut cm = vec![vec![255u8; 3]; 3];
    let mut rng = rand::thread_rng();
    let source = AtomicBool::new(false);
    let mut abort = AbortFlag::new(&source);
    assert!(!sift_vertex(&g, &mut perm, &mut pos, &mut cm, 0, 0, &mut rng, &mut abort));
    assert_eq!(perm, vec![1, 2, 0]);
    assert_eq!(pos, vec![2, 0, 1]);
    assert!(!sift_vertex(&g, &mut perm, &mut pos, &mut cm, 2, 0, &mut rng, &mut abort));
    assert_eq!(perm, vec![2, 1, 0]);
    assert_eq!(pos, vec![2, 1, 0]);
    // nothing is left to gain
    assert!(!sift_vertex(&g, &mut perm, &mut pos, &mut cm, 1, 0, &mut rng, &mut abort));
    assert_eq!(perm, vec![2, 1, 0]);
}

#[test]
fn sift_vertex_once_aborted_moves_nothing() {
    let g = reversed_three();
    let mut perm = vec![0, 1, 2];
    let mut pos = vec![0, 1, 2];
    let mut cm = vec![vec![255u8; 3]; 3];
    let mut rng = rand::thread_rng();
    let source = AtomicBool::new(true);
    let mut abort = AbortFlag::new(&source);
    assert!(sift_vertex(&g, &mut perm, &mut pos, &mut cm, 0, 0, &mut rng, &mut abort));
    assert_eq!(perm, vec![0, 1, 2]);
}

#[test]
fn sweeps_never_add_crossings_to_the_mean_ordering() {
    let g = scattered(60);
    let n = g.n1;
    let mut perm = mean_heuristic(&g);
    let baseline = crossings(&g, &perm);
    let mut pos = vec![0; n];
    for i in 0..n {
        pos[perm[i]] = i;
    }
    let mut cm = vec![vec![255u8; n]; n];
    let mut rng = rand::thread_rng();
    let source = AtomicBool::new(false);
    let mut abort = AbortFlag::new(&source);
    let mut last = baseline;
    for sweep in 0..6 {
        for vert in 0..n {
            sift_vertex(&g, &mut perm, &mut pos, &mut cm, vert, sweep % 3, &mut rng, &mut abort);
            let now = crossings(&g, &perm);
            assert!(now <= last);
            last = now;
        }
    }
    assert!(is_permutation(&perm, n));
    for i in 0..n {
        assert_eq!(pos[perm[i]], i);
    }
    assert!(last <= baseline);
}

#[test]
fn sifting_large_once_aborted_returns_the_mean_ordering() {
    let g = scattered(40);
    let source = AtomicBool::new(true);
    let mut abort = AbortFlag::new(&source);
    assert_eq!(sifting_large(&g, &mut abort), mean_heuristic(&g));
}

#[test]
fn sifting_very_large_once_aborted_returns_the_mean_ordering() {
    let g = scattered(40);
    let source = AtomicBool::new(true);
    let mut abort = AbortFlag::new(&source);
    assert_eq!(sifting_very_large(&g, &mut abort), mean_heuristic(&g));
}

#[test]
fn sifting_without_free_vertices_ends_when_the_flag_is_raised() {
    let g = BipartiteGraph::from_edges(3, 0, &vec![]).unwrap();
    let source = AtomicBool::new(true);
    let mut abort = AbortFlag::new(&source);
    assert_eq!(sifting_large(&g, &mut abort), Vec::<usize>::new());
    assert_eq!(sifting_very_large(&g, &mut abort), Vec::<usize>::new());
}
