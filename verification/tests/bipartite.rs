use sisyphus::bipartite_graph::BipartiteGraph;
use sisyphus::input::{adjacency_lists, repeat_each, same_list, sorted_copy};
use sisyphus::permutation::check_permutation;

#[test]
fn from_edges_gathers_sorted_neighbours() {
    let g = BipartiteGraph::from_edges(4, 3, &vec![(3, 0), (1, 2), (0, 0), (2, 1), (1, 0)]).unwrap();
    assert_eq!(g.n0, 4);
    assert_eq!(g.n1, 3);
    assert_eq!(g.adjs, vec![vec![0, 1, 3], vec![2], vec![1]]);
    assert_eq!(g.ids, vec![vec![0], vec![1], vec![2]]);
    assert_eq!(g.isolated, Vec::<usize>::new());
}

#[test]
fn from_edges_sets_isolated_vertices_apart() {
    let g = BipartiteGraph::from_edges(2, 5, &vec![(1, 3), (0, 1)]).unwrap();
    assert_eq!(g.isolated, vec![0, 2, 4]);
    assert_eq!(g.n1, 2);
    assert_eq!(g.adjs, vec![vec![0], vec![1]]);
    assert_eq!(g.ids, vec![vec![1], vec![3]]);
}

#[test]
fn from_edges_merges_twins() {
    // free vertices 0, 2 and 3 have the neighbours 0 and 2
    let edges = vec![(0, 0), (2, 0), (1, 1), (2, 2), (0, 2), (0, 3), (2, 3)];
    let g = BipartiteGraph::from_edges(3, 4, &edges).unwrap();
    assert_eq!(g.n1, 2);
    assert_eq!(g.ids, vec![vec![0, 2, 3], vec![1]]);
    // each neighbour once for each twin
    assert_eq!(g.adjs, vec![vec![0, 0, 0, 2, 2, 2], vec![1]]);
}

#[test]
fn from_edges_keeps_parallel_edges() {
    let g = BipartiteGraph::from_edges(2, 2, &vec![(1, 0), (1, 0), (1, 1)]).unwrap();
    // two edges to 1 are not the same as one
    assert_eq!(g.n1, 2);
    assert_eq!(g.adjs, vec![vec![1, 1], vec![1]]);
}

#[test]
fn from_edges_refuses_what_does_not_fit() {
    assert!(BipartiteGraph::from_edges(2, 2, &vec![(2, 0)]).is_none());
    assert!(BipartiteGraph::from_edges(2, 2, &vec![(0, 2)]).is_none());
    assert!(BipartiteGraph::from_edges(0x1_0000_0000, 1, &vec![]).is_none());
    assert!(BipartiteGraph::from_edges(5, usize::MAX - 5, &vec![]).is_none());
    assert!(BipartiteGraph::from_edges(0, 0, &vec![]).is_some());
}

#[test]
fn pair_crossing_number_counts_inversions() {
    let g = BipartiteGraph::from_edges(4, 2, &vec![(1, 0), (3, 0), (0, 1), (2, 1)]).unwrap();
    // neighbours 1, 3 before neighbours 0, 2: 1 > 0, 3 > 0, 3 > 2
    assert_eq!(g.pair_crossing_number(0, 1), 3);
    // the other way round: 2 > 1
    assert_eq!(g.pair_crossing_number(1, 0), 1);
    assert_eq!(g.pair_crossing_number(0, 0), 1);
}

#[test]
fn pair_crossing_number_counts_twins_with_multiplicity() {
    let edges = vec![(1, 0), (1, 1), (0, 2)];
    let g = BipartiteGraph::from_edges(2, 3, &edges).unwrap();
    assert_eq!(g.ids, vec![vec![0, 1], vec![2]]);
    // both twins cross the edge of the third vertex
    assert_eq!(g.pair_crossing_number(0, 1), 2);
    assert_eq!(g.pair_crossing_number(1, 0), 0);
}

#[test]
fn precedence_graph_prefers_fewer_crossings() {
    let g = BipartiteGraph::from_edges(3, 3, &vec![(2, 0), (1, 1), (0, 2)]).unwrap();
    // each vertex prefers to stand after those with larger numbers
    assert_eq!(g.precedence(), vec![vec![], vec![0], vec![0, 1]]);
}

#[test]
fn reduce_gives_the_components_with_their_weights() {
    // free 0 and 1 want each other first in turn: neighbours 0, 3 and 1, 2
    let edges = vec![(0, 0), (3, 0), (1, 1), (2, 1), (4, 2)];
    let g = BipartiteGraph::from_edges(5, 3, &edges).unwrap();
    assert_eq!(g.pair_crossing_number(0, 1), 2);
    assert_eq!(g.pair_crossing_number(1, 0), 2);
    let sccs = g.reduce();
    // no preference between 0 and 1; both before 2
    let labels: Vec<Vec<usize>> = sccs.iter().map(|s| s.labels.clone()).collect();
    assert_eq!(labels, vec![vec![1], vec![0], vec![2]]);
    for scc in &sccs {
        assert!(scc.check());
        assert_eq!(scc.w, vec![vec![0]]);
    }
}

#[test]
fn reduce_keeps_a_cycle_of_preferences_together() {
    // neighbours 2, 4, 9; 1, 6, 8 and 3, 5, 7: each vertex prefers to stand
    // before one of the others and after the other one
    let edges = vec![(2, 0), (4, 0), (9, 0), (1, 1), (6, 1), (8, 1), (3, 2), (5, 2), (7, 2)];
    let g = BipartiteGraph::from_edges(10, 3, &edges).unwrap();
    let c = |u: usize, v: usize| g.pair_crossing_number(u, v);
    assert_eq!((c(0, 2), c(2, 0)), (4, 5));
    assert_eq!((c(1, 0), c(0, 1)), (4, 5));
    assert_eq!((c(2, 1), c(1, 2)), (4, 5));
    assert_eq!(g.precedence(), vec![vec![2], vec![0], vec![1]]);
    let sccs = g.reduce();
    assert_eq!(sccs.len(), 1);
    let scc = &sccs[0];
    assert_eq!(scc.labels, vec![0, 1, 2]);
    // what i pays for standing after j is the number of crossings with j first
    assert_eq!(scc.w, vec![vec![0, 4, 5], vec![5, 0, 4], vec![4, 5, 0]]);
    assert_eq!(scc.g, vec![vec![2], vec![0], vec![1]]);
    assert!(scc.check());
}

#[test]
fn adjacency_lists_follow_the_order_of_the_edges() {
    let lists = adjacency_lists(3, &vec![(5, 1), (2, 0), (4, 1), (2, 1)]);
    assert_eq!(lists, vec![vec![2], vec![5, 4, 2], vec![]]);
}

#[test]
fn sorted_copy_sorts() {
    assert_eq!(sorted_copy(&vec![5, 1, 4, 1, 0]), vec![0, 1, 1, 4, 5]);
    assert_eq!(sorted_copy(&vec![]), Vec::<usize>::new());
}

#[test]
fn same_list_compares_entry_by_entry() {
    assert!(same_list(&vec![1, 2], &vec![1, 2]));
    assert!(!same_list(&vec![1, 2], &vec![2, 1]));
    assert!(!same_list(&vec![1, 2], &vec![1, 2, 3]));
    assert!(same_list(&vec![], &vec![]));
}

#[test]
fn repeat_each_repeats_in_place() {
    assert_eq!(repeat_each(&vec![3, 7], 3), vec![3, 3, 3, 7, 7, 7]);
    assert_eq!(repeat_each(&vec![3, 7], 0), Vec::<usize>::new());
}

#[test]
fn check_permutation_wants_every_vertex_once() {
    assert!(check_permutation(&vec![2, 0, 1]));
    assert!(check_permutation(&vec![]));
    assert!(!check_permutation(&vec![0, 0, 1]));
    assert!(!check_permutation(&vec![0, 3, 1]));
}

fn small() -> BipartiteGraph {
    BipartiteGraph {
        n0: 3,
        n1: 2,
        adjs: vec![vec![0, 0, 2, 2], vec![1]],
        ids: vec![vec![0, 3], vec![1]],
        isolated: vec![2],
    }
}

#[test]
fn check_accepts_what_from_edges_builds() {
    assert!(small().check());
    let edges = vec![(0, 0), (2, 0), (1, 1), (2, 2), (0, 2), (0, 4), (2, 4)];
    assert!(BipartiteGraph::from_edges(3, 5, &edges).unwrap().check());
    assert!(BipartiteGraph::from_edges(0, 0, &vec![]).unwrap().check());
}

#[test]
fn check_refuses_wrong_sizes() {
    let mut g = small();
    g.n1 = 3;
    assert!(!g.check());
    let mut g = small();
    g.ids.push(vec![4]);
    assert!(!g.check());
}

#[test]
fn check_refuses_a_neighbour_that_does_not_exist() {
    let mut g = small();
    g.adjs[1] = vec![3];
    assert!(!g.check());
}

#[test]
fn check_refuses_neighbours_out_of_order() {
    let mut g = small();
    g.adjs[0] = vec![0, 2, 0, 2];
    assert!(!g.check());
}

#[test]
fn check_refuses_a_vertex_listed_twice_or_not_at_all() {
    let mut g = small();
    g.isolated = vec![3];
    assert!(!g.check());
    let mut g = small();
    g.isolated = vec![4];
    assert!(!g.check());
}
