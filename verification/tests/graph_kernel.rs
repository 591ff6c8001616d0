use sisyphus::graph::{compute_sccs, get_subgraph, reversed, top_ordering};

fn two_cycles() -> Vec<Vec<usize>> {
    // 0 -> 1 -> 2 -> 0, 2 -> 3, 3 <-> 4
    vec![vec![1], vec![2], vec![0, 3], vec![4], vec![3]]
}

#[test]
fn subgraph_keeps_edges_inside_the_subset() {
    let h = get_subgraph(&two_cycles(), &vec![2, 3, 0]);
    assert_eq!(h, vec![vec![2, 1], vec![], vec![]]);
}

#[test]
fn subgraph_keeps_neighbour_order() {
    let g = vec![vec![3, 1, 2], vec![], vec![], vec![]];
    let h = get_subgraph(&g, &vec![0, 2, 3]);
    assert_eq!(h, vec![vec![2, 1], vec![], vec![]]);
}

#[test]
fn subgraph_of_nothing_is_empty() {
    let h = get_subgraph(&two_cycles(), &vec![]);
    assert_eq!(h, Vec::<Vec<usize>>::new());
}

#[test]
fn subgraph_with_a_repeated_vertex_uses_its_last_position() {
    let g = vec![vec![1], vec![0]];
    let h = get_subgraph(&g, &vec![0, 1, 0]);
    // vertex 0 is known under its last position, 2
    assert_eq!(h, vec![vec![1], vec![2], vec![1]]);
}

#[test]
fn top_ordering_of_a_dag() {
    // 0 -> 2, 1 -> 2, 2 -> 3
    let g = vec![vec![2], vec![2], vec![3], vec![]];
    assert_eq!(top_ordering(&g), vec![1, 0, 2, 3]);
}

#[test]
fn top_ordering_follows_adjacency_order() {
    // from 0 first into 2, then into 1
    let g = vec![vec![2, 1], vec![], vec![]];
    // left in the order 2, 1, 0
    assert_eq!(top_ordering(&g), vec![0, 1, 2]);
}

#[test]
fn top_ordering_with_cycles_is_reverse_postorder() {
    assert_eq!(top_ordering(&two_cycles()), vec![0, 1, 2, 3, 4]);
}

#[test]
fn top_ordering_of_the_empty_graph() {
    assert_eq!(top_ordering(&vec![]), Vec::<usize>::new());
}

#[test]
fn top_ordering_of_a_long_path_needs_no_deep_recursion() {
    let n = 200_000;
    let mut g: Vec<Vec<usize>> = Vec::new();
    for u in 0..n {
        if u + 1 < n {
            g.push(vec![u + 1]);
        } else {
            g.push(vec![]);
        }
    }
    let ord = top_ordering(&g);
    assert_eq!(ord.len(), n);
    for u in 0..n {
        assert_eq!(ord[u], u);
    }
}

#[test]
fn sccs_of_two_cycles() {
    assert_eq!(compute_sccs(&two_cycles()), vec![vec![0, 1, 2], vec![3, 4]]);
}

#[test]
fn sccs_come_in_topological_order() {
    // 2 -> 1 -> 0: sources first
    let g = vec![vec![], vec![0], vec![1]];
    assert_eq!(compute_sccs(&g), vec![vec![2], vec![1], vec![0]]);
}

#[test]
fn sccs_of_a_dag_are_single_vertices() {
    let g = vec![vec![2], vec![2], vec![3], vec![]];
    assert_eq!(compute_sccs(&g), vec![vec![1], vec![0], vec![2], vec![3]]);
}

#[test]
fn sccs_of_one_big_cycle() {
    let n = 100_000;
    let mut g: Vec<Vec<usize>> = Vec::new();
    for u in 0..n {
        g.push(vec![(u + 1) % n]);
    }
    let sccs = compute_sccs(&g);
    assert_eq!(sccs.len(), 1);
    assert_eq!(sccs[0].len(), n);
    assert_eq!(sccs[0][0], 0);
    assert_eq!(sccs[0][n - 1], n - 1);
}

#[test]
fn sccs_partition_the_vertices() {
    let g = vec![vec![1, 4], vec![2], vec![1], vec![0], vec![5], vec![4], vec![]];
    let sccs = compute_sccs(&g);
    let mut seen = vec![0; g.len()];
    for scc in &sccs {
        for &v in scc {
            seen[v] += 1;
        }
    }
    assert_eq!(seen, vec![1; g.len()]);
    // every edge leads to the same or a later component
    let mut of = vec![0; g.len()];
    for (c, scc) in sccs.iter().enumerate() {
        for &v in scc {
            of[v] = c;
        }
    }
    for u in 0..g.len() {
        for &v in &g[u] {
            assert!(of[u] <= of[v]);
        }
    }
    assert_eq!(sccs, vec![vec![6], vec![3], vec![0], vec![4, 5], vec![1, 2]]);
}

#[test]
fn reversed_turns_a_list_round() {
    assert_eq!(reversed(&vec![4, 7, 1]), vec![1, 7, 4]);
    assert_eq!(reversed(&vec![]), Vec::<usize>::new());
}
