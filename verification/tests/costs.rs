use std::sync::atomic::AtomicBool;

use sisyphus::cost::{checked_row_sum, checked_total};
use sisyphus::global_abort::AbortFlag;
use sisyphus::scc::SCC;
use sisyphus::sifting::{
    eval_ordering_scc, get_inv_w, get_min, insert_cost_per_pos, map_to_original_labels,
    pick_candidates, position_of, remove_value,
};

fn triangle() -> SCC {
    let w = vec![vec![0, 1, 4], vec![2, 0, 5], vec![3, 6, 0]];
    let g = vec![vec![1, 2], vec![0, 2], vec![0, 1]];
    SCC::new(vec![10, 11, 12], w, g)
}

fn transpose(w: &Vec<Vec<u64>>) -> Vec<Vec<u64>> {
    let n = w.len();
    let mut d = vec![vec![0u64; n]; n];
    for a in 0..n {
        for b in 0..n {
            d[a][b] = w[b][a];
        }
    }
    d
}

#[test]
fn scc_new_takes_its_size_from_the_labels() {
    let scc = triangle();
    assert_eq!(scc.n, 3);
    assert_eq!(scc.labels, vec![10, 11, 12]);
    assert!(scc.check());
}

#[test]
fn scc_check_refuses_a_ragged_matrix() {
    let scc = SCC::new(vec![0, 1], vec![vec![0, 1], vec![1]], vec![vec![], vec![]]);
    assert!(!scc.check());
}

#[test]
fn scc_check_refuses_a_weight_on_the_diagonal() {
    let scc = SCC::new(vec![0, 1], vec![vec![0, 1], vec![1, 7]], vec![vec![], vec![]]);
    assert!(!scc.check());
}

#[test]
fn scc_check_refuses_an_edge_to_nowhere() {
    let scc = SCC::new(vec![0, 1], vec![vec![0, 1], vec![1, 0]], vec![vec![2], vec![]]);
    assert!(!scc.check());
}

#[test]
fn scc_check_refuses_weights_that_do_not_fit() {
    let big = u64::MAX / 2;
    let scc = SCC::new(vec![0, 1], vec![vec![0, big], vec![big, 0]], vec![vec![], vec![]]);
    // the two weights sum to u64::MAX - 1, which is kept for an interrupted evaluation
    assert!(!scc.check());
    let scc = SCC::new(vec![0, 1], vec![vec![0, big], vec![big - 1, 0]], vec![vec![], vec![]]);
    assert!(scc.check());
}

#[test]
fn checked_sums() {
    assert_eq!(checked_row_sum(&vec![1, 2, 3]), Some(6));
    assert_eq!(checked_row_sum(&vec![]), Some(0));
    assert_eq!(checked_row_sum(&vec![u64::MAX, 1]), None);
    assert_eq!(checked_total(&vec![vec![1, 2], vec![3, 4]]), Some(10));
    assert_eq!(checked_total(&vec![vec![u64::MAX], vec![1]]), None);
}

#[test]
fn transposes_from_get_inv_w() {
    let sccs = vec![triangle()];
    let source = AtomicBool::new(false);
    let mut abort = AbortFlag::new(&source);
    let inv = get_inv_w(&sccs, &mut abort);
    assert_eq!(inv, vec![vec![vec![0, 2, 3], vec![1, 0, 6], vec![4, 5, 0]]]);
}

#[test]
fn get_inv_w_returns_nothing_once_aborted() {
    let sccs = vec![triangle()];
    let source = AtomicBool::new(true);
    let mut abort = AbortFlag::new(&source);
    let inv = get_inv_w(&sccs, &mut abort);
    assert!(inv.is_empty());
}

#[test]
fn insert_cost_at_every_position() {
    let scc = triangle();
    let diffs = transpose(&scc.w);
    let cost = insert_cost_per_pos(&scc, &diffs, &vec![0, 1], 2);
    // before both: w[0][2] + w[1][2]; between: w[2][0] + w[1][2]; after both: w[2][0] + w[2][1]
    assert_eq!(cost, vec![4 + 5, 3 + 5, 3 + 6]);
}

#[test]
fn insert_cost_into_the_empty_ordering_is_zero() {
    let scc = triangle();
    let diffs = transpose(&scc.w);
    assert_eq!(insert_cost_per_pos(&scc, &diffs, &vec![], 1), vec![0]);
}

#[test]
fn insert_cost_boundary_identity() {
    let scc = triangle();
    let diffs = transpose(&scc.w);
    let pi = vec![2, 0];
    let v = 1;
    let cost = insert_cost_per_pos(&scc, &diffs, &pi, v);
    let at_end: u64 = pi.iter().map(|&k| scc.w[v][k]).sum();
    let at_front: u64 = pi.iter().map(|&k| scc.w[k][v]).sum();
    assert_eq!(cost[pi.len()], at_end);
    assert_eq!(cost[0], at_front);
    assert_eq!(at_end, 5 + 2);
    assert_eq!(at_front, 6 + 1);
}

#[test]
fn get_min_lists_every_minimum() {
    let (m, at) = get_min(&vec![7, 3, 9, 3, 3, 8]);
    assert_eq!(m, 3);
    assert_eq!(at, vec![1, 3, 4]);
}

#[test]
fn get_min_of_one_value() {
    assert_eq!(get_min(&vec![5]), (5, vec![0]));
}

#[test]
fn eval_counts_each_later_vertex_against_each_earlier_one() {
    let scc = triangle();
    let source = AtomicBool::new(false);
    let mut abort = AbortFlag::new(&source);
    assert_eq!(eval_ordering_scc(&vec![0, 1, 2], &scc, &mut abort), 2 + 3 + 6);
    assert_eq!(eval_ordering_scc(&vec![2, 1, 0], &scc, &mut abort), 5 + 4 + 1);
    assert_eq!(eval_ordering_scc(&vec![1, 2, 0], &scc, &mut abort), 6 + 1 + 4);
}

#[test]
fn eval_returns_the_sentinel_once_aborted() {
    let scc = triangle();
    let source = AtomicBool::new(true);
    let mut abort = AbortFlag::new(&source);
    assert_eq!(eval_ordering_scc(&vec![0, 1, 2], &scc, &mut abort), u64::MAX - 1);
}

#[test]
fn eval_of_the_empty_component_is_zero_even_when_aborted() {
    let scc = SCC::new(vec![], vec![], vec![]);
    let source = AtomicBool::new(true);
    let mut abort = AbortFlag::new(&source);
    assert_eq!(eval_ordering_scc(&vec![], &scc, &mut abort), 0);
}

#[test]
fn eval_equals_the_insertion_costs_paid() {
    // build 1, 2, 0 by insertions and add up what each insertion cost
    let scc = triangle();
    let diffs = transpose(&scc.w);
    let source = AtomicBool::new(false);
    let mut abort = AbortFlag::new(&source);
    let mut pi: Vec<usize> = Vec::new();
    let mut paid = 0;
    for (v, at) in [(2usize, 0usize), (0, 1), (1, 0)] {
        let cost = insert_cost_per_pos(&scc, &diffs, &pi, v);
        paid += cost[at];
        pi.insert(at, v);
    }
    assert_eq!(pi, vec![1, 2, 0]);
    assert_eq!(eval_ordering_scc(&pi, &scc, &mut abort), paid);
}

#[test]
fn removing_and_reinserting_at_the_same_place_changes_nothing() {
    let pi = vec![3, 0, 2, 1];
    for p in 0..pi.len() {
        let mut q = pi.clone();
        let v = q.remove(p);
        q.insert(p, v);
        assert_eq!(q, pi);
    }
}

#[test]
fn labels_are_mapped_component_by_component() {
    let a = triangle();
    let b = SCC::new(vec![7, 5], vec![vec![0, 0], vec![0, 0]], vec![vec![], vec![]]);
    let out = map_to_original_labels(&vec![vec![2, 0, 1], vec![1, 0]], &vec![a, b]);
    assert_eq!(out, vec![12, 10, 11, 5, 7]);
}

#[test]
fn remove_value_drops_every_occurrence() {
    assert_eq!(remove_value(&vec![4, 1, 4, 2], 4), vec![1, 2]);
    assert_eq!(remove_value(&vec![1, 2], 9), vec![1, 2]);
}

#[test]
fn position_of_finds_the_first_occurrence() {
    assert_eq!(position_of(&vec![5, 3, 5], 5), Some(0));
    assert_eq!(position_of(&vec![5, 3, 5], 3), Some(1));
    assert_eq!(position_of(&vec![5, 3, 5], 4), None);
}

#[test]
fn candidates_leave_the_old_position_out_when_there_is_another() {
    // minima at 0, 2 and 3; the vertex came from 2
    assert_eq!(pick_candidates(&vec![1, 5, 1, 1], 2), (1, vec![0, 3]));
    // the vertex came from 1, which is no minimum
    assert_eq!(pick_candidates(&vec![1, 5, 1, 1], 1), (1, vec![0, 2, 3]));
    // the old position is the only minimum
    assert_eq!(pick_candidates(&vec![4, 5, 1, 3], 2), (1, vec![2]));
}

#[test]
fn insert_cost_among_repeated_vertices() {
    let scc = triangle();
    let diffs = transpose(&scc.w);
    // vertex 1 against the list 0, 0, 1, which holds it and holds 0 twice
    let pi = vec![0, 0, 1];
    let cost = insert_cost_per_pos(&scc, &diffs, &pi, 1);
    assert_eq!(cost, vec![1 + 1 + 0, 2 + 1 + 0, 2 + 2 + 0, 2 + 2 + 0]);
    let at_end: u64 = pi.iter().map(|&k| scc.w[1][k]).sum();
    let at_front: u64 = pi.iter().map(|&k| scc.w[k][1]).sum();
    assert_eq!(cost[pi.len()], at_end);
    assert_eq!(cost[0], at_front);
}
