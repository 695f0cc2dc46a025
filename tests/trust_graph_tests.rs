use std::collections::HashMap;

use trust_graph::centrality::{IterationStep, PowerIteration};
use trust_graph::graph::{TrustGraph, TrustRelation};

fn rel(rater: u32, ratee: u32, trust_score: i32) -> TrustRelation {
    TrustRelation { rater, ratee, trust_score }
}

fn sample_graph() -> TrustGraph {
    let mut graph = TrustGraph::new();
    graph.add_relation(rel(1, 2, 10));
    graph.add_relation(rel(2, 3, 20));
    graph.add_relation(rel(1, 3, 15));
    graph
}

fn norm(v: &[f64]) -> f64 {
    v.iter().map(|x| x * x).sum::<f64>().sqrt()
}

/// Power iteration over the library's adjacency matrix, driven by its
/// `PowerIteration` state.
fn centrality(graph: &TrustGraph, max_iter: usize, tolerance: f64) -> (HashMap<u32, f64>, PowerIteration) {
    let m = graph.build_adjacency_matrix();
    let n = m.len();
    let mut estimate = vec![1.0 / n as f64; n];
    let mut state = PowerIteration::new(graph.node_count(), max_iter);
    while state.should_continue() {
        let next: Vec<f64> = (0..n)
            .map(|i| (0..n).map(|j| m[i][j] as f64 * estimate[j]).sum())
            .collect();
        let nrm = norm(&next);
        let normalized: Vec<f64> = if nrm == 0.0 { next.clone() } else { next.iter().map(|x| x / nrm).collect() };
        let diff: Vec<f64> = normalized.iter().zip(&estimate).map(|(a, b)| a - b).collect();
        match state.record(nrm == 0.0, norm(&diff) < tolerance) {
            IterationStep::Halt => {}
            IterationStep::AcceptAndHalt | IterationStep::Accept => estimate = normalized,
        }
    }
    (graph.scores_by_participant(&estimate).into_iter().collect(), state)
}

#[test]
fn test_graph_structure() {
    let graph = sample_graph();
    assert_eq!(graph.node_count(), 3);
    assert!(graph.edge_weight(1, 2).is_some());
    assert!(graph.edge_weight(2, 3).is_some());
}

#[test]
fn test_eigenvector_centrality() {
    let graph = sample_graph();
    let (scores, _) = centrality(&graph, 100, 1e-6);
    assert!(scores.get(&1).is_some());
    assert!(scores.get(&2).is_some());
    assert!(scores.get(&3).is_some());
}

#[test]
fn node_count_counts_distinct_ids() {
    let graph = TrustGraph::from_relations(vec![rel(5, 9, 1), rel(9, 5, -2), rel(5, 5, 3), rel(7, 9, 4)]);
    assert_eq!(graph.node_count(), 3);
    assert_eq!(graph.participant_ids(), vec![5, 9, 7]);
}

#[test]
fn empty_graph_has_nothing() {
    let graph = TrustGraph::new();
    assert_eq!(graph.node_count(), 0);
    assert!(graph.build_adjacency_matrix().is_empty());
    assert!(graph.analyze_mutual_connections().is_empty());
    assert!(graph.find_mutual_trust_score().is_empty());
    let state = PowerIteration::new(0, 100);
    assert!(!state.should_continue());
    let (scores, state) = centrality(&graph, 100, 1e-6);
    assert!(scores.is_empty());
    assert_eq!(state.iterations(), 0);
}

#[test]
fn add_relations_keeps_input_order() {
    let mut graph = TrustGraph::new();
    graph.add_relations(vec![rel(3, 1, 2), rel(2, 3, 4)]);
    assert_eq!(graph.participant_ids(), vec![3, 1, 2]);
    assert_eq!(graph.build_adjacency_matrix(), vec![vec![0, 2, 0], vec![0, 0, 0], vec![4, 0, 0]]);
}

#[test]
fn adjacency_matrix_keeps_last_parallel_edge() {
    let graph = TrustGraph::from_relations(vec![rel(1, 2, 10), rel(1, 2, -4), rel(2, 1, 7)]);
    assert_eq!(graph.build_adjacency_matrix(), vec![vec![0, -4], vec![7, 0]]);
    assert_eq!(graph.edge_weight(1, 2), Some(-4));
    assert_eq!(graph.edge_weight(2, 1), Some(7));
    assert_eq!(graph.edge_weight(2, 2), None);
    assert_eq!(graph.edge_weight(1, 99), None);
}

#[test]
fn neighbors_collapse_parallel_edges() {
    let graph = TrustGraph::from_relations(vec![rel(1, 2, 10), rel(1, 2, 3), rel(1, 1, 1), rel(2, 3, 1)]);
    let mut n = graph.neighbors_of(1);
    n.sort();
    assert_eq!(n, vec![1, 2]);
    assert!(graph.neighbors_of(3).is_empty());
    assert!(graph.neighbors_of(42).is_empty());
}

#[test]
fn mutual_triads_of_sample() {
    let graph = sample_graph();
    let triads = graph.analyze_mutual_connections();
    assert!(triads.is_empty());
    let graph = TrustGraph::from_relations(vec![rel(1, 2, 10), rel(1, 3, 15)]);
    let mut triads = graph.analyze_mutual_connections();
    triads.sort();
    assert_eq!(triads, vec![(1, 2, 3), (1, 3, 2)]);
}

#[test]
fn mutual_triads_need_no_edge_either_way() {
    let graph = TrustGraph::from_relations(vec![rel(1, 2, 1), rel(1, 3, 1), rel(1, 4, 1), rel(3, 2, 1)]);
    let mut triads = graph.analyze_mutual_connections();
    triads.sort();
    assert_eq!(triads, vec![(1, 2, 4), (1, 3, 4), (1, 4, 2), (1, 4, 3)]);
}

#[test]
fn mutual_trust_score_of_sample() {
    let graph = sample_graph();
    let scores: HashMap<(u32, u32), f64> =
        graph.find_mutual_trust_score().into_iter().map(|(a, b, s)| ((a, b), s as f64 / 2.0)).collect();
    assert_eq!(scores.get(&(2, 3)), Some(&12.5));
    assert_eq!(scores.get(&(3, 2)), Some(&12.5));
    assert_eq!(scores.len(), 2);
}

#[test]
fn mutual_trust_score_last_center_wins() {
    // both 1 and 4 rate 2 and 3; 4 is seen after 1
    let graph = TrustGraph::from_relations(vec![rel(1, 2, 10), rel(1, 3, 20), rel(4, 2, -6), rel(4, 3, 2)]);
    let mut entries = graph.find_mutual_trust_score();
    entries.sort();
    assert_eq!(entries, vec![(2, 3, -4), (3, 2, -4)]);
}

#[test]
fn mutual_trust_score_uses_last_parallel_edge() {
    let graph = TrustGraph::from_relations(vec![rel(1, 2, 10), rel(1, 3, 20), rel(1, 2, 30)]);
    let mut entries = graph.find_mutual_trust_score();
    entries.sort();
    assert_eq!(entries, vec![(2, 3, 50), (3, 2, 50)]);
}

#[test]
fn isolated_node_keeps_uniform_score() {
    let graph = TrustGraph::from_relations(vec![rel(7, 7, 0)]);
    assert_eq!(graph.build_adjacency_matrix(), vec![vec![0]]);
    let (scores, state) = centrality(&graph, 100, 1e-6);
    assert_eq!(state.iterations(), 1);
    assert!(!state.converged());
    assert_eq!(scores.get(&7), Some(&1.0));
}

#[test]
fn single_edge_terminates_with_two_scores() {
    let graph = TrustGraph::from_relations(vec![rel(1, 2, 5)]);
    let (scores, state) = centrality(&graph, 100, 1e-6);
    assert!(state.iterations() <= 100);
    assert!(!state.should_continue());
    assert_eq!(scores.len(), 2);
    assert!(scores.contains_key(&1) && scores.contains_key(&2));
}

#[test]
fn iteration_steps() {
    let mut state = PowerIteration::new(3, 2);
    assert_eq!(state.record(false, false), IterationStep::Accept);
    assert!(state.should_continue());
    assert_eq!(state.record(false, true), IterationStep::AcceptAndHalt);
    assert!(state.converged());
    assert!(!state.should_continue());
    let mut state = PowerIteration::new(3, 1);
    assert_eq!(state.record(true, true), IterationStep::Halt);
    assert!(!state.converged());
    let mut state = PowerIteration::new(3, 1);
    assert_eq!(state.record(false, false), IterationStep::Accept);
    assert!(!state.should_continue());
    assert_eq!(state.iterations(), 1);
}

#[test]
fn converging_graph_stops_within_tolerance() {
    // a two-cycle with equal weights: the uniform start is already an eigenvector
    let graph = TrustGraph::from_relations(vec![rel(1, 2, 3), rel(2, 1, 3)]);
    let (scores, state) = centrality(&graph, 100, 1e-6);
    assert!(state.converged());
    assert_eq!(state.iterations(), 2);
    let s = (0.5f64).sqrt();
    assert!((scores[&1] - s).abs() < 1e-9 && (scores[&2] - s).abs() < 1e-9);
}

#[test]
fn scores_follow_internal_index() {
    let graph = TrustGraph::from_relations(vec![rel(9, 4, 1)]);
    assert_eq!(graph.scores_by_participant(&vec!['a', 'b']), vec![(9, 'a'), (4, 'b')]);
}

#[test]
fn centrality_is_deterministic() {
    let graph = TrustGraph::from_relations(vec![rel(1, 2, 4), rel(2, 3, -1), rel(3, 1, 2), rel(1, 3, 5)]);
    let (first, s1) = centrality(&graph, 50, 1e-9);
    let (second, s2) = centrality(&graph, 50, 1e-9);
    assert_eq!(first, second);
    assert_eq!(s1.iterations(), s2.iterations());
    assert_eq!(graph.build_adjacency_matrix(), graph.build_adjacency_matrix());
}

#[test]
fn trusted_transactions_follow_reachable_raters() {
    let graph = TrustGraph::from_relations(vec![
        rel(1, 2, 5),
        rel(2, 3, -1),
        rel(3, 4, 2),
        rel(5, 1, 3),
        rel(4, 2, 0),
    ]);
    let mut seen = graph.bfs_trusted_transactions(1);
    seen.sort();
    assert_eq!(seen, vec![(1, 2), (3, 4)]);
    let mut from_five = graph.bfs_trusted_transactions(5);
    from_five.sort();
    assert_eq!(from_five, vec![(1, 2), (3, 4), (5, 1)]);
    assert_eq!(graph.bfs_trusted_transactions(4), vec![(3, 4)]);
    assert!(graph.bfs_trusted_transactions(99).is_empty());
}
