use graph_centrality::betweenness::{
    accumulation_steps, augmented_traversal, betweenness_normalizer, betweenness_plan, Step,
};
use graph_centrality::closeness::{
    calculate_closeness_centrality, closeness_before_scaling, reachability_sums, Ratio,
};
use graph_centrality::graph::Graph;
use graph_centrality::selector::{get_highest_centrality_indices, highest_score_index};
use graph_centrality::traversal::{bfs_shortest_path, breadth_first_search, neighbor_across};

fn graph_of(labels: &[&str], edges: &[(usize, usize)]) -> Graph {
    let mut graph = Graph::new();
    for label in labels {
        graph.add_node(label.to_string());
    }
    for &(a, b) in edges {
        assert_eq!(graph.add_edge(labels[a], labels[b]), Ok(()));
    }
    graph
}

fn closeness_of(graph: &Graph) -> Vec<f64> {
    calculate_closeness_centrality(graph)
        .iter()
        .map(|score| score.num as f64 / score.den as f64)
        .collect()
}

fn betweenness_of(graph: &Graph) -> Vec<f64> {
    let n = graph.nodes().len();
    let plan = betweenness_plan(graph);
    let mut scores = vec![0.0; n];
    for (source, steps) in plan.passes.iter().enumerate() {
        let mut paths = vec![0.0; n];
        let mut dependencies = vec![0.0; n];
        paths[source] = 1.0;
        for step in steps {
            match *step {
                Step::Count { from, to } => paths[to] += paths[from],
                Step::Pass { from, to } => {
                    dependencies[to] += (paths[to] / paths[from]) * (1.0 + dependencies[from])
                }
                Step::Credit { node } => scores[node] += dependencies[node],
            }
        }
    }
    if let Some(divisor) = plan.divisor {
        for score in scores.iter_mut() {
            *score /= divisor as f64;
        }
    }
    scores
}

fn ranks(scores: &[f64]) -> Vec<u64> {
    scores
        .iter()
        .map(|score| {
            assert!(*score >= 0.0);
            score.to_bits()
        })
        .collect()
}

#[test]
fn test_closeness_centrality() {
    let graph = graph_of(&["Node1", "Node2"], &[(0, 1)]);

    let closeness = closeness_of(&graph);

    assert_eq!(closeness.len(), 2, "Closeness centrality should have two values.");
    assert!(closeness[0] > 0.0, "Node1 should have non-zero closeness centrality.");
    assert!(closeness[1] > 0.0, "Node2 should have non-zero closeness centrality.");
}

#[test]
fn test_betweenness_centrality() {
    let graph = graph_of(&["Node1", "Node2"], &[(0, 1)]);

    let betweenness = betweenness_of(&graph);

    assert_eq!(betweenness.len(), 2, "Betweenness centrality should have two values.");
    assert_eq!(betweenness[0], 0.0, "Node1 should have zero betweenness centrality.");
    assert_eq!(betweenness[1], 0.0, "Node2 should have zero betweenness centrality.");
}

#[test]
fn test_get_highest_centrality_indices() {
    let graph = graph_of(&["Node1", "Node2", "Node3"], &[(0, 1), (1, 2)]);

    let closeness = closeness_of(&graph);
    let betweenness = betweenness_of(&graph);
    let (max_closeness, max_betweenness) =
        get_highest_centrality_indices(&graph, &ranks(&closeness), &ranks(&betweenness));

    assert_eq!(max_closeness, Some(1), "Node2 should have the highest closeness centrality.");
    assert_eq!(max_betweenness, Some(1), "Node2 should have the highest betweenness centrality.");
}

#[test]
fn centrality_test_centrality_measures() {
    let graph = graph_of(&["Node1", "Node2"], &[(0, 1)]);

    let closeness = calculate_closeness_centrality(&graph);
    assert_eq!(closeness.len(), 2, "Closeness centrality should have two values.");
}

#[test]
fn main_test_centrality_measures() {
    let graph = graph_of(&["Node1", "Node2"], &[(0, 1)]);

    let closeness = calculate_closeness_centrality(&graph);
    assert_eq!(closeness.len(), 2, "Closeness centrality should have two values.");
}

#[test]
fn vectors_are_as_long_as_the_node_list() {
    for n in 0..6usize {
        let labels: Vec<String> = (0..n).map(|i| format!("n{}", i)).collect();
        let names: Vec<&str> = labels.iter().map(|label| label.as_str()).collect();
        let edges: Vec<(usize, usize)> = (1..n).map(|i| (i - 1, i)).collect();
        let graph = graph_of(&names, &edges);
        assert_eq!(closeness_of(&graph).len(), n);
        assert_eq!(betweenness_of(&graph).len(), n);
        assert_eq!(graph.nodes().len(), n);
    }
}

#[test]
fn two_nodes_one_edge() {
    let graph = graph_of(&["a", "b"], &[(0, 1)]);
    assert_eq!(closeness_of(&graph), vec![1.0, 1.0]);
    assert_eq!(betweenness_of(&graph), vec![0.0, 0.0]);
    assert_eq!(
        calculate_closeness_centrality(&graph),
        vec![Ratio { num: 1, den: 1 }, Ratio { num: 1, den: 1 }]
    );
}

#[test]
fn middle_of_a_path_scores_highest() {
    let graph = graph_of(&["a", "b", "c"], &[(0, 1), (1, 2)]);
    let closeness = closeness_of(&graph);
    let betweenness = betweenness_of(&graph);
    assert!(closeness[1] > closeness[0] && closeness[1] > closeness[2]);
    assert!(betweenness[1] > betweenness[0] && betweenness[1] > betweenness[2]);
    assert_eq!(highest_score_index(&ranks(&closeness)), Some(1));
    assert_eq!(highest_score_index(&ranks(&betweenness)), Some(1));
    assert_eq!(
        calculate_closeness_centrality(&graph),
        vec![Ratio { num: 4, den: 6 }, Ratio { num: 4, den: 4 }, Ratio { num: 4, den: 6 }]
    );
    assert_eq!(betweenness, vec![0.0, 2.0, 0.0]);
}

#[test]
fn single_isolated_node() {
    let graph = graph_of(&["a"], &[]);
    assert_eq!(closeness_of(&graph), vec![0.0]);
    assert_eq!(betweenness_of(&graph), vec![0.0]);
    assert_eq!(calculate_closeness_centrality(&graph), vec![Ratio { num: 0, den: 1 }]);
    let plan = betweenness_plan(&graph);
    assert!(plan.passes.is_empty());
    assert_eq!(plan.divisor, None);
}

#[test]
fn empty_graph_has_no_scores() {
    let graph = Graph::new();
    assert!(calculate_closeness_centrality(&graph).is_empty());
    assert!(betweenness_plan(&graph).passes.is_empty());
    assert!(betweenness_of(&graph).is_empty());
    assert_eq!(get_highest_centrality_indices(&graph, &[], &[]), (None, None));
}

#[test]
fn graph_without_edges_scores_zero() {
    let graph = graph_of(&["a", "b", "c"], &[]);
    assert_eq!(closeness_of(&graph), vec![0.0, 0.0, 0.0]);
    assert_eq!(betweenness_of(&graph), vec![0.0, 0.0, 0.0]);
}

#[test]
fn distances_are_hop_counts() {
    let graph = graph_of(&["a", "b", "c", "d", "e", "f"], &[(0, 1), (2, 1), (2, 3), (0, 3), (3, 4)]);
    assert_eq!(
        bfs_shortest_path(&graph, 0),
        vec![Some(0), Some(1), Some(2), Some(1), Some(2), None]
    );
    assert_eq!(
        bfs_shortest_path(&graph, 4),
        vec![Some(2), Some(3), Some(2), Some(1), Some(0), None]
    );
    assert_eq!(bfs_shortest_path(&graph, 5), vec![None, None, None, None, None, Some(0)]);
}

#[test]
fn distances_ignore_loops_and_repeated_edges() {
    let graph = graph_of(&["a", "b", "c"], &[(0, 0), (0, 1), (1, 0), (0, 1), (1, 2), (2, 2)]);
    assert_eq!(bfs_shortest_path(&graph, 0), vec![Some(0), Some(1), Some(2)]);
}

#[test]
fn distances_are_symmetric() {
    let graph = graph_of(
        &["a", "b", "c", "d", "e", "f", "g"],
        &[(0, 1), (1, 2), (2, 0), (2, 3), (3, 4), (5, 6), (4, 4)],
    );
    let n = graph.nodes().len();
    let all: Vec<Vec<Option<usize>>> = (0..n).map(|s| bfs_shortest_path(&graph, s)).collect();
    for i in 0..n {
        for j in 0..n {
            assert_eq!(all[i][j], all[j][i]);
        }
    }
    assert_eq!(all[0][4], Some(3));
    assert_eq!(all[0][5], None);
}

#[test]
fn visit_order_follows_the_edge_list() {
    let graph = graph_of(&["a", "b", "c", "d", "e"], &[(0, 3), (2, 0), (0, 1), (3, 4), (1, 4)]);
    let found = breadth_first_search(&graph, 0);
    assert_eq!(found.order, vec![0, 3, 2, 1, 4]);
    assert_eq!(found.distances, vec![Some(0), Some(1), Some(1), Some(1), Some(2)]);
    let other = breadth_first_search(&graph, 4);
    assert_eq!(other.order, vec![4, 3, 1, 0, 2]);
}

#[test]
fn neighbor_is_the_other_end() {
    assert_eq!(neighbor_across((1, 2), 1), Some(2));
    assert_eq!(neighbor_across((1, 2), 2), Some(1));
    assert_eq!(neighbor_across((1, 2), 3), None);
    assert_eq!(neighbor_across((4, 4), 4), Some(4));
}

#[test]
fn sums_count_the_source_itself() {
    let graph = graph_of(&["a", "b", "c", "d"], &[(0, 1), (1, 2)]);
    assert_eq!(reachability_sums(&graph, 0), (3, 3));
    assert_eq!(reachability_sums(&graph, 1), (3, 2));
    assert_eq!(reachability_sums(&graph, 3), (1, 0));
    assert_eq!(closeness_before_scaling(&graph, 0), Ratio { num: 2, den: 3 });
    assert_eq!(closeness_before_scaling(&graph, 1), Ratio { num: 2, den: 2 });
    assert_eq!(closeness_before_scaling(&graph, 3), Ratio { num: 0, den: 1 });
}

#[test]
fn best_node_scores_exactly_one() {
    let graph = graph_of(
        &["a", "b", "c", "d", "e", "f"],
        &[(0, 1), (1, 2), (2, 3), (3, 4), (1, 3)],
    );
    let exact = calculate_closeness_centrality(&graph);
    let scores = closeness_of(&graph);
    let best = scores.iter().cloned().fold(f64::MIN, f64::max);
    assert_eq!(best, 1.0);
    assert!(exact.iter().any(|score| score.num == score.den));
    assert!(exact.iter().all(|score| score.den > 0 && score.num <= score.den));
    assert_eq!(scores[5], 0.0);
    assert_eq!(exact[1], Ratio { num: 4 * 5, den: 5 * 4 });
    assert_eq!(exact[0], Ratio { num: 4 * 5, den: 8 * 4 });
}

#[test]
fn two_components_are_scaled_together() {
    let graph = graph_of(&["a", "b", "c", "d", "e"], &[(0, 1), (2, 3), (3, 4)]);
    assert_eq!(
        calculate_closeness_centrality(&graph),
        vec![
            Ratio { num: 1, den: 1 },
            Ratio { num: 1, den: 1 },
            Ratio { num: 2, den: 3 },
            Ratio { num: 2, den: 2 },
            Ratio { num: 2, den: 3 },
        ]
    );
}

#[test]
fn traversal_of_two_nodes() {
    let graph = graph_of(&["a", "b"], &[(0, 1)]);
    let trail = augmented_traversal(&graph, 0);
    assert_eq!(trail.order, vec![0, 1]);
    assert_eq!(trail.transfers, vec![(0, 1), (1, 0)]);
    assert_eq!(trail.predecessors, vec![vec![1], vec![0]]);
    assert_eq!(
        accumulation_steps(&trail, 0),
        vec![
            Step::Count { from: 0, to: 1 },
            Step::Count { from: 1, to: 0 },
            Step::Pass { from: 1, to: 0 },
            Step::Credit { node: 1 },
            Step::Pass { from: 0, to: 1 },
        ]
    );
    let plan = betweenness_plan(&graph);
    assert_eq!(plan.passes.len(), 2);
    assert_eq!(plan.passes[0], accumulation_steps(&trail, 0));
    assert_eq!(plan.divisor, None);
}

#[test]
fn traversal_of_a_path_from_its_middle() {
    let graph = graph_of(&["a", "b", "c", "d"], &[(0, 1), (1, 2)]);
    let trail = augmented_traversal(&graph, 1);
    assert_eq!(trail.order, vec![1, 0, 2]);
    assert_eq!(trail.transfers, vec![(1, 0), (1, 2), (0, 1), (2, 1)]);
    assert_eq!(trail.predecessors, vec![vec![1], vec![0, 2], vec![1], vec![]]);
    assert_eq!(
        accumulation_steps(&trail, 1),
        vec![
            Step::Count { from: 1, to: 0 },
            Step::Count { from: 1, to: 2 },
            Step::Count { from: 0, to: 1 },
            Step::Count { from: 2, to: 1 },
            Step::Pass { from: 2, to: 1 },
            Step::Credit { node: 2 },
            Step::Pass { from: 0, to: 1 },
            Step::Credit { node: 0 },
            Step::Pass { from: 1, to: 0 },
            Step::Pass { from: 1, to: 2 },
        ]
    );
}

#[test]
fn repeated_edges_move_path_count_each_time() {
    let graph = graph_of(&["a", "b"], &[(0, 1), (0, 1), (1, 1)]);
    let trail = augmented_traversal(&graph, 0);
    assert_eq!(trail.order, vec![0, 1]);
    assert_eq!(trail.transfers, vec![(0, 1), (0, 1), (1, 0), (1, 0), (1, 1)]);
    assert_eq!(trail.predecessors, vec![vec![1], vec![0, 1]]);
}

#[test]
fn divisor_is_the_number_of_ordered_pairs_of_others() {
    assert_eq!(betweenness_normalizer(0), None);
    assert_eq!(betweenness_normalizer(1), None);
    assert_eq!(betweenness_normalizer(2), None);
    assert_eq!(betweenness_normalizer(3), Some(2));
    assert_eq!(betweenness_normalizer(5), Some(12));
    assert_eq!(
        betweenness_normalizer(usize::MAX),
        Some((usize::MAX as u128 - 1) * (usize::MAX as u128 - 2))
    );
}

#[test]
fn star_centre_is_between_all_leaves() {
    let graph = graph_of(&["hub", "a", "b", "c"], &[(0, 1), (0, 2), (0, 3)]);
    let betweenness = betweenness_of(&graph);
    assert_eq!(highest_score_index(&ranks(&betweenness)), Some(0));
    assert_eq!(betweenness[1], betweenness[2]);
    assert_eq!(betweenness[2], betweenness[3]);
    assert_eq!(highest_score_index(&ranks(&closeness_of(&graph))), Some(0));
}

#[test]
fn first_of_equal_scores_is_chosen() {
    assert_eq!(highest_score_index(&[3, 7, 7, 1]), Some(1));
    assert_eq!(highest_score_index(&[5, 5, 5]), Some(0));
    assert_eq!(highest_score_index(&[0]), Some(0));
    assert_eq!(highest_score_index(&[1, 2, 3]), Some(2));
    assert_eq!(highest_score_index(&[]), None);
    let graph = Graph::new();
    assert_eq!(
        get_highest_centrality_indices(&graph, &[1, 9, 9], &[4, 4]),
        (Some(1), Some(0))
    );
    assert_eq!(get_highest_centrality_indices(&graph, &[2], &[]), (Some(0), None));
}
