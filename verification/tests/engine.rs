use graph_engine::graph::{GraphError, GraphProcessor};
use graph_engine::math::isqrt;

fn loaded(nodes: Vec<i64>, edges: Vec<u32>) -> GraphProcessor {
    let mut p = GraphProcessor::new();
    p.load_graph(nodes, edges).expect("valid graph");
    p
}

#[test]
fn counts_reflect_loaded_graph() {
    let p = loaded(vec![0, 0, 0, 1000, 0, 0, 0, 1000, 0], vec![0, 1, 1, 2]);
    assert_eq!(p.node_count(), 3);
    assert_eq!(p.edge_count(), 2);
}

#[test]
fn new_processor_is_empty() {
    let p = GraphProcessor::new();
    assert_eq!(p.node_count(), 0);
    assert_eq!(p.edge_count(), 0);
}

#[test]
fn invalid_topology_is_rejected() {
    let mut p = GraphProcessor::new();
    let r = p.load_graph(vec![0, 0, 0], vec![0, 1]);
    assert_eq!(r, Err(GraphError::InvalidTopology));
}

#[test]
fn failed_load_preserves_prior_graph() {
    let mut p = loaded(vec![0, 0, 0, 1000, 0, 0], vec![0, 1]);
    let r = p.load_graph(vec![0, 0, 0], vec![0, 7]);
    assert_eq!(r, Err(GraphError::InvalidTopology));
    assert_eq!(p.node_count(), 2);
    assert_eq!(p.edge_count(), 1);
    let r2 = p.load_graph(vec![0, 0], vec![]);
    assert_eq!(r2, Err(GraphError::DimensionMismatch));
    assert_eq!(p.node_count(), 2);
    assert_eq!(p.edge_count(), 1);
}

#[test]
fn dimension_mismatch_on_ragged_nodes() {
    let mut p = GraphProcessor::new();
    let r = p.load_graph(vec![1, 2, 3, 4], vec![]);
    assert_eq!(r, Err(GraphError::DimensionMismatch));
}

#[test]
fn dimension_mismatch_on_odd_edge_array() {
    let mut p = GraphProcessor::new();
    let r = p.load_graph(vec![0, 0, 0, 1, 1, 1], vec![0]);
    assert_eq!(r, Err(GraphError::DimensionMismatch));
}

#[test]
fn dimension_mismatch_reported_before_topology() {
    let mut p = GraphProcessor::new();
    let r = p.load_graph(vec![1, 2], vec![9, 9]);
    assert_eq!(r, Err(GraphError::DimensionMismatch));
}

#[test]
fn repulsion_separates_two_free_nodes() {
    let mut p = loaded(vec![0, 0, 0, 100, 0, 0], vec![]);
    let out = p.step_layout();
    // magnitude: 100 * 1_000_000 / (10_000 * 100) = 100 on the x axis
    assert_eq!(out, vec![-100, 0, 0, 200, 0, 0]);
    let d_old: i64 = 100;
    let d_new: i64 = out[3] - out[0];
    assert!(d_new > d_old);
}

#[test]
fn overlong_edge_pulls_nodes_closer() {
    let mut p = loaded(vec![0, 0, 0, 3000, 0, 0], vec![0, 1]);
    let out = p.step_layout();
    // spring: 3000 * (3000 - 1000) / (3000 * 10) = 200; repulsion rounds to 0
    assert_eq!(out, vec![200, 0, 0, 2800, 0, 0]);
    assert!(out[3] - out[0] < 3000);
}

#[test]
fn short_edge_pushes_nodes_apart() {
    // distance 500 is below the rest length 1000: the spring is compressed
    let mut p = loaded(vec![0, 0, 0, 500, 0, 0], vec![0, 1]);
    let out = p.step_layout();
    assert!(out[3] - out[0] > 500);
}

#[test]
fn step_layout_is_deterministic() {
    let nodes = vec![10, -20, 30, 500, 600, -700, 0, 0, 0];
    let edges = vec![0, 1, 1, 2];
    let mut p = loaded(nodes.clone(), edges.clone());
    let mut q = loaded(nodes, edges);
    assert_eq!(p.step_layout(), q.step_layout());
    assert_eq!(p.step_layout(), q.step_layout());
}

#[test]
fn step_layout_mutates_in_place_and_snapshots() {
    let mut p = loaded(vec![0, 0, 0, 100, 0, 0], vec![]);
    let first = p.step_layout();
    let second = p.step_layout();
    assert_ne!(first, second);
    assert_eq!(first, vec![-100, 0, 0, 200, 0, 0]);
}

#[test]
fn coincident_nodes_exert_no_force() {
    let mut p = loaded(vec![5, 5, 5, 5, 5, 5], vec![]);
    let out = p.step_layout();
    assert_eq!(out, vec![5, 5, 5, 5, 5, 5]);
}

#[test]
fn zero_edges_gives_distinct_communities() {
    let p = loaded(vec![0, 0, 0, 1, 1, 1, 2, 2, 2, 3, 3, 3], vec![]);
    let comm = p.detect_communities();
    assert_eq!(comm, vec![0, 1, 2, 3]);
    for i in 0..comm.len() {
        for j in 0..i {
            assert_ne!(comm[i], comm[j]);
        }
    }
}

#[test]
fn triangle_clique_forms_one_community() {
    let p = loaded(
        vec![0, 0, 0, 1000, 0, 0, 0, 1000, 0],
        vec![0, 1, 0, 2, 1, 2],
    );
    let comm = p.detect_communities();
    assert_eq!(comm.len(), 3);
    assert_eq!(comm[0], comm[1]);
    assert_eq!(comm[1], comm[2]);
}

#[test]
fn four_clique_forms_one_community() {
    let p = loaded(
        vec![0, 0, 0, 1000, 0, 0, 0, 1000, 0, 0, 0, 1000],
        vec![0, 1, 0, 2, 0, 3, 1, 2, 1, 3, 2, 3],
    );
    let comm = p.detect_communities();
    assert_eq!(comm.len(), 4);
    assert!(comm.iter().all(|&c| c == comm[0]));
}

#[test]
fn two_triangles_with_bridge_split_in_two() {
    // two triangles joined by one bridge edge
    let p = loaded(
        vec![
            0, 0, 0, 1000, 0, 0, 0, 1000, 0, 5000, 0, 0, 6000, 0, 0, 5000, 1000, 0,
        ],
        vec![0, 1, 0, 2, 1, 2, 3, 4, 3, 5, 4, 5, 2, 3],
    );
    let comm = p.detect_communities();
    assert_eq!(comm[0], comm[1]);
    assert_eq!(comm[0], comm[2]);
    assert_eq!(comm[3], comm[4]);
    assert_eq!(comm[3], comm[5]);
}

#[test]
fn empty_graph_round_trip() {
    let mut p = GraphProcessor::new();
    p.load_graph(vec![], vec![]).expect("empty graph is valid");
    assert_eq!(p.step_layout(), Vec::<i64>::new());
    assert_eq!(p.detect_communities(), Vec::<u32>::new());
    assert_eq!(p.node_count(), 0);
    assert_eq!(p.edge_count(), 0);
}

#[test]
fn self_loops_and_duplicate_edges_are_tolerated() {
    let mut p = loaded(vec![0, 0, 0, 700, 0, 0], vec![0, 0, 0, 1, 0, 1]);
    assert_eq!(p.edge_count(), 3);
    let out = p.step_layout();
    assert_eq!(out.len(), 6);
    let comm = p.detect_communities();
    assert_eq!(comm.len(), 2);
}

#[test]
fn edge_id_equal_to_node_count_is_invalid() {
    let mut p = GraphProcessor::new();
    let r = p.load_graph(vec![0, 0, 0], vec![0, 0]);
    assert_eq!(r, Ok(()));
    let r2 = p.load_graph(vec![0, 0, 0], vec![1, 0]);
    assert_eq!(r2, Err(GraphError::InvalidTopology));
}

#[test]
fn isqrt_exact_values() {
    assert_eq!(isqrt(0), 0);
    assert_eq!(isqrt(1), 1);
    assert_eq!(isqrt(3), 1);
    assert_eq!(isqrt(4), 2);
    assert_eq!(isqrt(99), 9);
    assert_eq!(isqrt(100), 10);
    assert_eq!(isqrt(10_000), 100);
    assert_eq!(isqrt(u64::MAX), 4_294_967_295);
}

#[test]
fn joined_pair_forms_one_community() {
    let p = loaded(vec![0, 0, 0, 900, 0, 0], vec![0, 1]);
    assert_eq!(p.detect_communities(), vec![1, 1]);
}
