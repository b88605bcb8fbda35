use axolotl_rs::edge_block::{EdgeBlock, EdgeBlockGraph};
use axolotl_rs::gpu_edge_block::GPUEdgeBlockGraph;
use axolotl_rs::incremental_tc::{
    full_triangle_counting, full_triangle_counting_set, incremental_triangle_counting, incremental_triangle_counting_correct,
    GraphWithAdjacencySets,
};
use axolotl_rs::scc::tarjan_scc;
use axolotl_rs::wave_core::wave_core_blocks;
use axolotl_rs::Properties;

fn build_graph(edges: &[(u32, u32)]) -> GPUEdgeBlockGraph {
    let mut g = GPUEdgeBlockGraph::new();
    let max_v = edges.iter().flat_map(|&(u, v)| [u, v]).max().unwrap_or(0) as u64;
    for i in 0..=max_v {
        g.add_vertex(i, Properties::new());
    }
    for &(u, v) in edges {
        g.add_edge(u as u64, v as u64);
    }
    g
}

fn sort_sccs(mut sccs: Vec<Vec<usize>>) -> Vec<Vec<usize>> {
    for s in &mut sccs {
        s.sort();
    }
    sccs.sort_by_key(|s| s[0]);
    sccs
}

#[test]
fn scc_test_single_vertex() {
    let g = build_graph(&[]);
    let sccs = sort_sccs(tarjan_scc(&g));
    assert_eq!(sccs, vec![vec![0]]);
}

#[test]
fn test_two_cycle() {
    let g = build_graph(&[(0, 1), (1, 0)]);
    let sccs = sort_sccs(tarjan_scc(&g));
    assert_eq!(sccs, vec![vec![0, 1]]);
}

#[test]
fn test_three_cycle() {
    let g = build_graph(&[(0, 1), (1, 2), (2, 0)]);
    let sccs = sort_sccs(tarjan_scc(&g));
    assert_eq!(sccs, vec![vec![0, 1, 2]]);
}

#[test]
fn test_dag() {
    let g = build_graph(&[(0, 1), (1, 2), (0, 2)]);
    let sccs = sort_sccs(tarjan_scc(&g));
    assert_eq!(sccs, vec![vec![0], vec![1], vec![2]]);
}

#[test]
fn test_two_components() {
    let g = build_graph(&[(0, 1), (1, 0), (2, 3), (3, 2)]);
    let sccs = sort_sccs(tarjan_scc(&g));
    assert_eq!(sccs, vec![vec![0, 1], vec![2, 3]]);
}

#[test]
fn test_bridge() {
    let g = build_graph(&[(0, 1), (1, 2), (2, 0), (2, 3), (3, 4), (4, 3)]);
    let sccs = sort_sccs(tarjan_scc(&g));
    assert_eq!(sccs, vec![vec![0, 1, 2], vec![3, 4]]);
}

#[test]
fn scc_of_empty_graph_is_empty() {
    let g = GPUEdgeBlockGraph::new();
    assert!(tarjan_scc(&g).is_empty());
}

#[test]
fn scc_long_cycle_spanning_blocks() {
    // 0 has 40 out-edges, so its adjacency spans two blocks; 39 -> 0 closes a cycle
    let mut edges = Vec::new();
    for i in 1..41u32 {
        edges.push((0, i));
    }
    edges.push((39, 0));
    let g = build_graph(&edges);
    let sccs = sort_sccs(tarjan_scc(&g));
    assert_eq!(sccs.len(), 40);
    assert_eq!(sccs[0], vec![0, 39]);
    let total: usize = sccs.iter().map(|c| c.len()).sum();
    assert_eq!(total, 41);
}

#[test]
fn test_empty_graph() {
    let g = GPUEdgeBlockGraph::new();
    let core = wave_core_blocks(&g);
    assert!(core.is_empty());
}

#[test]
fn wave_core_test_single_vertex() {
    let mut g = GPUEdgeBlockGraph::new();
    g.add_vertex(0, Properties::new());
    let core = wave_core_blocks(&g);
    assert_eq!(core, vec![0]);
}

#[test]
fn wave_core_test_triangle() {
    let mut g = GPUEdgeBlockGraph::new();
    g.add_vertex(0, Properties::new());
    g.add_vertex(1, Properties::new());
    g.add_vertex(2, Properties::new());
    g.add_edge(0, 1);
    g.add_edge(1, 0);
    g.add_edge(1, 2);
    g.add_edge(2, 1);
    g.add_edge(2, 0);
    g.add_edge(0, 2);
    let core = wave_core_blocks(&g);
    assert_eq!(core, vec![2, 2, 2], "triangle should be 2-core");
}

#[test]
fn test_star() {
    let mut g = GPUEdgeBlockGraph::new();
    for i in 0..5 {
        g.add_vertex(i, Properties::new());
    }
    for i in 1..5 {
        g.add_edge(0, i);
        g.add_edge(i, 0);
    }
    let core = wave_core_blocks(&g);
    assert_eq!(core, vec![1, 1, 1, 1, 1], "star is 1-core");
}

#[test]
fn wave_core_never_exceeds_out_degree() {
    let g = build_graph(&[(0, 1), (0, 2), (0, 3), (1, 2)]);
    let core = wave_core_blocks(&g);
    let degrees = g.compute_out_degrees();
    assert_eq!(core.len(), 4);
    for i in 0..4 {
        assert!(core[i] <= degrees[i]);
    }
}

#[test]
fn test_triangle_counting() {
    let mut graph = GraphWithAdjacencySets::new(5);
    graph.add_edge(0, 1);
    graph.add_edge(1, 2);
    graph.add_edge(2, 0);
    let count = full_triangle_counting(&graph);
    assert_eq!(count, 1);
}

#[test]
fn test_incremental_triangle_counting() {
    let mut graph = GraphWithAdjacencySets::new(5);
    graph.add_edge(0, 1);
    graph.add_edge(1, 2);
    let triangles_before = full_triangle_counting_set(&graph);
    assert_eq!(triangles_before.len(), 0);
    let new_edges = vec![(2, 0)];
    graph.add_edge(2, 0);
    let new_count = incremental_triangle_counting(&graph, &new_edges);
    assert_eq!(new_count, 1);
}

#[test]
fn triangle_set_lists_each_triangle_once_ordered() {
    let mut graph = GraphWithAdjacencySets::new(4);
    graph.add_edge(0, 1);
    graph.add_edge(1, 2);
    graph.add_edge(2, 0);
    graph.add_edge(2, 3);
    graph.add_edge(3, 0);
    let mut t = full_triangle_counting_set(&graph);
    t.sort();
    assert_eq!(t, vec![(0, 1, 2), (0, 2, 3)]);
    assert_eq!(full_triangle_counting(&graph), 2);
    assert!(graph.has_edge(3, 2));
    assert_eq!(graph.edge_count(), 5);
}

#[test]
fn test_edge_block() {
    let mut graph = EdgeBlockGraph::new();
    graph.add_vertex(1, Properties::new());
    graph.add_vertex(2, Properties::new());
    graph.add_vertex(3, Properties::new());
    graph.add_edge(1, 2);
    graph.add_edge(1, 3);
    graph.add_edge(2, 3);
    let neighbors = graph.get_neighbors(1);
    assert_eq!(neighbors.len(), 2);
    assert!(neighbors.contains(&2));
    assert!(neighbors.contains(&3));
    let dist = graph.bfs(1);
    assert_eq!(dist[&1], 0);
    assert_eq!(dist[&2], 1);
    assert_eq!(dist[&3], 1);
}

#[test]
fn bfs_gives_hop_distances_and_skips_unreachable() {
    let mut graph = EdgeBlockGraph::new();
    graph.add_edge(1, 2);
    graph.add_edge(2, 3);
    graph.add_edge(3, 4);
    graph.add_edge(1, 4);
    graph.add_edge(5, 1);
    let dist = graph.bfs(1);
    assert_eq!(dist.len(), 4);
    assert_eq!(dist[&4], 1);
    assert_eq!(dist[&3], 2);
    assert!(!dist.contains_key(&5));
}

#[test]
fn edge_block_full_block_starts_a_new_one() {
    let mut b = EdgeBlock::new(7);
    for i in 0..32u64 {
        assert!(b.add_edge(i + 1));
    }
    assert!(!b.add_edge(99));
    assert_eq!(b.get_edges().len(), 32);
    let mut graph = EdgeBlockGraph::new();
    for i in 0..33u64 {
        graph.add_edge(7, i + 1);
    }
    let (nv, nb, ne) = graph.stats();
    assert_eq!(nv, 33);
    assert_eq!(nb, 2);
    assert_eq!(ne, 33);
    // the scan starts at the first block of 7 and reads both
    assert_eq!(graph.get_neighbors(7), (1..=33).collect::<Vec<u64>>());
}

#[test]
fn gpu_bfs_distances_follow_shortest_paths() {
    let mut g = GPUEdgeBlockGraph::new();
    for id in [1u64, 2, 3, 4] {
        g.add_vertex(id, Properties::new());
    }
    g.add_edge(1, 2);
    g.add_edge(2, 3);
    g.add_edge(1, 3);
    let dist = g.bfs_distances(1);
    assert_eq!(dist, vec![0, 1, 1, u32::MAX]);
    assert_eq!(g.reached_with_ids(&dist), vec![(1, 0), (2, 1), (3, 1)]);
    let chain = g.bfs_distances(2);
    assert_eq!(chain, vec![u32::MAX, 0, 1, u32::MAX]);
    let unknown = g.bfs_distances(99);
    assert!(unknown.iter().all(|&d| d == u32::MAX));
    assert!(g.reached_with_ids(&unknown).is_empty());
}

#[test]
fn triangle_difference_counts_only_new_triangles() {
    let mut graph = GraphWithAdjacencySets::new(5);
    graph.add_edge(0, 1);
    graph.add_edge(1, 2);
    graph.add_edge(2, 0);
    let before = full_triangle_counting_set(&graph);
    assert_eq!(before.len(), 1);
    graph.add_edge(2, 3);
    graph.add_edge(3, 0);
    let new_edges = vec![(2, 3), (3, 0)];
    assert_eq!(incremental_triangle_counting_correct(&graph, &new_edges, &before), 1);
    assert_eq!(incremental_triangle_counting_correct(&graph, &new_edges, &[]), 2);
}

#[test]
fn add_new_edges_adds_one_edge_per_recorded_pair() {
    let mut graph = GraphWithAdjacencySets::new(20);
    graph.add_edge(0, 1);
    let before = graph.edge_count();
    let added = graph.add_new_edges(5);
    assert!(added.len() <= 5);
    assert_eq!(graph.edge_count(), before + added.len());
    assert!(graph.has_edge(0, 1));
    for &(low, v) in &added {
        assert!(low < v);
        assert!(graph.has_edge(low, v));
    }
}

#[test]
fn edge_block_graph_keeps_every_neighbour_past_a_full_block() {
    let mut g = EdgeBlockGraph::new();
    for t in 2..=34u64 {
        g.add_edge(1, t);
    }
    assert_eq!(g.get_neighbors(1), (2..=34).collect::<Vec<u64>>());
    assert_eq!(g.stats().2, 33);
    assert_eq!(g.bfs(1).len(), 34);
}

#[test]
fn edge_block_graph_moves_a_run_that_cannot_grow_in_place() {
    let mut g = EdgeBlockGraph::new();
    for t in 100..132u64 {
        g.add_edge(1, t);
    }
    g.add_edge(2, 3);
    g.add_edge(1, 999);
    let mut expected: Vec<u64> = (100..132).collect();
    expected.push(999);
    assert_eq!(g.get_neighbors(1), expected);
    assert_eq!(g.get_neighbors(2), vec![3]);
    assert_eq!(g.stats().2, 34);
}

#[test]
fn gpu_add_edge_appends_after_a_full_block_that_is_not_last() {
    let mut g = GPUEdgeBlockGraph::new();
    for t in 100..132u64 {
        g.add_edge(1, t);
    }
    g.add_edge(2, 3);
    g.add_edge(1, 999);
    let mut expected: Vec<u64> = (100..132).collect();
    expected.push(999);
    assert_eq!(g.out_neighbors(1), expected);
    assert_eq!(g.out_neighbors(2), vec![3]);
    assert_eq!(g.in_neighbors(999), vec![1]);
    assert_eq!(g.in_neighbors(3), vec![2]);
    assert_eq!(g.total_edges, 34);
}

#[test]
fn gpu_in_neighbors_survive_interleaved_targets() {
    let mut g = GPUEdgeBlockGraph::new();
    for i in 1..=40u64 {
        g.add_edge(i, 0);
        g.add_edge(i, 1000);
    }
    assert_eq!(g.in_neighbors(0), (1..=40).collect::<Vec<u64>>());
    assert_eq!(g.in_neighbors(1000), (1..=40).collect::<Vec<u64>>());
    assert_eq!(g.out_neighbors(7), vec![0, 1000]);
}

#[test]
fn from_csr_gives_one_block_per_32_neighbours() {
    let g = GPUEdgeBlockGraph::from_csr(&[0, 0, 1, 2], &[0, 0], 3);
    assert_eq!(g.vertex_count, 3);
    assert_eq!(g.total_edges, 2);
    assert_eq!(g.idx_to_id, vec![0, 1, 2]);
    assert_eq!(g.block_counts, vec![0, 1, 1]);
    assert_eq!(g.reverse_block_counts, vec![1, 0, 0]);
    assert!(g.out_neighbors_by_idx(0).is_empty());
    assert_eq!(g.out_neighbors_by_idx(1), vec![0]);
    assert_eq!(g.in_neighbors_by_idx(0), vec![1, 2]);
    let offsets: Vec<u32> = vec![0, 40, 40];
    let targets: Vec<u32> = vec![1; 40];
    let big = GPUEdgeBlockGraph::from_csr(&offsets, &targets, 2);
    assert_eq!(big.block_counts, vec![2, 0]);
    assert_eq!(big.reverse_block_counts, vec![0, 2]);
}

#[test]
fn wave_core_of_a_triangle_is_two_everywhere() {
    let g = build_graph(&[(0, 1), (1, 0), (1, 2), (2, 1), (2, 0), (0, 2)]);
    assert_eq!(wave_core_blocks(&g), vec![2, 2, 2]);
}

#[test]
fn adjacency_sets_count_each_edge_once() {
    let mut graph = GraphWithAdjacencySets::new(5);
    graph.add_edge(0, 1);
    graph.add_edge(1, 2);
    graph.add_edge(2, 0);
    graph.add_edge(1, 0);
    assert_eq!(graph.edge_count(), 3);
}
