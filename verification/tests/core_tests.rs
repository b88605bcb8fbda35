use axolotl_rs::incremental_cc::{IncrementalCC, UnionFind};
use axolotl_rs::gpu_edge_block::GPUEdgeBlockGraph;
use axolotl_rs::{EdgeId, Properties, PropertyValue};

#[test]
fn lib_test_edge_id() {
    let edge_id = EdgeId::new(1, 2);
    assert_eq!(edge_id.from, 1);
    assert_eq!(edge_id.to, 2);
}

#[test]
fn test_union_find() {
    let mut uf = UnionFind::new(5);
    assert_eq!(uf.count_components(), 5);
    assert!(uf.union(0, 1));
    assert_eq!(uf.count_components(), 4);
    assert!(uf.union(1, 2));
    assert_eq!(uf.count_components(), 3);
    assert!(uf.union(3, 4));
    assert_eq!(uf.count_components(), 2);
    assert!(!uf.union(0, 2));
    assert_eq!(uf.count_components(), 2);
}

#[test]
fn test_incremental_cc() {
    let mut cc = IncrementalCC::new(5);
    let edges = vec![(0, 1), (1, 2), (3, 4)];
    cc.compute_full(&edges);
    assert_eq!(cc.count_components(), 2);
    let new_edges = vec![(2, 3)];
    let merged = cc.update_incremental(&new_edges);
    assert_eq!(merged, 1);
    assert_eq!(cc.count_components(), 1);
}

#[test]
fn union_find_find_after_union_gives_same_root() {
    let mut uf = UnionFind::new(6);
    uf.union(4, 5);
    uf.union(0, 5);
    let a = uf.find(0);
    let b = uf.find(4);
    assert_eq!(a, b);
    assert_ne!(uf.find(1), a);
    let copy = uf.copy();
    assert_eq!(copy.len(), 6);
}

#[test]
fn test_add_vertex_and_edge() {
    let mut g = GPUEdgeBlockGraph::new();
    let _a = g.add_vertex(100, Properties::new());
    let _b = g.add_vertex(200, Properties::new());
    g.add_edge(100, 200);
    assert_eq!(g.vertex_count, 2);
    assert_eq!(g.total_edges, 1);
    assert_eq!(g.out_neighbors(100), vec![200]);
    assert_eq!(g.in_neighbors(200), vec![100]);
}

#[test]
fn test_many_edges_one_vertex() {
    let mut g = GPUEdgeBlockGraph::new();
    let _center = g.add_vertex(1, Properties::new());
    for i in 0..64u64 {
        let id = 100 + i;
        g.add_vertex(id, Properties::new());
        g.add_edge(1, id);
    }
    let neighbors = g.out_neighbors(1);
    assert_eq!(neighbors.len(), 64);
    assert_eq!(g.total_edges, 64);
    for i in 0..64u64 {
        let rev = g.in_neighbors(100 + i);
        assert_eq!(rev.len(), 1, "vertex {} should have 1 in-neighbor", 100 + i);
    }
}

#[test]
fn test_out_degrees() {
    let mut g = GPUEdgeBlockGraph::new();
    g.add_vertex(1, Properties::new());
    g.add_vertex(2, Properties::new());
    g.add_vertex(3, Properties::new());
    g.add_edge(1, 2);
    g.add_edge(1, 3);
    g.add_edge(2, 3);
    let degs = g.compute_out_degrees();
    assert_eq!(degs[g.id_to_idx[&1]], 2);
    assert_eq!(degs[g.id_to_idx[&2]], 1);
    assert_eq!(degs[g.id_to_idx[&3]], 0);
}

#[test]
fn edge_to_unknown_vertices_creates_them() {
    let mut g = GPUEdgeBlockGraph::new();
    g.add_edge(7, 9);
    assert_eq!(g.vertex_count, 2);
    assert_eq!(g.get_id(0), Some(7));
    assert_eq!(g.get_id(1), Some(9));
    assert_eq!(g.get_id(2), None);
    assert!(g.get_vertex(7).is_some());
    assert!(g.get_vertex(8).is_none());
    assert_eq!(g.out_degree(7), 1);
    assert_eq!(g.out_degree(9), 0);
    assert_eq!(g.out_neighbors(12345), Vec::<u64>::new());
}

#[test]
fn vertex_properties_are_replaced() {
    let mut g = GPUEdgeBlockGraph::new();
    let mut p = Properties::new();
    p.insert("name".to_string(), PropertyValue::String("Alice".to_string()));
    let i = g.add_vertex(5, p);
    let mut q = Properties::new();
    q.insert("name".to_string(), PropertyValue::String("Bob".to_string()));
    let j = g.add_vertex(5, q);
    assert_eq!(i, j);
    let props = g.get_vertex(5).unwrap();
    assert_eq!(props.get("name"), Some(&PropertyValue::String("Bob".to_string())));
    assert_eq!(g.vertex_count, 1);
}

#[test]
fn from_csr_builds_forward_and_reverse_blocks() {
    // 0 -> 1, 0 -> 2, 2 -> 1
    let offsets = vec![0u32, 2, 2, 3];
    let targets = vec![1u32, 2, 1];
    let g = GPUEdgeBlockGraph::from_csr(&offsets, &targets, 3);
    assert_eq!(g.vertex_count, 3);
    assert_eq!(g.total_edges, 3);
    assert_eq!(g.out_neighbors_by_idx(0), vec![1, 2]);
    assert_eq!(g.out_neighbors_by_idx(1), Vec::<u64>::new());
    assert_eq!(g.out_neighbors_by_idx(2), vec![1]);
    assert_eq!(g.in_neighbors_by_idx(1), vec![0, 2]);
    assert_eq!(g.in_neighbors_by_idx(2), vec![0]);
    assert_eq!(g.in_neighbors_by_idx(0), Vec::<u64>::new());
    assert_eq!(g.stats(), (3, 4, 3));
}

#[test]
fn from_csr_spans_blocks() {
    let n = 40u32;
    let mut offsets = vec![0u32];
    let mut targets = Vec::new();
    for v in 0..n {
        if v == 0 {
            for t in 1..n {
                targets.push(t);
            }
        }
        offsets.push(targets.len() as u32);
    }
    let g = GPUEdgeBlockGraph::from_csr(&offsets, &targets, n);
    assert_eq!(g.out_degree_by_idx(0), 39);
    assert_eq!(g.out_neighbors_by_idx(0).len(), 39);
    for v in 1..n as usize {
        assert_eq!(g.in_neighbors_by_idx(v), vec![0]);
    }
}

#[test]
fn incremental_cc_skips_endpoints_beyond_the_vertices() {
    let mut cc = IncrementalCC::new(5);
    cc.compute_full(&[(1u64 << 32, 1)]);
    assert_eq!(cc.count_components(), 5);
    assert_eq!(cc.update_incremental(&[((1u64 << 32) + 2, 2), (5, 0), (0, 4)]), 1);
    assert_eq!(cc.count_components(), 4);
}
