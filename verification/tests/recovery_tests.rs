use axolotl_rs::gpu_edge_block::GPUEdgeBlockGraph;
use axolotl_rs::persistent_graph::PersistentGraph;
use axolotl_rs::recovery::{edgeblock_to_persistent, persistent_to_edgeblock, UNIT_WEIGHT_BITS};
use axolotl_rs::wal::{recover_logs, replay_op, serialize_add_vertex, OpType, WalEntry};
use axolotl_rs::{Properties, PropertyValue};

fn record(tx: u64, op: OpType, data: Vec<u8>) -> Vec<u8> {
    WalEntry { tx_id: tx, op_type: op.code(), timestamp: 1, data }.serialize()
}

#[test]
fn test_recover_to_edgeblock() {
    let mut eb = GPUEdgeBlockGraph::new();
    eb.add_vertex(1, Properties::new());
    eb.add_vertex(2, Properties::new());
    eb.add_edge(1, 2);

    let mut log = record(300, OpType::Begin, vec![]);
    log.extend(record(300, OpType::AddVertex, serialize_add_vertex(3, b"")));
    log.extend(record(300, OpType::Commit, vec![]));

    let mut pg = edgeblock_to_persistent(&eb, "/tmp/test_recovery_data.bin".to_string());
    let (ops, result) = recover_logs(&vec![log]);
    for e in &ops {
        pg.replay(&replay_op(e), Properties::new());
    }
    let eb = persistent_to_edgeblock(&pg);
    assert_eq!(result.transactions_replayed, 1);
    assert_eq!(eb.vertex_count, 3);
    assert_eq!(eb.total_edges, 1);
    assert!(eb.get_vertex(3).is_some());
}

#[test]
fn edgeblock_to_persistent_keeps_vertices_and_edges() {
    let mut eb = GPUEdgeBlockGraph::new();
    let mut p = Properties::new();
    p.insert("name".to_string(), PropertyValue::String("Alice".to_string()));
    eb.add_vertex(10, p);
    eb.add_edge(10, 20);
    eb.add_edge(20, 30);
    let pg = edgeblock_to_persistent(&eb, "g.bin".to_string());
    assert_eq!(pg.vertex_count(), 3);
    assert_eq!(pg.edge_count(), 2);
    assert_eq!(pg.file_path(), "g.bin");
    let alice = pg.get_vertex(10).unwrap();
    assert!(matches!(alice.get("name"), Some(PropertyValue::String(s)) if s == "Alice"));
    assert_eq!(pg.get_vertex(20).unwrap().len(), 0);
    let e = pg.get_edge(10, 20).unwrap();
    assert_eq!(e.weight_bits, UNIT_WEIGHT_BITS);
    assert_eq!(f64::from_bits(e.weight_bits), 1.0);
    assert!(pg.get_edge(20, 10).is_none());
    assert_eq!(pg.out_neighbors(20), vec![30]);
}

#[test]
fn persistent_to_edgeblock_orders_vertices_by_id() {
    let mut pg = PersistentGraph::new("p.bin".to_string());
    let mut p = Properties::new();
    p.insert("k".to_string(), PropertyValue::Int(7));
    pg.add_vertex(5, p);
    pg.add_edge(9, 5, 2.0f64.to_bits(), Properties::new());
    pg.add_edge(1, 9, 2.0f64.to_bits(), Properties::new());
    let eb = persistent_to_edgeblock(&pg);
    assert_eq!(eb.idx_to_id, vec![1, 5, 9]);
    assert_eq!(eb.total_edges, 2);
    assert!(matches!(eb.get_vertex(5).unwrap().get("k"), Some(PropertyValue::Int(7))));
    assert_eq!(eb.out_neighbors(1), vec![9]);
    assert_eq!(eb.out_neighbors(9), vec![5]);
    assert_eq!(eb.in_neighbors(9), vec![1]);
}

#[test]
fn edgeblock_roundtrip_through_property_graph() {
    let mut eb = GPUEdgeBlockGraph::new();
    for (a, b) in [(1u64, 2u64), (2, 3), (3, 1), (1, 3)] {
        eb.add_edge(a, b);
    }
    let back = persistent_to_edgeblock(&edgeblock_to_persistent(&eb, String::new()));
    for id in 1u64..=3 {
        let mut want = eb.out_neighbors(id);
        want.sort();
        assert_eq!(back.out_neighbors(id), want);
    }
    assert_eq!(back.total_edges, 4);
}

#[test]
fn persistent_to_edgeblock_lists_edges_by_source_then_target() {
    let mut pg = PersistentGraph::new("q.bin".to_string());
    pg.add_edge(2, 3, 1.0f64.to_bits(), Properties::new());
    pg.add_edge(1, 3, 1.0f64.to_bits(), Properties::new());
    pg.add_edge(1, 2, 1.0f64.to_bits(), Properties::new());
    pg.add_edge(3, 1, 1.0f64.to_bits(), Properties::new());
    let eb = persistent_to_edgeblock(&pg);
    assert_eq!(eb.total_edges, 4);
    assert_eq!(eb.out_neighbors(1), vec![2, 3]);
    assert_eq!(eb.out_neighbors(3), vec![1]);
    assert_eq!(eb.in_neighbors(3), vec![1, 2]);
    assert_eq!(eb.in_neighbors(1), vec![3]);
    assert_eq!(eb.in_neighbors(2), vec![1]);
}
