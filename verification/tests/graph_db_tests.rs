use axolotl_rs::persistence::DecodeError;
use axolotl_rs::gpu_edge_block::GPUEdgeBlockGraph;
use axolotl_rs::graph_db::{GraphDB, GraphDBError, GraphMode};
use axolotl_rs::mmap_graph::MmapGraph;
use axolotl_rs::{Properties, PropertyValue};

fn name(p: &Properties) -> Option<String> {
    match p.get("name") {
        Some(PropertyValue::String(s)) => Some(s.clone()),
        _ => None,
    }
}

/// The graph of the original tests: Alice -> Bob.
fn make_test_graph<'a>() -> GraphDB<'a> {
    let mut db = GraphDB::create_in_memory("/tmp/test_graph_db.bin").unwrap();
    let mut alice = Properties::new();
    alice.insert("name".to_string(), PropertyValue::String("Alice".to_string()));
    alice.insert("age".to_string(), PropertyValue::Int(28));
    db.add_vertex(1, alice).unwrap();
    let mut bob = Properties::new();
    bob.insert("name".to_string(), PropertyValue::String("Bob".to_string()));
    db.add_vertex(2, bob).unwrap();
    db.add_edge(1, 2, 1.0f64.to_bits(), Properties::new()).unwrap();
    db
}

/// What `save_to` writes, read back as `open(.., InMemory)` reads it.
fn reopen_in_memory<'a>(db: &GraphDB) -> GraphDB<'a> {
    let bytes = db.save_bytes().unwrap();
    let eb: Result<GPUEdgeBlockGraph, DecodeError> = GPUEdgeBlockGraph::from_bytes(&bytes);
    GraphDB::from_edgeblock(eb.unwrap())
}

#[test]
fn test_in_memory_mode() {
    let db = make_test_graph();
    assert_eq!(db.mode(), GraphMode::InMemory);
    assert_eq!(db.vertex_count(), 2);
    assert_eq!(db.edge_count(), 1);
    let alice = db.get_vertex(1).unwrap();
    assert_eq!(name(&alice), Some("Alice".to_string()));
    assert_eq!(db.out_neighbors(1), vec![2]);
}

#[test]
fn test_mmap_mode() {
    let db = reopen_in_memory(&make_test_graph());
    let file = db.mmap_bytes().unwrap();
    let db = GraphDB::from_mmap(MmapGraph::open(&file).unwrap()).unwrap();
    assert_eq!(db.mode(), GraphMode::Mmap);
    assert_eq!(db.vertex_count(), 2);
    assert_eq!(db.edge_count(), 1);
    let alice = db.get_vertex(1).unwrap();
    assert_eq!(name(&alice), Some("Alice".to_string()));
    assert_eq!(db.out_neighbors(1), vec![2]);
}

#[test]
fn test_mmap_mode_read_only() {
    let file = make_test_graph().mmap_bytes().unwrap();
    let mut db = GraphDB::from_mmap(MmapGraph::open(&file).unwrap()).unwrap();
    assert!(db.add_vertex(3, Properties::new()).is_err());
    assert!(db.add_edge(1, 3, 1.0f64.to_bits(), Properties::new()).is_err());
    assert!(db.save().is_err());
}

#[test]
fn test_iter_both_modes() {
    let db = make_test_graph();
    assert_eq!(db.iter_vertices().len(), 2);
    let file = reopen_in_memory(&db).mmap_bytes().unwrap();
    let db = GraphDB::from_mmap(MmapGraph::open(&file).unwrap()).unwrap();
    assert_eq!(db.iter_vertices().len(), 2);
}

#[test]
fn test_edgeblock_many_edges() {
    let mut db = GraphDB::new(GraphMode::InMemory);
    let center_id = 1u64;
    let mut props = Properties::new();
    props.insert("name".to_string(), PropertyValue::String("center".to_string()));
    db.add_vertex(center_id, props).unwrap();
    for i in 0..100u64 {
        let id = 1000 + i;
        db.add_vertex(id, Properties::new()).unwrap();
        db.add_edge(center_id, id, 1.0f64.to_bits(), Properties::new()).unwrap();
    }
    assert_eq!(db.vertex_count(), 101);
    assert_eq!(db.edge_count(), 100);
    let neighbors = db.out_neighbors(center_id);
    assert_eq!(neighbors.len(), 100);
    for i in 0..100u64 {
        assert!(neighbors.contains(&(1000 + i)));
    }
}

#[test]
fn test_edgeblock_direct_access() {
    let mut db = GraphDB::new(GraphMode::InMemory);
    db.add_vertex(10, Properties::new()).unwrap();
    db.add_vertex(20, Properties::new()).unwrap();
    db.add_edge(10, 20, 1.0f64.to_bits(), Properties::new()).unwrap();
    let eb = db.edgeblock().unwrap();
    assert_eq!(eb.total_edges, 1);
    assert_eq!(eb.out_neighbors(10), vec![20]);
    let eb_mut = db.edgeblock_mut().unwrap();
    eb_mut.add_edge(20, 10);
    assert_eq!(eb_mut.total_edges, 2);
}

#[test]
fn graph_db_iter_edges_in_memory_has_unit_weight() {
    let db = make_test_graph();
    let edges = db.iter_edges();
    assert_eq!(edges.len(), 1);
    let (from, to, w, props) = &edges[0];
    assert_eq!((*from, *to, f64::from_bits(*w)), (1, 2, 1.0));
    assert!(props.is_empty());
}

#[test]
fn graph_db_unsupported_operations_name_the_mode() {
    let mut db = make_test_graph();
    match db.save() {
        Err(GraphDBError::NotSupported(m)) => assert!(m.starts_with("use GraphDB::save_to")),
        _ => panic!("save must be refused"),
    }
    match db.create_index("idx", "name", false) {
        Err(GraphDBError::NotSupported(m)) => assert_eq!(m, "create_index not yet supported with EdgeBlock."),
        _ => panic!("create_index must be refused"),
    }
    match db.drop_index("idx") {
        Err(GraphDBError::NotSupported(m)) => assert_eq!(m, "drop_index not yet supported with EdgeBlock."),
        _ => panic!("drop_index must be refused"),
    }
    let file = db.mmap_bytes().unwrap();
    let mapped = GraphDB::from_mmap(MmapGraph::open(&file).unwrap()).unwrap();
    match mapped.mmap_bytes() {
        Err(GraphDBError::NotSupported(m)) => assert_eq!(m, "generate_mmap_file only works in InMemory mode."),
        _ => panic!("a mapped graph cannot be converted again"),
    }
    assert!(mapped.edgeblock().is_none());
}
