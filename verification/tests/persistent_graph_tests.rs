use axolotl_rs::persistence::DecodeError;
use axolotl_rs::persistent_graph::PersistentGraph;
use axolotl_rs::wal::ReplayOp;
use axolotl_rs::{Properties, PropertyValue};

fn props(kvs: &[(&str, PropertyValue)]) -> Properties {
    let mut m = Properties::new();
    for (k, v) in kvs {
        m.insert(k.to_string(), v.clone());
    }
    m
}

#[test]
fn test_persistent_graph_save_load() {
    let mut g = PersistentGraph::new("/tmp/test_persistent_graph.bin".to_string());
    g.add_vertex(
        1,
        props(&[
            ("name", PropertyValue::String("Alice".to_string())),
            ("age", PropertyValue::Int(30)),
            ("score", PropertyValue::Double(95.5f64.to_bits())),
            ("active", PropertyValue::Bool(true)),
        ]),
    );
    g.add_vertex(2, props(&[("name", PropertyValue::String("Bob".to_string()))]));
    g.add_edge(1, 2, 1.0f64.to_bits(), props(&[("type", PropertyValue::String("knows".to_string()))]));
    let bytes = g.to_bytes();
    let g2 = PersistentGraph::from_bytes(&bytes, "/tmp/test_persistent_graph.bin".to_string()).unwrap();
    assert_eq!(g2.vertex_count(), 2);
    assert_eq!(g2.edge_count(), 1);
    let alice = g2.get_vertex(1).unwrap();
    assert_eq!(alice.get("name"), Some(&PropertyValue::String("Alice".to_string())));
    assert_eq!(alice.get("age"), Some(&PropertyValue::Int(30)));
    let e = g2.get_edge(1, 2).unwrap();
    assert_eq!(f64::from_bits(e.weight_bits), 1.0);
    assert_eq!(e.properties.get("type"), Some(&PropertyValue::String("knows".to_string())));
}

#[test]
fn graph_file_header_layout() {
    let mut g = PersistentGraph::new(String::new());
    g.add_vertex(7, Properties::new());
    let bytes = g.to_bytes();
    assert_eq!(&bytes[0..4], b"AXOL");
    assert_eq!(&bytes[4..6], &[0, 1]);
    assert_eq!(&bytes[6..14], &1u64.to_be_bytes());
    assert_eq!(&bytes[14..22], &0u64.to_be_bytes());
    assert_eq!(&bytes[22..38], &[0u8; 16]);
    assert_eq!(&bytes[38..46], &7u64.to_be_bytes());
    assert_eq!(&bytes[46..50], &[0, 0, 0, 0]);
    assert_eq!(bytes.len(), 50);
}

#[test]
fn reading_bad_files_fails() {
    assert!(matches!(PersistentGraph::from_bytes(b"AX", String::new()), Err(DecodeError::UnexpectedEof)));
    assert!(matches!(PersistentGraph::from_bytes(b"NOPE0000000000000000000000000000000000", String::new()), Err(DecodeError::InvalidData)));
    let mut g = PersistentGraph::new(String::new());
    g.add_vertex(1, props(&[("k", PropertyValue::Int(1))]));
    let mut bytes = g.to_bytes();
    bytes[5] = 2;
    assert!(matches!(PersistentGraph::from_bytes(&bytes, String::new()), Err(DecodeError::InvalidData)));
    let good = g.to_bytes();
    let truncated = &good[..good.len() - 3];
    assert!(matches!(PersistentGraph::from_bytes(truncated, String::new()), Err(DecodeError::UnexpectedEof)));
}

#[test]
fn edges_create_endpoints_and_deleting_a_vertex_drops_its_edges() {
    let mut g = PersistentGraph::new(String::new());
    g.add_edge(1, 2, 0, Properties::new());
    g.add_edge(2, 3, 0, Properties::new());
    g.add_edge(3, 1, 0, Properties::new());
    assert_eq!(g.vertex_count(), 3);
    assert_eq!(g.out_neighbors(1), vec![2]);
    assert_eq!(g.in_neighbors(1), vec![3]);
    let removed = g.delete_vertex(2);
    assert!(removed.is_some());
    assert_eq!(g.vertex_count(), 2);
    assert_eq!(g.edge_count(), 1);
    assert!(g.get_edge(3, 1).is_some());
    assert!(g.delete_vertex(2).is_none());
    let (w, _) = g.delete_edge(3, 1).unwrap();
    assert_eq!(w, 0);
    assert_eq!(g.edge_count(), 0);
}

#[test]
fn update_touches_only_existing_vertices() {
    let mut g = PersistentGraph::new(String::new());
    g.add_vertex(1, props(&[("v", PropertyValue::Int(1))]));
    g.update_vertex(1, props(&[("v", PropertyValue::Int(2))]));
    g.update_vertex(9, props(&[("v", PropertyValue::Int(3))]));
    assert_eq!(g.get_vertex(1).unwrap().get("v"), Some(&PropertyValue::Int(2)));
    assert!(g.get_vertex(9).is_none());
}

#[test]
fn replay_applies_logged_operations() {
    let mut g = PersistentGraph::new(String::new());
    g.replay(&ReplayOp::AddVertex { id: 4, properties_json: None }, props(&[("a", PropertyValue::Null)]));
    g.replay(&ReplayOp::AddEdge { from: 4, to: 5, weight_bits: 3, properties_json: None }, Properties::new());
    assert_eq!(g.vertex_count(), 2);
    g.replay(&ReplayOp::DeleteVertex { id: 5 }, Properties::new());
    assert_eq!(g.vertex_count(), 1);
    assert_eq!(g.edge_count(), 1);
    g.replay(&ReplayOp::DeleteEdge { from: 4, to: 5 }, Properties::new());
    assert_eq!(g.edge_count(), 0);
    g.replay(&ReplayOp::Skip, Properties::new());
    assert_eq!(g.vertex_count(), 1);
}

fn make_graph() -> PersistentGraph {
    let mut g = PersistentGraph::new("/tmp/test_query.bin".to_string());
    g.add_vertex(
        1,
        props(&[("name", PropertyValue::String("Alice".to_string())), ("age", PropertyValue::Int(30))]),
    );
    g.add_vertex(
        2,
        props(&[("name", PropertyValue::String("Bob".to_string())), ("age", PropertyValue::Int(25))]),
    );
    g.add_vertex(
        3,
        props(&[("name", PropertyValue::String("Charlie".to_string())), ("age", PropertyValue::Int(30))]),
    );
    let knows = props(&[("type", PropertyValue::String("knows".to_string()))]);
    g.add_edge(1, 2, 1.0f64.to_bits(), knows.duplicate());
    g.add_edge(2, 3, 1.0f64.to_bits(), knows);
    g
}

#[test]
fn test_find_vertex_by_property() {
    let g = make_graph();
    let results = g.find_vertex().with_property("name", PropertyValue::String("Alice".to_string())).execute();
    assert_eq!(results.len(), 1);
    assert_eq!(results[0], 1);
}

#[test]
fn test_find_vertex_by_property_no_index() {
    let g = make_graph();
    let results = g.find_vertex().with_property("age", PropertyValue::Int(30)).execute();
    assert_eq!(results.len(), 2);
}

#[test]
fn query_test_out_neighbors() {
    let g = make_graph();
    let neighbors = g.out_neighbors(1);
    assert_eq!(neighbors.len(), 1);
    assert_eq!(neighbors[0], 2);
}

#[test]
fn query_test_shortest_path() {
    let g = make_graph();
    let path = g.shortest_path(1, 3);
    assert_eq!(path, vec![1, 2, 3]);
}

#[test]
fn test_find_edges() {
    let g = make_graph();
    let edges = g.find_edges().from(1).execute();
    assert_eq!(edges.len(), 1);
    assert_eq!(edges[0].0, (1, 2));
}

#[test]
fn shortest_path_edge_cases() {
    let mut g = make_graph();
    assert_eq!(g.shortest_path(3, 1), Vec::<u64>::new());
    assert_eq!(g.shortest_path(5, 5), vec![5]);
    g.add_edge(1, 3, 0, Properties::new());
    assert_eq!(g.shortest_path(1, 3), vec![1, 3]);
}

#[test]
fn vertex_query_by_id_and_properties() {
    let g = make_graph();
    assert_eq!(g.find_vertex().with_id(2).execute(), vec![2]);
    assert!(g.find_vertex().with_id(2).with_property("age", PropertyValue::Int(30)).execute().is_empty());
    let all = g.find_vertex().execute_with_properties();
    assert_eq!(all.len(), 3);
    assert_eq!(all[2].0, 3);
    assert_eq!(all[2].1.get("name"), Some(&PropertyValue::String("Charlie".to_string())));
    let knows = g.find_edges().with_edge_property("type", PropertyValue::String("knows".to_string())).to(3).execute();
    assert_eq!(knows.len(), 1);
    assert_eq!(knows[0].0, (2, 3));
}

#[test]
fn test_find_vertex_with_index() {
    let mut g = make_graph();
    g.create_index("idx_name", "name", false).unwrap();
    let results = g.find_vertex().with_property("name", PropertyValue::String("Alice".to_string())).execute();
    assert_eq!(results.len(), 1);
    assert_eq!(results[0], 1);
}

#[test]
fn graph_indexes_follow_updates() {
    let mut g = make_graph();
    g.create_index("idx_age", "age", false).unwrap();
    assert_eq!(g.create_index("idx_age", "name", false), Err("index already exists: idx_age".to_string()));
    let defs = g.list_indexes();
    assert_eq!(defs.len(), 1);
    assert_eq!(defs[0].property_key, "age");
    assert_eq!(g.index_lookup("age", &PropertyValue::Int(30)), Some(vec![1, 3]));
    assert_eq!(g.index_lookup("name", &PropertyValue::Int(30)), None);
    // answers come in index order, and match a scan
    g.add_vertex(0, props(&[("age", PropertyValue::Int(30))]));
    let q = g.find_vertex().with_property("age", PropertyValue::Int(30)).execute();
    assert_eq!(q, vec![1, 3, 0]);
    g.update_vertex(3, props(&[("age", PropertyValue::Int(31))]));
    assert_eq!(g.index_lookup("age", &PropertyValue::Int(30)), Some(vec![1, 0]));
    assert_eq!(g.index_lookup("age", &PropertyValue::Int(31)), Some(vec![3]));
    g.delete_vertex(1);
    assert_eq!(g.find_vertex().with_property("age", PropertyValue::Int(30)).execute(), vec![0]);
    g.drop_index("idx_age").unwrap();
    assert_eq!(g.drop_index("idx_age"), Err("index not found: idx_age".to_string()));
    assert!(g.list_indexes().is_empty());
    assert_eq!(g.find_vertex().with_property("age", PropertyValue::Int(30)).execute(), vec![0]);
}

#[test]
fn unique_index_answers_latest_vertex() {
    let mut g = make_graph();
    g.create_index("u_age", "age", true).unwrap();
    // both 1 and 3 are 30; a unique index keeps the later one
    assert_eq!(g.index_lookup("age", &PropertyValue::Int(30)), Some(vec![3]));
    assert_eq!(g.find_vertex().with_property("age", PropertyValue::Int(30)).execute(), vec![3]);
}

#[test]
fn all_neighbors_lists_both_directions_once() {
    let mut g = make_graph();
    g.add_edge(3, 2, 1.0f64.to_bits(), Properties::new());
    let mut n = g.all_neighbors(2);
    n.sort();
    assert_eq!(n, vec![1, 3]);
    assert_eq!(g.all_neighbors(1), vec![2]);
    assert!(g.all_neighbors(99).is_empty());
}

#[test]
fn replacing_a_vertex_moves_it_in_the_indexes() {
    let mut g = PersistentGraph::new("/tmp/test_replace_index.bin".to_string());
    g.create_index("idx_name", "name", false).unwrap();
    g.add_vertex(1, props(&[("name", PropertyValue::String("Alice".to_string()))]));
    g.add_vertex(1, props(&[("name", PropertyValue::String("Bob".to_string()))]));
    assert_eq!(g.index_lookup("name", &PropertyValue::String("Alice".to_string())), Some(vec![]));
    assert_eq!(g.index_lookup("name", &PropertyValue::String("Bob".to_string())), Some(vec![1]));
}
