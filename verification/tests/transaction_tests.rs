use axolotl_rs::persistent_graph::PersistentGraph;
use axolotl_rs::transaction::{Transaction, TxError, TxState};
use axolotl_rs::{Properties, PropertyValue};

fn name(n: &str) -> Properties {
    let mut p = Properties::new();
    p.insert("name".to_string(), PropertyValue::String(n.to_string()));
    p
}

#[test]
fn test_transaction_commit() {
    let mut graph = PersistentGraph::new("/tmp/test_tx_graph.bin".to_string());
    let mut tx = Transaction::begin(1);
    tx.add_vertex(&mut graph, 1, name("Alice")).unwrap();
    let mut edge_props = Properties::new();
    edge_props.insert("type".to_string(), PropertyValue::String("knows".to_string()));
    tx.add_edge(&mut graph, 1, 2, 1.0f64.to_bits(), edge_props).unwrap();
    tx.commit().unwrap();
    assert_eq!(graph.vertex_count(), 2);
    assert_eq!(graph.edge_count(), 1);
}

#[test]
fn test_transaction_rollback() {
    let mut graph = PersistentGraph::new("/tmp/test_tx_graph.bin".to_string());
    let mut tx = Transaction::begin(1);
    tx.add_vertex(&mut graph, 1, name("Alice")).unwrap();
    tx.rollback(&mut graph).unwrap();
    assert_eq!(graph.vertex_count(), 0);
    assert_eq!(tx.state(), TxState::RolledBack);
}

#[test]
fn test_transaction_query_after_commit() {
    let mut graph = PersistentGraph::new("/tmp/test_tx_graph.bin".to_string());
    let mut tx = Transaction::begin(1);
    tx.add_vertex(&mut graph, 1, name("Alice")).unwrap();
    tx.commit().unwrap();
    let results = graph.find_vertex().with_property("name", PropertyValue::String("Alice".to_string())).execute();
    assert_eq!(results.len(), 1);
    assert_eq!(results[0], 1);
}

#[test]
fn finished_transactions_refuse_work() {
    let mut graph = PersistentGraph::new(String::new());
    let mut tx = Transaction::begin(9);
    assert_eq!(tx.tx_id(), 9);
    tx.commit().unwrap();
    assert_eq!(tx.commit(), Err(TxError::NotActive));
    assert_eq!(tx.add_vertex(&mut graph, 1, Properties::new()), Err(TxError::NotActive));
    assert_eq!(tx.rollback(&mut graph), Err(TxError::NotActive));
    assert_eq!(graph.vertex_count(), 0);
}

#[test]
fn rollback_puts_deleted_things_back() {
    let mut graph = PersistentGraph::new(String::new());
    graph.add_vertex(1, name("A"));
    graph.add_vertex(2, name("B"));
    graph.add_edge(1, 2, 5, Properties::new());
    let before = graph.to_bytes();
    let mut tx = Transaction::begin(3);
    tx.delete_edge(&mut graph, 1, 2).unwrap();
    tx.delete_vertex(&mut graph, 2).unwrap();
    tx.add_vertex(&mut graph, 3, name("C")).unwrap();
    tx.add_edge(&mut graph, 1, 3, 7, Properties::new()).unwrap();
    assert_eq!(graph.vertex_count(), 2);
    tx.rollback(&mut graph).unwrap();
    assert_eq!(graph.to_bytes(), before);
}

#[test]
fn rollback_restores_replaced_vertex_and_removes_created_endpoints() {
    let mut graph = PersistentGraph::new("/tmp/test_tx_restore.bin".to_string());
    graph.add_vertex(1, Properties::new());
    let mut tx = Transaction::begin(7);
    tx.add_vertex(&mut graph, 1, name("Alice")).unwrap();
    tx.add_edge(&mut graph, 1, 2, 1.0f64.to_bits(), Properties::new()).unwrap();
    assert_eq!(graph.vertex_count(), 2);
    tx.rollback(&mut graph).unwrap();
    assert_eq!(graph.vertex_count(), 1);
    assert_eq!(graph.edge_count(), 0);
    assert!(graph.get_vertex(1).unwrap().is_empty());
    assert!(!graph.contains_vertex(2));
}
