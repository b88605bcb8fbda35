use axolotl_rs::index::{HashIndex, IndexDef, IndexManager, IndexType};
use axolotl_rs::persistent_graph::PersistentGraph;
use axolotl_rs::{Properties, PropertyValue};

fn make_props(kvs: &[(&str, PropertyValue)]) -> Properties {
    let mut m = Properties::new();
    for (k, v) in kvs {
        m.insert(k.to_string(), v.clone());
    }
    m
}

fn def(name: &str, key: &str, unique: bool) -> IndexDef {
    IndexDef { name: name.to_string(), property_key: key.to_string(), index_type: IndexType::Hash, unique }
}

fn s(x: &str) -> PropertyValue {
    PropertyValue::String(x.to_string())
}

#[test]
fn test_hash_index_insert_query() {
    let mut idx = HashIndex::new(def("idx_name", "name", false));
    idx.insert(1, s("Alice"));
    idx.insert(2, s("Bob"));
    idx.insert(3, s("Alice"));

    let alice_ids = idx.query_exact(&s("Alice"));
    assert_eq!(alice_ids.len(), 2);
    assert!(alice_ids.contains(&1));
    assert!(alice_ids.contains(&3));

    let bob_ids = idx.query_exact(&s("Bob"));
    assert_eq!(bob_ids, vec![2]);
}

#[test]
fn test_hash_index_remove() {
    let mut idx = HashIndex::new(def("idx_age", "age", false));
    idx.insert(1, PropertyValue::Int(30));
    idx.insert(2, PropertyValue::Int(30));
    idx.insert(3, PropertyValue::Int(25));
    idx.remove(1);
    let ids = idx.query_exact(&PropertyValue::Int(30));
    assert_eq!(ids, vec![2]);
}

#[test]
fn test_index_manager_create_query() {
    let mut mgr = IndexManager::new();
    mgr.create_index("idx_name", "name", IndexType::Hash, false).unwrap();
    let props1 = make_props(&[("name", s("Alice"))]);
    let props2 = make_props(&[("name", s("Bob"))]);
    let props3 = make_props(&[("name", s("Alice"))]);
    mgr.on_vertex_added(1, &props1);
    mgr.on_vertex_added(2, &props2);
    mgr.on_vertex_added(3, &props3);
    let result = mgr.query_exact("name", &s("Alice"));
    assert!(result.is_some());
    let ids = result.unwrap();
    assert_eq!(ids.len(), 2);
    assert!(ids.contains(&1));
    assert!(ids.contains(&3));
}

#[test]
fn test_index_manager_update() {
    let mut mgr = IndexManager::new();
    mgr.create_index("idx_age", "age", IndexType::Hash, false).unwrap();
    let old_props = make_props(&[("age", PropertyValue::Int(30))]);
    let new_props = make_props(&[("age", PropertyValue::Int(31))]);
    mgr.on_vertex_added(1, &old_props);
    mgr.on_vertex_updated(1, &old_props, &new_props);
    let old_result = mgr.query_exact("age", &PropertyValue::Int(30));
    assert!(old_result.is_some());
    assert!(old_result.unwrap().is_empty());
    let new_result = mgr.query_exact("age", &PropertyValue::Int(31));
    assert!(new_result.is_some());
    assert_eq!(new_result.unwrap(), vec![1]);
}

#[test]
fn test_index_manager_rebuild() {
    let mut mgr = IndexManager::new();
    mgr.create_index("idx_name", "name", IndexType::Hash, false).unwrap();
    let mut vertices = PersistentGraph::new(String::new());
    vertices.add_vertex(1, make_props(&[("name", s("Alice"))]));
    vertices.add_vertex(2, make_props(&[("name", s("Bob"))]));
    mgr.rebuild_all(&vertices);
    let result = mgr.query_exact("name", &s("Alice"));
    assert!(result.is_some());
    assert_eq!(result.unwrap(), vec![1]);
}

#[test]
fn test_no_index_fallback() {
    let mgr = IndexManager::new();
    let result = mgr.query_exact("name", &s("Alice"));
    assert!(result.is_none());
}

#[test]
fn index_names_are_unique_and_droppable() {
    let mut mgr = IndexManager::new();
    mgr.create_index("a", "name", IndexType::Hash, false).unwrap();
    assert_eq!(mgr.create_index("a", "age", IndexType::BTree, true), Err("index already exists: a".to_string()));
    mgr.create_index("b", "age", IndexType::BTree, true).unwrap();
    let defs = mgr.list_indexes();
    assert_eq!(defs.len(), 2);
    assert_eq!(defs[1].name, "b");
    assert_eq!(defs[1].property_key, "age");
    assert_eq!(defs[1].index_type, IndexType::BTree);
    assert!(defs[1].unique);
    assert!(mgr.has_index("age"));
    assert_eq!(mgr.drop_index("zzz"), Err("index not found: zzz".to_string()));
    mgr.drop_index("b").unwrap();
    assert!(!mgr.has_index("age"));
    assert!(mgr.query_exact("age", &PropertyValue::Int(1)).is_none());
}

#[test]
fn unique_index_keeps_one_vertex_per_value() {
    let mut idx = HashIndex::new(def("u", "email", true));
    idx.insert(1, s("a@x"));
    idx.insert(2, s("a@x"));
    assert_eq!(idx.query_exact(&s("a@x")), vec![2]);
    let mut plain = HashIndex::new(def("p", "email", false));
    plain.insert(1, s("a@x"));
    plain.insert(2, s("a@x"));
    assert_eq!(plain.query_exact(&s("a@x")), vec![1, 2]);
}

#[test]
fn query_in_merges_without_repeats() {
    let mut idx = HashIndex::new(def("i", "k", false));
    idx.insert(1, PropertyValue::Int(1));
    idx.insert(2, PropertyValue::Int(2));
    idx.insert(3, PropertyValue::Int(1));
    idx.insert(2, PropertyValue::Int(1));
    let r = idx.query_in(&[PropertyValue::Int(2), PropertyValue::Int(1), PropertyValue::Int(9)]);
    assert_eq!(r, vec![2, 1, 3]);
    let mut mgr = IndexManager::new();
    mgr.create_index("k1", "k", IndexType::Hash, false).unwrap();
    mgr.on_vertex_added(5, &make_props(&[("k", PropertyValue::Int(1)), ("z", PropertyValue::Null)]));
    assert_eq!(mgr.query_in("k", &[PropertyValue::Int(1)]), Some(vec![5]));
    assert_eq!(mgr.query_in("z", &[PropertyValue::Null]), None);
}

#[test]
fn deleted_vertex_leaves_indexes() {
    let mut mgr = IndexManager::new();
    mgr.create_index("n", "name", IndexType::Hash, false).unwrap();
    let p = make_props(&[("name", s("Alice"))]);
    mgr.on_vertex_added(1, &p);
    mgr.on_vertex_added(2, &p);
    mgr.on_vertex_deleted(1, &p);
    assert_eq!(mgr.query_exact("name", &s("Alice")), Some(vec![2]));
    let mut g = PersistentGraph::new(String::new());
    g.add_vertex(7, make_props(&[("name", s("Carol"))]));
    g.add_vertex(8, make_props(&[("age", PropertyValue::Int(3))]));
    mgr.create_index("a", "age", IndexType::Hash, false).unwrap();
    mgr.rebuild_property("age", &g);
    assert_eq!(mgr.query_exact("age", &PropertyValue::Int(3)), Some(vec![8]));
    assert_eq!(mgr.query_exact("name", &s("Alice")), Some(vec![2]));
}
