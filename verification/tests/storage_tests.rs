use axolotl_rs::compact_edges::CompactEdgeStore;
use axolotl_rs::compact_storage::{decode_properties, encode_properties, CompactVertexStore};
use axolotl_rs::edgeblock_format::{read_u32_vec, write_u32_slice};
use axolotl_rs::gpu_edge_block::GPUEdgeBlockGraph;
use axolotl_rs::persistence::{read_property_value, read_string, read_u32, write_property_value, write_string, write_u32, DecodeError};
use axolotl_rs::{Properties, PropertyValue};

fn make_props(kvs: &[(&str, PropertyValue)]) -> Properties {
    let mut m = Properties::new();
    for (k, v) in kvs {
        m.insert(k.to_string(), v.clone());
    }
    m
}

#[test]
fn test_compact_vertex_store_insert_get() {
    let mut store = CompactVertexStore::new();
    let props = make_props(&[
        ("name", PropertyValue::String("Alice".to_string())),
        ("age", PropertyValue::Int(30)),
    ]);
    store.insert(1, &props);
    let result = store.get(1).unwrap();
    assert_eq!(result.get("name"), Some(&PropertyValue::String("Alice".to_string())));
    assert_eq!(result.get("age"), Some(&PropertyValue::Int(30)));
}

#[test]
fn test_compact_vertex_store_update() {
    let mut store = CompactVertexStore::new();
    store.insert(1, &make_props(&[("name", PropertyValue::String("Alice".to_string()))]));
    store.insert(1, &make_props(&[("name", PropertyValue::String("Bob".to_string()))]));
    let result = store.get(1).unwrap();
    assert_eq!(result.get("name"), Some(&PropertyValue::String("Bob".to_string())));
}

#[test]
fn test_compact_vertex_store_remove() {
    let mut store = CompactVertexStore::new();
    store.insert(1, &make_props(&[("name", PropertyValue::String("Alice".to_string()))]));
    let removed = store.remove(1).unwrap();
    assert_eq!(removed.get("name"), Some(&PropertyValue::String("Alice".to_string())));
    assert!(store.get(1).is_none());
}

#[test]
fn test_compact_vertex_store_iter() {
    let mut store = CompactVertexStore::new();
    store.insert(1, &make_props(&[("name", PropertyValue::String("A".to_string()))]));
    store.insert(3, &make_props(&[("name", PropertyValue::String("C".to_string()))]));
    store.insert(2, &make_props(&[("name", PropertyValue::String("B".to_string()))]));
    let ids: Vec<u64> = store.keys();
    assert_eq!(ids, vec![1, 2, 3]);
}

#[test]
fn test_encode_decode_properties() {
    let props = make_props(&[
        ("name", PropertyValue::String("Alice".to_string())),
        ("age", PropertyValue::Int(30)),
        ("score", PropertyValue::Double(95.5f64.to_bits())),
        ("active", PropertyValue::Bool(true)),
    ]);
    let encoded = encode_properties(&props);
    let decoded = decode_properties(&encoded);
    assert_eq!(decoded.get("name"), props.get("name"));
    assert_eq!(decoded.get("age"), props.get("age"));
    assert_eq!(decoded.get("score"), props.get("score"));
    assert_eq!(decoded.get("active"), props.get("active"));
}

#[test]
fn test_roundtrip_hashmap() {
    let original = vec![
        (1u64, make_props(&[("name", PropertyValue::String("Alice".to_string()))])),
        (2u64, make_props(&[("name", PropertyValue::String("Bob".to_string()))])),
    ];
    let store = CompactVertexStore::from_hashmap(&original);
    let restored = store.to_hashmap();
    assert_eq!(original.len(), restored.len());
    for (id, props) in &original {
        let (_, back) = restored.iter().find(|(rid, _)| rid == id).unwrap();
        assert_eq!(back.len(), props.len());
        assert_eq!(back.get("name"), props.get("name"));
    }
}

#[test]
fn encoded_properties_are_sorted_by_key() {
    let props = make_props(&[("b", PropertyValue::Int(2)), ("a", PropertyValue::Null)]);
    let bytes = encode_properties(&props);
    // the entry count, then key "a" (length 1) first
    assert_eq!(&bytes[0..4], &[0, 0, 0, 2]);
    assert_eq!(&bytes[4..9], &[0, 0, 0, 1, b'a']);
    let back = decode_properties(&bytes);
    assert_eq!(back.get("a"), Some(&PropertyValue::Null));
    assert_eq!(back.get("b"), Some(&PropertyValue::Int(2)));
}

#[test]
fn property_value_codec_roundtrip() {
    let values = vec![
        PropertyValue::Int(-7),
        PropertyValue::String("héllo".to_string()),
        PropertyValue::Double(1.25f64.to_bits()),
        PropertyValue::Bool(false),
        PropertyValue::Null,
    ];
    for v in values {
        let mut buf = Vec::new();
        write_property_value(&mut buf, &v);
        let mut pos = 0usize;
        let back = read_property_value(&buf, &mut pos).unwrap();
        assert_eq!(back, v);
        assert_eq!(pos, buf.len());
    }
}

#[test]
fn reading_past_the_end_is_eof_and_bad_tag_is_invalid() {
    let mut buf = Vec::new();
    write_u32(&mut buf, 0xdead_beef);
    assert_eq!(buf, vec![0xde, 0xad, 0xbe, 0xef]);
    let mut pos = 0usize;
    assert_eq!(read_u32(&buf, &mut pos).unwrap(), 0xdead_beef);
    assert_eq!(pos, 4);
    let mut pos = 1usize;
    assert!(matches!(read_u32(&buf, &mut pos), Err(DecodeError::UnexpectedEof)));
    let bad = vec![9u8];
    let mut pos = 0usize;
    assert!(matches!(read_property_value(&bad, &mut pos), Err(DecodeError::InvalidData)));
    let mut s = Vec::new();
    write_string(&mut s, "graph");
    let mut pos = 0usize;
    assert_eq!(read_string(&s, &mut pos).unwrap(), "graph");
    let invalid_utf8 = vec![0u8, 0, 0, 2, 0xff, 0xfe];
    let mut pos = 0usize;
    assert!(matches!(read_string(&invalid_utf8, &mut pos), Err(DecodeError::InvalidData)));
}

#[test]
fn u32_slice_roundtrip() {
    let mut buf = Vec::new();
    write_u32_slice(&mut buf, &[1, 2, 0xffff_ffff]);
    let mut pos = 0usize;
    let v = read_u32_vec(&buf, &mut pos).unwrap();
    assert_eq!(v, vec![1, 2, 0xffff_ffff]);
}

#[test]
fn graph_bytes_roundtrip() {
    let mut g = GPUEdgeBlockGraph::new();
    g.add_vertex(10, make_props(&[("name", PropertyValue::String("x".to_string()))]));
    g.add_vertex(20, Properties::new());
    g.add_edge(10, 20);
    g.add_edge(20, 10);
    let bytes = g.to_bytes();
    let back = GPUEdgeBlockGraph::from_bytes(&bytes).unwrap();
    assert_eq!(back.vertex_count, 2);
    assert_eq!(back.total_edges, 2);
    assert_eq!(back.out_neighbors(10), vec![20]);
    assert_eq!(back.in_neighbors(10), vec![20]);
    assert_eq!(back.get_vertex(10).unwrap().get("name"), Some(&PropertyValue::String("x".to_string())));
    let mut broken = bytes.clone();
    broken[0] = b'X';
    assert!(GPUEdgeBlockGraph::from_bytes(&broken).is_err());
}

#[test]
fn test_compact_edge_store() {
    let mut store = CompactEdgeStore::new();
    store.insert(1, 2, 1.0f64.to_bits(), &make_props(&[("type", PropertyValue::String("knows".to_string()))]));
    store.insert(2, 3, 0.5f64.to_bits(), &make_props(&[("type", PropertyValue::String("likes".to_string()))]));
    let (weight, props) = store.get(1, 2).unwrap();
    assert_eq!(f64::from_bits(weight), 1.0);
    assert_eq!(props.get("type"), Some(&PropertyValue::String("knows".to_string())));
}

#[test]
fn compact_edge_store_keeps_edges_sorted_and_removes() {
    let mut store = CompactEdgeStore::new();
    store.insert(2, 1, 7, &Properties::new());
    store.insert(1, 9, 8, &Properties::new());
    store.insert(1, 3, 9, &Properties::new());
    store.insert(1, 3, 10, &Properties::new());
    assert_eq!(store.len(), 3);
    assert_eq!(store.keys(), vec![(1, 3), (1, 9), (2, 1)]);
    assert!(store.contains_key(1, 9));
    assert_eq!(store.remove(1, 3).map(|e| e.0), Some(10));
    assert!(store.remove(1, 3).is_none());
    let all = store.iter();
    assert_eq!(all.len(), 2);
    assert_eq!((all[0].0, all[0].1), ((1, 9), 8));
    let back = CompactEdgeStore::from_hashmap(&store.to_hashmap());
    assert_eq!(back.keys(), store.keys());
    store.clear();
    assert!(store.is_empty());
}
