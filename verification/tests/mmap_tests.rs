use axolotl_rs::mmap_graph::{convert_from, decode_properties, encode_properties, MmapError, MmapGraph};
use axolotl_rs::persistent_graph::PersistentGraph;
use axolotl_rs::{Properties, PropertyValue};

fn setup_test_graph() -> PersistentGraph {
    let mut g = PersistentGraph::new("/tmp/test_mmap_convert.bin".to_string());
    let mut alice = Properties::new();
    alice.insert("name".to_string(), PropertyValue::String("Alice".to_string()));
    alice.insert("age".to_string(), PropertyValue::Int(28));
    g.add_vertex(1, alice);
    let mut bob = Properties::new();
    bob.insert("name".to_string(), PropertyValue::String("Bob".to_string()));
    g.add_vertex(2, bob);
    g.add_edge(1, 2, 1.0f64.to_bits(), Properties::new());
    g
}

fn name(p: &Properties) -> Option<String> {
    match p.get("name") {
        Some(PropertyValue::String(s)) => Some(s.clone()),
        _ => None,
    }
}

#[test]
fn test_convert_and_open() {
    let g = setup_test_graph();
    let bytes = convert_from(&g);
    let mmap_g = MmapGraph::open(&bytes).expect("open failed");
    assert!(mmap_g.check_layout());
    assert_eq!(mmap_g.vertex_count(), 2);
    assert_eq!(mmap_g.edge_count(), 1);
    let alice = mmap_g.get_vertex(1).expect("Alice not found");
    assert_eq!(name(&alice), Some("Alice".to_string()));
    let (weight, _) = mmap_g.get_edge(1, 2).expect("edge not found");
    assert_eq!(f64::from_bits(weight), 1.0);
}

#[test]
fn mmap_graph_test_out_neighbors() {
    let g = setup_test_graph();
    let bytes = convert_from(&g);
    let mmap_g = MmapGraph::open(&bytes).unwrap();
    assert!(mmap_g.check_layout());
    let neighbors = mmap_g.out_neighbors(1);
    assert_eq!(neighbors, vec![2]);
    let empty = mmap_g.out_neighbors(999);
    assert!(empty.is_empty());
}

#[test]
fn test_iter_vertices() {
    let g = setup_test_graph();
    let bytes = convert_from(&g);
    let mmap_g = MmapGraph::open(&bytes).unwrap();
    assert!(mmap_g.check_layout());
    let vertices = mmap_g.iter_vertices();
    assert_eq!(vertices.len(), 2);
    for (id, props) in &vertices {
        if *id == 1 {
            assert_eq!(name(props), Some("Alice".to_string()));
        }
    }
}

#[test]
fn test_iter_edges() {
    let g = setup_test_graph();
    let bytes = convert_from(&g);
    let mmap_g = MmapGraph::open(&bytes).unwrap();
    assert!(mmap_g.check_layout());
    let edges = mmap_g.iter_edges();
    assert_eq!(edges.len(), 1);
    let (from, to, w, props) = &edges[0];
    assert_eq!((*from, *to, f64::from_bits(*w)), (1, 2, 1.0));
    assert!(props.is_empty());
}

#[test]
fn test_open_invalid_file() {
    assert_eq!(MmapGraph::open(&[]).err(), Some(MmapError::TooSmallForHeader));
    let mut bad = b"XXXX".to_vec();
    bad.resize(64, 0);
    assert_eq!(MmapGraph::open(&bad).err(), Some(MmapError::InvalidMagic));
    assert_eq!(MmapError::InvalidMagic.message(), "invalid magic");
}

#[test]
fn mmap_header_layout() {
    let g = setup_test_graph();
    let bytes = convert_from(&g);
    assert_eq!(&bytes[0..4], b"AXOM");
    assert_eq!(u16::from_le_bytes([bytes[4], bytes[5]]), 1);
    let word = |o: usize| u64::from_le_bytes(bytes[o..o + 8].try_into().unwrap());
    assert_eq!(word(8), 2);
    assert_eq!(word(16), 1);
    assert_eq!(word(24), 64);
    assert_eq!(word(32), 64 + 48);
    let edo = word(48) as usize;
    assert_eq!(word(40) as usize + 40, edo);
    assert_eq!(bytes.len(), edo + 4);
    // first vertex entry: id 1, data right after the index
    assert_eq!(word(64), 1);
    assert_eq!(word(72), 112);
    let mut short = bytes.clone();
    short.truncate(edo - 1);
    assert_eq!(MmapGraph::open(&short).err(), Some(MmapError::TooSmallForEdgeData));
    let mut v2 = bytes.clone();
    v2[4] = 2;
    assert_eq!(MmapGraph::open(&v2).err(), Some(MmapError::UnsupportedVersion));
}

#[test]
fn mmap_property_codec_roundtrip_and_lenience() {
    let mut p = Properties::new();
    p.insert("z".to_string(), PropertyValue::Double(2.5f64.to_bits()));
    p.insert("a".to_string(), PropertyValue::Bool(true));
    p.insert("m".to_string(), PropertyValue::Null);
    p.insert("s".to_string(), PropertyValue::String("héllo".to_string()));
    p.insert("i".to_string(), PropertyValue::Int(-7));
    let enc = encode_properties(&p);
    assert_eq!(&enc[0..4], &5u32.to_le_bytes());
    // keys in byte order: "a" first
    assert_eq!(&enc[4..9], &[1, 0, 0, 0, b'a']);
    let back = decode_properties(&enc);
    assert_eq!(back.len(), 5);
    assert!(matches!(back.get("i"), Some(PropertyValue::Int(-7))));
    assert!(matches!(back.get("s"), Some(PropertyValue::String(s)) if s == "héllo"));
    assert!(matches!(back.get("z"), Some(PropertyValue::Double(b)) if f64::from_bits(*b) == 2.5));
    // truncated input keeps what was read
    let cut = decode_properties(&enc[..12]);
    assert_eq!(cut.len(), 1);
    assert!(decode_properties(&[1, 2]).is_empty());
    // an unknown tag skips itself and one more byte
    let odd = vec![2, 0, 0, 0, 1, 0, 0, 0, b'x', 9, 0, 1, 0, 0, 0, b'y', 4];
    let d = decode_properties(&odd);
    assert_eq!(d.len(), 1);
    assert!(matches!(d.get("y"), Some(PropertyValue::Null)));
}

#[test]
fn mmap_lookups_follow_the_index() {
    let mut g = PersistentGraph::new(String::new());
    for id in [5u64, 1, 9, 3] {
        let mut p = Properties::new();
        p.insert("id".to_string(), PropertyValue::Int(id as i64));
        g.add_vertex(id, p);
    }
    g.add_edge(1, 3, 0, Properties::new());
    g.add_edge(1, 5, 0, Properties::new());
    g.add_edge(3, 9, 0, Properties::new());
    let bytes = convert_from(&g);
    let m = MmapGraph::open(&bytes).unwrap();
    assert!(m.check_layout());
    for id in [1u64, 3, 5, 9] {
        let p = m.get_vertex(id).unwrap();
        assert!(matches!(p.get("id"), Some(PropertyValue::Int(x)) if *x == id as i64));
    }
    assert!(m.get_vertex(4).is_none());
    assert_eq!(m.out_neighbors(3), vec![9]);
    assert!(m.get_edge(3, 9).is_some());
    assert!(m.get_edge(9, 3).is_none());
    let ids: Vec<u64> = m.iter_vertices().iter().map(|(id, _)| *id).collect();
    assert_eq!(ids, vec![1, 3, 5, 9]);
}

#[test]
fn mmap_get_edge_finds_every_edge() {
    let mut g = PersistentGraph::new("/tmp/test_mmap_lookup.bin".to_string());
    g.add_edge(1, 5, 1.0f64.to_bits(), Properties::new());
    g.add_edge(2, 1, 2.0f64.to_bits(), Properties::new());
    let bytes = convert_from(&g);
    let m = MmapGraph::open(&bytes).unwrap();
    assert!(m.check_layout());
    assert_eq!(m.get_edge(1, 5).map(|e| f64::from_bits(e.0)), Some(1.0));
    assert_eq!(m.get_edge(2, 1).map(|e| f64::from_bits(e.0)), Some(2.0));
    assert!(m.get_edge(1, 1).is_none());
}

#[test]
fn mmap_out_neighbors_lists_all_targets() {
    let mut g = PersistentGraph::new("/tmp/test_mmap_targets.bin".to_string());
    for t in [2u64, 3, 4] {
        g.add_edge(1, t, 1.0f64.to_bits(), Properties::new());
    }
    g.add_edge(0, 9, 1.0f64.to_bits(), Properties::new());
    let bytes = convert_from(&g);
    let m = MmapGraph::open(&bytes).unwrap();
    assert!(m.check_layout());
    assert_eq!(m.out_neighbors(1), vec![2, 3, 4]);
    assert!(m.out_neighbors(999).is_empty());
}
