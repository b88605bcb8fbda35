use axolotl_rs::louvain::renumber;
use axolotl_rs::server::{parse_id, status_text};
use axolotl_rs::wal::{
    committed, count_entries, generate_tx_id, parse_wal_entry, parse_wal_log, recover_logs, replay_op,
    serialize_add_edge, serialize_add_vertex, serialize_edge_key, tx_id_from_nanos, LogEntry, OpType, ReplayOp,
    WalEntry,
};

fn record(tx: u64, op: OpType, data: Vec<u8>) -> Vec<u8> {
    WalEntry { tx_id: tx, op_type: op.code(), timestamp: 99, data }.serialize()
}

#[test]
fn wal_entry_serialize_deserialize_roundtrip() {
    let e = WalEntry { tx_id: 7, op_type: 2, timestamp: 123456, data: vec![1, 2, 3] };
    let bytes = e.serialize();
    assert_eq!(bytes.len(), 21 + 3);
    let back = WalEntry::deserialize(&bytes).unwrap();
    assert_eq!(back.tx_id, 7);
    assert_eq!(back.op_type, 2);
    assert_eq!(back.timestamp, 123456);
    assert_eq!(back.data, vec![1, 2, 3]);
    assert!(WalEntry::deserialize(&bytes[..23]).is_none());
}

#[test]
fn op_codes_roundtrip() {
    for c in 0u8..7 {
        assert_eq!(OpType::from_u8(c).unwrap().code(), c);
    }
    assert!(OpType::from_u8(7).is_none());
}

#[test]
fn parse_log_stops_at_first_bad_record() {
    let mut log = record(1, OpType::Begin, vec![]);
    log.extend(record(1, OpType::AddVertex, serialize_add_vertex(5, b"{}")));
    log.extend(record(1, OpType::Commit, vec![]));
    let (first, used) = parse_wal_entry(&log).unwrap();
    assert_eq!(first.op_type, OpType::Begin);
    assert_eq!(used, 21);
    let mut broken = log.clone();
    broken.extend(vec![0u8; 10]);
    let entries = parse_wal_log(&broken);
    assert_eq!(entries.len(), 3);
    assert!(committed(&entries));
    assert_eq!(count_entries(&entries, OpType::AddVertex), 1);
}

#[test]
fn recover_counts_committed_and_skipped() {
    let mut good = record(1, OpType::Begin, vec![]);
    good.extend(record(1, OpType::AddVertex, serialize_add_vertex(5, b"{\"a\":1}")));
    good.extend(record(1, OpType::AddEdge, serialize_add_edge(5, 6, 2.5f64.to_bits(), b"{}")));
    good.extend(record(1, OpType::Commit, vec![]));
    let mut rolled = record(2, OpType::Begin, vec![]);
    rolled.extend(record(2, OpType::AddVertex, serialize_add_vertex(9, b"{}")));
    rolled.extend(record(2, OpType::Rollback, vec![]));
    let mut open = record(3, OpType::Begin, vec![]);
    open.extend(record(3, OpType::AddVertex, serialize_add_vertex(10, b"{}")));
    let logs = vec![good, rolled, open, vec![]];
    let (ops, result) = recover_logs(&logs);
    assert_eq!(result.wal_files_found, 4);
    assert_eq!(result.transactions_replayed, 1);
    assert_eq!(result.transactions_skipped, 2);
    assert_eq!(result.vertices_added, 1);
    assert_eq!(result.edges_added, 1);
    assert_eq!(ops.len(), 4);
}

#[test]
fn replay_reads_back_what_was_logged() {
    let v = LogEntry { tx_id: 1, op_type: OpType::AddVertex, timestamp: 0, data: serialize_add_vertex(42, b"{\"k\":2}") };
    match replay_op(&v) {
        ReplayOp::AddVertex { id, properties_json } => {
            assert_eq!(id, 42);
            assert_eq!(properties_json.unwrap(), b"{\"k\":2}".to_vec());
        }
        other => panic!("unexpected {:?}", other),
    }
    let e = LogEntry { tx_id: 1, op_type: OpType::AddEdge, timestamp: 0, data: serialize_add_edge(1, 2, 0.5f64.to_bits(), b"") };
    match replay_op(&e) {
        ReplayOp::AddEdge { from, to, weight_bits, properties_json } => {
            assert_eq!((from, to), (1, 2));
            assert_eq!(f64::from_bits(weight_bits), 0.5);
            assert!(properties_json.is_none());
        }
        other => panic!("unexpected {:?}", other),
    }
    let d = LogEntry { tx_id: 1, op_type: OpType::DeleteEdge, timestamp: 0, data: serialize_edge_key(3, 4) };
    assert!(matches!(replay_op(&d), ReplayOp::DeleteEdge { from: 3, to: 4 }));
    let short = LogEntry { tx_id: 1, op_type: OpType::DeleteVertex, timestamp: 0, data: vec![1, 2] };
    assert!(matches!(replay_op(&short), ReplayOp::Skip));
    let marker = LogEntry { tx_id: 1, op_type: OpType::Commit, timestamp: 0, data: vec![] };
    assert!(matches!(replay_op(&marker), ReplayOp::Skip));
}

#[test]
fn tx_ids_come_from_the_clock() {
    assert_eq!(tx_id_from_nanos((1u128 << 64) + 5), 5);
    assert!(generate_tx_id().is_some());
}

#[test]
fn status_phrases() {
    assert_eq!(status_text(200), "OK");
    assert_eq!(status_text(201), "Created");
    assert_eq!(status_text(404), "Not Found");
    assert_eq!(status_text(418), "Unknown");
}

#[test]
fn ids_parse_as_decimal() {
    assert_eq!(parse_id("42"), Ok(42));
    assert_eq!(parse_id("+7"), Ok(7));
    assert_eq!(parse_id("18446744073709551615"), Ok(u64::MAX));
    assert_eq!(parse_id("18446744073709551616"), Err("invalid id".to_string()));
    assert_eq!(parse_id("-1"), Err("invalid id".to_string()));
    assert_eq!(parse_id(""), Err("invalid id".to_string()));
}

#[test]
fn renumber_relabels_by_first_appearance() {
    let mut comm = vec![3, 3, 1, 4, 1];
    let k = renumber(&mut comm);
    assert_eq!(k, 3);
    assert_eq!(comm, vec![0, 0, 1, 2, 1]);
}
