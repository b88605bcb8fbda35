//! Write-ahead log records: their byte layout, parsing a log back into
//! records, deciding whether a logged transaction is to be replayed, and
//! the byte payloads of the logged operations.
//!
//! A record is `tx_id: u64 BE`, `op_type: u8`, `timestamp: u64 BE`,
//! `data_len: u32 BE`, then `data_len` bytes of data.

use vstd::prelude::*;
use crate::persistence::{be32, be64, be32_at, be64_at, write_u32, write_u64, write_bytes, copy_range, lemma_be32_roundtrip, lemma_be64_roundtrip};

verus! {

/// Kind of a logged operation.
#[derive(Debug, Clone, Copy, PartialEq, Eq, Structural)]
pub enum OpType {
    Begin,
    AddVertex,
    AddEdge,
    DeleteVertex,
    DeleteEdge,
    Commit,
    Rollback,
}

/// Byte code of an operation kind.
pub open spec fn op_code(op: OpType) -> u8 {
    match op {
        OpType::Begin => 0,
        OpType::AddVertex => 1,
        OpType::AddEdge => 2,
        OpType::DeleteVertex => 3,
        OpType::DeleteEdge => 4,
        OpType::Commit => 5,
        OpType::Rollback => 6,
    }
}

impl OpType {
    /// The operation kind with byte code `v`, if any (codes `0..=6`).
    pub fn from_u8(v: u8) -> (r: Option<OpType>)
        ensures
            r matches Some(op) ==> op_code(op) == v,
            r.is_some() <==> v <= 6,
    {
        match v {
            0 => Some(OpType::Begin),
            1 => Some(OpType::AddVertex),
            2 => Some(OpType::AddEdge),
            3 => Some(OpType::DeleteVertex),
            4 => Some(OpType::DeleteEdge),
            5 => Some(OpType::Commit),
            6 => Some(OpType::Rollback),
            _ => None,
        }
    }

    /// Byte code of this kind.
    pub fn code(&self) -> (r: u8)
        ensures
            r == op_code(*self),
    {
        match self {
            OpType::Begin => 0,
            OpType::AddVertex => 1,
            OpType::AddEdge => 2,
            OpType::DeleteVertex => 3,
            OpType::DeleteEdge => 4,
            OpType::Commit => 5,
            OpType::Rollback => 6,
        }
    }
}

/// A log record as written by a transaction.
#[derive(Debug, Clone)]
pub struct WalEntry {
    pub tx_id: u64,
    pub op_type: u8,
    pub timestamp: u64,
    pub data: Vec<u8>,
}

/// Bytes of a record with the given fields; the data length is written as
/// a `u32`.
pub open spec fn record_bytes(tx_id: u64, op_type: u8, timestamp: u64, data: Seq<u8>) -> Seq<u8> {
    be64(tx_id) + seq![op_type] + be64(timestamp) + be32(data.len() as u32) + data
}

/// Whether a complete record starts at `i`: a header, and as many data
/// bytes as its length field says.
pub open spec fn record_fits(s: Seq<u8>, i: int) -> bool {
    i + 21 <= s.len() && i + 21 + be32_at(s, i + 17) <= s.len()
}

/// End of the record at `i`.
pub open spec fn record_end(s: Seq<u8>, i: int) -> int {
    i + 21 + be32_at(s, i + 17)
}

impl WalEntry {
    /// The bytes of this record (a data length of 4 GiB or more is
    /// truncated in the length field).
    pub fn serialize(&self) -> (r: Vec<u8>)
        ensures
            r@ == record_bytes(self.tx_id, self.op_type, self.timestamp, self.data@),
    {
        let mut buf: Vec<u8> = Vec::new();
        write_u64(&mut buf, self.tx_id);
        buf.push(self.op_type);
        write_u64(&mut buf, self.timestamp);
        write_u32(&mut buf, self.data.len() as u32);
        write_bytes(&mut buf, self.data.as_slice());
        proof {
            assert(buf@ =~= record_bytes(self.tx_id, self.op_type, self.timestamp, self.data@));
        }
        buf
    }

    /// The record at the start of `buf`: `None` when `buf` is shorter than
    /// a header or than the data its length field announces. Bytes after
    /// the record are ignored.
    pub fn deserialize(buf: &[u8]) -> (r: Option<WalEntry>)
        ensures
            r.is_some() <==> record_fits(buf@, 0),
            r matches Some(e) ==> e.tx_id == be64_at(buf@, 0) && e.op_type == buf@[8]
                && e.timestamp == be64_at(buf@, 9)
                && e.data@ == buf@.subrange(21, record_end(buf@, 0)),
    {
        if buf.len() < 21 {
            return None;
        }
        let tx_id = be64_from(buf, 0);
        let op_type = buf[8];
        let timestamp = be64_from(buf, 9);
        let data_len = be32_from(buf, 17) as usize;
        if buf.len() - 21 < data_len {
            return None;
        }
        let data = copy_range(buf, 21, 21 + data_len);
        Some(WalEntry { tx_id, op_type, timestamp, data })
    }
}

/// The `u64` whose big-endian bytes start at `i`.
fn be64_from(buf: &[u8], i: usize) -> (r: u64)
    requires
        i + 8 <= buf@.len(),
    ensures
        r == be64_at(buf@, i as int),
{
    ((buf[i] as u64) << 56u64) | ((buf[i + 1] as u64) << 48u64) | ((buf[i + 2] as u64) << 40u64)
        | ((buf[i + 3] as u64) << 32u64) | ((buf[i + 4] as u64) << 24u64) | ((buf[i + 5] as u64) << 16u64)
        | ((buf[i + 6] as u64) << 8u64) | (buf[i + 7] as u64)
}

/// The `u32` whose big-endian bytes start at `i`.
fn be32_from(buf: &[u8], i: usize) -> (r: u32)
    requires
        i + 4 <= buf@.len(),
    ensures
        r == be32_at(buf@, i as int),
{
    ((buf[i] as u32) << 24u32) | ((buf[i + 1] as u32) << 16u32) | ((buf[i + 2] as u32) << 8u32) | (buf[i + 3] as u32)
}

/// Reading back a serialized record gives its fields back, whatever
/// follows it (data shorter than 4 GiB).
pub proof fn lemma_record_roundtrip(tx_id: u64, op_type: u8, timestamp: u64, data: Seq<u8>, post: Seq<u8>)
    requires
        data.len() <= 0xffff_ffff,
    ensures
        ({
            let s = record_bytes(tx_id, op_type, timestamp, data) + post;
            &&& record_fits(s, 0)
            &&& record_end(s, 0) == 21 + data.len()
            &&& be64_at(s, 0) == tx_id
            &&& s[8] == op_type
            &&& be64_at(s, 9) == timestamp
            &&& s.subrange(21, record_end(s, 0)) == data
        }),
{
    let s = record_bytes(tx_id, op_type, timestamp, data) + post;
    let e = Seq::<u8>::empty();
    assert(s =~= e + be64(tx_id) + (seq![op_type] + be64(timestamp) + be32(data.len() as u32) + data + post));
    lemma_be64_roundtrip(e, tx_id, seq![op_type] + be64(timestamp) + be32(data.len() as u32) + data + post);
    assert(s =~= (be64(tx_id) + seq![op_type]) + be64(timestamp) + (be32(data.len() as u32) + data + post));
    lemma_be64_roundtrip(be64(tx_id) + seq![op_type], timestamp, be32(data.len() as u32) + data + post);
    assert(s =~= (be64(tx_id) + seq![op_type] + be64(timestamp)) + be32(data.len() as u32) + (data + post));
    lemma_be32_roundtrip(be64(tx_id) + seq![op_type] + be64(timestamp), data.len() as u32, data + post);
    assert(s.subrange(21, 21 + data.len() as int) =~= data);
}

/// A record read back from a log, with a known operation kind.
#[derive(Debug, Clone)]
pub struct LogEntry {
    pub tx_id: u64,
    pub op_type: OpType,
    pub timestamp: u64,
    pub data: Vec<u8>,
}

/// Mathematical value of a [`LogEntry`].
pub struct LogEntryView {
    pub tx_id: u64,
    pub op_type: OpType,
    pub timestamp: u64,
    pub data: Seq<u8>,
}

impl View for LogEntry {
    type V = LogEntryView;

    open spec fn view(&self) -> LogEntryView {
        LogEntryView { tx_id: self.tx_id, op_type: self.op_type, timestamp: self.timestamp, data: self.data@ }
    }
}

/// The record at `i` with its end, when it is complete and its operation
/// code is known.
pub open spec fn entry_at(s: Seq<u8>, i: int) -> Option<(LogEntryView, int)> {
    if record_fits(s, i) && s[i + 8] <= 6 {
        Some(
            (
                LogEntryView {
                    tx_id: be64_at(s, i),
                    op_type: choose|op: OpType| op_code(op) == s[i + 8],
                    timestamp: be64_at(s, i + 9),
                    data: s.subrange(i + 21, record_end(s, i)),
                },
                record_end(s, i),
            ),
        )
    } else {
        None
    }
}

/// Parses the record at `pos`; see [`parse_wal_entry`].
fn parse_entry_at(buf: &[u8], pos: usize) -> (r: Option<(LogEntry, usize)>)
    requires
        pos <= buf@.len(),
    ensures
        match entry_at(buf@, pos as int) {
            Some((e, end)) => r matches Some((le, n)) && le@ == e && n == end,
            None => r.is_none(),
        },
{
    if buf.len() - pos < 21 {
        return None;
    }
    let tx_id = be64_from(buf, pos);
    let code = buf[pos + 8];
    let op_type = match OpType::from_u8(code) {
        Some(op) => op,
        None => return None,
    };
    let timestamp = be64_from(buf, pos + 9);
    let data_len = be32_from(buf, pos + 17) as usize;
    if buf.len() - pos - 21 < data_len {
        return None;
    }
    let total = pos + 21 + data_len;
    let data = copy_range(buf, pos + 21, total);
    proof {
        assert(op_code(op_type) == code);
        let chosen = choose|op: OpType| op_code(op) == code;
        assert(op_code(chosen) == code);
        assert(chosen == op_type) by {
            match chosen {
                OpType::Begin => {},
                OpType::AddVertex => {},
                OpType::AddEdge => {},
                OpType::DeleteVertex => {},
                OpType::DeleteEdge => {},
                OpType::Commit => {},
                OpType::Rollback => {},
            }
            match op_type {
                OpType::Begin => {},
                OpType::AddVertex => {},
                OpType::AddEdge => {},
                OpType::DeleteVertex => {},
                OpType::DeleteEdge => {},
                OpType::Commit => {},
                OpType::Rollback => {},
            }
        }
    }
    Some((LogEntry { tx_id, op_type, timestamp, data }, total))
}

/// The record at the start of `buf` and its length in bytes: `None` when
/// the record is incomplete or its operation code unknown.
pub fn parse_wal_entry(buf: &[u8]) -> (r: Option<(LogEntry, usize)>)
    ensures
        match entry_at(buf@, 0) {
            Some((e, end)) => r matches Some((le, n)) && le@ == e && n == end,
            None => r.is_none(),
        },
{
    parse_entry_at(buf, 0)
}

/// The records of a log from `i` on, up to the first that is incomplete
/// or has an unknown operation code (a log cut short by a crash).
pub open spec fn entries_from(s: Seq<u8>, i: int) -> Seq<LogEntryView>
    decreases s.len() - i,
{
    if 0 <= i < s.len() {
        match entry_at(s, i) {
            Some((e, end)) => if end > i {
                seq![e] + entries_from(s, end)
            } else {
                seq![]
            },
            None => seq![],
        }
    } else {
        seq![]
    }
}

/// All the records of a log, up to the first that cannot be read.
pub fn parse_wal_log(buf: &[u8]) -> (r: Vec<LogEntry>)
    ensures
        r@.map_values(|e: LogEntry| e@) == entries_from(buf@, 0),
{
    let mut entries: Vec<LogEntry> = Vec::new();
    let mut pos: usize = 0;
    while pos < buf.len()
        invariant
            pos <= buf@.len(),
            entries@.map_values(|e: LogEntry| e@) + entries_from(buf@, pos as int) == entries_from(buf@, 0),
        decreases buf@.len() - pos,
    {
        match parse_entry_at(buf, pos) {
            Some((entry, end)) => {
                let ghost old_entries = entries@;
                entries.push(entry);
                proof {
                    assert(entries@.map_values(|e: LogEntry| e@) =~= old_entries.map_values(|e: LogEntry| e@).push(entry@));
                    assert(entries_from(buf@, pos as int) == seq![entry@] + entries_from(buf@, end as int));
                    assert(entries@.map_values(|e: LogEntry| e@) + entries_from(buf@, end as int) =~= old_entries.map_values(
                        |e: LogEntry| e@,
                    ) + entries_from(buf@, pos as int));
                }
                pos = end;
            },
            None => {
                proof {
                    assert(entries_from(buf@, pos as int) =~= Seq::<LogEntryView>::empty());
                    assert(entries@.map_values(|e: LogEntry| e@) =~= entries@.map_values(|e: LogEntry| e@) + entries_from(buf@, pos as int));
                }
                return entries;
            },
        }
    }
    proof {
        assert(entries_from(buf@, pos as int) =~= Seq::<LogEntryView>::empty());
        assert(entries@.map_values(|e: LogEntry| e@) =~= entries@.map_values(|e: LogEntry| e@) + entries_from(buf@, pos as int));
    }
    entries
}

/// A record written with a known operation code is read back as it was
/// written, whatever follows it (data shorter than 4 GiB).
pub proof fn lemma_entry_roundtrip(tx_id: u64, op: OpType, timestamp: u64, data: Seq<u8>, post: Seq<u8>)
    requires
        data.len() <= 0xffff_ffff,
    ensures
        entry_at(record_bytes(tx_id, op_code(op), timestamp, data) + post, 0) == Some(
            (LogEntryView { tx_id, op_type: op, timestamp, data }, 21 + data.len() as int),
        ),
{
    let s = record_bytes(tx_id, op_code(op), timestamp, data) + post;
    lemma_record_roundtrip(tx_id, op_code(op), timestamp, data, post);
    let chosen = choose|o: OpType| op_code(o) == s[8];
    assert(op_code(op) == s[8]);
    assert(op_code(chosen) == s[8]);
    assert(chosen == op) by {
        match chosen {
            OpType::Begin => {},
            OpType::AddVertex => {},
            OpType::AddEdge => {},
            OpType::DeleteVertex => {},
            OpType::DeleteEdge => {},
            OpType::Commit => {},
            OpType::Rollback => {},
        }
        match op {
            OpType::Begin => {},
            OpType::AddVertex => {},
            OpType::AddEdge => {},
            OpType::DeleteVertex => {},
            OpType::DeleteEdge => {},
            OpType::Commit => {},
            OpType::Rollback => {},
        }
    }
}

/// Each record takes at least one byte, so a log holds no more records
/// than bytes.
pub proof fn lemma_entries_len(s: Seq<u8>, i: int)
    requires
        0 <= i,
    ensures
        entries_from(s, i).len() <= if i <= s.len() { s.len() - i } else { 0 },
    decreases s.len() - i,
{
    if 0 <= i < s.len() {
        match entry_at(s, i) {
            Some((e, end)) => {
                if end > i {
                    lemma_entries_len(s, end);
                }
            },
            None => {},
        }
    }
}

/// Number of records of kind `op`.
pub open spec fn count_op(es: Seq<LogEntryView>, op: OpType) -> nat
    decreases es.len(),
{
    if es.len() == 0 {
        0
    } else {
        count_op(es.drop_last(), op) + if es.last().op_type == op { 1nat } else { 0nat }
    }
}

/// A logged transaction is replayed when it was committed and not rolled
/// back.
pub open spec fn is_committed(es: Seq<LogEntryView>) -> bool {
    count_op(es, OpType::Commit) > 0 && count_op(es, OpType::Rollback) == 0
}

proof fn lemma_count_op_le(es: Seq<LogEntryView>, op: OpType)
    ensures
        count_op(es, op) <= es.len(),
    decreases es.len(),
{
    if es.len() > 0 {
        lemma_count_op_le(es.drop_last(), op);
    }
}

/// Number of records of kind `op` among `entries`.
pub fn count_entries(entries: &Vec<LogEntry>, op: OpType) -> (n: usize)
    ensures
        n == count_op(entries@.map_values(|e: LogEntry| e@), op),
{
    let ghost es = entries@.map_values(|e: LogEntry| e@);
    let mut n: usize = 0;
    let mut i: usize = 0;
    while i < entries.len()
        invariant
            es == entries@.map_values(|e: LogEntry| e@),
            i <= entries@.len(),
            n == count_op(es.take(i as int), op),
            n <= i,
        decreases entries@.len() - i,
    {
        proof {
            assert(es.take(i + 1).drop_last() =~= es.take(i as int));
        }
        if entries[i].op_type == op {
            n = n + 1;
        }
        i = i + 1;
    }
    proof {
        assert(es.take(i as int) =~= es);
    }
    n
}

/// Whether the records of one log make up a committed transaction.
pub fn committed(entries: &Vec<LogEntry>) -> (r: bool)
    ensures
        r == is_committed(entries@.map_values(|e: LogEntry| e@)),
{
    count_entries(entries, OpType::Commit) > 0 && count_entries(entries, OpType::Rollback) == 0
}

/// Outcome of replaying the logs found at start-up.
#[derive(Debug)]
pub struct RecoveryResult {
    /// Logs found.
    pub wal_files_found: usize,
    /// Committed transactions replayed.
    pub transactions_replayed: usize,
    /// Transactions skipped (not committed, or rolled back).
    pub transactions_skipped: usize,
    /// Vertex additions replayed.
    pub vertices_added: usize,
    /// Edge additions replayed.
    pub edges_added: usize,
}

/// What recovering the logs `logs` (in order) amounts to: the records to
/// replay, and the counts replayed transactions, skipped transactions,
/// vertex additions and edge additions. A log without any readable record
/// counts neither as replayed nor as skipped.
pub open spec fn recovery_of(logs: Seq<Seq<u8>>) -> (Seq<LogEntryView>, nat, nat, nat, nat)
    decreases logs.len(),
{
    if logs.len() == 0 {
        (seq![], 0, 0, 0, 0)
    } else {
        let (ops, rep, skip, va, ea) = recovery_of(logs.drop_last());
        let es = entries_from(logs.last(), 0);
        if es.len() == 0 {
            (ops, rep, skip, va, ea)
        } else if is_committed(es) {
            (ops + es, rep + 1, skip, va + count_op(es, OpType::AddVertex), ea + count_op(es, OpType::AddEdge))
        } else {
            (ops, rep, skip + 1, va, ea)
        }
    }
}

/// The records one log contributes to recovery: all its records when they
/// make up a committed transaction, none otherwise.
pub open spec fn kept_records(log: Seq<u8>) -> Seq<LogEntryView> {
    let es = entries_from(log, 0);
    if es.len() > 0 && is_committed(es) {
        es
    } else {
        Seq::empty()
    }
}

/// The records to replay are those of the committed logs, log after log in
/// the order the logs are given, each log's records in their own order.
pub proof fn lemma_recovery_in_log_order(logs: Seq<Seq<u8>>)
    ensures
        recovery_of(logs).0 == logs.map_values(|l: Seq<u8>| kept_records(l)).flatten(),
    decreases logs.len(),
{
    if logs.len() > 0 {
        lemma_recovery_in_log_order(logs.drop_last());
        let f = |l: Seq<u8>| kept_records(l);
        assert(logs.map_values(f) =~= logs.drop_last().map_values(f).push(kept_records(logs.last())));
        logs.drop_last().map_values(f).lemma_flatten_push(kept_records(logs.last()));
        let es = entries_from(logs.last(), 0);
        if !(es.len() > 0 && is_committed(es)) {
            assert(recovery_of(logs).0 =~= recovery_of(logs.drop_last()).0 + Seq::<LogEntryView>::empty());
        }
    }
}

/// Recovering two runs of logs one after the other gives the records of
/// the first run followed by those of the second.
pub proof fn lemma_recovery_append(a: Seq<Seq<u8>>, b: Seq<Seq<u8>>)
    ensures
        recovery_of(a + b).0 == recovery_of(a).0 + recovery_of(b).0,
{
    let f = |l: Seq<u8>| kept_records(l);
    lemma_recovery_in_log_order(a + b);
    lemma_recovery_in_log_order(a);
    lemma_recovery_in_log_order(b);
    assert((a + b).map_values(f) =~= a.map_values(f) + b.map_values(f));
    vstd::seq_lib::lemma_flatten_concat(a.map_values(f), b.map_values(f));
}

/// Total length of the logs.
pub open spec fn total_len(logs: Seq<Seq<u8>>) -> nat
    decreases logs.len(),
{
    if logs.len() == 0 {
        0
    } else {
        total_len(logs.drop_last()) + logs.last().len()
    }
}

proof fn lemma_recovery_bounds(logs: Seq<Seq<u8>>)
    ensures
        ({
            let (ops, rep, skip, va, ea) = recovery_of(logs);
            &&& rep + skip <= logs.len()
            &&& va + ea <= ops.len()
            &&& ops.len() <= total_len(logs)
        }),
    decreases logs.len(),
{
    if logs.len() > 0 {
        lemma_recovery_bounds(logs.drop_last());
        let es = entries_from(logs.last(), 0);
        lemma_entries_len(logs.last(), 0);
        lemma_count_sum(es);
    }
}

proof fn lemma_count_sum(es: Seq<LogEntryView>)
    ensures
        count_op(es, OpType::AddVertex) + count_op(es, OpType::AddEdge) <= es.len(),
    decreases es.len(),
{
    if es.len() > 0 {
        lemma_count_sum(es.drop_last());
    }
}

/// Replays nothing itself: reads each log in turn, keeps the records of
/// the committed transactions (in log order) and counts what was found.
/// The logs together hold fewer than `usize::MAX` bytes.
pub fn recover_logs(logs: &Vec<Vec<u8>>) -> (r: (Vec<LogEntry>, RecoveryResult))
    requires
        total_len(logs@.map_values(|b: Vec<u8>| b@)) < usize::MAX,
    ensures
        ({
            let (ops, rep, skip, va, ea) = recovery_of(logs@.map_values(|b: Vec<u8>| b@));
            &&& r.0@.map_values(|e: LogEntry| e@) == ops
            &&& r.0@.map_values(|e: LogEntry| e@) == logs@.map_values(|b: Vec<u8>| kept_records(b@)).flatten()
            &&& r.1.wal_files_found == logs@.len()
            &&& r.1.transactions_replayed == rep
            &&& r.1.transactions_skipped == skip
            &&& r.1.vertices_added == va
            &&& r.1.edges_added == ea
        }),
{
    let ghost all = logs@.map_values(|b: Vec<u8>| b@);
    let mut ops: Vec<LogEntry> = Vec::new();
    let mut result = RecoveryResult {
        wal_files_found: logs.len(),
        transactions_replayed: 0,
        transactions_skipped: 0,
        vertices_added: 0,
        edges_added: 0,
    };
    let mut k: usize = 0;
    while k < logs.len()
        invariant
            all == logs@.map_values(|b: Vec<u8>| b@),
            total_len(all) < usize::MAX,
            k <= logs@.len(),
            result.wal_files_found == logs@.len(),
            ({
                let (o, rep, skip, va, ea) = recovery_of(all.take(k as int));
                &&& ops@.map_values(|e: LogEntry| e@) == o
                &&& result.transactions_replayed == rep
                &&& result.transactions_skipped == skip
                &&& result.vertices_added == va
                &&& result.edges_added == ea
            }),
        decreases logs@.len() - k,
    {
        proof {
            assert(all.take(k + 1).drop_last() =~= all.take(k as int));
            assert(all.take(k + 1).last() == logs@[k as int]@);
            lemma_total_len_prefix(all, k + 1);
            lemma_recovery_bounds(all.take(k + 1));
        }
        let entries = parse_wal_log(logs[k].as_slice());
        if entries.len() > 0 {
            if committed(&entries) {
                let v_add = count_entries(&entries, OpType::AddVertex);
                let e_add = count_entries(&entries, OpType::AddEdge);
                let ghost before = ops@.map_values(|e: LogEntry| e@);
                let ghost es = entries@.map_values(|e: LogEntry| e@);
                let mut j: usize = 0;
                while j < entries.len()
                    invariant
                        j <= entries@.len(),
                        es == entries@.map_values(|e: LogEntry| e@),
                        ops@.map_values(|e: LogEntry| e@) == before + es.take(j as int),
                    decreases entries@.len() - j,
                {
                    let ghost prev = ops@;
                    ops.push(entries[j].clone_entry());
                    j = j + 1;
                    proof {
                        assert(ops@ == prev.push(ops@.last()));
                        assert(ops@.map_values(|e: LogEntry| e@) =~= prev.map_values(|e: LogEntry| e@).push(es[j - 1]));
                        assert(es.take(j as int) =~= es.take(j - 1).push(es[j - 1]));
                    }
                }
                proof {
                    assert(es.take(j as int) =~= es);
                }
                result.transactions_replayed = result.transactions_replayed + 1;
                result.vertices_added = result.vertices_added + v_add;
                result.edges_added = result.edges_added + e_add;
            } else {
                result.transactions_skipped = result.transactions_skipped + 1;
            }
        }
        k = k + 1;
    }
    proof {
        assert(all.take(k as int) =~= all);
        lemma_recovery_in_log_order(all);
        assert(all.map_values(|l: Seq<u8>| kept_records(l)) =~= logs@.map_values(|b: Vec<u8>| kept_records(b@)));
    }
    (ops, result)
}

proof fn lemma_total_len_prefix(logs: Seq<Seq<u8>>, k: int)
    requires
        0 <= k <= logs.len(),
    ensures
        total_len(logs.take(k)) <= total_len(logs),
    decreases logs.len(),
{
    if k < logs.len() {
        assert(logs.drop_last().take(k) =~= logs.take(k));
        lemma_total_len_prefix(logs.drop_last(), k);
    } else {
        assert(logs.take(k) =~= logs);
    }
}

impl LogEntry {
    /// A copy of this record.
    pub fn clone_entry(&self) -> (r: LogEntry)
        ensures
            r@ == self@,
    {
        LogEntry { tx_id: self.tx_id, op_type: self.op_type, timestamp: self.timestamp, data: self.data.clone() }
    }
}

/// What replaying one record does to the graph. Properties stay as the
/// JSON bytes that were logged (`None`: no properties).
#[derive(Debug, Clone)]
pub enum ReplayOp {
    AddVertex { id: u64, properties_json: Option<Vec<u8>> },
    AddEdge { from: u64, to: u64, weight_bits: u64, properties_json: Option<Vec<u8>> },
    DeleteVertex { id: u64 },
    DeleteEdge { from: u64, to: u64 },
    /// Nothing to replay (transaction markers, or data too short).
    Skip,
}

/// Optional bytes as a mathematical value.
pub open spec fn opt_bytes(o: Option<Vec<u8>>) -> Option<Seq<u8>> {
    match o {
        Some(v) => Some(v@),
        None => None,
    }
}

/// The JSON bytes logged at `at`: a `u32` length and as many bytes, when
/// the data goes past the length field and holds them all.
pub open spec fn json_at(d: Seq<u8>, at: int) -> Option<Seq<u8>> {
    if d.len() > at + 4 && d.len() >= at + 4 + be32_at(d, at) {
        Some(d.subrange(at + 4, at + 4 + be32_at(d, at)))
    } else {
        None
    }
}

/// The logged JSON bytes at `at`, see [`json_at`].
fn json_from(d: &Vec<u8>, at: usize) -> (r: Option<Vec<u8>>)
    requires
        at <= 24,
    ensures
        opt_bytes(r) == json_at(d@, at as int),
{
    if d.len() > at + 4 {
        let n = be32_from(d.as_slice(), at) as usize;
        if d.len() - (at + 4) >= n {
            return Some(copy_range(d.as_slice(), at + 4, at + 4 + n));
        }
    }
    None
}

/// What replaying `e` does: adding or deleting a vertex or an edge, read
/// from the record's data as [`serialize_add_vertex`],
/// [`serialize_add_edge`] and [`serialize_edge_key`] write it; nothing for
/// the other kinds or for data too short to hold the ids.
pub fn replay_op(e: &LogEntry) -> (r: ReplayOp)
    ensures
        ({
            let d = e.data@;
            match e.op_type {
                OpType::AddVertex => if d.len() >= 8 {
                    r matches ReplayOp::AddVertex { id, properties_json } && id == be64_at(d, 0)
                        && opt_bytes(properties_json) == json_at(d, 8)
                } else {
                    r is Skip
                },
                OpType::AddEdge => if d.len() >= 24 {
                    r matches ReplayOp::AddEdge { from, to, weight_bits, properties_json } && from == be64_at(d, 0)
                        && to == be64_at(d, 8) && weight_bits == be64_at(d, 16)
                        && opt_bytes(properties_json) == json_at(d, 24)
                } else {
                    r is Skip
                },
                OpType::DeleteVertex => if d.len() >= 8 {
                    r matches ReplayOp::DeleteVertex { id } && id == be64_at(d, 0)
                } else {
                    r is Skip
                },
                OpType::DeleteEdge => if d.len() >= 16 {
                    r matches ReplayOp::DeleteEdge { from, to } && from == be64_at(d, 0) && to == be64_at(d, 8)
                } else {
                    r is Skip
                },
                _ => r is Skip,
            }
        }),
{
    let d = &e.data;
    match e.op_type {
        OpType::AddVertex => {
            if d.len() >= 8 {
                let id = be64_from(d.as_slice(), 0);
                ReplayOp::AddVertex { id, properties_json: json_from(d, 8) }
            } else {
                ReplayOp::Skip
            }
        },
        OpType::AddEdge => {
            if d.len() >= 24 {
                let from = be64_from(d.as_slice(), 0);
                let to = be64_from(d.as_slice(), 8);
                let weight_bits = be64_from(d.as_slice(), 16);
                ReplayOp::AddEdge { from, to, weight_bits, properties_json: json_from(d, 24) }
            } else {
                ReplayOp::Skip
            }
        },
        OpType::DeleteVertex => {
            if d.len() >= 8 {
                ReplayOp::DeleteVertex { id: be64_from(d.as_slice(), 0) }
            } else {
                ReplayOp::Skip
            }
        },
        OpType::DeleteEdge => {
            if d.len() >= 16 {
                ReplayOp::DeleteEdge { from: be64_from(d.as_slice(), 0), to: be64_from(d.as_slice(), 8) }
            } else {
                ReplayOp::Skip
            }
        },
        _ => ReplayOp::Skip,
    }
}

/// Logged data of a vertex addition: the id, then the length (`u32`) and
/// bytes of its properties' JSON.
pub fn serialize_add_vertex(id: u64, properties_json: &[u8]) -> (r: Vec<u8>)
    ensures
        r@ == be64(id) + be32(properties_json@.len() as u32) + properties_json@,
{
    let mut buf: Vec<u8> = Vec::new();
    write_u64(&mut buf, id);
    write_u32(&mut buf, properties_json.len() as u32);
    write_bytes(&mut buf, properties_json);
    buf
}

/// Logged data of an edge addition: the endpoints, the weight's bit
/// pattern, then the length (`u32`) and bytes of its properties' JSON.
pub fn serialize_add_edge(from: u64, to: u64, weight_bits: u64, properties_json: &[u8]) -> (r: Vec<u8>)
    ensures
        r@ == be64(from) + be64(to) + be64(weight_bits) + be32(properties_json@.len() as u32) + properties_json@,
{
    let mut buf: Vec<u8> = Vec::new();
    write_u64(&mut buf, from);
    write_u64(&mut buf, to);
    write_u64(&mut buf, weight_bits);
    write_u32(&mut buf, properties_json.len() as u32);
    write_bytes(&mut buf, properties_json);
    buf
}

/// Logged data naming an edge: its endpoints.
pub fn serialize_edge_key(from: u64, to: u64) -> (r: Vec<u8>)
    ensures
        r@ == be64(from) + be64(to),
{
    let mut buf: Vec<u8> = Vec::new();
    write_u64(&mut buf, from);
    write_u64(&mut buf, to);
    buf
}

/// Replaying a logged vertex addition gives back the id and the JSON
/// bytes that were logged (non-empty, shorter than 4 GiB).
pub proof fn lemma_add_vertex_roundtrip(id: u64, json: Seq<u8>)
    requires
        0 < json.len() <= 0xffff_ffff,
    ensures
        ({
            let d = be64(id) + be32(json.len() as u32) + json;
            &&& d.len() >= 8
            &&& be64_at(d, 0) == id
            &&& json_at(d, 8) == Some(json)
        }),
{
    let d = be64(id) + be32(json.len() as u32) + json;
    let e = Seq::<u8>::empty();
    assert(d =~= e + be64(id) + (be32(json.len() as u32) + json));
    lemma_be64_roundtrip(e, id, be32(json.len() as u32) + json);
    assert(d =~= be64(id) + be32(json.len() as u32) + (json + e));
    lemma_be32_roundtrip(be64(id), json.len() as u32, json + e);
    assert(d.subrange(12, 12 + json.len() as int) =~= json);
}

/// Replaying a logged edge addition gives back the endpoints, the weight's
/// bits and the JSON bytes that were logged (non-empty, shorter than 4 GiB).
pub proof fn lemma_add_edge_roundtrip(from: u64, to: u64, weight_bits: u64, json: Seq<u8>)
    requires
        0 < json.len() <= 0xffff_ffff,
    ensures
        ({
            let d = be64(from) + be64(to) + be64(weight_bits) + be32(json.len() as u32) + json;
            &&& d.len() >= 24
            &&& be64_at(d, 0) == from
            &&& be64_at(d, 8) == to
            &&& be64_at(d, 16) == weight_bits
            &&& json_at(d, 24) == Some(json)
        }),
{
    let d = be64(from) + be64(to) + be64(weight_bits) + be32(json.len() as u32) + json;
    let e = Seq::<u8>::empty();
    let tail = be32(json.len() as u32) + json;
    assert(d =~= e + be64(from) + (be64(to) + be64(weight_bits) + tail));
    lemma_be64_roundtrip(e, from, be64(to) + be64(weight_bits) + tail);
    assert(d =~= be64(from) + be64(to) + (be64(weight_bits) + tail));
    lemma_be64_roundtrip(be64(from), to, be64(weight_bits) + tail);
    assert(d =~= (be64(from) + be64(to)) + be64(weight_bits) + tail);
    lemma_be64_roundtrip(be64(from) + be64(to), weight_bits, tail);
    assert(d =~= (be64(from) + be64(to) + be64(weight_bits)) + be32(json.len() as u32) + (json + e));
    lemma_be32_roundtrip(be64(from) + be64(to) + be64(weight_bits), json.len() as u32, json + e);
    assert(d.subrange(28, 28 + json.len() as int) =~= json);
}


/// `std::time::SystemTime`, a clock reading, opaque here.
#[verifier::external_type_specification]
#[verifier::external_body]
pub struct ExSystemTime(std::time::SystemTime);

/// `std::time::SystemTime::now`: the current wall-clock time. Nothing is
/// stated of it.
#[verifier::external_body]
fn clock_now() -> (t: std::time::SystemTime) {
    std::time::SystemTime::now()
}

/// `SystemTime::duration_since(UNIX_EPOCH)`: the time elapsed since the
/// Unix epoch, or `None` for a time before it (the outside error). Nothing
/// is stated of the value.
#[verifier::external_body]
fn since_epoch(t: &std::time::SystemTime) -> (r: Option<std::time::Duration>) {
    match t.duration_since(std::time::UNIX_EPOCH) {
        Ok(d) => Some(d),
        Err(_) => None,
    }
}

/// `Duration::as_nanos`: the whole nanoseconds of a duration. Nothing is
/// stated of the value (the duration is opaque here).
#[verifier::external_body]
fn duration_nanos(d: &std::time::Duration) -> (r: u128) {
    d.as_nanos()
}

/// Transaction id for a clock reading: its nanoseconds since the epoch,
/// truncated to 64 bits.
pub fn tx_id_from_nanos(nanos: u128) -> (r: u64)
    ensures
        r == nanos as u64,
{
    nanos as u64
}

/// A fresh transaction id from the clock ([`tx_id_from_nanos`] of the
/// current time); `None` when the clock reads before the Unix epoch.
pub fn generate_tx_id() -> (r: Option<u64>) {
    let now = clock_now();
    match since_epoch(&now) {
        Some(d) => Some(tx_id_from_nanos(duration_nanos(&d))),
        None => None,
    }
}

} // verus!
