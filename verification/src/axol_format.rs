//! The graph file format: a header ("AXOL", version 1, the vertex and
//! edge counts, reserved bytes), the vertex records by increasing id, then
//! the edge records by increasing `(from, to)`; what reading such bytes
//! gives, and that reading gives back what was written.

use vstd::prelude::*;
use vstd::utf8::encode_utf8;
use crate::PropertyValueView;
use crate::properties::{Properties, keys_distinct, as_map};
use crate::compact_storage::{
    encoded_as, arranges, entries_bytes, entry_bytes, lengths_fit, insert_all, lemma_entries_front, lemma_arranged_map,
    lemma_insert_all_map,
};
use crate::persistence::{
    be16, be32, be64, be16_at, be32_at, be64_at, string_bytes, string_at, value_bytes, value_at, read_u32, read_u64,
    read_string, read_property_value, DecodeError, lemma_string_roundtrip, lemma_value_roundtrip, lemma_be16_roundtrip,
    lemma_be32_roundtrip, lemma_be64_roundtrip,
};

verus! {

/// A property map as a mathematical map.
pub type PropMap = Map<Seq<char>, PropertyValueView>;

/// A property map read from bytes, `count` entries from `i` on, each
/// inserted into `m` in turn; any entry that cannot be read is an error.
pub open spec fn props_from(s: Seq<u8>, i: int, count: nat, m: Map<Seq<char>, PropertyValueView>) -> Result<
    (Map<Seq<char>, PropertyValueView>, int),
    DecodeError,
>
    decreases count,
{
    if count == 0 {
        Ok((m, i))
    } else {
        match string_at(s, i) {
            Err(x) => Err(x),
            Ok((key, e)) => match value_at(s, e) {
                Err(x) => Err(x),
                Ok((v, e2)) => props_from(s, e2, (count - 1) as nat, m.insert(key, v)),
            },
        }
    }
}

/// The property map written at `i`: its entry count (`u32`), then the
/// entries; with the position after it.
pub open spec fn props_at(s: Seq<u8>, i: int) -> Result<(Map<Seq<char>, PropertyValueView>, int), DecodeError> {
    if i + 4 > s.len() {
        Err(DecodeError::UnexpectedEof)
    } else {
        props_from(s, i + 4, be32_at(s, i) as nat, Map::empty())
    }
}

/// Reads a property map at `*pos` (see [`props_at`]) and moves past it.
pub fn read_properties(r: &[u8], pos: &mut usize) -> (res: Result<Properties, DecodeError>)
    ensures
        match props_at(r@, *old(pos) as int) {
            Ok((m, e)) => res matches Ok(p) && p.wf() && p.map() == m && *final(pos) == e,
            Err(x) => res matches Err(y) && y == x,
        },
{
    let ghost s = r@;
    let n = read_u32(r, pos)?;
    let mut props = Properties::new();
    proof {
        assert(props.map() =~= Map::<Seq<char>, PropertyValueView>::empty());
    }
    let mut t: u32 = 0;
    while t < n
        invariant
            s == r@,
            props.wf(),
            t <= n,
            props_at(s, *old(pos) as int) == props_from(s, *pos as int, (n - t) as nat, props.map()),
        decreases n - t,
    {
        let key = read_string(r, pos)?;
        let value = read_property_value(r, pos)?;
        props.insert(key, value);
        t = t + 1;
    }
    Ok(props)
}

/// Reading entries where they were written inserts them in turn.
#[verifier::rlimit(60)]
#[verifier::spinoff_prover]
proof fn lemma_props_entries(
    pre: Seq<u8>,
    q: Seq<(Seq<char>, PropertyValueView)>,
    post: Seq<u8>,
    m: Map<Seq<char>, PropertyValueView>,
)
    requires
        lengths_fit(q),
    ensures
        props_from(pre + entries_bytes(q) + post, pre.len() as int, q.len(), m) == Ok::<
            (Map<Seq<char>, PropertyValueView>, int),
            DecodeError,
        >((insert_all(m, q), (pre.len() + entries_bytes(q).len()) as int)),
    decreases q.len(),
{
    let s = pre + entries_bytes(q) + post;
    if q.len() == 0 {
        assert(entries_bytes(q) =~= Seq::<u8>::empty());
    } else {
        let k = q[0].0;
        let v = q[0].1;
        let rest = q.drop_first();
        lemma_entries_front(q);
        let sb = string_bytes(k);
        let vb = value_bytes(v);
        assert(lengths_fit(rest)) by {
            assert forall|i: int| 0 <= i < rest.len() implies {
                &&& encode_utf8(#[trigger] rest[i].0).len() <= 0xffff_ffff
                &&& rest[i].1 matches PropertyValueView::String(c) ==> encode_utf8(c).len() <= 0xffff_ffff
            } by {
                assert(rest[i] == q[i + 1]);
            }
        }
        assert(encode_utf8(q[0].0).len() <= 0xffff_ffff);
        assert(s =~= pre + sb + (vb + entries_bytes(rest) + post));
        lemma_string_roundtrip(pre, k, vb + entries_bytes(rest) + post);
        assert(s =~= (pre + sb) + vb + (entries_bytes(rest) + post));
        lemma_value_roundtrip(pre + sb, v, entries_bytes(rest) + post);
        let pre2 = pre + entry_bytes(q[0]);
        assert(s =~= pre2 + entries_bytes(rest) + post);
        let i = pre.len() as int;
        let e = (pre.len() + sb.len()) as int;
        let e2 = pre2.len() as int;
        assert(string_at(s, i) == Ok::<(Seq<char>, int), DecodeError>((k, e)));
        assert(value_at(s, e) == Ok::<(PropertyValueView, int), DecodeError>((v, e2)));
        assert(props_from(s, i, q.len(), m) == props_from(s, e2, rest.len(), m.insert(k, v)));
        lemma_props_entries(pre2, rest, post, m.insert(k, v));
        assert(insert_all(m, q) == insert_all(m.insert(k, v), rest));
    }
}

/// Reading a property map where [`encode_properties`] wrote one gives the
/// map back, when it has fewer than 2^32 entries and every key and string
/// value fewer than 2^32 UTF-8 bytes.
pub proof fn lemma_props_roundtrip(pre: Seq<u8>, ps: Seq<(Seq<char>, PropertyValueView)>, enc: Seq<u8>, post: Seq<u8>)
    requires
        keys_distinct(ps),
        ps.len() <= 0xffff_ffff,
        lengths_fit(ps),
        encoded_as(ps, enc),
    ensures
        props_at(pre + enc + post, pre.len() as int) == Ok::<(Map<Seq<char>, PropertyValueView>, int), DecodeError>(
            (as_map(ps), (pre.len() + enc.len()) as int),
        ),
{
    let q = choose|q: Seq<(Seq<char>, PropertyValueView)>| #[trigger] arranges(q, ps) && enc == be32(ps.len() as u32) + entries_bytes(q);
    lemma_arranged_map(q, ps);
    let s = pre + enc + post;
    assert(s =~= pre + be32(ps.len() as u32) + (entries_bytes(q) + post));
    lemma_be32_roundtrip(pre, ps.len() as u32, entries_bytes(q) + post);
    assert(s =~= (pre + be32(ps.len() as u32)) + entries_bytes(q) + post);
    lemma_props_entries(pre + be32(ps.len() as u32), q, post, Map::empty());
    lemma_insert_all_map(Map::empty(), q);
    assert(Map::<Seq<char>, PropertyValueView>::empty().union_prefer_right(as_map(q)) =~= as_map(q));
}

/// The four magic bytes "AXOL" that open a graph file.
pub open spec fn axol_magic() -> Seq<u8> {
    seq![65u8, 88u8, 79u8, 76u8]
}

/// The file header: magic, format version 1 (`u16`), the vertex and edge
/// counts (`u64`), and sixteen reserved zero bytes.
pub open spec fn axol_header(nv: u64, ne: u64) -> Seq<u8> {
    axol_magic() + be16(1) + be64(nv) + be64(ne) + Seq::new(16, |i: int| 0u8)
}

/// Vertex records one after the other: the id, then the encoded
/// properties.
pub open spec fn vertex_records(ids: Seq<u64>, encs: Seq<Seq<u8>>) -> Seq<u8>
    decreases ids.len(),
{
    if ids.len() == 0 || encs.len() == 0 {
        seq![]
    } else {
        be64(ids[0]) + encs[0] + vertex_records(ids.drop_first(), encs.drop_first())
    }
}

/// Edge records one after the other: source, target, weight bits, then
/// the encoded properties.
pub open spec fn edge_records(es: Seq<(u64, u64)>, ws: Seq<u64>, encs: Seq<Seq<u8>>) -> Seq<u8>
    decreases es.len(),
{
    if es.len() == 0 || ws.len() == 0 || encs.len() == 0 {
        seq![]
    } else {
        be64(es[0].0) + be64(es[0].1) + be64(ws[0]) + encs[0] + edge_records(es.drop_first(), ws.drop_first(), encs.drop_first())
    }
}

/// `count` vertex records read from `i`, each inserted into `m`.
pub open spec fn vertices_from(s: Seq<u8>, i: int, count: nat, m: Map<u64, PropMap>) -> Result<(Map<u64, PropMap>, int), DecodeError>
    decreases count,
{
    if count == 0 {
        Ok((m, i))
    } else if i + 8 > s.len() {
        Err(DecodeError::UnexpectedEof)
    } else {
        match props_at(s, i + 8) {
            Err(x) => Err(x),
            Ok((p, e)) => vertices_from(s, e, (count - 1) as nat, m.insert(be64_at(s, i), p)),
        }
    }
}

/// `count` edge records read from `i`, each inserted into `m`.
pub open spec fn edges_from(s: Seq<u8>, i: int, count: nat, m: Map<(u64, u64), (u64, PropMap)>) -> Result<
    (Map<(u64, u64), (u64, PropMap)>, int),
    DecodeError,
>
    decreases count,
{
    if count == 0 {
        Ok((m, i))
    } else if i + 24 > s.len() {
        Err(DecodeError::UnexpectedEof)
    } else {
        match props_at(s, i + 24) {
            Err(x) => Err(x),
            Ok((p, e)) => edges_from(
                s,
                e,
                (count - 1) as nat,
                m.insert((be64_at(s, i), be64_at(s, i + 8)), (be64_at(s, i + 16), p)),
            ),
        }
    }
}

/// The graph a file holds: its vertices and its edges, or why it cannot be
/// read (too short, wrong magic or version, a bad record).
pub open spec fn axol_at(s: Seq<u8>) -> Result<(Map<u64, PropMap>, Map<(u64, u64), (u64, PropMap)>), DecodeError> {
    if s.len() < 4 {
        Err(DecodeError::UnexpectedEof)
    } else if s.subrange(0, 4) != axol_magic() {
        Err(DecodeError::InvalidData)
    } else if s.len() < 6 {
        Err(DecodeError::UnexpectedEof)
    } else if be16_at(s, 4) != 1 {
        Err(DecodeError::InvalidData)
    } else if s.len() < 38 {
        Err(DecodeError::UnexpectedEof)
    } else {
        match vertices_from(s, 38, be64_at(s, 6) as nat, Map::empty()) {
            Err(x) => Err(x),
            Ok((vm, e)) => match edges_from(s, e, be64_at(s, 14) as nat, Map::empty()) {
                Err(x) => Err(x),
                Ok((em, _)) => Ok((vm, em)),
            },
        }
    }
}

pub(crate) proof fn lemma_vertex_records_push(ids: Seq<u64>, encs: Seq<Seq<u8>>, id: u64, enc: Seq<u8>)
    requires
        ids.len() == encs.len(),
    ensures
        vertex_records(ids.push(id), encs.push(enc)) == vertex_records(ids, encs) + be64(id) + enc,
    decreases ids.len(),
{
    if ids.len() == 0 {
        assert(ids.push(id).drop_first() =~= Seq::<u64>::empty());
        assert(encs.push(enc).drop_first() =~= Seq::<Seq<u8>>::empty());
        assert(vertex_records(Seq::<u64>::empty(), Seq::<Seq<u8>>::empty()) =~= Seq::<u8>::empty());
        assert(ids.push(id)[0] == id);
        assert(encs.push(enc)[0] == enc);
        assert(vertex_records(ids, encs) =~= Seq::<u8>::empty());
        assert(vertex_records(ids.push(id), encs.push(enc)) =~= be64(id) + enc);
    } else {
        lemma_vertex_records_push(ids.drop_first(), encs.drop_first(), id, enc);
        assert(ids.push(id).drop_first() =~= ids.drop_first().push(id));
        assert(encs.push(enc).drop_first() =~= encs.drop_first().push(enc));
        assert(vertex_records(ids.push(id), encs.push(enc)) =~= vertex_records(ids, encs) + be64(id) + enc);
    }
}

pub(crate) proof fn lemma_edge_records_push(es: Seq<(u64, u64)>, ws: Seq<u64>, encs: Seq<Seq<u8>>, e: (u64, u64), w: u64, enc: Seq<u8>)
    requires
        es.len() == encs.len(),
        ws.len() == encs.len(),
    ensures
        edge_records(es.push(e), ws.push(w), encs.push(enc)) == edge_records(es, ws, encs) + be64(e.0) + be64(e.1) + be64(w) + enc,
    decreases es.len(),
{
    if es.len() == 0 {
        assert(es.push(e).drop_first() =~= Seq::<(u64, u64)>::empty());
        assert(ws.push(w).drop_first() =~= Seq::<u64>::empty());
        assert(encs.push(enc).drop_first() =~= Seq::<Seq<u8>>::empty());
        assert(edge_records(Seq::<(u64, u64)>::empty(), Seq::<u64>::empty(), Seq::<Seq<u8>>::empty()) =~= Seq::<u8>::empty());
        assert(es.push(e)[0] == e);
        assert(ws.push(w)[0] == w);
        assert(encs.push(enc)[0] == enc);
        assert(edge_records(es, ws, encs) =~= Seq::<u8>::empty());
        assert(edge_records(es.push(e), ws.push(w), encs.push(enc)) =~= be64(e.0) + be64(e.1) + be64(w) + enc);
    } else {
        lemma_edge_records_push(es.drop_first(), ws.drop_first(), encs.drop_first(), e, w, enc);
        assert(es.push(e).drop_first() =~= es.drop_first().push(e));
        assert(ws.push(w).drop_first() =~= ws.drop_first().push(w));
        assert(encs.push(enc).drop_first() =~= encs.drop_first().push(enc));
        assert(edge_records(es.push(e), ws.push(w), encs.push(enc)) =~= edge_records(es, ws, encs) + be64(e.0) + be64(e.1) + be64(w) + enc);
    }
}

/// Reads one edge record at `*pos`: source, target, weight bits and
/// properties; see [`edges_from`].
pub(crate) fn read_edge_record(r: &[u8], pos: &mut usize) -> (res: Result<(u64, u64, u64, Properties), DecodeError>)
    ensures
        *old(pos) + 24 > r@.len() ==> res == Err::<(u64, u64, u64, Properties), DecodeError>(DecodeError::UnexpectedEof),
        *old(pos) + 24 <= r@.len() ==> match props_at(r@, *old(pos) + 24) {
            Ok((m, e)) => res matches Ok((from, to, w, p)) && from == be64_at(r@, *old(pos) as int)
                && to == be64_at(r@, *old(pos) + 8) && w == be64_at(r@, *old(pos) + 16) && p.wf() && p.map() == m
                && *final(pos) == e,
            Err(x) => res matches Err(y) && y == x,
        },
{
    if r.len() < 24 || *pos > r.len() - 24 {
        return Err(DecodeError::UnexpectedEof);
    }
    let from = read_u64(r, pos)?;
    let to = read_u64(r, pos)?;
    let w = read_u64(r, pos)?;
    let p = read_properties(r, pos)?;
    Ok((from, to, w, p))
}

/// Vertices inserted one after the other, the first first.
pub open spec fn insert_vertices(m: Map<u64, PropMap>, ids: Seq<u64>, ps: Seq<Seq<(Seq<char>, PropertyValueView)>>) -> Map<u64, PropMap>
    decreases ids.len(),
{
    if ids.len() == 0 || ps.len() == 0 {
        m
    } else {
        insert_vertices(m.insert(ids[0], as_map(ps[0])), ids.drop_first(), ps.drop_first())
    }
}

/// Edges inserted one after the other, the first first.
pub open spec fn insert_edges(
    m: Map<(u64, u64), (u64, PropMap)>,
    es: Seq<(u64, u64)>,
    ws: Seq<u64>,
    ps: Seq<Seq<(Seq<char>, PropertyValueView)>>,
) -> Map<(u64, u64), (u64, PropMap)>
    decreases es.len(),
{
    if es.len() == 0 || ws.len() == 0 || ps.len() == 0 {
        m
    } else {
        insert_edges(m.insert(es[0], (ws[0], as_map(ps[0]))), es.drop_first(), ws.drop_first(), ps.drop_first())
    }
}

/// A property map entry list that the file format can hold.
pub open spec fn storable(p: Seq<(Seq<char>, PropertyValueView)>) -> bool {
    &&& keys_distinct(p)
    &&& p.len() <= 0xffff_ffff
    &&& lengths_fit(p)
}

#[verifier::rlimit(60)]
#[verifier::spinoff_prover]
pub(crate) proof fn lemma_vertices_decode(
    pre: Seq<u8>,
    ids: Seq<u64>,
    pe: Seq<Seq<u8>>,
    ps: Seq<Seq<(Seq<char>, PropertyValueView)>>,
    post: Seq<u8>,
    m: Map<u64, PropMap>,
)
    requires
        ids.len() == pe.len(),
        ps.len() == pe.len(),
        forall|i: int| 0 <= i < ps.len() ==> storable(#[trigger] ps[i]) && encoded_as(ps[i], pe[i]),
    ensures
        vertices_from(pre + vertex_records(ids, pe) + post, pre.len() as int, ids.len(), m) == Ok::<(Map<u64, PropMap>, int), DecodeError>(
            (insert_vertices(m, ids, ps), (pre.len() + vertex_records(ids, pe).len()) as int),
        ),
    decreases ids.len(),
{
    let s = pre + vertex_records(ids, pe) + post;
    if ids.len() == 0 {
        assert(vertex_records(ids, pe) =~= Seq::<u8>::empty());
    } else {
        let rest = vertex_records(ids.drop_first(), pe.drop_first());
        assert(storable(ps[0]));
        assert(s =~= pre + be64(ids[0]) + (pe[0] + rest + post));
        lemma_be64_roundtrip(pre, ids[0], pe[0] + rest + post);
        assert(s =~= (pre + be64(ids[0])) + pe[0] + (rest + post));
        lemma_props_roundtrip(pre + be64(ids[0]), ps[0], pe[0], rest + post);
        let pre2 = pre + be64(ids[0]) + pe[0];
        assert(s =~= pre2 + rest + post);
        assert forall|i: int| 0 <= i < ps.drop_first().len() implies storable(#[trigger] ps.drop_first()[i])
            && encoded_as(ps.drop_first()[i], pe.drop_first()[i]) by {
            assert(ps.drop_first()[i] == ps[i + 1]);
            assert(pe.drop_first()[i] == pe[i + 1]);
        }
        lemma_vertices_decode(pre2, ids.drop_first(), pe.drop_first(), ps.drop_first(), post, m.insert(ids[0], as_map(ps[0])));
    }
}

#[verifier::rlimit(80)]
pub(crate) proof fn lemma_edges_decode(
    pre: Seq<u8>,
    es: Seq<(u64, u64)>,
    ws: Seq<u64>,
    ee: Seq<Seq<u8>>,
    ps: Seq<Seq<(Seq<char>, PropertyValueView)>>,
    post: Seq<u8>,
    m: Map<(u64, u64), (u64, PropMap)>,
)
    requires
        es.len() == ee.len(),
        ws.len() == ee.len(),
        ps.len() == ee.len(),
        forall|i: int| 0 <= i < ps.len() ==> storable(#[trigger] ps[i]) && encoded_as(ps[i], ee[i]),
    ensures
        edges_from(pre + edge_records(es, ws, ee) + post, pre.len() as int, es.len(), m) == Ok::<
            (Map<(u64, u64), (u64, PropMap)>, int),
            DecodeError,
        >((insert_edges(m, es, ws, ps), (pre.len() + edge_records(es, ws, ee).len()) as int)),
    decreases es.len(),
{
    let s = pre + edge_records(es, ws, ee) + post;
    if es.len() == 0 {
        assert(edge_records(es, ws, ee) =~= Seq::<u8>::empty());
    } else {
        let rest = edge_records(es.drop_first(), ws.drop_first(), ee.drop_first());
        assert(storable(ps[0]));
        assert(encoded_as(ps[0], ee[0]));
        let rec = be64(es[0].0) + be64(es[0].1) + be64(ws[0]) + ee[0];
        assert(edge_records(es, ws, ee) =~= rec + rest);
        assert(s =~= pre + rec + (rest + post));
        lemma_edge_record_step(pre, es[0], ws[0], ee[0], ps[0], rest + post, es.len(), m);
        let pre2 = pre + rec;
        assert(s =~= pre2 + rest + post);
        assert forall|i: int| 0 <= i < ps.drop_first().len() implies storable(#[trigger] ps.drop_first()[i])
            && encoded_as(ps.drop_first()[i], ee.drop_first()[i]) by {
            assert(ps.drop_first()[i] == ps[i + 1]);
            assert(ee.drop_first()[i] == ee[i + 1]);
        }
        lemma_edges_decode(pre2, es.drop_first(), ws.drop_first(), ee.drop_first(), ps.drop_first(), post, m.insert(es[0], (ws[0], as_map(ps[0]))));
    }
}

/// Reading one edge record where it was written.
#[verifier::rlimit(80)]
proof fn lemma_edge_record_step(
    pre: Seq<u8>,
    e: (u64, u64),
    w: u64,
    enc: Seq<u8>,
    p: Seq<(Seq<char>, PropertyValueView)>,
    post: Seq<u8>,
    count: nat,
    m: Map<(u64, u64), (u64, PropMap)>,
)
    requires
        storable(p),
        encoded_as(p, enc),
        count > 0,
    ensures
        ({
            let rec = be64(e.0) + be64(e.1) + be64(w) + enc;
            edges_from(pre + rec + post, pre.len() as int, count, m)
                == edges_from(pre + rec + post, (pre.len() + rec.len()) as int, (count - 1) as nat, m.insert(e, (w, as_map(p))))
        }),
{
    let rec = be64(e.0) + be64(e.1) + be64(w) + enc;
    let s = pre + rec + post;
    let i = pre.len() as int;
    assert(s =~= pre + be64(e.0) + (be64(e.1) + be64(w) + enc + post));
    lemma_be64_roundtrip(pre, e.0, be64(e.1) + be64(w) + enc + post);
    let p1 = pre + be64(e.0);
    assert(s =~= p1 + be64(e.1) + (be64(w) + enc + post));
    lemma_be64_roundtrip(p1, e.1, be64(w) + enc + post);
    let p2 = p1 + be64(e.1);
    assert(s =~= p2 + be64(w) + (enc + post));
    lemma_be64_roundtrip(p2, w, enc + post);
    let p3 = p2 + be64(w);
    assert(s =~= p3 + enc + post);
    lemma_props_roundtrip(p3, p, enc, post);
    assert(be64_at(s, i) == e.0);
    assert(be64_at(s, i + 8) == e.1);
    assert(be64_at(s, i + 16) == w);
    assert(props_at(s, i + 24) == Ok::<(Map<Seq<char>, PropertyValueView>, int), DecodeError>((as_map(p), i + rec.len())));
}

pub(crate) proof fn lemma_insert_vertices(m: Map<u64, PropMap>, ids: Seq<u64>, ps: Seq<Seq<(Seq<char>, PropertyValueView)>>)
    requires
        ids.len() == ps.len(),
        ids.no_duplicates(),
    ensures
        forall|k: u64| #[trigger] insert_vertices(m, ids, ps).dom().contains(k) <==> (m.dom().contains(k) || ids.contains(k)),
        forall|i: int| 0 <= i < ids.len() ==> insert_vertices(m, ids, ps)[#[trigger] ids[i]] == as_map(ps[i]),
    decreases ids.len(),
{
    if ids.len() > 0 {
        let rest = ids.drop_first();
        assert(rest.no_duplicates()) by {
            assert forall|a: int, b: int| 0 <= a < rest.len() && 0 <= b < rest.len() && a != b implies rest[a] != rest[b] by {
                assert(rest[a] == ids[a + 1] && rest[b] == ids[b + 1]);
            }
        }
        let m1 = m.insert(ids[0], as_map(ps[0]));
        lemma_insert_vertices(m1, rest, ps.drop_first());
        let r = insert_vertices(m1, rest, ps.drop_first());
        assert forall|k: u64| #[trigger] r.dom().contains(k) <==> (m.dom().contains(k) || ids.contains(k)) by {
            if ids.contains(k) && k != ids[0] {
                let j = choose|j: int| 0 <= j < ids.len() && ids[j] == k;
                assert(rest[j - 1] == k);
            }
            if rest.contains(k) {
                let j = choose|j: int| 0 <= j < rest.len() && rest[j] == k;
                assert(ids[j + 1] == k);
            }
            if k == ids[0] {
                assert(ids.contains(k));
            }
        }
        assert forall|i: int| 0 <= i < ids.len() implies r[#[trigger] ids[i]] == as_map(ps[i]) by {
            if i == 0 {
                if rest.contains(ids[0]) {
                    let j = choose|j: int| 0 <= j < rest.len() && rest[j] == ids[0];
                    assert(ids[j + 1] == ids[0]);
                }
                // not overwritten later: the untouched keys keep their value
                lemma_insert_vertices_keep(m1, rest, ps.drop_first(), ids[0]);
            } else {
                assert(rest[i - 1] == ids[i]);
                assert(ps.drop_first()[i - 1] == ps[i]);
            }
        }
    }
}

proof fn lemma_insert_vertices_keep(m: Map<u64, PropMap>, ids: Seq<u64>, ps: Seq<Seq<(Seq<char>, PropertyValueView)>>, k: u64)
    requires
        !ids.contains(k),
        m.dom().contains(k),
    ensures
        insert_vertices(m, ids, ps).dom().contains(k),
        insert_vertices(m, ids, ps)[k] == m[k],
    decreases ids.len(),
{
    if ids.len() > 0 && ps.len() > 0 {
        assert(ids[0] != k);
        assert(!ids.drop_first().contains(k)) by {
            if ids.drop_first().contains(k) {
                let j = choose|j: int| 0 <= j < ids.drop_first().len() && ids.drop_first()[j] == k;
                assert(ids[j + 1] == k);
            }
        }
        lemma_insert_vertices_keep(m.insert(ids[0], as_map(ps[0])), ids.drop_first(), ps.drop_first(), k);
    }
}

pub(crate) proof fn lemma_insert_edges(m: Map<(u64, u64), (u64, PropMap)>, es: Seq<(u64, u64)>, ws: Seq<u64>, ps: Seq<Seq<(Seq<char>, PropertyValueView)>>)
    requires
        es.len() == ps.len(),
        ws.len() == ps.len(),
        es.no_duplicates(),
    ensures
        forall|k: (u64, u64)| #[trigger] insert_edges(m, es, ws, ps).dom().contains(k) <==> (m.dom().contains(k) || es.contains(k)),
        forall|i: int| 0 <= i < es.len() ==> insert_edges(m, es, ws, ps)[#[trigger] es[i]] == (ws[i], as_map(ps[i])),
    decreases es.len(),
{
    if es.len() > 0 {
        let rest = es.drop_first();
        assert(rest.no_duplicates()) by {
            assert forall|a: int, b: int| 0 <= a < rest.len() && 0 <= b < rest.len() && a != b implies rest[a] != rest[b] by {
                assert(rest[a] == es[a + 1] && rest[b] == es[b + 1]);
            }
        }
        let m1 = m.insert(es[0], (ws[0], as_map(ps[0])));
        lemma_insert_edges(m1, rest, ws.drop_first(), ps.drop_first());
        let r = insert_edges(m1, rest, ws.drop_first(), ps.drop_first());
        assert forall|k: (u64, u64)| #[trigger] r.dom().contains(k) <==> (m.dom().contains(k) || es.contains(k)) by {
            if es.contains(k) && k != es[0] {
                let j = choose|j: int| 0 <= j < es.len() && es[j] == k;
                assert(rest[j - 1] == k);
            }
            if rest.contains(k) {
                let j = choose|j: int| 0 <= j < rest.len() && rest[j] == k;
                assert(es[j + 1] == k);
            }
            if k == es[0] {
                assert(es.contains(k));
            }
        }
        assert forall|i: int| 0 <= i < es.len() implies r[#[trigger] es[i]] == (ws[i], as_map(ps[i])) by {
            if i == 0 {
                if rest.contains(es[0]) {
                    let j = choose|j: int| 0 <= j < rest.len() && rest[j] == es[0];
                    assert(es[j + 1] == es[0]);
                }
                lemma_insert_edges_keep(m1, rest, ws.drop_first(), ps.drop_first(), es[0]);
            } else {
                assert(rest[i - 1] == es[i]);
                assert(ws.drop_first()[i - 1] == ws[i]);
                assert(ps.drop_first()[i - 1] == ps[i]);
            }
        }
    }
}

proof fn lemma_insert_edges_keep(
    m: Map<(u64, u64), (u64, PropMap)>,
    es: Seq<(u64, u64)>,
    ws: Seq<u64>,
    ps: Seq<Seq<(Seq<char>, PropertyValueView)>>,
    k: (u64, u64),
)
    requires
        !es.contains(k),
        m.dom().contains(k),
    ensures
        insert_edges(m, es, ws, ps).dom().contains(k),
        insert_edges(m, es, ws, ps)[k] == m[k],
    decreases es.len(),
{
    if es.len() > 0 && ws.len() > 0 && ps.len() > 0 {
        assert(es[0] != k);
        assert(!es.drop_first().contains(k)) by {
            if es.drop_first().contains(k) {
                let j = choose|j: int| 0 <= j < es.drop_first().len() && es.drop_first()[j] == k;
                assert(es[j + 1] == k);
            }
        }
        lemma_insert_edges_keep(m.insert(es[0], (ws[0], as_map(ps[0]))), es.drop_first(), ws.drop_first(), ps.drop_first(), k);
    }
}

pub(crate) proof fn lemma_header(nv: u64, ne: u64, rest: Seq<u8>)
    ensures
        ({
            let b = axol_header(nv, ne) + rest;
            &&& b.len() >= 38
            &&& axol_header(nv, ne).len() == 38
            &&& b.subrange(0, 4) == axol_magic()
            &&& be16_at(b, 4) == 1
            &&& be64_at(b, 6) == nv
            &&& be64_at(b, 14) == ne
        }),
{
    let zeros = Seq::new(16, |i: int| 0u8);
    let b = axol_header(nv, ne) + rest;
    assert(b.subrange(0, 4) =~= axol_magic());
    assert(b =~= axol_magic() + be16(1) + (be64(nv) + be64(ne) + zeros + rest));
    lemma_be16_roundtrip(axol_magic(), 1, be64(nv) + be64(ne) + zeros + rest);
    assert(b =~= (axol_magic() + be16(1)) + be64(nv) + (be64(ne) + zeros + rest));
    lemma_be64_roundtrip(axol_magic() + be16(1), nv, be64(ne) + zeros + rest);
    assert(b =~= (axol_magic() + be16(1) + be64(nv)) + be64(ne) + (zeros + rest));
    lemma_be64_roundtrip(axol_magic() + be16(1) + be64(nv), ne, zeros + rest);
}

} // verus!
