//! The AXOM file format, laid out for read-only memory mapping: a 64-byte
//! header, a vertex index (24 bytes per vertex, by increasing id), vertex
//! property data, an edge index (40 bytes per edge, by increasing
//! `(from, to)`) and edge property data. Integers are little-endian.

use vstd::prelude::*;
use vstd::utf8::{encode_utf8, valid_utf8, decode_utf8, encode_utf8_valid_utf8, encode_utf8_decode_utf8};
use crate::{PropertyValue, PropertyValueView};
use crate::properties::{Properties, keys_distinct, as_map};
use crate::compact_storage::{key_order, lemma_arranges, arranges, lengths_fit, insert_all, lemma_insert_all_map, lemma_arranged_map};
use crate::persistence::{copy_range, utf8_string, write_bytes};
use crate::persistent_graph::PersistentGraph;

verus! {

// ── little-endian integers ─────────────────────────

/// Little-endian bytes of a `u16`.
pub open spec fn le16(v: u16) -> Seq<u8> {
    seq![v as u8, (v >> 8u16) as u8]
}

/// Little-endian bytes of a `u32`.
pub open spec fn le32(v: u32) -> Seq<u8> {
    seq![v as u8, (v >> 8u32) as u8, (v >> 16u32) as u8, (v >> 24u32) as u8]
}

/// Little-endian bytes of a `u64`.
pub open spec fn le64(v: u64) -> Seq<u8> {
    seq![
        v as u8,
        (v >> 8u64) as u8,
        (v >> 16u64) as u8,
        (v >> 24u64) as u8,
        (v >> 32u64) as u8,
        (v >> 40u64) as u8,
        (v >> 48u64) as u8,
        (v >> 56u64) as u8,
    ]
}

/// The `u16` whose little-endian bytes start at `i`.
pub open spec fn le16_at(s: Seq<u8>, i: int) -> u16 {
    (s[i] as u16) | ((s[i + 1] as u16) << 8u16)
}

/// The `u32` whose little-endian bytes start at `i`.
pub open spec fn le32_at(s: Seq<u8>, i: int) -> u32 {
    (s[i] as u32) | ((s[i + 1] as u32) << 8u32) | ((s[i + 2] as u32) << 16u32) | ((s[i + 3] as u32) << 24u32)
}

/// The `u64` whose little-endian bytes start at `i`.
pub open spec fn le64_at(s: Seq<u8>, i: int) -> u64 {
    (s[i] as u64) | ((s[i + 1] as u64) << 8u64) | ((s[i + 2] as u64) << 16u64) | ((s[i + 3] as u64) << 24u64) | ((s[i
        + 4] as u64) << 32u64) | ((s[i + 5] as u64) << 40u64) | ((s[i + 6] as u64) << 48u64) | ((s[i + 7] as u64)
        << 56u64)
}

/// Reading back the bytes of a `u16` gives it back, wherever they stand.
pub proof fn lemma_le16_roundtrip(pre: Seq<u8>, v: u16, post: Seq<u8>)
    ensures
        le16_at(pre + le16(v) + post, pre.len() as int) == v,
{
    let s = pre + le16(v) + post;
    let i = pre.len() as int;
    assert(s[i] == v as u8);
    assert(s[i + 1] == (v >> 8u16) as u8);
    assert(((v as u8) as u16) | ((((v >> 8u16) as u8) as u16) << 8u16) == v) by (bit_vector);
}

/// Reading back the bytes of a `u32` gives it back, wherever they stand.
pub proof fn lemma_le32_roundtrip(pre: Seq<u8>, v: u32, post: Seq<u8>)
    ensures
        le32_at(pre + le32(v) + post, pre.len() as int) == v,
{
    let s = pre + le32(v) + post;
    let i = pre.len() as int;
    assert(s[i] == v as u8);
    assert(s[i + 1] == (v >> 8u32) as u8);
    assert(s[i + 2] == (v >> 16u32) as u8);
    assert(s[i + 3] == (v >> 24u32) as u8);
    assert(((v as u8) as u32) | ((((v >> 8u32) as u8) as u32) << 8u32) | ((((v >> 16u32) as u8) as u32) << 16u32)
        | ((((v >> 24u32) as u8) as u32) << 24u32) == v) by (bit_vector);
}

/// Reading back the bytes of a `u64` gives it back, wherever they stand.
pub proof fn lemma_le64_roundtrip(pre: Seq<u8>, v: u64, post: Seq<u8>)
    ensures
        le64_at(pre + le64(v) + post, pre.len() as int) == v,
{
    let s = pre + le64(v) + post;
    let i = pre.len() as int;
    assert(s[i] == v as u8);
    assert(s[i + 1] == (v >> 8u64) as u8);
    assert(s[i + 2] == (v >> 16u64) as u8);
    assert(s[i + 3] == (v >> 24u64) as u8);
    assert(s[i + 4] == (v >> 32u64) as u8);
    assert(s[i + 5] == (v >> 40u64) as u8);
    assert(s[i + 6] == (v >> 48u64) as u8);
    assert(s[i + 7] == (v >> 56u64) as u8);
    assert(((v as u8) as u64) | ((((v >> 8u64) as u8) as u64) << 8u64) | ((((v >> 16u64) as u8) as u64) << 16u64)
        | ((((v >> 24u64) as u8) as u64) << 24u64) | ((((v >> 32u64) as u8) as u64) << 32u64) | ((((v >> 40u64)
        as u8) as u64) << 40u64) | ((((v >> 48u64) as u8) as u64) << 48u64) | ((((v >> 56u64) as u8) as u64)
        << 56u64) == v) by (bit_vector);
}

/// Appends the little-endian bytes of `v`.
pub fn write_le16(w: &mut Vec<u8>, v: u16)
    ensures
        final(w)@ == old(w)@ + le16(v),
{
    w.push(v as u8);
    w.push((v >> 8u16) as u8);
    proof {
        assert(w@ =~= old(w)@ + le16(v));
    }
}

/// Appends the little-endian bytes of `v`.
pub fn write_le32(w: &mut Vec<u8>, v: u32)
    ensures
        final(w)@ == old(w)@ + le32(v),
{
    w.push(v as u8);
    w.push((v >> 8u32) as u8);
    w.push((v >> 16u32) as u8);
    w.push((v >> 24u32) as u8);
    proof {
        assert(w@ =~= old(w)@ + le32(v));
    }
}

/// Appends the little-endian bytes of `v`.
pub fn write_le64(w: &mut Vec<u8>, v: u64)
    ensures
        final(w)@ == old(w)@ + le64(v),
{
    w.push(v as u8);
    w.push((v >> 8u64) as u8);
    w.push((v >> 16u64) as u8);
    w.push((v >> 24u64) as u8);
    w.push((v >> 32u64) as u8);
    w.push((v >> 40u64) as u8);
    w.push((v >> 48u64) as u8);
    w.push((v >> 56u64) as u8);
    proof {
        assert(w@ =~= old(w)@ + le64(v));
    }
}

/// The little-endian `u16` at `i`.
pub fn read_le16(r: &[u8], i: usize) -> (v: u16)
    requires
        i + 2 <= r@.len(),
    ensures
        v == le16_at(r@, i as int),
{
    (r[i] as u16) | ((r[i + 1] as u16) << 8u16)
}

/// The little-endian `u32` at `i`.
pub fn read_le32(r: &[u8], i: usize) -> (v: u32)
    requires
        i + 4 <= r@.len(),
    ensures
        v == le32_at(r@, i as int),
{
    (r[i] as u32) | ((r[i + 1] as u32) << 8u32) | ((r[i + 2] as u32) << 16u32) | ((r[i + 3] as u32) << 24u32)
}

/// The little-endian `u64` at `i`.
pub fn read_le64(r: &[u8], i: usize) -> (v: u64)
    requires
        i + 8 <= r@.len(),
    ensures
        v == le64_at(r@, i as int),
{
    (r[i] as u64) | ((r[i + 1] as u64) << 8u64) | ((r[i + 2] as u64) << 16u64) | ((r[i + 3] as u64) << 24u64)
        | ((r[i + 4] as u64) << 32u64) | ((r[i + 5] as u64) << 40u64) | ((r[i + 6] as u64) << 48u64) | ((r[i
        + 7] as u64) << 56u64)
}

// ── property maps ─────────────────────────

/// Length (`u32`) and UTF-8 bytes of a string.
pub open spec fn le_string_bytes(c: Seq<char>) -> Seq<u8> {
    le32(encode_utf8(c).len() as u32) + encode_utf8(c)
}

/// Type tag and payload of a property value.
pub open spec fn le_value_bytes(v: PropertyValueView) -> Seq<u8> {
    match v {
        PropertyValueView::String(c) => seq![0u8] + le_string_bytes(c),
        PropertyValueView::Int(i) => seq![1u8] + le64(i as u64),
        PropertyValueView::Double(d) => seq![2u8] + le64(d),
        PropertyValueView::Bool(b) => seq![3u8, if b { 1u8 } else { 0u8 }],
        PropertyValueView::Null => seq![4u8],
    }
}

/// Bytes of one entry: key, then value.
pub open spec fn le_entry_bytes(e: (Seq<char>, PropertyValueView)) -> Seq<u8> {
    le_string_bytes(e.0) + le_value_bytes(e.1)
}

/// Bytes of entries, one after the other.
pub open spec fn le_entries_bytes(q: Seq<(Seq<char>, PropertyValueView)>) -> Seq<u8>
    decreases q.len(),
{
    if q.len() == 0 {
        seq![]
    } else {
        le_entries_bytes(q.drop_last()) + le_entry_bytes(q.last())
    }
}

/// `b` encodes the entries `s`: their number (`u32`), then each entry by
/// increasing key.
pub open spec fn le_encoded_as(s: Seq<(Seq<char>, PropertyValueView)>, b: Seq<u8>) -> bool {
    exists|q: Seq<(Seq<char>, PropertyValueView)>| #[trigger] arranges(q, s) && b == le32(s.len() as u32) + le_entries_bytes(q)
}

/// Appends the length and UTF-8 bytes of `s`.
fn write_le_string(w: &mut Vec<u8>, s: &str)
    ensures
        final(w)@ == old(w)@ + le_string_bytes(s@),
{
    let bytes = s.as_bytes();
    write_le32(w, bytes.len() as u32);
    write_bytes(w, bytes);
    proof {
        assert(w@ =~= old(w)@ + le_string_bytes(s@));
    }
}

/// Appends the type tag and payload of `pv`.
fn write_le_value(w: &mut Vec<u8>, pv: &PropertyValue)
    ensures
        final(w)@ == old(w)@ + le_value_bytes(pv@),
{
    match pv {
        PropertyValue::String(s) => {
            w.push(0u8);
            write_le_string(w, s.as_str());
        },
        PropertyValue::Int(i) => {
            w.push(1u8);
            write_le64(w, *i as u64);
        },
        PropertyValue::Double(d) => {
            w.push(2u8);
            write_le64(w, *d);
        },
        PropertyValue::Bool(b) => {
            w.push(3u8);
            w.push(if *b { 1u8 } else { 0u8 });
        },
        PropertyValue::Null => {
            w.push(4u8);
        },
    }
    proof {
        assert(w@ =~= old(w)@ + le_value_bytes(pv@));
    }
}

/// Encodes a property map: the number of entries (`u32`), then each entry
/// by increasing key. Equal maps get equal bytes.
#[verifier::rlimit(40)]
pub fn encode_properties(props: &Properties) -> (r: Vec<u8>)
    requires
        props.wf(),
    ensures
        le_encoded_as(props@, r@),
{
    let ghost ps = props@;
    let order = key_order(props);
    let mut buf: Vec<u8> = Vec::new();
    write_le32(&mut buf, props.len() as u32);
    let ghost head = buf@;
    let ghost mut qs: Seq<(Seq<char>, PropertyValueView)> = Seq::empty();
    let mut j: usize = 0;
    while j < order.len()
        invariant
            ps == props@,
            props.wf(),
            j <= order@.len(),
            forall|k: int| 0 <= k < order@.len() ==> (#[trigger] order@[k] as int) < ps.len(),
            qs.len() == j,
            forall|k: int| 0 <= k < j ==> #[trigger] qs[k] == ps[order@[k] as int],
            buf@ == head + le_entries_bytes(qs),
        decreases order@.len() - j,
    {
        let (k, v) = props.entry(order[j]);
        write_le_string(&mut buf, k.as_str());
        write_le_value(&mut buf, v);
        proof {
            let e = ps[order@[j as int] as int];
            assert(qs.push(e).drop_last() =~= qs);
            qs = qs.push(e);
            assert(buf@ =~= head + le_entries_bytes(qs));
        }
        j = j + 1;
    }
    proof {
        lemma_arranges(order@, qs, ps);
    }
    buf
}

/// The string at `i` and the position after it; bytes that are not UTF-8
/// give the empty string. `None` when the bytes end first.
pub open spec fn le_string_at(s: Seq<u8>, i: int) -> Option<(Seq<char>, int)> {
    if i + 4 > s.len() {
        None
    } else {
        let n = le32_at(s, i) as int;
        if i + 4 + n > s.len() {
            None
        } else if valid_utf8(s.subrange(i + 4, i + 4 + n)) {
            Some((decode_utf8(s.subrange(i + 4, i + 4 + n)), i + 4 + n))
        } else {
            Some((Seq::empty(), i + 4 + n))
        }
    }
}

/// One decoding step at `i`: `None` to stop (bytes missing); otherwise the
/// entry read (`None` for an unknown type tag, which is skipped together
/// with the byte after it) and where the next entry starts.
pub open spec fn le_decode_step(s: Seq<u8>, i: int) -> Option<(Option<(Seq<char>, PropertyValueView)>, int)> {
    match le_string_at(s, i) {
        None => None,
        Some((k, c)) => if c >= s.len() {
            None
        } else {
            let tag = s[c];
            let d = c + 1;
            if tag == 0 {
                match le_string_at(s, d) {
                    None => None,
                    Some((v, e)) => Some((Some((k, PropertyValueView::String(v))), e)),
                }
            } else if tag == 1 {
                if d + 8 > s.len() {
                    None
                } else {
                    Some((Some((k, PropertyValueView::Int(le64_at(s, d) as i64))), d + 8))
                }
            } else if tag == 2 {
                if d + 8 > s.len() {
                    None
                } else {
                    Some((Some((k, PropertyValueView::Double(le64_at(s, d)))), d + 8))
                }
            } else if tag == 3 {
                if d >= s.len() {
                    None
                } else {
                    Some((Some((k, PropertyValueView::Bool(s[d] != 0))), d + 1))
                }
            } else if tag == 4 {
                Some((Some((k, PropertyValueView::Null)), d))
            } else {
                Some((None, d + 1))
            }
        },
    }
}

/// The map obtained by decoding up to `k` entries from `i` into `m`, a
/// later entry replacing an earlier one with the same key.
pub open spec fn le_decode_from(s: Seq<u8>, i: int, k: nat, m: Map<Seq<char>, PropertyValueView>) -> Map<Seq<char>, PropertyValueView>
    decreases k,
{
    if k == 0 {
        m
    } else {
        match le_decode_step(s, i) {
            None => m,
            Some((None, e)) => le_decode_from(s, e, (k - 1) as nat, m),
            Some((Some((key, v)), e)) => le_decode_from(s, e, (k - 1) as nat, m.insert(key, v)),
        }
    }
}

/// The property map that decoding `s` gives: as many entries as the
/// leading count says, or fewer when the bytes end first (what was read up
/// to there is kept).
pub open spec fn le_decoded(s: Seq<u8>) -> Map<Seq<char>, PropertyValueView> {
    if s.len() < 4 {
        Map::empty()
    } else {
        le_decode_from(s, 4, le32_at(s, 0) as nat, Map::empty())
    }
}

/// Reads the string at `*pos`, as [`le_string_at`] says.
fn read_le_string(r: &[u8], pos: &mut usize) -> (res: Option<String>)
    ensures
        match le_string_at(r@, *old(pos) as int) {
            Some((c, e)) => res matches Some(s) && s@ == c && *final(pos) == e,
            None => res is None,
        },
{
    let p = *pos;
    if r.len() < 4 || p > r.len() - 4 {
        return None;
    }
    let n = read_le32(r, p) as usize;
    let start = p + 4;
    if n > r.len() - start {
        return None;
    }
    let bytes = copy_range(r, start, start + n);
    *pos = start + n;
    match utf8_string(bytes) {
        Some(s) => {
            proof {
                encode_utf8_decode_utf8(s@);
            }
            Some(s)
        },
        None => {
            let s = String::new();
            proof {
                assert(s@ =~= Seq::<char>::empty());
            }
            Some(s)
        },
    }
}

/// Decodes a property map written by [`encode_properties`]; see
/// [`le_decoded`] for bytes that were not.
pub fn decode_properties(buf: &[u8]) -> (r: Properties)
    ensures
        r.wf(),
        r.map() == le_decoded(buf@),
{
    let ghost s = buf@;
    let mut props = Properties::new();
    proof {
        assert(props.map() =~= Map::<Seq<char>, PropertyValueView>::empty());
    }
    if buf.len() < 4 {
        return props;
    }
    let n = read_le32(buf, 0);
    let mut pos: usize = 4;
    let mut t: u32 = 0;
    while t < n
        invariant
            s == buf@,
            props.wf(),
            t <= n,
            4 <= s.len(),
            n == le32_at(s, 0),
            le_decoded(s) == le_decode_from(s, pos as int, (n - t) as nat, props.map()),
        decreases n - t,
    {
        let ghost p0 = pos as int;
        let key = match read_le_string(buf, &mut pos) {
            Some(k) => k,
            None => {
                return props;
            },
        };
        if pos >= buf.len() {
            return props;
        }
        let tag = buf[pos];
        pos = pos + 1;
        let value = if tag == 0 {
            match read_le_string(buf, &mut pos) {
                Some(v) => PropertyValue::String(v),
                None => {
                    return props;
                },
            }
        } else if tag == 1 {
            if pos > buf.len() || buf.len() - pos < 8 {
                return props;
            }
            let x = read_le64(buf, pos);
            pos = pos + 8;
            PropertyValue::Int(x as i64)
        } else if tag == 2 {
            if pos > buf.len() || buf.len() - pos < 8 {
                return props;
            }
            let x = read_le64(buf, pos);
            pos = pos + 8;
            PropertyValue::Double(x)
        } else if tag == 3 {
            if pos >= buf.len() {
                return props;
            }
            let b = buf[pos] != 0;
            pos = pos + 1;
            PropertyValue::Bool(b)
        } else if tag == 4 {
            PropertyValue::Null
        } else {
            if pos >= buf.len() {
                proof {
                    assert(le_decode_step(s, p0) == Some::<(Option<(Seq<char>, PropertyValueView)>, int)>((None, pos as int + 1)));
                    if n - t - 1 > 0 {
                        assert(le_string_at(s, pos as int + 1) is None);
                        assert(le_decode_step(s, pos as int + 1) is None);
                    }
                    assert(le_decode_from(s, pos as int + 1, (n - t - 1) as nat, props.map()) == props.map());
                    assert(le_decode_from(s, p0, (n - t) as nat, props.map()) == le_decode_from(
                        s,
                        pos as int + 1,
                        (n - t - 1) as nat,
                        props.map(),
                    ));
                }
                return props;
            }
            pos = pos + 1;
            t = t + 1;
            proof {
                assert(le_decode_step(s, p0) == Some::<(Option<(Seq<char>, PropertyValueView)>, int)>((None, pos as int)));
            }
            continue;
        };
        let ghost kv = key@;
        let ghost vv = value@;
        props.insert(key, value);
        t = t + 1;
        proof {
            assert(le_decode_step(s, p0) == Some::<(Option<(Seq<char>, PropertyValueView)>, int)>((Some((kv, vv)), pos as int)));
        }
    }
    props
}

/// Reading a string where one was written gives it back, provided its
/// UTF-8 length fits the `u32` prefix.
proof fn lemma_le_string_roundtrip(pre: Seq<u8>, c: Seq<char>, post: Seq<u8>)
    requires
        encode_utf8(c).len() <= 0xffff_ffff,
    ensures
        le_string_at(pre + le_string_bytes(c) + post, pre.len() as int) == Some(
            (c, (pre.len() + le_string_bytes(c).len()) as int),
        ),
{
    let b = encode_utf8(c);
    let s = pre + le_string_bytes(c) + post;
    let i = pre.len() as int;
    assert(s =~= pre + le32(b.len() as u32) + (b + post));
    lemma_le32_roundtrip(pre, b.len() as u32, b + post);
    assert(s.subrange(i + 4, i + 4 + b.len()) =~= b);
    encode_utf8_valid_utf8(c);
    encode_utf8_decode_utf8(c);
}

/// Reading an entry where one was written gives it back.
proof fn lemma_le_step(pre: Seq<u8>, e: (Seq<char>, PropertyValueView), post: Seq<u8>)
    requires
        encode_utf8(e.0).len() <= 0xffff_ffff,
        e.1 matches PropertyValueView::String(c) ==> encode_utf8(c).len() <= 0xffff_ffff,
    ensures
        le_decode_step(pre + le_entry_bytes(e) + post, pre.len() as int) == Some(
            (Some(e), (pre.len() + le_entry_bytes(e).len()) as int),
        ),
{
    let s = pre + le_entry_bytes(e) + post;
    let kb = le_string_bytes(e.0);
    let vb = le_value_bytes(e.1);
    assert(s =~= pre + kb + (vb + post));
    lemma_le_string_roundtrip(pre, e.0, vb + post);
    let c = (pre.len() + kb.len()) as int;
    let pre2 = pre + kb;
    assert(s[c] == vb[0]);
    match e.1 {
        PropertyValueView::String(x) => {
            assert(s =~= pre2.push(0u8) + le_string_bytes(x) + post);
            lemma_le_string_roundtrip(pre2.push(0u8), x, post);
        },
        PropertyValueView::Int(x) => {
            assert(s =~= pre2.push(1u8) + le64(x as u64) + post);
            lemma_le64_roundtrip(pre2.push(1u8), x as u64, post);
            assert((x as u64) as i64 == x) by (bit_vector);
        },
        PropertyValueView::Double(d) => {
            assert(s =~= pre2.push(2u8) + le64(d) + post);
            lemma_le64_roundtrip(pre2.push(2u8), d, post);
        },
        PropertyValueView::Bool(b) => {
            assert(s[c + 1] == if b { 1u8 } else { 0u8 });
        },
        PropertyValueView::Null => {},
    }
}

proof fn lemma_le_entries_front(q: Seq<(Seq<char>, PropertyValueView)>)
    requires
        q.len() > 0,
    ensures
        le_entries_bytes(q) == le_entry_bytes(q[0]) + le_entries_bytes(q.drop_first()),
    decreases q.len(),
{
    if q.len() > 1 {
        lemma_le_entries_front(q.drop_last());
        assert(q.drop_last().drop_first() =~= q.drop_first().drop_last());
        assert(q.drop_first().last() == q.last());
        assert(le_entries_bytes(q.drop_first()) == le_entries_bytes(q.drop_first().drop_last()) + le_entry_bytes(
            q.drop_first().last(),
        ));
    } else {
        assert(q.drop_last() =~= Seq::<(Seq<char>, PropertyValueView)>::empty());
        assert(q.drop_first() =~= Seq::<(Seq<char>, PropertyValueView)>::empty());
    }
}

proof fn lemma_le_decode_entries(pre: Seq<u8>, q: Seq<(Seq<char>, PropertyValueView)>, m: Map<Seq<char>, PropertyValueView>)
    requires
        lengths_fit(q),
    ensures
        le_decode_from(pre + le_entries_bytes(q), pre.len() as int, q.len(), m) == insert_all(m, q),
    decreases q.len(),
{
    if q.len() > 0 {
        let rest = q.drop_first();
        lemma_le_entries_front(q);
        let s = pre + le_entries_bytes(q);
        assert(lengths_fit(rest)) by {
            assert forall|i: int| 0 <= i < rest.len() implies {
                &&& encode_utf8(#[trigger] rest[i].0).len() <= 0xffff_ffff
                &&& rest[i].1 matches PropertyValueView::String(c) ==> encode_utf8(c).len() <= 0xffff_ffff
            } by {
                assert(rest[i] == q[i + 1]);
            }
        }
        assert(encode_utf8(q[0].0).len() <= 0xffff_ffff);
        assert(s =~= pre + le_entry_bytes(q[0]) + le_entries_bytes(rest));
        lemma_le_step(pre, q[0], le_entries_bytes(rest));
        let pre2 = pre + le_entry_bytes(q[0]);
        assert(s =~= pre2 + le_entries_bytes(rest));
        lemma_le_decode_entries(pre2, rest, m.insert(q[0].0, q[0].1));
    }
}

/// Decoding what [`encode_properties`] wrote gives the property map back,
/// when it has fewer than 2^32 entries and every key and string value has
/// fewer than 2^32 UTF-8 bytes.
pub proof fn lemma_properties_roundtrip(s: Seq<(Seq<char>, PropertyValueView)>, bytes: Seq<u8>)
    requires
        keys_distinct(s),
        s.len() <= 0xffff_ffff,
        lengths_fit(s),
        le_encoded_as(s, bytes),
    ensures
        le_decoded(bytes) == as_map(s),
{
    let q = choose|q: Seq<(Seq<char>, PropertyValueView)>| #[trigger] arranges(q, s) && bytes == le32(s.len() as u32)
        + le_entries_bytes(q);
    lemma_arranged_map(q, s);
    let e = Seq::<u8>::empty();
    assert(bytes =~= e + le32(s.len() as u32) + le_entries_bytes(q));
    lemma_le32_roundtrip(e, s.len() as u32, le_entries_bytes(q));
    assert(le32_at(bytes, 0) as nat == q.len());
    lemma_le_decode_entries(le32(s.len() as u32), q, Map::empty());
    lemma_insert_all_map(Map::empty(), q);
    assert(Map::<Seq<char>, PropertyValueView>::empty().union_prefer_right(as_map(q)) =~= as_map(q));
}

// ── the file ─────────────────────────

/// Byte strings one after the other.
pub open spec fn concat(bs: Seq<Seq<u8>>) -> Seq<u8>
    decreases bs.len(),
{
    if bs.len() == 0 {
        Seq::empty()
    } else {
        concat(bs.drop_last()) + bs.last()
    }
}

/// The 64-byte header: magic `AXOM`, version 1, two bytes of padding, the
/// counts, the four section offsets, and eight reserved bytes.
pub open spec fn axom_header(vc: nat, ec: nat, vdo: int, eio: int, edo: int) -> Seq<u8> {
    seq![65u8, 88u8, 79u8, 77u8] + le16(1) + seq![0u8, 0u8] + le64(vc as u64) + le64(ec as u64) + le64(64)
        + le64(vdo as u64) + le64(eio as u64) + le64(edo as u64) + Seq::new(8, |i: int| 0u8)
}

/// Vertex index: for each vertex its id, where its data starts (`base`
/// plus the data before it) and the data's length.
pub open spec fn vertex_index(ids: Seq<u64>, encs: Seq<Seq<u8>>, base: int) -> Seq<u8>
    decreases ids.len(),
{
    if ids.len() == 0 {
        Seq::empty()
    } else {
        vertex_index(ids.drop_last(), encs.drop_last(), base) + le64(ids.last()) + le64(
            (base + concat(encs.drop_last()).len()) as u64,
        ) + le64(encs.last().len() as u64)
    }
}

/// Edge index: for each edge its endpoints, weight bits, where its data
/// starts and the data's length.
pub open spec fn edge_index(es: Seq<(u64, u64)>, ws: Seq<u64>, encs: Seq<Seq<u8>>, base: int) -> Seq<u8>
    decreases es.len(),
{
    if es.len() == 0 {
        Seq::empty()
    } else {
        edge_index(es.drop_last(), ws.drop_last(), encs.drop_last(), base) + le64(es.last().0) + le64(es.last().1)
            + le64(ws.last()) + le64((base + concat(encs.drop_last()).len()) as u64) + le64(encs.last().len() as u64)
    }
}

/// The file for vertices `ids` with encoded properties `venc`, and edges
/// `es` with weight bits `ws` and encoded properties `eenc`.
pub open spec fn axom_bytes(ids: Seq<u64>, venc: Seq<Seq<u8>>, es: Seq<(u64, u64)>, ws: Seq<u64>, eenc: Seq<Seq<u8>>) -> Seq<u8> {
    let vdo: int = 64 + 24 * (ids.len() as int);
    let eio: int = vdo + concat(venc).len();
    let edo: int = eio + 40 * es.len();
    axom_header(ids.len(), es.len(), vdo, eio, edo) + vertex_index(ids, venc, vdo) + concat(venc) + edge_index(
        es,
        ws,
        eenc,
        edo,
    ) + concat(eenc)
}

/// Whether `b` is the AXOM file of `g`: vertices by increasing id, edges
/// by increasing `(from, to)`, each property map encoded as
/// [`encode_properties`] does.
pub open spec fn axom_encoded(g: PersistentGraph, b: Seq<u8>) -> bool {
    exists|venc: Seq<Seq<u8>>, eenc: Seq<Seq<u8>>|
        {
            &&& venc.len() == g.vertex_props().len()
            &&& eenc.len() == g.edge_props().len()
            &&& forall|i: int| 0 <= i < venc.len() ==> le_encoded_as(g.vertex_props()[i], #[trigger] venc[i])
            &&& forall|i: int| 0 <= i < eenc.len() ==> le_encoded_as(g.edge_props()[i], #[trigger] eenc[i])
            &&& b == axom_bytes(g.vertex_ids(), venc, g.edge_list(), g.edge_weights(), eenc)
        }
}

/// The AXOM file of `src` (see [`axom_encoded`]). Offsets are written as
/// `u64`.
#[verifier::rlimit(60)]
pub fn convert_from(src: &PersistentGraph) -> (r: Vec<u8>)
    requires
        src.wf(),
    ensures
        axom_encoded(*src, r@),
{
    proof {
        src.lemma_listing();
    }
    let ghost ids = src.vertex_ids();
    let ghost es = src.edge_list();
    let ghost ws = src.edge_weights();
    let nv = src.vertex_count();
    let ne = src.edge_count();
    // vertex data, and where each vertex's data starts
    let mut vdata: Vec<u8> = Vec::new();
    let mut vstart: Vec<usize> = Vec::new();
    let ghost mut venc: Seq<Seq<u8>> = Seq::empty();
    let mut i: usize = 0;
    while i < nv
        invariant
            src.wf(),
            ids == src.vertex_ids(),
            nv == ids.len(),
            nv == src.vertex_props().len(),
            i <= nv,
            venc.len() == i,
            vstart@.len() == i,
            forall|k: int| 0 <= k < i ==> le_encoded_as(src.vertex_props()[k], #[trigger] venc[k]),
            forall|k: int| 0 <= k < i ==> #[trigger] vstart@[k] == concat(venc.take(k)).len(),
            vdata@ == concat(venc),
        decreases nv - i,
    {
        let (_, props) = src.vertex_entry(i);
        let enc = encode_properties(props);
        vstart.push(vdata.len());
        write_bytes(&mut vdata, enc.as_slice());
        proof {
            let v0 = venc;
            venc = venc.push(enc@);
            assert(venc.drop_last() =~= v0);
            assert(venc.take(i as int) =~= v0);
            assert forall|k: int| 0 <= k < i + 1 implies #[trigger] vstart@[k] == concat(venc.take(k)).len() by {
                if k < i {
                    assert(venc.take(k) =~= v0.take(k));
                }
            }
        }
        i = i + 1;
    }
    // edge data, and where each edge's data starts
    let mut edata: Vec<u8> = Vec::new();
    let mut estart: Vec<usize> = Vec::new();
    let ghost mut eenc: Seq<Seq<u8>> = Seq::empty();
    let mut j: usize = 0;
    while j < ne
        invariant
            src.wf(),
            es == src.edge_list(),
            ne == es.len(),
            ne == src.edge_props().len(),
            j <= ne,
            eenc.len() == j,
            estart@.len() == j,
            forall|k: int| 0 <= k < j ==> le_encoded_as(src.edge_props()[k], #[trigger] eenc[k]),
            forall|k: int| 0 <= k < j ==> #[trigger] estart@[k] == concat(eenc.take(k)).len(),
            edata@ == concat(eenc),
        decreases ne - j,
    {
        let (_, rec) = src.edge_entry(j);
        let enc = encode_properties(&rec.properties);
        estart.push(edata.len());
        write_bytes(&mut edata, enc.as_slice());
        proof {
            let e0 = eenc;
            eenc = eenc.push(enc@);
            assert(eenc.drop_last() =~= e0);
            assert(eenc.take(j as int) =~= e0);
            assert forall|k: int| 0 <= k < j + 1 implies #[trigger] estart@[k] == concat(eenc.take(k)).len() by {
                if k < j {
                    assert(eenc.take(k) =~= e0.take(k));
                }
            }
        }
        j = j + 1;
    }
    let vdo: u128 = 64 + 24 * (nv as u128);
    let eio: u128 = vdo + (vdata.len() as u128);
    let edo: u128 = eio + 40 * (ne as u128);
    // header
    let mut out: Vec<u8> = Vec::new();
    out.push(65u8);
    out.push(88u8);
    out.push(79u8);
    out.push(77u8);
    write_le16(&mut out, 1);
    out.push(0u8);
    out.push(0u8);
    write_le64(&mut out, nv as u64);
    write_le64(&mut out, ne as u64);
    write_le64(&mut out, 64);
    write_le64(&mut out, vdo as u64);
    write_le64(&mut out, eio as u64);
    write_le64(&mut out, edo as u64);
    let ghost h0 = out@;
    let mut z: usize = 0;
    while z < 8
        invariant
            z <= 8,
            out@ == h0 + Seq::new(z as nat, |q: int| 0u8),
        decreases 8 - z,
    {
        out.push(0u8);
        z = z + 1;
        proof {
            assert(out@ =~= h0 + Seq::new(z as nat, |q: int| 0u8));
        }
    }
    let ghost head = out@;
    proof {
        assert(head =~= axom_header(ids.len(), es.len(), vdo as int, eio as int, edo as int));
    }
    // vertex index
    let mut i: usize = 0;
    while i < nv
        invariant
            src.wf(),
            ids == src.vertex_ids(),
            nv == ids.len(),
            i <= nv,
            venc.len() == nv,
            vstart@.len() == nv,
            forall|k: int| 0 <= k < nv ==> #[trigger] vstart@[k] == concat(venc.take(k)).len(),
            vdata@ == concat(venc),
            vdo == 64 + 24 * nv,
            out@ == head + vertex_index(ids.take(i as int), venc.take(i as int), vdo as int),
        decreases nv - i,
    {
        let (id, _) = src.vertex_entry(i);
        let start = vstart[i];
        proof {
            assert(venc.take(i + 1) =~= venc.take(i as int).push(venc[i as int]));
            assert(venc.take(i + 1).drop_last() =~= venc.take(i as int));
            assert(concat(venc.take(i + 1)) == concat(venc.take(i as int)) + venc[i as int]);
            if i + 1 < nv {
                assert(concat(venc.take(i + 1)) == concat(venc.take(i as int)) + venc[i as int]);
            } else {
                assert(venc.take(i + 1) =~= venc);
            }
        }
        let len = if i + 1 < nv { vstart[i + 1] - start } else { vdata.len() - start };
        write_le64(&mut out, id);
        write_le64(&mut out, (vdo + (start as u128)) as u64);
        write_le64(&mut out, len as u64);
        proof {
            assert(ids.take(i + 1) =~= ids.take(i as int).push(id));
            assert(ids.take(i + 1).drop_last() =~= ids.take(i as int));
            assert(venc.take(i + 1).drop_last() =~= venc.take(i as int));
            assert(out@ =~= head + vertex_index(ids.take(i + 1), venc.take(i + 1), vdo as int));
        }
        i = i + 1;
    }
    proof {
        assert(ids.take(nv as int) =~= ids);
        assert(venc.take(nv as int) =~= venc);
    }
    write_bytes(&mut out, vdata.as_slice());
    let ghost mid = out@;
    // edge index
    let mut j: usize = 0;
    while j < ne
        invariant
            src.wf(),
            es == src.edge_list(),
            ws == src.edge_weights(),
            ne == es.len(),
            ne == ws.len(),
            j <= ne,
            eenc.len() == ne,
            estart@.len() == ne,
            forall|k: int| 0 <= k < ne ==> #[trigger] estart@[k] == concat(eenc.take(k)).len(),
            edata@ == concat(eenc),
            edo == vdo + vdata@.len() + 40 * ne,
            edo < 0x80_0000_0000_0000_0000u128,
            out@ == mid + edge_index(es.take(j as int), ws.take(j as int), eenc.take(j as int), edo as int),
        decreases ne - j,
    {
        let (e, rec) = src.edge_entry(j);
        let start = estart[j];
        proof {
            assert(eenc.take(j + 1) =~= eenc.take(j as int).push(eenc[j as int]));
            assert(eenc.take(j + 1).drop_last() =~= eenc.take(j as int));
            assert(concat(eenc.take(j + 1)) == concat(eenc.take(j as int)) + eenc[j as int]);
            if j + 1 < ne {
                assert(concat(eenc.take(j + 1)) == concat(eenc.take(j as int)) + eenc[j as int]);
            } else {
                assert(eenc.take(j + 1) =~= eenc);
            }
        }
        let len = if j + 1 < ne { estart[j + 1] - start } else { edata.len() - start };
        write_le64(&mut out, e.0);
        write_le64(&mut out, e.1);
        write_le64(&mut out, rec.weight_bits);
        write_le64(&mut out, (edo + (start as u128)) as u64);
        write_le64(&mut out, len as u64);
        proof {
            assert(es.take(j + 1).drop_last() =~= es.take(j as int));
            assert(ws.take(j + 1).drop_last() =~= ws.take(j as int));
            assert(eenc.take(j + 1).drop_last() =~= eenc.take(j as int));
            assert(es.take(j + 1).last() == e);
            assert(ws.take(j + 1).last() == rec.weight_bits);
            assert(out@ =~= mid + edge_index(es.take(j + 1), ws.take(j + 1), eenc.take(j + 1), edo as int));
        }
        j = j + 1;
    }
    proof {
        assert(es.take(ne as int) =~= es);
        assert(ws.take(ne as int) =~= ws);
        assert(eenc.take(ne as int) =~= eenc);
    }
    write_bytes(&mut out, edata.as_slice());
    proof {
        assert(out@ =~= axom_bytes(ids, venc, es, ws, eenc));
    }
    out
}

// ── reading a mapped file ─────────────────────────

/// Why a file is refused.
#[derive(Debug, Clone, Copy, PartialEq, Eq, Structural)]
pub enum MmapError {
    /// Fewer than 64 bytes.
    TooSmallForHeader,
    /// The first four bytes are not `AXOM`.
    InvalidMagic,
    /// The version is not 1.
    UnsupportedVersion,
    /// The file ends before the edge data offset.
    TooSmallForEdgeData,
}

impl MmapError {
    /// Description of the error.
    pub fn message(&self) -> (r: &'static str)
        ensures
            r@ == match self {
                MmapError::TooSmallForHeader => "file too small for header"@,
                MmapError::InvalidMagic => "invalid magic"@,
                MmapError::UnsupportedVersion => "unsupported version"@,
                MmapError::TooSmallForEdgeData => "file too small for edge data offset"@,
            },
    {
        match self {
            MmapError::TooSmallForHeader => "file too small for header",
            MmapError::InvalidMagic => "invalid magic",
            MmapError::UnsupportedVersion => "unsupported version",
            MmapError::TooSmallForEdgeData => "file too small for edge data offset",
        }
    }
}

/// Read-only view of an AXOM file held in memory (typically mapped): the
/// counts and section offsets from its header, over the file's bytes.
pub struct MmapGraph<'a> {
    data: &'a [u8],
    vertex_count: usize,
    edge_count: usize,
    vertex_index_offset: usize,
    vertex_data_offset: usize,
    edge_index_offset: usize,
    edge_data_offset: usize,
}

/// Whether `b` starts with `AXOM`.
pub open spec fn has_magic(b: Seq<u8>) -> bool {
    b[0] == 65u8 && b[1] == 88u8 && b[2] == 79u8 && b[3] == 77u8
}

/// What opening `b` gives: the error, or the counts and the offsets of
/// the vertex index, vertex data, edge index and edge data.
pub open spec fn opened(b: Seq<u8>) -> Result<(usize, usize, usize, usize, usize, usize), MmapError> {
    if b.len() < 64 {
        Err(MmapError::TooSmallForHeader)
    } else if !has_magic(b) {
        Err(MmapError::InvalidMagic)
    } else if le16_at(b, 4) != 1 {
        Err(MmapError::UnsupportedVersion)
    } else if b.len() < (le64_at(b, 48) as usize) {
        Err(MmapError::TooSmallForEdgeData)
    } else {
        Ok(
            (
                le64_at(b, 8) as usize,
                le64_at(b, 16) as usize,
                le64_at(b, 24) as usize,
                le64_at(b, 32) as usize,
                le64_at(b, 40) as usize,
                le64_at(b, 48) as usize,
            ),
        )
    }
}

impl<'a> MmapGraph<'a> {
    /// The file's bytes.
    pub closed spec fn bytes(&self) -> Seq<u8> {
        self.data@
    }

    /// Counts and offsets read from the header.
    pub closed spec fn fields(&self) -> (usize, usize, usize, usize, usize, usize) {
        (
            self.vertex_count,
            self.edge_count,
            self.vertex_index_offset,
            self.vertex_data_offset,
            self.edge_index_offset,
            self.edge_data_offset,
        )
    }

    /// Id of vertex entry `i`.
    pub closed spec fn vid(&self, i: int) -> u64 {
        le64_at(self.data@, self.vertex_index_offset + 24 * i)
    }

    /// Start of the data of vertex entry `i`.
    pub closed spec fn voff(&self, i: int) -> u64 {
        le64_at(self.data@, self.vertex_index_offset + 24 * i + 8)
    }

    /// Length of the data of vertex entry `i`.
    pub closed spec fn vlen(&self, i: int) -> u64 {
        le64_at(self.data@, self.vertex_index_offset + 24 * i + 16)
    }

    /// Source of edge entry `i`.
    pub closed spec fn efrom(&self, i: int) -> u64 {
        le64_at(self.data@, self.edge_index_offset + 40 * i)
    }

    /// Target of edge entry `i`.
    pub closed spec fn eto(&self, i: int) -> u64 {
        le64_at(self.data@, self.edge_index_offset + 40 * i + 8)
    }

    /// Weight bits of edge entry `i`.
    pub closed spec fn eweight(&self, i: int) -> u64 {
        le64_at(self.data@, self.edge_index_offset + 40 * i + 16)
    }

    /// Start of the data of edge entry `i`.
    pub closed spec fn eoff(&self, i: int) -> u64 {
        le64_at(self.data@, self.edge_index_offset + 40 * i + 24)
    }

    /// Length of the data of edge entry `i`.
    pub closed spec fn elen(&self, i: int) -> u64 {
        le64_at(self.data@, self.edge_index_offset + 40 * i + 32)
    }

    /// Property map of vertex entry `i`.
    pub open spec fn vprops(&self, i: int) -> Map<Seq<char>, PropertyValueView> {
        le_decoded(self.bytes().subrange(self.voff(i) as int, self.voff(i) + self.vlen(i)))
    }

    /// Property map of edge entry `i`.
    pub open spec fn eprops(&self, i: int) -> Map<Seq<char>, PropertyValueView> {
        le_decoded(self.bytes().subrange(self.eoff(i) as int, self.eoff(i) + self.elen(i)))
    }

    /// Both indexes lie inside the file, and so does every entry's data.
    pub open spec fn layout_ok(&self) -> bool {
        let (vc, ec, vio, vdo, eio, edo) = self.fields();
        &&& vio + 24 * vc <= self.bytes().len()
        &&& eio + 40 * ec <= self.bytes().len()
        &&& forall|i: int| 0 <= i < vc ==> #[trigger] self.voff(i) + self.vlen(i) <= self.bytes().len()
        &&& forall|i: int| 0 <= i < ec ==> #[trigger] self.eoff(i) + self.elen(i) <= self.bytes().len()
    }

    /// Opens the file `data`: checks the header and reads the counts and
    /// offsets (see [`opened`]).
    pub fn open(data: &'a [u8]) -> (r: Result<MmapGraph<'a>, MmapError>)
        ensures
            match opened(data@) {
                Ok(f) => r matches Ok(g) && g.bytes() == data@ && g.fields() == f,
                Err(e) => r == Err::<MmapGraph<'a>, MmapError>(e),
            },
    {
        if data.len() < 64 {
            return Err(MmapError::TooSmallForHeader);
        }
        if !(data[0] == 65u8 && data[1] == 88u8 && data[2] == 79u8 && data[3] == 77u8) {
            return Err(MmapError::InvalidMagic);
        }
        if read_le16(data, 4) != 1 {
            return Err(MmapError::UnsupportedVersion);
        }
        let vertex_count = read_le64(data, 8) as usize;
        let edge_count = read_le64(data, 16) as usize;
        let vertex_index_offset = read_le64(data, 24) as usize;
        let vertex_data_offset = read_le64(data, 32) as usize;
        let edge_index_offset = read_le64(data, 40) as usize;
        let edge_data_offset = read_le64(data, 48) as usize;
        if data.len() < edge_data_offset {
            return Err(MmapError::TooSmallForEdgeData);
        }
        Ok(MmapGraph {
            data,
            vertex_count,
            edge_count,
            vertex_index_offset,
            vertex_data_offset,
            edge_index_offset,
            edge_data_offset,
        })
    }

    /// Number of vertices.
    pub fn vertex_count(&self) -> (n: usize)
        ensures
            n == self.fields().0,
    {
        self.vertex_count
    }

    /// Number of edges.
    pub fn edge_count(&self) -> (n: usize)
        ensures
            n == self.fields().1,
    {
        self.edge_count
    }

    /// Whether [`MmapGraph::layout_ok`] holds; the lookups need it.
    pub fn check_layout(&self) -> (r: bool)
        ensures
            r == self.layout_ok(),
    {
        let n = self.data.len();
        if self.vertex_count > (usize::MAX - self.vertex_index_offset) / 24 {
            return false;
        }
        if self.vertex_index_offset + 24 * self.vertex_count > n {
            return false;
        }
        if self.edge_count > (usize::MAX - self.edge_index_offset) / 40 {
            return false;
        }
        if self.edge_index_offset + 40 * self.edge_count > n {
            return false;
        }
        let mut i: usize = 0;
        while i < self.vertex_count
            invariant
                self.vertex_index_offset + 24 * self.vertex_count <= n,
                n == self.data@.len(),
                i <= self.vertex_count,
                forall|k: int| 0 <= k < i ==> #[trigger] self.voff(k) + self.vlen(k) <= n,
            decreases self.vertex_count - i,
        {
            let (_, off, len) = self.vertex_idx(i);
            if off > n as u64 || len > n as u64 - off {
                return false;
            }
            i = i + 1;
        }
        let mut j: usize = 0;
        while j < self.edge_count
            invariant
                self.edge_index_offset + 40 * self.edge_count <= n,
                n == self.data@.len(),
                j <= self.edge_count,
                forall|k: int| 0 <= k < j ==> #[trigger] self.eoff(k) + self.elen(k) <= n,
            decreases self.edge_count - j,
        {
            let (_, _, _, off, len) = self.edge_idx(j);
            if off > n as u64 || len > n as u64 - off {
                return false;
            }
            j = j + 1;
        }
        true
    }

    /// Vertex entry `i`: id, data start, data length.
    fn vertex_idx(&self, i: usize) -> (r: (u64, u64, u64))
        requires
            i < self.vertex_count,
            self.vertex_index_offset + 24 * self.vertex_count <= self.data@.len(),
        ensures
            r == (self.vid(i as int), self.voff(i as int), self.vlen(i as int)),
    {
        let _n = self.data.len();
        proof {
            assert(i * 24 + 24 <= 24 * self.vertex_count) by (nonlinear_arith)
                requires
                    i < self.vertex_count,
            ;
        }
        let off = self.vertex_index_offset + i * 24;
        (read_le64(self.data, off), read_le64(self.data, off + 8), read_le64(self.data, off + 16))
    }

    /// Edge entry `i`: source, target, weight bits, data start, data length.
    fn edge_idx(&self, i: usize) -> (r: (u64, u64, u64, u64, u64))
        requires
            i < self.edge_count,
            self.edge_index_offset + 40 * self.edge_count <= self.data@.len(),
        ensures
            r == (self.efrom(i as int), self.eto(i as int), self.eweight(i as int), self.eoff(i as int), self.elen(
                i as int,
            )),
    {
        let _n = self.data.len();
        proof {
            assert(i * 40 + 40 <= 40 * self.edge_count) by (nonlinear_arith)
                requires
                    i < self.edge_count,
            ;
        }
        let off = self.edge_index_offset + i * 40;
        (
            read_le64(self.data, off),
            read_le64(self.data, off + 8),
            read_le64(self.data, off + 16),
            read_le64(self.data, off + 24),
            read_le64(self.data, off + 32),
        )
    }
}

impl<'a> MmapGraph<'a> {
    /// The binary search for vertex `id` over entries `lo..hi`, as
    /// [`MmapGraph::get_vertex`] runs it: the entry it stops at, if any.
    pub open spec fn vertex_probe(&self, id: u64, lo: int, hi: int) -> Option<int>
        decreases hi - lo,
    {
        if lo >= hi {
            None
        } else {
            let mid = lo + (hi - lo) / 2;
            if self.vid(mid) < id {
                self.vertex_probe(id, mid + 1, hi)
            } else if self.vid(mid) > id {
                self.vertex_probe(id, lo, mid)
            } else {
                Some(mid)
            }
        }
    }

    /// Entry `i` comes before the edge `(from, to)` in source-then-target
    /// order.
    pub open spec fn edge_below(&self, i: int, from: u64, to: u64) -> bool {
        self.efrom(i) < from || (self.efrom(i) == from && self.eto(i) < to)
    }

    /// The binary search for edge `(from, to)` over entries `lo..hi`, as
    /// [`MmapGraph::get_edge`] runs it, comparing by source, then target:
    /// the entry it stops at, if any.
    pub open spec fn edge_probe(&self, from: u64, to: u64, lo: int, hi: int) -> Option<int>
        decreases hi - lo,
    {
        if lo >= hi {
            None
        } else {
            let mid = lo + (hi - lo) / 2;
            if self.edge_below(mid, from, to) {
                self.edge_probe(from, to, mid + 1, hi)
            } else if self.efrom(mid) != from || self.eto(mid) != to {
                self.edge_probe(from, to, lo, mid)
            } else {
                Some(mid)
            }
        }
    }

    /// Where [`MmapGraph::out_neighbors`] starts scanning: the binary search
    /// over entries `lo..hi` for the first entry whose source is not below
    /// `id`.
    pub open spec fn source_start(&self, id: u64, lo: int, hi: int) -> int
        decreases hi - lo,
    {
        if lo >= hi {
            lo
        } else {
            let mid = lo + (hi - lo) / 2;
            if self.efrom(mid) < id {
                self.source_start(id, mid + 1, hi)
            } else {
                self.source_start(id, lo, mid)
            }
        }
    }

    /// Targets of the edges from `id` met scanning from entry `i`: entries
    /// with another smaller source are passed over, and the scan stops at
    /// the first larger source.
    pub open spec fn scan_targets(&self, id: u64, i: int) -> Seq<u64>
        decreases self.fields().1 - i,
    {
        if i >= self.fields().1 || i < 0 {
            Seq::empty()
        } else if self.efrom(i) == id {
            seq![self.eto(i)] + self.scan_targets(id, i + 1)
        } else if self.efrom(i) > id {
            Seq::empty()
        } else {
            self.scan_targets(id, i + 1)
        }
    }

    /// Targets of all the entries from `i` on whose source is `id`, in
    /// index order.
    pub open spec fn targets_from(&self, id: u64, i: int) -> Seq<u64>
        decreases self.fields().1 - i,
    {
        if i >= self.fields().1 || i < 0 {
            Seq::empty()
        } else if self.efrom(i) == id {
            seq![self.eto(i)] + self.targets_from(id, i + 1)
        } else {
            self.targets_from(id, i + 1)
        }
    }

    /// Decodes the properties stored at `off..off + len`.
    fn props_at(&self, off: u64, len: u64) -> (r: Properties)
        requires
            off + len <= self.data@.len(),
        ensures
            r.wf(),
            r.map() == le_decoded(self.data@.subrange(off as int, off + len)),
    {
        let _n = self.data.len();
        let start = off as usize;
        let end = start + len as usize;
        decode_properties(vstd::slice::slice_subrange(self.data, start, end))
    }

    /// Properties of vertex `id`, found by binary search over the vertex
    /// index (see [`MmapGraph::vertex_probe`]).
    pub fn get_vertex(&self, id: u64) -> (r: Option<Properties>)
        requires
            self.layout_ok(),
        ensures
            match self.vertex_probe(id, 0, self.fields().0 as int) {
                Some(i) => r matches Some(p) && p.wf() && p.map() == self.vprops(i),
                None => r is None,
            },
    {
        let mut lo: usize = 0;
        let mut hi: usize = self.vertex_count;
        while lo < hi
            invariant
                self.layout_ok(),
                lo <= hi <= self.vertex_count,
                self.vertex_probe(id, lo as int, hi as int) == self.vertex_probe(id, 0, self.fields().0 as int),
            decreases hi - lo,
        {
            let mid = lo + (hi - lo) / 2;
            let (mid_id, off, len) = self.vertex_idx(mid);
            if mid_id < id {
                lo = mid + 1;
            } else if mid_id > id {
                hi = mid;
            } else {
                proof {
                    assert(self.voff(mid as int) + self.vlen(mid as int) <= self.data@.len());
                }
                return Some(self.props_at(off, len));
            }
        }
        None
    }

    /// Weight bits and properties of the edge `from -> to`, found by the
    /// search [`MmapGraph::edge_probe`] over the edge index. On an index
    /// sorted by source, then target, the edge is found exactly when an
    /// entry holds it.
    pub fn get_edge(&self, from: u64, to: u64) -> (r: Option<(u64, Properties)>)
        requires
            self.layout_ok(),
        ensures
            match self.edge_probe(from, to, 0, self.fields().1 as int) {
                Some(i) => r matches Some((w, p)) && w == self.eweight(i) && p.wf() && p.map() == self.eprops(i),
                None => r is None,
            },
            self.edges_sorted() ==> (r is Some <==> exists|i: int|
                0 <= i < self.fields().1 && #[trigger] self.efrom(i) == from && self.eto(i) == to),
            self.edges_sorted() ==> forall|i: int|
                0 <= i < self.fields().1 && #[trigger] self.efrom(i) == from && self.eto(i) == to ==> (r matches Some((w, p))
                    && w == self.eweight(i) && p.map() == self.eprops(i)),
    {
        proof {
            if self.edges_sorted() {
                self.lemma_edge_probe(from, to, 0, self.fields().1 as int);
                match self.edge_probe(from, to, 0, self.fields().1 as int) {
                    Some(k) => {
                        assert forall|i: int| 0 <= i < self.fields().1 && #[trigger] self.efrom(i) == from && self.eto(i) == to implies i == k by {
                            if i < k {
                                assert(self.efrom(i) < self.efrom(k) || (self.efrom(i) == self.efrom(k) && self.eto(i) < self.eto(k)));
                            } else if k < i {
                                assert(self.efrom(k) < self.efrom(i) || (self.efrom(k) == self.efrom(i) && self.eto(k) < self.eto(i)));
                            }
                        }
                    },
                    None => {},
                }
            }
        }
        let mut lo: usize = 0;
        let mut hi: usize = self.edge_count;
        while lo < hi
            invariant
                self.layout_ok(),
                lo <= hi <= self.edge_count,
                self.edge_probe(from, to, lo as int, hi as int) == self.edge_probe(from, to, 0, self.fields().1 as int),
            decreases hi - lo,
        {
            let mid = lo + (hi - lo) / 2;
            let (mid_from, mid_to, weight, off, len) = self.edge_idx(mid);
            if mid_from < from || (mid_from == from && mid_to < to) {
                lo = mid + 1;
            } else if mid_from != from || mid_to != to {
                hi = mid;
            } else {
                proof {
                    assert(self.eoff(mid as int) + self.elen(mid as int) <= self.data@.len());
                }
                return Some((weight, self.props_at(off, len)));
            }
        }
        None
    }

    /// Out-neighbours of `id`: a binary search for the first entry whose
    /// source is not below `id` (see [`MmapGraph::source_start`]), then the
    /// targets met scanning forward from there (see
    /// [`MmapGraph::scan_targets`]). On an index sorted by source, these
    /// are the targets of every entry with source `id`, in index order.
    pub fn out_neighbors(&self, id: u64) -> (r: Vec<u64>)
        requires
            self.layout_ok(),
        ensures
            r@ == self.scan_targets(id, self.source_start(id, 0, self.fields().1 as int)),
            self.edges_sorted() ==> r@ == self.targets_from(id, 0),
    {
        let mut lo: usize = 0;
        let mut hi: usize = self.edge_count;
        while lo < hi
            invariant
                self.layout_ok(),
                lo <= hi <= self.edge_count,
                self.source_start(id, lo as int, hi as int) == self.source_start(id, 0, self.fields().1 as int),
            decreases hi - lo,
        {
            let mid = lo + (hi - lo) / 2;
            let (mid_from, _, _, _, _) = self.edge_idx(mid);
            if mid_from < id {
                lo = mid + 1;
            } else {
                hi = mid;
            }
        }
        let ghost start = lo as int;
        proof {
            if self.edges_sorted() {
                let e = self.fields().1 as int;
                self.lemma_source_start(id, 0, e);
                self.lemma_targets_skip(id, 0, start);
                self.lemma_scan_all(id, start);
            }
        }
        let mut result: Vec<u64> = Vec::new();
        let mut i: usize = lo;
        while i < self.edge_count
            invariant
                self.layout_ok(),
                start <= i <= self.edge_count,
                start == self.source_start(id, 0, self.fields().1 as int),
                self.edges_sorted() ==> self.scan_targets(id, start) == self.targets_from(id, 0),
                result@ + self.scan_targets(id, i as int) == self.scan_targets(id, start),
            decreases self.edge_count - i,
        {
            let (from, to, _, _, _) = self.edge_idx(i);
            if from == id {
                result.push(to);
                proof {
                    assert(result@ + self.scan_targets(id, i + 1) =~= self.scan_targets(id, start));
                }
            } else if from > id {
                proof {
                    assert(result@ =~= result@ + self.scan_targets(id, i as int));
                }
                return result;
            }
            i = i + 1;
        }
        proof {
            assert(result@ =~= result@ + self.scan_targets(id, i as int));
        }
        result
    }

    /// Every vertex entry: id and properties, in index order.
    pub fn iter_vertices(&self) -> (r: Vec<(u64, Properties)>)
        requires
            self.layout_ok(),
        ensures
            r@.len() == self.fields().0,
            forall|i: int|
                0 <= i < r@.len() ==> (#[trigger] r@[i]).0 == self.vid(i) && r@[i].1.wf() && r@[i].1.map() == self.vprops(
                    i,
                ),
    {
        let mut r: Vec<(u64, Properties)> = Vec::new();
        let mut i: usize = 0;
        while i < self.vertex_count
            invariant
                self.layout_ok(),
                i <= self.vertex_count,
                r@.len() == i,
                forall|k: int|
                    0 <= k < i ==> (#[trigger] r@[k]).0 == self.vid(k) && r@[k].1.wf() && r@[k].1.map() == self.vprops(
                        k,
                    ),
            decreases self.vertex_count - i,
        {
            let (id, off, len) = self.vertex_idx(i);
            proof {
                assert(self.voff(i as int) + self.vlen(i as int) <= self.data@.len());
            }
            r.push((id, self.props_at(off, len)));
            i = i + 1;
        }
        r
    }

    /// Every edge entry: source, target, weight bits and properties, in
    /// index order.
    pub fn iter_edges(&self) -> (r: Vec<(u64, u64, u64, Properties)>)
        requires
            self.layout_ok(),
        ensures
            r@.len() == self.fields().1,
            forall|i: int|
                0 <= i < r@.len() ==> {
                    &&& (#[trigger] r@[i]).0 == self.efrom(i)
                    &&& r@[i].1 == self.eto(i)
                    &&& r@[i].2 == self.eweight(i)
                    &&& r@[i].3.wf()
                    &&& r@[i].3.map() == self.eprops(i)
                },
    {
        let mut r: Vec<(u64, u64, u64, Properties)> = Vec::new();
        let mut i: usize = 0;
        while i < self.edge_count
            invariant
                self.layout_ok(),
                i <= self.edge_count,
                r@.len() == i,
                forall|k: int|
                    0 <= k < i ==> {
                        &&& (#[trigger] r@[k]).0 == self.efrom(k)
                        &&& r@[k].1 == self.eto(k)
                        &&& r@[k].2 == self.eweight(k)
                        &&& r@[k].3.wf()
                        &&& r@[k].3.map() == self.eprops(k)
                    },
            decreases self.edge_count - i,
        {
            let (from, to, w, off, len) = self.edge_idx(i);
            proof {
                assert(self.eoff(i as int) + self.elen(i as int) <= self.data@.len());
            }
            r.push((from, to, w, self.props_at(off, len)));
            i = i + 1;
        }
        r
    }
}

impl<'a> MmapGraph<'a> {
    /// Vertex ids strictly increasing along the index.
    pub open spec fn ids_sorted(&self) -> bool {
        forall|a: int, b: int| 0 <= a < b < self.fields().0 ==> #[trigger] self.vid(a) < #[trigger] self.vid(b)
    }

    /// The edge index is sorted by source, then target, without repeats.
    pub open spec fn edges_sorted(&self) -> bool {
        forall|a: int, b: int|
            #![trigger self.efrom(a), self.efrom(b)]
            0 <= a < b < self.fields().1 ==> self.efrom(a) < self.efrom(b) || (self.efrom(a) == self.efrom(b) && self.eto(a)
                < self.eto(b))
    }

    /// On a sorted edge index, the edge search stops exactly at the entry
    /// holding `(from, to)`, and finds nothing when no entry does.
    pub proof fn lemma_edge_probe(&self, from: u64, to: u64, lo: int, hi: int)
        requires
            self.edges_sorted(),
            0 <= lo <= hi <= self.fields().1,
        ensures
            match self.edge_probe(from, to, lo, hi) {
                Some(i) => lo <= i < hi && self.efrom(i) == from && self.eto(i) == to,
                None => forall|i: int| lo <= i < hi ==> !(#[trigger] self.efrom(i) == from && self.eto(i) == to),
            },
        decreases hi - lo,
    {
        if lo < hi {
            let mid = lo + (hi - lo) / 2;
            if self.edge_below(mid, from, to) {
                self.lemma_edge_probe(from, to, mid + 1, hi);
                assert forall|i: int| lo <= i <= mid implies !(#[trigger] self.efrom(i) == from && self.eto(i) == to) by {
                    if i < mid {
                        assert(self.efrom(i) < self.efrom(mid) || (self.efrom(i) == self.efrom(mid) && self.eto(i) < self.eto(mid)));
                    }
                }
            } else if self.efrom(mid) != from || self.eto(mid) != to {
                self.lemma_edge_probe(from, to, lo, mid);
                assert forall|i: int| mid <= i < hi implies !(#[trigger] self.efrom(i) == from && self.eto(i) == to) by {
                    if mid < i {
                        assert(self.efrom(mid) < self.efrom(i) || (self.efrom(mid) == self.efrom(i) && self.eto(mid) < self.eto(i)));
                    }
                }
            }
        }
    }

    /// On a sorted edge index the start search ends between the entries
    /// whose source is below `id` and the others.
    proof fn lemma_source_start(&self, id: u64, lo: int, hi: int)
        requires
            self.edges_sorted(),
            0 <= lo <= hi <= self.fields().1,
            forall|j: int| 0 <= j < lo ==> #[trigger] self.efrom(j) < id,
            forall|j: int| hi <= j < self.fields().1 ==> #[trigger] self.efrom(j) >= id,
        ensures
            lo <= self.source_start(id, lo, hi) <= hi,
            forall|j: int| 0 <= j < self.source_start(id, lo, hi) ==> #[trigger] self.efrom(j) < id,
            forall|j: int| self.source_start(id, lo, hi) <= j < self.fields().1 ==> #[trigger] self.efrom(j) >= id,
        decreases hi - lo,
    {
        if lo < hi {
            let mid = lo + (hi - lo) / 2;
            if self.efrom(mid) < id {
                assert forall|j: int| 0 <= j < mid + 1 implies #[trigger] self.efrom(j) < id by {
                    if lo <= j < mid {
                        assert(self.efrom(j) <= self.efrom(mid));
                    }
                }
                self.lemma_source_start(id, mid + 1, hi);
            } else {
                assert forall|j: int| mid <= j < self.fields().1 implies #[trigger] self.efrom(j) >= id by {
                    if mid < j < hi {
                        assert(self.efrom(mid) <= self.efrom(j));
                    }
                }
                self.lemma_source_start(id, lo, mid);
            }
        }
    }

    /// Entries `i..k` whose source is not `id` add no target.
    proof fn lemma_targets_skip(&self, id: u64, i: int, k: int)
        requires
            0 <= i <= k <= self.fields().1,
            forall|j: int| i <= j < k ==> #[trigger] self.efrom(j) != id,
        ensures
            self.targets_from(id, i) == self.targets_from(id, k),
        decreases k - i,
    {
        if i < k {
            self.lemma_targets_skip(id, i + 1, k);
        }
    }

    /// On a sorted edge index, from an entry whose source is not below
    /// `id`, the scan meets every target of `id` that follows.
    proof fn lemma_scan_all(&self, id: u64, i: int)
        requires
            self.edges_sorted(),
            0 <= i <= self.fields().1,
            forall|j: int| i <= j < self.fields().1 ==> #[trigger] self.efrom(j) >= id,
        ensures
            self.scan_targets(id, i) == self.targets_from(id, i),
        decreases self.fields().1 - i,
    {
        let e = self.fields().1 as int;
        if i < e {
            if self.efrom(i) == id {
                self.lemma_scan_all(id, i + 1);
            } else {
                assert forall|j: int| i <= j < e implies #[trigger] self.efrom(j) != id by {
                    if i < j {
                        assert(self.efrom(i) <= self.efrom(j));
                    }
                }
                self.lemma_targets_skip(id, i, e);
            }
        }
    }

    /// On an index sorted by id, the vertex search stops exactly at the
    /// entry holding `id`, and finds nothing when no entry does.
    pub proof fn lemma_vertex_probe(&self, id: u64, lo: int, hi: int)
        requires
            self.ids_sorted(),
            0 <= lo <= hi <= self.fields().0,
        ensures
            match self.vertex_probe(id, lo, hi) {
                Some(i) => lo <= i < hi && self.vid(i) == id,
                None => forall|i: int| lo <= i < hi ==> #[trigger] self.vid(i) != id,
            },
        decreases hi - lo,
    {
        if lo < hi {
            let mid = lo + (hi - lo) / 2;
            if self.vid(mid) < id {
                self.lemma_vertex_probe(id, mid + 1, hi);
                assert forall|i: int| lo <= i <= mid implies #[trigger] self.vid(i) != id by {
                    if i < mid {
                        assert(self.vid(i) < self.vid(mid));
                    }
                }
            } else if self.vid(mid) > id {
                self.lemma_vertex_probe(id, lo, mid);
                assert forall|i: int| mid <= i < hi implies #[trigger] self.vid(i) != id by {
                    if i > mid {
                        assert(self.vid(mid) < self.vid(i));
                    }
                }
            }
        }
    }
}

// ── reading back a converted graph ─────────────────────────

/// Eight bytes at `p` that are the bytes of `x` read back as `x`.
proof fn lemma_le64_in(b: Seq<u8>, p: int, x: u64)
    requires
        0 <= p,
        p + 8 <= b.len(),
        b.subrange(p, p + 8) == le64(x),
    ensures
        le64_at(b, p) == x,
{
    assert(b =~= b.take(p) + le64(x) + b.skip(p + 8));
    lemma_le64_roundtrip(b.take(p), x, b.skip(p + 8));
}

/// Splitting concatenated byte strings after the first `k`.
proof fn lemma_concat_split(bs: Seq<Seq<u8>>, k: int)
    requires
        0 <= k <= bs.len(),
    ensures
        concat(bs) == concat(bs.take(k)) + concat(bs.skip(k)),
    decreases bs.len(),
{
    if k == bs.len() {
        assert(bs.take(k) =~= bs);
        assert(bs.skip(k) =~= Seq::<Seq<u8>>::empty());
        assert(concat(bs) + Seq::<u8>::empty() =~= concat(bs));
    } else {
        lemma_concat_split(bs.drop_last(), k);
        assert(bs.drop_last().take(k) =~= bs.take(k));
        assert(bs.skip(k).drop_last() =~= bs.drop_last().skip(k));
        assert(bs.skip(k).last() == bs.last());
        assert(concat(bs.skip(k)) == concat(bs.skip(k).drop_last()) + bs.skip(k).last());
        assert(concat(bs) =~= concat(bs.take(k)) + concat(bs.skip(k)));
    }
}

/// The `i`-th string sits in the concatenation right after those before it.
proof fn lemma_concat_at(bs: Seq<Seq<u8>>, i: int)
    requires
        0 <= i < bs.len(),
    ensures
        concat(bs.take(i)).len() + bs[i].len() <= concat(bs).len(),
        concat(bs).subrange(concat(bs.take(i)).len() as int, (concat(bs.take(i)).len() + bs[i].len()) as int) == bs[i],
{
    lemma_concat_split(bs, i);
    let rest = bs.skip(i);
    assert(rest.len() > 0);
    lemma_concat_split(rest, 1);
    assert(rest.take(1).drop_last() =~= Seq::<Seq<u8>>::empty());
    assert(concat(rest.take(1).drop_last()) == Seq::<u8>::empty());
    assert(rest.take(1).last() == bs[i]);
    assert(concat(rest.take(1)) =~= bs[i]);
    let c = concat(bs.take(i)).len() as int;
    assert(concat(bs) =~= concat(bs.take(i)) + (bs[i] + concat(rest.skip(1))));
    assert(concat(bs).subrange(c, c + bs[i].len()) =~= bs[i]);
}

/// Entry `i` of a vertex index: 24 bytes at `24 * i`.
proof fn lemma_vertex_index_at(ids: Seq<u64>, encs: Seq<Seq<u8>>, base: int, i: int)
    requires
        ids.len() == encs.len(),
        0 <= i < ids.len(),
    ensures
        vertex_index(ids, encs, base).len() == 24 * ids.len(),
        vertex_index(ids, encs, base).subrange(24 * i, 24 * i + 24) == le64(ids[i]) + le64(
            (base + concat(encs.take(i)).len()) as u64,
        ) + le64(encs[i].len() as u64),
    decreases ids.len(),
{
    lemma_vertex_index_len(ids, encs, base);
    let n = ids.len() as int;
    let front = vertex_index(ids.drop_last(), encs.drop_last(), base);
    lemma_vertex_index_len(ids.drop_last(), encs.drop_last(), base);
    if i < n - 1 {
        lemma_vertex_index_at(ids.drop_last(), encs.drop_last(), base, i);
        assert(encs.drop_last().take(i) =~= encs.take(i));
        assert(vertex_index(ids, encs, base).subrange(24 * i, 24 * i + 24) =~= front.subrange(24 * i, 24 * i + 24));
    } else {
        assert(encs.drop_last() =~= encs.take(i));
        assert(vertex_index(ids, encs, base).subrange(24 * i, 24 * i + 24) =~= le64(ids[i]) + le64(
            (base + concat(encs.take(i)).len()) as u64,
        ) + le64(encs[i].len() as u64));
    }
}

proof fn lemma_vertex_index_len(ids: Seq<u64>, encs: Seq<Seq<u8>>, base: int)
    requires
        ids.len() == encs.len(),
    ensures
        vertex_index(ids, encs, base).len() == 24 * ids.len(),
    decreases ids.len(),
{
    if ids.len() > 0 {
        lemma_vertex_index_len(ids.drop_last(), encs.drop_last(), base);
    }
}

proof fn lemma_edge_index_len(es: Seq<(u64, u64)>, ws: Seq<u64>, encs: Seq<Seq<u8>>, base: int)
    requires
        es.len() == encs.len(),
        ws.len() == encs.len(),
    ensures
        edge_index(es, ws, encs, base).len() == 40 * es.len(),
    decreases es.len(),
{
    if es.len() > 0 {
        lemma_edge_index_len(es.drop_last(), ws.drop_last(), encs.drop_last(), base);
    }
}

/// Entry `i` of an edge index: 40 bytes at `40 * i`.
proof fn lemma_edge_index_at(es: Seq<(u64, u64)>, ws: Seq<u64>, encs: Seq<Seq<u8>>, base: int, i: int)
    requires
        es.len() == encs.len(),
        ws.len() == encs.len(),
        0 <= i < es.len(),
    ensures
        edge_index(es, ws, encs, base).len() == 40 * es.len(),
        edge_index(es, ws, encs, base).subrange(40 * i, 40 * i + 40) == le64(es[i].0) + le64(es[i].1) + le64(ws[i])
            + le64((base + concat(encs.take(i)).len()) as u64) + le64(encs[i].len() as u64),
    decreases es.len(),
{
    lemma_edge_index_len(es, ws, encs, base);
    let n = es.len() as int;
    let front = edge_index(es.drop_last(), ws.drop_last(), encs.drop_last(), base);
    lemma_edge_index_len(es.drop_last(), ws.drop_last(), encs.drop_last(), base);
    if i < n - 1 {
        lemma_edge_index_at(es.drop_last(), ws.drop_last(), encs.drop_last(), base, i);
        assert(encs.drop_last().take(i) =~= encs.take(i));
        assert(edge_index(es, ws, encs, base).subrange(40 * i, 40 * i + 40) =~= front.subrange(40 * i, 40 * i + 40));
    } else {
        assert(encs.drop_last() =~= encs.take(i));
        assert(edge_index(es, ws, encs, base).subrange(40 * i, 40 * i + 40) =~= le64(es[i].0) + le64(es[i].1) + le64(
            ws[i],
        ) + le64((base + concat(encs.take(i)).len()) as u64) + le64(encs[i].len() as u64));
    }
}

/// A window inside the second part of a concatenation.
proof fn lemma_window_right(x: Seq<u8>, y: Seq<u8>, p: int, k: int)
    requires
        0 <= p,
        0 <= k,
        p + k <= y.len(),
    ensures
        (x + y).subrange(x.len() + p, x.len() + p + k) == y.subrange(p, p + k),
{
    assert((x + y).subrange(x.len() + p, x.len() + p + k) =~= y.subrange(p, p + k));
}

/// A window inside the first part of a concatenation.
proof fn lemma_window_left(x: Seq<u8>, y: Seq<u8>, p: int, k: int)
    requires
        0 <= p,
        0 <= k,
        p + k <= x.len(),
    ensures
        (x + y).subrange(p, p + k) == x.subrange(p, p + k),
{
    assert((x + y).subrange(p, p + k) =~= x.subrange(p, p + k));
}

/// The header is 64 bytes and holds the counts and offsets it was built
/// with.
proof fn lemma_header(vc: nat, ec: nat, vdo: int, eio: int, edo: int)
    ensures
        axom_header(vc, ec, vdo, eio, edo).len() == 64,
        has_magic(axom_header(vc, ec, vdo, eio, edo)),
        axom_header(vc, ec, vdo, eio, edo).subrange(4, 6) == le16(1),
        axom_header(vc, ec, vdo, eio, edo).subrange(8, 16) == le64(vc as u64),
        axom_header(vc, ec, vdo, eio, edo).subrange(16, 24) == le64(ec as u64),
        axom_header(vc, ec, vdo, eio, edo).subrange(24, 32) == le64(64),
        axom_header(vc, ec, vdo, eio, edo).subrange(32, 40) == le64(vdo as u64),
        axom_header(vc, ec, vdo, eio, edo).subrange(40, 48) == le64(eio as u64),
        axom_header(vc, ec, vdo, eio, edo).subrange(48, 56) == le64(edo as u64),
{
    let h = axom_header(vc, ec, vdo, eio, edo);
    assert(h.subrange(4, 6) =~= le16(1));
    assert(h.subrange(8, 16) =~= le64(vc as u64));
    assert(h.subrange(16, 24) =~= le64(ec as u64));
    assert(h.subrange(24, 32) =~= le64(64));
    assert(h.subrange(32, 40) =~= le64(vdo as u64));
    assert(h.subrange(40, 48) =~= le64(eio as u64));
    assert(h.subrange(48, 56) =~= le64(edo as u64));
}

/// Two bytes at `p` that are the bytes of `x` read back as `x`.
proof fn lemma_le16_in(b: Seq<u8>, p: int, x: u16)
    requires
        0 <= p,
        p + 2 <= b.len(),
        b.subrange(p, p + 2) == le16(x),
    ensures
        le16_at(b, p) == x,
{
    assert(b =~= b.take(p) + le16(x) + b.skip(p + 2));
    lemma_le16_roundtrip(b.take(p), x, b.skip(p + 2));
}

/// The file of a graph opens: its header names the graph's vertex and edge
/// counts and the sections where the file lays them out.
#[verifier::spinoff_prover]
pub proof fn lemma_axom_opens(g: PersistentGraph, b: Seq<u8>)
    requires
        g.wf(),
        axom_encoded(g, b),
        b.len() <= usize::MAX,
    ensures
        opened(b) is Ok,
        opened(b).unwrap().0 == g.vertex_ids().len(),
        opened(b).unwrap().1 == g.edge_list().len(),
        opened(b).unwrap().2 == 64,
{
    let (venc, eenc) = choose|venc: Seq<Seq<u8>>, eenc: Seq<Seq<u8>>|
        {
            &&& venc.len() == g.vertex_props().len()
            &&& eenc.len() == g.edge_props().len()
            &&& forall|i: int| 0 <= i < venc.len() ==> le_encoded_as(g.vertex_props()[i], #[trigger] venc[i])
            &&& forall|i: int| 0 <= i < eenc.len() ==> le_encoded_as(g.edge_props()[i], #[trigger] eenc[i])
            &&& b == axom_bytes(g.vertex_ids(), venc, g.edge_list(), g.edge_weights(), eenc)
        };
    g.lemma_listing();
    let ids = g.vertex_ids();
    let es = g.edge_list();
    let ws = g.edge_weights();
    let vdo: int = 64 + 24 * (ids.len() as int);
    let eio: int = vdo + concat(venc).len();
    let edo: int = eio + 40 * es.len();
    let h = axom_header(ids.len(), es.len(), vdo, eio, edo);
    lemma_header(ids.len(), es.len(), vdo, eio, edo);
    lemma_vertex_index_len(ids, venc, vdo);
    lemma_edge_index_len(es, ws, eenc, edo);
    let rest = vertex_index(ids, venc, vdo) + concat(venc) + edge_index(es, ws, eenc, edo) + concat(eenc);
    assert(b =~= h + rest);
    assert(b.len() == edo + concat(eenc).len());
    lemma_window_left(h, rest, 0, 4);
    lemma_window_left(h, rest, 4, 2);
    lemma_window_left(h, rest, 8, 8);
    lemma_window_left(h, rest, 16, 8);
    lemma_window_left(h, rest, 24, 8);
    lemma_window_left(h, rest, 48, 8);
    assert(has_magic(b)) by {
        assert(b.subrange(0, 4) == h.subrange(0, 4));
        assert(b[0] == h[0] && b[1] == h[1] && b[2] == h[2] && b[3] == h[3]);
    }
    lemma_le16_in(b, 4, 1);
    lemma_le64_in(b, 8, ids.len() as u64);
    lemma_le64_in(b, 16, es.len() as u64);
    lemma_le64_in(b, 24, 64);
    lemma_le64_in(b, 48, edo as u64);
}

/// Vertex entry `i` of a file laid out as `h + vi + vd + rest`.
#[verifier::spinoff_prover]
proof fn lemma_vertex_entry(
    b: Seq<u8>,
    h: Seq<u8>,
    vd: Seq<u8>,
    rest: Seq<u8>,
    ids: Seq<u64>,
    venc: Seq<Seq<u8>>,
    vdo: int,
    i: int,
)
    requires
        h.len() == 64,
        ids.len() == venc.len(),
        0 <= i < ids.len(),
        vdo == 64 + 24 * ids.len(),
        vd == concat(venc),
        b == h + vertex_index(ids, venc, vdo) + vd + rest,
    ensures
        le64_at(b, 64 + 24 * i) == ids[i],
        le64_at(b, 64 + 24 * i + 8) == (vdo + concat(venc.take(i)).len()) as u64,
        le64_at(b, 64 + 24 * i + 16) == venc[i].len() as u64,
        concat(venc.take(i)).len() + venc[i].len() <= vd.len(),
        b.subrange(vdo + concat(venc.take(i)).len(), vdo + concat(venc.take(i)).len() + venc[i].len()) == venc[i],
{
    let vi = vertex_index(ids, venc, vdo);
    lemma_vertex_index_at(ids, venc, vdo, i);
    lemma_concat_at(venc, i);
    let c = concat(venc.take(i)).len() as int;
    let x = le64(ids[i]);
    let y = le64((vdo + c) as u64);
    let z = le64(venc[i].len() as u64);
    let p = 64 + 24 * i;
    assert(b =~= (h + vi.subrange(0, 24 * i)) + (x + y + z) + (vi.subrange(24 * i + 24, vi.len() as int) + vd + rest));
    assert(b.subrange(p, p + 8) =~= x);
    assert(b.subrange(p + 8, p + 16) =~= y);
    assert(b.subrange(p + 16, p + 24) =~= z);
    lemma_le64_in(b, p, ids[i]);
    lemma_le64_in(b, p + 8, (vdo + c) as u64);
    lemma_le64_in(b, p + 16, venc[i].len() as u64);
    assert(b =~= (h + vi) + vd + rest);
    assert(b.subrange(vdo + c, vdo + c + venc[i].len()) =~= vd.subrange(c, c + venc[i].len()));
}

/// Field `k` (eight bytes) of a record `w` found at `p`.
proof fn lemma_le64_field(b: Seq<u8>, p: int, w: Seq<u8>, k: int, v: u64)
    requires
        0 <= p,
        0 <= k,
        8 * k + 8 <= w.len(),
        p + w.len() <= b.len(),
        b.subrange(p, p + w.len()) == w,
        w.subrange(8 * k, 8 * k + 8) == le64(v),
    ensures
        le64_at(b, p + 8 * k) == v,
{
    assert(b.subrange(p + 8 * k, p + 8 * k + 8) =~= w.subrange(8 * k, 8 * k + 8));
    lemma_le64_in(b, p + 8 * k, v);
}

/// Edge entry `i` of a file laid out as `pre + ei + ed`.
#[verifier::rlimit(40)]
proof fn lemma_edge_entry(
    b: Seq<u8>,
    pre: Seq<u8>,
    ed: Seq<u8>,
    es: Seq<(u64, u64)>,
    ws: Seq<u64>,
    eenc: Seq<Seq<u8>>,
    edo: int,
    i: int,
)
    requires
        es.len() == eenc.len(),
        ws.len() == eenc.len(),
        0 <= i < es.len(),
        edo == pre.len() + 40 * es.len(),
        ed == concat(eenc),
        b == pre + edge_index(es, ws, eenc, edo) + ed,
    ensures
        le64_at(b, pre.len() + 40 * i) == es[i].0,
        le64_at(b, pre.len() + 40 * i + 8) == es[i].1,
        le64_at(b, pre.len() + 40 * i + 16) == ws[i],
        le64_at(b, pre.len() + 40 * i + 24) == (edo + concat(eenc.take(i)).len()) as u64,
        le64_at(b, pre.len() + 40 * i + 32) == eenc[i].len() as u64,
        concat(eenc.take(i)).len() + eenc[i].len() <= ed.len(),
        b.subrange(edo + concat(eenc.take(i)).len(), edo + concat(eenc.take(i)).len() + eenc[i].len()) == eenc[i],
{
    let ei = edge_index(es, ws, eenc, edo);
    lemma_edge_index_at(es, ws, eenc, edo, i);
    lemma_concat_at(eenc, i);
    let c = concat(eenc.take(i)).len() as int;
    let x = le64(es[i].0) + le64(es[i].1) + le64(ws[i]) + le64((edo + c) as u64) + le64(eenc[i].len() as u64);
    let p = pre.len() + 40 * i;
    assert(b =~= (pre + ei.subrange(0, 40 * i)) + x + (ei.subrange(40 * i + 40, ei.len() as int) + ed));
    assert(b.subrange(p, p + 40) =~= x);
    assert(x.subrange(0, 8) =~= le64(es[i].0));
    assert(x.subrange(8, 16) =~= le64(es[i].1));
    assert(x.subrange(16, 24) =~= le64(ws[i]));
    assert(x.subrange(24, 32) =~= le64((edo + c) as u64));
    assert(x.subrange(32, 40) =~= le64(eenc[i].len() as u64));
    lemma_le64_field(b, p, x, 0, es[i].0);
    lemma_le64_field(b, p, x, 1, es[i].1);
    lemma_le64_field(b, p, x, 2, ws[i]);
    lemma_le64_field(b, p, x, 3, (edo + c) as u64);
    lemma_le64_field(b, p, x, 4, eenc[i].len() as u64);
    assert(b.subrange(edo + c, edo + c + eenc[i].len()) =~= ed.subrange(c, c + eenc[i].len()));
}

impl<'a> MmapGraph<'a> {
    /// The file is the layout of `g` with encodings `venc` and `eenc`.
    pub open spec fn laid_out(&self, g: PersistentGraph, venc: Seq<Seq<u8>>, eenc: Seq<Seq<u8>>) -> bool {
        &&& venc.len() == g.vertex_props().len()
        &&& eenc.len() == g.edge_props().len()
        &&& forall|i: int| 0 <= i < venc.len() ==> le_encoded_as(g.vertex_props()[i], #[trigger] venc[i])
        &&& forall|i: int| 0 <= i < eenc.len() ==> le_encoded_as(g.edge_props()[i], #[trigger] eenc[i])
        &&& self.bytes() == axom_bytes(g.vertex_ids(), venc, g.edge_list(), g.edge_weights(), eenc)
    }

    /// The header fields of the file of `g`.
    #[verifier::spinoff_prover]
    proof fn lemma_fields(&self, g: PersistentGraph, venc: Seq<Seq<u8>>, eenc: Seq<Seq<u8>>)
        requires
            g.wf(),
            self.laid_out(g, venc, eenc),
            self.bytes().len() <= usize::MAX,
            opened(self.bytes()) == Ok::<(usize, usize, usize, usize, usize, usize), MmapError>(self.fields()),
        ensures
            self.fields().0 == g.vertex_ids().len(),
            self.fields().1 == g.edge_list().len(),
            self.fields().2 == 64,
            self.fields().4 == 64 + 24 * g.vertex_ids().len() + concat(venc).len(),
            self.bytes().len() == self.fields().4 + 40 * g.edge_list().len() + concat(eenc).len(),
    {
        g.lemma_listing();
        let b = self.bytes();
        let ids = g.vertex_ids();
        let es = g.edge_list();
        let ws = g.edge_weights();
        let vdo: int = 64 + 24 * (ids.len() as int);
        let eio: int = vdo + concat(venc).len();
        let edo: int = eio + 40 * es.len();
        let h = axom_header(ids.len(), es.len(), vdo, eio, edo);
        lemma_header(ids.len(), es.len(), vdo, eio, edo);
        lemma_vertex_index_len(ids, venc, vdo);
        lemma_edge_index_len(es, ws, eenc, edo);
        let rest = vertex_index(ids, venc, vdo) + concat(venc) + edge_index(es, ws, eenc, edo) + concat(eenc);
        assert(b =~= h + rest);
        lemma_window_left(h, rest, 8, 8);
        lemma_window_left(h, rest, 16, 8);
        lemma_window_left(h, rest, 24, 8);
        lemma_window_left(h, rest, 40, 8);
        lemma_le64_in(b, 8, ids.len() as u64);
        lemma_le64_in(b, 16, es.len() as u64);
        lemma_le64_in(b, 24, 64);
        lemma_le64_in(b, 40, eio as u64);
    }

    /// Vertex entry `i` of the file of `g`.
    #[verifier::spinoff_prover]
    proof fn lemma_vertex_back_at(&self, g: PersistentGraph, venc: Seq<Seq<u8>>, eenc: Seq<Seq<u8>>, i: int)
        requires
            self.bytes() == axom_bytes(g.vertex_ids(), venc, g.edge_list(), g.edge_weights(), eenc),
            le_encoded_as(g.vertex_props()[i], venc[i]),
            self.fields().2 == 64,
            self.bytes().len() <= usize::MAX,
            g.vertex_ids().len() == venc.len(),
            g.edge_list().len() == eenc.len(),
            g.edge_weights().len() == eenc.len(),
            0 <= i < g.vertex_ids().len(),
            keys_distinct(g.vertex_props()[i]),
            g.vertex_props()[i].len() <= 0xffff_ffff,
            lengths_fit(g.vertex_props()[i]),
        ensures
            self.vid(i) == g.vertex_ids()[i],
            self.voff(i) + self.vlen(i) <= self.bytes().len(),
            self.vprops(i) == as_map(g.vertex_props()[i]),
    {
        let b = self.bytes();
        let ids = g.vertex_ids();
        let es = g.edge_list();
        let ws = g.edge_weights();
        let vd = concat(venc);
        let vdo: int = 64 + 24 * (ids.len() as int);
        let eio: int = vdo + vd.len();
        let edo: int = eio + 40 * es.len();
        let h = axom_header(ids.len(), es.len(), vdo, eio, edo);
        lemma_header(ids.len(), es.len(), vdo, eio, edo);
        let rest = edge_index(es, ws, eenc, edo) + concat(eenc);
        assert(b =~= h + vertex_index(ids, venc, vdo) + vd + rest);
        lemma_vertex_entry(b, h, vd, rest, ids, venc, vdo, i);
        lemma_vertex_index_len(ids, venc, vdo);
        lemma_edge_index_len(es, ws, eenc, edo);
        let c = concat(venc.take(i)).len() as int;
        assert(vdo + c + venc[i].len() <= b.len());
        assert(((vdo + c) as u64) as int == vdo + c);
        assert(self.voff(i) as int == vdo + c);
        assert(self.vlen(i) as int == venc[i].len());
        lemma_properties_roundtrip(g.vertex_props()[i], venc[i]);
    }

    /// Edge entry `i` of the file of `g`.
    #[verifier::spinoff_prover]
    proof fn lemma_edge_back_at(&self, g: PersistentGraph, venc: Seq<Seq<u8>>, eenc: Seq<Seq<u8>>, i: int)
        requires
            self.bytes() == axom_bytes(g.vertex_ids(), venc, g.edge_list(), g.edge_weights(), eenc),
            le_encoded_as(g.edge_props()[i], eenc[i]),
            self.fields().4 == 64 + 24 * g.vertex_ids().len() + concat(venc).len(),
            self.bytes().len() <= usize::MAX,
            g.vertex_ids().len() == venc.len(),
            g.edge_list().len() == eenc.len(),
            g.edge_weights().len() == eenc.len(),
            0 <= i < g.edge_list().len(),
            keys_distinct(g.edge_props()[i]),
            g.edge_props()[i].len() <= 0xffff_ffff,
            lengths_fit(g.edge_props()[i]),
        ensures
            (self.efrom(i), self.eto(i)) == g.edge_list()[i],
            self.eoff(i) + self.elen(i) <= self.bytes().len(),
            self.eweight(i) == g.edge_weights()[i],
            self.eprops(i) == as_map(g.edge_props()[i]),
    {
        let b = self.bytes();
        let ids = g.vertex_ids();
        let es = g.edge_list();
        let ws = g.edge_weights();
        let vd = concat(venc);
        let vdo: int = 64 + 24 * (ids.len() as int);
        let eio: int = vdo + vd.len();
        let edo: int = eio + 40 * es.len();
        let h = axom_header(ids.len(), es.len(), vdo, eio, edo);
        lemma_header(ids.len(), es.len(), vdo, eio, edo);
        lemma_vertex_index_len(ids, venc, vdo);
        let pre = h + vertex_index(ids, venc, vdo) + vd;
        assert(b =~= pre + edge_index(es, ws, eenc, edo) + concat(eenc));
        lemma_edge_entry(b, pre, concat(eenc), es, ws, eenc, edo, i);
        lemma_edge_index_len(es, ws, eenc, edo);
        let c = concat(eenc.take(i)).len() as int;
        assert(edo + c + eenc[i].len() <= b.len());
        assert(((edo + c) as u64) as int == edo + c);
        assert(self.eoff(i) as int == edo + c);
        assert(self.elen(i) as int == eenc[i].len());
        lemma_properties_roundtrip(g.edge_props()[i], eenc[i]);
    }

    /// Encodings with which the file is laid out as the file of `g`.
    #[verifier::spinoff_prover]
    proof fn lemma_layout_of(&self, g: PersistentGraph) -> (r: (Seq<Seq<u8>>, Seq<Seq<u8>>))
        requires
            axom_encoded(g, self.bytes()),
        ensures
            self.laid_out(g, r.0, r.1),
    {
        let (venc, eenc) = choose|venc: Seq<Seq<u8>>, eenc: Seq<Seq<u8>>|
            {
                &&& venc.len() == g.vertex_props().len()
                &&& eenc.len() == g.edge_props().len()
                &&& forall|i: int| 0 <= i < venc.len() ==> le_encoded_as(g.vertex_props()[i], #[trigger] venc[i])
                &&& forall|i: int| 0 <= i < eenc.len() ==> le_encoded_as(g.edge_props()[i], #[trigger] eenc[i])
                &&& self.bytes() == axom_bytes(g.vertex_ids(), venc, g.edge_list(), g.edge_weights(), eenc)
            };
        (venc, eenc)
    }

    /// The vertex entries of the file of `g`.
    #[verifier::spinoff_prover]
    proof fn lemma_vertices_back(&self, g: PersistentGraph, venc: Seq<Seq<u8>>, eenc: Seq<Seq<u8>>)
        requires
            g.wf(),
            g.fits_format(),
            self.laid_out(g, venc, eenc),
            self.bytes().len() <= usize::MAX,
            self.fields().2 == 64,
        ensures
            forall|i: int|
                0 <= i < g.vertex_ids().len() ==> #[trigger] self.vid(i) == g.vertex_ids()[i] && self.voff(i)
                    + self.vlen(i) <= self.bytes().len() && self.vprops(i) == g.vertex_map()[g.vertex_ids()[i]],
    {
        g.lemma_listing();
        assert forall|i: int| 0 <= i < g.vertex_ids().len() implies #[trigger] self.vid(i) == g.vertex_ids()[i]
            && self.voff(i) + self.vlen(i) <= self.bytes().len() && self.vprops(i) == g.vertex_map()[g.vertex_ids()[i]] by {
            assert(le_encoded_as(g.vertex_props()[i], venc[i]));
            assert(keys_distinct(g.vertex_props()[i]));
            assert(g.vertex_props()[i].len() <= 0xffff_ffff && lengths_fit(g.vertex_props()[i]));
            self.lemma_vertex_back_at(g, venc, eenc, i);
        }
    }

    /// The edge entries of the file of `g`.
    #[verifier::spinoff_prover]
    proof fn lemma_edges_back(&self, g: PersistentGraph, venc: Seq<Seq<u8>>, eenc: Seq<Seq<u8>>)
        requires
            g.wf(),
            g.fits_format(),
            self.laid_out(g, venc, eenc),
            self.bytes().len() <= usize::MAX,
            self.fields().4 == 64 + 24 * g.vertex_ids().len() + concat(venc).len(),
        ensures
            forall|i: int|
                0 <= i < g.edge_list().len() ==> (#[trigger] self.efrom(i), self.eto(i)) == g.edge_list()[i]
                    && self.eoff(i) + self.elen(i) <= self.bytes().len() && g.edge_map()[g.edge_list()[i]] == (
                    self.eweight(i),
                    self.eprops(i),
                ),
    {
        g.lemma_listing();
        assert forall|i: int| 0 <= i < g.edge_list().len() implies (#[trigger] self.efrom(i), self.eto(i))
            == g.edge_list()[i] && self.eoff(i) + self.elen(i) <= self.bytes().len() && g.edge_map()[g.edge_list()[i]]
            == (self.eweight(i), self.eprops(i)) by {
            assert(le_encoded_as(g.edge_props()[i], eenc[i]));
            assert(keys_distinct(g.edge_props()[i]));
            assert(g.edge_props()[i].len() <= 0xffff_ffff && lengths_fit(g.edge_props()[i]));
            self.lemma_edge_back_at(g, venc, eenc, i);
        }
    }

    /// The edge index of the file of `g` lists `g`'s edges in key order, so
    /// it is sorted by source, then target.
    proof fn lemma_edges_sorted_back(&self, g: PersistentGraph)
        requires
            g.wf(),
            self.fields().1 == g.edge_list().len(),
            forall|i: int| 0 <= i < g.edge_list().len() ==> (#[trigger] self.efrom(i), self.eto(i)) == g.edge_list()[i],
        ensures
            self.edges_sorted(),
    {
        g.lemma_views();
        assert forall|a: int, c: int|
            #![trigger self.efrom(a), self.efrom(c)]
            0 <= a < c < self.fields().1 implies self.efrom(a) < self.efrom(c) || (self.efrom(a) == self.efrom(c) && self.eto(a)
                < self.eto(c)) by {
            let ea = g.edge_list()[a];
            let ec = g.edge_list()[c];
            assert((self.efrom(a), self.eto(a)) == ea);
            assert((self.efrom(c), self.eto(c)) == ec);
            assert(crate::persistent_graph::edge_key(ea.0, ea.1) < crate::persistent_graph::edge_key(ec.0, ec.1));
            crate::persistent_graph::lemma_edge_key_order(ea.0, ea.1, ec.0, ec.1);
        }
    }

    /// A view opened on the file of `g` reads `g` back: the layout holds,
    /// the vertex index lists `g`'s vertices by increasing id with their
    /// properties, and the edge index its edges in order with their weights
    /// and properties.
    #[verifier::spinoff_prover]
    #[verifier::rlimit(40)]
    pub proof fn lemma_reads_back(&self, g: PersistentGraph)
        requires
            g.wf(),
            g.fits_format(),
            axom_encoded(g, self.bytes()),
            self.bytes().len() <= usize::MAX,
            opened(self.bytes()) == Ok::<(usize, usize, usize, usize, usize, usize), MmapError>(self.fields()),
        ensures
            self.layout_ok(),
            self.ids_sorted(),
            self.edges_sorted(),
            self.fields().0 == g.vertex_ids().len(),
            self.fields().1 == g.edge_list().len(),
            forall|i: int|
                0 <= i < g.vertex_ids().len() ==> #[trigger] self.vid(i) == g.vertex_ids()[i] && self.vprops(i)
                    == g.vertex_map()[g.vertex_ids()[i]],
            forall|i: int|
                0 <= i < g.edge_list().len() ==> (#[trigger] self.efrom(i), self.eto(i)) == g.edge_list()[i]
                    && g.edge_map()[g.edge_list()[i]] == (self.eweight(i), self.eprops(i)),
    {
        let (venc, eenc) = self.lemma_layout_of(g);
        self.lemma_fields(g, venc, eenc);
        self.lemma_vertices_back(g, venc, eenc);
        self.lemma_edges_back(g, venc, eenc);
        assert forall|i: int| 0 <= i < self.fields().0 implies #[trigger] self.voff(i) + self.vlen(i)
            <= self.bytes().len() by {
            assert(self.vid(i) == g.vertex_ids()[i]);
        }
        assert forall|i: int| 0 <= i < self.fields().1 implies #[trigger] self.eoff(i) + self.elen(i)
            <= self.bytes().len() by {
            assert(self.efrom(i) == g.edge_list()[i].0);
        }
        assert(self.layout_ok());
        assert(self.ids_sorted()) by {
            g.lemma_views();
            assert forall|a: int, c: int| 0 <= a < c < self.fields().0 implies #[trigger] self.vid(a) < #[trigger] self.vid(
                c,
            ) by {
                assert(g.vertex_ids()[a] < g.vertex_ids()[c]);
            }
        }
        self.lemma_edges_sorted_back(g);
    }

    /// On the file of `g`, the vertex search finds `id` exactly when `g`
    /// has the vertex, at an entry holding its properties.
    pub proof fn lemma_vertex_lookup(&self, g: PersistentGraph, id: u64)
        requires
            g.wf(),
            g.fits_format(),
            axom_encoded(g, self.bytes()),
            self.bytes().len() <= usize::MAX,
            opened(self.bytes()) == Ok::<(usize, usize, usize, usize, usize, usize), MmapError>(self.fields()),
        ensures
            match self.vertex_probe(id, 0, self.fields().0 as int) {
                Some(i) => g.vertex_map().dom().contains(id) && self.vprops(i) == g.vertex_map()[id],
                None => !g.vertex_map().dom().contains(id),
            },
    {
        self.lemma_reads_back(g);
        g.lemma_views();
        self.lemma_vertex_probe(id, 0, self.fields().0 as int);
        if g.vertex_map().dom().contains(id) {
            let i = choose|i: int| 0 <= i < g.vertex_ids().len() && g.vertex_ids()[i] == id;
            assert(self.vid(i) == id);
        }
        match self.vertex_probe(id, 0, self.fields().0 as int) {
            Some(i) => {
                assert(self.vid(i) == g.vertex_ids()[i]);
                assert(g.vertex_ids().contains(id));
            },
            None => {},
        }
    }

    /// On the file of `g`, the edge index is sorted and holds `(from, to)`
    /// exactly when `g` has that edge, at an entry with its weight and
    /// properties; so [`MmapGraph::get_edge`] finds exactly `g`'s edges.
    pub proof fn lemma_edge_lookup(&self, g: PersistentGraph, from: u64, to: u64)
        requires
            g.wf(),
            g.fits_format(),
            axom_encoded(g, self.bytes()),
            self.bytes().len() <= usize::MAX,
            opened(self.bytes()) == Ok::<(usize, usize, usize, usize, usize, usize), MmapError>(self.fields()),
        ensures
            self.edges_sorted(),
            (exists|i: int| 0 <= i < self.fields().1 && #[trigger] self.efrom(i) == from && self.eto(i) == to)
                <==> g.edge_map().dom().contains((from, to)),
            forall|i: int|
                0 <= i < self.fields().1 && #[trigger] self.efrom(i) == from && self.eto(i) == to ==> g.edge_map()[(from, to)]
                    == (self.eweight(i), self.eprops(i)),
    {
        self.lemma_reads_back(g);
        g.lemma_views();
        if g.edge_map().dom().contains((from, to)) {
            let i = choose|i: int| 0 <= i < g.edge_list().len() && g.edge_list()[i] == (from, to);
            assert((self.efrom(i), self.eto(i)) == g.edge_list()[i]);
        }
        assert forall|i: int| 0 <= i < self.fields().1 && #[trigger] self.efrom(i) == from && self.eto(i) == to implies g.edge_map().dom().contains(
            (from, to),
        ) && g.edge_map()[(from, to)] == (self.eweight(i), self.eprops(i)) by {
            assert((self.efrom(i), self.eto(i)) == g.edge_list()[i]);
            assert(g.edge_list().contains(g.edge_list()[i]));
        }
    }
}

} // verus!
