//! The native EdgeBlock file format ("AXEB"): the bytes of a
//! [`GPUEdgeBlockGraph`] and reading them back. The file itself is written
//! and read elsewhere; here the format is a function on bytes.
//!
//! Layout: `AXEB`, version (`u16`), block capacity (`u16`), vertex count
//! (`u32`), edge count (`u64`), 4 zero bytes; then the id array (`u64`s)
//! and the six block arrays (`u32`s), each as its length (`u32`) and its
//! entries; then the vertex properties: their number (`u32`) and, per
//! vertex, the number of entries (`u16`) and each entry as key length
//! (`u16`), key bytes and tagged value. All integers are big-endian.

use vstd::prelude::*;
use vstd::utf8::{encode_utf8, valid_utf8, decode_utf8, encode_utf8_valid_utf8, encode_utf8_decode_utf8};
use crate::{PropertyValue, PropertyValueView};
use crate::properties::{Properties, keys_distinct, as_map};
use crate::compact_storage::{insert_all, lemma_insert_all_map};
use crate::gpu_edge_block::GPUEdgeBlockGraph;
use std::collections::HashMap;
use crate::persistence::{value_bytes, value_at, write_property_value, read_property_value, lemma_value_roundtrip, utf8_string,
    be16, be32, be64, be16_at, be32_at, be64_at, write_u16, write_u32, write_u64, write_bytes, read_u16, read_u32, read_u64,
    copy_range, DecodeError, lemma_be16_roundtrip, lemma_be32_roundtrip, lemma_be64_roundtrip,
};

verus! {

/// Entries of a `u32` array, one after the other.
pub open spec fn u32s_flat(v: Seq<u32>) -> Seq<u8>
    decreases v.len(),
{
    if v.len() == 0 {
        seq![]
    } else {
        u32s_flat(v.drop_last()) + be32(v.last())
    }
}

/// Entries of a `u64` array, one after the other.
pub open spec fn u64s_flat(v: Seq<u64>) -> Seq<u8>
    decreases v.len(),
{
    if v.len() == 0 {
        seq![]
    } else {
        u64s_flat(v.drop_last()) + be64(v.last())
    }
}

/// A `u32` array: its length (`u32`), then its entries.
pub open spec fn u32s_bytes(v: Seq<u32>) -> Seq<u8> {
    be32(v.len() as u32) + u32s_flat(v)
}

/// A `u64` array: its length (`u32`), then its entries.
pub open spec fn u64s_bytes(v: Seq<u64>) -> Seq<u8> {
    be32(v.len() as u32) + u64s_flat(v)
}

/// The `u32` array stored at `i` and the position after it.
pub open spec fn u32s_at(s: Seq<u8>, i: int) -> Result<(Seq<u32>, int), DecodeError> {
    if i + 4 > s.len() {
        Err(DecodeError::UnexpectedEof)
    } else {
        let n = be32_at(s, i) as int;
        if i + 4 + 4 * n > s.len() {
            Err(DecodeError::UnexpectedEof)
        } else {
            Ok((Seq::new(n as nat, |k: int| be32_at(s, i + 4 + 4 * k)), i + 4 + 4 * n))
        }
    }
}

/// The `u64` array stored at `i` and the position after it.
pub open spec fn u64s_at(s: Seq<u8>, i: int) -> Result<(Seq<u64>, int), DecodeError> {
    if i + 4 > s.len() {
        Err(DecodeError::UnexpectedEof)
    } else {
        let n = be32_at(s, i) as int;
        if i + 4 + 8 * n > s.len() {
            Err(DecodeError::UnexpectedEof)
        } else {
            Ok((Seq::new(n as nat, |k: int| be64_at(s, i + 4 + 8 * k)), i + 4 + 8 * n))
        }
    }
}

proof fn lemma_u32s_flat(pre: Seq<u8>, v: Seq<u32>, post: Seq<u8>)
    ensures
        u32s_flat(v).len() == 4 * v.len(),
        forall|k: int| 0 <= k < v.len() ==> #[trigger] be32_at(pre + u32s_flat(v) + post, pre.len() + 4 * k) == v[k],
    decreases v.len(),
{
    if v.len() > 0 {
        let p = v.drop_last();
        lemma_u32s_flat(pre, p, be32(v.last()) + post);
        assert(pre + u32s_flat(v) + post =~= pre + u32s_flat(p) + (be32(v.last()) + post));
        assert(pre + u32s_flat(v) + post =~= (pre + u32s_flat(p)) + be32(v.last()) + post);
        lemma_be32_roundtrip(pre + u32s_flat(p), v.last(), post);
        assert forall|k: int| 0 <= k < v.len() implies #[trigger] be32_at(pre + u32s_flat(v) + post, pre.len() + 4 * k) == v[k] by {
            if k < v.len() - 1 {
                assert(be32_at(pre + u32s_flat(p) + (be32(v.last()) + post), pre.len() + 4 * k) == p[k]);
            }
        }
    }
}

proof fn lemma_u64s_flat(pre: Seq<u8>, v: Seq<u64>, post: Seq<u8>)
    ensures
        u64s_flat(v).len() == 8 * v.len(),
        forall|k: int| 0 <= k < v.len() ==> #[trigger] be64_at(pre + u64s_flat(v) + post, pre.len() + 8 * k) == v[k],
    decreases v.len(),
{
    if v.len() > 0 {
        let p = v.drop_last();
        lemma_u64s_flat(pre, p, be64(v.last()) + post);
        assert(pre + u64s_flat(v) + post =~= pre + u64s_flat(p) + (be64(v.last()) + post));
        assert(pre + u64s_flat(v) + post =~= (pre + u64s_flat(p)) + be64(v.last()) + post);
        lemma_be64_roundtrip(pre + u64s_flat(p), v.last(), post);
        assert forall|k: int| 0 <= k < v.len() implies #[trigger] be64_at(pre + u64s_flat(v) + post, pre.len() + 8 * k) == v[k] by {
            if k < v.len() - 1 {
                assert(be64_at(pre + u64s_flat(p) + (be64(v.last()) + post), pre.len() + 8 * k) == p[k]);
            }
        }
    }
}

/// Reading a `u32` array where one was written gives it back (fewer than
/// 2^32 entries).
pub proof fn lemma_u32s_roundtrip(pre: Seq<u8>, v: Seq<u32>, post: Seq<u8>)
    requires
        v.len() <= 0xffff_ffff,
    ensures
        u32s_at(pre + u32s_bytes(v) + post, pre.len() as int) == Ok::<(Seq<u32>, int), DecodeError>((v, (pre.len() + u32s_bytes(v).len()) as int)),
{
    let s = pre + u32s_bytes(v) + post;
    assert(s =~= pre + be32(v.len() as u32) + (u32s_flat(v) + post));
    lemma_be32_roundtrip(pre, v.len() as u32, u32s_flat(v) + post);
    assert(s =~= (pre + be32(v.len() as u32)) + u32s_flat(v) + post);
    lemma_u32s_flat(pre + be32(v.len() as u32), v, post);
    assert(Seq::new(v.len(), |k: int| be32_at(s, pre.len() + 4 + 4 * k)) =~= v);
}

/// Reading a `u64` array where one was written gives it back (fewer than
/// 2^32 entries).
pub proof fn lemma_u64s_roundtrip(pre: Seq<u8>, v: Seq<u64>, post: Seq<u8>)
    requires
        v.len() <= 0xffff_ffff,
    ensures
        u64s_at(pre + u64s_bytes(v) + post, pre.len() as int) == Ok::<(Seq<u64>, int), DecodeError>((v, (pre.len() + u64s_bytes(v).len()) as int)),
{
    let s = pre + u64s_bytes(v) + post;
    assert(s =~= pre + be32(v.len() as u32) + (u64s_flat(v) + post));
    lemma_be32_roundtrip(pre, v.len() as u32, u64s_flat(v) + post);
    assert(s =~= (pre + be32(v.len() as u32)) + u64s_flat(v) + post);
    lemma_u64s_flat(pre + be32(v.len() as u32), v, post);
    assert(Seq::new(v.len(), |k: int| be64_at(s, pre.len() + 4 + 8 * k)) =~= v);
}

/// Appends a `u32` array: its length, then its entries.
pub fn write_u32_slice(buf: &mut Vec<u8>, data: &[u32])
    ensures
        final(buf)@ == old(buf)@ + u32s_bytes(data@),
{
    write_u32(buf, data.len() as u32);
    let ghost head = buf@;
    let mut i: usize = 0;
    while i < data.len()
        invariant
            i <= data@.len(),
            buf@ == head + u32s_flat(data@.take(i as int)),
        decreases data@.len() - i,
    {
        write_u32(buf, data[i]);
        i = i + 1;
        proof {
            assert(data@.take(i as int).drop_last() =~= data@.take(i - 1));
        }
    }
    proof {
        assert(data@.take(i as int) =~= data@);
    }
}

/// Appends a `u64` array: its length, then its entries.
pub fn write_u64_slice(buf: &mut Vec<u8>, data: &[u64])
    ensures
        final(buf)@ == old(buf)@ + u64s_bytes(data@),
{
    write_u32(buf, data.len() as u32);
    let ghost head = buf@;
    let mut i: usize = 0;
    while i < data.len()
        invariant
            i <= data@.len(),
            buf@ == head + u64s_flat(data@.take(i as int)),
        decreases data@.len() - i,
    {
        write_u64(buf, data[i]);
        i = i + 1;
        proof {
            assert(data@.take(i as int).drop_last() =~= data@.take(i - 1));
        }
    }
    proof {
        assert(data@.take(i as int) =~= data@);
    }
}

/// Reads a `u32` array at `*pos` and moves past it.
pub fn read_u32_vec(r: &[u8], pos: &mut usize) -> (res: Result<Vec<u32>, DecodeError>)
    ensures
        match u32s_at(r@, *old(pos) as int) {
            Ok((v, e)) => res matches Ok(out) && out@ == v && *final(pos) == e,
            Err(x) => res == Err::<Vec<u32>, DecodeError>(x),
        },
{
    let start = *pos;
    let len = read_u32(r, pos)? as usize;
    let p = *pos;
    if (r.len() - p) / 4 < len {
        proof {
            assert(p + 4 * len > r@.len()) by (nonlinear_arith)
                requires
                    (r@.len() - p) / 4 < len,
                    p <= r@.len(),
            ;
        }
        return Err(DecodeError::UnexpectedEof);
    }
    proof {
        assert(p + 4 * len <= r@.len()) by (nonlinear_arith)
            requires
                (r@.len() - p) / 4 >= len,
                p <= r@.len(),
        ;
    }
    let mut out: Vec<u32> = Vec::new();
    let mut i: usize = 0;
    while i < len
        invariant
            p == start + 4,
            p + 4 * len <= r@.len(),
            i <= len,
            len == be32_at(r@, start as int),
            *pos == p + 4 * i,
            out@ == Seq::new(i as nat, |k: int| be32_at(r@, p + 4 * k)),
        decreases len - i,
    {
        let v = read_u32(r, pos)?;
        out.push(v);
        i = i + 1;
        proof {
            assert(out@ =~= Seq::new(i as nat, |k: int| be32_at(r@, p + 4 * k)));
        }
    }
    Ok(out)
}

/// Reads a `u64` array at `*pos` and moves past it.
pub fn read_u64_vec(r: &[u8], pos: &mut usize) -> (res: Result<Vec<u64>, DecodeError>)
    ensures
        match u64s_at(r@, *old(pos) as int) {
            Ok((v, e)) => res matches Ok(out) && out@ == v && *final(pos) == e,
            Err(x) => res == Err::<Vec<u64>, DecodeError>(x),
        },
{
    let start = *pos;
    let len = read_u32(r, pos)? as usize;
    let p = *pos;
    if (r.len() - p) / 8 < len {
        proof {
            assert(p + 8 * len > r@.len()) by (nonlinear_arith)
                requires
                    (r@.len() - p) / 8 < len,
                    p <= r@.len(),
            ;
        }
        return Err(DecodeError::UnexpectedEof);
    }
    proof {
        assert(p + 8 * len <= r@.len()) by (nonlinear_arith)
            requires
                (r@.len() - p) / 8 >= len,
                p <= r@.len(),
        ;
    }
    let mut out: Vec<u64> = Vec::new();
    let mut i: usize = 0;
    while i < len
        invariant
            p == start + 4,
            p + 8 * len <= r@.len(),
            i <= len,
            len == be32_at(r@, start as int),
            *pos == p + 8 * i,
            out@ == Seq::new(i as nat, |k: int| be64_at(r@, p + 8 * k)),
        decreases len - i,
    {
        let v = read_u64(r, pos)?;
        out.push(v);
        i = i + 1;
        proof {
            assert(out@ =~= Seq::new(i as nat, |k: int| be64_at(r@, p + 8 * k)));
        }
    }
    Ok(out)
}

/// A key: its UTF-8 length (`u16`, truncated), then its bytes.
pub open spec fn key16_bytes(k: Seq<char>) -> Seq<u8> {
    be16(encode_utf8(k).len() as u16) + encode_utf8(k)
}

/// One property entry: key, then tagged value.
pub open spec fn entry16_bytes(e: (Seq<char>, PropertyValueView)) -> Seq<u8> {
    key16_bytes(e.0) + value_bytes(e.1)
}

/// Property entries, one after the other.
pub open spec fn entries16(q: Seq<(Seq<char>, PropertyValueView)>) -> Seq<u8>
    decreases q.len(),
{
    if q.len() == 0 {
        seq![]
    } else {
        entries16(q.drop_last()) + entry16_bytes(q.last())
    }
}

/// The properties of one vertex: their number (`u16`, truncated), then the
/// entries.
pub open spec fn vprops_bytes(p: Seq<(Seq<char>, PropertyValueView)>) -> Seq<u8> {
    be16(p.len() as u16) + entries16(p)
}

/// Property lists of the vertices, one after the other.
pub open spec fn vprops_flat(ps: Seq<Seq<(Seq<char>, PropertyValueView)>>) -> Seq<u8>
    decreases ps.len(),
{
    if ps.len() == 0 {
        seq![]
    } else {
        vprops_flat(ps.drop_last()) + vprops_bytes(ps.last())
    }
}

/// The properties section: the number of vertices (`u32`), then each
/// vertex's properties.
pub open spec fn props_section(ps: Seq<Seq<(Seq<char>, PropertyValueView)>>) -> Seq<u8> {
    be32(ps.len() as u32) + vprops_flat(ps)
}

/// The value at `i` as the format reads it: an unknown type tag reads as
/// `Null` (one byte).
pub open spec fn lenient_value_at(s: Seq<u8>, i: int) -> Result<(PropertyValueView, int), DecodeError> {
    if i + 1 > s.len() {
        Err(DecodeError::UnexpectedEof)
    } else if s[i] <= 3 {
        value_at(s, i)
    } else {
        Ok((PropertyValueView::Null, i + 1))
    }
}

/// The property entry at `i` and the position after it.
#[verifier::opaque]
pub open spec fn entry16_at(s: Seq<u8>, i: int) -> Result<((Seq<char>, PropertyValueView), int), DecodeError> {
    if i + 2 > s.len() {
        Err(DecodeError::UnexpectedEof)
    } else {
        let n = be16_at(s, i) as int;
        if i + 2 + n > s.len() {
            Err(DecodeError::UnexpectedEof)
        } else if !valid_utf8(s.subrange(i + 2, i + 2 + n)) {
            Err(DecodeError::InvalidData)
        } else {
            match lenient_value_at(s, i + 2 + n) {
                Ok((v, e)) => Ok(((decode_utf8(s.subrange(i + 2, i + 2 + n)), v), e)),
                Err(x) => Err(x),
            }
        }
    }
}

/// Reading `k` entries from `i` into `m` (a later key replaces an earlier
/// one), with the position after them.
pub open spec fn entries16_from(s: Seq<u8>, i: int, k: nat, m: Map<Seq<char>, PropertyValueView>) -> Result<
    (Map<Seq<char>, PropertyValueView>, int),
    DecodeError,
>
    decreases k,
{
    if k == 0 {
        Ok((m, i))
    } else {
        match entry16_at(s, i) {
            Ok((e, j)) => entries16_from(s, j, (k - 1) as nat, m.insert(e.0, e.1)),
            Err(x) => Err(x),
        }
    }
}

/// The properties of one vertex stored at `i`.
pub open spec fn vprops_at(s: Seq<u8>, i: int) -> Result<(Map<Seq<char>, PropertyValueView>, int), DecodeError> {
    if i + 2 > s.len() {
        Err(DecodeError::UnexpectedEof)
    } else {
        entries16_from(s, i + 2, be16_at(s, i) as nat, Map::empty())
    }
}

/// Reading `k` vertices' properties from `i`, after `acc`.
pub open spec fn vprops_from(s: Seq<u8>, i: int, k: nat, acc: Seq<Map<Seq<char>, PropertyValueView>>) -> Result<
    (Seq<Map<Seq<char>, PropertyValueView>>, int),
    DecodeError,
>
    decreases k,
{
    if k == 0 {
        Ok((acc, i))
    } else {
        match vprops_at(s, i) {
            Ok((m, j)) => vprops_from(s, j, (k - 1) as nat, acc.push(m)),
            Err(x) => Err(x),
        }
    }
}

/// The properties section stored at `i`.
pub open spec fn props_section_at(s: Seq<u8>, i: int) -> Result<(Seq<Map<Seq<char>, PropertyValueView>>, int), DecodeError> {
    if i + 4 > s.len() {
        Err(DecodeError::UnexpectedEof)
    } else {
        vprops_from(s, i + 4, be32_at(s, i) as nat, seq![])
    }
}

/// Appends one vertex's properties.
fn write_vertex_props(buf: &mut Vec<u8>, p: &Properties)
    ensures
        final(buf)@ == old(buf)@ + vprops_bytes(p@),
{
    write_u16(buf, p.len() as u16);
    let ghost head = buf@;
    let mut i: usize = 0;
    while i < p.len()
        invariant
            i <= p@.len(),
            buf@ == head + entries16(p@.take(i as int)),
        decreases p@.len() - i,
    {
        let (k, v) = p.entry(i);
        let kb = k.as_str().as_bytes();
        write_u16(buf, kb.len() as u16);
        write_bytes(buf, kb);
        write_property_value(buf, v);
        i = i + 1;
        proof {
            assert(p@.take(i as int).drop_last() =~= p@.take(i - 1));
            assert(buf@ =~= head + entries16(p@.take(i as int)));
        }
    }
    proof {
        assert(p@.take(i as int) =~= p@);
    }
}

/// Appends the properties section.
pub fn write_props_section(buf: &mut Vec<u8>, ps: &Vec<Properties>)
    ensures
        final(buf)@ == old(buf)@ + props_section(ps@.map_values(|p: Properties| p@)),
{
    let ghost pv = ps@.map_values(|p: Properties| p@);
    write_u32(buf, ps.len() as u32);
    let ghost head = buf@;
    let mut i: usize = 0;
    while i < ps.len()
        invariant
            pv == ps@.map_values(|p: Properties| p@),
            i <= ps@.len(),
            buf@ == head + vprops_flat(pv.take(i as int)),
        decreases ps@.len() - i,
    {
        write_vertex_props(buf, &ps[i]);
        i = i + 1;
        proof {
            assert(pv.take(i as int).drop_last() =~= pv.take(i - 1));
        }
    }
    proof {
        assert(pv.take(i as int) =~= pv);
    }
}

/// Reads a value at `*pos` as the format does (unknown tag: `Null`).
fn read_lenient_value(r: &[u8], pos: &mut usize) -> (res: Result<PropertyValue, DecodeError>)
    ensures
        match lenient_value_at(r@, *old(pos) as int) {
            Ok((v, e)) => res matches Ok(pv) && pv@ == v && *final(pos) == e,
            Err(x) => res == Err::<PropertyValue, DecodeError>(x),
        },
{
    let p = *pos;
    if p >= r.len() {
        return Err(DecodeError::UnexpectedEof);
    }
    if r[p] <= 3 {
        read_property_value(r, pos)
    } else {
        *pos = p + 1;
        Ok(PropertyValue::Null)
    }
}

/// Reads one property entry at `*pos`.
fn read_entry16(r: &[u8], pos: &mut usize) -> (res: Result<(String, PropertyValue), DecodeError>)
    ensures
        match entry16_at(r@, *old(pos) as int) {
            Ok((e, j)) => res matches Ok(kv) && kv.0@ == e.0 && kv.1@ == e.1 && *final(pos) == j,
            Err(x) => res matches Err(y) && y == x,
        },
{
    proof {
        reveal(entry16_at);
    }
    let n = read_u16(r, pos)? as usize;
    let start = *pos;
    if n > r.len() - start {
        return Err(DecodeError::UnexpectedEof);
    }
    let bytes = copy_range(r, start, start + n);
    let key = match utf8_string(bytes) {
        Some(k) => k,
        None => return Err(DecodeError::InvalidData),
    };
    proof {
        encode_utf8_decode_utf8(key@);
    }
    *pos = start + n;
    let value = read_lenient_value(r, pos)?;
    Ok((key, value))
}

/// Reads one vertex's properties at `*pos`.
fn read_vertex_props(r: &[u8], pos: &mut usize) -> (res: Result<Properties, DecodeError>)
    ensures
        match vprops_at(r@, *old(pos) as int) {
            Ok((m, j)) => res matches Ok(p) && p.wf() && p.map() == m && *final(pos) == j,
            Err(x) => res matches Err(y) && y == x,
        },
{
    let n = read_u16(r, pos)?;
    let mut props = Properties::new();
    proof {
        assert(props.map() =~= Map::<Seq<char>, PropertyValueView>::empty());
    }
    let mut t: u16 = 0;
    while t < n
        invariant
            props.wf(),
            t <= n,
            vprops_at(r@, *old(pos) as int) == entries16_from(r@, *pos as int, (n - t) as nat, props.map()),
        decreases n - t,
    {
        let (k, v) = read_entry16(r, pos)?;
        props.insert(k, v);
        t = t + 1;
    }
    Ok(props)
}

/// Reads the properties section at `*pos`.
pub fn read_props_section(r: &[u8], pos: &mut usize) -> (res: Result<Vec<Properties>, DecodeError>)
    ensures
        match props_section_at(r@, *old(pos) as int) {
            Ok((ms, j)) => res matches Ok(ps) && ps@.len() == ms.len() && *final(pos) == j
                && forall|i: int| 0 <= i < ms.len() ==> (#[trigger] ps@[i]).wf() && ps@[i].map() == ms[i],
            Err(x) => res matches Err(y) && y == x,
        },
{
    let n = read_u32(r, pos)?;
    let mut out: Vec<Properties> = Vec::new();
    let mut t: u32 = 0;
    proof {
        assert(out@.map_values(|p: Properties| p.map()) =~= Seq::<Map<Seq<char>, PropertyValueView>>::empty());
    }
    while t < n
        invariant
            t <= n,
            forall|i: int| 0 <= i < out@.len() ==> (#[trigger] out@[i]).wf(),
            props_section_at(r@, *old(pos) as int) == vprops_from(r@, *pos as int, (n - t) as nat, out@.map_values(|p: Properties| p.map())),
        decreases n - t,
    {
        let ghost before = out@;
        let p = read_vertex_props(r, pos)?;
        out.push(p);
        t = t + 1;
        proof {
            assert(out@.map_values(|p: Properties| p.map()) =~= before.map_values(|p: Properties| p.map()).push(out@.last().map()));
        }
    }
    proof {
        assert forall|i: int| 0 <= i < out@.len() implies (#[trigger] out@[i]).wf() && out@[i].map() == out@.map_values(|p: Properties| p.map())[i] by {}
    }
    Ok(out)
}

/// The magic bytes `AXEB`.
pub open spec fn magic() -> Seq<u8> {
    seq![65u8, 88u8, 69u8, 66u8]
}

/// The 24-byte header for a vertex count and an edge count.
pub open spec fn header_bytes(vertex_count: u32, total_edges: u64) -> Seq<u8> {
    magic() + be16(1) + be16(32) + be32(vertex_count) + be64(total_edges) + seq![0u8, 0u8, 0u8, 0u8]
}

/// Vertex count and edge count of the header at the start of `s`.
pub open spec fn header_at(s: Seq<u8>) -> Result<(u32, u64), DecodeError> {
    if s.len() < 4 {
        Err(DecodeError::UnexpectedEof)
    } else if s.subrange(0, 4) != magic() {
        Err(DecodeError::InvalidData)
    } else if s.len() < 24 {
        Err(DecodeError::UnexpectedEof)
    } else {
        Ok((be32_at(s, 8), be64_at(s, 12)))
    }
}

/// What an EdgeBlock file holds.
pub struct EdgeBlockImage {
    pub vertex_count: u32,
    pub total_edges: u64,
    pub ids: Seq<u64>,
    pub vertices: Seq<u32>,
    pub block_counts: Seq<u32>,
    pub blocks: Seq<u32>,
    pub reverse_vertices: Seq<u32>,
    pub reverse_block_counts: Seq<u32>,
    pub reverse_blocks: Seq<u32>,
    pub props: Seq<Map<Seq<char>, PropertyValueView>>,
}

/// The contents of an EdgeBlock file, or why it cannot be read.
pub open spec fn image_at(s: Seq<u8>) -> Result<EdgeBlockImage, DecodeError> {
    match header_at(s) {
        Err(x) => Err(x),
        Ok((vc, te)) => match u64s_at(s, 24) {
            Err(x) => Err(x),
            Ok((ids, p1)) => match u32s_at(s, p1) {
                Err(x) => Err(x),
                Ok((vs, p2)) => match u32s_at(s, p2) {
                    Err(x) => Err(x),
                    Ok((bc, p3)) => match u32s_at(s, p3) {
                        Err(x) => Err(x),
                        Ok((bl, p4)) => match u32s_at(s, p4) {
                            Err(x) => Err(x),
                            Ok((rvs, p5)) => match u32s_at(s, p5) {
                                Err(x) => Err(x),
                                Ok((rbc, p6)) => match u32s_at(s, p6) {
                                    Err(x) => Err(x),
                                    Ok((rbl, p7)) => match props_section_at(s, p7) {
                                        Err(x) => Err(x),
                                        Ok((props, _)) => Ok(
                                            EdgeBlockImage {
                                                vertex_count: vc,
                                                total_edges: te,
                                                ids,
                                                vertices: vs,
                                                block_counts: bc,
                                                blocks: bl,
                                                reverse_vertices: rvs,
                                                reverse_block_counts: rbc,
                                                reverse_blocks: rbl,
                                                props,
                                            },
                                        ),
                                    },
                                },
                            },
                        },
                    },
                },
            },
        },
    }
}

/// Each id's index among the first `k` ids (the last one, for an id given
/// twice).
pub open spec fn index_map(ids: Seq<u64>, k: int) -> Map<u64, usize>
    decreases k,
{
    if k <= 0 {
        Map::empty()
    } else {
        index_map(ids, k - 1).insert(ids[k - 1], (k - 1) as usize)
    }
}

/// The bytes [`GPUEdgeBlockGraph::to_bytes`] writes for a graph.
#[verifier::opaque]
pub open spec fn graph_bytes(g: GPUEdgeBlockGraph) -> Seq<u8> {
    header_bytes(g.vertex_count, g.total_edges) + u64s_bytes(g.idx_to_id@) + u32s_bytes(g.vertices@) + u32s_bytes(
        g.block_counts@,
    ) + u32s_bytes(g.blocks@) + u32s_bytes(g.reverse_vertices@) + u32s_bytes(g.reverse_block_counts@)
        + u32s_bytes(g.reverse_blocks@) + props_section(g.vertex_props@.map_values(|p: Properties| p@))
}

impl GPUEdgeBlockGraph {
    /// The graph in the EdgeBlock file format (what `save` writes).
    pub fn to_bytes(&self) -> (r: Vec<u8>)
        ensures
            r@ == graph_bytes(*self),
    {
        let mut buf: Vec<u8> = Vec::new();
        buf.push(65u8);
        buf.push(88u8);
        buf.push(69u8);
        buf.push(66u8);
        write_u16(&mut buf, 1u16);
        write_u16(&mut buf, 32u16);
        write_u32(&mut buf, self.vertex_count);
        write_u64(&mut buf, self.total_edges);
        buf.push(0u8);
        buf.push(0u8);
        buf.push(0u8);
        buf.push(0u8);
        proof {
            assert(buf@ =~= header_bytes(self.vertex_count, self.total_edges));
        }
        write_u64_slice(&mut buf, self.idx_to_id.as_slice());
        write_u32_slice(&mut buf, self.vertices.as_slice());
        write_u32_slice(&mut buf, self.block_counts.as_slice());
        write_u32_slice(&mut buf, self.blocks.as_slice());
        write_u32_slice(&mut buf, self.reverse_vertices.as_slice());
        write_u32_slice(&mut buf, self.reverse_block_counts.as_slice());
        write_u32_slice(&mut buf, self.reverse_blocks.as_slice());
        write_props_section(&mut buf, &self.vertex_props);
        proof {
            reveal(graph_bytes);
        }
        buf
    }

    /// Reads a graph in the EdgeBlock file format (what `open` reads):
    /// `InvalidData` for other magic bytes, a key that is not UTF-8 or a
    /// string value that is not; `UnexpectedEof` when the bytes end early.
    /// Version and block capacity are not checked; an unknown value type
    /// reads as `Null`; bytes after the properties are ignored. The id map
    /// sends each id to its (last) index.
    pub fn from_bytes(bytes: &[u8]) -> (r: Result<GPUEdgeBlockGraph, DecodeError>)
        ensures
            match image_at(bytes@) {
                Ok(img) => r matches Ok(g) && g.vertex_count == img.vertex_count && g.total_edges == img.total_edges
                    && g.idx_to_id@ == img.ids && g.vertices@ == img.vertices && g.block_counts@ == img.block_counts
                    && g.blocks@ == img.blocks && g.reverse_vertices@ == img.reverse_vertices
                    && g.reverse_block_counts@ == img.reverse_block_counts && g.reverse_blocks@ == img.reverse_blocks
                    && g.vertex_props@.len() == img.props.len()
                    && (forall|i: int| 0 <= i < img.props.len() ==> (#[trigger] g.vertex_props@[i]).wf()
                        && g.vertex_props@[i].map() == img.props[i])
                    && g.id_to_idx@ == index_map(img.ids, img.ids.len() as int)
                    && g.block_capacity == 32 && g.blocks_dirty && g.reverse_blocks_dirty && g.structure_dirty,
                Err(x) => r matches Err(y) && y == x,
            },
    {
        if bytes.len() < 4 {
            return Err(DecodeError::UnexpectedEof);
        }
        if bytes[0] != 65u8 || bytes[1] != 88u8 || bytes[2] != 69u8 || bytes[3] != 66u8 {
            proof {
                assert(bytes@.subrange(0, 4) != magic()) by {
                    if bytes@.subrange(0, 4) == magic() {
                        assert(bytes@[0] == bytes@.subrange(0, 4)[0]);
                        assert(bytes@[1] == bytes@.subrange(0, 4)[1]);
                        assert(bytes@[2] == bytes@.subrange(0, 4)[2]);
                        assert(bytes@[3] == bytes@.subrange(0, 4)[3]);
                    }
                }
            }
            return Err(DecodeError::InvalidData);
        }
        proof {
            assert(bytes@.subrange(0, 4) =~= magic());
        }
        if bytes.len() < 24 {
            return Err(DecodeError::UnexpectedEof);
        }
        let mut pos: usize = 8;
        let vertex_count = read_u32(bytes, &mut pos)?;
        let total_edges = read_u64(bytes, &mut pos)?;
        pos = 24;
        let idx_to_id = read_u64_vec(bytes, &mut pos)?;
        let vertices = read_u32_vec(bytes, &mut pos)?;
        let block_counts = read_u32_vec(bytes, &mut pos)?;
        let blocks = read_u32_vec(bytes, &mut pos)?;
        let reverse_vertices = read_u32_vec(bytes, &mut pos)?;
        let reverse_block_counts = read_u32_vec(bytes, &mut pos)?;
        let reverse_blocks = read_u32_vec(bytes, &mut pos)?;
        let vertex_props = read_props_section(bytes, &mut pos)?;
        let mut id_to_idx: HashMap<u64, usize> = HashMap::new();
        let mut i: usize = 0;
        while i < idx_to_id.len()
            invariant
                i <= idx_to_id@.len(),
                id_to_idx@ == index_map(idx_to_id@, i as int),
            decreases idx_to_id@.len() - i,
        {
            id_to_idx.insert(idx_to_id[i], i);
            i = i + 1;
        }
        Ok(GPUEdgeBlockGraph {
            vertices,
            block_counts,
            blocks,
            reverse_vertices,
            reverse_block_counts,
            reverse_blocks,
            vertex_count,
            block_capacity: 32,
            idx_to_id,
            id_to_idx,
            vertex_props,
            total_edges,
            blocks_dirty: true,
            reverse_blocks_dirty: true,
            structure_dirty: true,
        })
    }
}

/// A vertex's properties fit the format: fewer than 2^16 entries, keys
/// distinct and shorter than 2^16 bytes, string values shorter than 2^32
/// bytes.
pub open spec fn props_fit(p: Seq<(Seq<char>, PropertyValueView)>) -> bool {
    &&& p.len() <= 0xffff
    &&& keys_distinct(p)
    &&& forall|i: int| 0 <= i < p.len() ==> {
        &&& encode_utf8(#[trigger] p[i].0).len() <= 0xffff
        &&& p[i].1 matches PropertyValueView::String(c) ==> encode_utf8(c).len() <= 0xffff_ffff
    }
}

proof fn lemma_entries16_front(q: Seq<(Seq<char>, PropertyValueView)>)
    requires
        q.len() > 0,
    ensures
        entries16(q) == entry16_bytes(q[0]) + entries16(q.drop_first()),
    decreases q.len(),
{
    if q.len() > 1 {
        lemma_entries16_front(q.drop_last());
        assert(q.drop_last().drop_first() =~= q.drop_first().drop_last());
        assert(q.drop_first().last() == q.last());
        assert(entries16(q.drop_first()) == entries16(q.drop_first().drop_last()) + entry16_bytes(q.drop_first().last()));
    } else {
        assert(q.drop_last() =~= Seq::<(Seq<char>, PropertyValueView)>::empty());
        assert(q.drop_first() =~= Seq::<(Seq<char>, PropertyValueView)>::empty());
    }
}

#[verifier::spinoff_prover]
#[verifier::rlimit(40)]
proof fn lemma_entry16_roundtrip(pre: Seq<u8>, e: (Seq<char>, PropertyValueView), post: Seq<u8>)
    requires
        encode_utf8(e.0).len() <= 0xffff,
        e.1 matches PropertyValueView::String(c) ==> encode_utf8(c).len() <= 0xffff_ffff,
    ensures
        entry16_at(pre + entry16_bytes(e) + post, pre.len() as int) == Ok::<((Seq<char>, PropertyValueView), int), DecodeError>(
            (e, (pre.len() + entry16_bytes(e).len()) as int),
        ),
{
    reveal(entry16_at);
    let kb = encode_utf8(e.0);
    let vb = value_bytes(e.1);
    let s = pre + entry16_bytes(e) + post;
    let i = pre.len() as int;
    assert(s =~= pre + be16(kb.len() as u16) + (kb + vb + post));
    lemma_be16_roundtrip(pre, kb.len() as u16, kb + vb + post);
    assert(s.subrange(i + 2, i + 2 + kb.len()) =~= kb);
    encode_utf8_valid_utf8(e.0);
    encode_utf8_decode_utf8(e.0);
    let pre2 = pre + be16(kb.len() as u16) + kb;
    assert(s =~= pre2 + vb + post);
    lemma_value_roundtrip(pre2, e.1, post);
    assert(s[i + 2 + kb.len()] == vb[0]);
}

proof fn lemma_decode_entries16(pre: Seq<u8>, q: Seq<(Seq<char>, PropertyValueView)>, post: Seq<u8>, m: Map<Seq<char>, PropertyValueView>)
    requires
        forall|i: int| 0 <= i < q.len() ==> {
            &&& encode_utf8(#[trigger] q[i].0).len() <= 0xffff
            &&& q[i].1 matches PropertyValueView::String(c) ==> encode_utf8(c).len() <= 0xffff_ffff
        },
    ensures
        entries16_from(pre + entries16(q) + post, pre.len() as int, q.len(), m) == Ok::<(Map<Seq<char>, PropertyValueView>, int), DecodeError>(
            (insert_all(m, q), (pre.len() + entries16(q).len()) as int),
        ),
    decreases q.len(),
{
    if q.len() > 0 {
        lemma_entries16_front(q);
        let rest = q.drop_first();
        let s = pre + entries16(q) + post;
        assert(encode_utf8(q[0].0).len() <= 0xffff);
        assert(s =~= pre + entry16_bytes(q[0]) + (entries16(rest) + post));
        lemma_entry16_roundtrip(pre, q[0], entries16(rest) + post);
        let pre2 = pre + entry16_bytes(q[0]);
        assert(s =~= pre2 + entries16(rest) + post);
        assert forall|i: int| 0 <= i < rest.len() implies {
            &&& encode_utf8(#[trigger] rest[i].0).len() <= 0xffff
            &&& rest[i].1 matches PropertyValueView::String(c) ==> encode_utf8(c).len() <= 0xffff_ffff
        } by {
            assert(rest[i] == q[i + 1]);
        }
        lemma_decode_entries16(pre2, rest, post, m.insert(q[0].0, q[0].1));
    }
}

proof fn lemma_vprops_flat_front(ps: Seq<Seq<(Seq<char>, PropertyValueView)>>)
    requires
        ps.len() > 0,
    ensures
        vprops_flat(ps) == vprops_bytes(ps[0]) + vprops_flat(ps.drop_first()),
    decreases ps.len(),
{
    if ps.len() > 1 {
        lemma_vprops_flat_front(ps.drop_last());
        assert(ps.drop_last().drop_first() =~= ps.drop_first().drop_last());
        assert(ps.drop_first().last() == ps.last());
        assert(vprops_flat(ps.drop_first()) == vprops_flat(ps.drop_first().drop_last()) + vprops_bytes(ps.drop_first().last()));
    } else {
        assert(ps.drop_last() =~= Seq::<Seq<(Seq<char>, PropertyValueView)>>::empty());
        assert(ps.drop_first() =~= Seq::<Seq<(Seq<char>, PropertyValueView)>>::empty());
    }
}

#[verifier::spinoff_prover]
#[verifier::rlimit(40)]
proof fn lemma_decode_vprops(
    pre: Seq<u8>,
    ps: Seq<Seq<(Seq<char>, PropertyValueView)>>,
    post: Seq<u8>,
    acc: Seq<Map<Seq<char>, PropertyValueView>>,
)
    requires
        forall|i: int| 0 <= i < ps.len() ==> props_fit(#[trigger] ps[i]),
    ensures
        vprops_from(pre + vprops_flat(ps) + post, pre.len() as int, ps.len(), acc) == Ok::<(Seq<Map<Seq<char>, PropertyValueView>>, int), DecodeError>(
            (acc + ps.map_values(|p: Seq<(Seq<char>, PropertyValueView)>| as_map(p)), (pre.len() + vprops_flat(ps).len()) as int),
        ),
    decreases ps.len(),
{
    if ps.len() == 0 {
        assert(acc + ps.map_values(|p: Seq<(Seq<char>, PropertyValueView)>| as_map(p)) =~= acc);
    } else {
        lemma_vprops_flat_front(ps);
        let p0 = ps[0];
        let rest = ps.drop_first();
        let s = pre + vprops_flat(ps) + post;
        assert(props_fit(p0));
        assert(s =~= pre + be16(p0.len() as u16) + (entries16(p0) + vprops_flat(rest) + post));
        lemma_be16_roundtrip(pre, p0.len() as u16, entries16(p0) + vprops_flat(rest) + post);
        assert(s =~= (pre + be16(p0.len() as u16)) + entries16(p0) + (vprops_flat(rest) + post));
        lemma_decode_entries16(pre + be16(p0.len() as u16), p0, vprops_flat(rest) + post, Map::empty());
        lemma_insert_all_map(Map::empty(), p0);
        assert(Map::<Seq<char>, PropertyValueView>::empty().union_prefer_right(as_map(p0)) =~= as_map(p0));
        let pre2 = pre + vprops_bytes(p0);
        assert(s =~= pre2 + vprops_flat(rest) + post);
        assert forall|i: int| 0 <= i < rest.len() implies props_fit(#[trigger] rest[i]) by {
            assert(rest[i] == ps[i + 1]);
        }
        lemma_decode_vprops(pre2, rest, post, acc.push(as_map(p0)));
        assert(acc.push(as_map(p0)) + rest.map_values(|p: Seq<(Seq<char>, PropertyValueView)>| as_map(p)) =~= acc + ps.map_values(
            |p: Seq<(Seq<char>, PropertyValueView)>| as_map(p),
        ));
    }
}

/// Reading back the properties section gives each vertex's property map
/// (when every vertex's properties fit the format and there are fewer than
/// 2^32 vertices).
pub proof fn lemma_props_section_roundtrip(pre: Seq<u8>, ps: Seq<Seq<(Seq<char>, PropertyValueView)>>, post: Seq<u8>)
    requires
        ps.len() <= 0xffff_ffff,
        forall|i: int| 0 <= i < ps.len() ==> props_fit(#[trigger] ps[i]),
    ensures
        props_section_at(pre + props_section(ps) + post, pre.len() as int) == Ok::<(Seq<Map<Seq<char>, PropertyValueView>>, int), DecodeError>(
            (ps.map_values(|p: Seq<(Seq<char>, PropertyValueView)>| as_map(p)), (pre.len() + props_section(ps).len()) as int),
        ),
{
    let s = pre + props_section(ps) + post;
    assert(s =~= pre + be32(ps.len() as u32) + (vprops_flat(ps) + post));
    lemma_be32_roundtrip(pre, ps.len() as u32, vprops_flat(ps) + post);
    assert(s =~= (pre + be32(ps.len() as u32)) + vprops_flat(ps) + post);
    lemma_decode_vprops(pre + be32(ps.len() as u32), ps, post, seq![]);
    assert(Seq::<Map<Seq<char>, PropertyValueView>>::empty() + ps.map_values(|p: Seq<(Seq<char>, PropertyValueView)>| as_map(p))
        =~= ps.map_values(|p: Seq<(Seq<char>, PropertyValueView)>| as_map(p)));
}

/// What [`GPUEdgeBlockGraph::to_bytes`] stores of a graph.
pub open spec fn image_of(g: GPUEdgeBlockGraph) -> EdgeBlockImage {
    EdgeBlockImage {
        vertex_count: g.vertex_count,
        total_edges: g.total_edges,
        ids: g.idx_to_id@,
        vertices: g.vertices@,
        block_counts: g.block_counts@,
        blocks: g.blocks@,
        reverse_vertices: g.reverse_vertices@,
        reverse_block_counts: g.reverse_block_counts@,
        reverse_blocks: g.reverse_blocks@,
        props: g.vertex_props@.map_values(|p: Properties| p.map()),
    }
}

/// The graph fits the file format: arrays of fewer than 2^32 entries and
/// property lists that fit (see [`props_fit`]).
pub open spec fn fits_format(g: GPUEdgeBlockGraph) -> bool {
    &&& g.idx_to_id@.len() <= 0xffff_ffff
    &&& g.vertices@.len() <= 0xffff_ffff
    &&& g.block_counts@.len() <= 0xffff_ffff
    &&& g.blocks@.len() <= 0xffff_ffff
    &&& g.reverse_vertices@.len() <= 0xffff_ffff
    &&& g.reverse_block_counts@.len() <= 0xffff_ffff
    &&& g.reverse_blocks@.len() <= 0xffff_ffff
    &&& g.vertex_props@.len() <= 0xffff_ffff
    &&& forall|i: int| 0 <= i < g.vertex_props@.len() ==> props_fit(#[trigger] g.vertex_props@[i]@)
}

proof fn lemma_assoc(a: Seq<u8>, b: Seq<u8>, c: Seq<u8>)
    ensures
        a + (b + c) == (a + b) + c,
{
    assert(a + (b + c) =~= (a + b) + c);
}

proof fn lemma_header(vc: u32, te: u64, rest: Seq<u8>)
    ensures
        header_at(header_bytes(vc, te) + rest) == Ok::<(u32, u64), DecodeError>((vc, te)),
        header_bytes(vc, te).len() == 24,
{
    let s = header_bytes(vc, te) + rest;
    let m4 = magic() + be16(1) + be16(32);
    let z = seq![0u8, 0u8, 0u8, 0u8];
    assert(s =~= m4 + be32(vc) + (be64(te) + z + rest));
    lemma_be32_roundtrip(m4, vc, be64(te) + z + rest);
    assert(s =~= (m4 + be32(vc)) + be64(te) + (z + rest));
    lemma_be64_roundtrip(m4 + be32(vc), te, z + rest);
    assert(s.subrange(0, 4) =~= magic());
}

/// End positions of the sections of [`graph_bytes`].
pub open spec fn section_end(g: GPUEdgeBlockGraph, k: int) -> int {
    let e0: int = 24 + u64s_bytes(g.idx_to_id@).len() as int;
    let e1: int = e0 + u32s_bytes(g.vertices@).len();
    let e2: int = e1 + u32s_bytes(g.block_counts@).len();
    let e3: int = e2 + u32s_bytes(g.blocks@).len();
    let e4: int = e3 + u32s_bytes(g.reverse_vertices@).len();
    let e5: int = e4 + u32s_bytes(g.reverse_block_counts@).len();
    let e6: int = e5 + u32s_bytes(g.reverse_blocks@).len();
    if k == 0 { e0 } else if k == 1 { e1 } else if k == 2 { e2 } else if k == 3 { e3 } else if k == 4 { e4 } else if k == 5 { e5 } else { e6 }
}

#[verifier::spinoff_prover]
#[verifier::rlimit(60)]
proof fn lemma_graph_sections(g: GPUEdgeBlockGraph)
    requires
        fits_format(g),
    ensures
        ({
            let s = graph_bytes(g);
            let pv = g.vertex_props@.map_values(|p: Properties| p@);
            &&& header_at(s) == Ok::<(u32, u64), DecodeError>((g.vertex_count, g.total_edges))
            &&& u64s_at(s, 24) == Ok::<(Seq<u64>, int), DecodeError>((g.idx_to_id@, section_end(g, 0)))
            &&& u32s_at(s, section_end(g, 0)) == Ok::<(Seq<u32>, int), DecodeError>((g.vertices@, section_end(g, 1)))
            &&& u32s_at(s, section_end(g, 1)) == Ok::<(Seq<u32>, int), DecodeError>((g.block_counts@, section_end(g, 2)))
            &&& u32s_at(s, section_end(g, 2)) == Ok::<(Seq<u32>, int), DecodeError>((g.blocks@, section_end(g, 3)))
            &&& u32s_at(s, section_end(g, 3)) == Ok::<(Seq<u32>, int), DecodeError>((g.reverse_vertices@, section_end(g, 4)))
            &&& u32s_at(s, section_end(g, 4)) == Ok::<(Seq<u32>, int), DecodeError>((g.reverse_block_counts@, section_end(g, 5)))
            &&& u32s_at(s, section_end(g, 5)) == Ok::<(Seq<u32>, int), DecodeError>((g.reverse_blocks@, section_end(g, 6)))
            &&& props_section_at(s, section_end(g, 6)) is Ok
            &&& props_section_at(s, section_end(g, 6))->Ok_0.0 == pv.map_values(|p: Seq<(Seq<char>, PropertyValueView)>| as_map(p))
        }),
{
    reveal(graph_bytes);
    let s = graph_bytes(g);
    let h = header_bytes(g.vertex_count, g.total_edges);
    let a0 = u64s_bytes(g.idx_to_id@);
    let a1 = u32s_bytes(g.vertices@);
    let a2 = u32s_bytes(g.block_counts@);
    let a3 = u32s_bytes(g.blocks@);
    let a4 = u32s_bytes(g.reverse_vertices@);
    let a5 = u32s_bytes(g.reverse_block_counts@);
    let a6 = u32s_bytes(g.reverse_blocks@);
    let pv = g.vertex_props@.map_values(|p: Properties| p@);
    let ps = props_section(pv);
    let e = Seq::<u8>::empty();
    let t7 = ps + e;
    let t6 = a6 + t7;
    let t5 = a5 + t6;
    let t4 = a4 + t5;
    let t3 = a3 + t4;
    let t2 = a2 + t3;
    let t1 = a1 + t2;
    let t0 = a0 + t1;
    let p1 = h + a0;
    let p2 = p1 + a1;
    let p3 = p2 + a2;
    let p4 = p3 + a3;
    let p5 = p4 + a4;
    let p6 = p5 + a5;
    let p7 = p6 + a6;
    assert(s == p7 + ps);
    assert(ps + e =~= ps);
    lemma_assoc(p6, a6, t7);
    lemma_assoc(p5, a5, t6);
    lemma_assoc(p4, a4, t5);
    lemma_assoc(p3, a3, t4);
    lemma_assoc(p2, a2, t3);
    lemma_assoc(p1, a1, t2);
    lemma_assoc(h, a0, t1);
    lemma_header(g.vertex_count, g.total_edges, t0);
    lemma_u64s_roundtrip(h, g.idx_to_id@, t1);
    lemma_u32s_roundtrip(p1, g.vertices@, t2);
    lemma_u32s_roundtrip(p2, g.block_counts@, t3);
    lemma_u32s_roundtrip(p3, g.blocks@, t4);
    lemma_u32s_roundtrip(p4, g.reverse_vertices@, t5);
    lemma_u32s_roundtrip(p5, g.reverse_block_counts@, t6);
    lemma_u32s_roundtrip(p6, g.reverse_blocks@, t7);
    assert forall|i: int| 0 <= i < pv.len() implies props_fit(#[trigger] pv[i]) by {
        assert(pv[i] == g.vertex_props@[i]@);
    }
    lemma_props_section_roundtrip(p7, pv, e);
}

/// Reading back what [`GPUEdgeBlockGraph::to_bytes`] wrote gives the same
/// counts, ids, block arrays and property maps (saving then opening a
/// graph that fits the format loses nothing it stores).
pub proof fn lemma_graph_roundtrip(g: GPUEdgeBlockGraph)
    requires
        fits_format(g),
    ensures
        image_at(graph_bytes(g)) == Ok::<EdgeBlockImage, DecodeError>(image_of(g)),
{
    lemma_graph_sections(g);
    let s = graph_bytes(g);
    let pv = g.vertex_props@.map_values(|p: Properties| p@);
    let props = props_section_at(s, section_end(g, 6))->Ok_0.0;
    assert(pv.map_values(|p: Seq<(Seq<char>, PropertyValueView)>| as_map(p)) =~= g.vertex_props@.map_values(|p: Properties| p.map()));
}

} // verus!
