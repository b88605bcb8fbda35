//! Binary encoding shared by the on-disk formats: big-endian integers,
//! length-prefixed UTF-8 strings and tagged property values, written to a
//! byte buffer and read back from a byte slice at a cursor.

use vstd::prelude::*;
use vstd::utf8::{encode_utf8, valid_utf8, decode_utf8, encode_utf8_valid_utf8, encode_utf8_decode_utf8};
use crate::{PropertyValue, PropertyValueView};

verus! {

/// Why reading stopped.
#[derive(Debug, Clone, Copy, PartialEq, Eq, Structural)]
pub enum DecodeError {
    /// The bytes ended before the value did.
    UnexpectedEof,
    /// The bytes do not form a value (bad UTF-8, unknown type tag).
    InvalidData,
}

/// Big-endian bytes of a `u16`.
pub open spec fn be16(v: u16) -> Seq<u8> {
    seq![(v >> 8u16) as u8, v as u8]
}

/// Big-endian bytes of a `u32`.
pub open spec fn be32(v: u32) -> Seq<u8> {
    seq![(v >> 24u32) as u8, (v >> 16u32) as u8, (v >> 8u32) as u8, v as u8]
}

/// Big-endian bytes of a `u64`.
pub open spec fn be64(v: u64) -> Seq<u8> {
    seq![
        (v >> 56u64) as u8,
        (v >> 48u64) as u8,
        (v >> 40u64) as u8,
        (v >> 32u64) as u8,
        (v >> 24u64) as u8,
        (v >> 16u64) as u8,
        (v >> 8u64) as u8,
        v as u8,
    ]
}

/// The `u16` whose big-endian bytes start at `i`.
pub open spec fn be16_at(s: Seq<u8>, i: int) -> u16 {
    ((s[i] as u16) << 8u16) | (s[i + 1] as u16)
}

/// The `u32` whose big-endian bytes start at `i`.
pub open spec fn be32_at(s: Seq<u8>, i: int) -> u32 {
    ((s[i] as u32) << 24u32) | ((s[i + 1] as u32) << 16u32) | ((s[i + 2] as u32) << 8u32) | (s[
        i + 3
    ] as u32)
}

/// The `u64` whose big-endian bytes start at `i`.
pub open spec fn be64_at(s: Seq<u8>, i: int) -> u64 {
    ((s[i] as u64) << 56u64) | ((s[i + 1] as u64) << 48u64) | ((s[i + 2] as u64) << 40u64) | ((s[i
        + 3] as u64) << 32u64) | ((s[i + 4] as u64) << 24u64) | ((s[i + 5] as u64) << 16u64) | ((s[i
        + 6] as u64) << 8u64) | (s[i + 7] as u64)
}

proof fn lemma_be16_bits(v: u16)
    ensures
        ((((v >> 8u16) as u8) as u16) << 8u16) | ((v as u8) as u16) == v,
{
    assert(((((v >> 8u16) as u8) as u16) << 8u16) | ((v as u8) as u16) == v) by (bit_vector);
}

proof fn lemma_be32_bits(v: u32)
    ensures
        ((((v >> 24u32) as u8) as u32) << 24u32) | ((((v >> 16u32) as u8) as u32) << 16u32) | ((((v
            >> 8u32) as u8) as u32) << 8u32) | ((v as u8) as u32) == v,
{
    assert(((((v >> 24u32) as u8) as u32) << 24u32) | ((((v >> 16u32) as u8) as u32) << 16u32) | ((((v
        >> 8u32) as u8) as u32) << 8u32) | ((v as u8) as u32) == v) by (bit_vector);
}

proof fn lemma_be64_bits(v: u64)
    ensures
        ((((v >> 56u64) as u8) as u64) << 56u64) | ((((v >> 48u64) as u8) as u64) << 48u64) | ((((v
            >> 40u64) as u8) as u64) << 40u64) | ((((v >> 32u64) as u8) as u64) << 32u64) | ((((v
            >> 24u64) as u8) as u64) << 24u64) | ((((v >> 16u64) as u8) as u64) << 16u64) | ((((v
            >> 8u64) as u8) as u64) << 8u64) | ((v as u8) as u64) == v,
{
    assert(((((v >> 56u64) as u8) as u64) << 56u64) | ((((v >> 48u64) as u8) as u64) << 48u64) | ((((v
        >> 40u64) as u8) as u64) << 40u64) | ((((v >> 32u64) as u8) as u64) << 32u64) | ((((v
        >> 24u64) as u8) as u64) << 24u64) | ((((v >> 16u64) as u8) as u64) << 16u64) | ((((v
        >> 8u64) as u8) as u64) << 8u64) | ((v as u8) as u64) == v) by (bit_vector);
}

/// Reading back the bytes of a `u16` gives it back, wherever they stand.
pub proof fn lemma_be16_roundtrip(pre: Seq<u8>, v: u16, post: Seq<u8>)
    ensures
        be16_at(pre + be16(v) + post, pre.len() as int) == v,
{
    let s = pre + be16(v) + post;
    let i = pre.len() as int;
    assert(s[i] == (v >> 8u16) as u8);
    assert(s[i + 1] == v as u8);
    lemma_be16_bits(v);
}

/// Reading back the bytes of a `u32` gives it back, wherever they stand.
pub proof fn lemma_be32_roundtrip(pre: Seq<u8>, v: u32, post: Seq<u8>)
    ensures
        be32_at(pre + be32(v) + post, pre.len() as int) == v,
{
    let s = pre + be32(v) + post;
    let i = pre.len() as int;
    assert(s[i] == (v >> 24u32) as u8);
    assert(s[i + 1] == (v >> 16u32) as u8);
    assert(s[i + 2] == (v >> 8u32) as u8);
    assert(s[i + 3] == v as u8);
    lemma_be32_bits(v);
}

/// Reading back the bytes of a `u64` gives it back, wherever they stand.
pub proof fn lemma_be64_roundtrip(pre: Seq<u8>, v: u64, post: Seq<u8>)
    ensures
        be64_at(pre + be64(v) + post, pre.len() as int) == v,
{
    let s = pre + be64(v) + post;
    let i = pre.len() as int;
    assert(s[i] == (v >> 56u64) as u8);
    assert(s[i + 1] == (v >> 48u64) as u8);
    assert(s[i + 2] == (v >> 40u64) as u8);
    assert(s[i + 3] == (v >> 32u64) as u8);
    assert(s[i + 4] == (v >> 24u64) as u8);
    assert(s[i + 5] == (v >> 16u64) as u8);
    assert(s[i + 6] == (v >> 8u64) as u8);
    assert(s[i + 7] == v as u8);
    lemma_be64_bits(v);
}

/// Appends the big-endian bytes of `v`.
pub fn write_u16(w: &mut Vec<u8>, v: u16)
    ensures
        final(w)@ == old(w)@ + be16(v),
{
    w.push((v >> 8u16) as u8);
    w.push(v as u8);
    proof {
        assert(w@ =~= old(w)@ + be16(v));
    }
}

/// Appends the big-endian bytes of `v`.
pub fn write_u32(w: &mut Vec<u8>, v: u32)
    ensures
        final(w)@ == old(w)@ + be32(v),
{
    w.push((v >> 24u32) as u8);
    w.push((v >> 16u32) as u8);
    w.push((v >> 8u32) as u8);
    w.push(v as u8);
    proof {
        assert(w@ =~= old(w)@ + be32(v));
    }
}

/// Appends the big-endian bytes of `v`.
pub fn write_u64(w: &mut Vec<u8>, v: u64)
    ensures
        final(w)@ == old(w)@ + be64(v),
{
    w.push((v >> 56u64) as u8);
    w.push((v >> 48u64) as u8);
    w.push((v >> 40u64) as u8);
    w.push((v >> 32u64) as u8);
    w.push((v >> 24u64) as u8);
    w.push((v >> 16u64) as u8);
    w.push((v >> 8u64) as u8);
    w.push(v as u8);
    proof {
        assert(w@ =~= old(w)@ + be64(v));
    }
}

/// Appends `bytes`.
pub fn write_bytes(w: &mut Vec<u8>, bytes: &[u8])
    ensures
        final(w)@ == old(w)@ + bytes@,
{
    let mut i: usize = 0;
    while i < bytes.len()
        invariant
            i <= bytes@.len(),
            w@ == old(w)@ + bytes@.subrange(0, i as int),
        decreases bytes@.len() - i,
    {
        w.push(bytes[i]);
        i = i + 1;
        proof {
            assert(w@ =~= old(w)@ + bytes@.subrange(0, i as int));
        }
    }
    proof {
        assert(bytes@.subrange(0, bytes@.len() as int) =~= bytes@);
    }
}

/// Length prefix and UTF-8 bytes of a string. The length is written as a
/// `u32`, truncated for strings of 4 GiB or more.
pub open spec fn string_bytes(chars: Seq<char>) -> Seq<u8> {
    be32(encode_utf8(chars).len() as u32) + encode_utf8(chars)
}

/// Appends the length (`u32`) and the UTF-8 bytes of `s`.
pub fn write_string(w: &mut Vec<u8>, s: &str)
    ensures
        final(w)@ == old(w)@ + string_bytes(s@),
{
    let bytes = s.as_bytes();
    write_u32(w, bytes.len() as u32);
    write_bytes(w, bytes);
    proof {
        assert(w@ =~= old(w)@ + string_bytes(s@));
    }
}

/// Reads a big-endian `u16` at `*pos` and moves past it; fails when fewer
/// than 2 bytes are left.
pub fn read_u16(r: &[u8], pos: &mut usize) -> (res: Result<u16, DecodeError>)
    ensures
        *old(pos) + 2 <= r@.len() ==> res == Ok::<u16, DecodeError>(be16_at(r@, *old(pos) as int)) && *final(pos) == *old(pos) + 2,
        *old(pos) + 2 > r@.len() ==> res == Err::<u16, DecodeError>(DecodeError::UnexpectedEof) && *final(pos) == *old(pos),
{
    let p = *pos;
    if r.len() < 2 || p > r.len() - 2 {
        return Err(DecodeError::UnexpectedEof);
    }
    let v = ((r[p] as u16) << 8u16) | (r[p + 1] as u16);
    *pos = p + 2;
    Ok(v)
}

/// Reads a big-endian `u32` at `*pos` and moves past it; fails when fewer
/// than 4 bytes are left.
pub fn read_u32(r: &[u8], pos: &mut usize) -> (res: Result<u32, DecodeError>)
    ensures
        *old(pos) + 4 <= r@.len() ==> res == Ok::<u32, DecodeError>(be32_at(r@, *old(pos) as int)) && *final(pos) == *old(pos) + 4,
        *old(pos) + 4 > r@.len() ==> res == Err::<u32, DecodeError>(DecodeError::UnexpectedEof) && *final(pos) == *old(pos),
{
    let p = *pos;
    if r.len() < 4 || p > r.len() - 4 {
        return Err(DecodeError::UnexpectedEof);
    }
    let v = ((r[p] as u32) << 24u32) | ((r[p + 1] as u32) << 16u32) | ((r[p + 2] as u32) << 8u32) | (r[p + 3] as u32);
    *pos = p + 4;
    Ok(v)
}

/// Reads a big-endian `u64` at `*pos` and moves past it; fails when fewer
/// than 8 bytes are left.
pub fn read_u64(r: &[u8], pos: &mut usize) -> (res: Result<u64, DecodeError>)
    ensures
        *old(pos) + 8 <= r@.len() ==> res == Ok::<u64, DecodeError>(be64_at(r@, *old(pos) as int)) && *final(pos) == *old(pos) + 8,
        *old(pos) + 8 > r@.len() ==> res == Err::<u64, DecodeError>(DecodeError::UnexpectedEof) && *final(pos) == *old(pos),
{
    let p = *pos;
    if r.len() < 8 || p > r.len() - 8 {
        return Err(DecodeError::UnexpectedEof);
    }
    let v = ((r[p] as u64) << 56u64) | ((r[p + 1] as u64) << 48u64) | ((r[p + 2] as u64) << 40u64)
        | ((r[p + 3] as u64) << 32u64) | ((r[p + 4] as u64) << 24u64) | ((r[p + 5] as u64) << 16u64)
        | ((r[p + 6] as u64) << 8u64) | (r[p + 7] as u64);
    *pos = p + 8;
    Ok(v)
}

/// `String::from_utf8`: the string whose UTF-8 bytes are `bytes`, or
/// `None` when they are not valid UTF-8.
#[verifier::external_body]
pub(crate) fn utf8_string(bytes: Vec<u8>) -> (r: Option<String>)
    ensures
        r.is_some() <==> valid_utf8(bytes@),
        r matches Some(s) ==> encode_utf8(s@) == bytes@,
{
    String::from_utf8(bytes).ok()
}

/// A copy of `r[start..end]`.
pub fn copy_range(r: &[u8], start: usize, end: usize) -> (v: Vec<u8>)
    requires
        start <= end <= r@.len(),
    ensures
        v@ == r@.subrange(start as int, end as int),
{
    let mut v: Vec<u8> = Vec::new();
    let mut i: usize = start;
    while i < end
        invariant
            start <= i <= end <= r@.len(),
            v@ == r@.subrange(start as int, i as int),
        decreases end - i,
    {
        v.push(r[i]);
        i = i + 1;
        proof {
            assert(v@ =~= r@.subrange(start as int, i as int));
        }
    }
    v
}

/// The string stored at `i` (length, then UTF-8 bytes) and the position
/// after it.
pub open spec fn string_at(s: Seq<u8>, i: int) -> Result<(Seq<char>, int), DecodeError> {
    if i + 4 > s.len() {
        Err(DecodeError::UnexpectedEof)
    } else {
        let n = be32_at(s, i) as int;
        if i + 4 + n > s.len() {
            Err(DecodeError::UnexpectedEof)
        } else if !valid_utf8(s.subrange(i + 4, i + 4 + n)) {
            Err(DecodeError::InvalidData)
        } else {
            Ok((decode_utf8(s.subrange(i + 4, i + 4 + n)), i + 4 + n))
        }
    }
}

/// Reads a string (its `u32` byte length, then its UTF-8 bytes) at `*pos`
/// and moves past it.
pub fn read_string(r: &[u8], pos: &mut usize) -> (res: Result<String, DecodeError>)
    ensures
        match string_at(r@, *old(pos) as int) {
            Ok((c, e)) => res matches Ok(s) && s@ == c && *final(pos) == e,
            Err(x) => res == Err::<String, DecodeError>(x),
        },
{
    let len = read_u32(r, pos)?;
    let start = *pos;
    let n = len as usize;
    if n > r.len() - start {
        return Err(DecodeError::UnexpectedEof);
    }
    let bytes = copy_range(r, start, start + n);
    match utf8_string(bytes) {
        Some(s) => {
            proof {
                encode_utf8_decode_utf8(s@);
            }
            *pos = start + n;
            Ok(s)
        },
        None => Err(DecodeError::InvalidData),
    }
}

/// Type tag and payload of a property value.
pub open spec fn value_bytes(v: PropertyValueView) -> Seq<u8> {
    match v {
        PropertyValueView::String(c) => seq![0u8] + string_bytes(c),
        PropertyValueView::Int(i) => seq![1u8] + be64(i as u64),
        PropertyValueView::Double(d) => seq![2u8] + be64(d),
        PropertyValueView::Bool(b) => seq![3u8, if b { 1u8 } else { 0u8 }],
        PropertyValueView::Null => seq![4u8],
    }
}

/// The property value stored at `i` and the position after it.
pub open spec fn value_at(s: Seq<u8>, i: int) -> Result<(PropertyValueView, int), DecodeError> {
    if i + 1 > s.len() {
        Err(DecodeError::UnexpectedEof)
    } else {
        let tag = s[i];
        if tag == 0 {
            match string_at(s, i + 1) {
                Ok((c, e)) => Ok((PropertyValueView::String(c), e)),
                Err(x) => Err(x),
            }
        } else if tag == 1 {
            if i + 9 > s.len() {
                Err(DecodeError::UnexpectedEof)
            } else {
                Ok((PropertyValueView::Int(be64_at(s, i + 1) as i64), i + 9))
            }
        } else if tag == 2 {
            if i + 9 > s.len() {
                Err(DecodeError::UnexpectedEof)
            } else {
                Ok((PropertyValueView::Double(be64_at(s, i + 1)), i + 9))
            }
        } else if tag == 3 {
            if i + 2 > s.len() {
                Err(DecodeError::UnexpectedEof)
            } else {
                Ok((PropertyValueView::Bool(s[i + 1] != 0), i + 2))
            }
        } else if tag == 4 {
            Ok((PropertyValueView::Null, i + 1))
        } else {
            Err(DecodeError::InvalidData)
        }
    }
}

/// Appends the type tag and payload of `pv`.
pub fn write_property_value(w: &mut Vec<u8>, pv: &PropertyValue)
    ensures
        final(w)@ == old(w)@ + value_bytes(pv@),
{
    match pv {
        PropertyValue::String(s) => {
            w.push(0u8);
            write_string(w, s.as_str());
        },
        PropertyValue::Int(i) => {
            w.push(1u8);
            write_u64(w, *i as u64);
        },
        PropertyValue::Double(d) => {
            w.push(2u8);
            write_u64(w, *d);
        },
        PropertyValue::Bool(b) => {
            w.push(3u8);
            w.push(if *b { 1u8 } else { 0u8 });
        },
        PropertyValue::Null => {
            w.push(4u8);
        },
    }
    proof {
        assert(w@ =~= old(w)@ + value_bytes(pv@));
    }
}

/// Reads a property value (type tag, then payload) at `*pos` and moves
/// past it.
pub fn read_property_value(r: &[u8], pos: &mut usize) -> (res: Result<PropertyValue, DecodeError>)
    ensures
        match value_at(r@, *old(pos) as int) {
            Ok((v, e)) => res matches Ok(pv) && pv@ == v && *final(pos) == e,
            Err(x) => res == Err::<PropertyValue, DecodeError>(x),
        },
{
    let p = *pos;
    if p >= r.len() {
        return Err(DecodeError::UnexpectedEof);
    }
    let tag = r[p];
    *pos = p + 1;
    if tag == 0 {
        let s = read_string(r, pos)?;
        Ok(PropertyValue::String(s))
    } else if tag == 1 {
        let v = read_u64(r, pos)?;
        Ok(PropertyValue::Int(v as i64))
    } else if tag == 2 {
        let v = read_u64(r, pos)?;
        Ok(PropertyValue::Double(v))
    } else if tag == 3 {
        let q = *pos;
        if q >= r.len() {
            return Err(DecodeError::UnexpectedEof);
        }
        *pos = q + 1;
        Ok(PropertyValue::Bool(r[q] != 0))
    } else if tag == 4 {
        Ok(PropertyValue::Null)
    } else {
        Err(DecodeError::InvalidData)
    }
}

/// Reading a string where one was written gives it back, provided its
/// UTF-8 length fits the `u32` prefix.
pub proof fn lemma_string_roundtrip(pre: Seq<u8>, c: Seq<char>, post: Seq<u8>)
    requires
        encode_utf8(c).len() <= 0xffff_ffff,
    ensures
        string_at(pre + string_bytes(c) + post, pre.len() as int) == Ok::<(Seq<char>, int), DecodeError>((c, (pre.len() + string_bytes(c).len()) as int)),
{
    let b = encode_utf8(c);
    let s = pre + string_bytes(c) + post;
    let i = pre.len() as int;
    assert(s =~= pre + be32(b.len() as u32) + (b + post));
    lemma_be32_roundtrip(pre, b.len() as u32, b + post);
    assert(s.subrange(i + 4, i + 4 + b.len()) =~= b);
    encode_utf8_valid_utf8(c);
    encode_utf8_decode_utf8(c);
}

/// Reading a property value where one was written gives it back (a string
/// value's UTF-8 length must fit the `u32` prefix).
pub proof fn lemma_value_roundtrip(pre: Seq<u8>, v: PropertyValueView, post: Seq<u8>)
    requires
        v matches PropertyValueView::String(c) ==> encode_utf8(c).len() <= 0xffff_ffff,
    ensures
        value_at(pre + value_bytes(v) + post, pre.len() as int) == Ok::<(PropertyValueView, int), DecodeError>((v, (pre.len() + value_bytes(v).len()) as int)),
{
    let s = pre + value_bytes(v) + post;
    let i = pre.len() as int;
    match v {
        PropertyValueView::String(c) => {
            assert(s =~= pre.push(0u8) + string_bytes(c) + post);
            lemma_string_roundtrip(pre.push(0u8), c, post);
        },
        PropertyValueView::Int(x) => {
            assert(s =~= pre.push(1u8) + be64(x as u64) + post);
            lemma_be64_roundtrip(pre.push(1u8), x as u64, post);
            assert((x as u64) as i64 == x) by (bit_vector);
        },
        PropertyValueView::Double(d) => {
            assert(s =~= pre.push(2u8) + be64(d) + post);
            lemma_be64_roundtrip(pre.push(2u8), d, post);
        },
        PropertyValueView::Bool(b) => {
            assert(s[i] == 3u8);
            assert(s[i + 1] == if b { 1u8 } else { 0u8 });
        },
        PropertyValueView::Null => {
            assert(s[i] == 4u8);
        },
    }
}

} // verus!
