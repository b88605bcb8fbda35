//! Compact storage: property maps encoded as byte strings (keys in byte
//! order), and a vertex store that keeps ids sorted and finds them by
//! binary search.

use vstd::prelude::*;
use vstd::utf8::encode_utf8;
use crate::{PropertyValueView};
use crate::properties::{Properties, keys_distinct, as_map, lemma_key_index_unique};
use crate::persistence::{be32, be32_at, string_bytes, string_at, value_bytes, value_at, write_u32, write_string, write_property_value, read_u32, read_string, read_property_value, DecodeError, lemma_string_roundtrip, lemma_value_roundtrip};

verus! {

/// Byte-wise lexicographic order (the order of `str`).
pub open spec fn lex_lt(a: Seq<u8>, b: Seq<u8>) -> bool
    decreases a.len(),
{
    if a.len() == 0 {
        b.len() > 0
    } else if b.len() == 0 {
        false
    } else if a[0] < b[0] {
        true
    } else if a[0] > b[0] {
        false
    } else {
        lex_lt(a.drop_first(), b.drop_first())
    }
}

/// Order of keys: by their UTF-8 bytes.
pub open spec fn key_lt(a: Seq<char>, b: Seq<char>) -> bool {
    lex_lt(encode_utf8(a), encode_utf8(b))
}

pub proof fn lemma_lex_asym(a: Seq<u8>, b: Seq<u8>)
    ensures
        !(lex_lt(a, b) && lex_lt(b, a)),
        !lex_lt(a, a),
    decreases a.len(),
{
    if a.len() > 0 && b.len() > 0 && a[0] == b[0] {
        lemma_lex_asym(a.drop_first(), b.drop_first());
    }
    if a.len() > 0 {
        lemma_lex_asym(a.drop_first(), a.drop_first());
    }
}

pub proof fn lemma_lex_total(a: Seq<u8>, b: Seq<u8>)
    ensures
        a != b ==> lex_lt(a, b) || lex_lt(b, a),
    decreases a.len(),
{
    if a.len() > 0 && b.len() > 0 && a[0] == b[0] {
        lemma_lex_total(a.drop_first(), b.drop_first());
        if a.drop_first() == b.drop_first() {
            assert(a =~= seq![a[0]] + a.drop_first());
            assert(b =~= seq![b[0]] + b.drop_first());
        }
    } else if a.len() == 0 && b.len() == 0 {
        assert(a =~= b);
    }
}

pub proof fn lemma_lex_trans(a: Seq<u8>, b: Seq<u8>, c: Seq<u8>)
    requires
        lex_lt(a, b),
        lex_lt(b, c),
    ensures
        lex_lt(a, c),
    decreases a.len(),
{
    if a.len() > 0 && b.len() > 0 && c.len() > 0 && a[0] == b[0] && b[0] == c[0] {
        lemma_lex_trans(a.drop_first(), b.drop_first(), c.drop_first());
    }
}

proof fn lemma_lex_skip(a: Seq<u8>, b: Seq<u8>, i: int)
    requires
        0 <= i <= a.len(),
        i <= b.len(),
        a.subrange(0, i) == b.subrange(0, i),
    ensures
        lex_lt(a, b) == lex_lt(a.skip(i), b.skip(i)),
    decreases i,
{
    if i > 0 {
        assert(a[0] == a.subrange(0, i)[0]);
        assert(b[0] == b.subrange(0, i)[0]);
        assert(a.drop_first().subrange(0, i - 1) =~= a.subrange(0, i).drop_first());
        assert(b.drop_first().subrange(0, i - 1) =~= b.subrange(0, i).drop_first());
        lemma_lex_skip(a.drop_first(), b.drop_first(), i - 1);
        assert(a.drop_first().skip(i - 1) =~= a.skip(i));
        assert(b.drop_first().skip(i - 1) =~= b.skip(i));
    } else {
        assert(a.skip(0) =~= a);
        assert(b.skip(0) =~= b);
    }
}

/// Whether `a` comes before `b` byte-wise.
pub fn bytes_lt(a: &[u8], b: &[u8]) -> (r: bool)
    ensures
        r == lex_lt(a@, b@),
{
    let mut i: usize = 0;
    while i < a.len() && i < b.len()
        invariant
            i <= a@.len(),
            i <= b@.len(),
            a@.subrange(0, i as int) == b@.subrange(0, i as int),
        decreases a@.len() - i,
    {
        if a[i] != b[i] {
            proof {
                lemma_lex_skip(a@, b@, i as int);
                assert(a@.skip(i as int)[0] == a@[i as int]);
                assert(b@.skip(i as int)[0] == b@[i as int]);
            }
            return a[i] < b[i];
        }
        i = i + 1;
        proof {
            assert(a@.subrange(0, i as int) =~= a@.subrange(0, i - 1).push(a@[i - 1]));
            assert(b@.subrange(0, i as int) =~= b@.subrange(0, i - 1).push(b@[i - 1]));
        }
    }
    proof {
        lemma_lex_skip(a@, b@, i as int);
    }
    i < b.len()
}

/// Key order of two keys.
fn key_less(a: &String, b: &String) -> (r: bool)
    ensures
        r == key_lt(a@, b@),
{
    bytes_lt(a.as_str().as_bytes(), b.as_str().as_bytes())
}

/// Distinct keys are ordered one way or the other.
proof fn lemma_key_total(a: Seq<char>, b: Seq<char>)
    ensures
        a != b ==> key_lt(a, b) || key_lt(b, a),
        !(key_lt(a, b) && key_lt(b, a)),
        !key_lt(a, a),
{
    vstd::utf8::encode_utf8_decode_utf8(a);
    vstd::utf8::encode_utf8_decode_utf8(b);
    lemma_lex_total(encode_utf8(a), encode_utf8(b));
    lemma_lex_asym(encode_utf8(a), encode_utf8(b));
}

/// Number of `false` entries.
spec fn count_false(s: Seq<bool>) -> nat
    decreases s.len(),
{
    if s.len() == 0 {
        0
    } else {
        count_false(s.drop_last()) + if s.last() { 0nat } else { 1nat }
    }
}

proof fn lemma_count_false_update(s: Seq<bool>, i: int)
    requires
        0 <= i < s.len(),
        !s[i],
    ensures
        count_false(s.update(i, true)) + 1 == count_false(s),
    decreases s.len(),
{
    if i < s.len() - 1 {
        assert(s.update(i, true).drop_last() =~= s.drop_last().update(i, true));
        lemma_count_false_update(s.drop_last(), i);
    } else {
        assert(s.update(i, true).drop_last() =~= s.drop_last());
    }
}

/// Whether `i` occurs in `order`.
pub open spec fn listed(order: Seq<usize>, i: int) -> bool {
    exists|j: int| 0 <= j < order.len() && order[j] == i
}

proof fn lemma_count_false_none(s: Seq<bool>)
    requires
        forall|i: int| 0 <= i < s.len() ==> !#[trigger] s[i],
    ensures
        count_false(s) == s.len(),
    decreases s.len(),
{
    if s.len() > 0 {
        lemma_count_false_none(s.drop_last());
    }
}

proof fn lemma_count_false_all(s: Seq<bool>)
    requires
        forall|i: int| 0 <= i < s.len() ==> #[trigger] s[i],
    ensures
        count_false(s) == 0,
    decreases s.len(),
{
    if s.len() > 0 {
        lemma_count_false_all(s.drop_last());
    }
}

/// The positions of the entries of `p`, by increasing key.
pub(crate) fn key_order(p: &Properties) -> (order: Vec<usize>)
    requires
        p.wf(),
    ensures
        order@.len() == p@.len(),
        forall|j: int| 0 <= j < order@.len() ==> (#[trigger] order@[j] as int) < p@.len(),
        forall|i: int| 0 <= i < p@.len() ==> #[trigger] listed(order@, i),
        forall|a: int, b: int| 0 <= a < b < order@.len() ==> key_lt(#[trigger] p@[order@[a] as int].0, #[trigger] p@[order@[b] as int].0),
{
    let n = p.len();
    let ghost ps = p@;
    let mut used: Vec<bool> = vec![false; n];
    let mut order: Vec<usize> = Vec::new();
    proof {
        lemma_count_false_none(used@);
    }
    loop
        invariant
            p.wf(),
            ps == p@,
            n == ps.len(),
            used@.len() == n,
            count_false(used@) + order@.len() == n,
            forall|j: int| 0 <= j < order@.len() ==> (#[trigger] order@[j] as int) < n && used@[order@[j] as int],
            forall|i: int| 0 <= i < n && #[trigger] used@[i] ==> listed(order@, i),
            forall|a: int, b: int| 0 <= a < b < order@.len() ==> key_lt(#[trigger] ps[order@[a] as int].0, #[trigger] ps[order@[b] as int].0),
            forall|j: int, i: int| 0 <= j < order@.len() && 0 <= i < n && !used@[i] ==> key_lt(#[trigger] ps[order@[j] as int].0, #[trigger] ps[i].0),
        ensures
            order@.len() == n,
            forall|j: int| 0 <= j < order@.len() ==> (#[trigger] order@[j] as int) < n,
            forall|i: int| 0 <= i < n ==> #[trigger] listed(order@, i),
            forall|a: int, b: int| 0 <= a < b < order@.len() ==> key_lt(#[trigger] ps[order@[a] as int].0, #[trigger] ps[order@[b] as int].0),
        decreases count_false(used@),
    {
        let mut best: Option<usize> = None;
        let mut i: usize = 0;
        while i < n
            invariant
                p.wf(),
                ps == p@,
                n == ps.len(),
                used@.len() == n,
                i <= n,
                match best {
                    Some(b) => b < i && !used@[b as int] && forall|k: int| 0 <= k < i && !used@[k] && k != b ==> key_lt(ps[b as int].0, #[trigger] ps[k].0),
                    None => forall|k: int| 0 <= k < i ==> #[trigger] used@[k],
                },
            decreases n - i,
        {
            if !used[i] {
                match best {
                    None => {
                        best = Some(i);
                    },
                    Some(b) => {
                        let (ki, _) = p.entry(i);
                        let (kb, _) = p.entry(b);
                        if key_less(ki, kb) {
                            proof {
                                assert forall|k: int| 0 <= k < i + 1 && !used@[k] && k != i implies key_lt(ps[i as int].0, #[trigger] ps[k].0) by {
                                    if k != b {
                                        lemma_lex_trans(encode_utf8(ps[i as int].0), encode_utf8(ps[b as int].0), encode_utf8(ps[k].0));
                                    }
                                }
                            }
                            best = Some(i);
                        } else {
                            proof {
                                assert(ps[i as int].0 != ps[b as int].0);
                                lemma_key_total(ps[i as int].0, ps[b as int].0);
                            }
                        }
                    },
                }
            }
            i = i + 1;
        }
        match best {
            None => {
                proof {
                    assert forall|k: int| 0 <= k < n implies #[trigger] listed(order@, k) by {
                        assert(used@[k]);
                    }
                    lemma_count_false_all(used@);
                }
                break;
            },
            Some(b) => {
                let ghost used0 = used@;
                let ghost order0 = order@;
                order.push(b);
                used.set(b, true);
                proof {
                    lemma_count_false_update(used0, b as int);
                    assert forall|i2: int| 0 <= i2 < n && #[trigger] used@[i2] implies listed(order@, i2) by {
                        if i2 == b as int {
                            assert(order@[order0.len() as int] == i2);
                        } else {
                            assert(used0[i2]);
                            let j = choose|j: int| 0 <= j < order0.len() && order0[j] == i2;
                            assert(order@[j] == i2);
                        }
                    }
                    assert forall|a: int, c: int| 0 <= a < c < order@.len() implies key_lt(#[trigger] ps[order@[a] as int].0, #[trigger] ps[order@[c] as int].0) by {
                        if c == order0.len() {
                            assert(!used0[b as int]);
                        }
                    }
                    assert forall|j: int, i2: int| 0 <= j < order@.len() && 0 <= i2 < n && !used@[i2] implies key_lt(#[trigger] ps[order@[j] as int].0, #[trigger] ps[i2].0) by {
                        if j == order0.len() {
                            assert(ps[i2].0 != ps[b as int].0);
                        }
                    }
                }
            },
        }
    }
    order
}

/// Bytes of one entry: the key (length and UTF-8 bytes), then the value.
pub open spec fn entry_bytes(e: (Seq<char>, PropertyValueView)) -> Seq<u8> {
    string_bytes(e.0) + value_bytes(e.1)
}

/// Bytes of entries, one after the other.
pub open spec fn entries_bytes(q: Seq<(Seq<char>, PropertyValueView)>) -> Seq<u8>
    decreases q.len(),
{
    if q.len() == 0 {
        seq![]
    } else {
        entries_bytes(q.drop_last()) + entry_bytes(q.last())
    }
}

/// Entries by strictly increasing key.
pub open spec fn sorted_by_key(q: Seq<(Seq<char>, PropertyValueView)>) -> bool {
    forall|a: int, b: int| 0 <= a < b < q.len() ==> key_lt(#[trigger] q[a].0, #[trigger] q[b].0)
}

/// `q` holds the entries of `s`, each once, by increasing key.
pub open spec fn arranges(q: Seq<(Seq<char>, PropertyValueView)>, s: Seq<(Seq<char>, PropertyValueView)>) -> bool {
    &&& q.len() == s.len()
    &&& sorted_by_key(q)
    &&& forall|j: int| 0 <= j < q.len() ==> #[trigger] occurs_in(q[j], s)
    &&& forall|i: int| 0 <= i < s.len() ==> #[trigger] occurs_in(s[i], q)
}

/// Whether `e` is an entry of `s`.
pub open spec fn occurs_in(e: (Seq<char>, PropertyValueView), s: Seq<(Seq<char>, PropertyValueView)>) -> bool {
    exists|i: int| 0 <= i < s.len() && s[i] == e
}

pub(crate) proof fn lemma_arranges(order: Seq<usize>, q: Seq<(Seq<char>, PropertyValueView)>, ps: Seq<(Seq<char>, PropertyValueView)>)
    requires
        order.len() == ps.len(),
        q.len() == order.len(),
        forall|k: int| 0 <= k < q.len() ==> #[trigger] q[k] == ps[order[k] as int],
        forall|j: int| 0 <= j < order.len() ==> (#[trigger] order[j] as int) < ps.len(),
        forall|i: int| 0 <= i < ps.len() ==> #[trigger] listed(order, i),
        forall|a: int, b: int| 0 <= a < b < order.len() ==> key_lt(#[trigger] ps[order[a] as int].0, #[trigger] ps[order[b] as int].0),
    ensures
        arranges(q, ps),
{
    assert forall|a: int, b: int| 0 <= a < b < q.len() implies key_lt(#[trigger] q[a].0, #[trigger] q[b].0) by {
        assert(q[a] == ps[order[a] as int]);
        assert(q[b] == ps[order[b] as int]);
    }
    assert forall|jj: int| 0 <= jj < q.len() implies #[trigger] occurs_in(q[jj], ps) by {
        assert(q[jj] == ps[order[jj] as int]);
    }
    assert forall|i: int| 0 <= i < ps.len() implies #[trigger] occurs_in(ps[i], q) by {
        assert(listed(order, i));
        let jj = choose|jj: int| 0 <= jj < order.len() && order[jj] == i;
        assert(q[jj] == ps[i]);
    }
    assert(sorted_by_key(q));
}

/// `b` encodes the entries `s`: their number (`u32`), then each entry by
/// increasing key.
pub open spec fn encoded_as(s: Seq<(Seq<char>, PropertyValueView)>, b: Seq<u8>) -> bool {
    exists|q: Seq<(Seq<char>, PropertyValueView)>| #[trigger] arranges(q, s) && b == be32(s.len() as u32) + entries_bytes(q)
}

/// Encodes a property map: the number of entries (`u32`), then each entry
/// by increasing key. Entries with equal maps get equal bytes.
#[verifier::rlimit(40)]
pub fn encode_properties(props: &Properties) -> (r: Vec<u8>)
    requires
        props.wf(),
    ensures
        encoded_as(props@, r@),
{
    let ghost ps = props@;
    let order = key_order(props);
    let mut buf: Vec<u8> = Vec::new();
    write_u32(&mut buf, props.len() as u32);
    let ghost head = buf@;
    let ghost mut qs: Seq<(Seq<char>, PropertyValueView)> = Seq::empty();
    let mut j: usize = 0;
    while j < order.len()
        invariant
            ps == props@,
            props.wf(),
            j <= order@.len(),
            forall|k: int| 0 <= k < order@.len() ==> (#[trigger] order@[k] as int) < ps.len(),
            qs.len() == j,
            forall|k: int| 0 <= k < j ==> #[trigger] qs[k] == ps[order@[k] as int],
            buf@ == head + entries_bytes(qs),
        decreases order@.len() - j,
    {
        let (k, v) = props.entry(order[j]);
        write_string(&mut buf, k.as_str());
        write_property_value(&mut buf, v);
        proof {
            let e = ps[order@[j as int] as int];
            assert(qs.push(e).drop_last() =~= qs);
            qs = qs.push(e);
            assert(buf@ =~= head + entries_bytes(qs));
        }
        j = j + 1;
    }
    proof {
        lemma_arranges(order@, qs, ps);
    }
    buf
}

/// One step of decoding at `i`: `None` to stop (bytes missing or not
/// UTF-8); otherwise the entry read (`None` for an unknown value type,
/// whose entry is skipped after its type byte) and where the next starts.
pub open spec fn decode_step(s: Seq<u8>, i: int) -> Option<(Option<(Seq<char>, PropertyValueView)>, int)> {
    match string_at(s, i) {
        Err(_) => None,
        Ok((k, e)) => if e >= s.len() {
            None
        } else if s[e] > 4 {
            Some((None, e + 1))
        } else {
            match value_at(s, e) {
                Ok((v, e2)) => Some((Some((k, v)), e2)),
                Err(_) => None,
            }
        },
    }
}

/// The map obtained by decoding up to `k` entries from `i` into `m`, a
/// later entry replacing an earlier one with the same key.
pub open spec fn decode_from(s: Seq<u8>, i: int, k: nat, m: Map<Seq<char>, PropertyValueView>) -> Map<Seq<char>, PropertyValueView>
    decreases k,
{
    if k == 0 {
        m
    } else {
        match decode_step(s, i) {
            None => m,
            Some((None, e)) => decode_from(s, e, (k - 1) as nat, m),
            Some((Some((key, v)), e)) => decode_from(s, e, (k - 1) as nat, m.insert(key, v)),
        }
    }
}

/// The property map that decoding `s` gives: as many entries as the
/// leading count says, or fewer when the bytes stop making sense (what was
/// read up to there is kept).
pub open spec fn decoded_properties(s: Seq<u8>) -> Map<Seq<char>, PropertyValueView> {
    if s.len() < 4 {
        Map::empty()
    } else {
        decode_from(s, 4, be32_at(s, 0) as nat, Map::empty())
    }
}

/// Decodes a property map written by [`encode_properties`]; see
/// [`decoded_properties`] for bytes that were not.
pub fn decode_properties(buf: &[u8]) -> (r: Properties)
    ensures
        r.wf(),
        r.map() == decoded_properties(buf@),
{
    let ghost s = buf@;
    let mut pos: usize = 0;
    let mut props = Properties::new();
    proof {
        assert(props.map() =~= Map::<Seq<char>, PropertyValueView>::empty());
    }
    let n = match read_u32(buf, &mut pos) {
        Ok(n) => n,
        Err(_) => return props,
    };
    let mut t: u32 = 0;
    while t < n
        invariant
            s == buf@,
            props.wf(),
            t <= n,
            4 <= s.len(),
            n == be32_at(s, 0),
            decoded_properties(s) == decode_from(s, pos as int, (n - t) as nat, props.map()),
        decreases n - t,
    {
        let ghost p0 = pos as int;
        let ghost m0 = props.map();
        let key = match read_string(buf, &mut pos) {
            Ok(k) => k,
            Err(_) => {
                return props;
            },
        };
        if pos >= buf.len() {
            return props;
        }
        if buf[pos] > 4 {
            pos = pos + 1;
            t = t + 1;
            proof {
                assert(decode_step(s, p0) == Some::<(Option<(Seq<char>, PropertyValueView)>, int)>((None, pos as int)));
            }
            continue;
        }
        let value = match read_property_value(buf, &mut pos) {
            Ok(v) => v,
            Err(_) => {
                return props;
            },
        };
        let ghost kv = key@;
        let ghost vv = value@;
        props.insert(key, value);
        t = t + 1;
        proof {
            assert(decode_step(s, p0) == Some::<(Option<(Seq<char>, PropertyValueView)>, int)>((Some((kv, vv)), pos as int)));
        }
    }
    props
}

/// The entries' byte lengths fit the `u32` length prefixes.
pub open spec fn lengths_fit(s: Seq<(Seq<char>, PropertyValueView)>) -> bool {
    forall|i: int| 0 <= i < s.len() ==> {
        &&& encode_utf8(#[trigger] s[i].0).len() <= 0xffff_ffff
        &&& s[i].1 matches PropertyValueView::String(c) ==> encode_utf8(c).len() <= 0xffff_ffff
    }
}

/// Inserting entries one after the other, from the first.
pub open spec fn insert_all(m: Map<Seq<char>, PropertyValueView>, q: Seq<(Seq<char>, PropertyValueView)>) -> Map<Seq<char>, PropertyValueView>
    decreases q.len(),
{
    if q.len() == 0 {
        m
    } else {
        insert_all(m.insert(q[0].0, q[0].1), q.drop_first())
    }
}

pub proof fn lemma_entries_front(q: Seq<(Seq<char>, PropertyValueView)>)
    requires
        q.len() > 0,
    ensures
        entries_bytes(q) == entry_bytes(q[0]) + entries_bytes(q.drop_first()),
    decreases q.len(),
{
    if q.len() > 1 {
        lemma_entries_front(q.drop_last());
        assert(q.drop_last().drop_first() =~= q.drop_first().drop_last());
        assert(q.drop_first().last() == q.last());
        assert(entries_bytes(q.drop_first()) == entries_bytes(q.drop_first().drop_last()) + entry_bytes(q.drop_first().last()));
    } else {
        assert(q.drop_last() =~= Seq::<(Seq<char>, PropertyValueView)>::empty());
        assert(q.drop_first() =~= Seq::<(Seq<char>, PropertyValueView)>::empty());
    }
}

proof fn lemma_decode_entries(pre: Seq<u8>, q: Seq<(Seq<char>, PropertyValueView)>, m: Map<Seq<char>, PropertyValueView>)
    requires
        lengths_fit(q),
    ensures
        decode_from(pre + entries_bytes(q), pre.len() as int, q.len(), m) == insert_all(m, q),
    decreases q.len(),
{
    if q.len() > 0 {
        let k = q[0].0;
        let v = q[0].1;
        let rest = q.drop_first();
        lemma_entries_front(q);
        let s = pre + entries_bytes(q);
        let sb = string_bytes(k);
        let vb = value_bytes(v);
        assert(lengths_fit(rest)) by {
            assert forall|i: int| 0 <= i < rest.len() implies {
                &&& encode_utf8(#[trigger] rest[i].0).len() <= 0xffff_ffff
                &&& rest[i].1 matches PropertyValueView::String(c) ==> encode_utf8(c).len() <= 0xffff_ffff
            } by {
                assert(rest[i] == q[i + 1]);
            }
        }
        assert(encode_utf8(q[0].0).len() <= 0xffff_ffff);
        assert(s =~= pre + sb + (vb + entries_bytes(rest)));
        lemma_string_roundtrip(pre, k, vb + entries_bytes(rest));
        let e = (pre.len() + sb.len()) as int;
        assert(s =~= (pre + sb) + vb + entries_bytes(rest));
        lemma_value_roundtrip(pre + sb, v, entries_bytes(rest));
        assert(s[e] == vb[0]);
        let pre2 = pre + entry_bytes(q[0]);
        assert(s =~= pre2 + entries_bytes(rest));
        assert(decode_step(s, pre.len() as int) == Some::<(Option<(Seq<char>, PropertyValueView)>, int)>((Some((k, v)), pre2.len() as int)));
        lemma_decode_entries(pre2, rest, m.insert(k, v));
    }
}

pub proof fn lemma_insert_all_map(m: Map<Seq<char>, PropertyValueView>, q: Seq<(Seq<char>, PropertyValueView)>)
    requires
        keys_distinct(q),
    ensures
        insert_all(m, q) == m.union_prefer_right(as_map(q)),
    decreases q.len(),
{
    if q.len() == 0 {
        assert(as_map(q) =~= Map::<Seq<char>, PropertyValueView>::empty());
        assert(m.union_prefer_right(as_map(q)) =~= m);
    } else {
        let rest = q.drop_first();
        let k = q[0].0;
        assert(keys_distinct(rest)) by {
            assert forall|a: int, b: int| 0 <= a < b < rest.len() implies #[trigger] rest[a].0 != #[trigger] rest[b].0 by {
                assert(q[a + 1].0 != q[b + 1].0);
            }
        }
        lemma_insert_all_map(m.insert(k, q[0].1), rest);
        lemma_key_index_unique(q, k, 0);
        assert forall|key: Seq<char>| #[trigger] as_map(q).dom().contains(key) <==> (key == k || as_map(rest).dom().contains(key)) by {
            if as_map(q).dom().contains(key) && key != k {
                let j = choose|j: int| 0 <= j < q.len() && #[trigger] q[j].0 == key;
                assert(rest[j - 1].0 == key);
            }
            if as_map(rest).dom().contains(key) {
                let j = choose|j: int| 0 <= j < rest.len() && #[trigger] rest[j].0 == key;
                assert(q[j + 1].0 == key);
            }
        }
        assert forall|key: Seq<char>| key != k && #[trigger] as_map(rest).dom().contains(key) implies as_map(q)[key] == as_map(rest)[key] by {
            let j = choose|j: int| 0 <= j < rest.len() && #[trigger] rest[j].0 == key;
            assert(q[j + 1] == rest[j]);
            lemma_key_index_unique(rest, key, j);
            lemma_key_index_unique(q, key, j + 1);
        }
        assert(!as_map(rest).dom().contains(k)) by {
            if as_map(rest).dom().contains(k) {
                let j = choose|j: int| 0 <= j < rest.len() && #[trigger] rest[j].0 == k;
                assert(q[j + 1].0 == k);
                assert(q[0].0 != q[j + 1].0);
            }
        }
        assert(m.insert(k, q[0].1).union_prefer_right(as_map(rest)) =~= m.union_prefer_right(as_map(q)));
    }
}

pub proof fn lemma_arranged_map(q: Seq<(Seq<char>, PropertyValueView)>, s: Seq<(Seq<char>, PropertyValueView)>)
    requires
        arranges(q, s),
        keys_distinct(s),
    ensures
        keys_distinct(q),
        as_map(q) == as_map(s),
        lengths_fit(s) ==> lengths_fit(q),
{
    assert forall|a: int, b: int| 0 <= a < b < q.len() implies #[trigger] q[a].0 != #[trigger] q[b].0 by {
        lemma_key_total(q[a].0, q[b].0);
    }
    assert forall|key: Seq<char>| #[trigger] as_map(q).dom().contains(key) <==> as_map(s).dom().contains(key) by {
        if as_map(q).dom().contains(key) {
            let j = choose|j: int| 0 <= j < q.len() && #[trigger] q[j].0 == key;
            assert(occurs_in(q[j], s));
            let i = choose|i: int| 0 <= i < s.len() && s[i] == q[j];
            assert(s[i].0 == key);
        }
        if as_map(s).dom().contains(key) {
            let i = choose|i: int| 0 <= i < s.len() && #[trigger] s[i].0 == key;
            assert(occurs_in(s[i], q));
            let j = choose|j: int| 0 <= j < q.len() && q[j] == s[i];
            assert(q[j].0 == key);
        }
    }
    assert forall|key: Seq<char>| #[trigger] as_map(q).dom().contains(key) implies as_map(q)[key] == as_map(s)[key] by {
        let j = choose|j: int| 0 <= j < q.len() && #[trigger] q[j].0 == key;
        assert(occurs_in(q[j], s));
        let i = choose|i: int| 0 <= i < s.len() && s[i] == q[j];
        lemma_key_index_unique(q, key, j);
        lemma_key_index_unique(s, key, i);
    }
    assert(as_map(q) =~= as_map(s));
    if lengths_fit(s) {
        assert forall|j: int| 0 <= j < q.len() implies {
            &&& encode_utf8(#[trigger] q[j].0).len() <= 0xffff_ffff
            &&& q[j].1 matches PropertyValueView::String(c) ==> encode_utf8(c).len() <= 0xffff_ffff
        } by {
            assert(occurs_in(q[j], s));
            let i = choose|i: int| 0 <= i < s.len() && s[i] == q[j];
            assert(encode_utf8(s[i].0).len() <= 0xffff_ffff);
        }
    }
}

/// Decoding what [`encode_properties`] wrote gives the property map back,
/// when it has fewer than 2^32 entries and every key and string value has
/// fewer than 2^32 UTF-8 bytes.
pub proof fn lemma_properties_roundtrip(s: Seq<(Seq<char>, PropertyValueView)>, bytes: Seq<u8>)
    requires
        keys_distinct(s),
        s.len() <= 0xffff_ffff,
        lengths_fit(s),
        encoded_as(s, bytes),
    ensures
        decoded_properties(bytes) == as_map(s),
{
    let q = choose|q: Seq<(Seq<char>, PropertyValueView)>| #[trigger] arranges(q, s) && bytes == be32(s.len() as u32) + entries_bytes(q);
    lemma_arranged_map(q, s);
    let e = Seq::<u8>::empty();
    assert(bytes =~= e + be32(s.len() as u32) + entries_bytes(q));
    crate::persistence::lemma_be32_roundtrip(e, s.len() as u32, entries_bytes(q));
    assert(be32_at(bytes, 0) as nat == q.len());
    lemma_decode_entries(be32(s.len() as u32), q, Map::empty());
    lemma_insert_all_map(Map::empty(), q);
    assert(Map::<Seq<char>, PropertyValueView>::empty().union_prefer_right(as_map(q)) =~= as_map(q));
}

/// `b` is the encoding of some property list without repeated keys, and
/// decodes back to that list's map when its sizes fit the format.
pub open spec fn encodes_some(b: Seq<u8>) -> bool {
    exists|s: Seq<(Seq<char>, PropertyValueView)>|
        keys_distinct(s) && #[trigger] encoded_as(s, b) && (s.len() <= 0xffff_ffff && lengths_fit(s) ==> decoded_properties(b)
            == as_map(s))
}

/// The encoding of a property list without repeated keys is such an
/// encoding.
pub proof fn lemma_encodes_some(s: Seq<(Seq<char>, PropertyValueView)>, b: Seq<u8>)
    requires
        keys_distinct(s),
        encoded_as(s, b),
    ensures
        encodes_some(b),
{
    if s.len() <= 0xffff_ffff && lengths_fit(s) {
        lemma_properties_roundtrip(s, b);
    }
}

/// Ids strictly increasing.
pub open spec fn strictly_sorted(ids: Seq<u64>) -> bool {
    forall|a: int, b: int| 0 <= a < b < ids.len() ==> #[trigger] ids[a] < #[trigger] ids[b]
}

/// Where `id` is, or where it would go, in strictly increasing `ids`:
/// `Ok(i)` with `ids[i] == id`, or `Err(i)` with the ids before `i` below
/// `id` and the others above it.
pub fn search_sorted(ids: &Vec<u64>, id: u64) -> (r: Result<usize, usize>)
    requires
        strictly_sorted(ids@),
    ensures
        match r {
            Ok(i) => i < ids@.len() && ids@[i as int] == id,
            Err(i) => i <= ids@.len() && (forall|a: int| 0 <= a < i ==> #[trigger] ids@[a] < id)
                && (forall|a: int| i <= a < ids@.len() ==> #[trigger] ids@[a] > id),
        },
{
    let mut lo: usize = 0;
    let mut hi: usize = ids.len();
    while lo < hi
        invariant
            strictly_sorted(ids@),
            lo <= hi <= ids@.len(),
            forall|a: int| 0 <= a < lo ==> #[trigger] ids@[a] < id,
            forall|a: int| hi <= a < ids@.len() ==> #[trigger] ids@[a] > id,
        decreases hi - lo,
    {
        let mid = lo + (hi - lo) / 2;
        let m = ids[mid];
        if m == id {
            return Ok(mid);
        } else if m < id {
            lo = mid + 1;
        } else {
            hi = mid;
        }
    }
    Err(lo)
}

/// Vertex store: ids kept strictly increasing, each with its encoded
/// property map (see [`encode_properties`]).
#[derive(Debug, Clone)]
pub struct CompactVertexStore {
    vertex_ids: Vec<u64>,
    vertex_data: Vec<Vec<u8>>,
}

/// The map from each id to its bytes.
pub open spec fn stored(ids: Seq<u64>, data: Seq<Seq<u8>>) -> Map<u64, Seq<u8>> {
    Map::new(
        |k: u64| exists|i: int| 0 <= i < ids.len() && ids[i] == k,
        |k: u64| data[choose|i: int| 0 <= i < ids.len() && ids[i] == k],
    )
}

impl CompactVertexStore {
    /// Ids in increasing order.
    pub closed spec fn ids(&self) -> Seq<u64> {
        self.vertex_ids@
    }

    /// Encoded properties of each id.
    pub closed spec fn raw(&self) -> Map<u64, Seq<u8>> {
        stored(self.vertex_ids@, self.vertex_data@.map_values(|d: Vec<u8>| d@))
    }

    /// Ids strictly increasing, one encoding per id, each the encoding of
    /// a property list without repeated keys.
    pub closed spec fn wf(&self) -> bool {
        &&& strictly_sorted(self.vertex_ids@)
        &&& self.vertex_ids@.len() == self.vertex_data@.len()
        &&& forall|i: int| 0 <= i < self.vertex_data@.len() ==> #[trigger] encodes_some(self.vertex_data@[i]@)
    }

    /// Every stored encoding is that of a property list without repeated
    /// keys, which decodes back to that list's map when its sizes fit the
    /// format.
    pub proof fn lemma_raw_encodings(&self)
        requires
            self.wf(),
        ensures
            forall|k: u64| #[trigger] self.raw().dom().contains(k) ==> encodes_some(self.raw()[k]),
    {
        assert forall|k: u64| #[trigger] self.raw().dom().contains(k) implies encodes_some(self.raw()[k]) by {
            let j = choose|j: int| 0 <= j < self.vertex_ids@.len() && self.vertex_ids@[j] == k;
            self.lemma_at(j);
        }
    }

    /// Every id has an entry in the map, and the map only those.
    pub proof fn lemma_ids_dom(&self)
        requires
            self.wf(),
        ensures
            forall|k: u64| self.raw().dom().contains(k) <==> #[trigger] self.ids().contains(k),
    {
        assert forall|k: u64| self.raw().dom().contains(k) <==> #[trigger] self.ids().contains(k) by {
            if self.ids().contains(k) {
                let i = choose|i: int| 0 <= i < self.vertex_ids@.len() && self.vertex_ids@[i] == k;
                assert(self.vertex_ids@[i] == k);
            }
        }
    }

    /// An empty store.
    pub fn new() -> (r: Self)
        ensures
            r.wf(),
            r.ids().len() == 0,
            r.raw() == Map::<u64, Seq<u8>>::empty(),
    {
        let r = CompactVertexStore { vertex_ids: Vec::new(), vertex_data: Vec::new() };
        proof {
            assert(r.raw() =~= Map::<u64, Seq<u8>>::empty());
        }
        r
    }

    proof fn lemma_at(&self, i: int)
        requires
            self.wf(),
            0 <= i < self.vertex_ids@.len(),
        ensures
            self.raw().dom().contains(self.vertex_ids@[i]),
            self.raw()[self.vertex_ids@[i]] == self.vertex_data@[i]@,
    {
        let k = self.vertex_ids@[i];
        let j = choose|j: int| 0 <= j < self.vertex_ids@.len() && self.vertex_ids@[j] == k;
        assert(self.vertex_ids@[j] == k);
        if j < i {
            assert(self.vertex_ids@[j] < self.vertex_ids@[i]);
        } else if j > i {
            assert(self.vertex_ids@[i] < self.vertex_ids@[j]);
        }
    }

    /// Stores `properties` (encoded) under `id`, replacing what was there;
    /// a new id takes its place in increasing order.
    pub fn insert(&mut self, id: u64, properties: &Properties)
        requires
            old(self).wf(),
            properties.wf(),
        ensures
            final(self).wf(),
            final(self).raw().dom() == old(self).raw().dom().insert(id),
            forall|k: u64| k != id && old(self).raw().dom().contains(k) ==> #[trigger] final(self).raw()[k] == old(self).raw()[k],
            encoded_as(properties@, final(self).raw()[id]),
            final(self).ids().to_set() == old(self).ids().to_set().insert(id),
    {
        let encoded = encode_properties(properties);
        let ghost enc = encoded@;
        proof {
            lemma_encodes_some(properties@, enc);
        }
        let ghost ids0 = self.vertex_ids@;
        let ghost data0 = self.vertex_data@.map_values(|d: Vec<u8>| d@);
        let ghost raw0 = self.raw();
        match search_sorted(&self.vertex_ids, id) {
            Ok(idx) => {
                let ghost vd0 = self.vertex_data@;
                self.vertex_data.set(idx, encoded);
                proof {
                    let data1 = self.vertex_data@.map_values(|d: Vec<u8>| d@);
                    assert(data1 =~= data0.update(idx as int, enc));
                    assert forall|i: int| 0 <= i < self.vertex_data@.len() implies #[trigger] encodes_some(self.vertex_data@[i]@) by {
                        if i != idx {
                            assert(self.vertex_data@[i] == vd0[i]);
                        }
                    }
                    self.lemma_at(idx as int);
                    assert forall|k: u64| #[trigger] self.raw().dom().contains(k) <==> raw0.dom().insert(id).contains(k) by {}
                    assert forall|k: u64| k != id && raw0.dom().contains(k) implies #[trigger] self.raw()[k] == raw0[k] by {
                        let j = choose|j: int| 0 <= j < ids0.len() && ids0[j] == k;
                        self.lemma_at(j);
                        assert(self.vertex_data@[j]@ == data0[j]);
                        lemma_stored_at(ids0, data0, j);
                    }
                    assert(self.raw().dom() =~= raw0.dom().insert(id));
                    assert(self.ids().to_set() =~= ids0.to_set().insert(id));
                }
            },
            Err(idx) => {
                let ghost vd0 = self.vertex_data@;
                self.vertex_ids.insert(idx, id);
                self.vertex_data.insert(idx, encoded);
                proof {
                    assert forall|i: int| 0 <= i < self.vertex_data@.len() implies #[trigger] encodes_some(self.vertex_data@[i]@) by {
                        if i < idx {
                            assert(self.vertex_data@[i] == vd0[i]);
                        } else if i > idx {
                            assert(self.vertex_data@[i] == vd0[i - 1]);
                        }
                    }
                    let ids1 = self.vertex_ids@;
                    let data1 = self.vertex_data@.map_values(|d: Vec<u8>| d@);
                    assert(ids1 =~= ids0.insert(idx as int, id));
                    assert(data1 =~= data0.insert(idx as int, enc));
                    assert forall|a: int, b: int| 0 <= a < b < ids1.len() implies #[trigger] ids1[a] < #[trigger] ids1[b] by {
                        if a < idx && b > idx {
                            assert(ids1[a] == ids0[a]);
                            assert(ids1[b] == ids0[b - 1]);
                        } else if a < idx && b < idx {
                        } else if a > idx {
                            assert(ids1[a] == ids0[a - 1]);
                            assert(ids1[b] == ids0[b - 1]);
                        }
                    }
                    self.lemma_at(idx as int);
                    assert forall|k: u64| #[trigger] self.raw().dom().contains(k) <==> raw0.dom().insert(id).contains(k) by {
                        if raw0.dom().contains(k) {
                            let j = choose|j: int| 0 <= j < ids0.len() && ids0[j] == k;
                            if j < idx {
                                assert(ids1[j] == k);
                            } else {
                                assert(ids1[j + 1] == k);
                            }
                        }
                        if self.raw().dom().contains(k) && k != id {
                            let j = choose|j: int| 0 <= j < ids1.len() && ids1[j] == k;
                            if j < idx {
                                assert(ids0[j] == k);
                            } else {
                                assert(ids0[j - 1] == k);
                            }
                        }
                    }
                    assert forall|k: u64| k != id && raw0.dom().contains(k) implies #[trigger] self.raw()[k] == raw0[k] by {
                        let j = choose|j: int| 0 <= j < ids0.len() && ids0[j] == k;
                        lemma_stored_at(ids0, data0, j);
                        if j < idx {
                            self.lemma_at(j);
                        } else {
                            self.lemma_at(j + 1);
                        }
                    }
                    assert(self.raw().dom() =~= raw0.dom().insert(id));
                    assert(self.ids().to_set() =~= ids0.to_set().insert(id)) by {
                        assert forall|k: u64| #[trigger] ids1.contains(k) <==> ids0.to_set().insert(id).contains(k) by {
                            if ids1.contains(k) && k != id {
                                let j = choose|j: int| 0 <= j < ids1.len() && ids1[j] == k;
                                if j < idx {
                                    assert(ids0[j] == k);
                                } else {
                                    assert(ids0[j - 1] == k);
                                }
                            }
                            if ids0.contains(k) {
                                let j = choose|j: int| 0 <= j < ids0.len() && ids0[j] == k;
                                if j < idx {
                                    assert(ids1[j] == k);
                                } else {
                                    assert(ids1[j + 1] == k);
                                }
                            }
                        }
                    }
                }
            },
        }
    }
}

impl CompactVertexStore {
    /// Removes `id`, returning its decoded properties.
    pub fn remove(&mut self, id: u64) -> (r: Option<Properties>)
        requires
            old(self).wf(),
        ensures
            final(self).wf(),
            final(self).raw() == old(self).raw().remove(id),
            final(self).ids().to_set() == old(self).ids().to_set().remove(id),
            match r {
                Some(p) => old(self).raw().dom().contains(id) && p.wf() && p.map() == decoded_properties(old(self).raw()[id]),
                None => !old(self).raw().dom().contains(id),
            },
    {
        let ghost ids0 = self.vertex_ids@;
        let ghost data0 = self.vertex_data@.map_values(|d: Vec<u8>| d@);
        let ghost raw0 = self.raw();
        match search_sorted(&self.vertex_ids, id) {
            Ok(idx) => {
                proof {
                    lemma_stored_at(ids0, data0, idx as int);
                }
                let ghost vd0 = self.vertex_data@;
                self.vertex_ids.remove(idx);
                let data = self.vertex_data.remove(idx);
                proof {
                    assert forall|i: int| 0 <= i < self.vertex_data@.len() implies #[trigger] encodes_some(self.vertex_data@[i]@) by {
                        if i < idx {
                            assert(self.vertex_data@[i] == vd0[i]);
                        } else {
                            assert(self.vertex_data@[i] == vd0[i + 1]);
                        }
                    }
                    let ids1 = self.vertex_ids@;
                    let data1 = self.vertex_data@.map_values(|d: Vec<u8>| d@);
                    assert(ids1 =~= ids0.remove(idx as int));
                    assert(data1 =~= data0.remove(idx as int));
                    assert forall|a: int, b: int| 0 <= a < b < ids1.len() implies #[trigger] ids1[a] < #[trigger] ids1[b] by {
                        if a < idx && b >= idx {
                            assert(ids1[b] == ids0[b + 1]);
                        } else if a >= idx {
                            assert(ids1[a] == ids0[a + 1]);
                            assert(ids1[b] == ids0[b + 1]);
                        }
                    }
                    assert forall|k: u64| #[trigger] self.raw().dom().contains(k) <==> raw0.remove(id).dom().contains(k) by {
                        if raw0.dom().contains(k) && k != id {
                            let j = choose|j: int| 0 <= j < ids0.len() && ids0[j] == k;
                            if j < idx {
                                assert(ids1[j] == k);
                            } else {
                                assert(j != idx);
                                assert(ids1[j - 1] == k);
                            }
                        }
                        if self.raw().dom().contains(k) {
                            let j = choose|j: int| 0 <= j < ids1.len() && ids1[j] == k;
                            if j < idx {
                                assert(ids0[j] == k);
                                assert(ids0[j] < ids0[idx as int]);
                            } else {
                                assert(ids0[j + 1] == k);
                                assert(ids0[idx as int] < ids0[j + 1]);
                            }
                        }
                    }
                    assert forall|k: u64| #[trigger] self.raw().dom().contains(k) implies self.raw()[k] == raw0.remove(id)[k] by {
                        let j = choose|j: int| 0 <= j < ids1.len() && ids1[j] == k;
                        lemma_stored_at(ids1, data1, j);
                        if j < idx {
                            lemma_stored_at(ids0, data0, j);
                        } else {
                            lemma_stored_at(ids0, data0, j + 1);
                        }
                    }
                    assert(self.raw() =~= raw0.remove(id));
                    assert(self.ids().to_set() =~= ids0.to_set().remove(id)) by {
                        assert forall|k: u64| #[trigger] ids1.contains(k) <==> ids0.to_set().remove(id).contains(k) by {
                            if ids1.contains(k) {
                                let j = choose|j: int| 0 <= j < ids1.len() && ids1[j] == k;
                                if j < idx {
                                    assert(ids0[j] == k);
                                    assert(ids0[j] < ids0[idx as int]);
                                } else {
                                    assert(ids0[j + 1] == k);
                                    assert(ids0[idx as int] < ids0[j + 1]);
                                }
                            }
                            if ids0.contains(k) && k != id {
                                let j = choose|j: int| 0 <= j < ids0.len() && ids0[j] == k;
                                if j < idx {
                                    assert(ids1[j] == k);
                                } else {
                                    assert(j != idx);
                                    assert(ids1[j - 1] == k);
                                }
                            }
                        }
                    }
                }
                Some(decode_properties(data.as_slice()))
            },
            Err(_) => {
                proof {
                    assert(!raw0.dom().contains(id));
                    assert(self.raw() =~= raw0.remove(id));
                    assert(self.ids().to_set() =~= ids0.to_set().remove(id));
                }
                None
            },
        }
    }

    /// The decoded properties of `id`.
    pub fn get(&self, id: u64) -> (r: Option<Properties>)
        requires
            self.wf(),
        ensures
            match r {
                Some(p) => self.raw().dom().contains(id) && p.wf() && p.map() == decoded_properties(self.raw()[id]),
                None => !self.raw().dom().contains(id),
            },
    {
        match search_sorted(&self.vertex_ids, id) {
            Ok(idx) => {
                proof {
                    self.lemma_at(idx as int);
                }
                Some(decode_properties(self.vertex_data[idx].as_slice()))
            },
            Err(_) => None,
        }
    }

    /// The encoded properties of `id`, as stored.
    pub fn get_raw(&self, id: u64) -> (r: Option<&[u8]>)
        requires
            self.wf(),
        ensures
            match r {
                Some(b) => self.raw().dom().contains(id) && b@ == self.raw()[id] && encodes_some(b@),
                None => !self.raw().dom().contains(id),
            },
    {
        proof {
            self.lemma_raw_encodings();
        }
        match search_sorted(&self.vertex_ids, id) {
            Ok(idx) => {
                proof {
                    self.lemma_at(idx as int);
                }
                Some(self.vertex_data[idx].as_slice())
            },
            Err(_) => None,
        }
    }

    /// Whether `id` is stored.
    pub fn contains_key(&self, id: u64) -> (r: bool)
        requires
            self.wf(),
        ensures
            r == self.raw().dom().contains(id),
    {
        match search_sorted(&self.vertex_ids, id) {
            Ok(idx) => {
                proof {
                    self.lemma_at(idx as int);
                }
                true
            },
            Err(_) => false,
        }
    }

    /// Number of ids.
    pub fn len(&self) -> (n: usize)
        ensures
            n == self.ids().len(),
    {
        self.vertex_ids.len()
    }

    /// Whether no id is stored.
    pub fn is_empty(&self) -> (b: bool)
        ensures
            b == (self.ids().len() == 0),
    {
        self.vertex_ids.len() == 0
    }

    /// The ids, in increasing order.
    pub fn keys(&self) -> (r: Vec<u64>)
        requires
            self.wf(),
        ensures
            r@ == self.ids(),
            strictly_sorted(r@),
    {
        self.vertex_ids.clone()
    }

    /// Removes everything.
    pub fn clear(&mut self)
        ensures
            final(self).wf(),
            final(self).ids().len() == 0,
            final(self).raw() == Map::<u64, Seq<u8>>::empty(),
    {
        self.vertex_ids.clear();
        self.vertex_data.clear();
        proof {
            assert(self.raw() =~= Map::<u64, Seq<u8>>::empty());
        }
    }

    /// Every id with its decoded properties, by increasing id.
    pub fn iter(&self) -> (r: Vec<(u64, Properties)>)
        requires
            self.wf(),
        ensures
            r@.len() == self.ids().len(),
            forall|i: int| 0 <= i < r@.len() ==> (#[trigger] r@[i]).0 == self.ids()[i] && r@[i].1.wf()
                && r@[i].1.map() == decoded_properties(self.raw()[self.ids()[i]]),
    {
        let mut out: Vec<(u64, Properties)> = Vec::new();
        let mut i: usize = 0;
        while i < self.vertex_ids.len()
            invariant
                self.wf(),
                i <= self.vertex_ids@.len(),
                out@.len() == i,
                forall|j: int| 0 <= j < i ==> (#[trigger] out@[j]).0 == self.ids()[j] && out@[j].1.wf()
                    && out@[j].1.map() == decoded_properties(self.raw()[self.ids()[j]]),
            decreases self.vertex_ids@.len() - i,
        {
            proof {
                self.lemma_at(i as int);
            }
            let p = decode_properties(self.vertex_data[i].as_slice());
            out.push((self.vertex_ids[i], p));
            i = i + 1;
        }
        out
    }

    /// A store holding the given vertices (each id with its properties);
    /// for an id given twice the last wins.
    pub fn from_hashmap(items: &Vec<(u64, Properties)>) -> (r: Self)
        requires
            forall|i: int| 0 <= i < items@.len() ==> (#[trigger] items@[i]).1.wf(),
        ensures
            r.wf(),
            forall|k: u64| #[trigger] r.raw().dom().contains(k) <==> exists|i: int| 0 <= i < items@.len() && items@[i].0 == k,
            forall|i: int| 0 <= i < items@.len() && (forall|j: int| i < j < items@.len() ==> items@[j].0 != items@[i].0)
                ==> encoded_as(#[trigger] items@[i].1@, r.raw()[items@[i].0]),
    {
        let mut store = CompactVertexStore::new();
        let mut i: usize = 0;
        while i < items.len()
            invariant
                store.wf(),
                i <= items@.len(),
                forall|j: int| 0 <= j < items@.len() ==> (#[trigger] items@[j]).1.wf(),
                forall|k: u64| #[trigger] store.raw().dom().contains(k) <==> exists|j: int| 0 <= j < i && items@[j].0 == k,
                forall|a: int| 0 <= a < i && (forall|j: int| a < j < i ==> items@[j].0 != items@[a].0)
                    ==> encoded_as(#[trigger] items@[a].1@, store.raw()[items@[a].0]),
            decreases items@.len() - i,
        {
            let ghost raw0 = store.raw();
            store.insert(items[i].0, &items[i].1);
            proof {
                assert forall|k: u64| #[trigger] store.raw().dom().contains(k) <==> exists|j: int| 0 <= j < i + 1 && items@[j].0 == k by {
                    if store.raw().dom().contains(k) && k != items@[i as int].0 {
                        assert(raw0.dom().contains(k));
                    }
                    if k == items@[i as int].0 {
                        assert(items@[i as int].0 == k);
                    } else if exists|j: int| 0 <= j < i + 1 && items@[j].0 == k {
                        let j = choose|j: int| 0 <= j < i + 1 && items@[j].0 == k;
                        assert(j < i);
                        assert(raw0.dom().contains(k));
                    }
                }
                assert forall|a: int| 0 <= a < i + 1 && (forall|j: int| a < j < i + 1 ==> items@[j].0 != items@[a].0)
                    implies encoded_as(#[trigger] items@[a].1@, store.raw()[items@[a].0]) by {
                    if a < i {
                        assert(items@[i as int].0 != items@[a].0);
                        assert(raw0.dom().contains(items@[a].0)) by {
                            assert(items@[a].0 == items@[a].0);
                        }
                    }
                }
            }
            i = i + 1;
        }
        store
    }

    /// Every id with its decoded properties, by increasing id.
    pub fn to_hashmap(&self) -> (r: Vec<(u64, Properties)>)
        requires
            self.wf(),
        ensures
            r@.len() == self.ids().len(),
            forall|i: int| 0 <= i < r@.len() ==> (#[trigger] r@[i]).0 == self.ids()[i] && r@[i].1.wf()
                && r@[i].1.map() == decoded_properties(self.raw()[self.ids()[i]]),
    {
        self.iter()
    }
}

/// With strictly increasing ids, position `i` holds the bytes of `ids[i]`.
pub proof fn lemma_stored_at(ids: Seq<u64>, data: Seq<Seq<u8>>, i: int)
    requires
        strictly_sorted(ids),
        0 <= i < ids.len(),
    ensures
        stored(ids, data).dom().contains(ids[i]),
        stored(ids, data)[ids[i]] == data[i],
{
    let k = ids[i];
    let j = choose|j: int| 0 <= j < ids.len() && ids[j] == k;
    assert(ids[j] == k);
    if j < i {
        assert(ids[j] < ids[i]);
    } else if j > i {
        assert(ids[i] < ids[j]);
    }
}

} // verus!
