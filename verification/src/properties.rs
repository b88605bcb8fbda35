//! Property maps: string keys to [`PropertyValue`]s, each key at most once.

use vstd::prelude::*;
use crate::{PropertyValue, PropertyValueView};

verus! {

/// A property map. Entries keep their insertion order; a key occurs at most
/// once.
#[derive(Debug, Clone)]
pub struct Properties {
    entries: Vec<(String, PropertyValue)>,
}

/// Key and value of an entry, as mathematical values.
pub open spec fn entry_view(e: (String, PropertyValue)) -> (Seq<char>, PropertyValueView) {
    (e.0@, e.1@)
}

impl View for Properties {
    type V = Seq<(Seq<char>, PropertyValueView)>;

    closed spec fn view(&self) -> Seq<(Seq<char>, PropertyValueView)> {
        self.entries@.map_values(|e: (String, PropertyValue)| entry_view(e))
    }
}

/// Keys of an entry list are pairwise distinct.
pub open spec fn keys_distinct(s: Seq<(Seq<char>, PropertyValueView)>) -> bool {
    forall|i: int, j: int| 0 <= i < j < s.len() ==> #[trigger] s[i].0 != #[trigger] s[j].0
}

/// Position of `key` in an entry list, if present.
pub open spec fn key_index(s: Seq<(Seq<char>, PropertyValueView)>, key: Seq<char>) -> Option<int> {
    if exists|i: int| 0 <= i < s.len() && #[trigger] s[i].0 == key {
        Some(choose|i: int| 0 <= i < s.len() && #[trigger] s[i].0 == key)
    } else {
        None
    }
}

/// The map an entry list stands for.
pub open spec fn as_map(s: Seq<(Seq<char>, PropertyValueView)>) -> Map<Seq<char>, PropertyValueView> {
    Map::new(
        |k: Seq<char>| exists|i: int| 0 <= i < s.len() && #[trigger] s[i].0 == k,
        |k: Seq<char>| s[key_index(s, k).unwrap()].1,
    )
}

impl Properties {
    /// Keys are distinct.
    pub open spec fn wf(&self) -> bool {
        keys_distinct(self@)
    }

    /// The property map as a mathematical map.
    pub open spec fn map(&self) -> Map<Seq<char>, PropertyValueView> {
        as_map(self@)
    }

    /// An empty map.
    pub fn new() -> (r: Properties)
        ensures
            r.wf(),
            r@ == Seq::<(Seq<char>, PropertyValueView)>::empty(),
    {
        let r = Properties { entries: Vec::new() };
        proof {
            assert(r@ =~= Seq::<(Seq<char>, PropertyValueView)>::empty());
        }
        r
    }

    /// Number of keys.
    pub fn len(&self) -> (n: usize)
        ensures
            n == self@.len(),
    {
        self.entries.len()
    }

    /// Whether there are no keys.
    pub fn is_empty(&self) -> (b: bool)
        ensures
            b == (self@.len() == 0),
    {
        self.entries.len() == 0
    }

    /// The `i`-th entry.
    pub fn entry(&self, i: usize) -> (e: (&String, &PropertyValue))
        requires
            i < self@.len(),
        ensures
            e.0@ == self@[i as int].0,
            e.1@ == self@[i as int].1,
    {
        let e = &self.entries[i];
        (&e.0, &e.1)
    }

    /// Position of `key`, if present.
    pub fn position(&self, key: &str) -> (r: Option<usize>)
        requires
            self.wf(),
        ensures
            match r {
                Some(i) => i < self@.len() && self@[i as int].0 == key@,
                None => forall|i: int| 0 <= i < self@.len() ==> #[trigger] self@[i].0 != key@,
            },
            r is Some <==> self.map().dom().contains(key@),
    {
        let mut i: usize = 0;
        while i < self.entries.len()
            invariant
                i <= self.entries@.len(),
                forall|j: int| 0 <= j < i ==> #[trigger] self@[j].0 != key@,
            decreases self.entries@.len() - i,
        {
            let k: &str = self.entries[i].0.as_str();
            if str_eq(k, key) {
                proof {
                    assert(self@[i as int].0 == key@);
                }
                return Some(i);
            }
            i = i + 1;
        }
        None
    }

    /// The value stored under `key`.
    pub fn get(&self, key: &str) -> (r: Option<&PropertyValue>)
        requires
            self.wf(),
        ensures
            match r {
                Some(v) => self.map().dom().contains(key@) && self.map()[key@] == v@,
                None => !self.map().dom().contains(key@),
            },
    {
        match self.position(key) {
            Some(i) => {
                proof {
                    lemma_key_index_unique(self@, key@, i as int);
                }
                Some(&self.entries[i].1)
            },
            None => None,
        }
    }

    /// Stores `value` under `key`, replacing an earlier value in place or
    /// adding the key at the end.
    pub fn insert(&mut self, key: String, value: PropertyValue)
        requires
            old(self).wf(),
        ensures
            final(self).wf(),
            final(self).map() == old(self).map().insert(key@, value@),
    {
        let ghost kv = key@;
        let ghost vv = value@;
        match self.position(key.as_str()) {
            Some(i) => {
                let ghost s0 = self@;
                self.entries.set(i, (key, value));
                proof {
                    assert(self@ =~= s0.update(i as int, (kv, vv)));
                    lemma_map_update(s0, i as int, kv, vv);
                }
            },
            None => {
                let ghost s0 = self@;
                self.entries.push((key, value));
                proof {
                    assert(self@ =~= s0.push((kv, vv)));
                    lemma_map_push(s0, kv, vv);
                }
            },
        }
    }

    /// A copy with the same entries.
    pub fn duplicate(&self) -> (r: Properties)
        ensures
            r@ == self@,
    {
        let mut entries: Vec<(String, PropertyValue)> = Vec::new();
        let mut i: usize = 0;
        while i < self.entries.len()
            invariant
                i <= self.entries@.len(),
                entries@.len() == i,
                forall|j: int| 0 <= j < i ==> #[trigger] entry_view(entries@[j]) == entry_view(self.entries@[j]),
            decreases self.entries@.len() - i,
        {
            let e = &self.entries[i];
            entries.push((e.0.clone(), e.1.duplicate()));
            i = i + 1;
        }
        let r = Properties { entries };
        proof {
            assert(r@ =~= self@);
        }
        r
    }
}

/// Content equality of two strings.
pub fn str_eq(a: &str, b: &str) -> (r: bool)
    ensures
        r == (a@ == b@),
{
    let ab = a.as_bytes();
    let bb = b.as_bytes();
    proof {
        vstd::utf8::encode_utf8_decode_utf8(a@);
        vstd::utf8::encode_utf8_decode_utf8(b@);
    }
    if ab.len() != bb.len() {
        proof {
            if a@ == b@ {
                assert(ab@ == bb@);
            }
        }
        return false;
    }
    let mut i: usize = 0;
    while i < ab.len()
        invariant
            ab@.len() == bb@.len(),
            a@ == b@ ==> ab@ == bb@,
            i <= ab@.len(),
            forall|j: int| 0 <= j < i ==> ab@[j] == bb@[j],
        decreases ab@.len() - i,
    {
        if ab[i] != bb[i] {
            return false;
        }
        i = i + 1;
    }
    proof {
        assert(ab@ =~= bb@);
    }
    true
}

pub proof fn lemma_key_index_unique(s: Seq<(Seq<char>, PropertyValueView)>, key: Seq<char>, i: int)
    requires
        keys_distinct(s),
        0 <= i < s.len(),
        s[i].0 == key,
    ensures
        key_index(s, key) == Some(i),
        as_map(s).dom().contains(key),
        as_map(s)[key] == s[i].1,
{
    let j = key_index(s, key).unwrap();
    assert(s[j].0 == key);
    if j != i {
        if j < i {
            assert(s[j].0 != s[i].0);
        } else {
            assert(s[i].0 != s[j].0);
        }
    }
}

proof fn lemma_map_update(
    s: Seq<(Seq<char>, PropertyValueView)>,
    i: int,
    k: Seq<char>,
    v: PropertyValueView,
)
    requires
        keys_distinct(s),
        0 <= i < s.len(),
        s[i].0 == k,
    ensures
        keys_distinct(s.update(i, (k, v))),
        as_map(s.update(i, (k, v))) == as_map(s).insert(k, v),
{
    let t = s.update(i, (k, v));
    assert forall|a: int, b: int| 0 <= a < b < t.len() implies #[trigger] t[a].0 != #[trigger] t[b].0 by {
        assert(s[a].0 != s[b].0);
    }
    lemma_key_index_unique(t, k, i);
    assert forall|key: Seq<char>| #[trigger] as_map(t).dom().contains(key) <==> as_map(s).insert(k, v).dom().contains(key) by {
        if as_map(t).dom().contains(key) {
            let j = choose|j: int| 0 <= j < t.len() && #[trigger] t[j].0 == key;
            if j != i {
                assert(s[j].0 == key);
            }
        }
        if as_map(s).dom().contains(key) {
            let j = choose|j: int| 0 <= j < s.len() && #[trigger] s[j].0 == key;
            assert(t[j].0 == key);
        }
    }
    assert forall|key: Seq<char>| #[trigger] as_map(t).dom().contains(key) implies as_map(t)[key] == as_map(s).insert(k, v)[key] by {
        if key != k {
            let j = choose|j: int| 0 <= j < t.len() && #[trigger] t[j].0 == key;
            assert(j != i);
            assert(s[j].0 == key);
            lemma_key_index_unique(t, key, j);
            lemma_key_index_unique(s, key, j);
        }
    }
    assert(as_map(t) =~= as_map(s).insert(k, v));
}

pub proof fn lemma_map_push(s: Seq<(Seq<char>, PropertyValueView)>, k: Seq<char>, v: PropertyValueView)
    requires
        keys_distinct(s),
        forall|i: int| 0 <= i < s.len() ==> #[trigger] s[i].0 != k,
    ensures
        keys_distinct(s.push((k, v))),
        as_map(s.push((k, v))) == as_map(s).insert(k, v),
{
    let t = s.push((k, v));
    assert forall|a: int, b: int| 0 <= a < b < t.len() implies #[trigger] t[a].0 != #[trigger] t[b].0 by {
        if b < s.len() {
            assert(s[a].0 != s[b].0);
        } else {
            assert(s[a].0 != k);
        }
    }
    lemma_key_index_unique(t, k, s.len() as int);
    assert forall|key: Seq<char>| #[trigger] as_map(t).dom().contains(key) <==> as_map(s).insert(k, v).dom().contains(key) by {
        if as_map(t).dom().contains(key) {
            let j = choose|j: int| 0 <= j < t.len() && #[trigger] t[j].0 == key;
            if j < s.len() {
                assert(s[j].0 == key);
            }
        }
        if as_map(s).dom().contains(key) {
            let j = choose|j: int| 0 <= j < s.len() && #[trigger] s[j].0 == key;
            assert(t[j].0 == key);
        }
    }
    assert forall|key: Seq<char>| #[trigger] as_map(t).dom().contains(key) implies as_map(t)[key] == as_map(s).insert(k, v)[key] by {
        if key != k {
            let j = choose|j: int| 0 <= j < t.len() && #[trigger] t[j].0 == key;
            assert(j < s.len());
            assert(s[j].0 == key);
            lemma_key_index_unique(t, key, j);
            lemma_key_index_unique(s, key, j);
        }
    }
    assert(as_map(t) =~= as_map(s).insert(k, v));
}

} // verus!
