//! Exact-match property indexes: for an indexed property key, which
//! vertices carry each value.

use vstd::prelude::*;
use crate::axol_format::PropMap;
use crate::persistent_graph::PersistentGraph;
use crate::properties::{str_eq, Properties};
use crate::{PropertyValue, PropertyValueView};

verus! {

// ── association lists ─────────────────────────

/// No key occurs twice.
pub open spec fn keys_unique<K, V>(s: Seq<(K, V)>) -> bool {
    forall|i: int, j: int| 0 <= i < j < s.len() ==> #[trigger] s[i].0 != #[trigger] s[j].0
}

/// Some entry has key `k`.
pub open spec fn has_key<K, V>(s: Seq<(K, V)>, k: K) -> bool {
    exists|i: int| 0 <= i < s.len() && #[trigger] s[i].0 == k
}

/// The map an association list stands for.
pub open spec fn assoc<K, V>(s: Seq<(K, V)>) -> Map<K, V> {
    Map::new(|k: K| has_key(s, k), |k: K| s[choose|i: int| 0 <= i < s.len() && #[trigger] s[i].0 == k].1)
}

/// Entry `i` of a list without repeated keys is what the map holds.
pub proof fn lemma_assoc_at<K, V>(s: Seq<(K, V)>, i: int)
    requires
        keys_unique(s),
        0 <= i < s.len(),
    ensures
        assoc(s).dom().contains(s[i].0),
        assoc(s)[s[i].0] == s[i].1,
{
    let k = s[i].0;
    assert(has_key(s, k));
    let j = choose|j: int| 0 <= j < s.len() && #[trigger] s[j].0 == k;
    if j != i {
        if j < i {
            assert(s[j].0 != s[i].0);
        } else {
            assert(s[i].0 != s[j].0);
        }
    }
}

/// Replacing the value of entry `i`.
pub proof fn lemma_assoc_update<K, V>(s: Seq<(K, V)>, i: int, v: V)
    requires
        keys_unique(s),
        0 <= i < s.len(),
    ensures
        keys_unique(s.update(i, (s[i].0, v))),
        assoc(s.update(i, (s[i].0, v))) == assoc(s).insert(s[i].0, v),
{
    let t = s.update(i, (s[i].0, v));
    assert forall|a: int, b: int| 0 <= a < b < t.len() implies #[trigger] t[a].0 != #[trigger] t[b].0 by {
        assert(s[a].0 != s[b].0);
    }
    assert forall|k: K| #[trigger] assoc(t).dom().contains(k) <==> assoc(s).insert(s[i].0, v).dom().contains(k) by {
        if has_key(s, k) {
            let j = choose|j: int| 0 <= j < s.len() && #[trigger] s[j].0 == k;
            assert(t[j].0 == k);
        }
        if has_key(t, k) {
            let j = choose|j: int| 0 <= j < t.len() && #[trigger] t[j].0 == k;
            assert(s[j].0 == k);
        }
    }
    assert forall|k: K| #[trigger] assoc(t).dom().contains(k) implies assoc(t)[k] == assoc(s).insert(s[i].0, v)[k] by {
        let j = choose|j: int| 0 <= j < t.len() && #[trigger] t[j].0 == k;
        lemma_assoc_at(t, j);
        if j != i {
            lemma_assoc_at(s, j);
        }
    }
    assert(assoc(t) =~= assoc(s).insert(s[i].0, v));
}

/// Appending an entry with a new key.
pub proof fn lemma_assoc_push<K, V>(s: Seq<(K, V)>, k: K, v: V)
    requires
        keys_unique(s),
        !has_key(s, k),
    ensures
        keys_unique(s.push((k, v))),
        assoc(s.push((k, v))) == assoc(s).insert(k, v),
{
    let t = s.push((k, v));
    assert forall|a: int, b: int| 0 <= a < b < t.len() implies #[trigger] t[a].0 != #[trigger] t[b].0 by {
        if b == s.len() {
            assert(s[a].0 != k);
        } else {
            assert(s[a].0 != s[b].0);
        }
    }
    assert forall|x: K| #[trigger] assoc(t).dom().contains(x) <==> assoc(s).insert(k, v).dom().contains(x) by {
        if has_key(s, x) {
            let j = choose|j: int| 0 <= j < s.len() && #[trigger] s[j].0 == x;
            assert(t[j].0 == x);
        }
        if x == k {
            assert(t[s.len() as int].0 == k);
        }
        if has_key(t, x) && x != k {
            let j = choose|j: int| 0 <= j < t.len() && #[trigger] t[j].0 == x;
            assert(s[j].0 == x);
        }
    }
    assert forall|x: K| #[trigger] assoc(t).dom().contains(x) implies assoc(t)[x] == assoc(s).insert(k, v)[x] by {
        let j = choose|j: int| 0 <= j < t.len() && #[trigger] t[j].0 == x;
        lemma_assoc_at(t, j);
        if j < s.len() {
            lemma_assoc_at(s, j);
        }
    }
    assert(assoc(t) =~= assoc(s).insert(k, v));
}

/// Removing entry `i`.
pub proof fn lemma_assoc_remove<K, V>(s: Seq<(K, V)>, i: int)
    requires
        keys_unique(s),
        0 <= i < s.len(),
    ensures
        keys_unique(s.remove(i)),
        assoc(s.remove(i)) == assoc(s).remove(s[i].0),
{
    let t = s.remove(i);
    let ix = |j: int| if j < i { j } else { j + 1 };
    assert forall|a: int, b: int| 0 <= a < b < t.len() implies #[trigger] t[a].0 != #[trigger] t[b].0 by {
        assert(t[a] == s[ix(a)]);
        assert(t[b] == s[ix(b)]);
        assert(s[ix(a)].0 != s[ix(b)].0);
    }
    assert forall|x: K| #[trigger] assoc(t).dom().contains(x) <==> assoc(s).remove(s[i].0).dom().contains(x) by {
        if has_key(s, x) && x != s[i].0 {
            let j = choose|j: int| 0 <= j < s.len() && #[trigger] s[j].0 == x;
            if j < i {
                assert(t[j].0 == x);
            } else {
                assert(t[j - 1].0 == x);
            }
        }
        if has_key(t, x) {
            let j = choose|j: int| 0 <= j < t.len() && #[trigger] t[j].0 == x;
            assert(t[j] == s[ix(j)]);
            if ix(j) < i {
                assert(s[ix(j)].0 != s[i].0);
            } else {
                assert(s[i].0 != s[ix(j)].0);
            }
        }
    }
    assert forall|x: K| #[trigger] assoc(t).dom().contains(x) implies assoc(t)[x] == assoc(s).remove(s[i].0)[x] by {
        let j = choose|j: int| 0 <= j < t.len() && #[trigger] t[j].0 == x;
        lemma_assoc_at(t, j);
        assert(t[j] == s[ix(j)]);
        lemma_assoc_at(s, ix(j));
    }
    assert(assoc(t) =~= assoc(s).remove(s[i].0));
}

// ── one index ─────────────────────────

/// Kind of index. Both kinds answer exact-match queries.
#[derive(Debug, Clone, Copy, PartialEq, Eq, Structural)]
pub enum IndexType {
    Hash,
    BTree,
}

/// Definition of an index: its name, the property key it covers, its kind,
/// and whether a value may belong to one vertex only.
#[derive(Debug, Clone)]
pub struct IndexDef {
    pub name: String,
    pub property_key: String,
    pub index_type: IndexType,
    pub unique: bool,
}

impl IndexDef {
    /// A copy of the definition.
    pub fn duplicate(&self) -> (r: IndexDef)
        ensures
            r.name@ == self.name@,
            r.property_key@ == self.property_key@,
            r.index_type == self.index_type,
            r.unique == self.unique,
    {
        IndexDef {
            name: self.name.clone(),
            property_key: self.property_key.clone(),
            index_type: self.index_type,
            unique: self.unique,
        }
    }
}

/// Mathematical value of an index: its definition, the vertices listed
/// under each value (in insertion order), and the value last recorded for
/// each vertex.
pub struct IndexState {
    pub name: Seq<char>,
    pub key: Seq<char>,
    pub kind: IndexType,
    pub unique: bool,
    pub ids: Map<PropertyValueView, Seq<u64>>,
    pub vals: Map<u64, PropertyValueView>,
}

/// `s` with other value lists and recorded values.
pub open spec fn with_maps(s: IndexState, ids: Map<PropertyValueView, Seq<u64>>, vals: Map<u64, PropertyValueView>) -> IndexState {
    IndexState { name: s.name, key: s.key, kind: s.kind, unique: s.unique, ids, vals }
}

/// `s` without the occurrences of `v`.
pub open spec fn without(s: Seq<u64>, v: u64) -> Seq<u64>
    decreases s.len(),
{
    if s.len() == 0 {
        s
    } else {
        let w = without(s.drop_last(), v);
        if s.last() == v {
            w
        } else {
            w.push(s.last())
        }
    }
}

/// Removing vertex `v`: its recorded value is forgotten and `v` leaves the
/// list of that value, which disappears when it becomes empty. A vertex
/// without a recorded value changes nothing.
pub open spec fn state_removed(s: IndexState, v: u64) -> IndexState {
    if s.vals.dom().contains(v) {
        let val = s.vals[v];
        let vals = s.vals.remove(v);
        if s.ids.dom().contains(val) {
            let kept = without(s.ids[val], v);
            if kept.len() == 0 {
                with_maps(s, s.ids.remove(val), vals)
            } else {
                with_maps(s, s.ids.insert(val, kept), vals)
            }
        } else {
            with_maps(s, s.ids, vals)
        }
    } else {
        s
    }
}

/// Inserting vertex `v` with value `val`: for a unique index the first
/// vertex listed under `val` is removed first; then `v` is appended to the
/// list of `val` and `val` recorded for `v`.
pub open spec fn state_inserted(s: IndexState, v: u64, val: PropertyValueView) -> IndexState {
    let s1 = if s.unique && s.ids.dom().contains(val) && s.ids[val].len() > 0 {
        state_removed(s, s.ids[val][0])
    } else {
        s
    };
    let ids = if s1.ids.dom().contains(val) {
        s1.ids[val]
    } else {
        Seq::empty()
    };
    with_maps(s1, s1.ids.insert(val, ids.push(v)), s1.vals.insert(v, val))
}

/// The vertices listed under `val`.
pub open spec fn lookup(s: IndexState, val: PropertyValueView) -> Seq<u64> {
    if s.ids.dom().contains(val) {
        s.ids[val]
    } else {
        Seq::empty()
    }
}

/// `acc` followed by the ids of `ids` not seen before, in order.
pub open spec fn append_new(acc: Seq<u64>, ids: Seq<u64>) -> Seq<u64>
    decreases ids.len(),
{
    if ids.len() == 0 {
        acc
    } else {
        let a = append_new(acc, ids.drop_last());
        if a.contains(ids.last()) {
            a
        } else {
            a.push(ids.last())
        }
    }
}

/// The vertices listed under any of `vals`, value by value, each once.
pub open spec fn gather(s: IndexState, vals: Seq<PropertyValueView>) -> Seq<u64>
    decreases vals.len(),
{
    if vals.len() == 0 {
        Seq::empty()
    } else {
        append_new(gather(s, vals.drop_last()), lookup(s, vals.last()))
    }
}

/// Exact-match index: value -> vertices holding it, and vertex -> value.
#[derive(Debug)]
pub struct HashIndex {
    def: IndexDef,
    groups: Vec<(PropertyValue, Vec<u64>)>,
    reverse: Vec<(u64, PropertyValue)>,
}

/// Whether `x` occurs in `v`.
pub(crate) fn contains_id(v: &Vec<u64>, x: u64) -> (r: bool)
    ensures
        r == v@.contains(x),
{
    let mut i: usize = 0;
    while i < v.len()
        invariant
            i <= v@.len(),
            forall|j: int| 0 <= j < i ==> v@[j] != x,
        decreases v@.len() - i,
    {
        if v[i] == x {
            return true;
        }
        i = i + 1;
    }
    false
}

/// A copy of `ids` without the occurrences of `v`.
fn without_id(ids: &Vec<u64>, v: u64) -> (r: Vec<u64>)
    ensures
        r@ == without(ids@, v),
{
    let mut r: Vec<u64> = Vec::new();
    let mut k: usize = 0;
    while k < ids.len()
        invariant
            k <= ids@.len(),
            r@ == without(ids@.take(k as int), v),
        decreases ids@.len() - k,
    {
        proof {
            assert(ids@.take(k as int + 1).drop_last() =~= ids@.take(k as int));
        }
        if ids[k] != v {
            r.push(ids[k]);
        }
        k = k + 1;
    }
    proof {
        assert(ids@.take(k as int) =~= ids@);
    }
    r
}

/// A copy of `ids`.
fn copy_ids(ids: &Vec<u64>) -> (r: Vec<u64>)
    ensures
        r@ == ids@,
{
    let mut r: Vec<u64> = Vec::new();
    let mut k: usize = 0;
    while k < ids.len()
        invariant
            k <= ids@.len(),
            r@ == ids@.take(k as int),
        decreases ids@.len() - k,
    {
        r.push(ids[k]);
        k = k + 1;
        proof {
            assert(r@ =~= ids@.take(k as int));
        }
    }
    proof {
        assert(ids@.take(k as int) =~= ids@);
    }
    r
}

impl HashIndex {
    /// The value lists as an association list.
    pub closed spec fn gview(&self) -> Seq<(PropertyValueView, Seq<u64>)> {
        self.groups@.map_values(|g: (PropertyValue, Vec<u64>)| (g.0@, g.1@))
    }

    /// The recorded values as an association list.
    pub closed spec fn rview(&self) -> Seq<(u64, PropertyValueView)> {
        self.reverse@.map_values(|e: (u64, PropertyValue)| (e.0, e.1@))
    }

    /// What the index holds.
    pub closed spec fn state(&self) -> IndexState {
        IndexState {
            name: self.def.name@,
            key: self.def.property_key@,
            kind: self.def.index_type,
            unique: self.def.unique,
            ids: assoc(self.gview()),
            vals: assoc(self.rview()),
        }
    }

    /// Each value has one list and each vertex one recorded value.
    pub closed spec fn wf(&self) -> bool {
        keys_unique(self.gview()) && keys_unique(self.rview())
    }

    /// An empty index with definition `def`.
    pub fn new(def: IndexDef) -> (r: HashIndex)
        ensures
            r.wf(),
            r.state().name == def.name@,
            r.state().key == def.property_key@,
            r.state().kind == def.index_type,
            r.state().unique == def.unique,
            r.state().ids == Map::<PropertyValueView, Seq<u64>>::empty(),
            r.state().vals == Map::<u64, PropertyValueView>::empty(),
    {
        let r = HashIndex { def, groups: Vec::new(), reverse: Vec::new() };
        proof {
            assert(assoc(r.gview()) =~= Map::<PropertyValueView, Seq<u64>>::empty());
            assert(assoc(r.rview()) =~= Map::<u64, PropertyValueView>::empty());
        }
        r
    }

    /// The definition.
    pub fn def(&self) -> (r: &IndexDef)
        ensures
            r.name@ == self.state().name,
            r.property_key@ == self.state().key,
            r.index_type == self.state().kind,
            r.unique == self.state().unique,
    {
        &self.def
    }

    /// Position of the list of `val`.
    fn group_pos(&self, val: &PropertyValue) -> (r: Option<usize>)
        ensures
            match r {
                Some(i) => i < self.groups@.len() && self.gview()[i as int].0 == val@,
                None => !has_key(self.gview(), val@),
            },
    {
        let mut i: usize = 0;
        while i < self.groups.len()
            invariant
                i <= self.groups@.len(),
                forall|j: int| 0 <= j < i ==> self.gview()[j].0 != val@,
            decreases self.groups@.len() - i,
        {
            if self.groups[i].0.same_as(val) {
                return Some(i);
            }
            i = i + 1;
        }
        None
    }

    /// Position of the recorded value of `v`.
    fn rev_pos(&self, v: u64) -> (r: Option<usize>)
        ensures
            match r {
                Some(i) => i < self.reverse@.len() && self.rview()[i as int].0 == v,
                None => !has_key(self.rview(), v),
            },
    {
        let mut i: usize = 0;
        while i < self.reverse.len()
            invariant
                i <= self.reverse@.len(),
                forall|j: int| 0 <= j < i ==> self.rview()[j].0 != v,
            decreases self.reverse@.len() - i,
        {
            if self.reverse[i].0 == v {
                return Some(i);
            }
            i = i + 1;
        }
        None
    }
}


impl HashIndex {
    /// Removes vertex `v` (see [`state_removed`]).
    pub fn remove(&mut self, v: u64)
        requires
            old(self).wf(),
        ensures
            final(self).wf(),
            final(self).state() == state_removed(old(self).state(), v),
    {
        let ghost s0 = self.state();
        let ghost g0 = self.gview();
        let ghost r0 = self.rview();
        match self.rev_pos(v) {
            None => {
                proof {
                    assert(!s0.vals.dom().contains(v));
                }
            },
            Some(ri) => {
                proof {
                    lemma_assoc_at(r0, ri as int);
                    lemma_assoc_remove(r0, ri as int);
                }
                let (_, value) = self.reverse.remove(ri);
                proof {
                    assert(self.rview() =~= r0.remove(ri as int));
                    assert(value@ == s0.vals[v]);
                }
                match self.group_pos(&value) {
                    None => {
                        proof {
                            assert(!s0.ids.dom().contains(value@));
                            assert(self.state() =~= with_maps(s0, s0.ids, s0.vals.remove(v)));
                        }
                    },
                    Some(gi) => {
                        proof {
                            lemma_assoc_at(g0, gi as int);
                        }
                        let kept = without_id(&self.groups[gi].1, v);
                        if kept.len() > 0 {
                            let gk = self.groups[gi].0.duplicate();
                            proof {
                                lemma_assoc_update(g0, gi as int, kept@);
                            }
                            self.groups.set(gi, (gk, kept));
                            proof {
                                assert(self.gview() =~= g0.update(gi as int, (g0[gi as int].0, kept@)));
                            }
                        } else {
                            proof {
                                lemma_assoc_remove(g0, gi as int);
                            }
                            self.groups.remove(gi);
                            proof {
                                assert(self.gview() =~= g0.remove(gi as int));
                            }
                        }
                    },
                }
            },
        }
    }

    /// Inserts vertex `v` with value `val` (see [`state_inserted`]).
    pub fn insert(&mut self, v: u64, val: PropertyValue)
        requires
            old(self).wf(),
        ensures
            final(self).wf(),
            final(self).state() == state_inserted(old(self).state(), v, val@),
    {
        let ghost s0 = self.state();
        if self.def.unique {
            match self.group_pos(&val) {
                Some(gi) => {
                    proof {
                        lemma_assoc_at(self.gview(), gi as int);
                    }
                    if self.groups[gi].1.len() > 0 {
                        let first = self.groups[gi].1[0];
                        self.remove(first);
                    }
                },
                None => {},
            }
        }
        let ghost s1 = self.state();
        let ghost g1 = self.gview();
        let ghost r1 = self.rview();
        proof {
            assert(s1 == (if s0.unique && s0.ids.dom().contains(val@) && s0.ids[val@].len() > 0 {
                state_removed(s0, s0.ids[val@][0])
            } else {
                s0
            }));
        }
        match self.group_pos(&val) {
            Some(gi) => {
                proof {
                    lemma_assoc_at(g1, gi as int);
                }
                let (gk, mut ids) = self.groups.remove(gi);
                ids.push(v);
                proof {
                    lemma_assoc_update(g1, gi as int, ids@);
                }
                self.groups.insert(gi, (gk, ids));
                proof {
                    assert(self.gview() =~= g1.update(gi as int, (g1[gi as int].0, ids@)));
                }
            },
            None => {
                let mut one: Vec<u64> = Vec::new();
                one.push(v);
                proof {
                    lemma_assoc_push(g1, val@, one@);
                    assert(one@ =~= Seq::<u64>::empty().push(v));
                }
                self.groups.push((val.duplicate(), one));
                proof {
                    assert(self.gview() =~= g1.push((val@, one@)));
                }
            },
        }
        match self.rev_pos(v) {
            Some(ri) => {
                proof {
                    lemma_assoc_update(r1, ri as int, val@);
                }
                let ghost vv = val@;
                self.reverse.set(ri, (v, val));
                proof {
                    assert(self.rview() =~= r1.update(ri as int, (v, vv)));
                }
            },
            None => {
                proof {
                    lemma_assoc_push(r1, v, val@);
                }
                let ghost vv = val@;
                self.reverse.push((v, val));
                proof {
                    assert(self.rview() =~= r1.push((v, vv)));
                }
            },
        }
    }

    /// Removes `v`, then inserts it with `val`.
    pub fn update(&mut self, v: u64, val: PropertyValue)
        requires
            old(self).wf(),
        ensures
            final(self).wf(),
            final(self).state() == state_inserted(state_removed(old(self).state(), v), v, val@),
    {
        self.remove(v);
        self.insert(v, val);
    }

    /// Forgets every value.
    pub fn clear(&mut self)
        ensures
            final(self).wf(),
            final(self).state() == with_maps(
                old(self).state(),
                Map::<PropertyValueView, Seq<u64>>::empty(),
                Map::<u64, PropertyValueView>::empty(),
            ),
    {
        self.groups = Vec::new();
        self.reverse = Vec::new();
        proof {
            assert(assoc(self.gview()) =~= Map::<PropertyValueView, Seq<u64>>::empty());
            assert(assoc(self.rview()) =~= Map::<u64, PropertyValueView>::empty());
        }
    }

    /// The vertices listed under `val`, in insertion order.
    pub fn query_exact(&self, val: &PropertyValue) -> (r: Vec<u64>)
        requires
            self.wf(),
        ensures
            r@ == lookup(self.state(), val@),
    {
        match self.group_pos(val) {
            Some(gi) => {
                proof {
                    lemma_assoc_at(self.gview(), gi as int);
                }
                copy_ids(&self.groups[gi].1)
            },
            None => Vec::new(),
        }
    }

    /// The vertices listed under any of `values`, value by value, each once.
    pub fn query_in(&self, values: &[PropertyValue]) -> (r: Vec<u64>)
        requires
            self.wf(),
        ensures
            r@ == gather(self.state(), values@.map_values(|v: PropertyValue| v@)),
    {
        let ghost vals = values@.map_values(|v: PropertyValue| v@);
        let ghost s = self.state();
        let mut result: Vec<u64> = Vec::new();
        let mut i: usize = 0;
        while i < values.len()
            invariant
                self.wf(),
                s == self.state(),
                vals == values@.map_values(|v: PropertyValue| v@),
                i <= values@.len(),
                result@ == gather(s, vals.take(i as int)),
            decreases values@.len() - i,
        {
            proof {
                assert(vals.take(i as int + 1).drop_last() =~= vals.take(i as int));
                assert(vals.take(i as int + 1).last() == values@[i as int]@);
            }
            match self.group_pos(&values[i]) {
                Some(gi) => {
                    proof {
                        lemma_assoc_at(self.gview(), gi as int);
                    }
                    let ids = &self.groups[gi].1;
                    let ghost acc = result@;
                    let mut j: usize = 0;
                    while j < ids.len()
                        invariant
                            j <= ids@.len(),
                            result@ == append_new(acc, ids@.take(j as int)),
                        decreases ids@.len() - j,
                    {
                        proof {
                            assert(ids@.take(j as int + 1).drop_last() =~= ids@.take(j as int));
                        }
                        if !contains_id(&result, ids[j]) {
                            result.push(ids[j]);
                        }
                        j = j + 1;
                    }
                    proof {
                        assert(ids@.take(j as int) =~= ids@);
                    }
                },
                None => {
                    proof {
                        assert(lookup(s, values@[i as int]@) =~= Seq::<u64>::empty());
                    }
                },
            }
            i = i + 1;
        }
        proof {
            assert(vals.take(i as int) =~= vals);
        }
        result
    }
}

// ── all indexes ─────────────────────────

/// Each index given a vertex with property map `pm`: those whose key `pm`
/// has record `v` with its value.
pub open spec fn added(ss: Seq<IndexState>, v: u64, pm: PropMap) -> Seq<IndexState> {
    ss.map_values(|s: IndexState| if pm.dom().contains(s.key) { state_inserted(s, v, pm[s.key]) } else { s })
}

/// Each index told that vertex `v` with property map `pm` is gone: those
/// whose key `pm` has remove `v`.
pub open spec fn deleted(ss: Seq<IndexState>, v: u64, pm: PropMap) -> Seq<IndexState> {
    ss.map_values(|s: IndexState| if pm.dom().contains(s.key) { state_removed(s, v) } else { s })
}

/// The value under `key`, if any.
pub open spec fn value_for(pm: PropMap, key: Seq<char>) -> Option<PropertyValueView> {
    if pm.dom().contains(key) {
        Some(pm[key])
    } else {
        None
    }
}

/// One index told that vertex `v` went from property map `om` to `nm`:
/// when the value under its key changed, `v` is re-inserted with the new
/// value, or removed when the key is gone.
pub open spec fn state_changed(s: IndexState, v: u64, om: PropMap, nm: PropMap) -> IndexState {
    if value_for(om, s.key) != value_for(nm, s.key) {
        match value_for(nm, s.key) {
            Some(x) => state_inserted(state_removed(s, v), v, x),
            None => state_removed(s, v),
        }
    } else {
        s
    }
}

/// Every index told of a property change of `v`.
pub open spec fn changed(ss: Seq<IndexState>, v: u64, om: PropMap, nm: PropMap) -> Seq<IndexState> {
    ss.map_values(|s: IndexState| state_changed(s, v, om, nm))
}

/// Every index (or, for `Some(key)`, every index on `key`) emptied.
pub open spec fn cleared(ss: Seq<IndexState>, only: Option<Seq<char>>) -> Seq<IndexState> {
    ss.map_values(
        |s: IndexState|
            if only is None || only == Some(s.key) {
                with_maps(s, Map::<PropertyValueView, Seq<u64>>::empty(), Map::<u64, PropertyValueView>::empty())
            } else {
                s
            },
    )
}

/// The indexes (or, for `Some(key)`, the indexes on `key`) given the
/// vertices `ids`, in order, with their property maps from `vm`.
pub open spec fn added_all(ss: Seq<IndexState>, only: Option<Seq<char>>, ids: Seq<u64>, vm: Map<u64, PropMap>) -> Seq<IndexState>
    decreases ids.len(),
{
    if ids.len() == 0 {
        ss
    } else {
        let before = added_all(ss, only, ids.drop_last(), vm);
        let v = ids.last();
        before.map_values(
            |s: IndexState|
                if (only is None || only == Some(s.key)) && vm[v].dom().contains(s.key) {
                    state_inserted(s, v, vm[v][s.key])
                } else {
                    s
                },
        )
    }
}

/// Position of the first index on `key`.
#[verifier::opaque]
pub open spec fn first_on(ss: Seq<IndexState>, key: Seq<char>) -> Option<int> {
    if exists|i: int| 0 <= i < ss.len() && #[trigger] ss[i].key == key {
        Some(choose|i: int| 0 <= i < ss.len() && #[trigger] ss[i].key == key && forall|j: int| 0 <= j < i ==> ss[j].key != key)
    } else {
        None
    }
}

/// All indexes, in creation order. An exact-match query on a key uses the
/// first index created on it.
pub struct IndexManager {
    indexes: Vec<HashIndex>,
}

impl IndexManager {
    /// What each index holds, in creation order.
    pub closed spec fn states(&self) -> Seq<IndexState> {
        self.indexes@.map_values(|x: HashIndex| x.state())
    }

    /// Every index well formed; index names distinct.
    pub closed spec fn wf(&self) -> bool {
        &&& forall|i: int| 0 <= i < self.indexes@.len() ==> (#[trigger] self.indexes@[i]).wf()
        &&& forall|i: int, j: int| 0 <= i < j < self.states().len() ==> #[trigger] self.states()[i].name != #[trigger] self.states()[j].name
    }

    /// No indexes.
    pub fn new() -> (r: IndexManager)
        ensures
            r.wf(),
            r.states() == Seq::<IndexState>::empty(),
    {
        let r = IndexManager { indexes: Vec::new() };
        proof {
            assert(r.states() =~= Seq::<IndexState>::empty());
        }
        r
    }

    /// Position of the index named `name`.
    fn position(&self, name: &str) -> (r: Option<usize>)
        ensures
            match r {
                Some(i) => i < self.states().len() && self.states()[i as int].name == name@,
                None => forall|i: int| 0 <= i < self.states().len() ==> #[trigger] self.states()[i].name != name@,
            },
    {
        let mut i: usize = 0;
        while i < self.indexes.len()
            invariant
                i <= self.indexes@.len(),
                forall|j: int| 0 <= j < i ==> #[trigger] self.states()[j].name != name@,
            decreases self.indexes@.len() - i,
        {
            if str_eq(self.indexes[i].def().name.as_str(), name) {
                return Some(i);
            }
            i = i + 1;
        }
        None
    }

    /// Position of the first index on `key`.
    fn first_index_on(&self, key: &str) -> (r: Option<usize>)
        ensures
            r is Some <==> first_on(self.states(), key@) is Some,
            r is Some ==> first_on(self.states(), key@) == Some(r.unwrap() as int),
            r is Some ==> r.unwrap() < self.states().len() && self.states()[r.unwrap() as int].key == key@,
            r is None ==> forall|i: int| 0 <= i < self.states().len() ==> #[trigger] self.states()[i].key != key@,
    {
        let mut i: usize = 0;
        while i < self.indexes.len()
            invariant
                i <= self.indexes@.len(),
                forall|j: int| 0 <= j < i ==> #[trigger] self.states()[j].key != key@,
            decreases self.indexes@.len() - i,
        {
            if str_eq(self.indexes[i].def().property_key.as_str(), key) {
                proof {
                    reveal(first_on);
                    let ss = self.states();
                    assert(ss[i as int].key == key@);
                    let c = choose|c: int| 0 <= c < ss.len() && #[trigger] ss[c].key == key@ && forall|j: int| 0 <= j < c ==> ss[j].key != key@;
                    if c < i {
                        assert(ss[c].key != key@);
                    }
                    if c > i {
                        assert(ss[i as int].key != key@);
                    }
                }
                return Some(i);
            }
            i = i + 1;
        }
        proof {
            reveal(first_on);
        }
        None
    }

    /// Creates an empty index; refused when an index with that name exists.
    pub fn create_index(&mut self, name: &str, property_key: &str, index_type: IndexType, unique: bool) -> (r: Result<(), String>)
        requires
            old(self).wf(),
        ensures
            final(self).wf(),
            match r {
                Ok(()) => {
                    &&& forall|i: int| 0 <= i < old(self).states().len() ==> #[trigger] old(self).states()[i].name != name@
                    &&& final(self).states() == old(self).states().push(
                        IndexState {
                            name: name@,
                            key: property_key@,
                            kind: index_type,
                            unique,
                            ids: Map::empty(),
                            vals: Map::empty(),
                        },
                    )
                },
                Err(msg) => {
                    &&& exists|i: int| 0 <= i < old(self).states().len() && #[trigger] old(self).states()[i].name == name@
                    &&& msg@ == "index already exists: "@ + name@
                    &&& final(self).states() == old(self).states()
                },
            },
    {
        if self.position(name).is_some() {
            return Err(String::from_str("index already exists: ").concat(name));
        }
        let def = IndexDef {
            name: String::from_str(name),
            property_key: String::from_str(property_key),
            index_type,
            unique,
        };
        let idx = HashIndex::new(def);
        let ghost s0 = self.states();
        self.indexes.push(idx);
        proof {
            assert(self.states() =~= s0.push(idx.state()));
            assert(idx.state() =~= IndexState {
                name: name@,
                key: property_key@,
                kind: index_type,
                unique,
                ids: Map::empty(),
                vals: Map::empty(),
            });
        }
        Ok(())
    }

    /// Drops the index named `name`; refused when there is none.
    pub fn drop_index(&mut self, name: &str) -> (r: Result<(), String>)
        requires
            old(self).wf(),
        ensures
            final(self).wf(),
            match r {
                Ok(()) => exists|i: int|
                    0 <= i < old(self).states().len() && #[trigger] old(self).states()[i].name == name@
                        && final(self).states() == old(self).states().remove(i),
                Err(msg) => {
                    &&& forall|i: int| 0 <= i < old(self).states().len() ==> #[trigger] old(self).states()[i].name != name@
                    &&& msg@ == "index not found: "@ + name@
                    &&& final(self).states() == old(self).states()
                },
            },
    {
        match self.position(name) {
            Some(i) => {
                let ghost s0 = self.states();
                self.indexes.remove(i);
                proof {
                    assert(self.states() =~= s0.remove(i as int));
                    assert(s0[i as int].name == name@);
                }
                Ok(())
            },
            None => Err(String::from_str("index not found: ").concat(name)),
        }
    }

    /// The index definitions, in creation order.
    pub fn list_indexes(&self) -> (r: Vec<IndexDef>)
        ensures
            r@.len() == self.states().len(),
            forall|i: int|
                0 <= i < r@.len() ==> {
                    &&& (#[trigger] r@[i]).name@ == self.states()[i].name
                    &&& r@[i].property_key@ == self.states()[i].key
                    &&& r@[i].index_type == self.states()[i].kind
                    &&& r@[i].unique == self.states()[i].unique
                },
    {
        let mut r: Vec<IndexDef> = Vec::new();
        let mut i: usize = 0;
        while i < self.indexes.len()
            invariant
                i <= self.indexes@.len(),
                r@.len() == i,
                forall|k: int|
                    0 <= k < i ==> {
                        &&& (#[trigger] r@[k]).name@ == self.states()[k].name
                        &&& r@[k].property_key@ == self.states()[k].key
                        &&& r@[k].index_type == self.states()[k].kind
                        &&& r@[k].unique == self.states()[k].unique
                    },
            decreases self.indexes@.len() - i,
        {
            r.push(self.indexes[i].def().duplicate());
            i = i + 1;
        }
        r
    }

    /// Whether some index covers `property_key`.
    pub fn has_index(&self, property_key: &str) -> (r: bool)
        ensures
            r == exists|i: int| 0 <= i < self.states().len() && #[trigger] self.states()[i].key == property_key@,
    {
        match self.first_index_on(property_key) {
            Some(i) => {
                proof {
                    assert(self.states()[i as int].key == property_key@);
                }
                true
            },
            None => false,
        }
    }
}

impl IndexManager {
    /// Inserts `v` with `val` into index `i`.
    fn insert_at(&mut self, i: usize, v: u64, val: PropertyValue)
        requires
            old(self).wf(),
            i < old(self).states().len(),
        ensures
            final(self).wf(),
            final(self).states() == old(self).states().update(i as int, state_inserted(old(self).states()[i as int], v, val@)),
    {
        let ghost s0 = self.states();
        let mut x = self.indexes.remove(i);
        x.insert(v, val);
        self.indexes.insert(i, x);
        proof {
            assert(self.states() =~= s0.update(i as int, x.state()));
        }
    }

    /// Removes `v` from index `i`.
    fn remove_at(&mut self, i: usize, v: u64)
        requires
            old(self).wf(),
            i < old(self).states().len(),
        ensures
            final(self).wf(),
            final(self).states() == old(self).states().update(i as int, state_removed(old(self).states()[i as int], v)),
    {
        let ghost s0 = self.states();
        let mut x = self.indexes.remove(i);
        x.remove(v);
        self.indexes.insert(i, x);
        proof {
            assert(self.states() =~= s0.update(i as int, x.state()));
        }
    }

    /// Removes `v` from index `i`, then inserts it with `val`.
    fn update_at(&mut self, i: usize, v: u64, val: PropertyValue)
        requires
            old(self).wf(),
            i < old(self).states().len(),
        ensures
            final(self).wf(),
            final(self).states() == old(self).states().update(
                i as int,
                state_inserted(state_removed(old(self).states()[i as int], v), v, val@),
            ),
    {
        let ghost s0 = self.states();
        let mut x = self.indexes.remove(i);
        x.update(v, val);
        self.indexes.insert(i, x);
        proof {
            assert(self.states() =~= s0.update(i as int, x.state()));
        }
    }

    /// Empties index `i`.
    fn clear_at(&mut self, i: usize)
        requires
            old(self).wf(),
            i < old(self).states().len(),
        ensures
            final(self).wf(),
            final(self).states() == old(self).states().update(
                i as int,
                with_maps(
                    old(self).states()[i as int],
                    Map::<PropertyValueView, Seq<u64>>::empty(),
                    Map::<u64, PropertyValueView>::empty(),
                ),
            ),
    {
        let ghost s0 = self.states();
        let mut x = self.indexes.remove(i);
        x.clear();
        self.indexes.insert(i, x);
        proof {
            assert(self.states() =~= s0.update(i as int, x.state()));
        }
    }

    /// Records a new vertex `vertex_id` in every index whose key its
    /// properties have.
    pub fn on_vertex_added(&mut self, vertex_id: u64, properties: &Properties)
        requires
            old(self).wf(),
            properties.wf(),
        ensures
            final(self).wf(),
            final(self).states() == added(old(self).states(), vertex_id, properties.map()),
    {
        let ghost s0 = self.states();
        let ghost pm = properties.map();
        let mut i: usize = 0;
        while i < self.indexes.len()
            invariant
                self.wf(),
                properties.wf(),
                pm == properties.map(),
                self.states().len() == s0.len(),
                i <= s0.len(),
                forall|k: int| 0 <= k < i ==> #[trigger] self.states()[k] == added(s0, vertex_id, pm)[k],
                forall|k: int| i <= k < s0.len() ==> #[trigger] self.states()[k] == s0[k],
            decreases s0.len() - i,
        {
            match properties.get(self.indexes[i].def().property_key.as_str()) {
                Some(val) => {
                    let val = val.duplicate();
                    self.insert_at(i, vertex_id, val);
                },
                None => {},
            }
            i = i + 1;
        }
        proof {
            assert(self.states() =~= added(s0, vertex_id, pm));
        }
    }

    /// Removes vertex `vertex_id` from every index whose key its properties
    /// have.
    pub fn on_vertex_deleted(&mut self, vertex_id: u64, properties: &Properties)
        requires
            old(self).wf(),
            properties.wf(),
        ensures
            final(self).wf(),
            final(self).states() == deleted(old(self).states(), vertex_id, properties.map()),
    {
        let ghost s0 = self.states();
        let ghost pm = properties.map();
        let mut i: usize = 0;
        while i < self.indexes.len()
            invariant
                self.wf(),
                properties.wf(),
                pm == properties.map(),
                self.states().len() == s0.len(),
                i <= s0.len(),
                forall|k: int| 0 <= k < i ==> #[trigger] self.states()[k] == deleted(s0, vertex_id, pm)[k],
                forall|k: int| i <= k < s0.len() ==> #[trigger] self.states()[k] == s0[k],
            decreases s0.len() - i,
        {
            if properties.get(self.indexes[i].def().property_key.as_str()).is_some() {
                self.remove_at(i, vertex_id);
            }
            i = i + 1;
        }
        proof {
            assert(self.states() =~= deleted(s0, vertex_id, pm));
        }
    }

    /// Tells every index that the properties of `vertex_id` went from
    /// `old_properties` to `new_properties` (see [`state_changed`]).
    pub fn on_vertex_updated(&mut self, vertex_id: u64, old_properties: &Properties, new_properties: &Properties)
        requires
            old(self).wf(),
            old_properties.wf(),
            new_properties.wf(),
        ensures
            final(self).wf(),
            final(self).states() == changed(old(self).states(), vertex_id, old_properties.map(), new_properties.map()),
    {
        let ghost s0 = self.states();
        let ghost om = old_properties.map();
        let ghost nm = new_properties.map();
        let mut i: usize = 0;
        while i < self.indexes.len()
            invariant
                self.wf(),
                old_properties.wf(),
                new_properties.wf(),
                om == old_properties.map(),
                nm == new_properties.map(),
                self.states().len() == s0.len(),
                i <= s0.len(),
                forall|k: int| 0 <= k < i ==> #[trigger] self.states()[k] == changed(s0, vertex_id, om, nm)[k],
                forall|k: int| i <= k < s0.len() ==> #[trigger] self.states()[k] == s0[k],
            decreases s0.len() - i,
        {
            let key = self.indexes[i].def().property_key.as_str();
            let o = old_properties.get(key);
            let n = new_properties.get(key);
            let differ = match (o, n) {
                (Some(a), Some(b)) => !a.same_as(b),
                (None, None) => false,
                _ => true,
            };
            if differ {
                match n {
                    Some(b) => {
                        let b = b.duplicate();
                        self.update_at(i, vertex_id, b);
                    },
                    None => {
                        self.remove_at(i, vertex_id);
                    },
                }
            }
            i = i + 1;
        }
        proof {
            assert(self.states() =~= changed(s0, vertex_id, om, nm));
        }
    }

    /// Exact-match query through the first index on `property_key`; `None`
    /// when no index covers the key (the caller then scans).
    pub fn query_exact(&self, property_key: &str, value: &PropertyValue) -> (r: Option<Vec<u64>>)
        requires
            self.wf(),
        ensures
            match first_on(self.states(), property_key@) {
                Some(i) => r is Some && r.unwrap()@ == lookup(self.states()[i], value@),
                None => r is None,
            },
    {
        match self.first_index_on(property_key) {
            Some(i) => {
                proof {
                    assert(self.indexes@[i as int].wf());
                    assert(self.states()[i as int] == self.indexes@[i as int].state());
                }
                Some(self.indexes[i].query_exact(value))
            },
            None => None,
        }
    }

    /// Query for any of `values` through the first index on
    /// `property_key`; `None` when no index covers the key.
    pub fn query_in(&self, property_key: &str, values: &[PropertyValue]) -> (r: Option<Vec<u64>>)
        requires
            self.wf(),
        ensures
            match first_on(self.states(), property_key@) {
                Some(i) => r is Some && r.unwrap()@ == gather(
                    self.states()[i],
                    values@.map_values(|v: PropertyValue| v@),
                ),
                None => r is None,
            },
    {
        match self.first_index_on(property_key) {
            Some(i) => {
                proof {
                    assert(self.indexes@[i as int].wf());
                    assert(self.states()[i as int] == self.indexes@[i as int].state());
                }
                Some(self.indexes[i].query_in(values))
            },
            None => None,
        }
    }
}

impl IndexManager {
    /// Empties every index, then records every vertex of `graph`, by
    /// increasing id.
    pub fn rebuild_all(&mut self, graph: &PersistentGraph)
        requires
            old(self).wf(),
            graph.wf(),
        ensures
            final(self).wf(),
            final(self).states() == added_all(
                cleared(old(self).states(), None),
                None,
                graph.vertex_ids(),
                graph.vertex_map(),
            ),
    {
        let ghost s0 = self.states();
        let ghost c0 = cleared(s0, None);
        let mut i: usize = 0;
        while i < self.indexes.len()
            invariant
                self.wf(),
                c0 == cleared(s0, None),
                self.states().len() == s0.len(),
                i <= s0.len(),
                forall|k: int| 0 <= k < i ==> #[trigger] self.states()[k] == c0[k],
                forall|k: int| i <= k < s0.len() ==> #[trigger] self.states()[k] == s0[k],
            decreases s0.len() - i,
        {
            self.clear_at(i);
            i = i + 1;
        }
        proof {
            assert(self.states() =~= c0);
        }
        let ghost vids = graph.vertex_ids();
        let ghost vm = graph.vertex_map();
        let n = graph.vertex_count();
        let mut k: usize = 0;
        while k < n
            invariant
                self.wf(),
                graph.wf(),
                vids == graph.vertex_ids(),
                vm == graph.vertex_map(),
                n == vids.len(),
                k <= n,
                self.states() == added_all(c0, None, vids.take(k as int), vm),
            decreases n - k,
        {
            let (id, props) = graph.vertex_entry(k);
            let ghost before = self.states();
            self.on_vertex_added(id, props);
            proof {
                assert(vids.take(k as int + 1).drop_last() =~= vids.take(k as int));
                assert(self.states() =~= added_all(c0, None, vids.take(k as int + 1), vm));
            }
            k = k + 1;
        }
        proof {
            assert(vids.take(k as int) =~= vids);
        }
    }

    /// Empties the indexes on `property_key`, then records in them every
    /// vertex of `graph` that has the key, by increasing id. Other indexes
    /// are left as they are.
    pub fn rebuild_property(&mut self, property_key: &str, graph: &PersistentGraph)
        requires
            old(self).wf(),
            graph.wf(),
        ensures
            final(self).wf(),
            final(self).states() == added_all(
                cleared(old(self).states(), Some(property_key@)),
                Some(property_key@),
                graph.vertex_ids(),
                graph.vertex_map(),
            ),
    {
        let ghost key = property_key@;
        let ghost s0 = self.states();
        let ghost c0 = cleared(s0, Some(key));
        let mut i: usize = 0;
        while i < self.indexes.len()
            invariant
                self.wf(),
                key == property_key@,
                c0 == cleared(s0, Some(key)),
                self.states().len() == s0.len(),
                i <= s0.len(),
                forall|k: int| 0 <= k < i ==> #[trigger] self.states()[k] == c0[k],
                forall|k: int| i <= k < s0.len() ==> #[trigger] self.states()[k] == s0[k],
            decreases s0.len() - i,
        {
            if str_eq(self.indexes[i].def().property_key.as_str(), property_key) {
                self.clear_at(i);
            }
            i = i + 1;
        }
        proof {
            assert(self.states() =~= c0);
        }
        let ghost vids = graph.vertex_ids();
        let ghost vm = graph.vertex_map();
        let n = graph.vertex_count();
        let mut k: usize = 0;
        while k < n
            invariant
                self.wf(),
                graph.wf(),
                key == property_key@,
                vids == graph.vertex_ids(),
                vm == graph.vertex_map(),
                n == vids.len(),
                k <= n,
                self.states() == added_all(c0, Some(key), vids.take(k as int), vm),
            decreases n - k,
        {
            let (id, props) = graph.vertex_entry(k);
            let ghost before = self.states();
            let ghost after = added_all(c0, Some(key), vids.take(k as int + 1), vm);
            proof {
                assert(vids.take(k as int + 1).drop_last() =~= vids.take(k as int));
            }
            match props.get(property_key) {
                Some(val) => {
                    let mut j: usize = 0;
                    while j < self.indexes.len()
                        invariant
                            self.wf(),
                            key == property_key@,
                            self.states().len() == before.len(),
                            after.len() == before.len(),
                            j <= before.len(),
                            forall|m: int| 0 <= m < j ==> #[trigger] self.states()[m] == after[m],
                            forall|m: int| j <= m < before.len() ==> #[trigger] self.states()[m] == before[m],
                            forall|m: int|
                                0 <= m < before.len() ==> #[trigger] after[m] == (if before[m].key == key {
                                    state_inserted(before[m], id, val@)
                                } else {
                                    before[m]
                                }),
                        decreases before.len() - j,
                    {
                        if str_eq(self.indexes[j].def().property_key.as_str(), property_key) {
                            let v = val.duplicate();
                            self.insert_at(j, id, v);
                        }
                        j = j + 1;
                    }
                },
                None => {},
            }
            proof {
                assert(self.states() =~= after);
            }
            k = k + 1;
        }
        proof {
            assert(vids.take(k as int) =~= vids);
        }
    }
}

// ── laws ─────────────────────────

/// Every vertex listed under a value has that value recorded.
pub open spec fn consistent(s: IndexState) -> bool {
    forall|val: PropertyValueView, x: u64|
        s.ids.dom().contains(val) && #[trigger] s.ids[val].contains(x) ==> s.vals.dom().contains(x) && s.vals[x] == val
}

/// `without` drops exactly the occurrences of `v`.
proof fn lemma_without(s: Seq<u64>, v: u64)
    ensures
        !without(s, v).contains(v),
        forall|x: u64| #[trigger] without(s, v).contains(x) ==> s.contains(x),
    decreases s.len(),
{
    if s.len() > 0 {
        lemma_without(s.drop_last(), v);
        let w = without(s.drop_last(), v);
        assert forall|x: u64| #[trigger] without(s, v).contains(x) implies s.contains(x) by {
            if w.contains(x) {
                assert(s.drop_last().contains(x));
                let i = choose|i: int| 0 <= i < s.drop_last().len() && s.drop_last()[i] == x;
                assert(s[i] == x);
            } else {
                assert(without(s, v) == w.push(s.last()));
                assert(x == s.last());
                assert(s[s.len() - 1] == x);
            }
        }
        if s.last() != v {
            assert(!w.push(s.last()).contains(v)) by {
                if w.push(s.last()).contains(v) {
                    let i = choose|i: int| 0 <= i < w.push(s.last()).len() && w.push(s.last())[i] == v;
                    if i < w.len() {
                        assert(w.contains(v));
                    }
                }
            }
        }
    }
}

/// Removing a vertex never adds anything to a value list.
proof fn lemma_removed_shrinks(s: IndexState, y: u64)
    ensures
        forall|val: PropertyValueView, x: u64|
            #[trigger] lookup(state_removed(s, y), val).contains(x) ==> lookup(s, val).contains(x),
{
    if s.vals.dom().contains(y) && s.ids.dom().contains(s.vals[y]) {
        lemma_without(s.ids[s.vals[y]], y);
    }
}

/// After an insertion the vertex is found under its value, which is
/// recorded for it.
pub proof fn lemma_found_after_insert(s: IndexState, v: u64, val: PropertyValueView)
    ensures
        lookup(state_inserted(s, v, val), val).contains(v),
        state_inserted(s, v, val).vals[v] == val,
{
    let t = state_inserted(s, v, val);
    assert(t.ids[val].last() == v);
    assert(t.ids[val][t.ids[val].len() - 1] == v);
}

/// In a consistent index, after removing a vertex no value lists it.
pub proof fn lemma_gone_after_remove(s: IndexState, v: u64)
    requires
        consistent(s),
    ensures
        forall|val: PropertyValueView| !(#[trigger] lookup(state_removed(s, v), val)).contains(v),
{
    let t = state_removed(s, v);
    assert forall|val: PropertyValueView| !(#[trigger] lookup(t, val)).contains(v) by {
        if s.vals.dom().contains(v) && s.ids.dom().contains(s.vals[v]) {
            lemma_without(s.ids[s.vals[v]], v);
        }
        if lookup(t, val).contains(v) {
            lemma_removed_shrinks(s, v);
            assert(lookup(s, val).contains(v));
            assert(s.ids.dom().contains(val) && s.ids[val].contains(v));
        }
    }
}

/// In a consistent index, an update lists the vertex under its new value
/// and under no other.
pub proof fn lemma_update_moves(s: IndexState, v: u64, val: PropertyValueView)
    requires
        consistent(s),
    ensures
        lookup(state_inserted(state_removed(s, v), v, val), val).contains(v),
        forall|other: PropertyValueView|
            other != val ==> !(#[trigger] lookup(state_inserted(state_removed(s, v), v, val), other)).contains(v),
{
    let s1 = state_removed(s, v);
    lemma_gone_after_remove(s, v);
    lemma_found_after_insert(s1, v, val);
    let s2 = if s1.unique && s1.ids.dom().contains(val) && s1.ids[val].len() > 0 {
        state_removed(s1, s1.ids[val][0])
    } else {
        s1
    };
    if s1.unique && s1.ids.dom().contains(val) && s1.ids[val].len() > 0 {
        lemma_removed_shrinks(s1, s1.ids[val][0]);
    }
    assert forall|other: PropertyValueView| other != val implies !(#[trigger] lookup(
        state_inserted(s1, v, val),
        other,
    )).contains(v) by {
        assert(lookup(state_inserted(s1, v, val), other) == lookup(s2, other));
        assert(!lookup(s1, other).contains(v));
    }
}

// ── completeness: every vertex listed under its value ─────────────────────────

/// For a non-unique index: every vertex of `vm` that has the index's key is
/// listed under its value. (A unique index lists one vertex per value.)
pub open spec fn complete_for(s: IndexState, vm: Map<u64, PropMap>) -> bool {
    !s.unique ==> forall|v: u64|
        #[trigger] vm.dom().contains(v) && vm[v].dom().contains(s.key) ==> lookup(s, vm[v][s.key]).contains(v)
}

/// Every index is complete for `vm`.
pub open spec fn indexes_complete(ss: Seq<IndexState>, vm: Map<u64, PropMap>) -> bool {
    forall|i: int| 0 <= i < ss.len() ==> complete_for(#[trigger] ss[i], vm)
}

/// `without` keeps every other id.
proof fn lemma_without_keeps(s: Seq<u64>, v: u64, u: u64)
    requires
        u != v,
        s.contains(u),
    ensures
        without(s, v).contains(u),
    decreases s.len(),
{
    let w = without(s.drop_last(), v);
    if s.last() == u {
        assert(w.push(u)[w.len() as int] == u);
    } else {
        let i = choose|i: int| 0 <= i < s.len() && s[i] == u;
        assert(s.drop_last()[i] == u);
        lemma_without_keeps(s.drop_last(), v, u);
        if s.last() != v {
            let j = choose|j: int| 0 <= j < w.len() && w[j] == u;
            assert(w.push(s.last())[j] == u);
        }
    }
}

/// Removing `v` keeps every other vertex where it was listed.
pub proof fn lemma_removed_keeps(s: IndexState, v: u64, u: u64, val: PropertyValueView)
    requires
        u != v,
        lookup(s, val).contains(u),
    ensures
        lookup(state_removed(s, v), val).contains(u),
{
    if s.vals.dom().contains(v) && s.ids.dom().contains(s.vals[v]) && s.vals[v] == val {
        lemma_without_keeps(s.ids[val], v, u);
        lemma_without(s.ids[val], v);
        assert(without(s.ids[val], v).len() > 0) by {
            let j = choose|j: int| 0 <= j < without(s.ids[val], v).len() && without(s.ids[val], v)[j] == u;
        }
    }
}

/// In a non-unique index, inserting `v` keeps every other vertex where it
/// was listed.
pub proof fn lemma_inserted_keeps(s: IndexState, v: u64, x: PropertyValueView, u: u64, val: PropertyValueView)
    requires
        !s.unique,
        lookup(s, val).contains(u),
    ensures
        lookup(state_inserted(s, v, x), val).contains(u),
{
    if val == x {
        let l = lookup(s, val);
        let j = choose|j: int| 0 <= j < l.len() && l[j] == u;
        assert(l.push(v)[j] == u);
    }
}

/// Adding a vertex keeps every index complete.
pub proof fn lemma_added_complete(ss: Seq<IndexState>, vm: Map<u64, PropMap>, id: u64, pm: PropMap)
    requires
        indexes_complete(ss, vm),
    ensures
        indexes_complete(added(ss, id, pm), vm.insert(id, pm)),
{
    let vm2 = vm.insert(id, pm);
    assert forall|i: int| 0 <= i < ss.len() implies complete_for(#[trigger] added(ss, id, pm)[i], vm2) by {
        let s = ss[i];
        let t = added(ss, id, pm)[i];
        if !t.unique {
            assert forall|v: u64| #[trigger] vm2.dom().contains(v) && vm2[v].dom().contains(t.key) implies lookup(
                t,
                vm2[v][t.key],
            ).contains(v) by {
                if v == id {
                    lemma_found_after_insert(s, id, pm[s.key]);
                } else {
                    assert(vm.dom().contains(v));
                    if pm.dom().contains(s.key) {
                        lemma_inserted_keeps(s, id, pm[s.key], v, vm[v][s.key]);
                    }
                }
            }
        }
    }
}

/// Removing a vertex from the graph and from the indexes keeps every index
/// complete.
pub proof fn lemma_deleted_complete(ss: Seq<IndexState>, vm: Map<u64, PropMap>, id: u64, pm: PropMap)
    requires
        indexes_complete(ss, vm),
    ensures
        indexes_complete(deleted(ss, id, pm), vm.remove(id)),
{
    let vm2 = vm.remove(id);
    assert forall|i: int| 0 <= i < ss.len() implies complete_for(#[trigger] deleted(ss, id, pm)[i], vm2) by {
        let s = ss[i];
        let t = deleted(ss, id, pm)[i];
        if !t.unique {
            assert forall|v: u64| #[trigger] vm2.dom().contains(v) && vm2[v].dom().contains(t.key) implies lookup(
                t,
                vm2[v][t.key],
            ).contains(v) by {
                assert(vm.dom().contains(v));
                if pm.dom().contains(s.key) {
                    lemma_removed_keeps(s, id, v, vm[v][s.key]);
                }
            }
        }
    }
}

/// Removing a vertex from the graph alone keeps every index complete.
pub proof fn lemma_forgotten_complete(ss: Seq<IndexState>, vm: Map<u64, PropMap>, id: u64)
    requires
        indexes_complete(ss, vm),
    ensures
        indexes_complete(ss, vm.remove(id)),
{
    assert forall|i: int| 0 <= i < ss.len() implies complete_for(#[trigger] ss[i], vm.remove(id)) by {
        if !ss[i].unique {
            assert forall|v: u64| #[trigger] vm.remove(id).dom().contains(v) && vm.remove(id)[v].dom().contains(ss[i].key)
                implies lookup(ss[i], vm.remove(id)[v][ss[i].key]).contains(v) by {
                assert(vm.dom().contains(v));
            }
        }
    }
}

/// Adding vertices without properties keeps every index complete.
pub proof fn lemma_bare_complete(ss: Seq<IndexState>, vm: Map<u64, PropMap>, id: u64)
    requires
        indexes_complete(ss, vm),
    ensures
        indexes_complete(ss, if vm.dom().contains(id) { vm } else { vm.insert(id, Map::empty()) }),
{
    let vm2 = if vm.dom().contains(id) { vm } else { vm.insert(id, Map::empty()) };
    assert forall|i: int| 0 <= i < ss.len() implies complete_for(#[trigger] ss[i], vm2) by {
        if !ss[i].unique {
            assert forall|v: u64| #[trigger] vm2.dom().contains(v) && vm2[v].dom().contains(ss[i].key) implies lookup(
                ss[i],
                vm2[v][ss[i].key],
            ).contains(v) by {
                if v != id || vm.dom().contains(id) {
                    assert(vm.dom().contains(v));
                }
            }
        }
    }
}

/// Changing the properties of a vertex, in the graph and in the indexes,
/// keeps every index complete.
pub proof fn lemma_changed_complete(ss: Seq<IndexState>, vm: Map<u64, PropMap>, id: u64, nm: PropMap)
    requires
        indexes_complete(ss, vm),
        vm.dom().contains(id),
    ensures
        indexes_complete(changed(ss, id, vm[id], nm), vm.insert(id, nm)),
{
    let om = vm[id];
    let vm2 = vm.insert(id, nm);
    assert forall|i: int| 0 <= i < ss.len() implies complete_for(#[trigger] changed(ss, id, om, nm)[i], vm2) by {
        let s = ss[i];
        let t = changed(ss, id, om, nm)[i];
        assert(t == state_changed(s, id, om, nm));
        if !t.unique {
            assert forall|v: u64| #[trigger] vm2.dom().contains(v) && vm2[v].dom().contains(t.key) implies lookup(
                t,
                vm2[v][t.key],
            ).contains(v) by {
                if v == id {
                    if value_for(om, s.key) != value_for(nm, s.key) {
                        lemma_found_after_insert(state_removed(s, id), id, nm[s.key]);
                    } else {
                        assert(vm[id].dom().contains(s.key));
                    }
                } else {
                    assert(vm.dom().contains(v));
                    let val = vm[v][s.key];
                    if value_for(om, s.key) != value_for(nm, s.key) {
                        lemma_removed_keeps(s, id, v, val);
                        if nm.dom().contains(s.key) {
                            lemma_inserted_keeps(state_removed(s, id), id, nm[s.key], v, val);
                        }
                    }
                }
            }
        }
    }
}

/// Rebuilding the indexes on `key` keeps each index's definition, leaves
/// the other indexes alone, and lists under its value every vertex of
/// `ids` that has `key`.
proof fn lemma_rebuilt_prefix(ss: Seq<IndexState>, key: Seq<char>, ids: Seq<u64>, vm: Map<u64, PropMap>)
    ensures
        added_all(cleared(ss, Some(key)), Some(key), ids, vm).len() == ss.len(),
        forall|i: int|
            0 <= i < ss.len() ==> {
                let t = #[trigger] added_all(cleared(ss, Some(key)), Some(key), ids, vm)[i];
                &&& t.key == ss[i].key
                &&& t.unique == ss[i].unique
                &&& ss[i].key != key ==> t == ss[i]
                &&& (ss[i].key == key && !ss[i].unique) ==> forall|v: u64|
                    #[trigger] ids.contains(v) && vm[v].dom().contains(key) ==> lookup(t, vm[v][key]).contains(v)
            },
    decreases ids.len(),
{
    let c = cleared(ss, Some(key));
    if ids.len() == 0 {
        assert forall|i: int| 0 <= i < ss.len() implies {
            let t = #[trigger] added_all(c, Some(key), ids, vm)[i];
            &&& t.key == ss[i].key
            &&& t.unique == ss[i].unique
            &&& ss[i].key != key ==> t == ss[i]
            &&& (ss[i].key == key && !ss[i].unique) ==> forall|v: u64|
                #[trigger] ids.contains(v) && vm[v].dom().contains(key) ==> lookup(t, vm[v][key]).contains(v)
        } by {
            assert(added_all(c, Some(key), ids, vm) == c);
        }
    } else {
        let prev = ids.drop_last();
        let x = ids.last();
        lemma_rebuilt_prefix(ss, key, prev, vm);
        let before = added_all(c, Some(key), prev, vm);
        let after = added_all(c, Some(key), ids, vm);
        assert forall|i: int| 0 <= i < ss.len() implies {
            let t = #[trigger] added_all(c, Some(key), ids, vm)[i];
            &&& t.key == ss[i].key
            &&& t.unique == ss[i].unique
            &&& ss[i].key != key ==> t == ss[i]
            &&& (ss[i].key == key && !ss[i].unique) ==> forall|v: u64|
                #[trigger] ids.contains(v) && vm[v].dom().contains(key) ==> lookup(t, vm[v][key]).contains(v)
        } by {
            let b = before[i];
            let t = after[i];
            if ss[i].key == key && !ss[i].unique {
                assert forall|v: u64| #[trigger] ids.contains(v) && vm[v].dom().contains(key) implies lookup(
                    t,
                    vm[v][key],
                ).contains(v) by {
                    if v == x {
                        lemma_found_after_insert(b, x, vm[x][key]);
                    } else {
                        let j = choose|j: int| 0 <= j < ids.len() && ids[j] == v;
                        assert(prev[j] == v);
                        assert(prev.contains(v));
                        if vm[x].dom().contains(key) {
                            lemma_inserted_keeps(b, x, vm[x][key], v, vm[v][key]);
                        }
                    }
                }
            }
        }
    }
}

/// Rebuilding the indexes on `key` from every vertex makes them complete,
/// when the others were.
pub proof fn lemma_rebuilt_complete(ss: Seq<IndexState>, key: Seq<char>, ids: Seq<u64>, vm: Map<u64, PropMap>)
    requires
        forall|i: int| 0 <= i < ss.len() && ss[i].key != key ==> complete_for(#[trigger] ss[i], vm),
        forall|v: u64| #[trigger] vm.dom().contains(v) ==> ids.contains(v),
    ensures
        indexes_complete(added_all(cleared(ss, Some(key)), Some(key), ids, vm), vm),
{
    lemma_rebuilt_prefix(ss, key, ids, vm);
    let t = added_all(cleared(ss, Some(key)), Some(key), ids, vm);
    assert forall|i: int| 0 <= i < t.len() implies complete_for(#[trigger] t[i], vm) by {
        if ss[i].key == key && !ss[i].unique {
            assert forall|v: u64| #[trigger] vm.dom().contains(v) && vm[v].dom().contains(t[i].key) implies lookup(
                t[i],
                vm[v][t[i].key],
            ).contains(v) by {
                assert(ids.contains(v));
            }
        }
    }
}

/// What [`first_on`] finds: an index on `key`, the first one.
pub proof fn lemma_first_on(ss: Seq<IndexState>, key: Seq<char>)
    ensures
        match first_on(ss, key) {
            Some(i) => 0 <= i < ss.len() && ss[i].key == key && forall|j: int| 0 <= j < i ==> ss[j].key != key,
            None => forall|j: int| 0 <= j < ss.len() ==> ss[j].key != key,
        },
{
    reveal(first_on);
    if exists|i: int| 0 <= i < ss.len() && #[trigger] ss[i].key == key {
        let w = choose|i: int| 0 <= i < ss.len() && #[trigger] ss[i].key == key;
        lemma_least_on(ss, key, w);
    }
}

/// Below any index on `key` there is a first one.
proof fn lemma_least_on(ss: Seq<IndexState>, key: Seq<char>, w: int)
    requires
        0 <= w < ss.len(),
        ss[w].key == key,
    ensures
        exists|i: int| 0 <= i < ss.len() && #[trigger] ss[i].key == key && forall|j: int| 0 <= j < i ==> ss[j].key != key,
    decreases w,
{
    if exists|j: int| 0 <= j < w && ss[j].key == key {
        let j = choose|j: int| 0 <= j < w && ss[j].key == key;
        lemma_least_on(ss, key, j);
    } else {
        assert(forall|j: int| 0 <= j < w ==> ss[j].key != key);
    }
}

} // verus!
