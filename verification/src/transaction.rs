//! Transactions over a [`PersistentGraph`]: each write is applied at once
//! and remembered with what it replaced, so that a rollback can undo the
//! writes in reverse order. Writing the log to disk is the caller's part.

use vstd::prelude::*;
use crate::axol_format::PropMap;
use crate::graph_query::EdgeMap;
use crate::persistent_graph::{PersistentGraph, with_vertex};
use crate::properties::Properties;

verus! {

/// Where a transaction stands.
#[derive(Debug, Clone, Copy, PartialEq, Eq, Structural)]
pub enum TxState {
    Active,
    Committed,
    RolledBack,
}

/// Why a transaction refused an operation.
#[derive(Debug, Clone, Copy, PartialEq, Eq, Structural)]
pub enum TxError {
    /// The transaction was already committed or rolled back.
    NotActive,
}

/// A write of a transaction with what it replaced; an added edge also
/// remembers which of its endpoints it created.
#[derive(Debug)]
pub enum WriteOp {
    AddVertex { id: u64, old_vertex: Option<Properties> },
    AddEdge { from: u64, to: u64, old_edge: Option<(u64, Properties)>, created_from: bool, created_to: bool },
    DeleteVertex { id: u64, old_vertex: Option<Properties> },
    DeleteEdge { from: u64, to: u64, old_edge: Option<(u64, Properties)> },
}

/// A write as a mathematical value.
pub enum WriteOpView {
    AddVertex { id: u64, old_vertex: Option<PropMap> },
    AddEdge { from: u64, to: u64, old_edge: Option<(u64, PropMap)>, created_from: bool, created_to: bool },
    DeleteVertex { id: u64, old_vertex: Option<PropMap> },
    DeleteEdge { from: u64, to: u64, old_edge: Option<(u64, PropMap)> },
}

/// Optional properties as an optional map.
pub open spec fn opt_props(o: Option<Properties>) -> Option<PropMap> {
    match o {
        Some(p) => Some(p.map()),
        None => None,
    }
}

/// Optional weight and properties as values.
pub open spec fn opt_edge(o: Option<(u64, Properties)>) -> Option<(u64, PropMap)> {
    match o {
        Some((w, p)) => Some((w, p.map())),
        None => None,
    }
}

impl View for WriteOp {
    type V = WriteOpView;

    open spec fn view(&self) -> WriteOpView {
        match self {
            WriteOp::AddVertex { id, old_vertex } => WriteOpView::AddVertex { id: *id, old_vertex: opt_props(*old_vertex) },
            WriteOp::AddEdge { from, to, old_edge, created_from, created_to } => WriteOpView::AddEdge {
                from: *from,
                to: *to,
                old_edge: opt_edge(*old_edge),
                created_from: *created_from,
                created_to: *created_to,
            },
            WriteOp::DeleteVertex { id, old_vertex } => WriteOpView::DeleteVertex { id: *id, old_vertex: opt_props(*old_vertex) },
            WriteOp::DeleteEdge { from, to, old_edge } => WriteOpView::DeleteEdge { from: *from, to: *to, old_edge: opt_edge(*old_edge) },
        }
    }
}

/// A graph's vertices and edges.
pub type GraphState = (Map<u64, PropMap>, EdgeMap);

/// A write asked of a transaction.
pub enum Request {
    AddVertex { id: u64, props: PropMap },
    AddEdge { from: u64, to: u64, weight_bits: u64, props: PropMap },
    DeleteVertex { id: u64 },
    DeleteEdge { from: u64, to: u64 },
}

/// The value under `k`, if any.
pub open spec fn lookup<K, V>(m: Map<K, V>, k: K) -> Option<V> {
    if m.dom().contains(k) {
        Some(m[k])
    } else {
        None
    }
}

/// The graph after a write.
pub open spec fn apply_request(s: GraphState, r: Request) -> GraphState {
    match r {
        Request::AddVertex { id, props } => (s.0.insert(id, props), s.1),
        Request::AddEdge { from, to, weight_bits, props } => (with_vertex(with_vertex(s.0, from), to), s.1.insert((from, to), (weight_bits, props))),
        Request::DeleteVertex { id } => (s.0.remove(id), s.1),
        Request::DeleteEdge { from, to } => (s.0, s.1.remove((from, to))),
    }
}

/// What a transaction remembers of a write made on `s`.
pub open spec fn record(s: GraphState, r: Request) -> WriteOpView {
    match r {
        Request::AddVertex { id, .. } => WriteOpView::AddVertex { id, old_vertex: lookup(s.0, id) },
        Request::AddEdge { from, to, .. } => WriteOpView::AddEdge {
            from,
            to,
            old_edge: lookup(s.1, (from, to)),
            created_from: !s.0.dom().contains(from),
            created_to: !s.0.dom().contains(to) && to != from,
        },
        Request::DeleteVertex { id } => WriteOpView::DeleteVertex { id, old_vertex: lookup(s.0, id) },
        Request::DeleteEdge { from, to } => WriteOpView::DeleteEdge { from, to, old_edge: lookup(s.1, (from, to)) },
    }
}

/// `vm` without `id` when `gone` holds.
pub open spec fn drop_if(vm: Map<u64, PropMap>, id: u64, gone: bool) -> Map<u64, PropMap> {
    if gone {
        vm.remove(id)
    } else {
        vm
    }
}

/// What rolling back one write does: what a write replaced is put back
/// (a vertex's former properties, an edge's former weight and
/// properties), what it created is removed (an added vertex or edge, and
/// the endpoints an added edge created), and a deleted vertex or edge is
/// put back (if it existed).
pub open spec fn undo(s: GraphState, op: WriteOpView) -> GraphState {
    match op {
        WriteOpView::AddVertex { id, old_vertex } => match old_vertex {
            Some(p) => (s.0.insert(id, p), s.1),
            None => (s.0.remove(id), s.1),
        },
        WriteOpView::AddEdge { from, to, old_edge, created_from, created_to } => (
            drop_if(drop_if(s.0, to, created_to), from, created_from),
            match old_edge {
                Some(e) => s.1.insert((from, to), e),
                None => s.1.remove((from, to)),
            },
        ),
        WriteOpView::DeleteVertex { id, old_vertex } => match old_vertex {
            Some(p) => (s.0.insert(id, p), s.1),
            None => s,
        },
        WriteOpView::DeleteEdge { from, to, old_edge } => match old_edge {
            Some(e) => (s.0, s.1.insert((from, to), e)),
            None => s,
        },
    }
}

/// Rolling back writes, the last first.
pub open spec fn undo_all(s: GraphState, ops: Seq<WriteOpView>) -> GraphState
    decreases ops.len(),
{
    if ops.len() == 0 {
        s
    } else {
        undo_all(undo(s, ops.last()), ops.drop_last())
    }
}

/// The properties a write remembers have no repeated keys.
pub open spec fn op_wf(o: WriteOp) -> bool {
    match o {
        WriteOp::AddVertex { old_vertex, .. } => old_vertex matches Some(p) ==> p.wf(),
        WriteOp::AddEdge { old_edge, .. } => old_edge matches Some((w, p)) ==> p.wf(),
        WriteOp::DeleteVertex { old_vertex, .. } => old_vertex matches Some(p) ==> p.wf(),
        WriteOp::DeleteEdge { old_edge, .. } => old_edge matches Some((w, p)) ==> p.wf(),
    }
}

/// A transaction's state and the writes it made.
pub struct Transaction {
    tx_id: u64,
    state: TxState,
    write_ops: Vec<WriteOp>,
}

impl Transaction {
    /// Its id.
    pub closed spec fn id(&self) -> u64 {
        self.tx_id
    }

    /// Where it stands.
    pub closed spec fn status(&self) -> TxState {
        self.state
    }

    /// The writes made, in order.
    pub closed spec fn ops(&self) -> Seq<WriteOpView> {
        self.write_ops@.map_values(|o: WriteOp| o@)
    }

    /// What it remembers is well formed.
    pub closed spec fn wf(&self) -> bool {
        forall|i: int| 0 <= i < self.write_ops@.len() ==> op_wf(#[trigger] self.write_ops@[i])
    }

    /// An active transaction with id `tx_id` and no writes.
    pub fn begin(tx_id: u64) -> (t: Self)
        ensures
            t.wf(),
            t.id() == tx_id,
            t.status() == TxState::Active,
            t.ops().len() == 0,
    {
        let t = Transaction { tx_id, state: TxState::Active, write_ops: Vec::new() };
        proof {
            assert(t.ops() =~= Seq::<WriteOpView>::empty());
        }
        t
    }

    /// Its id.
    pub fn tx_id(&self) -> (r: u64)
        ensures
            r == self.id(),
    {
        self.tx_id
    }

    /// Where it stands.
    pub fn state(&self) -> (r: TxState)
        ensures
            r == self.status(),
    {
        self.state
    }

    /// Adds vertex `id` with `properties` to `graph`, remembering its former
    /// properties.
    pub fn add_vertex(&mut self, graph: &mut PersistentGraph, id: u64, properties: Properties) -> (r: Result<(), TxError>)
        requires
            old(self).wf(),
            old(graph).wf(),
            properties.wf(),
        ensures
            final(self).wf(),
            final(graph).wf(),
            final(graph).path() == old(graph).path(),
            final(self).id() == old(self).id(),
            final(self).status() == old(self).status(),
            old(self).status() != TxState::Active ==> r == Err::<(), TxError>(TxError::NotActive) && *final(graph) == *old(graph)
                && final(self).ops() == old(self).ops(),
            old(self).status() == TxState::Active ==> r is Ok && ({
                let s = (old(graph).vertex_map(), old(graph).edge_map());
                let q = Request::AddVertex { id, props: properties.map() };
                &&& (final(graph).vertex_map(), final(graph).edge_map()) == apply_request(s, q)
                &&& final(self).ops() == old(self).ops().push(record(s, q))
            }),
    {
        if self.state != TxState::Active {
            return Err(TxError::NotActive);
        }
        let old_vertex = match graph.get_vertex(id) {
            Some(p) => Some(p.duplicate()),
            None => None,
        };
        let ghost o0 = self.ops();
        let ghost w0 = self.write_ops@;
        self.write_ops.push(WriteOp::AddVertex { id, old_vertex });
        proof {
            assert(self.ops() =~= o0.push(self.write_ops@.last()@));
            assert forall|i: int| 0 <= i < self.write_ops@.len() implies op_wf(#[trigger] self.write_ops@[i]) by {
                if i < w0.len() {
                    assert(self.write_ops@[i] == w0[i]);
                }
            }
        }
        graph.add_vertex(id, properties);
        Ok(())
    }

    /// Adds the edge `from -> to` to `graph`, remembering the edge it
    /// replaced.
    pub fn add_edge(
        &mut self,
        graph: &mut PersistentGraph,
        from: u64,
        to: u64,
        weight_bits: u64,
        properties: Properties,
    ) -> (r: Result<(), TxError>)
        requires
            old(self).wf(),
            old(graph).wf(),
            properties.wf(),
        ensures
            final(self).wf(),
            final(graph).wf(),
            final(graph).path() == old(graph).path(),
            final(self).id() == old(self).id(),
            final(self).status() == old(self).status(),
            old(self).status() != TxState::Active ==> r == Err::<(), TxError>(TxError::NotActive) && *final(graph) == *old(graph)
                && final(self).ops() == old(self).ops(),
            old(self).status() == TxState::Active ==> r is Ok && ({
                let s = (old(graph).vertex_map(), old(graph).edge_map());
                let q = Request::AddEdge { from, to, weight_bits, props: properties.map() };
                &&& (final(graph).vertex_map(), final(graph).edge_map()) == apply_request(s, q)
                &&& final(self).ops() == old(self).ops().push(record(s, q))
            }),
    {
        if self.state != TxState::Active {
            return Err(TxError::NotActive);
        }
        let old_edge = match graph.get_edge(from, to) {
            Some(e) => Some((e.weight_bits, e.properties.duplicate())),
            None => None,
        };
        let created_from = !graph.contains_vertex(from);
        let created_to = !graph.contains_vertex(to) && to != from;
        let ghost o0 = self.ops();
        let ghost w0 = self.write_ops@;
        self.write_ops.push(WriteOp::AddEdge { from, to, old_edge, created_from, created_to });
        proof {
            assert(self.ops() =~= o0.push(self.write_ops@.last()@));
            assert forall|i: int| 0 <= i < self.write_ops@.len() implies op_wf(#[trigger] self.write_ops@[i]) by {
                if i < w0.len() {
                    assert(self.write_ops@[i] == w0[i]);
                }
            }
        }
        graph.add_edge(from, to, weight_bits, properties);
        Ok(())
    }

    /// Removes the vertex entry `id` from `graph` (its edges stay),
    /// remembering its properties.
    pub fn delete_vertex(&mut self, graph: &mut PersistentGraph, id: u64) -> (r: Result<(), TxError>)
        requires
            old(self).wf(),
            old(graph).wf(),
        ensures
            final(self).wf(),
            final(graph).wf(),
            final(graph).path() == old(graph).path(),
            final(self).id() == old(self).id(),
            final(self).status() == old(self).status(),
            old(self).status() != TxState::Active ==> r == Err::<(), TxError>(TxError::NotActive) && *final(graph) == *old(graph)
                && final(self).ops() == old(self).ops(),
            old(self).status() == TxState::Active ==> r is Ok && ({
                let s = (old(graph).vertex_map(), old(graph).edge_map());
                let q = Request::DeleteVertex { id };
                &&& (final(graph).vertex_map(), final(graph).edge_map()) == apply_request(s, q)
                &&& final(self).ops() == old(self).ops().push(record(s, q))
            }),
    {
        if self.state != TxState::Active {
            return Err(TxError::NotActive);
        }
        let old_vertex = match graph.get_vertex(id) {
            Some(p) => Some(p.duplicate()),
            None => None,
        };
        let ghost o0 = self.ops();
        let ghost w0 = self.write_ops@;
        self.write_ops.push(WriteOp::DeleteVertex { id, old_vertex });
        proof {
            assert(self.ops() =~= o0.push(self.write_ops@.last()@));
            assert forall|i: int| 0 <= i < self.write_ops@.len() implies op_wf(#[trigger] self.write_ops@[i]) by {
                if i < w0.len() {
                    assert(self.write_ops@[i] == w0[i]);
                }
            }
        }
        graph.remove_vertex_entry(id);
        Ok(())
    }

    /// Removes the edge `from -> to` from `graph`, remembering it.
    pub fn delete_edge(&mut self, graph: &mut PersistentGraph, from: u64, to: u64) -> (r: Result<(), TxError>)
        requires
            old(self).wf(),
            old(graph).wf(),
        ensures
            final(self).wf(),
            final(graph).wf(),
            final(graph).path() == old(graph).path(),
            final(self).id() == old(self).id(),
            final(self).status() == old(self).status(),
            old(self).status() != TxState::Active ==> r == Err::<(), TxError>(TxError::NotActive) && *final(graph) == *old(graph)
                && final(self).ops() == old(self).ops(),
            old(self).status() == TxState::Active ==> r is Ok && ({
                let s = (old(graph).vertex_map(), old(graph).edge_map());
                let q = Request::DeleteEdge { from, to };
                &&& (final(graph).vertex_map(), final(graph).edge_map()) == apply_request(s, q)
                &&& final(self).ops() == old(self).ops().push(record(s, q))
            }),
    {
        if self.state != TxState::Active {
            return Err(TxError::NotActive);
        }
        let old_edge = match graph.get_edge(from, to) {
            Some(e) => Some((e.weight_bits, e.properties.duplicate())),
            None => None,
        };
        let ghost o0 = self.ops();
        let ghost w0 = self.write_ops@;
        self.write_ops.push(WriteOp::DeleteEdge { from, to, old_edge });
        proof {
            assert(self.ops() =~= o0.push(self.write_ops@.last()@));
            assert forall|i: int| 0 <= i < self.write_ops@.len() implies op_wf(#[trigger] self.write_ops@[i]) by {
                if i < w0.len() {
                    assert(self.write_ops@[i] == w0[i]);
                }
            }
        }
        let _ = graph.delete_edge(from, to);
        Ok(())
    }

    /// Commits: the writes stay.
    pub fn commit(&mut self) -> (r: Result<(), TxError>)
        requires
            old(self).wf(),
        ensures
            final(self).wf(),
            final(self).id() == old(self).id(),
            final(self).ops() == old(self).ops(),
            old(self).status() != TxState::Active ==> r == Err::<(), TxError>(TxError::NotActive)
                && final(self).status() == old(self).status(),
            old(self).status() == TxState::Active ==> r is Ok && final(self).status() == TxState::Committed,
    {
        if self.state != TxState::Active {
            return Err(TxError::NotActive);
        }
        self.state = TxState::Committed;
        Ok(())
    }

    /// Rolls back: undoes the writes on `graph`, the last first.
    pub fn rollback(&mut self, graph: &mut PersistentGraph) -> (r: Result<(), TxError>)
        requires
            old(self).wf(),
            old(graph).wf(),
        ensures
            final(self).wf(),
            final(graph).wf(),
            final(graph).path() == old(graph).path(),
            final(self).id() == old(self).id(),
            final(self).ops() == old(self).ops(),
            old(self).status() != TxState::Active ==> r == Err::<(), TxError>(TxError::NotActive) && *final(graph) == *old(graph)
                && final(self).status() == old(self).status(),
            old(self).status() == TxState::Active ==> r is Ok && final(self).status() == TxState::RolledBack
                && (final(graph).vertex_map(), final(graph).edge_map())
                    == undo_all((old(graph).vertex_map(), old(graph).edge_map()), old(self).ops()),
    {
        if self.state != TxState::Active {
            return Err(TxError::NotActive);
        }
        let ghost ops = self.ops();
        let ghost s0 = (graph.vertex_map(), graph.edge_map());
        let mut k = self.write_ops.len();
        proof {
            assert(ops.take(k as int) =~= ops);
        }
        while k > 0
            invariant
                self.wf(),
                graph.wf(),
                graph.path() == old(graph).path(),
                ops == self.ops(),
                k <= ops.len(),
                undo_all(s0, ops) == undo_all((graph.vertex_map(), graph.edge_map()), ops.take(k as int)),
            decreases k,
        {
            k = k - 1;
            let ghost before = (graph.vertex_map(), graph.edge_map());
            proof {
                assert(ops.take(k + 1).drop_last() =~= ops.take(k as int));
                assert(ops.take(k + 1).last() == ops[k as int]);
                assert(ops[k as int] == self.write_ops@[k as int]@);
                assert(op_wf(self.write_ops@[k as int]));
            }
            match &self.write_ops[k] {
                WriteOp::AddVertex { id, old_vertex } => {
                    match old_vertex {
                        Some(p) => {
                            graph.add_vertex(*id, p.duplicate());
                        },
                        None => {
                            graph.remove_vertex_entry(*id);
                        },
                    }
                },
                WriteOp::AddEdge { from, to, old_edge, created_from, created_to } => {
                    match old_edge {
                        Some((w, p)) => {
                            graph.put_edge(*from, *to, *w, p.duplicate());
                        },
                        None => {
                            let _ = graph.delete_edge(*from, *to);
                        },
                    }
                    if *created_to {
                        graph.remove_vertex_entry(*to);
                    }
                    if *created_from {
                        graph.remove_vertex_entry(*from);
                    }
                },
                WriteOp::DeleteVertex { id, old_vertex } => {
                    match old_vertex {
                        Some(p) => {
                            graph.add_vertex(*id, p.duplicate());
                        },
                        None => {},
                    }
                },
                WriteOp::DeleteEdge { from, to, old_edge } => {
                    match old_edge {
                        Some((w, p)) => {
                            graph.put_edge(*from, *to, *w, p.duplicate());
                        },
                        None => {},
                    }
                },
            }
            proof {
                assert((graph.vertex_map(), graph.edge_map()) == undo(before, ops[k as int]));
            }
        }
        proof {
            assert(ops.take(0) =~= Seq::<WriteOpView>::empty());
        }
        self.state = TxState::RolledBack;
        Ok(())
    }
}

/// Applying writes in turn from `s`: the graph after them and what a
/// transaction remembers of them.
pub open spec fn run(s: GraphState, qs: Seq<Request>) -> (GraphState, Seq<WriteOpView>)
    decreases qs.len(),
{
    if qs.len() == 0 {
        (s, seq![])
    } else {
        let (s1, log) = run(s, qs.drop_last());
        (apply_request(s1, qs.last()), log.push(record(s1, qs.last())))
    }
}

/// Rolling back undoes a transaction: after any run of writes, undoing
/// the remembered writes in reverse order gives the graph back as it was
/// before the run.
pub proof fn lemma_rollback_restores(s: GraphState, qs: Seq<Request>)
    ensures
        undo_all(run(s, qs).0, run(s, qs).1) == s,
    decreases qs.len(),
{
    if qs.len() > 0 {
        let (s1, log) = run(s, qs.drop_last());
        let q = qs.last();
        let s2 = apply_request(s1, q);
        let op = record(s1, q);
        assert(run(s, qs).1.drop_last() =~= log);
        assert(run(s, qs).1.last() == op);
        match q {
            Request::AddVertex { id, props } => {
                if s1.0.dom().contains(id) {
                    assert(s2.0.insert(id, s1.0[id]) =~= s1.0);
                } else {
                    assert(s2.0.remove(id) =~= s1.0);
                }
            },
            Request::AddEdge { from, to, weight_bits, props } => {
                let cf = !s1.0.dom().contains(from);
                let ct = !s1.0.dom().contains(to) && to != from;
                assert(drop_if(drop_if(with_vertex(with_vertex(s1.0, from), to), to, ct), from, cf) =~= s1.0);
                if s1.1.dom().contains((from, to)) {
                    assert(s2.1.insert((from, to), s1.1[(from, to)]) =~= s1.1);
                } else {
                    assert(s2.1.remove((from, to)) =~= s1.1);
                }
            },
            Request::DeleteVertex { id } => {
                if s1.0.dom().contains(id) {
                    assert(s2.0.insert(id, s1.0[id]) =~= s1.0);
                } else {
                    assert(s2.0 =~= s1.0);
                }
            },
            Request::DeleteEdge { from, to } => {
                if s1.1.dom().contains((from, to)) {
                    assert(s2.1.insert((from, to), s1.1[(from, to)]) =~= s1.1);
                } else {
                    assert(s2.1 =~= s1.1);
                }
            },
        }
        assert(undo(s2, op) == s1);
        lemma_rollback_restores(s, qs.drop_last());
    }
}

} // verus!
