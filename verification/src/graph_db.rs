//! One handle over a graph that is either held in memory as EdgeBlock
//! storage (read and write) or read from a mapped AXOM file (read only).

use vstd::prelude::*;
use crate::gpu_edge_block::{with_id, GPUEdgeBlockGraph};
use crate::mmap_graph::{convert_from, axom_encoded, MmapGraph};
use crate::properties::Properties;
use crate::recovery::{rebuild_persistent, UNIT_WEIGHT_BITS};
use crate::edge_store::lemma_adjacency_in_range;

verus! {

/// Where the graph lives.
#[derive(Debug, Clone, Copy, PartialEq, Eq, Structural)]
pub enum GraphMode {
    /// Held in memory as EdgeBlock storage; read and write.
    InMemory,
    /// Read from a mapped AXOM file; read only.
    Mmap,
}

/// Why an operation failed.
#[derive(Debug)]
pub enum GraphDBError {
    Io(String),
    NotSupported(String),
    NotFound(String),
}

impl GraphDBError {
    /// The message carried by the error.
    pub fn message(&self) -> (r: &String)
        ensures
            r@ == match self {
                GraphDBError::Io(m) => m@,
                GraphDBError::NotSupported(m) => m@,
                GraphDBError::NotFound(m) => m@,
            },
    {
        match self {
            GraphDBError::Io(m) => m,
            GraphDBError::NotSupported(m) => m,
            GraphDBError::NotFound(m) => m,
        }
    }
}

/// A refusal with message `msg`.
fn not_supported(msg: &str) -> (r: GraphDBError)
    ensures
        r matches GraphDBError::NotSupported(m) && m@ == msg@,
{
    GraphDBError::NotSupported(String::from_str(msg))
}

/// A graph database handle.
pub struct GraphDB<'a> {
    mode: GraphMode,
    edgeblock: Option<GPUEdgeBlockGraph>,
    mmap: Option<MmapGraph<'a>>,
}

/// Edges read from the first `k` vertex indices of `eb`, in index order,
/// each as `(from, to)`.
pub open spec fn edges_upto(eb: GPUEdgeBlockGraph, k: int) -> Seq<(u64, u64)>
    decreases k,
{
    if k <= 0 {
        Seq::empty()
    } else {
        edges_upto(eb, k - 1) + eb.out_ids(k - 1).map_values(|t: u64| (eb.idx_to_id@[k - 1], t))
    }
}

impl<'a> GraphDB<'a> {
    /// The mode.
    pub closed spec fn mode_of(&self) -> GraphMode {
        self.mode
    }

    /// The EdgeBlock graph (in memory mode).
    pub closed spec fn memory(&self) -> GPUEdgeBlockGraph {
        self.edgeblock.unwrap()
    }

    /// The EdgeBlock graph is held and no mapped file.
    pub closed spec fn holds_edgeblock(&self) -> bool {
        self.edgeblock is Some && self.mmap is None
    }

    /// The mapped file (in mmap mode).
    pub closed spec fn mapped(&self) -> MmapGraph<'a> {
        self.mmap.unwrap()
    }

    /// In memory: a well-formed EdgeBlock graph whose property maps have no
    /// repeated keys. Mapped: a file whose indexes and data lie inside it.
    pub closed spec fn wf(&self) -> bool {
        match self.mode {
            GraphMode::InMemory => {
                &&& self.edgeblock is Some
                &&& self.mmap is None
                &&& self.memory().wf()
                &&& forall|k: int| 0 <= k < self.memory().vertex_props@.len() ==> (#[trigger] self.memory().vertex_props@[k]).wf()
            },
            GraphMode::Mmap => {
                &&& self.mmap is Some
                &&& self.edgeblock is None
                &&& self.mapped().layout_ok()
            },
        }
    }

    /// An empty in-memory database.
    pub fn new(mode: GraphMode) -> (db: GraphDB<'a>)
        requires
            mode == GraphMode::InMemory,
        ensures
            db.wf(),
            db.mode_of() == GraphMode::InMemory,
            db.memory().idx_to_id@.len() == 0,
            db.memory().total_edges == 0,
    {
        GraphDB { mode, edgeblock: Some(GPUEdgeBlockGraph::new()), mmap: None }
    }

    /// An empty in-memory database; the path names where it may later be
    /// saved and is not read.
    pub fn create_in_memory(file_path: &str) -> (r: Result<GraphDB<'a>, GraphDBError>)
        ensures
            r matches Ok(db) && db.wf() && db.mode_of() == GraphMode::InMemory && db.memory().idx_to_id@.len() == 0
                && db.memory().total_edges == 0,
    {
        Ok(GraphDB::new(GraphMode::InMemory))
    }

    /// An in-memory database over `eb`.
    pub fn from_edgeblock(eb: GPUEdgeBlockGraph) -> (db: GraphDB<'a>)
        requires
            eb.wf(),
            forall|k: int| 0 <= k < eb.vertex_props@.len() ==> (#[trigger] eb.vertex_props@[k]).wf(),
        ensures
            db.wf(),
            db.mode_of() == GraphMode::InMemory,
            db.memory() == eb,
    {
        GraphDB { mode: GraphMode::InMemory, edgeblock: Some(eb), mmap: None }
    }

    /// A read-only database over a mapped file; refused when an index
    /// entry lies outside the file.
    pub fn from_mmap(m: MmapGraph<'a>) -> (r: Result<GraphDB<'a>, GraphDBError>)
        ensures
            match r {
                Ok(db) => m.layout_ok() && db.wf() && db.mode_of() == GraphMode::Mmap && db.mapped() == m,
                Err(e) => !m.layout_ok() && e is Io,
            },
    {
        if m.check_layout() {
            Ok(GraphDB { mode: GraphMode::Mmap, edgeblock: None, mmap: Some(m) })
        } else {
            Err(GraphDBError::Io(String::from_str("index entries outside the file")))
        }
    }

    /// The mode.
    pub fn mode(&self) -> (r: GraphMode)
        ensures
            r == self.mode_of(),
    {
        self.mode
    }

    /// The EdgeBlock graph, in memory mode.
    pub fn edgeblock(&self) -> (r: Option<&GPUEdgeBlockGraph>)
        requires
            self.wf(),
        ensures
            match self.mode_of() {
                GraphMode::InMemory => r == Some(&self.memory()),
                GraphMode::Mmap => r is None,
            },
    {
        self.edgeblock.as_ref()
    }

    /// The EdgeBlock graph for change in place, in memory mode; what is
    /// done through it is what the database then holds.
    pub fn edgeblock_mut(&mut self) -> (r: Option<&mut GPUEdgeBlockGraph>)
        requires
            old(self).wf(),
        ensures
            final(self).mode_of() == old(self).mode_of(),
            old(self).mode_of() == GraphMode::InMemory ==> (r matches Some(e) && *e == old(self).memory()
                && final(self).memory() == *final(e) && final(self).holds_edgeblock()),
            old(self).mode_of() == GraphMode::Mmap ==> r is None && *final(self) == *old(self),
    {
        self.edgeblock.as_mut()
    }

    /// Number of vertices.
    pub fn vertex_count(&self) -> (n: usize)
        requires
            self.wf(),
        ensures
            n == match self.mode_of() {
                GraphMode::InMemory => self.memory().idx_to_id@.len() as int,
                GraphMode::Mmap => self.mapped().fields().0 as int,
            },
    {
        match &self.edgeblock {
            Some(eb) => eb.vertex_count as usize,
            None => match &self.mmap {
                Some(m) => m.vertex_count(),
                None => 0,
            },
        }
    }

    /// Number of edges (for a graph in memory, the edges added to it).
    pub fn edge_count(&self) -> (n: usize)
        requires
            self.wf(),
        ensures
            n == match self.mode_of() {
                GraphMode::InMemory => self.memory().total_edges as usize,
                GraphMode::Mmap => self.mapped().fields().1,
            },
    {
        match &self.edgeblock {
            Some(eb) => eb.total_edges as usize,
            None => match &self.mmap {
                Some(m) => m.edge_count(),
                None => 0,
            },
        }
    }

    /// Properties of vertex `id`.
    pub fn get_vertex(&self, id: u64) -> (r: Option<Properties>)
        requires
            self.wf(),
        ensures
            self.mode_of() == GraphMode::InMemory ==> match r {
                Some(p) => self.memory().has(id) && p.map() == self.memory().vertex_props@[self.memory().index_of(
                    id,
                )].map(),
                None => !self.memory().has(id),
            },
            self.mode_of() == GraphMode::Mmap ==> match self.mapped().vertex_probe(id, 0, self.mapped().fields().0 as int) {
                Some(i) => r matches Some(p) && p.map() == self.mapped().vprops(i),
                None => r is None,
            },
    {
        match &self.edgeblock {
            Some(eb) => match eb.get_vertex(id) {
                Some(p) => Some(p.duplicate()),
                None => None,
            },
            None => match &self.mmap {
                Some(m) => m.get_vertex(id),
                None => None,
            },
        }
    }

    /// Out-neighbours of `id`.
    pub fn out_neighbors(&self, id: u64) -> (r: Vec<u64>)
        requires
            self.wf(),
        ensures
            self.mode_of() == GraphMode::InMemory ==> r@ == self.memory().out_list(id),
            self.mode_of() == GraphMode::Mmap ==> r@ == self.mapped().scan_targets(
                id,
                self.mapped().source_start(id, 0, self.mapped().fields().1 as int),
            ),
            self.mode_of() == GraphMode::Mmap && self.mapped().edges_sorted() ==> r@ == self.mapped().targets_from(id, 0),
    {
        match &self.edgeblock {
            Some(eb) => eb.out_neighbors(id),
            None => match &self.mmap {
                Some(m) => m.out_neighbors(id),
                None => Vec::new(),
            },
        }
    }

    /// Every vertex with its properties: by index in memory, in file order
    /// when mapped.
    pub fn iter_vertices(&self) -> (r: Vec<(u64, Properties)>)
        requires
            self.wf(),
        ensures
            self.mode_of() == GraphMode::InMemory ==> {
                &&& r@.len() == self.memory().idx_to_id@.len()
                &&& forall|i: int| 0 <= i < r@.len() ==> (#[trigger] r@[i]).0 == self.memory().idx_to_id@[i]
                    && r@[i].1@ == self.memory().vertex_props@[i]@
            },
            self.mode_of() == GraphMode::Mmap ==> {
                &&& r@.len() == self.mapped().fields().0
                &&& forall|i: int| 0 <= i < r@.len() ==> (#[trigger] r@[i]).0 == self.mapped().vid(i)
                    && r@[i].1.map() == self.mapped().vprops(i)
            },
    {
        match &self.edgeblock {
            Some(eb) => {
                let mut r: Vec<(u64, Properties)> = Vec::new();
                let mut i: usize = 0;
                while i < eb.idx_to_id.len()
                    invariant
                        eb.wf(),
                        i <= eb.idx_to_id@.len(),
                        r@.len() == i,
                        forall|k: int| 0 <= k < i ==> (#[trigger] r@[k]).0 == eb.idx_to_id@[k] && r@[k].1@ == eb.vertex_props@[k]@,
                    decreases eb.idx_to_id@.len() - i,
                {
                    r.push((eb.idx_to_id[i], eb.vertex_props[i].duplicate()));
                    i = i + 1;
                }
                r
            },
            None => match &self.mmap {
                Some(m) => m.iter_vertices(),
                None => Vec::new(),
            },
        }
    }

    /// Every edge: in memory, those read from each vertex by index, with
    /// weight 1.0 and no properties; mapped, the file's edges in order.
    pub fn iter_edges(&self) -> (r: Vec<(u64, u64, u64, Properties)>)
        requires
            self.wf(),
        ensures
            self.mode_of() == GraphMode::InMemory ==> {
                &&& r@.len() == edges_upto(self.memory(), self.memory().idx_to_id@.len() as int).len()
                &&& forall|i: int|
                    0 <= i < r@.len() ==> ((#[trigger] r@[i]).0, r@[i].1) == edges_upto(
                        self.memory(),
                        self.memory().idx_to_id@.len() as int,
                    )[i] && r@[i].2 == UNIT_WEIGHT_BITS && r@[i].3@.len() == 0
            },
            self.mode_of() == GraphMode::Mmap ==> {
                &&& r@.len() == self.mapped().fields().1
                &&& forall|i: int|
                    0 <= i < r@.len() ==> (#[trigger] r@[i]).0 == self.mapped().efrom(i) && r@[i].1 == self.mapped().eto(i)
                        && r@[i].2 == self.mapped().eweight(i) && r@[i].3.map() == self.mapped().eprops(i)
            },
    {
        match &self.edgeblock {
            Some(eb) => {
                let n = eb.idx_to_id.len();
                let mut r: Vec<(u64, u64, u64, Properties)> = Vec::new();
                let mut i: usize = 0;
                while i < n
                    invariant
                        eb.wf(),
                        n == eb.idx_to_id@.len(),
                        i <= n,
                        r@.len() == edges_upto(*eb, i as int).len(),
                        forall|q: int|
                            0 <= q < r@.len() ==> ((#[trigger] r@[q]).0, r@[q].1) == edges_upto(*eb, i as int)[q] && r@[q].2
                                == UNIT_WEIGHT_BITS && r@[q].3@.len() == 0,
                    decreases n - i,
                {
                    let from = eb.idx_to_id[i];
                    let targets = eb.out_neighbors_by_idx(i);
                    let ghost before = edges_upto(*eb, i as int);
                    let ghost fresh = eb.out_ids(i as int).map_values(|t: u64| (eb.idx_to_id@[i as int], t));
                    let mut j: usize = 0;
                    while j < targets.len()
                        invariant
                            targets@ == eb.out_ids(i as int),
                            from == eb.idx_to_id@[i as int],
                            fresh == eb.out_ids(i as int).map_values(|t: u64| (eb.idx_to_id@[i as int], t)),
                            j <= targets@.len(),
                            r@.len() == before.len() + j,
                            forall|q: int|
                                0 <= q < r@.len() ==> ((#[trigger] r@[q]).0, r@[q].1) == (before + fresh)[q] && r@[q].2
                                    == UNIT_WEIGHT_BITS && r@[q].3@.len() == 0,
                        decreases targets@.len() - j,
                    {
                        let p = Properties::new();
                        r.push((from, targets[j], UNIT_WEIGHT_BITS, p));
                        j = j + 1;
                    }
                    proof {
                        assert(edges_upto(*eb, i + 1) == before + fresh);
                    }
                    i = i + 1;
                }
                r
            },
            None => match &self.mmap {
                Some(m) => m.iter_edges(),
                None => Vec::new(),
            },
        }
    }

    /// Adds (or replaces the properties of) vertex `id`; refused when the
    /// graph is mapped.
    pub fn add_vertex(&mut self, id: u64, properties: Properties) -> (r: Result<(), GraphDBError>)
        requires
            old(self).wf(),
            properties.wf(),
            old(self).mode_of() == GraphMode::InMemory ==> old(self).memory().idx_to_id@.len() + 1 <= 0xffff_ffff,
        ensures
            final(self).wf(),
            final(self).mode_of() == old(self).mode_of(),
            old(self).mode_of() == GraphMode::InMemory ==> {
                &&& r is Ok
                &&& final(self).memory().idx_to_id@ == with_id(old(self).memory().idx_to_id@, id)
                &&& final(self).memory().has(id)
                &&& final(self).memory().vertex_props@[final(self).memory().index_of(id)]@ == properties@
                &&& final(self).memory().total_edges == old(self).memory().total_edges
                &&& forall|k: u64| #[trigger] final(self).memory().out_list(k) == old(self).memory().out_list(k)
            },
            old(self).mode_of() == GraphMode::Mmap ==> *final(self) == *old(self) && (r matches Err(
                GraphDBError::NotSupported(m),
            ) && m@ == "add_vertex not supported in Mmap mode."@),
    {
        match self.mode {
            GraphMode::InMemory => {
                let mut eb = match self.edgeblock.take() {
                    Some(eb) => eb,
                    None => GPUEdgeBlockGraph::new(),
                };
                let ghost old_props = eb.vertex_props@;
                let ghost pv = properties@;
                let idx = eb.add_vertex(id, properties);
                proof {
                    assert forall|k: int| 0 <= k < eb.vertex_props@.len() implies (#[trigger] eb.vertex_props@[k]).wf() by {
                        if k != idx as int {
                            assert(eb.vertex_props@[k] == old_props[k]);
                        }
                    }
                }
                self.edgeblock = Some(eb);
                Ok(())
            },
            GraphMode::Mmap => Err(not_supported("add_vertex not supported in Mmap mode.")),
        }
    }

    /// Adds the edge `from -> to` (creating missing endpoints); EdgeBlock
    /// storage keeps no weight or properties. Refused when the graph is
    /// mapped.
    pub fn add_edge(&mut self, from: u64, to: u64, weight_bits: u64, properties: Properties) -> (r: Result<(), GraphDBError>)
        requires
            old(self).wf(),
            old(self).mode_of() == GraphMode::InMemory ==> old(self).memory().has_room(),
        ensures
            final(self).wf(),
            final(self).mode_of() == old(self).mode_of(),
            old(self).mode_of() == GraphMode::InMemory ==> {
                &&& r is Ok
                &&& final(self).memory().idx_to_id@ == with_id(with_id(old(self).memory().idx_to_id@, from), to)
                &&& final(self).memory().total_edges == old(self).memory().total_edges + 1
                &&& final(self).memory().out_list(from) == old(self).memory().out_list(from).push(to)
                &&& final(self).memory().in_list(to) == old(self).memory().in_list(to).push(from)
                &&& old(self).memory().runs_ok() ==> forall|k: u64|
                    k != from ==> #[trigger] final(self).memory().out_list(k) == old(self).memory().out_list(k)
            },
            old(self).mode_of() == GraphMode::Mmap ==> *final(self) == *old(self) && (r matches Err(
                GraphDBError::NotSupported(m),
            ) && m@ == "add_edge not supported in Mmap mode."@),
    {
        match self.mode {
            GraphMode::InMemory => {
                let mut eb = match self.edgeblock.take() {
                    Some(eb) => eb,
                    None => GPUEdgeBlockGraph::new(),
                };
                let ghost old_props = eb.vertex_props@;
                eb.add_edge(from, to);
                proof {
                    assert forall|k: int| 0 <= k < eb.vertex_props@.len() implies (#[trigger] eb.vertex_props@[k]).wf() by {
                        if k < old_props.len() {
                            assert(eb.vertex_props@[k] == old_props[k]);
                        } else {
                            assert(eb.vertex_props@[k]@.len() == 0);
                        }
                    }
                }
                self.edgeblock = Some(eb);
                Ok(())
            },
            GraphMode::Mmap => Err(not_supported("add_edge not supported in Mmap mode.")),
        }
    }

    /// Saving in place is not supported: a path must be given (see
    /// [`GraphDB::save_bytes`]); a mapped graph cannot be saved.
    pub fn save(&self) -> (r: Result<(), GraphDBError>)
        ensures
            r matches Err(GraphDBError::NotSupported(m)) && m@ == match self.mode_of() {
                GraphMode::InMemory =>
                    "use GraphDB::save_to(file_path) to specify save path. EdgeBlock persistence coming soon."@,
                GraphMode::Mmap => "save not supported in Mmap mode."@,
            },
    {
        match self.mode {
            GraphMode::InMemory => Err(
                not_supported(
                    "use GraphDB::save_to(file_path) to specify save path. EdgeBlock persistence coming soon.",
                ),
            ),
            GraphMode::Mmap => Err(not_supported("save not supported in Mmap mode.")),
        }
    }

    /// The EdgeBlock file of the graph (what `save_to` writes); refused
    /// when the graph is mapped.
    pub fn save_bytes(&self) -> (r: Result<Vec<u8>, GraphDBError>)
        requires
            self.wf(),
        ensures
            self.mode_of() == GraphMode::InMemory ==> (r matches Ok(b) && b@ == crate::edgeblock_format::graph_bytes(
                self.memory(),
            )),
            self.mode_of() == GraphMode::Mmap ==> (r matches Err(GraphDBError::NotSupported(m)) && m@
                == "save_to not supported in Mmap mode."@),
    {
        match &self.edgeblock {
            Some(eb) => Ok(eb.to_bytes()),
            None => Err(not_supported("save_to not supported in Mmap mode.")),
        }
    }

    /// The AXOM file of the graph (what `generate_mmap_file` writes): the
    /// graph rebuilt as a property graph, every vertex kept; refused when
    /// the graph is mapped.
    pub fn mmap_bytes(&self) -> (r: Result<Vec<u8>, GraphDBError>)
        requires
            self.wf(),
        ensures
            self.mode_of() == GraphMode::InMemory ==> (r matches Ok(b) && exists|pg: crate::persistent_graph::PersistentGraph|
                {
                    &&& pg.wf()
                    &&& forall|id: u64| #[trigger] pg.vertex_map().dom().contains(id) <==> self.memory().has(id)
                    &&& forall|id: u64|
                        self.memory().has(id) ==> #[trigger] pg.vertex_map()[id] == self.memory().vertex_props@[self.memory().index_of(
                            id,
                        )].map()
                    &&& forall|a: u64, c: u64|
                        #[trigger] pg.edge_map().dom().contains((a, c)) <==> crate::recovery::kept_edge(self.memory(), true, a, c)
                    &&& forall|e: (u64, u64)|
                        #[trigger] pg.edge_map().dom().contains(e) ==> pg.edge_map()[e] == (
                            UNIT_WEIGHT_BITS,
                            crate::recovery::no_props(),
                        )
                    &&& axom_encoded(pg, b@)
                }),
            self.mode_of() == GraphMode::Mmap ==> (r matches Err(GraphDBError::NotSupported(m)) && m@
                == "generate_mmap_file only works in InMemory mode."@),
    {
        match &self.edgeblock {
            Some(eb) => {
                let pg = rebuild_persistent(eb, String::new(), true);
                let b = convert_from(&pg);
                proof {
                    assert forall|id: u64| #[trigger] pg.vertex_map().dom().contains(id) <==> eb.has(id) by {
                        assert(!crate::recovery::skipped(true, id));
                    }
                    assert forall|id: u64| eb.has(id) implies #[trigger] pg.vertex_map()[id] == eb.vertex_props@[eb.index_of(id)].map() by {
                        assert(!crate::recovery::skipped(true, id));
                    }
                }
                Ok(b)
            },
            None => Err(not_supported("generate_mmap_file only works in InMemory mode.")),
        }
    }

    /// Indexes are not supported on EdgeBlock storage or mapped files.
    pub fn create_index(&mut self, name: &str, property_key: &str, unique: bool) -> (r: Result<(), GraphDBError>)
        ensures
            *final(self) == *old(self),
            r matches Err(GraphDBError::NotSupported(m)) && m@ == match old(self).mode_of() {
                GraphMode::InMemory => "create_index not yet supported with EdgeBlock."@,
                GraphMode::Mmap => "create_index not supported in Mmap mode."@,
            },
    {
        match self.mode {
            GraphMode::InMemory => Err(not_supported("create_index not yet supported with EdgeBlock.")),
            GraphMode::Mmap => Err(not_supported("create_index not supported in Mmap mode.")),
        }
    }

    /// Indexes are not supported on EdgeBlock storage.
    pub fn drop_index(&mut self, name: &str) -> (r: Result<(), GraphDBError>)
        ensures
            *final(self) == *old(self),
            r matches Err(GraphDBError::NotSupported(m)) && m@ == "drop_index not yet supported with EdgeBlock."@,
    {
        Err(not_supported("drop_index not yet supported with EdgeBlock."))
    }
}

} // verus!
