//! Axolotl: a property-graph store with EdgeBlock adjacency storage and
//! incremental graph algorithms, with the core data structures verified.

use vstd::prelude::*;

pub mod properties;
pub mod incremental_cc;
pub mod edge_store;
pub mod gpu_edge_block;
pub mod persistence;
pub mod wal;
pub mod compact_storage;
pub mod edge_block;
pub mod incremental_tc;
pub mod server;
pub mod louvain;
pub mod wave_core;
pub mod edgeblock_format;
pub mod scc;
pub mod sorted_map;
pub mod axol_format;
pub mod persistent_graph;
pub mod graph_query;
pub mod transaction;
pub mod recovery;
pub mod index;
pub mod mmap_graph;
pub mod gpu_bfs;
pub mod graph_db;
pub mod compact_edges;

pub use properties::Properties;

verus! {

/// Vertex identifier chosen by the user.
pub type VertexId = u64;

/// A directed edge, named by its endpoints.
#[derive(Debug, Clone, Copy, PartialEq, Eq, Hash, Structural)]
pub struct EdgeId {
    pub from: VertexId,
    pub to: VertexId,
}

impl EdgeId {
    /// Builds the edge identifier `from -> to`.
    pub fn new(from: VertexId, to: VertexId) -> (r: Self)
        ensures
            r.from == from,
            r.to == to,
    {
        EdgeId { from, to }
    }
}

/// A property value. A `Double` is held as its IEEE-754 bit pattern
/// (`f64::to_bits`), which is also what two doubles are compared by.
#[derive(Debug, Clone, PartialEq, Eq, Hash)]
pub enum PropertyValue {
    Int(i64),
    String(String),
    Double(u64),
    Bool(bool),
    Null,
}

/// Mathematical value of a [`PropertyValue`].
pub enum PropertyValueView {
    Int(i64),
    String(Seq<char>),
    Double(u64),
    Bool(bool),
    Null,
}

impl View for PropertyValue {
    type V = PropertyValueView;

    open spec fn view(&self) -> PropertyValueView {
        match self {
            PropertyValue::Int(i) => PropertyValueView::Int(*i),
            PropertyValue::String(s) => PropertyValueView::String(s@),
            PropertyValue::Double(d) => PropertyValueView::Double(*d),
            PropertyValue::Bool(b) => PropertyValueView::Bool(*b),
            PropertyValue::Null => PropertyValueView::Null,
        }
    }
}

impl PropertyValue {
    /// Value equality (strings by content, doubles by bit pattern).
    pub fn same_as(&self, other: &PropertyValue) -> (r: bool)
        ensures
            r == (self@ == other@),
    {
        match (self, other) {
            (PropertyValue::Int(a), PropertyValue::Int(b)) => *a == *b,
            (PropertyValue::String(a), PropertyValue::String(b)) => crate::properties::str_eq(a.as_str(), b.as_str()),
            (PropertyValue::Double(a), PropertyValue::Double(b)) => *a == *b,
            (PropertyValue::Bool(a), PropertyValue::Bool(b)) => *a == *b,
            (PropertyValue::Null, PropertyValue::Null) => true,
            _ => false,
        }
    }

    /// A copy with the same value.
    pub fn duplicate(&self) -> (r: PropertyValue)
        ensures
            r@ == self@,
    {
        match self {
            PropertyValue::Int(i) => PropertyValue::Int(*i),
            PropertyValue::String(s) => PropertyValue::String(s.clone()),
            PropertyValue::Double(d) => PropertyValue::Double(*d),
            PropertyValue::Bool(b) => PropertyValue::Bool(*b),
            PropertyValue::Null => PropertyValue::Null,
        }
    }
}

} // verus!
