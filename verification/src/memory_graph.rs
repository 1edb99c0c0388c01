//! A graph in memory that keeps versions of its vertices and edges.
use crate::path_query::copy_values;
use crate::query::{EdgeId, VertexId};
use crate::table::Table;
use crate::value::ScalarValue;
use vstd::prelude::*;

verus! {

/// Names a label.
pub type LabelId = u32;

/// A point in time.
pub type Timestamp = u64;

/// A vertex as it is stored.
#[derive(Debug)]
pub struct Vertex {
    pub vid: VertexId,
    pub label_id: LabelId,
    pub properties: Vec<ScalarValue>,
}

/// An edge as it is stored.
#[derive(Debug)]
pub struct Edge {
    pub eid: EdgeId,
    pub src_id: VertexId,
    pub dst_id: VertexId,
    pub label_id: LabelId,
    pub properties: Vec<ScalarValue>,
}

/// What a stored vertex says.
#[verifier::ext_equal]
pub struct StoredVertex {
    pub vid: VertexId,
    pub label_id: LabelId,
    pub properties: Seq<ScalarValue>,
}

/// What a stored edge says.
#[verifier::ext_equal]
pub struct StoredEdge {
    pub eid: EdgeId,
    pub src_id: VertexId,
    pub dst_id: VertexId,
    pub label_id: LabelId,
    pub properties: Seq<ScalarValue>,
}

impl View for Vertex {
    type V = StoredVertex;

    open spec fn view(&self) -> StoredVertex {
        StoredVertex { vid: self.vid, label_id: self.label_id, properties: self.properties@ }
    }
}

impl View for Edge {
    type V = StoredEdge;

    open spec fn view(&self) -> StoredEdge {
        StoredEdge {
            eid: self.eid,
            src_id: self.src_id,
            dst_id: self.dst_id,
            label_id: self.label_id,
            properties: self.properties@,
        }
    }
}

impl Vertex {
    /// A copy of the vertex.
    pub fn copy(&self) -> (result: Vertex)
        ensures
            result@ == self@,
    {
        Vertex {
            vid: self.vid,
            label_id: self.label_id,
            properties: copy_values(&self.properties),
        }
    }
}

impl Edge {
    /// A copy of the edge.
    pub fn copy(&self) -> (result: Edge)
        ensures
            result@ == self@,
    {
        Edge {
            eid: self.eid,
            src_id: self.src_id,
            dst_id: self.dst_id,
            label_id: self.label_id,
            properties: copy_values(&self.properties),
        }
    }
}

/// The current version of a vertex with the time of its commit, and the versions before it.
#[derive(Debug)]
pub struct VersionedVertex {
    pub current: Vertex,
    pub commit_ts: Timestamp,
    pub older: Vec<(Vertex, Timestamp)>,
}

/// The current version of an edge with the time of its commit, and the versions before it.
#[derive(Debug)]
pub struct VersionedEdge {
    pub current: Edge,
    pub commit_ts: Timestamp,
    pub older: Vec<(Edge, Timestamp)>,
}

/// A current version and the time of its commit.
#[verifier::ext_equal]
pub struct Committed<T> {
    pub data: T,
    pub commit_ts: Timestamp,
}

impl View for VersionedVertex {
    type V = Committed<StoredVertex>;

    open spec fn view(&self) -> Committed<StoredVertex> {
        Committed { data: self.current@, commit_ts: self.commit_ts }
    }
}

impl View for VersionedEdge {
    type V = Committed<StoredEdge>;

    open spec fn view(&self) -> Committed<StoredEdge> {
        Committed { data: self.current@, commit_ts: self.commit_ts }
    }
}

impl VersionedVertex {
    /// A vertex without versions before the current one.
    pub fn new(current: Vertex, commit_ts: Timestamp) -> (result: VersionedVertex)
        ensures
            result@ == (Committed { data: current@, commit_ts }),
            result.older@.len() == 0,
    {
        VersionedVertex { current, commit_ts, older: Vec::new() }
    }
}

impl VersionedEdge {
    /// An edge without versions before the current one.
    pub fn new(current: Edge, commit_ts: Timestamp) -> (result: VersionedEdge)
        ensures
            result@ == (Committed { data: current@, commit_ts }),
            result.older@.len() == 0,
    {
        VersionedEdge { current, commit_ts, older: Vec::new() }
    }
}

/// The other end of an edge at a vertex.
#[derive(Debug, Clone, Copy, PartialEq, Eq, Structural)]
pub struct Neighbor {
    pub label_id: LabelId,
    pub neighbor_id: VertexId,
    pub eid: EdgeId,
}

/// The edges at a vertex: those that leave it and those that enter it.
#[derive(Debug)]
pub struct AdjacencyContainer {
    pub outgoing: Vec<Neighbor>,
    pub incoming: Vec<Neighbor>,
}

/// The edges at a vertex, in no order.
#[verifier::ext_equal]
pub struct Adjacency {
    pub outgoing: Set<Neighbor>,
    pub incoming: Set<Neighbor>,
}

impl View for AdjacencyContainer {
    type V = Adjacency;

    open spec fn view(&self) -> Adjacency {
        Adjacency { outgoing: self.outgoing@.to_set(), incoming: self.incoming@.to_set() }
    }
}

impl AdjacencyContainer {
    /// No edge is listed twice.
    pub open spec fn wf(self) -> bool {
        self.outgoing@.no_duplicates() && self.incoming@.no_duplicates()
    }
}

/// A graph in memory, with the number of its next log record and the time of its last commit.
#[derive(Debug)]
pub struct MemoryGraph {
    pub next_lsn: u64,
    pub latest_commit_ts: Timestamp,
    pub vertices: Table<VertexId, VersionedVertex>,
    pub edges: Table<EdgeId, VersionedEdge>,
    pub vertices_by_label: Table<LabelId, Vec<VertexId>>,
    pub adjacency_list: Table<VertexId, AdjacencyContainer>,
}

/// What a graph in memory holds.
#[verifier::ext_equal]
pub struct MemoryView {
    pub next_lsn: u64,
    pub latest_commit_ts: Timestamp,
    pub vertices: Map<VertexId, Committed<StoredVertex>>,
    pub edges: Map<EdgeId, Committed<StoredEdge>>,
    pub vertices_by_label: Map<LabelId, Seq<VertexId>>,
    pub adjacency_list: Map<VertexId, Adjacency>,
}

/// Whether no edge is listed twice at an end.
pub open spec fn all_listed_once(adjacency: Map<VertexId, AdjacencyContainer>) -> bool {
    forall|v: VertexId| #[trigger] adjacency.contains_key(v) ==> adjacency[v].wf()
}

impl View for MemoryGraph {
    type V = MemoryView;

    open spec fn view(&self) -> MemoryView {
        MemoryView {
            next_lsn: self.next_lsn,
            latest_commit_ts: self.latest_commit_ts,
            vertices: self.vertices@.map_values(|v: VersionedVertex| v@),
            edges: self.edges@.map_values(|e: VersionedEdge| e@),
            vertices_by_label: self.vertices_by_label@.map_values(|ids: Vec<VertexId>| ids@),
            adjacency_list: self.adjacency_list@.map_values(|a: AdjacencyContainer| a@),
        }
    }
}

impl MemoryView {
    /// A graph with nothing in it.
    pub open spec fn empty() -> MemoryView {
        MemoryView {
            next_lsn: 0,
            latest_commit_ts: 0,
            vertices: Map::empty(),
            edges: Map::empty(),
            vertices_by_label: Map::empty(),
            adjacency_list: Map::empty(),
        }
    }
}

impl MemoryGraph {
    /// No id occurs twice, and no edge is listed twice at an end.
    pub open spec fn wf(self) -> bool {
        &&& self.vertices.wf()
        &&& self.edges.wf()
        &&& self.vertices_by_label.wf()
        &&& self.adjacency_list.wf()
        &&& all_listed_once(self.adjacency_list@)
    }

    /// A graph with nothing in it.
    pub fn new() -> (result: MemoryGraph)
        ensures
            result.wf(),
            result@ == MemoryView::empty(),
    {
        let result = MemoryGraph {
            next_lsn: 0,
            latest_commit_ts: 0,
            vertices: Table::new(),
            edges: Table::new(),
            vertices_by_label: Table::new(),
            adjacency_list: Table::new(),
        };
        assert(result@ =~= MemoryView::empty());
        result
    }
}

} // verus!
