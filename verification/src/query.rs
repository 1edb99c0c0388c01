//! Queries as they are written, and the graph that is built from one.
use crate::lookups::{lemma_one_more_place, lists_places};
use crate::text::{is_text, lowercase, to_lowercase};
use crate::value::{ComparisonOp, ScalarValue};
use std::collections::HashMap;
use vstd::prelude::*;
use vstd::string::*;

verus! {

/// Names a vertex.
pub type VertexId = u64;

/// Names an edge.
pub type EdgeId = u64;

/// Names a predicate.
pub type PredicateId = u32;

/// In which directions an abstract edge determines its other end.
#[derive(Debug, Clone, Copy, PartialEq, Eq, Structural)]
pub enum FunctionalDirection {
    Neither,
    SrcToDst,
    DstToSrc,
    Both,
}

impl FunctionalDirection {
    /// Whether the source determines the destination.
    pub open spec fn forth(self) -> bool {
        self == FunctionalDirection::SrcToDst || self == FunctionalDirection::Both
    }

    /// Whether the destination determines the source.
    pub open spec fn back(self) -> bool {
        self == FunctionalDirection::DstToSrc || self == FunctionalDirection::Both
    }

    /// The direction with the given two flags.
    pub fn from_flags(src_to_dst: bool, dst_to_src: bool) -> (result: FunctionalDirection)
        ensures
            result.forth() == src_to_dst,
            result.back() == dst_to_src,
    {
        match (src_to_dst, dst_to_src) {
            (true, true) => FunctionalDirection::Both,
            (true, false) => FunctionalDirection::SrcToDst,
            (false, true) => FunctionalDirection::DstToSrc,
            (false, false) => FunctionalDirection::Neither,
        }
    }

    /// Whether every source has at most one destination.
    pub fn is_functional_src_to_dst(self) -> (result: bool)
        ensures
            result == self.forth(),
    {
        matches!(self, FunctionalDirection::SrcToDst | FunctionalDirection::Both)
    }

    /// Whether every destination has at most one source.
    pub fn is_functional_dst_to_src(self) -> (result: bool)
        ensures
            result == self.back(),
    {
        matches!(self, FunctionalDirection::DstToSrc | FunctionalDirection::Both)
    }
}

/// Two directions with the same flags are one.
pub proof fn flags_determine_direction(a: FunctionalDirection, b: FunctionalDirection)
    requires
        a.forth() == b.forth(),
        a.back() == b.back(),
    ensures
        a == b,
{
}

/// What a predicate is attached to.
#[derive(Debug, Clone, Copy, PartialEq, Eq, Structural)]
pub enum PredicateLocation {
    Vertex(VertexId),
    Edge(EdgeId),
}

/// A condition on a property of a vertex or an edge.
#[derive(Debug, Clone)]
pub struct PredicateDef {
    pub predicate_id: Option<PredicateId>,
    pub target: String,
    pub id: u32,
    pub property: String,
    pub op: ComparisonOp,
    pub value: ScalarValue,
    pub values: Vec<ScalarValue>,
}

/// What a predicate says.
#[verifier::ext_equal]
pub struct PredicateView {
    pub predicate_id: Option<PredicateId>,
    pub target: Seq<char>,
    pub id: u32,
    pub property: Seq<char>,
    pub op: ComparisonOp,
    pub value: ScalarValue,
    pub values: Seq<ScalarValue>,
}

impl View for PredicateDef {
    type V = PredicateView;

    open spec fn view(&self) -> PredicateView {
        PredicateView {
            predicate_id: self.predicate_id,
            target: self.target@,
            id: self.id,
            property: self.property@,
            op: self.op,
            value: self.value,
            values: self.values@,
        }
    }
}

/// What the predicates of a list say.
pub open spec fn predicate_views(predicates: Seq<PredicateDef>) -> Seq<PredicateView> {
    predicates.map_values(|p: PredicateDef| p@)
}

impl PredicateDef {
    /// A copy of the predicate.
    pub fn copy(&self) -> (result: PredicateDef)
        ensures
            result@ == self@,
    {
        let mut values: Vec<ScalarValue> = Vec::new();
        let mut i: usize = 0;
        while i < self.values.len()
            invariant
                i <= self.values@.len(),
                values@ == self.values@.take(i as int),
            decreases self.values.len() - i,
        {
            values.push(self.values[i].copy());
            assert(self.values@.take(i + 1) =~= self.values@.take(i as int).push(
                self.values@[i as int],
            ));
            i = i + 1;
        }
        assert(values@ =~= self.values@);
        PredicateDef {
            predicate_id: self.predicate_id,
            target: self.target.clone(),
            id: self.id,
            property: self.property.clone(),
            op: self.op,
            value: self.value.copy(),
            values,
        }
    }
}

/// Appends copies of predicates.
pub fn extend_predicates(out: &mut Vec<PredicateDef>, predicates: &Vec<PredicateDef>)
    ensures
        predicate_views(final(out)@) == predicate_views(old(out)@) + predicate_views(predicates@),
{
    let mut i: usize = 0;
    assert(predicate_views(out@) =~= predicate_views(old(out)@) + predicate_views(
        predicates@,
    ).take(0));
    while i < predicates.len()
        invariant
            i <= predicates@.len(),
            predicate_views(out@) == predicate_views(old(out)@) + predicate_views(
                predicates@,
            ).take(i as int),
        decreases predicates.len() - i,
    {
        let ghost before = out@;
        out.push(predicates[i].copy());
        assert(predicate_views(out@) =~= predicate_views(before).push(predicates@[i as int]@));
        assert(predicate_views(predicates@).take(i + 1) =~= predicate_views(predicates@).take(
            i as int,
        ).push(predicates@[i as int]@));
        i = i + 1;
        assert(predicate_views(out@) =~= predicate_views(old(out)@) + predicate_views(
            predicates@,
        ).take(i as int));
    }
    assert(predicate_views(predicates@).take(predicates@.len() as int) =~= predicate_views(
        predicates@,
    ));
}

/// Copies of predicates.
pub fn copy_predicates(predicates: &Vec<PredicateDef>) -> (result: Vec<PredicateDef>)
    ensures
        predicate_views(result@) == predicate_views(predicates@),
{
    let mut result: Vec<PredicateDef> = Vec::new();
    extend_predicates(&mut result, predicates);
    assert(predicate_views(result@) =~= predicate_views(predicates@));
    result
}

/// A vertex as a query writes it.
#[derive(Debug, Clone)]
pub struct VertexDef {
    pub id: VertexId,
    pub label: String,
}

/// An edge as a query writes it.
#[derive(Debug, Clone)]
pub struct EdgeDef {
    pub id: EdgeId,
    pub label: String,
    pub src: VertexId,
    pub dst: VertexId,
}

/// A query: vertices, edges between them, and conditions on their properties.
#[derive(Debug, Clone)]
pub struct Query {
    pub vertices: Vec<VertexDef>,
    pub edges: Vec<EdgeDef>,
    pub predicates: Vec<PredicateDef>,
}

/// An abstract edge as a user writes it: the path that it covers.
#[derive(Debug, Clone)]
pub struct AbstractEdgeDef {
    pub path_vertices: Vec<VertexId>,
    pub original_edge_ids: Vec<EdgeId>,
}

/// A decomposition as a user writes it.
#[derive(Debug, Clone)]
pub struct DecompositionDef {
    pub abstract_edges: Vec<AbstractEdgeDef>,
}

/// A vertex of a query graph.
#[derive(Debug, Clone)]
pub struct QueryVertex {
    pub id: VertexId,
    pub label: String,
    pub predicates: Vec<PredicateDef>,
}

/// An edge of a query graph.
#[derive(Debug, Clone)]
pub struct QueryEdge {
    pub id: EdgeId,
    pub label: String,
    pub src_vertex_id: VertexId,
    pub dst_vertex_id: VertexId,
    pub predicates: Vec<PredicateDef>,
}

/// What a vertex of a query graph says.
#[verifier::ext_equal]
pub struct VertexView {
    pub id: VertexId,
    pub label: Seq<char>,
    pub predicates: Seq<PredicateView>,
}

/// What an edge of a query graph says.
#[verifier::ext_equal]
pub struct EdgeView {
    pub id: EdgeId,
    pub label: Seq<char>,
    pub src: VertexId,
    pub dst: VertexId,
    pub predicates: Seq<PredicateView>,
}

impl View for QueryVertex {
    type V = VertexView;

    open spec fn view(&self) -> VertexView {
        VertexView {
            id: self.id,
            label: self.label@,
            predicates: predicate_views(self.predicates@),
        }
    }
}

impl View for QueryEdge {
    type V = EdgeView;

    open spec fn view(&self) -> EdgeView {
        EdgeView {
            id: self.id,
            label: self.label@,
            src: self.src_vertex_id,
            dst: self.dst_vertex_id,
            predicates: predicate_views(self.predicates@),
        }
    }
}

impl QueryVertex {
    /// A copy of the vertex.
    pub fn copy(&self) -> (result: QueryVertex)
        ensures
            result@ == self@,
    {
        QueryVertex {
            id: self.id,
            label: self.label.clone(),
            predicates: copy_predicates(&self.predicates),
        }
    }
}

impl QueryEdge {
    /// A copy of the edge.
    pub fn copy(&self) -> (result: QueryEdge)
        ensures
            result@ == self@,
    {
        QueryEdge {
            id: self.id,
            label: self.label.clone(),
            src_vertex_id: self.src_vertex_id,
            dst_vertex_id: self.dst_vertex_id,
            predicates: copy_predicates(&self.predicates),
        }
    }
}

/// The graph of a query. Vertices and edges are kept in the order in which they were listed.
#[derive(Debug)]
pub struct QueryGraph {
    pub vertices: Vec<QueryVertex>,
    pub edges: Vec<QueryEdge>,
    pub predicate_index: HashMap<PredicateId, (PredicateLocation, usize)>,
}

/// What a query graph says.
#[verifier::ext_equal]
pub struct GraphView {
    pub vertices: Seq<VertexView>,
    pub edges: Seq<EdgeView>,
    pub index: Map<PredicateId, (PredicateLocation, usize)>,
}

impl View for QueryGraph {
    type V = GraphView;

    open spec fn view(&self) -> GraphView {
        GraphView {
            vertices: self.vertices@.map_values(|v: QueryVertex| v@),
            edges: self.edges@.map_values(|e: QueryEdge| e@),
            index: self.predicate_index@,
        }
    }
}

impl GraphView {
    /// The position of the vertex with an id.
    pub open spec fn vertex_at(self, id: VertexId) -> Option<int> {
        if exists|i: int| 0 <= i < self.vertices.len() && (#[trigger] self.vertices[i]).id == id {
            Some(
                choose|i: int| 0 <= i < self.vertices.len() && (#[trigger] self.vertices[i]).id == id,
            )
        } else {
            None
        }
    }

    /// The position of the edge with an id.
    pub open spec fn edge_at(self, id: EdgeId) -> Option<int> {
        if exists|i: int| 0 <= i < self.edges.len() && (#[trigger] self.edges[i]).id == id {
            Some(choose|i: int| 0 <= i < self.edges.len() && (#[trigger] self.edges[i]).id == id)
        } else {
            None
        }
    }

    /// The vertex with an id.
    pub open spec fn vertex(self, id: VertexId) -> Option<VertexView> {
        match self.vertex_at(id) {
            Some(i) => Some(self.vertices[i]),
            None => None,
        }
    }

    /// The edge with an id.
    pub open spec fn edge(self, id: EdgeId) -> Option<EdgeView> {
        match self.edge_at(id) {
            Some(i) => Some(self.edges[i]),
            None => None,
        }
    }

    /// No id is used for two vertices or for two edges, and every edge joins two vertices of
    /// the graph.
    pub open spec fn wf(self) -> bool {
        &&& forall|i: int, j: int|
            #![trigger self.vertices[i], self.vertices[j]]
            0 <= i < j < self.vertices.len() ==> self.vertices[i].id != self.vertices[j].id
        &&& forall|i: int, j: int|
            #![trigger self.edges[i], self.edges[j]]
            0 <= i < j < self.edges.len() ==> self.edges[i].id != self.edges[j].id
        &&& forall|i: int|
            #![trigger self.edges[i]]
            0 <= i < self.edges.len() ==> self.vertex_at(self.edges[i].src) is Some
                && self.vertex_at(self.edges[i].dst) is Some
    }
}

/// Where ids are distinct, a vertex is found at its own position.
pub proof fn lemma_vertex_at(graph: GraphView, i: int)
    requires
        forall|i: int, j: int|
            #![trigger graph.vertices[i], graph.vertices[j]]
            0 <= i < j < graph.vertices.len() ==> graph.vertices[i].id != graph.vertices[j].id,
        0 <= i < graph.vertices.len(),
    ensures
        graph.vertex_at(graph.vertices[i].id) == Some(i),
{
    let id = graph.vertices[i].id;
    let k = choose|k: int| 0 <= k < graph.vertices.len() && (#[trigger] graph.vertices[k]).id == id;
    if k < i {
        assert(graph.vertices[k].id != graph.vertices[i].id);
    }
    if i < k {
        assert(graph.vertices[i].id != graph.vertices[k].id);
    }
}

/// Where ids are distinct, an edge is found at its own position.
pub proof fn lemma_edge_at(graph: GraphView, i: int)
    requires
        forall|i: int, j: int|
            #![trigger graph.edges[i], graph.edges[j]]
            0 <= i < j < graph.edges.len() ==> graph.edges[i].id != graph.edges[j].id,
        0 <= i < graph.edges.len(),
    ensures
        graph.edge_at(graph.edges[i].id) == Some(i),
{
    let id = graph.edges[i].id;
    let k = choose|k: int| 0 <= k < graph.edges.len() && (#[trigger] graph.edges[k]).id == id;
    if k < i {
        assert(graph.edges[k].id != graph.edges[i].id);
    }
    if i < k {
        assert(graph.edges[i].id != graph.edges[k].id);
    }
}

impl QueryGraph {
    /// A graph without vertices.
    pub fn new() -> (result: QueryGraph)
        ensures
            result@ == (GraphView {
                vertices: Seq::empty(),
                edges: Seq::empty(),
                index: Map::empty(),
            }),
            result@.wf(),
    {
        let result = QueryGraph {
            vertices: Vec::new(),
            edges: Vec::new(),
            predicate_index: HashMap::new(),
        };
        assert(result@ =~= (GraphView {
            vertices: Seq::empty(),
            edges: Seq::empty(),
            index: Map::empty(),
        }));
        result
    }

    /// The position of the vertex with an id.
    pub fn find_vertex(&self, id: VertexId) -> (result: Option<usize>)
        requires
            self@.wf(),
        ensures
            match result {
                Some(i) => i < self.vertices@.len() && self@.vertex_at(id) == Some(i as int)
                    && self.vertices@[i as int].id == id,
                None => self@.vertex_at(id) is None,
            },
    {
        let mut i: usize = 0;
        while i < self.vertices.len()
            invariant
                self@.wf(),
                i <= self.vertices@.len(),
                forall|j: int| 0 <= j < i ==> (#[trigger] self@.vertices[j]).id != id,
            decreases self.vertices.len() - i,
        {
            if self.vertices[i].id == id {
                proof {
                    assert(self@.vertices[i as int].id == id);
                    lemma_vertex_at(self@, i as int);
                }
                return Some(i);
            }
            assert(self@.vertices[i as int].id != id);
            i = i + 1;
        }
        None
    }

    /// The position of the edge with an id.
    pub fn find_edge(&self, id: EdgeId) -> (result: Option<usize>)
        requires
            self@.wf(),
        ensures
            match result {
                Some(i) => i < self.edges@.len() && self@.edge_at(id) == Some(i as int)
                    && self.edges@[i as int].id == id,
                None => self@.edge_at(id) is None,
            },
    {
        let mut i: usize = 0;
        while i < self.edges.len()
            invariant
                self@.wf(),
                i <= self.edges@.len(),
                forall|j: int| 0 <= j < i ==> (#[trigger] self@.edges[j]).id != id,
            decreases self.edges.len() - i,
        {
            if self.edges[i].id == id {
                proof {
                    assert(self@.edges[i as int].id == id);
                    lemma_edge_at(self@, i as int);
                }
                return Some(i);
            }
            assert(self@.edges[i as int].id != id);
            i = i + 1;
        }
        None
    }

    /// The vertex with an id.
    pub fn get_vertex(&self, id: VertexId) -> (result: Option<&QueryVertex>)
        requires
            self@.wf(),
        ensures
            match result {
                Some(v) => self@.vertex(id) == Some(v@) && v@.id == id,
                None => self@.vertex(id) is None,
            },
    {
        match self.find_vertex(id) {
            Some(i) => Some(&self.vertices[i]),
            None => None,
        }
    }

    /// The edge with an id.
    pub fn get_edge(&self, id: EdgeId) -> (result: Option<&QueryEdge>)
        requires
            self@.wf(),
        ensures
            match result {
                Some(e) => self@.edge(id) == Some(e@) && e@.id == id,
                None => self@.edge(id) is None,
            },
    {
        match self.find_edge(id) {
            Some(i) => Some(&self.edges[i]),
            None => None,
        }
    }

    /// Where the predicate with an id is attached.
    pub fn get_predicate_location(&self, predicate_id: PredicateId) -> (result: Option<
        PredicateLocation,
    >)
        ensures
            result == (if self@.index.contains_key(predicate_id) {
                Some(self@.index[predicate_id].0)
            } else {
                None
            }),
    {
        broadcast use vstd::std_specs::hash::group_hash_axioms;

        match self.predicate_index.get(&predicate_id) {
            Some(entry) => Some(entry.0),
            None => None,
        }
    }
}

impl GraphView {
    /// The predicates attached to a vertex or an edge; none where it is not in the graph.
    pub open spec fn predicates_at(self, location: PredicateLocation) -> Seq<PredicateView> {
        match location {
            PredicateLocation::Vertex(id) => match self.vertex(id) {
                Some(v) => v.predicates,
                None => Seq::empty(),
            },
            PredicateLocation::Edge(id) => match self.edge(id) {
                Some(e) => e.predicates,
                None => Seq::empty(),
            },
        }
    }

    /// The predicate with an id, by the index.
    pub open spec fn predicate(self, id: PredicateId) -> Option<PredicateView> {
        if self.index.contains_key(id) {
            let (location, position) = self.index[id];
            if position < self.predicates_at(location).len() {
                Some(self.predicates_at(location)[position as int])
            } else {
                None
            }
        } else {
            None
        }
    }
}

impl QueryGraph {
    /// The predicate with an id.
    pub fn get_predicate(&self, predicate_id: PredicateId) -> (result: Option<&PredicateDef>)
        requires
            self@.wf(),
        ensures
            match result {
                Some(p) => self@.predicate(predicate_id) == Some(p@),
                None => self@.predicate(predicate_id) is None,
            },
    {
        broadcast use vstd::std_specs::hash::group_hash_axioms;

        match self.predicate_index.get(&predicate_id) {
            Some(entry) => {
                let position: usize = entry.1;
                match entry.0 {
                    PredicateLocation::Vertex(id) => match self.get_vertex(id) {
                        Some(v) => if position < v.predicates.len() {
                            Some(&v.predicates[position])
                        } else {
                            None
                        },
                        None => None,
                    },
                    PredicateLocation::Edge(id) => match self.get_edge(id) {
                        Some(e) => if position < e.predicates.len() {
                            Some(&e.predicates[position])
                        } else {
                            None
                        },
                        None => None,
                    },
                }
            },
            None => None,
        }
    }

    /// The predicates attached to a vertex or an edge.
    pub fn get_predicates(&self, location: PredicateLocation) -> (result: Vec<&PredicateDef>)
        requires
            self@.wf(),
        ensures
            result@.len() == self@.predicates_at(location).len(),
            forall|i: int|
                #![trigger result@[i]]
                0 <= i < result@.len() ==> result@[i]@ == self@.predicates_at(location)[i],
    {
        match location {
            PredicateLocation::Vertex(id) => match self.get_vertex(id) {
                Some(v) => borrow_predicates(&v.predicates),
                None => Vec::new(),
            },
            PredicateLocation::Edge(id) => match self.get_edge(id) {
                Some(e) => borrow_predicates(&e.predicates),
                None => Vec::new(),
            },
        }
    }
}

fn borrow_predicates(predicates: &Vec<PredicateDef>) -> (result: Vec<&PredicateDef>)
    ensures
        result@.len() == predicates@.len(),
        forall|i: int|
            #![trigger result@[i]]
            0 <= i < result@.len() ==> *result@[i] == predicates@[i],
{
    let mut result: Vec<&PredicateDef> = Vec::new();
    let mut i: usize = 0;
    while i < predicates.len()
        invariant
            i <= predicates@.len(),
            result@.len() == i,
            forall|j: int| #![trigger result@[j]] 0 <= j < i ==> *result@[j] == predicates@[j],
        decreases predicates.len() - i,
    {
        result.push(&predicates[i]);
        i = i + 1;
    }
    result
}

/// What a query says.
#[verifier::ext_equal]
pub struct QueryView {
    pub vertices: Seq<VertexView>,
    pub edges: Seq<EdgeView>,
    pub predicates: Seq<PredicateView>,
}

impl View for Query {
    type V = QueryView;

    open spec fn view(&self) -> QueryView {
        QueryView {
            vertices: self.vertices@.map_values(
                |v: VertexDef|
                    VertexView { id: v.id, label: v.label@, predicates: Seq::empty() },
            ),
            edges: self.edges@.map_values(
                |e: EdgeDef|
                    EdgeView {
                        id: e.id,
                        label: e.label@,
                        src: e.src,
                        dst: e.dst,
                        predicates: Seq::empty(),
                    },
            ),
            predicates: predicate_views(self.predicates@),
        }
    }
}

impl QueryView {
    /// The query with its labels in lower case.
    pub open spec fn lowercased(self) -> QueryView {
        QueryView {
            vertices: self.vertices.map_values(
                |v: VertexView| VertexView { label: lowercase(v.label), ..v },
            ),
            edges: self.edges.map_values(
                |e: EdgeView| EdgeView { label: lowercase(e.label), ..e },
            ),
            predicates: self.predicates,
        }
    }
}

/// Why a query has no graph. Positions count the predicates of the query from 0.
#[derive(Debug, Clone, Copy, PartialEq, Eq, Structural)]
pub enum QueryError {
    DuplicateVertexId(VertexId),
    DuplicateEdgeId(EdgeId),
    /// An edge, and its source, which is no vertex of the query.
    NoSuchSource(EdgeId, VertexId),
    /// An edge, and its destination, which is no vertex of the query.
    NoSuchDestination(EdgeId, VertexId),
    /// The predicate at this position asks for one of no values.
    EmptyValueList(usize),
    DuplicatePredicateId(PredicateId),
    NoSuchVertex(u32),
    NoSuchEdge(u32),
    /// The predicate at this position is for neither a vertex nor an edge.
    InvalidTarget(usize),
}

/// The first position whose id stands at an earlier position too.
pub open spec fn first_repeat(ids: Seq<u64>) -> Option<int>
    decreases ids.len(),
{
    if ids.len() == 0 {
        None
    } else {
        match first_repeat(ids.drop_last()) {
            Some(i) => Some(i),
            None => if ids.drop_last().contains(ids.last()) {
                Some(ids.len() - 1)
            } else {
                None
            },
        }
    }
}

/// There is no first repeat exactly where no id repeats.
pub proof fn no_repeat_means_distinct(ids: Seq<u64>)
    ensures
        first_repeat(ids) is None <==> ids.no_duplicates(),
        first_repeat(ids) matches Some(i) ==> 0 <= i < ids.len() && ids.take(i).contains(ids[i]),
    decreases ids.len(),
{
    if ids.len() > 0 {
        no_repeat_means_distinct(ids.drop_last());
        match first_repeat(ids.drop_last()) {
            Some(i) => {
                assert(ids.drop_last().take(i) =~= ids.take(i));
                let j = choose|j: int| 0 <= j < i && ids.take(i)[j] == ids[i];
                assert(ids[j] == ids[i]);
            },
            None => {
                if ids.drop_last().contains(ids.last()) {
                    assert(ids.take(ids.len() - 1) =~= ids.drop_last());
                    let j = choose|j: int| 0 <= j < ids.len() - 1 && ids.drop_last()[j] == ids.last();
                    assert(ids[j] == ids[ids.len() - 1]);
                } else {
                    assert forall|i: int, j: int|
                        0 <= i < ids.len() && 0 <= j < ids.len() && i != j implies ids[i]
                        != ids[j] by {
                        if i < ids.len() - 1 && j < ids.len() - 1 {
                            assert(ids.drop_last()[i] != ids.drop_last()[j]);
                        } else if i < ids.len() - 1 {
                            assert(ids.drop_last()[i] == ids[i]);
                        } else {
                            assert(ids.drop_last()[j] == ids[j]);
                        }
                    }
                }
            },
        }
    }
}

/// What is wrong with the endpoints of the first edge that has a wrong one.
pub open spec fn first_dangling(graph: GraphView, edges: Seq<EdgeView>) -> Option<QueryError>
    decreases edges.len(),
{
    if edges.len() == 0 {
        None
    } else {
        match first_dangling(graph, edges.drop_last()) {
            Some(error) => Some(error),
            None => if graph.vertex_at(edges.last().src) is None {
                Some(QueryError::NoSuchSource(edges.last().id, edges.last().src))
            } else if graph.vertex_at(edges.last().dst) is None {
                Some(QueryError::NoSuchDestination(edges.last().id, edges.last().dst))
            } else {
                None
            },
        }
    }
}

/// Whether `id` is the smallest positive id that is not used.
pub open spec fn is_next_free(used: Set<PredicateId>, id: PredicateId) -> bool {
    &&& id >= 1
    &&& !used.contains(id)
    &&& forall|k: PredicateId| 1 <= k < id ==> #[trigger] used.contains(k)
}

/// The smallest positive id that is not used.
pub open spec fn next_free(used: Set<PredicateId>) -> PredicateId {
    choose|id: PredicateId| is_next_free(used, id)
}

proof fn lemma_next_free(used: Set<PredicateId>, id: PredicateId)
    requires
        is_next_free(used, id),
    ensures
        next_free(used) == id,
{
    let other = next_free(used);
    assert(is_next_free(used, other));
    if other < id {
        assert(used.contains(other));
    }
    if id < other {
        assert(used.contains(id));
    }
}

/// The id of a predicate: its own one, or the smallest positive id that is not used.
pub open spec fn id_for(used: Set<PredicateId>, predicate: PredicateView) -> PredicateId {
    match predicate.predicate_id {
        Some(id) => id,
        None => next_free(used),
    }
}

/// The graph with one more predicate attached, and the predicate ids that are used then.
pub open spec fn attach(
    graph: GraphView,
    used: Set<PredicateId>,
    predicate: PredicateView,
    position: usize,
) -> Result<(GraphView, Set<PredicateId>), QueryError> {
    let id = id_for(used, predicate);
    let named = PredicateView { predicate_id: Some(id), ..predicate };
    if predicate.op == ComparisonOp::In && predicate.values.len() == 0 {
        Err(QueryError::EmptyValueList(position))
    } else if used.contains(id) {
        Err(QueryError::DuplicatePredicateId(id))
    } else if predicate.target == "vertex"@ {
        match graph.vertex_at(predicate.id as u64) {
            None => Err(QueryError::NoSuchVertex(predicate.id)),
            Some(i) => {
                let vertex = graph.vertices[i];
                Ok(
                    (
                        GraphView {
                            vertices: graph.vertices.update(
                                i,
                                VertexView {
                                    predicates: vertex.predicates.push(named),
                                    ..vertex
                                },
                            ),
                            edges: graph.edges,
                            index: graph.index.insert(
                                id,
                                (
                                    PredicateLocation::Vertex(predicate.id as u64),
                                    vertex.predicates.len() as usize,
                                ),
                            ),
                        },
                        used.insert(id),
                    ),
                )
            },
        }
    } else if predicate.target == "edge"@ {
        match graph.edge_at(predicate.id as u64) {
            None => Err(QueryError::NoSuchEdge(predicate.id)),
            Some(i) => {
                let edge = graph.edges[i];
                Ok(
                    (
                        GraphView {
                            vertices: graph.vertices,
                            edges: graph.edges.update(
                                i,
                                EdgeView { predicates: edge.predicates.push(named), ..edge },
                            ),
                            index: graph.index.insert(
                                id,
                                (
                                    PredicateLocation::Edge(predicate.id as u64),
                                    edge.predicates.len() as usize,
                                ),
                            ),
                        },
                        used.insert(id),
                    ),
                )
            },
        }
    } else {
        Err(QueryError::InvalidTarget(position))
    }
}

/// The graph with the predicates of a list attached in turn.
pub open spec fn attach_all(graph: GraphView, predicates: Seq<PredicateView>) -> Result<
    (GraphView, Set<PredicateId>),
    QueryError,
>
    decreases predicates.len(),
{
    if predicates.len() == 0 {
        Ok((graph, Set::empty()))
    } else {
        match attach_all(graph, predicates.drop_last()) {
            Err(error) => Err(error),
            Ok((partial, used)) => attach(
                partial,
                used,
                predicates.last(),
                (predicates.len() - 1) as usize,
            ),
        }
    }
}

/// The graph of a query, or the first thing that is wrong with it.
pub open spec fn graph_of(query: QueryView) -> Result<GraphView, QueryError> {
    let vertex_ids = query.vertices.map_values(|v: VertexView| v.id);
    let edge_ids = query.edges.map_values(|e: EdgeView| e.id);
    let bare = GraphView { vertices: query.vertices, edges: query.edges, index: Map::empty() };
    match first_repeat(vertex_ids) {
        Some(i) => Err(QueryError::DuplicateVertexId(vertex_ids[i])),
        None => match first_repeat(edge_ids) {
            Some(i) => Err(QueryError::DuplicateEdgeId(edge_ids[i])),
            None => match first_dangling(bare, query.edges) {
                Some(error) => Err(error),
                None => match attach_all(bare, query.predicates) {
                    Err(error) => Err(error),
                    Ok((graph, _)) => Ok(graph),
                },
            },
        },
    }
}

/// Whether two graphs have the same vertices and edges, but for predicates.
pub open spec fn same_shape(a: GraphView, b: GraphView) -> bool {
    &&& a.vertices.len() == b.vertices.len()
    &&& a.edges.len() == b.edges.len()
    &&& forall|i: int|
        #![trigger a.vertices[i]]
        #![trigger b.vertices[i]]
        0 <= i < a.vertices.len() ==> a.vertices[i].id == b.vertices[i].id && a.vertices[i].label
            == b.vertices[i].label
    &&& forall|i: int|
        #![trigger a.edges[i]]
        #![trigger b.edges[i]]
        0 <= i < a.edges.len() ==> a.edges[i].id == b.edges[i].id && a.edges[i].label
            == b.edges[i].label && a.edges[i].src == b.edges[i].src && a.edges[i].dst
            == b.edges[i].dst
}

/// Graphs of one shape are well-formed together, and find vertices and edges at the same
/// positions.
pub proof fn lemma_same_shape(a: GraphView, b: GraphView)
    requires
        same_shape(a, b),
        a.wf(),
    ensures
        b.wf(),
        forall|id: VertexId| #[trigger] b.vertex_at(id) == a.vertex_at(id),
        forall|id: EdgeId| #[trigger] b.edge_at(id) == a.edge_at(id),
{
    assert forall|i: int, j: int|
        #![trigger b.vertices[i], b.vertices[j]]
        0 <= i < j < b.vertices.len() implies b.vertices[i].id != b.vertices[j].id by {
        assert(a.vertices[i].id != a.vertices[j].id);
    }
    assert forall|i: int, j: int|
        #![trigger b.edges[i], b.edges[j]]
        0 <= i < j < b.edges.len() implies b.edges[i].id != b.edges[j].id by {
        assert(a.edges[i].id != a.edges[j].id);
    }
    assert forall|id: VertexId| #[trigger] b.vertex_at(id) == a.vertex_at(id) by {
        if let Some(i) = a.vertex_at(id) {
            assert(a.vertices[i].id == id);
            assert(b.vertices[i].id == id);
            lemma_vertex_at(b, i);
        }
        if let Some(i) = b.vertex_at(id) {
            assert(b.vertices[i].id == id);
            assert(a.vertices[i].id == id);
        }
    }
    assert forall|id: EdgeId| #[trigger] b.edge_at(id) == a.edge_at(id) by {
        if let Some(i) = a.edge_at(id) {
            assert(a.edges[i].id == id);
            assert(b.edges[i].id == id);
            lemma_edge_at(b, i);
        }
        if let Some(i) = b.edge_at(id) {
            assert(b.edges[i].id == id);
            assert(a.edges[i].id == id);
        }
    }
    assert forall|i: int| #![trigger b.edges[i]] 0 <= i < b.edges.len() implies b.vertex_at(
        b.edges[i].src,
    ) is Some && b.vertex_at(b.edges[i].dst) is Some by {
        assert(a.vertex_at(a.edges[i].src) is Some);
    }
}

proof fn lemma_attach_shape(
    graph: GraphView,
    used: Set<PredicateId>,
    predicate: PredicateView,
    position: usize,
)
    requires
        graph.wf(),
    ensures
        attach(graph, used, predicate, position) matches Ok((after, _)) ==> same_shape(graph, after)
            && after.wf(),
{
    if let Ok((after, _)) = attach(graph, used, predicate, position) {
        assert(same_shape(graph, after));
        lemma_same_shape(graph, after);
    }
}

/// Every entry of the index leads to a predicate with the id of the entry.
pub open spec fn index_leads_home(graph: GraphView) -> bool {
    forall|id: PredicateId| #[trigger]
        graph.index.contains_key(id) ==> (graph.predicate(id) matches Some(p) && p.predicate_id
            == Some(id))
}

proof fn lemma_attach_index(
    graph: GraphView,
    used: Set<PredicateId>,
    predicate: PredicateView,
    position: usize,
)
    requires
        graph.wf(),
        index_leads_home(graph),
        graph.index.dom() == used,
        forall|i: int|
            0 <= i < graph.vertices.len() ==> (#[trigger] graph.vertices[i]).predicates.len()
                < usize::MAX,
        forall|i: int|
            0 <= i < graph.edges.len() ==> (#[trigger] graph.edges[i]).predicates.len()
                < usize::MAX,
    ensures
        attach(graph, used, predicate, position) matches Ok((after, after_used)) ==> {
            &&& index_leads_home(after)
            &&& after.index.dom() == after_used
        },
{
    if let Ok((after, after_used)) = attach(graph, used, predicate, position) {
        assert(same_shape(graph, after));
        lemma_same_shape(graph, after);
        let new_id = id_for(used, predicate);
        assert forall|id: PredicateId| #[trigger] after.index.contains_key(id) implies (
        after.predicate(id) matches Some(p) && p.predicate_id == Some(id)) by {
            if id != new_id {
                assert(graph.index.contains_key(id));
                assert(graph.predicate(id) is Some);
            }
        }
        assert(after.index.dom() =~= after_used);
    }
}

/// The number of predicates of a graph.
pub open spec fn attached(graph: GraphView) -> nat {
    total(graph.vertices.map_values(|v: VertexView| v.predicates.len()))
        + total(graph.edges.map_values(|e: EdgeView| e.predicates.len()))
}

/// The sum of numbers.
pub open spec fn total(numbers: Seq<nat>) -> nat
    decreases numbers.len(),
{
    if numbers.len() == 0 {
        0
    } else {
        total(numbers.drop_last()) + numbers.last()
    }
}

proof fn lemma_total_update(numbers: Seq<nat>, i: int, n: nat)
    requires
        0 <= i < numbers.len(),
    ensures
        total(numbers.update(i, n)) == total(numbers) - numbers[i] + n,
        numbers[i] <= total(numbers),
    decreases numbers.len(),
{
    if i < numbers.len() - 1 {
        assert(numbers.update(i, n).drop_last() =~= numbers.drop_last().update(i, n));
        lemma_total_update(numbers.drop_last(), i, n);
    } else {
        assert(numbers.update(i, n).drop_last() =~= numbers.drop_last());
    }
}

proof fn lemma_attach_counts(
    graph: GraphView,
    used: Set<PredicateId>,
    predicate: PredicateView,
    position: usize,
)
    ensures
        attach(graph, used, predicate, position) matches Ok((after, _)) ==> attached(after)
            == attached(graph) + 1,
        forall|i: int|
            0 <= i < graph.vertices.len() ==> (#[trigger] graph.vertices[i]).predicates.len()
                <= attached(graph),
        forall|i: int|
            0 <= i < graph.edges.len() ==> (#[trigger] graph.edges[i]).predicates.len()
                <= attached(graph),
{
    let vs = graph.vertices.map_values(|v: VertexView| v.predicates.len());
    let es = graph.edges.map_values(|e: EdgeView| e.predicates.len());
    assert forall|i: int| 0 <= i < graph.vertices.len() implies (
    #[trigger] graph.vertices[i]).predicates.len() <= attached(graph) by {
        lemma_total_update(vs, i, 0);
    }
    assert forall|i: int| 0 <= i < graph.edges.len() implies (
    #[trigger] graph.edges[i]).predicates.len() <= attached(graph) by {
        lemma_total_update(es, i, 0);
    }
    if let Ok((after, _)) = attach(graph, used, predicate, position) {
        let after_vs = after.vertices.map_values(|v: VertexView| v.predicates.len());
        let after_es = after.edges.map_values(|e: EdgeView| e.predicates.len());
        if predicate.target == "vertex"@ {
            let i = graph.vertex_at(predicate.id as u64)->0;
            assert(0 <= i < graph.vertices.len());
            lemma_total_update(vs, i, vs[i] + 1);
            assert(after_vs =~= vs.update(i, vs[i] + 1));
            assert(after_es =~= es);
        } else {
            let i = graph.edge_at(predicate.id as u64)->0;
            assert(0 <= i < graph.edges.len());
            lemma_total_update(es, i, es[i] + 1);
            assert(after_es =~= es.update(i, es[i] + 1));
            assert(after_vs =~= vs);
        }
    }
}

proof fn lemma_attach_all(graph: GraphView, predicates: Seq<PredicateView>)
    requires
        graph.wf(),
        graph.index == Map::<PredicateId, (PredicateLocation, usize)>::empty(),
        attached(graph) == 0,
        predicates.len() < usize::MAX,
    ensures
        attach_all(graph, predicates) matches Ok((after, used)) ==> {
            &&& same_shape(graph, after)
            &&& after.wf()
            &&& index_leads_home(after)
            &&& after.index.dom() == used
            &&& used.finite()
            &&& used.len() == predicates.len()
            &&& attached(after) == predicates.len()
        },
    decreases predicates.len(),
{
    if predicates.len() > 0 {
        lemma_attach_all(graph, predicates.drop_last());
        if let Ok((partial, used)) = attach_all(graph, predicates.drop_last()) {
            let position = (predicates.len() - 1) as usize;
            lemma_attach_shape(partial, used, predicates.last(), position);
            lemma_attach_counts(partial, used, predicates.last(), position);
            lemma_attach_index(partial, used, predicates.last(), position);
        }
    } else {
        lemma_same_shape(graph, graph);
        assert(graph.index.dom() =~= Set::<PredicateId>::empty());
    }
}

proof fn lemma_attach_error(graph: GraphView, predicates: Seq<PredicateView>, n: int)
    requires
        0 <= n <= predicates.len(),
        attach_all(graph, predicates.take(n)) is Err,
    ensures
        attach_all(graph, predicates) == attach_all(graph, predicates.take(n)),
    decreases predicates.len() - n,
{
    if n < predicates.len() {
        assert(predicates.take(n + 1).drop_last() =~= predicates.take(n));
        lemma_attach_error(graph, predicates, n + 1);
    } else {
        assert(predicates.take(n) =~= predicates);
    }
}

proof fn lemma_dangling_error(graph: GraphView, edges: Seq<EdgeView>, n: int)
    requires
        0 <= n <= edges.len(),
        first_dangling(graph, edges.take(n)) is Some,
    ensures
        first_dangling(graph, edges) == first_dangling(graph, edges.take(n)),
    decreases edges.len() - n,
{
    if n < edges.len() {
        assert(edges.take(n + 1).drop_last() =~= edges.take(n));
        lemma_dangling_error(graph, edges, n + 1);
    } else {
        assert(edges.take(n) =~= edges);
    }
}

proof fn lemma_not_dangling(graph: GraphView, edges: Seq<EdgeView>)
    requires
        first_dangling(graph, edges) is None,
    ensures
        forall|i: int|
            #![trigger edges[i]]
            0 <= i < edges.len() ==> graph.vertex_at(edges[i].src) is Some && graph.vertex_at(
                edges[i].dst,
            ) is Some,
    decreases edges.len(),
{
    if edges.len() > 0 {
        lemma_not_dangling(graph, edges.drop_last());
        assert forall|i: int| #![trigger edges[i]] 0 <= i < edges.len() implies graph.vertex_at(
            edges[i].src,
        ) is Some && graph.vertex_at(edges[i].dst) is Some by {
            if i < edges.len() - 1 {
                assert(edges.drop_last()[i] == edges[i]);
            }
        }
    }
}

proof fn lemma_no_predicates(graph: GraphView)
    requires
        forall|i: int|
            0 <= i < graph.vertices.len() ==> (#[trigger] graph.vertices[i]).predicates.len() == 0,
        forall|i: int|
            0 <= i < graph.edges.len() ==> (#[trigger] graph.edges[i]).predicates.len() == 0,
    ensures
        attached(graph) == 0,
{
    lemma_total_zero(graph.vertices.map_values(|v: VertexView| v.predicates.len()));
    lemma_total_zero(graph.edges.map_values(|e: EdgeView| e.predicates.len()));
}

proof fn lemma_total_zero(numbers: Seq<nat>)
    requires
        forall|i: int| 0 <= i < numbers.len() ==> #[trigger] numbers[i] == 0,
    ensures
        total(numbers) == 0,
    decreases numbers.len(),
{
    if numbers.len() > 0 {
        lemma_total_zero(numbers.drop_last());
    }
}

/// In the graph of a query every index entry leads to the predicate with its id, and every
/// predicate of the query is attached once and indexed once.
pub proof fn built_graphs_are_indexed(query: Query, graph: GraphView)
    requires
        graph_of(query@) == Ok::<GraphView, QueryError>(graph),
        query.predicates@.len() < usize::MAX,
    ensures
        graph.wf(),
        index_leads_home(graph),
        graph.index.dom().finite(),
        graph.index.dom().len() == query.predicates@.len(),
        attached(graph) == query.predicates@.len(),
{
    let bare = GraphView {
        vertices: query@.vertices,
        edges: query@.edges,
        index: Map::empty(),
    };
    lemma_bare_graph(query);
    lemma_no_predicates(bare);
    lemma_attach_all(bare, query@.predicates);
}

proof fn lemma_bare_graph(query: Query)
    requires
        first_repeat(query@.vertices.map_values(|v: VertexView| v.id)) is None,
        first_repeat(query@.edges.map_values(|e: EdgeView| e.id)) is None,
        first_dangling(
            GraphView { vertices: query@.vertices, edges: query@.edges, index: Map::empty() },
            query@.edges,
        ) is None,
    ensures
        (GraphView { vertices: query@.vertices, edges: query@.edges, index: Map::empty() }).wf(),
{
    let bare = GraphView {
        vertices: query@.vertices,
        edges: query@.edges,
        index: Map::empty(),
    };
    let vertex_ids = query@.vertices.map_values(|v: VertexView| v.id);
    let edge_ids = query@.edges.map_values(|e: EdgeView| e.id);
    no_repeat_means_distinct(vertex_ids);
    no_repeat_means_distinct(edge_ids);
    assert forall|i: int, j: int|
        #![trigger bare.vertices[i], bare.vertices[j]]
        0 <= i < j < bare.vertices.len() implies bare.vertices[i].id != bare.vertices[j].id by {
        assert(vertex_ids[i] != vertex_ids[j]);
    }
    assert forall|i: int, j: int|
        #![trigger bare.edges[i], bare.edges[j]]
        0 <= i < j < bare.edges.len() implies bare.edges[i].id != bare.edges[j].id by {
        assert(edge_ids[i] != edge_ids[j]);
    }
    lemma_not_dangling(bare, query@.edges);
}

/// The first position whose id stands at an earlier position too.
fn find_repeat(ids: &Vec<u64>) -> (result: Option<usize>)
    ensures
        match result {
            Some(i) => i < ids@.len() && first_repeat(ids@) == Some(i as int),
            None => first_repeat(ids@) is None,
        },
{
    broadcast use vstd::std_specs::hash::group_hash_axioms;

    let mut seen: std::collections::HashSet<u64> = std::collections::HashSet::new();
    let mut i: usize = 0;
    assert(ids@.take(0).to_set() =~= Set::empty());
    while i < ids.len()
        invariant
            i <= ids@.len(),
            seen@ == ids@.take(i as int).to_set(),
            first_repeat(ids@.take(i as int)) is None,
        decreases ids.len() - i,
    {
        broadcast use vstd::std_specs::hash::group_hash_axioms;

        assert(ids@.take(i + 1).drop_last() =~= ids@.take(i as int));
        assert(ids@.take(i + 1) =~= ids@.take(i as int).push(ids@[i as int]));
        let fresh = seen.insert(ids[i]);
        if !fresh {
            proof {
                lemma_repeat_found(ids@, i + 1);
            }
            return Some(i);
        }
        assert(seen@ =~= ids@.take(i + 1).to_set()) by {
            ids@.take(i as int).lemma_push_to_set_commute(ids@[i as int]);
        }
        i = i + 1;
    }
    assert(ids@.take(ids@.len() as int) =~= ids@);
    None
}

proof fn lemma_repeat_found(ids: Seq<u64>, n: int)
    requires
        0 <= n <= ids.len(),
        first_repeat(ids.take(n)) is Some,
    ensures
        first_repeat(ids) == first_repeat(ids.take(n)),
    decreases ids.len() - n,
{
    if n < ids.len() {
        assert(ids.take(n + 1).drop_last() =~= ids.take(n));
        lemma_repeat_found(ids, n + 1);
    } else {
        assert(ids.take(n) =~= ids);
    }
}

proof fn lemma_used_count(used: Set<PredicateId>, next: int)
    requires
        used.finite(),
        1 <= next <= u32::MAX,
        forall|k: PredicateId| 1 <= k < next ==> #[trigger] used.contains(k),
    ensures
        next - 1 <= used.len(),
{
    let low = vstd::set_lib::set_int_range(1, next);
    vstd::set_lib::lemma_int_range(1, next);
    let numbers = used.map(|k: PredicateId| k as int);
    used.lemma_map_finite(|k: PredicateId| k as int);
    assert(low.subset_of(numbers)) by {
        assert forall|n: int| low.contains(n) implies numbers.contains(n) by {
            assert(used.contains(n as u32));
        }
    }
    vstd::set_lib::lemma_len_subset(low, numbers);
    vstd::set_lib::lemma_map_size_bound(used, numbers, |k: PredicateId| k as int);
}

impl Query {
    /// The vertices of the graph, without predicates.
    fn graph_vertices(&self) -> (result: Vec<QueryVertex>)
        ensures
            result@.map_values(|v: QueryVertex| v@) == self@.vertices,
    {
        let mut result: Vec<QueryVertex> = Vec::new();
        let mut i: usize = 0;
        while i < self.vertices.len()
            invariant
                i <= self.vertices@.len(),
                result@.len() == i,
                forall|j: int| 0 <= j < i ==> (#[trigger] result@[j])@ == self@.vertices[j],
            decreases self.vertices.len() - i,
        {
            let vertex = QueryVertex {
                id: self.vertices[i].id,
                label: self.vertices[i].label.clone(),
                predicates: Vec::new(),
            };
            assert(vertex@.predicates =~= Seq::empty());
            result.push(vertex);
            i = i + 1;
        }
        assert(result@.map_values(|v: QueryVertex| v@) =~= self@.vertices);
        result
    }

    /// The edges of the graph, without predicates.
    fn graph_edges(&self) -> (result: Vec<QueryEdge>)
        ensures
            result@.map_values(|e: QueryEdge| e@) == self@.edges,
    {
        let mut result: Vec<QueryEdge> = Vec::new();
        let mut i: usize = 0;
        while i < self.edges.len()
            invariant
                i <= self.edges@.len(),
                result@.len() == i,
                forall|j: int| 0 <= j < i ==> (#[trigger] result@[j])@ == self@.edges[j],
            decreases self.edges.len() - i,
        {
            let edge = QueryEdge {
                id: self.edges[i].id,
                label: self.edges[i].label.clone(),
                src_vertex_id: self.edges[i].src,
                dst_vertex_id: self.edges[i].dst,
                predicates: Vec::new(),
            };
            assert(edge@.predicates =~= Seq::empty());
            result.push(edge);
            i = i + 1;
        }
        assert(result@.map_values(|e: QueryEdge| e@) =~= self@.edges);
        result
    }

    /// The graph of a query whose labels are taken as they are written.
    pub fn build_graph_as_written(self) -> (result: Result<QueryGraph, QueryError>)
        requires
            self.predicates@.len() < u32::MAX,
        ensures
            match result {
                Ok(graph) => graph_of(self@) == Ok::<GraphView, QueryError>(graph@)
                    && graph@.wf(),
                Err(error) => graph_of(self@) == Err::<GraphView, QueryError>(error),
            },
    {
        let vertices = self.graph_vertices();
        let edges = self.graph_edges();
        let vertex_ids = vertex_ids_of(&vertices);
        let edge_ids = edge_ids_of(&edges);
        assert(vertex_ids@ =~= self@.vertices.map_values(|v: VertexView| v.id));
        assert(edge_ids@ =~= self@.edges.map_values(|e: EdgeView| e.id));
        if let Some(i) = find_repeat(&vertex_ids) {
            return Err(QueryError::DuplicateVertexId(vertex_ids[i]));
        }
        if let Some(i) = find_repeat(&edge_ids) {
            return Err(QueryError::DuplicateEdgeId(edge_ids[i]));
        }
        let mut graph = QueryGraph { vertices, edges, predicate_index: HashMap::new() };
        let ghost bare = graph@;
        assert(bare =~= (GraphView {
            vertices: self@.vertices,
            edges: self@.edges,
            index: Map::empty(),
        }));
        if let Some(error) = find_dangling(&graph, &vertex_ids) {
            return Err(error);
        }
        proof {
            lemma_bare_graph(self);
            lemma_no_predicates(bare);
        }
        let mut used: std::collections::HashSet<PredicateId> = std::collections::HashSet::new();
        let mut next: PredicateId = 1;
        let mut i: usize = 0;
        assert(self@.predicates.take(0) =~= Seq::empty());
        assert(self.predicates@.len() == self@.predicates.len());
        while i < self.predicates.len()
            invariant
                bare.wf(),
                bare.index == Map::<PredicateId, (PredicateLocation, usize)>::empty(),
                attached(bare) == 0,
                bare == (GraphView {
                    vertices: self@.vertices,
                    edges: self@.edges,
                    index: Map::empty(),
                }),
                first_repeat(self@.vertices.map_values(|v: VertexView| v.id)) is None,
                first_repeat(self@.edges.map_values(|e: EdgeView| e.id)) is None,
                first_dangling(bare, self@.edges) is None,
                self.predicates@.len() < u32::MAX,
                self.predicates@.len() == self@.predicates.len(),
                i <= self.predicates@.len(),
                attach_all(bare, self@.predicates.take(i as int)) == Ok::<
                    (GraphView, Set<PredicateId>),
                    QueryError,
                >((graph@, used@)),
                1 <= next <= i + 1,
                forall|k: PredicateId| 1 <= k < next ==> #[trigger] used@.contains(k),
            decreases self.predicates.len() - i,
        {
            broadcast use vstd::std_specs::hash::group_hash_axioms;

            let ghost before = graph@;
            let ghost before_used = used@;
            let ghost predicate_view = self@.predicates[i as int];
            proof {
                assert(self@.predicates.take(i + 1).drop_last() =~= self@.predicates.take(
                    i as int,
                ));
                assert(self@.predicates.take(i + 1).last() == predicate_view);
                lemma_attach_all(bare, self@.predicates.take(i as int));
                lemma_attach_shape(before, before_used, predicate_view, i);
                lemma_attach_counts(before, before_used, predicate_view, i);
                if attach(before, before_used, predicate_view, i) is Err {
                    lemma_attach_error(bare, self@.predicates, i + 1);
                }
            }
            let mut predicate = self.predicates[i].copy();
            if predicate.op == ComparisonOp::In && predicate.values.len() == 0 {
                return Err(QueryError::EmptyValueList(i));
            }
            let id: PredicateId = match predicate.predicate_id {
                Some(id) => {
                    if used.contains(&id) {
                        return Err(QueryError::DuplicatePredicateId(id));
                    }
                    id
                },
                None => {
                    while used.contains(&next)
                        invariant
                            used@ == before_used,
                            before_used.finite(),
                            before_used.len() == i,
                            i < u32::MAX - 1,
                            1 <= next <= i + 1,
                            forall|k: PredicateId| 1 <= k < next ==> #[trigger] used@.contains(k),
                        decreases i + 1 - next,
                    {
                        broadcast use vstd::std_specs::hash::group_hash_axioms;

                        proof {
                            lemma_used_count(before_used, next + 1);
                        }
                        next = next + 1;
                    }
                    proof {
                        assert(is_next_free(before_used, next));
                        lemma_next_free(before_used, next);
                    }
                    let id: PredicateId = next;
                    next = next + 1;
                    predicate.predicate_id = Some(id);
                    id
                },
            };
            let ghost named = PredicateView { predicate_id: Some(id), ..predicate_view };
            assert(predicate@ =~= named);
            used.insert(id);
            if is_text(predicate.target.as_str(), "vertex") {
                let target: u64 = predicate.id as u64;
                match graph.find_vertex(target) {
                    None => {
                        return Err(QueryError::NoSuchVertex(predicate.id));
                    },
                    Some(k) => {
                        let position: usize = graph.vertices[k].predicates.len();
                        let ghost old_vertex = graph.vertices@[k as int];
                        graph.vertices[k].predicates.push(predicate);
                        graph.predicate_index.insert(
                            id,
                            (PredicateLocation::Vertex(target), position),
                        );
                        proof {
                            assert(graph.vertices@[k as int]@.predicates
                                =~= old_vertex@.predicates.push(named));
                            assert(graph@ =~= attach(before, before_used, predicate_view, i)->Ok_0.0);
                        }
                    },
                }
            } else if is_text(predicate.target.as_str(), "edge") {
                let target: u64 = predicate.id as u64;
                match graph.find_edge(target) {
                    None => {
                        return Err(QueryError::NoSuchEdge(predicate.id));
                    },
                    Some(k) => {
                        let position: usize = graph.edges[k].predicates.len();
                        let ghost old_edge = graph.edges@[k as int];
                        graph.edges[k].predicates.push(predicate);
                        graph.predicate_index.insert(
                            id,
                            (PredicateLocation::Edge(target), position),
                        );
                        proof {
                            assert(graph.edges@[k as int]@.predicates =~= old_edge@.predicates.push(
                                named,
                            ));
                            assert(graph@ =~= attach(before, before_used, predicate_view, i)->Ok_0.0);
                        }
                    },
                }
            } else {
                return Err(QueryError::InvalidTarget(i));
            }
            i = i + 1;
        }
        proof {
            assert(self@.predicates.take(i as int) =~= self@.predicates);
            lemma_attach_all(bare, self@.predicates);
        }
        Ok(graph)
    }

    /// The query with its labels in lower case.
    fn lowercased(self) -> (result: Query)
        ensures
            result@ == self@.lowercased(),
            result.predicates == self.predicates,
    {
        let ghost before = self@;
        let mut vertices: Vec<VertexDef> = Vec::new();
        let mut i: usize = 0;
        while i < self.vertices.len()
            invariant
                i <= self.vertices@.len(),
                vertices@.len() == i,
                forall|j: int|
                    #![trigger vertices@[j]]
                    0 <= j < i ==> vertices@[j].id == self.vertices@[j].id && vertices@[j].label@
                        == lowercase(self.vertices@[j].label@),
            decreases self.vertices.len() - i,
        {
            vertices.push(
                VertexDef {
                    id: self.vertices[i].id,
                    label: to_lowercase(self.vertices[i].label.as_str()),
                },
            );
            i = i + 1;
        }
        let mut edges: Vec<EdgeDef> = Vec::new();
        let mut j: usize = 0;
        while j < self.edges.len()
            invariant
                j <= self.edges@.len(),
                edges@.len() == j,
                forall|k: int|
                    #![trigger edges@[k]]
                    0 <= k < j ==> edges@[k].id == self.edges@[k].id && edges@[k].src
                        == self.edges@[k].src && edges@[k].dst == self.edges@[k].dst
                        && edges@[k].label@ == lowercase(self.edges@[k].label@),
            decreases self.edges.len() - j,
        {
            edges.push(
                EdgeDef {
                    id: self.edges[j].id,
                    label: to_lowercase(self.edges[j].label.as_str()),
                    src: self.edges[j].src,
                    dst: self.edges[j].dst,
                },
            );
            j = j + 1;
        }
        let result = Query { vertices, edges, predicates: self.predicates };
        assert(result@.vertices =~= before.lowercased().vertices);
        assert(result@.edges =~= before.lowercased().edges);
        assert(result@ =~= before.lowercased());
        result
    }

    /// The graph of a query. Labels are put in lower case; a predicate without an id gets one.
    pub fn build_graph(self) -> (result: Result<QueryGraph, QueryError>)
        requires
            self.predicates@.len() < u32::MAX,
        ensures
            match result {
                Ok(graph) => graph_of(self@.lowercased()) == Ok::<GraphView, QueryError>(graph@)
                    && graph@.wf(),
                Err(error) => graph_of(self@.lowercased()) == Err::<GraphView, QueryError>(error),
            },
    {
        self.lowercased().build_graph_as_written()
    }
}

fn vertex_ids_of(vertices: &Vec<QueryVertex>) -> (result: Vec<VertexId>)
    ensures
        result@ == vertices@.map_values(|v: QueryVertex| v.id),
{
    let mut result: Vec<VertexId> = Vec::new();
    let mut i: usize = 0;
    while i < vertices.len()
        invariant
            i <= vertices@.len(),
            result@.len() == i,
            forall|j: int| 0 <= j < i ==> #[trigger] result@[j] == vertices@[j].id,
        decreases vertices.len() - i,
    {
        result.push(vertices[i].id);
        i = i + 1;
    }
    assert(result@ =~= vertices@.map_values(|v: QueryVertex| v.id));
    result
}

fn edge_ids_of(edges: &Vec<QueryEdge>) -> (result: Vec<EdgeId>)
    ensures
        result@ == edges@.map_values(|e: QueryEdge| e.id),
{
    let mut result: Vec<EdgeId> = Vec::new();
    let mut i: usize = 0;
    while i < edges.len()
        invariant
            i <= edges@.len(),
            result@.len() == i,
            forall|j: int| 0 <= j < i ==> #[trigger] result@[j] == edges@[j].id,
        decreases edges.len() - i,
    {
        result.push(edges[i].id);
        i = i + 1;
    }
    assert(result@ =~= edges@.map_values(|e: QueryEdge| e.id));
    result
}

/// Whether an id is in a list.
pub fn contains_id(ids: &Vec<u64>, id: u64) -> (result: bool)
    ensures
        result == ids@.contains(id),
{
    let mut i: usize = 0;
    while i < ids.len()
        invariant
            i <= ids@.len(),
            forall|j: int| 0 <= j < i ==> ids@[j] != id,
        decreases ids.len() - i,
    {
        if ids[i] == id {
            return true;
        }
        i = i + 1;
    }
    false
}

/// What is wrong with the endpoints of the first edge that has a wrong one.
fn find_dangling(graph: &QueryGraph, vertex_ids: &Vec<VertexId>) -> (result: Option<QueryError>)
    requires
        vertex_ids@ == graph@.vertices.map_values(|v: VertexView| v.id),
    ensures
        result == first_dangling(graph@, graph@.edges),
{
    let mut i: usize = 0;
    assert(graph@.edges.take(0) =~= Seq::empty());
    while i < graph.edges.len()
        invariant
            vertex_ids@ == graph@.vertices.map_values(|v: VertexView| v.id),
            i <= graph.edges@.len(),
            first_dangling(graph@, graph@.edges.take(i as int)) is None,
        decreases graph.edges.len() - i,
    {
        proof {
            assert(graph@.edges.take(i + 1).drop_last() =~= graph@.edges.take(i as int));
            assert(graph@.edges.take(i + 1).last() == graph.edges@[i as int]@);
            lemma_listed_vertex(graph@, vertex_ids@, graph.edges@[i as int].src_vertex_id);
            lemma_listed_vertex(graph@, vertex_ids@, graph.edges@[i as int].dst_vertex_id);
            if first_dangling(graph@, graph@.edges.take(i + 1)) is Some {
                lemma_dangling_error(graph@, graph@.edges, i + 1);
            }
        }
        let edge = &graph.edges[i];
        if !contains_id(vertex_ids, edge.src_vertex_id) {
            return Some(QueryError::NoSuchSource(edge.id, edge.src_vertex_id));
        }
        if !contains_id(vertex_ids, edge.dst_vertex_id) {
            return Some(QueryError::NoSuchDestination(edge.id, edge.dst_vertex_id));
        }
        i = i + 1;
    }
    assert(graph@.edges.take(graph.edges@.len() as int) =~= graph@.edges);
    None
}

proof fn lemma_listed_vertex(graph: GraphView, vertex_ids: Seq<VertexId>, id: VertexId)
    requires
        vertex_ids == graph.vertices.map_values(|v: VertexView| v.id),
    ensures
        vertex_ids.contains(id) <==> graph.vertex_at(id) is Some,
{
    if vertex_ids.contains(id) {
        let i = choose|i: int| 0 <= i < vertex_ids.len() && vertex_ids[i] == id;
        assert(graph.vertices[i].id == id);
    }
    if graph.vertex_at(id) is Some {
        let i = graph.vertex_at(id)->0;
        assert(graph.vertices[i].id == id);
        assert(vertex_ids[i] == id);
    }
}

/// Whether a predicate is another one with an id of its own.
pub open spec fn is_named(named: PredicateView, given: PredicateView) -> bool {
    &&& named.target == given.target
    &&& named.id == given.id
    &&& named.property == given.property
    &&& named.op == given.op
    &&& named.value == given.value
    &&& named.values == given.values
    &&& named.predicate_id is Some
    &&& given.predicate_id is Some ==> named.predicate_id == given.predicate_id
}

/// Whether predicates are those at some places of a list, in this order, each with an id.
pub open spec fn are_named(
    named: Seq<PredicateView>,
    given: Seq<PredicateView>,
    at: Seq<int>,
) -> bool {
    &&& named.len() == at.len()
    &&& forall|i: int|
        #![trigger named[i]]
        0 <= i < named.len() ==> is_named(named[i], given[at[i]])
}

/// In the graph of a query every vertex has the predicates on vertices with its number, in their
/// order, and no others.
pub proof fn vertices_have_their_predicates(query: Query, graph: GraphView, i: int) -> (at: Seq<int>)
    requires
        graph_of(query@) == Ok::<GraphView, QueryError>(graph),
        0 <= i < query@.vertices.len(),
    ensures
        graph.vertices.len() == query@.vertices.len(),
        graph.vertices[i].id == query@.vertices[i].id,
        graph.vertices[i].label == query@.vertices[i].label,
        lists_places(
            at,
            query@.predicates.len() as int,
            |k: int|
                query@.predicates[k].target == "vertex"@ && query@.predicates[k].id as u64
                    == query@.vertices[i].id,
        ),
        are_named(graph.vertices[i].predicates, query@.predicates, at),
{
    let bare = GraphView {
        vertices: query@.vertices,
        edges: query@.edges,
        index: Map::empty(),
    };
    lemma_bare_graph(query);
    assert(query@.vertices[i].predicates.len() == 0);
    lemma_vertex_predicates(bare, query@.predicates, i)
}

proof fn lemma_vertex_predicates(bare: GraphView, predicates: Seq<PredicateView>, i: int) -> (at: Seq<
    int,
>)
    requires
        bare.wf(),
        attach_all(bare, predicates) is Ok,
        0 <= i < bare.vertices.len(),
        bare.vertices[i].predicates.len() == 0,
    ensures
        same_shape(bare, attach_all(bare, predicates)->Ok_0.0),
        lists_places(
            at,
            predicates.len() as int,
            |k: int|
                predicates[k].target == "vertex"@ && predicates[k].id as u64
                    == bare.vertices[i].id,
        ),
        are_named(
            attach_all(bare, predicates)->Ok_0.0.vertices[i].predicates,
            predicates,
            at,
        ),
    decreases predicates.len(),
{
    let id = bare.vertices[i].id;
    let wanted = |k: int| predicates[k].target == "vertex"@ && predicates[k].id as u64 == id;
    if predicates.len() == 0 {
        Seq::empty()
    } else {
        let n = predicates.len() as int;
        let fewer = predicates.drop_last();
        let p = predicates.last();
        let before = lemma_vertex_predicates(bare, fewer, i);
        let (partial, used) = attach_all(bare, fewer)->Ok_0;
        let after = attach_all(bare, predicates)->Ok_0.0;
        assert(lists_places(before, n - 1, wanted)) by {
            assert forall|k: int| 0 <= k < n - 1 && #[trigger] wanted(k) implies before.contains(
                k,
            ) by {
                assert((|q: int| fewer[q].target == "vertex"@ && fewer[q].id as u64 == id)(k));
            }
        }
        lemma_one_more_place(before, n, wanted);
        let at = if wanted(n - 1) {
            before.push(n - 1)
        } else {
            before
        };
        reveal_strlit("vertex");
        reveal_strlit("edge");
        assert("vertex"@.len() != "edge"@.len());
        assert(partial.vertices[i].id == id);
        if p.target == "vertex"@ {
            let k = partial.vertex_at(p.id as u64)->0;
            assert(partial.vertices[k].id == p.id as u64);
            assert(bare.vertices[k].id == p.id as u64);
            if k != i {
                if k < i {
                    assert(bare.vertices[k].id != bare.vertices[i].id);
                } else {
                    assert(bare.vertices[i].id != bare.vertices[k].id);
                }
            }
        } else if p.target == "edge"@ {
            let k = partial.edge_at(p.id as u64)->0;
            assert(partial.edges[k].id == p.id as u64);
        }
        assert(same_shape(bare, after));
        let old = partial.vertices[i].predicates;
        let new = after.vertices[i].predicates;
        assert forall|j: int| #![trigger new[j]] 0 <= j < new.len() implies is_named(
            new[j],
            predicates[at[j]],
        ) by {
            if j < old.len() {
                assert(new[j] == old[j]);
                assert(is_named(old[j], fewer[before[j]]));
            }
        }
        at
    }
}

/// In the graph of a query every edge has the predicates on edges with its number, in their order,
/// and no others.
pub proof fn edges_have_their_predicates(query: Query, graph: GraphView, i: int) -> (at: Seq<int>)
    requires
        graph_of(query@) == Ok::<GraphView, QueryError>(graph),
        0 <= i < query@.edges.len(),
    ensures
        graph.edges.len() == query@.edges.len(),
        graph.edges[i].id == query@.edges[i].id,
        graph.edges[i].label == query@.edges[i].label,
        graph.edges[i].src == query@.edges[i].src,
        graph.edges[i].dst == query@.edges[i].dst,
        lists_places(
            at,
            query@.predicates.len() as int,
            |k: int|
                query@.predicates[k].target == "edge"@ && query@.predicates[k].id as u64
                    == query@.edges[i].id,
        ),
        are_named(graph.edges[i].predicates, query@.predicates, at),
{
    let bare = GraphView {
        vertices: query@.vertices,
        edges: query@.edges,
        index: Map::empty(),
    };
    lemma_bare_graph(query);
    assert(query@.edges[i].predicates.len() == 0);
    lemma_edge_predicates(bare, query@.predicates, i)
}

proof fn lemma_edge_predicates(bare: GraphView, predicates: Seq<PredicateView>, i: int) -> (at: Seq<
    int,
>)
    requires
        bare.wf(),
        attach_all(bare, predicates) is Ok,
        0 <= i < bare.edges.len(),
        bare.edges[i].predicates.len() == 0,
    ensures
        same_shape(bare, attach_all(bare, predicates)->Ok_0.0),
        lists_places(
            at,
            predicates.len() as int,
            |k: int|
                predicates[k].target == "edge"@ && predicates[k].id as u64 == bare.edges[i].id,
        ),
        are_named(attach_all(bare, predicates)->Ok_0.0.edges[i].predicates, predicates, at),
    decreases predicates.len(),
{
    let id = bare.edges[i].id;
    let wanted = |k: int| predicates[k].target == "edge"@ && predicates[k].id as u64 == id;
    if predicates.len() == 0 {
        Seq::empty()
    } else {
        let n = predicates.len() as int;
        let fewer = predicates.drop_last();
        let p = predicates.last();
        let before = lemma_edge_predicates(bare, fewer, i);
        let (partial, used) = attach_all(bare, fewer)->Ok_0;
        let after = attach_all(bare, predicates)->Ok_0.0;
        assert(lists_places(before, n - 1, wanted)) by {
            assert forall|k: int| 0 <= k < n - 1 && #[trigger] wanted(k) implies before.contains(
                k,
            ) by {
                assert((|q: int| fewer[q].target == "edge"@ && fewer[q].id as u64 == id)(k));
            }
        }
        lemma_one_more_place(before, n, wanted);
        let at = if wanted(n - 1) {
            before.push(n - 1)
        } else {
            before
        };
        reveal_strlit("vertex");
        reveal_strlit("edge");
        assert("vertex"@.len() != "edge"@.len());
        assert(partial.edges[i].id == id);
        if p.target == "edge"@ {
            let k = partial.edge_at(p.id as u64)->0;
            assert(partial.edges[k].id == p.id as u64);
            assert(bare.edges[k].id == p.id as u64);
            if k != i {
                if k < i {
                    assert(bare.edges[k].id != bare.edges[i].id);
                } else {
                    assert(bare.edges[i].id != bare.edges[k].id);
                }
            }
        } else if p.target == "vertex"@ {
            let k = partial.vertex_at(p.id as u64)->0;
            assert(partial.vertices[k].id == p.id as u64);
        }
        assert(same_shape(bare, after));
        let old = partial.edges[i].predicates;
        let new = after.edges[i].predicates;
        assert forall|j: int| #![trigger new[j]] 0 <= j < new.len() implies is_named(
            new[j],
            predicates[at[j]],
        ) by {
            if j < old.len() {
                assert(new[j] == old[j]);
                assert(is_named(old[j], fewer[before[j]]));
            }
        }
        at
    }
}

} // verus!
