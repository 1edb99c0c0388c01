//! A data graph as flat lists: vertices and edges with their properties. The id of a vertex is
//! its own only among the vertices with its label.
use crate::chance::{distinct_indices, index_below};
use crate::query::{
    predicate_views, EdgeId, PredicateDef, PredicateView, VertexId,
};
use crate::text::{is_text, label_views};
use crate::value::{evaluate, meets, ComparisonOp, ScalarValue};
use rand::rngs::StdRng;
use vstd::prelude::*;
use vstd::string::*;

verus! {

/// A vertex of the data.
#[derive(Debug, Clone)]
pub struct FlatVertex {
    pub id: VertexId,
    pub label: String,
    pub props: Vec<ScalarValue>,
}

/// An edge of the data.
#[derive(Debug, Clone)]
pub struct FlatEdge {
    pub id: EdgeId,
    pub src: VertexId,
    pub src_label: String,
    pub dst: VertexId,
    pub dst_label: String,
    pub label: String,
    pub props: Vec<ScalarValue>,
}

/// What a vertex of the data says.
#[verifier::ext_equal]
pub struct FlatVertexView {
    pub id: VertexId,
    pub label: Seq<char>,
    pub props: Seq<ScalarValue>,
}

/// What an edge of the data says.
#[verifier::ext_equal]
pub struct FlatEdgeView {
    pub id: EdgeId,
    pub src: VertexId,
    pub src_label: Seq<char>,
    pub dst: VertexId,
    pub dst_label: Seq<char>,
    pub label: Seq<char>,
    pub props: Seq<ScalarValue>,
}

impl View for FlatVertex {
    type V = FlatVertexView;

    open spec fn view(&self) -> FlatVertexView {
        FlatVertexView { id: self.id, label: self.label@, props: self.props@ }
    }
}

impl View for FlatEdge {
    type V = FlatEdgeView;

    open spec fn view(&self) -> FlatEdgeView {
        FlatEdgeView {
            id: self.id,
            src: self.src,
            src_label: self.src_label@,
            dst: self.dst,
            dst_label: self.dst_label@,
            label: self.label@,
            props: self.props@,
        }
    }
}

/// Changes of a data graph that are not yet made.
#[derive(Debug, Clone)]
pub struct PendingChanges {
    pub inserted_vertices: Vec<FlatVertex>,
    pub inserted_edges: Vec<FlatEdge>,
    pub deleted_vertices: Vec<VertexId>,
    pub deleted_edge_ids: Vec<EdgeId>,
}

/// A data graph, and the changes of it that are not yet made.
#[derive(Debug, Clone)]
pub struct FlatGraph {
    pub vertices: Vec<FlatVertex>,
    pub edges: Vec<FlatEdge>,
    pub vertex_schemas: Vec<(String, Vec<String>)>,
    pub edge_schemas: Vec<(String, Vec<String>)>,
    pub edge_types: Vec<(String, (String, String))>,
    pub pending: PendingChanges,
}

/// What a data graph says, without the changes that are not yet made.
#[verifier::ext_equal]
pub struct FlatView {
    pub vertices: Seq<FlatVertexView>,
    pub edges: Seq<FlatEdgeView>,
    pub vertex_schemas: Seq<(Seq<char>, Seq<Seq<char>>)>,
    pub edge_schemas: Seq<(Seq<char>, Seq<Seq<char>>)>,
    pub edge_types: Seq<(Seq<char>, (Seq<char>, Seq<char>))>,
}

/// What changes say.
#[verifier::ext_equal]
pub struct PendingView {
    pub inserted_vertices: Seq<FlatVertexView>,
    pub inserted_edges: Seq<FlatEdgeView>,
    pub deleted_vertices: Seq<VertexId>,
    pub deleted_edge_ids: Seq<EdgeId>,
}

impl PendingView {
    /// Nothing changes.
    pub open spec fn nothing() -> PendingView {
        PendingView {
            inserted_vertices: Seq::empty(),
            inserted_edges: Seq::empty(),
            deleted_vertices: Seq::empty(),
            deleted_edge_ids: Seq::empty(),
        }
    }
}

impl View for PendingChanges {
    type V = PendingView;

    open spec fn view(&self) -> PendingView {
        PendingView {
            inserted_vertices: self.inserted_vertices@.map_values(|v: FlatVertex| v@),
            inserted_edges: self.inserted_edges@.map_values(|e: FlatEdge| e@),
            deleted_vertices: self.deleted_vertices@,
            deleted_edge_ids: self.deleted_edge_ids@,
        }
    }
}

impl PendingChanges {
    /// Nothing changes.
    pub fn new() -> (result: PendingChanges)
        ensures
            result@ == PendingView::nothing(),
    {
        let result = PendingChanges {
            inserted_vertices: Vec::new(),
            inserted_edges: Vec::new(),
            deleted_vertices: Vec::new(),
            deleted_edge_ids: Vec::new(),
        };
        assert(result@ =~= PendingView::nothing());
        result
    }
}

/// What schemas say.
pub open spec fn schema_views(schemas: Seq<(String, Vec<String>)>) -> Seq<
    (Seq<char>, Seq<Seq<char>>),
> {
    schemas.map_values(|s: (String, Vec<String>)| (s.0@, label_views(s.1@)))
}

impl View for FlatGraph {
    type V = FlatView;

    open spec fn view(&self) -> FlatView {
        FlatView {
            vertices: self.vertices@.map_values(|v: FlatVertex| v@),
            edges: self.edges@.map_values(|e: FlatEdge| e@),
            vertex_schemas: schema_views(self.vertex_schemas@),
            edge_schemas: schema_views(self.edge_schemas@),
            edge_types: self.edge_types@.map_values(
                |t: (String, (String, String))| (t.0@, (t.1.0@, t.1.1@)),
            ),
        }
    }
}

/// The names of the properties of a label.
pub open spec fn schema_of(schemas: Seq<(Seq<char>, Seq<Seq<char>>)>, label: Seq<char>) -> Option<
    Seq<Seq<char>>,
>
    decreases schemas.len(),
{
    if schemas.len() == 0 {
        None
    } else if schemas.first().0 == label {
        Some(schemas.first().1)
    } else {
        schema_of(schemas.drop_first(), label)
    }
}

/// The first position of a name.
pub open spec fn position_of(names: Seq<Seq<char>>, name: Seq<char>) -> Option<int>
    decreases names.len(),
{
    if names.len() == 0 {
        None
    } else if let Some(i) = position_of(names.drop_last(), name) {
        Some(i)
    } else if names.last() == name {
        Some(names.len() - 1)
    } else {
        None
    }
}

/// The position of a property in the lists of properties of a label.
pub open spec fn property_at(
    schemas: Seq<(Seq<char>, Seq<Seq<char>>)>,
    label: Seq<char>,
    property: Seq<char>,
) -> Option<int> {
    match schema_of(schemas, label) {
        Some(names) => position_of(names, property),
        None => None,
    }
}

impl FlatView {
    /// The first vertex with a label and an id among the first `n`.
    pub open spec fn vertex_among(self, label: Seq<char>, id: VertexId, n: int) -> Option<
        FlatVertexView,
    >
        decreases n,
    {
        if n <= 0 {
            None
        } else if let Some(v) = self.vertex_among(label, id, n - 1) {
            Some(v)
        } else if self.vertices[n - 1].label == label && self.vertices[n - 1].id == id {
            Some(self.vertices[n - 1])
        } else {
            None
        }
    }

    /// The properties of the vertex with a label and an id.
    pub open spec fn vertex_props(self, label: Seq<char>, id: VertexId) -> Option<
        Seq<ScalarValue>,
    > {
        match self.vertex_among(label, id, self.vertices.len() as int) {
            Some(v) => Some(v.props),
            None => None,
        }
    }

    /// The first edge with an id among the first `n`.
    pub open spec fn edge_among(self, id: EdgeId, n: int) -> Option<FlatEdgeView>
        decreases n,
    {
        if n <= 0 {
            None
        } else if let Some(e) = self.edge_among(id, n - 1) {
            Some(e)
        } else if self.edges[n - 1].id == id {
            Some(self.edges[n - 1])
        } else {
            None
        }
    }

    /// The edge with an id.
    pub open spec fn edge(self, id: EdgeId) -> Option<FlatEdgeView> {
        self.edge_among(id, self.edges.len() as int)
    }

    /// The properties of the edge with an id.
    pub open spec fn edge_props(self, id: EdgeId) -> Option<Seq<ScalarValue>> {
        match self.edge(id) {
            Some(e) => Some(e.props),
            None => None,
        }
    }

    /// The ids of the vertices with a label.
    pub open spec fn labelled(self, label: Seq<char>) -> Seq<VertexId> {
        labelled_ids(self.vertices, label)
    }

    /// The ids of the edges with a label.
    pub open spec fn edges_labelled(self, label: Seq<char>) -> Seq<EdgeId> {
        labelled_edge_ids(self.edges, label)
    }

    /// The neighbors of a vertex with a label along the edges with another label that leave it,
    /// or that enter it, each with the edge.
    pub open spec fn hops(
        self,
        label: Seq<char>,
        edge_label: Seq<char>,
        outgoing: bool,
        v: VertexId,
    ) -> Seq<(VertexId, EdgeId)> {
        hops_along(self.edges, label, edge_label, outgoing, v)
    }
}

/// The ids of the vertices with a label.
pub open spec fn labelled_ids(vertices: Seq<FlatVertexView>, label: Seq<char>) -> Seq<VertexId>
    decreases vertices.len(),
{
    if vertices.len() == 0 {
        Seq::empty()
    } else {
        let before = labelled_ids(vertices.drop_last(), label);
        if vertices.last().label == label {
            before.push(vertices.last().id)
        } else {
            before
        }
    }
}

/// The ids of the edges with a label.
pub open spec fn labelled_edge_ids(edges: Seq<FlatEdgeView>, label: Seq<char>) -> Seq<EdgeId>
    decreases edges.len(),
{
    if edges.len() == 0 {
        Seq::empty()
    } else {
        let before = labelled_edge_ids(edges.drop_last(), label);
        if edges.last().label == label {
            before.push(edges.last().id)
        } else {
            before
        }
    }
}

/// The neighbors of a vertex along edges.
pub open spec fn hops_along(
    edges: Seq<FlatEdgeView>,
    label: Seq<char>,
    edge_label: Seq<char>,
    outgoing: bool,
    v: VertexId,
) -> Seq<(VertexId, EdgeId)>
    decreases edges.len(),
{
    if edges.len() == 0 {
        Seq::empty()
    } else {
        let before = hops_along(edges.drop_last(), label, edge_label, outgoing, v);
        let e = edges.last();
        if e.label != edge_label {
            before
        } else if outgoing && e.src_label == label && e.src == v {
            before.push((e.dst, e.id))
        } else if !outgoing && e.dst_label == label && e.dst == v {
            before.push((e.src, e.id))
        } else {
            before
        }
    }
}

fn same_text(a: &String, b: &str) -> (result: bool)
    ensures
        result == (a@ == b@),
{
    is_text(a.as_str(), b)
}

proof fn lemma_position(names: Seq<Seq<char>>, name: Seq<char>, n: int)
    requires
        0 <= n <= names.len(),
        position_of(names.take(n), name) is Some,
    ensures
        position_of(names, name) == position_of(names.take(n), name),
    decreases names.len(),
{
    if n == names.len() {
        assert(names.take(n) =~= names);
    } else {
        assert(names.drop_last().take(n) =~= names.take(n));
        lemma_position(names.drop_last(), name, n);
    }
}

/// A name is found where it is.
pub proof fn lemma_position_is_there(names: Seq<Seq<char>>, name: Seq<char>)
    ensures
        position_of(names, name) matches Some(i) ==> 0 <= i < names.len() && names[i] == name,
    decreases names.len(),
{
    if names.len() > 0 {
        lemma_position_is_there(names.drop_last(), name);
    }
}

fn find_name(names: &Vec<String>, name: &str) -> (result: Option<usize>)
    ensures
        match result {
            Some(i) => position_of(label_views(names@), name@) == Some(i as int),
            None => position_of(label_views(names@), name@) is None,
        },
{
    let ghost all = label_views(names@);
    let mut i: usize = 0;
    assert(position_of(all.take(0), name@) is None);
    while i < names.len()
        invariant
            all == label_views(names@),
            i <= names@.len(),
            position_of(all.take(i as int), name@) is None,
        decreases names.len() - i,
    {
        assert(all.take(i + 1).drop_last() =~= all.take(i as int));
        assert(all.take(i + 1).last() == names@[i as int]@);
        if same_text(&names[i], name) {
            proof {
                lemma_position(all, name@, i + 1);
            }
            return Some(i);
        }
        i = i + 1;
    }
    assert(all.take(i as int) =~= all);
    None
}

fn find_property(schemas: &Vec<(String, Vec<String>)>, label: &str, property: &str) -> (result:
    Option<usize>)
    ensures
        match result {
            Some(i) => property_at(schema_views(schemas@), label@, property@) == Some(i as int),
            None => property_at(schema_views(schemas@), label@, property@) is None,
        },
{
    let ghost all = schema_views(schemas@);
    let mut i: usize = 0;
    assert(all.skip(0) =~= all);
    while i < schemas.len()
        invariant
            all == schema_views(schemas@),
            i <= schemas@.len(),
            schema_of(all, label@) == schema_of(all.skip(i as int), label@),
        decreases schemas.len() - i,
    {
        assert(all.skip(i as int).first() == (
            schemas@[i as int].0@,
            label_views(schemas@[i as int].1@),
        ));
        assert(all.skip(i as int).drop_first() =~= all.skip(i + 1));
        if same_text(&schemas[i].0, label) {
            return find_name(&schemas[i].1, property);
        }
        i = i + 1;
    }
    None
}

impl FlatGraph {
    /// The properties of the vertex with a label and an id.
    pub fn vertex_props(&self, label: &str, id: VertexId) -> (result: Option<&Vec<ScalarValue>>)
        ensures
            match result {
                Some(props) => self@.vertex_props(label@, id) == Some(props@),
                None => self@.vertex_props(label@, id) is None,
            },
    {
        let ghost view = self@;
        let mut i: usize = 0;
        while i < self.vertices.len()
            invariant
                view == self@,
                i <= self.vertices@.len(),
                view.vertex_among(label@, id, i as int) is None,
            decreases self.vertices.len() - i,
        {
            assert(view.vertices[i as int] == self.vertices@[i as int]@);
            if self.vertices[i].id == id && same_text(&self.vertices[i].label, label) {
                proof {
                    lemma_vertex_among(view, label@, id, i + 1, view.vertices.len() as int);
                }
                return Some(&self.vertices[i].props);
            }
            i = i + 1;
        }
        None
    }

    fn find_flat_edge(&self, id: EdgeId) -> (result: Option<&FlatEdge>)
        ensures
            match result {
                Some(e) => self@.edge(id) == Some(e@),
                None => self@.edge(id) is None,
            },
    {
        let ghost view = self@;
        let mut i: usize = 0;
        while i < self.edges.len()
            invariant
                view == self@,
                i <= self.edges@.len(),
                view.edge_among(id, i as int) is None,
            decreases self.edges.len() - i,
        {
            assert(view.edges[i as int] == self.edges@[i as int]@);
            if self.edges[i].id == id {
                proof {
                    lemma_edge_among(view, id, i + 1, view.edges.len() as int);
                }
                return Some(&self.edges[i]);
            }
            i = i + 1;
        }
        None
    }

    /// The properties of the edge with an id.
    pub fn edge_props(&self, id: EdgeId) -> (result: Option<&Vec<ScalarValue>>)
        ensures
            match result {
                Some(props) => self@.edge_props(id) == Some(props@),
                None => self@.edge_props(id) is None,
            },
    {
        match self.find_flat_edge(id) {
            Some(e) => Some(&e.props),
            None => None,
        }
    }

    /// The edge with an id.
    pub fn edge_endpoints(&self, id: EdgeId) -> (result: Option<&FlatEdge>)
        ensures
            match result {
                Some(e) => self@.edge(id) == Some(e@),
                None => self@.edge(id) is None,
            },
    {
        self.find_flat_edge(id)
    }

    /// The ids of the vertices with a label.
    pub fn all_vertex_ids_by_label(&self, label: &str) -> (result: Vec<VertexId>)
        ensures
            result@ == self@.labelled(label@),
    {
        let ghost all = self@.vertices;
        let mut result: Vec<VertexId> = Vec::new();
        let mut i: usize = 0;
        while i < self.vertices.len()
            invariant
                all == self@.vertices,
                i <= self.vertices@.len(),
                result@ == labelled_ids(all.take(i as int), label@),
            decreases self.vertices.len() - i,
        {
            assert(all.take(i + 1).drop_last() =~= all.take(i as int));
            assert(all.take(i + 1).last() == self.vertices@[i as int]@);
            if same_text(&self.vertices[i].label, label) {
                result.push(self.vertices[i].id);
            }
            i = i + 1;
        }
        assert(all.take(i as int) =~= all);
        result
    }

    /// The ids of the edges with a label.
    pub fn all_edge_ids_by_label(&self, label: &str) -> (result: Vec<EdgeId>)
        ensures
            result@ == self@.edges_labelled(label@),
    {
        let ghost all = self@.edges;
        let mut result: Vec<EdgeId> = Vec::new();
        let mut i: usize = 0;
        while i < self.edges.len()
            invariant
                all == self@.edges,
                i <= self.edges@.len(),
                result@ == labelled_edge_ids(all.take(i as int), label@),
            decreases self.edges.len() - i,
        {
            assert(all.take(i + 1).drop_last() =~= all.take(i as int));
            assert(all.take(i + 1).last() == self.edges@[i as int]@);
            if same_text(&self.edges[i].label, label) {
                result.push(self.edges[i].id);
            }
            i = i + 1;
        }
        assert(all.take(i as int) =~= all);
        result
    }

    /// How many vertices have a label.
    pub fn vertex_count_by_label(&self, label: &str) -> (result: usize)
        ensures
            result == self@.labelled(label@).len(),
    {
        self.all_vertex_ids_by_label(label).len()
    }

    /// How many edges have a label.
    pub fn edge_count_by_label(&self, label: &str) -> (result: usize)
        ensures
            result == self@.edges_labelled(label@).len(),
    {
        self.all_edge_ids_by_label(label).len()
    }

    /// The neighbors of a vertex along the edges with a label that leave it, or that enter it.
    pub fn neighbors(&self, label: &str, edge_label: &str, outgoing: bool, v: VertexId) -> (result:
        Vec<(VertexId, EdgeId)>)
        ensures
            result@ == self@.hops(label@, edge_label@, outgoing, v),
    {
        let ghost all = self@.edges;
        let mut result: Vec<(VertexId, EdgeId)> = Vec::new();
        let mut i: usize = 0;
        while i < self.edges.len()
            invariant
                all == self@.edges,
                i <= self.edges@.len(),
                result@ == hops_along(all.take(i as int), label@, edge_label@, outgoing, v),
            decreases self.edges.len() - i,
        {
            assert(all.take(i + 1).drop_last() =~= all.take(i as int));
            assert(all.take(i + 1).last() == self.edges@[i as int]@);
            let e: &FlatEdge = &self.edges[i];
            if same_text(&e.label, edge_label) {
                if outgoing {
                    if e.src == v && same_text(&e.src_label, label) {
                        result.push((e.dst, e.id));
                    }
                } else if e.dst == v && same_text(&e.dst_label, label) {
                    result.push((e.src, e.id));
                }
            }
            i = i + 1;
        }
        assert(all.take(i as int) =~= all);
        result
    }

    /// Some of the vertices with a label, none of them from one place twice: so many, or all
    /// where there are no more.
    pub fn sample_vertices_by_label(&self, label: &str, amount: usize, rng: &mut StdRng) -> (result:
        Vec<VertexId>)
        ensures
            is_sample(self@.labelled(label@), amount as nat, result@),
    {
        let all: Vec<VertexId> = self.all_vertex_ids_by_label(label);
        let amount: usize = if amount < all.len() {
            amount
        } else {
            all.len()
        };
        if amount == all.len() && all.len() > 0xffff_ffffusize {
            let ghost places = Seq::new(all@.len(), |i: int| i as usize);
            assert(picks(all@, places, all@));
            return all;
        }
        let picked: Vec<usize> = distinct_indices(rng, all.len(), amount);
        let mut result: Vec<VertexId> = Vec::new();
        let mut i: usize = 0;
        while i < picked.len()
            invariant
                i <= picked@.len(),
                forall|j: int| 0 <= j < picked@.len() ==> #[trigger] picked@[j] < all@.len(),
                result@.len() == i,
                forall|j: int|
                    #![trigger result@[j]]
                    0 <= j < i ==> result@[j] == all@[picked@[j] as int],
            decreases picked.len() - i,
        {
            result.push(all[picked[i]]);
            i = i + 1;
        }
        assert(picks(all@, picked@, result@));
        result
    }

    /// One of the edges with a label; none where there is none.
    pub fn sample_edge_id_by_label(&self, label: &str, rng: &mut StdRng) -> (result: Option<EdgeId>)
        ensures
            match result {
                Some(id) => self@.edges_labelled(label@).contains(id),
                None => self@.edges_labelled(label@).len() == 0,
            },
    {
        let all: Vec<EdgeId> = self.all_edge_ids_by_label(label);
        if all.len() == 0 {
            return None;
        }
        let i: usize = index_below(rng, all.len());
        assert(all@[i as int] == all@[i as int]);
        Some(all[i])
    }
}

/// Whether ids were picked from distinct places of a list.
pub open spec fn picks(all: Seq<u64>, places: Seq<usize>, picked: Seq<u64>) -> bool {
    &&& places.len() == picked.len()
    &&& places.no_duplicates()
    &&& forall|i: int|
        #![trigger picked[i]]
        0 <= i < picked.len() ==> places[i] < all.len() && picked[i] == all[places[i] as int]
}

/// Whether ids are a sample of a list: so many of them, from distinct places, or all where there
/// are no more.
pub open spec fn is_sample(all: Seq<u64>, amount: nat, picked: Seq<u64>) -> bool {
    &&& picked.len() == (if amount < all.len() {
        amount
    } else {
        all.len()
    })
    &&& exists|places: Seq<usize>| #[trigger] picks(all, places, picked)
}

/// Whether vertices are those for a description: what is kept for it already, or else a new
/// sample of a list, which is kept from then on.
pub open spec fn is_pick(
    all: Seq<u64>,
    amount: nat,
    before: Map<Seq<char>, Seq<VertexId>>,
    after: Map<Seq<char>, Seq<VertexId>>,
    key: Seq<char>,
    remembered: bool,
    picked: Seq<VertexId>,
) -> bool {
    if before.contains_key(key) {
        remembered && picked == before[key] && after == before
    } else {
        !remembered && is_sample(all, amount, picked) && after == before.insert(key, picked)
    }
}

proof fn lemma_vertex_among(view: FlatView, label: Seq<char>, id: VertexId, n: int, m: int)
    requires
        0 <= n <= m,
        view.vertex_among(label, id, n) is Some,
    ensures
        view.vertex_among(label, id, m) == view.vertex_among(label, id, n),
    decreases m,
{
    if n < m {
        lemma_vertex_among(view, label, id, n, m - 1);
    }
}

proof fn lemma_edge_among(view: FlatView, id: EdgeId, n: int, m: int)
    requires
        0 <= n <= m,
        view.edge_among(id, n) is Some,
    ensures
        view.edge_among(id, m) == view.edge_among(id, n),
    decreases m,
{
    if n < m {
        lemma_edge_among(view, id, n, m - 1);
    }
}

/// A condition on the property at a position.
#[derive(Debug, Clone)]
pub struct ResolvedPredicate {
    pub prop_index: usize,
    pub op: ComparisonOp,
    pub value: ScalarValue,
    pub values: Vec<ScalarValue>,
}

/// What a condition says.
#[verifier::ext_equal]
pub struct ResolvedView {
    pub prop_index: int,
    pub op: ComparisonOp,
    pub value: ScalarValue,
    pub values: Seq<ScalarValue>,
}

impl View for ResolvedPredicate {
    type V = ResolvedView;

    open spec fn view(&self) -> ResolvedView {
        ResolvedView {
            prop_index: self.prop_index as int,
            op: self.op,
            value: self.value,
            values: self.values@,
        }
    }
}

/// What conditions say.
pub open spec fn resolved_views(predicates: Seq<ResolvedPredicate>) -> Seq<ResolvedView> {
    predicates.map_values(|p: ResolvedPredicate| p@)
}

/// A property that a predicate speaks of and a label does not have.
#[derive(Debug, Clone)]
pub enum FlatError {
    NoVertexProperty { label: String, property: String },
    NoEdgeProperty { label: String, property: String },
}

/// What a missing property is.
#[verifier::ext_equal]
pub struct FlatErrorView {
    pub on_edge: bool,
    pub label: Seq<char>,
    pub property: Seq<char>,
}

impl View for FlatError {
    type V = FlatErrorView;

    open spec fn view(&self) -> FlatErrorView {
        match self {
            FlatError::NoVertexProperty { label, property } => FlatErrorView {
                on_edge: false,
                label: label@,
                property: property@,
            },
            FlatError::NoEdgeProperty { label, property } => FlatErrorView {
                on_edge: true,
                label: label@,
                property: property@,
            },
        }
    }
}

/// The conditions of predicates on the properties of a label, or the first property that the
/// label does not have.
pub open spec fn resolution(
    schemas: Seq<(Seq<char>, Seq<Seq<char>>)>,
    label: Seq<char>,
    predicates: Seq<PredicateView>,
) -> Result<Seq<ResolvedView>, Seq<char>>
    decreases predicates.len(),
{
    if predicates.len() == 0 {
        Ok(Seq::empty())
    } else {
        let p = predicates.last();
        match resolution(schemas, label, predicates.drop_last()) {
            Err(property) => Err(property),
            Ok(before) => match property_at(schemas, label, p.property) {
                Some(i) => Ok(
                    before.push(
                        ResolvedView { prop_index: i, op: p.op, value: p.value, values: p.values },
                    ),
                ),
                None => Err(p.property),
            },
        }
    }
}

proof fn lemma_resolution_fails(
    schemas: Seq<(Seq<char>, Seq<Seq<char>>)>,
    label: Seq<char>,
    predicates: Seq<PredicateView>,
    n: int,
)
    requires
        0 <= n <= predicates.len(),
        resolution(schemas, label, predicates.take(n)) is Err,
    ensures
        resolution(schemas, label, predicates) == resolution(schemas, label, predicates.take(n)),
    decreases predicates.len(),
{
    if n == predicates.len() {
        assert(predicates.take(n) =~= predicates);
    } else {
        assert(predicates.drop_last().take(n) =~= predicates.take(n));
        lemma_resolution_fails(schemas, label, predicates.drop_last(), n);
    }
}

fn resolve(
    schemas: &Vec<(String, Vec<String>)>,
    label: &str,
    predicates: &Vec<PredicateDef>,
) -> (result: Result<Vec<ResolvedPredicate>, String>)
    ensures
        match resolution(schema_views(schemas@), label@, predicate_views(predicates@)) {
            Ok(views) => result matches Ok(resolved) && resolved_views(resolved@) == views,
            Err(property) => result matches Err(name) && name@ == property,
        },
{
    let ghost all = predicate_views(predicates@);
    let ghost names = schema_views(schemas@);
    let mut result: Vec<ResolvedPredicate> = Vec::new();
    let mut i: usize = 0;
    assert(resolved_views(result@) =~= Seq::empty());
    assert(all.take(0) =~= Seq::empty());
    while i < predicates.len()
        invariant
            all == predicate_views(predicates@),
            names == schema_views(schemas@),
            i <= predicates@.len(),
            resolution(names, label@, all.take(i as int)) == Ok::<_, Seq<char>>(
                resolved_views(result@),
            ),
        decreases predicates.len() - i,
    {
        let p: PredicateDef = predicates[i].copy();
        assert(all.take(i + 1).drop_last() =~= all.take(i as int));
        assert(all.take(i + 1).last() == p@);
        match find_property(schemas, label, p.property.as_str()) {
            Some(prop_index) => {
                let ghost before = result@;
                let resolved = ResolvedPredicate {
                    prop_index,
                    op: p.op,
                    value: p.value,
                    values: p.values,
                };
                result.push(resolved);
                assert(resolved_views(result@) =~= resolved_views(before).push(resolved@));
            },
            None => {
                proof {
                    lemma_resolution_fails(names, label@, all, i + 1);
                }
                return Err(p.property);
            },
        }
        i = i + 1;
    }
    assert(all.take(i as int) =~= all);
    Ok(result)
}

impl FlatGraph {
    /// The conditions of predicates on the vertices with a label.
    pub fn resolve_vertex_predicates(&self, label: &str, predicates: &Vec<PredicateDef>) -> (result:
        Result<Vec<ResolvedPredicate>, FlatError>)
        ensures
            match resolution(self@.vertex_schemas, label@, predicate_views(predicates@)) {
                Ok(views) => result matches Ok(resolved) && resolved_views(resolved@) == views,
                Err(name) => result matches Err(
                    FlatError::NoVertexProperty { label: l, property },
                ) && l@ == label@ && property@ == name,
            },
    {
        match resolve(&self.vertex_schemas, label, predicates) {
            Ok(resolved) => Ok(resolved),
            Err(property) => Err(FlatError::NoVertexProperty { label: label.to_owned(), property }),
        }
    }

    /// The conditions of predicates on the edges with a label.
    pub fn resolve_edge_predicates(&self, label: &str, predicates: &Vec<PredicateDef>) -> (result:
        Result<Vec<ResolvedPredicate>, FlatError>)
        ensures
            match resolution(self@.edge_schemas, label@, predicate_views(predicates@)) {
                Ok(views) => result matches Ok(resolved) && resolved_views(resolved@) == views,
                Err(name) => result matches Err(
                    FlatError::NoEdgeProperty { label: l, property },
                ) && l@ == label@ && property@ == name,
            },
    {
        match resolve(&self.edge_schemas, label, predicates) {
            Ok(resolved) => Ok(resolved),
            Err(property) => Err(FlatError::NoEdgeProperty { label: label.to_owned(), property }),
        }
    }
}

/// Whether properties meet a condition; one on a property that is not there is not met.
pub open spec fn meets_one(props: Seq<ScalarValue>, p: ResolvedView) -> bool {
    0 <= p.prop_index < props.len() && meets(props[p.prop_index], p.op, p.value, p.values)
}

/// Whether properties meet all conditions. Where there are no properties, only the absence of
/// conditions is met.
pub open spec fn passes(props: Option<Seq<ScalarValue>>, predicates: Seq<ResolvedView>) -> bool {
    predicates.len() == 0 || (props matches Some(values) && forall|i: int|
        #![trigger predicates[i]]
        0 <= i < predicates.len() ==> meets_one(values, predicates[i]))
}

/// The properties of an item that is there.
pub open spec fn props_view(props: Option<&Vec<ScalarValue>>) -> Option<Seq<ScalarValue>> {
    match props {
        Some(values) => Some(values@),
        None => None,
    }
}

/// Decides whether properties meet all conditions.
pub fn properties_pass_predicates(
    properties: Option<&Vec<ScalarValue>>,
    predicates: &Vec<ResolvedPredicate>,
) -> (result: bool)
    ensures
        result == passes(props_view(properties), resolved_views(predicates@)),
{
    let ghost all = resolved_views(predicates@);
    if predicates.len() == 0 {
        return true;
    }
    match properties {
        None => false,
        Some(values) => {
            let mut i: usize = 0;
            while i < predicates.len()
                invariant
                    all == resolved_views(predicates@),
                    properties == Some(values),
                    predicates@.len() > 0,
                    i <= predicates@.len(),
                    forall|j: int|
                        #![trigger all[j]]
                        0 <= j < i ==> meets_one(values@, all[j]),
                decreases predicates.len() - i,
            {
                let p: &ResolvedPredicate = &predicates[i];
                assert(all[i as int] == p@);
                if p.prop_index >= values.len() || !evaluate(
                    &values[p.prop_index],
                    p.op,
                    &p.value,
                    &p.values,
                ) {
                    assert(!meets_one(values@, all[i as int]));
                    return false;
                }
                i = i + 1;
            }
            true
        },
    }
}

/// Collects a data graph.
#[derive(Debug)]
pub struct FlatGraphBuilder {
    pub graph: FlatGraph,
}

/// Schemas with one more, in the place of one for the same label where there is one.
pub open spec fn with_schema(
    schemas: Seq<(Seq<char>, Seq<Seq<char>>)>,
    label: Seq<char>,
    names: Seq<Seq<char>>,
) -> Seq<(Seq<char>, Seq<Seq<char>>)>
    decreases schemas.len(),
{
    if schemas.len() == 0 {
        seq![(label, names)]
    } else if schemas.first().0 == label {
        seq![(label, names)] + schemas.drop_first()
    } else {
        seq![schemas.first()] + with_schema(schemas.drop_first(), label, names)
    }
}

/// The schema that was put in is found.
pub proof fn schemas_are_found(
    schemas: Seq<(Seq<char>, Seq<Seq<char>>)>,
    label: Seq<char>,
    names: Seq<Seq<char>>,
    other: Seq<char>,
)
    ensures
        schema_of(with_schema(schemas, label, names), other) == (if other == label {
            Some(names)
        } else {
            schema_of(schemas, other)
        }),
    decreases schemas.len(),
{
    let after = with_schema(schemas, label, names);
    if schemas.len() == 0 {
        assert(after.drop_first() =~= Seq::empty());
    } else if schemas.first().0 == label {
        assert(after.drop_first() =~= schemas.drop_first());
    } else {
        schemas_are_found(schemas.drop_first(), label, names, other);
        assert(after.drop_first() =~= with_schema(schemas.drop_first(), label, names));
    }
}

fn put_schema(schemas: &mut Vec<(String, Vec<String>)>, label: &str, names: Vec<String>)
    ensures
        schema_views(final(schemas)@) == with_schema(
            schema_views(old(schemas)@),
            label@,
            label_views(names@),
        ),
{
    let ghost all = schema_views(schemas@);
    let ghost new = label_views(names@);
    let mut i: usize = 0;
    assert(all.skip(0) =~= all);
    assert(all.take(0) + with_schema(all, label@, new) =~= with_schema(all, label@, new));
    while i < schemas.len()
        invariant
            schemas@ == old(schemas)@,
            all == schema_views(schemas@),
            new == label_views(names@),
            i <= schemas@.len(),
            with_schema(all, label@, new) == all.take(i as int) + with_schema(
                all.skip(i as int),
                label@,
                new,
            ),
        decreases schemas.len() - i,
    {
        let ghost rest = all.skip(i as int);
        assert(rest.first() == all[i as int]);
        assert(rest.drop_first() =~= all.skip(i + 1));
        if same_text(&schemas[i].0, label) {
            schemas.set(i, (label.to_owned(), names));
            assert(schema_views(schemas@) =~= all.update(i as int, (label@, new)));
            assert(all.update(i as int, (label@, new)) =~= all.take(i as int) + (seq![
                (label@, new),
            ] + all.skip(i + 1)));
            return;
        }
        assert(all.take(i as int) + (seq![all[i as int]] + with_schema(
            all.skip(i + 1),
            label@,
            new,
        )) =~= all.take(i + 1) + with_schema(all.skip(i + 1), label@, new));
        i = i + 1;
    }
    schemas.push((label.to_owned(), names));
    assert(all.skip(i as int) =~= Seq::empty());
    assert(all.take(i as int) =~= all);
    assert(schema_views(schemas@) =~= all.push((label@, new)));
    assert(all + seq![(label@, new)] =~= all.push((label@, new)));
}

impl FlatGraphBuilder {
    /// Nothing is collected.
    pub fn new() -> (result: FlatGraphBuilder)
        ensures
            result.graph@ == (FlatView {
                vertices: Seq::empty(),
                edges: Seq::empty(),
                vertex_schemas: Seq::empty(),
                edge_schemas: Seq::empty(),
                edge_types: Seq::empty(),
            }),
            result.graph.pending@ == PendingView::nothing(),
    {
        let graph = FlatGraph {
            vertices: Vec::new(),
            edges: Vec::new(),
            vertex_schemas: Vec::new(),
            edge_schemas: Vec::new(),
            edge_types: Vec::new(),
            pending: PendingChanges::new(),
        };
        assert(graph@ =~= (FlatView {
            vertices: Seq::empty(),
            edges: Seq::empty(),
            vertex_schemas: Seq::empty(),
            edge_schemas: Seq::empty(),
            edge_types: Seq::empty(),
        }));
        FlatGraphBuilder { graph }
    }

    /// Names the properties of a vertex label.
    pub fn set_vertex_prop_schema(&mut self, label: &str, names: Vec<String>)
        ensures
            final(self).graph@ == (FlatView {
                vertex_schemas: with_schema(
                    old(self).graph@.vertex_schemas,
                    label@,
                    label_views(names@),
                ),
                ..old(self).graph@
            }),
            final(self).graph.pending == old(self).graph.pending,
    {
        put_schema(&mut self.graph.vertex_schemas, label, names);
    }

    /// Names the properties of an edge label.
    pub fn set_edge_prop_schema(&mut self, label: &str, names: Vec<String>)
        ensures
            final(self).graph@ == (FlatView {
                edge_schemas: with_schema(
                    old(self).graph@.edge_schemas,
                    label@,
                    label_views(names@),
                ),
                ..old(self).graph@
            }),
            final(self).graph.pending == old(self).graph.pending,
    {
        put_schema(&mut self.graph.edge_schemas, label, names);
    }

    /// Says between which labels the edges with a label go.
    pub fn set_edge_type_schema(&mut self, label: &str, src_label: &str, dst_label: &str)
        ensures
            final(self).graph@ == (FlatView {
                edge_types: old(self).graph@.edge_types.push((label@, (src_label@, dst_label@))),
                ..old(self).graph@
            }),
            final(self).graph.pending == old(self).graph.pending,
    {
        self.graph.edge_types.push(
            (label.to_owned(), (src_label.to_owned(), dst_label.to_owned())),
        );
        assert(self.graph@.edge_types =~= old(self).graph@.edge_types.push(
            (label@, (src_label@, dst_label@)),
        ));
    }

    /// Adds a vertex.
    pub fn add_vertex(&mut self, id: VertexId, label: &str, props: Vec<ScalarValue>)
        ensures
            final(self).graph@ == (FlatView {
                vertices: old(self).graph@.vertices.push(
                    FlatVertexView { id, label: label@, props: props@ },
                ),
                ..old(self).graph@
            }),
            final(self).graph.pending == old(self).graph.pending,
    {
        self.graph.vertices.push(FlatVertex { id, label: label.to_owned(), props });
        assert(self.graph@.vertices =~= old(self).graph@.vertices.push(
            FlatVertexView { id, label: label@, props: props@ },
        ));
    }

    /// Adds an edge.
    pub fn add_edge(
        &mut self,
        id: EdgeId,
        src: VertexId,
        src_label: &str,
        dst: VertexId,
        dst_label: &str,
        label: &str,
        props: Vec<ScalarValue>,
    )
        ensures
            final(self).graph@ == (FlatView {
                edges: old(self).graph@.edges.push(
                    FlatEdgeView {
                        id,
                        src,
                        src_label: src_label@,
                        dst,
                        dst_label: dst_label@,
                        label: label@,
                        props: props@,
                    },
                ),
                ..old(self).graph@
            }),
            final(self).graph.pending == old(self).graph.pending,
    {
        let edge = FlatEdge {
            id,
            src,
            src_label: src_label.to_owned(),
            dst,
            dst_label: dst_label.to_owned(),
            label: label.to_owned(),
            props,
        };
        self.graph.edges.push(edge);
        assert(self.graph@.edges =~= old(self).graph@.edges.push(edge@));
    }

    /// The data graph that was collected.
    pub fn build(self) -> (result: FlatGraph)
        ensures
            result == self.graph,
    {
        self.graph
    }
}

} // verus!
