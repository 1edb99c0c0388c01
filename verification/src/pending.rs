//! Changes of a data graph: they are noted first, and made together later.
use crate::counting::{
    lemma_no_places, lemma_places_alike, lemma_places_finite, lemma_places_step, places,
};
use crate::flat::{
    FlatEdge, FlatEdgeView, FlatGraph, FlatVertex, FlatVertexView, FlatView, PendingChanges,
    PendingView,
};
use crate::lookups::{lemma_one_more_place, lists_places};
use crate::query::{contains_id, EdgeId, VertexId};
use crate::text::{is_text, label_views};
use crate::value::ScalarValue;
use vstd::prelude::*;
use vstd::string::*;

verus! {

/// The labels of vertices, each of them once.
pub open spec fn labels_of(vertices: Seq<FlatVertexView>) -> Seq<Seq<char>>
    decreases vertices.len(),
{
    if vertices.len() == 0 {
        Seq::empty()
    } else {
        let before = labels_of(vertices.drop_last());
        if before.contains(vertices.last().label) {
            before
        } else {
            before.push(vertices.last().label)
        }
    }
}

/// The ids of edges.
pub open spec fn edge_ids_of(edges: Seq<FlatEdgeView>) -> Seq<EdgeId> {
    edges.map_values(|e: FlatEdgeView| e.id)
}

/// The label of the first vertex with an id.
pub open spec fn label_of(vertices: Seq<FlatVertexView>, id: VertexId) -> Option<Seq<char>>
    decreases vertices.len(),
{
    if vertices.len() == 0 {
        None
    } else {
        match label_of(vertices.drop_last(), id) {
            Some(label) => Some(label),
            None => if vertices.last().id == id {
                Some(vertices.last().label)
            } else {
                None
            },
        }
    }
}

/// An edge at a vertex, and what is at its other end.
#[derive(Debug)]
pub struct IncidentEdge {
    pub edge: EdgeId,
    pub neighbor: VertexId,
    pub neighbor_label: String,
    pub label: String,
}

/// What an edge at a vertex says.
#[verifier::ext_equal]
pub struct IncidentView {
    pub edge: EdgeId,
    pub neighbor: VertexId,
    pub neighbor_label: Seq<char>,
    pub label: Seq<char>,
}

impl View for IncidentEdge {
    type V = IncidentView;

    open spec fn view(&self) -> IncidentView {
        IncidentView {
            edge: self.edge,
            neighbor: self.neighbor,
            neighbor_label: self.neighbor_label@,
            label: self.label@,
        }
    }
}

/// The edges at a vertex: those that leave it and those that enter it.
pub open spec fn incident_to(edges: Seq<FlatEdgeView>, v: VertexId) -> Seq<IncidentView>
    decreases edges.len(),
{
    if edges.len() == 0 {
        Seq::empty()
    } else {
        let e = edges.last();
        let before = incident_to(edges.drop_last(), v);
        let left = if e.src == v {
            before.push(
                IncidentView {
                    edge: e.id,
                    neighbor: e.dst,
                    neighbor_label: e.dst_label,
                    label: e.label,
                },
            )
        } else {
            before
        };
        if e.dst == v {
            left.push(
                IncidentView {
                    edge: e.id,
                    neighbor: e.src,
                    neighbor_label: e.src_label,
                    label: e.label,
                },
            )
        } else {
            left
        }
    }
}

/// A way to go on from a vertex label: along edges with a label, to vertices with a label.
#[derive(Debug)]
pub struct Extension {
    pub edge_label: String,
    pub neighbor_label: String,
    pub outgoing: bool,
}

/// What a way to go on says.
#[verifier::ext_equal]
pub struct ExtensionView {
    pub edge_label: Seq<char>,
    pub neighbor_label: Seq<char>,
    pub outgoing: bool,
}

impl View for Extension {
    type V = ExtensionView;

    open spec fn view(&self) -> ExtensionView {
        ExtensionView {
            edge_label: self.edge_label@,
            neighbor_label: self.neighbor_label@,
            outgoing: self.outgoing,
        }
    }
}

/// What ways to go on say.
pub open spec fn extension_views(extensions: Seq<Extension>) -> Seq<ExtensionView> {
    extensions.map_values(|e: Extension| e@)
}

/// The ways to go on from a label that edge types offer.
pub open spec fn extensions_from(
    types: Seq<(Seq<char>, (Seq<char>, Seq<char>))>,
    label: Seq<char>,
) -> Seq<ExtensionView>
    decreases types.len(),
{
    if types.len() == 0 {
        Seq::empty()
    } else {
        let (edge_label, (src, dst)) = types.last();
        let before = extensions_from(types.drop_last(), label);
        let out = if src == label {
            before.push(ExtensionView { edge_label, neighbor_label: dst, outgoing: true })
        } else {
            before
        };
        if dst == label {
            out.push(ExtensionView { edge_label, neighbor_label: src, outgoing: false })
        } else {
            out
        }
    }
}

/// The vertices whose ids are not among some.
pub open spec fn vertices_kept(
    vertices: Seq<FlatVertexView>,
    deleted: Seq<VertexId>,
) -> Seq<FlatVertexView>
    decreases vertices.len(),
{
    if vertices.len() == 0 {
        Seq::empty()
    } else {
        let before = vertices_kept(vertices.drop_last(), deleted);
        if deleted.contains(vertices.last().id) {
            before
        } else {
            before.push(vertices.last())
        }
    }
}

/// The edges whose ids are not among some.
pub open spec fn flat_edges_kept(edges: Seq<FlatEdgeView>, deleted: Seq<EdgeId>) -> Seq<FlatEdgeView>
    decreases edges.len(),
{
    if edges.len() == 0 {
        Seq::empty()
    } else {
        let before = flat_edges_kept(edges.drop_last(), deleted);
        if deleted.contains(edges.last().id) {
            before
        } else {
            before.push(edges.last())
        }
    }
}

/// A data graph with changes made.
pub open spec fn with_changes(data: FlatView, changes: PendingView) -> FlatView {
    FlatView {
        vertices: vertices_kept(
            data.vertices + changes.inserted_vertices,
            changes.deleted_vertices,
        ),
        edges: flat_edges_kept(data.edges + changes.inserted_edges, changes.deleted_edge_ids),
        ..data
    }
}

/// Whether a label is among others.
pub fn has_label_already(labels: &Vec<String>, label: &str) -> (result: bool)
    ensures
        result == label_views(labels@).contains(label@),
{
    let ghost views = label_views(labels@);
    let mut i: usize = 0;
    while i < labels.len()
        invariant
            views == label_views(labels@),
            i <= labels@.len(),
            forall|j: int| 0 <= j < i ==> views[j] != label@,
        decreases labels.len() - i,
    {
        assert(views[i as int] == labels@[i as int]@);
        if is_text(labels[i].as_str(), label) {
            return true;
        }
        i = i + 1;
    }
    false
}

impl FlatGraph {
    /// Notes a new vertex.
    pub fn record_insert_vertex(&mut self, id: VertexId, label: &str, props: Vec<ScalarValue>)
        ensures
            final(self)@ == old(self)@,
            final(self).pending@ == (PendingView {
                inserted_vertices: old(self).pending@.inserted_vertices.push(
                    FlatVertexView { id, label: label@, props: props@ },
                ),
                ..old(self).pending@
            }),
    {
        self.pending.inserted_vertices.push(FlatVertex { id, label: label.to_owned(), props });
        assert(self.pending@.inserted_vertices =~= old(self).pending@.inserted_vertices.push(
            FlatVertexView { id, label: label@, props: props@ },
        ));
    }

    /// Notes a new edge.
    pub fn record_insert_edge(
        &mut self,
        id: EdgeId,
        src: VertexId,
        src_label: &str,
        dst: VertexId,
        dst_label: &str,
        label: &str,
        props: Vec<ScalarValue>,
    )
        ensures
            final(self)@ == old(self)@,
            final(self).pending@ == (PendingView {
                inserted_edges: old(self).pending@.inserted_edges.push(
                    FlatEdgeView {
                        id,
                        src,
                        src_label: src_label@,
                        dst,
                        dst_label: dst_label@,
                        label: label@,
                        props: props@,
                    },
                ),
                ..old(self).pending@
            }),
    {
        let edge = FlatEdge {
            id,
            src,
            src_label: src_label.to_owned(),
            dst,
            dst_label: dst_label.to_owned(),
            label: label.to_owned(),
            props,
        };
        self.pending.inserted_edges.push(edge);
        assert(self.pending@.inserted_edges =~= old(self).pending@.inserted_edges.push(edge@));
    }

    /// Notes that an edge goes.
    pub fn record_delete_edge(&mut self, id: EdgeId)
        ensures
            final(self)@ == old(self)@,
            final(self).pending@ == (PendingView {
                deleted_edge_ids: old(self).pending@.deleted_edge_ids.push(id),
                ..old(self).pending@
            }),
    {
        self.pending.deleted_edge_ids.push(id);
    }

    /// Notes that a vertex goes.
    pub fn record_delete_vertex(&mut self, id: VertexId)
        ensures
            final(self)@ == old(self)@,
            final(self).pending@ == (PendingView {
                deleted_vertices: old(self).pending@.deleted_vertices.push(id),
                ..old(self).pending@
            }),
    {
        self.pending.deleted_vertices.push(id);
    }

    /// The labels of the vertices.
    pub fn all_labels(&self) -> (result: Vec<String>)
        ensures
            label_views(result@) == labels_of(self@.vertices),
    {
        let ghost vertices = self@.vertices;
        let mut labels: Vec<String> = Vec::new();
        let mut i: usize = 0;
        assert(label_views(labels@) =~= labels_of(vertices.take(0)));
        while i < self.vertices.len()
            invariant
                vertices == self@.vertices,
                vertices.len() == self.vertices@.len(),
                i <= vertices.len(),
                label_views(labels@) == labels_of(vertices.take(i as int)),
            decreases self.vertices.len() - i,
        {
            assert(vertices.take(i + 1).drop_last() =~= vertices.take(i as int));
            assert(vertices[i as int] == self.vertices@[i as int]@);
            if !has_label_already(&labels, self.vertices[i].label.as_str()) {
                let ghost before = labels@;
                labels.push(self.vertices[i].label.as_str().to_owned());
                assert(label_views(labels@) =~= label_views(before).push(
                    vertices[i as int].label,
                ));
            }
            i = i + 1;
        }
        assert(vertices.take(i as int) =~= vertices);
        labels
    }

    /// The ids of the edges.
    pub fn all_edge_ids(&self) -> (result: Vec<EdgeId>)
        ensures
            result@ == edge_ids_of(self@.edges),
    {
        let mut ids: Vec<EdgeId> = Vec::new();
        let mut i: usize = 0;
        while i < self.edges.len()
            invariant
                i <= self.edges@.len(),
                ids@ == edge_ids_of(self@.edges).take(i as int),
            decreases self.edges.len() - i,
        {
            ids.push(self.edges[i].id);
            assert(ids@ =~= edge_ids_of(self@.edges).take(i + 1));
            i = i + 1;
        }
        assert(edge_ids_of(self@.edges).take(i as int) =~= edge_ids_of(self@.edges));
        ids
    }

    /// The label of a vertex.
    pub fn vertex_label(&self, id: VertexId) -> (result: Option<&String>)
        ensures
            match result {
                Some(label) => label_of(self@.vertices, id) == Some(label@),
                None => label_of(self@.vertices, id) is None,
            },
    {
        let ghost vertices = self@.vertices;
        let mut i: usize = 0;
        while i < self.vertices.len()
            invariant
                vertices == self@.vertices,
                vertices.len() == self.vertices@.len(),
                i <= vertices.len(),
                label_of(vertices.take(i as int), id) is None,
            decreases self.vertices.len() - i,
        {
            assert(vertices.take(i + 1).drop_last() =~= vertices.take(i as int));
            assert(vertices[i as int] == self.vertices@[i as int]@);
            if self.vertices[i].id == id {
                proof {
                    lemma_label_stays(vertices, id, i + 1);
                }
                return Some(&self.vertices[i].label);
            }
            i = i + 1;
        }
        assert(vertices.take(i as int) =~= vertices);
        None
    }

    /// The edges at a vertex.
    pub fn incident_edges(&self, v: VertexId) -> (result: Vec<IncidentEdge>)
        ensures
            result@.map_values(|e: IncidentEdge| e@) == incident_to(self@.edges, v),
    {
        let ghost edges = self@.edges;
        let mut found: Vec<IncidentEdge> = Vec::new();
        let mut i: usize = 0;
        assert(found@.map_values(|e: IncidentEdge| e@) =~= incident_to(edges.take(0), v));
        while i < self.edges.len()
            invariant
                edges == self@.edges,
                edges.len() == self.edges@.len(),
                i <= edges.len(),
                found@.map_values(|e: IncidentEdge| e@) == incident_to(edges.take(i as int), v),
            decreases self.edges.len() - i,
        {
            assert(edges.take(i + 1).drop_last() =~= edges.take(i as int));
            assert(edges[i as int] == self.edges@[i as int]@);
            let e: &FlatEdge = &self.edges[i];
            if e.src == v {
                let ghost before = found@;
                let leaving = IncidentEdge {
                    edge: e.id,
                    neighbor: e.dst,
                    neighbor_label: e.dst_label.as_str().to_owned(),
                    label: e.label.as_str().to_owned(),
                };
                found.push(leaving);
                assert(found@.map_values(|e: IncidentEdge| e@) =~= before.map_values(
                    |e: IncidentEdge| e@,
                ).push(leaving@));
            }
            if e.dst == v {
                let ghost before = found@;
                let entering = IncidentEdge {
                    edge: e.id,
                    neighbor: e.src,
                    neighbor_label: e.src_label.as_str().to_owned(),
                    label: e.label.as_str().to_owned(),
                };
                found.push(entering);
                assert(found@.map_values(|e: IncidentEdge| e@) =~= before.map_values(
                    |e: IncidentEdge| e@,
                ).push(entering@));
            }
            i = i + 1;
        }
        assert(edges.take(i as int) =~= edges);
        found
    }

    /// The ways to go on from a vertex label.
    pub fn edge_extensions_for_label(&self, label: &str) -> (result: Vec<Extension>)
        ensures
            extension_views(result@) == extensions_from(self@.edge_types, label@),
    {
        let ghost types = self@.edge_types;
        let mut found: Vec<Extension> = Vec::new();
        let mut i: usize = 0;
        assert(extension_views(found@) =~= extensions_from(types.take(0), label@));
        while i < self.edge_types.len()
            invariant
                types == self@.edge_types,
                types.len() == self.edge_types@.len(),
                i <= types.len(),
                extension_views(found@) == extensions_from(types.take(i as int), label@),
            decreases self.edge_types.len() - i,
        {
            assert(types.take(i + 1).drop_last() =~= types.take(i as int));
            let kind: &(String, (String, String)) = &self.edge_types[i];
            assert(types[i as int] == (kind.0@, (kind.1.0@, kind.1.1@)));
            if is_text(kind.1.0.as_str(), label) {
                let ghost before = found@;
                let out = Extension {
                    edge_label: kind.0.as_str().to_owned(),
                    neighbor_label: kind.1.1.as_str().to_owned(),
                    outgoing: true,
                };
                found.push(out);
                assert(extension_views(found@) =~= extension_views(before).push(out@));
            }
            if is_text(kind.1.1.as_str(), label) {
                let ghost before = found@;
                let back = Extension {
                    edge_label: kind.0.as_str().to_owned(),
                    neighbor_label: kind.1.0.as_str().to_owned(),
                    outgoing: false,
                };
                found.push(back);
                assert(extension_views(found@) =~= extension_views(before).push(back@));
            }
            i = i + 1;
        }
        assert(types.take(i as int) =~= types);
        found
    }

    /// Makes the changes that were noted.
    pub fn apply_pending(&mut self)
        ensures
            final(self)@ == with_changes(old(self)@, old(self).pending@),
            final(self).pending@ == PendingView::nothing(),
    {
        let ghost start = *self;
        self.vertices.append(&mut self.pending.inserted_vertices);
        self.edges.append(&mut self.pending.inserted_edges);
        let ghost vertices = start@.vertices + start.pending@.inserted_vertices;
        let ghost edges = start@.edges + start.pending@.inserted_edges;
        let ghost gone = self.pending.deleted_vertices@;
        let ghost cut = self.pending.deleted_edge_ids@;
        assert(self@.vertices =~= vertices);
        assert(self@.edges =~= edges);
        let ghost mut n: int = 0;
        let mut i: usize = 0;
        assert(vertices_kept(vertices.take(0), gone) + vertices.skip(0) =~= vertices);
        while i < self.vertices.len()
            invariant
                gone == self.pending.deleted_vertices@,
                cut == self.pending.deleted_edge_ids@,
                self@.edges == edges,
                self@.vertex_schemas == start@.vertex_schemas,
                self@.edge_schemas == start@.edge_schemas,
                self@.edge_types == start@.edge_types,
                0 <= n <= vertices.len(),
                i == vertices_kept(vertices.take(n), gone).len(),
                self@.vertices == vertices_kept(vertices.take(n), gone) + vertices.skip(n),
            decreases self.vertices.len() - i,
        {
            let ghost before = self@.vertices;
            let ghost shorter = vertices.take(n);
            let ghost kept = vertices_kept(shorter, gone);
            proof {
                assert(self@.vertices.len() == self.vertices@.len());
                assert(vertices.take(n + 1).drop_last() =~= shorter);
                assert(before[i as int] == vertices.skip(n)[0]);
                assert(before[i as int] == self.vertices@[i as int]@);
            }
            if contains_id(&self.pending.deleted_vertices, self.vertices[i].id) {
                self.vertices.remove(i);
                assert(self@.vertices =~= before.remove(i as int));
                assert(self@.vertices =~= kept + vertices.skip(n + 1));
            } else {
                assert(self@.vertices =~= kept.push(vertices[n]) + vertices.skip(n + 1));
                i = i + 1;
            }
            proof {
                n = n + 1;
            }
        }
        proof {
            assert(self@.vertices.len() == self.vertices@.len());
            assert(vertices.skip(n).len() == 0);
            assert(vertices.take(n) =~= vertices);
            assert(self@.vertices =~= vertices_kept(vertices, gone));
        }
        let ghost mut m: int = 0;
        let mut j: usize = 0;
        assert(flat_edges_kept(edges.take(0), cut) + edges.skip(0) =~= edges);
        while j < self.edges.len()
            invariant
                cut == self.pending.deleted_edge_ids@,
                self@.vertices == vertices_kept(vertices, gone),
                self@.vertex_schemas == start@.vertex_schemas,
                self@.edge_schemas == start@.edge_schemas,
                self@.edge_types == start@.edge_types,
                0 <= m <= edges.len(),
                j == flat_edges_kept(edges.take(m), cut).len(),
                self@.edges == flat_edges_kept(edges.take(m), cut) + edges.skip(m),
            decreases self.edges.len() - j,
        {
            let ghost before = self@.edges;
            let ghost shorter = edges.take(m);
            let ghost kept = flat_edges_kept(shorter, cut);
            proof {
                assert(self@.edges.len() == self.edges@.len());
                assert(edges.take(m + 1).drop_last() =~= shorter);
                assert(before[j as int] == edges.skip(m)[0]);
                assert(before[j as int] == self.edges@[j as int]@);
            }
            if contains_id(&self.pending.deleted_edge_ids, self.edges[j].id) {
                self.edges.remove(j);
                assert(self@.edges =~= before.remove(j as int));
                assert(self@.edges =~= kept + edges.skip(m + 1));
            } else {
                assert(self@.edges =~= kept.push(edges[m]) + edges.skip(m + 1));
                j = j + 1;
            }
            proof {
                m = m + 1;
            }
        }
        proof {
            assert(self@.edges.len() == self.edges@.len());
            assert(edges.skip(m).len() == 0);
            assert(edges.take(m) =~= edges);
            assert(self@.edges =~= flat_edges_kept(edges, cut));
        }
        self.pending = PendingChanges::new();
        assert(self@ =~= with_changes(start@, start.pending@));
    }
}

proof fn lemma_label_stays(vertices: Seq<FlatVertexView>, id: VertexId, n: int)
    requires
        0 <= n <= vertices.len(),
        label_of(vertices.take(n), id) is Some,
    ensures
        label_of(vertices, id) == label_of(vertices.take(n), id),
    decreases vertices.len(),
{
    if n < vertices.len() {
        assert(vertices.drop_last().take(n) =~= vertices.take(n));
        lemma_label_stays(vertices.drop_last(), id, n);
    } else {
        assert(vertices.take(n) =~= vertices);
    }
}

/// The vertices of a changed data graph are those of the graph and the inserted ones, in this
/// order, without those whose ids are among the deleted ones.
pub proof fn changes_leave_other_vertices(data: FlatView, changes: PendingView) -> (at: Seq<int>)
    ensures
        ({
            let all = data.vertices + changes.inserted_vertices;
            &&& lists_places(
                at,
                all.len() as int,
                |p: int| !changes.deleted_vertices.contains(all[p].id),
            )
            &&& with_changes(data, changes).vertices == at.map_values(|p: int| all[p])
        }),
{
    lemma_vertices_left(data.vertices + changes.inserted_vertices, changes.deleted_vertices)
}

proof fn lemma_vertices_left(all: Seq<FlatVertexView>, deleted: Seq<VertexId>) -> (at: Seq<int>)
    ensures
        lists_places(at, all.len() as int, |p: int| !deleted.contains(all[p].id)),
        vertices_kept(all, deleted) == at.map_values(|p: int| all[p]),
    decreases all.len(),
{
    let wanted = |p: int| !deleted.contains(all[p].id);
    if all.len() == 0 {
        let at = Seq::<int>::empty();
        assert(at.map_values(|p: int| all[p]) =~= vertices_kept(all, deleted));
        at
    } else {
        let n = all.len() as int;
        let fewer = all.drop_last();
        let before = lemma_vertices_left(fewer, deleted);
        assert(lists_places(before, n - 1, wanted)) by {
            assert forall|p: int| 0 <= p < n - 1 && #[trigger] wanted(p) implies before.contains(
                p,
            ) by {
                assert((|q: int| !deleted.contains(fewer[q].id))(p));
            }
        }
        lemma_one_more_place(before, n, wanted);
        let at = if wanted(n - 1) {
            before.push(n - 1)
        } else {
            before
        };
        assert(before.map_values(|p: int| all[p]) =~= before.map_values(|p: int| fewer[p]));
        assert(at.map_values(|p: int| all[p]) =~= vertices_kept(all, deleted));
        at
    }
}

/// The edges of a changed data graph are those of the graph and the inserted ones, in this order,
/// without those whose ids are among the deleted ones. What properties the labels have stays.
pub proof fn changes_leave_other_edges(data: FlatView, changes: PendingView) -> (at: Seq<int>)
    ensures
        ({
            let all = data.edges + changes.inserted_edges;
            &&& lists_places(
                at,
                all.len() as int,
                |p: int| !changes.deleted_edge_ids.contains(all[p].id),
            )
            &&& with_changes(data, changes).edges == at.map_values(|p: int| all[p])
        }),
        with_changes(data, changes).vertex_schemas == data.vertex_schemas,
        with_changes(data, changes).edge_schemas == data.edge_schemas,
{
    lemma_edges_left(data.edges + changes.inserted_edges, changes.deleted_edge_ids)
}

proof fn lemma_edges_left(all: Seq<FlatEdgeView>, deleted: Seq<EdgeId>) -> (at: Seq<int>)
    ensures
        lists_places(at, all.len() as int, |p: int| !deleted.contains(all[p].id)),
        flat_edges_kept(all, deleted) == at.map_values(|p: int| all[p]),
    decreases all.len(),
{
    let wanted = |p: int| !deleted.contains(all[p].id);
    if all.len() == 0 {
        let at = Seq::<int>::empty();
        assert(at.map_values(|p: int| all[p]) =~= flat_edges_kept(all, deleted));
        at
    } else {
        let n = all.len() as int;
        let fewer = all.drop_last();
        let before = lemma_edges_left(fewer, deleted);
        assert(lists_places(before, n - 1, wanted)) by {
            assert forall|p: int| 0 <= p < n - 1 && #[trigger] wanted(p) implies before.contains(
                p,
            ) by {
                assert((|q: int| !deleted.contains(fewer[q].id))(p));
            }
        }
        lemma_one_more_place(before, n, wanted);
        let at = if wanted(n - 1) {
            before.push(n - 1)
        } else {
            before
        };
        assert(before.map_values(|p: int| all[p]) =~= before.map_values(|p: int| fewer[p]));
        assert(at.map_values(|p: int| all[p]) =~= flat_edges_kept(all, deleted));
        at
    }
}

/// Whether an edge joins a vertex to a neighbor: it leaves the vertex for it, or enters the vertex
/// from it.
pub open spec fn joins_to(e: FlatEdgeView, v: VertexId, i: IncidentView) -> bool {
    &&& i.edge == e.id && i.label == e.label
    &&& (e.src == v && i.neighbor == e.dst && i.neighbor_label == e.dst_label) || (e.dst == v
        && i.neighbor == e.src && i.neighbor_label == e.src_label)
}

/// What is incident to a vertex is each edge that leaves it and each edge that enters it, with
/// its other end. An edge from the vertex to itself is so twice.
pub proof fn incident_edges_are_at_the_vertex(edges: Seq<FlatEdgeView>, v: VertexId)
    ensures
        forall|i: IncidentView|
            #![trigger incident_to(edges, v).contains(i)]
            incident_to(edges, v).contains(i) <==> exists|p: int|
                0 <= p < edges.len() && joins_to(#[trigger] edges[p], v, i),
        incident_to(edges, v).len() == places(
            edges.len() as int,
            |p: int| edges[p].src == v,
        ).len() + places(edges.len() as int, |p: int| edges[p].dst == v).len(),
    decreases edges.len(),
{
    let leaves = |p: int| edges[p].src == v;
    let enters = |p: int| edges[p].dst == v;
    let all = incident_to(edges, v);
    if edges.len() == 0 {
        lemma_no_places(leaves);
        lemma_no_places(enters);
    } else {
        let n = edges.len() as int;
        let fewer = edges.drop_last();
        let e = edges.last();
        let before = incident_to(fewer, v);
        incident_edges_are_at_the_vertex(fewer, v);
        lemma_places_alike(n - 1, leaves, |p: int| fewer[p].src == v);
        lemma_places_alike(n - 1, enters, |p: int| fewer[p].dst == v);
        lemma_places_finite(n - 1, leaves);
        lemma_places_finite(n - 1, enters);
        lemma_places_step(n, leaves);
        lemma_places_step(n, enters);
        assert forall|i: IncidentView|
            #![trigger all.contains(i)]
            all.contains(i) <==> exists|p: int|
                0 <= p < edges.len() && joins_to(#[trigger] edges[p], v, i) by {
            assert(forall|k: int| 0 <= k < before.len() ==> all[k] == before[k]);
            if all.contains(i) {
                let k = choose|k: int| 0 <= k < all.len() && all[k] == i;
                if k < before.len() {
                    assert(before.contains(i));
                    let p = choose|p: int|
                        0 <= p < fewer.len() && joins_to(#[trigger] fewer[p], v, i);
                    assert(joins_to(edges[p], v, i));
                } else {
                    assert(joins_to(edges[n - 1], v, i));
                }
            }
            if exists|p: int| 0 <= p < edges.len() && joins_to(#[trigger] edges[p], v, i) {
                let p = choose|p: int| 0 <= p < edges.len() && joins_to(#[trigger] edges[p], v, i);
                if p < n - 1 {
                    assert(joins_to(fewer[p], v, i));
                    assert(before.contains(i));
                    let k = choose|k: int| 0 <= k < before.len() && before[k] == i;
                    assert(all[k] == i);
                } else if e.src == v && i.neighbor == e.dst && i.neighbor_label == e.dst_label {
                    assert(all[before.len() as int] == i);
                } else {
                    assert(all.last() == i);
                    assert(all[all.len() - 1] == i);
                }
            }
        }
    }
}

/// The label of an id is that of the first vertex with it; there is none exactly where there is
/// no such vertex.
pub proof fn labels_are_those_of_first_vertices(vertices: Seq<FlatVertexView>, id: VertexId)
    ensures
        match label_of(vertices, id) {
            Some(label) => exists|p: int| #[trigger]
                is_first_with_id(vertices, id, p) && vertices[p].label == label,
            None => forall|p: int|
                #![trigger vertices[p]]
                0 <= p < vertices.len() ==> vertices[p].id != id,
        },
    decreases vertices.len(),
{
    if vertices.len() > 0 {
        let n = vertices.len() as int;
        let fewer = vertices.drop_last();
        labels_are_those_of_first_vertices(fewer, id);
        match label_of(fewer, id) {
            Some(label) => {
                let p = choose|p: int| #[trigger]
                    is_first_with_id(fewer, id, p) && fewer[p].label == label;
                assert forall|j: int| #![trigger vertices[j]] 0 <= j < p implies vertices[j].id
                    != id by {
                    assert(fewer[j] == vertices[j]);
                }
                assert(is_first_with_id(vertices, id, p));
            },
            None => {
                assert forall|j: int| #![trigger vertices[j]] 0 <= j < n - 1 implies vertices[j].id
                    != id by {
                    assert(fewer[j] == vertices[j]);
                }
                if vertices.last().id == id {
                    assert(is_first_with_id(vertices, id, n - 1));
                }
            },
        }
    }
}

/// Whether the vertex at a place is the first with an id.
pub open spec fn is_first_with_id(vertices: Seq<FlatVertexView>, id: VertexId, place: int) -> bool {
    &&& 0 <= place < vertices.len()
    &&& vertices[place].id == id
    &&& forall|j: int| #![trigger vertices[j]] 0 <= j < place ==> vertices[j].id != id
}

/// The labels of vertices are those that a vertex has, none of them twice.
pub proof fn labels_are_listed_once(vertices: Seq<FlatVertexView>)
    ensures
        labels_of(vertices).no_duplicates(),
        forall|label: Seq<char>|
            #![trigger labels_of(vertices).contains(label)]
            labels_of(vertices).contains(label) <==> exists|p: int|
                0 <= p < vertices.len() && (#[trigger] vertices[p]).label == label,
    decreases vertices.len(),
{
    if vertices.len() > 0 {
        let fewer = vertices.drop_last();
        let before = labels_of(fewer);
        let all = labels_of(vertices);
        labels_are_listed_once(fewer);
        assert forall|label: Seq<char>|
            #![trigger all.contains(label)]
            all.contains(label) <==> exists|p: int|
                0 <= p < vertices.len() && (#[trigger] vertices[p]).label == label by {
            if all.contains(label) {
                if before.contains(label) {
                    let p = choose|p: int|
                        0 <= p < fewer.len() && (#[trigger] fewer[p]).label == label;
                    assert(vertices[p].label == label);
                } else {
                    assert(vertices[vertices.len() - 1].label == label);
                }
            }
            if exists|p: int| 0 <= p < vertices.len() && (#[trigger] vertices[p]).label == label {
                let p = choose|p: int|
                    0 <= p < vertices.len() && (#[trigger] vertices[p]).label == label;
                if p < fewer.len() {
                    assert(fewer[p].label == label);
                    assert(before.contains(label));
                    let k = choose|k: int| 0 <= k < before.len() && before[k] == label;
                    assert(all[k] == label);
                } else if !before.contains(label) {
                    assert(all.last() == label);
                    assert(all[all.len() - 1] == label);
                }
            }
        }
    }
}

/// The ways to go on from a label are along the edge types that start at it, to where they end,
/// and against those that end at it, to where they start.
pub proof fn extensions_are_types_at_the_label(
    types: Seq<(Seq<char>, (Seq<char>, Seq<char>))>,
    label: Seq<char>,
)
    ensures
        forall|x: ExtensionView|
            #![trigger extensions_from(types, label).contains(x)]
            extensions_from(types, label).contains(x) <==> exists|i: int|
                0 <= i < types.len() && #[trigger] types[i] == (
                    x.edge_label,
                    if x.outgoing {
                        (label, x.neighbor_label)
                    } else {
                        (x.neighbor_label, label)
                    },
                ),
    decreases types.len(),
{
    if types.len() > 0 {
        let n = types.len() as int;
        let fewer = types.drop_last();
        let before = extensions_from(fewer, label);
        let all = extensions_from(types, label);
        extensions_are_types_at_the_label(fewer, label);
        assert forall|x: ExtensionView|
            #![trigger all.contains(x)]
            all.contains(x) <==> exists|i: int|
                0 <= i < types.len() && #[trigger] types[i] == (
                    x.edge_label,
                    if x.outgoing {
                        (label, x.neighbor_label)
                    } else {
                        (x.neighbor_label, label)
                    },
                ) by {
            let asked = (
                x.edge_label,
                if x.outgoing {
                    (label, x.neighbor_label)
                } else {
                    (x.neighbor_label, label)
                },
            );
            assert(forall|k: int| 0 <= k < before.len() ==> all[k] == before[k]);
            if all.contains(x) {
                let k = choose|k: int| 0 <= k < all.len() && all[k] == x;
                if k < before.len() {
                    assert(before.contains(x));
                    let i = choose|i: int| 0 <= i < fewer.len() && #[trigger] fewer[i] == asked;
                    assert(types[i] == asked);
                } else {
                    assert(types[n - 1] == asked);
                }
            }
            if exists|i: int| 0 <= i < types.len() && #[trigger] types[i] == asked {
                let i = choose|i: int| 0 <= i < types.len() && #[trigger] types[i] == asked;
                if i < n - 1 {
                    assert(fewer[i] == asked);
                    assert(before.contains(x));
                    let k = choose|k: int| 0 <= k < before.len() && before[k] == x;
                    assert(all[k] == x);
                } else if x.outgoing {
                    assert(all[before.len() as int] == x);
                } else {
                    assert(all[all.len() - 1] == x);
                }
            }
        }
    }
}

} // verus!
