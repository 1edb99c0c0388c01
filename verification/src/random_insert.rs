//! Insertion of random vertices and edges.
use crate::catch_up::{is_caught_up, world_for};
use crate::chance::{index_below, seeded};
use crate::compaction::{compaction_overflows, leaves_of};
use crate::flat::{
    labelled_ids, schema_of, schema_views, FlatEdgeView, FlatGraph, FlatVertexView, FlatView, PendingView,
};
use crate::pending::{edge_ids_of, labels_of, with_changes};
use crate::query::{EdgeId, VertexId};
use crate::statistic::{find_largest, largest, PathKey, Statistic};
use crate::text::{is_text, label_views};
use crate::update_log::{edge_change, heads, with_edge_heads, GCardUpdateLog, Head};
use crate::value::ScalarValue;
use rand::rngs::StdRng;
use vstd::prelude::*;
use vstd::string::*;

verus! {

/// So many vertices or edges can be inserted at once.
pub const MAX_INSERTIONS: u64 = 0x1fff_ffff_ffff_ffff;

/// A vertex to insert.
#[derive(Debug)]
pub struct NewVertex {
    pub id: VertexId,
    pub label: String,
}

/// An edge to insert.
#[derive(Debug)]
pub struct NewEdge {
    pub id: EdgeId,
    pub src: VertexId,
    pub src_label: String,
    pub dst: VertexId,
    pub dst_label: String,
    pub label: String,
}

/// What to insert.
#[derive(Debug)]
pub struct InsertPlan {
    pub vertices: Vec<NewVertex>,
    pub edges: Vec<NewEdge>,
}

/// Why nothing is inserted.
#[derive(Debug)]
pub enum InsertError {
    /// No vertex has the label.
    UnknownVertexLabel(String),
    /// No edge type has the label.
    UnknownEdgeLabel(String),
    /// There are not so many ids, or too many insertions.
    TooMany,
    /// A change of a degree does not fit.
    Overflow,
}

/// An edge type: its label and those of its ends.
pub type EdgeType = (String, (String, String));

/// What an edge type says.
pub type EdgeTypeView = (Seq<char>, (Seq<char>, Seq<char>));

/// The first edge type with a label.
pub open spec fn type_of(types: Seq<EdgeTypeView>, label: Seq<char>) -> Option<EdgeTypeView>
    decreases types.len(),
{
    if types.len() == 0 {
        None
    } else {
        match type_of(types.drop_last(), label) {
            Some(found) => Some(found),
            None => if types.last().0 == label {
                Some(types.last())
            } else {
                None
            },
        }
    }
}

/// What edge types say.
pub open spec fn type_views(types: Seq<EdgeType>) -> Seq<EdgeTypeView> {
    types.map_values(|t: EdgeType| (t.0@, (t.1.0@, t.1.1@)))
}

/// What is to be inserted: which vertex labels, and which edge types.
pub enum Targets {
    Unknown { vertex: bool },
    Known { labels: Seq<Seq<char>>, types: Seq<EdgeTypeView> },
}

/// The text of an optional label.
pub open spec fn label_view_of(label: Option<&str>) -> Option<Seq<char>> {
    match label {
        Some(text) => Some(text@),
        None => None,
    }
}

/// Which vertex labels and edge types are meant. With an edge label alone no vertices are
/// inserted.
pub open spec fn targets(
    data: FlatView,
    vertex_label: Option<Seq<char>>,
    edge_label: Option<Seq<char>>,
) -> Targets {
    if vertex_label matches Some(label) && data.labelled(label).len() == 0 {
        Targets::Unknown { vertex: true }
    } else if edge_label matches Some(label) && type_of(data.edge_types, label) is None {
        Targets::Unknown { vertex: false }
    } else {
        Targets::Known {
            labels: match (vertex_label, edge_label) {
                (Some(label), _) => seq![label],
                (None, Some(_)) => Seq::empty(),
                (None, None) => labels_of(data.vertices),
            },
            types: match edge_label {
                Some(label) => seq![type_of(data.edge_types, label)->0],
                None => data.edge_types,
            },
        }
    }
}

fn copy_type(kind: &EdgeType) -> (result: EdgeType)
    ensures
        (result.0@, (result.1.0@, result.1.1@)) == (kind.0@, (kind.1.0@, kind.1.1@)),
{
    (
        kind.0.as_str().to_owned(),
        (kind.1.0.as_str().to_owned(), kind.1.1.as_str().to_owned()),
    )
}

fn find_type(types: &Vec<EdgeType>, label: &str) -> (result: Option<EdgeType>)
    ensures
        match result {
            Some(kind) => type_of(type_views(types@), label@) == Some(
                (kind.0@, (kind.1.0@, kind.1.1@)),
            ),
            None => type_of(type_views(types@), label@) is None,
        },
{
    let ghost views = type_views(types@);
    let mut i: usize = 0;
    while i < types.len()
        invariant
            views == type_views(types@),
            views.len() == types@.len(),
            i <= types@.len(),
            type_of(views.take(i as int), label@) is None,
        decreases types.len() - i,
    {
        assert(views.take(i + 1).drop_last() =~= views.take(i as int));
        if is_text(types[i].0.as_str(), label) {
            proof {
                lemma_type_stays(views, label@, i + 1);
            }
            return Some(copy_type(&types[i]));
        }
        i = i + 1;
    }
    assert(views.take(i as int) =~= views);
    None
}

proof fn lemma_type_stays(types: Seq<EdgeTypeView>, label: Seq<char>, n: int)
    requires
        0 <= n <= types.len(),
        type_of(types.take(n), label) is Some,
    ensures
        type_of(types, label) == type_of(types.take(n), label),
    decreases types.len(),
{
    if n < types.len() {
        assert(types.drop_last().take(n) =~= types.take(n));
        lemma_type_stays(types.drop_last(), label, n);
    } else {
        assert(types.take(n) =~= types);
    }
}

fn copy_types(types: &Vec<EdgeType>) -> (result: Vec<EdgeType>)
    ensures
        type_views(result@) == type_views(types@),
{
    let mut result: Vec<EdgeType> = Vec::new();
    let mut i: usize = 0;
    while i < types.len()
        invariant
            i <= types@.len(),
            result@.len() == i,
            forall|j: int|
                #![trigger type_views(result@)[j]]
                0 <= j < i ==> type_views(result@)[j] == type_views(types@)[j],
        decreases types.len() - i,
    {
        let ghost before = result@;
        let kind: EdgeType = copy_type(&types[i]);
        result.push(kind);
        proof {
            assert forall|j: int|
                #![trigger type_views(result@)[j]]
                0 <= j < i + 1 implies type_views(result@)[j] == type_views(types@)[j] by {
                if j < i {
                    assert(type_views(before)[j] == type_views(types@)[j]);
                }
            }
        }
        i = i + 1;
    }
    assert(type_views(result@) =~= type_views(types@));
    result
}

/// Which vertex labels and edge types are meant.
pub fn choose_targets(
    flat_graph: &FlatGraph,
    vertex_label: Option<&str>,
    edge_label: Option<&str>,
) -> (result: Result<(Vec<String>, Vec<EdgeType>), InsertError>)
    ensures
        match targets(flat_graph@, label_view_of(vertex_label), label_view_of(edge_label)) {
            Targets::Unknown { vertex: true } => result matches Err(
                InsertError::UnknownVertexLabel(label),
            ) && Some(label@) == label_view_of(vertex_label),
            Targets::Unknown { vertex: false } => result matches Err(
                InsertError::UnknownEdgeLabel(label),
            ) && Some(label@) == label_view_of(edge_label),
            Targets::Known { labels, types } => result matches Ok(found) && label_views(found.0@)
                == labels && type_views(found.1@) == types,
        },
{
    assert(flat_graph@.edge_types =~= type_views(flat_graph.edge_types@));
    let labels: Vec<String> = match vertex_label {
        Some(label) => {
            if flat_graph.vertex_count_by_label(label) == 0 {
                return Err(InsertError::UnknownVertexLabel(label.to_owned()));
            }
            let mut labels: Vec<String> = Vec::new();
            labels.push(label.to_owned());
            assert(label_views(labels@) =~= seq![label@]);
            labels
        },
        None => match edge_label {
            Some(_) => {
                let labels: Vec<String> = Vec::new();
                assert(label_views(labels@) =~= Seq::empty());
                labels
            },
            None => flat_graph.all_labels(),
        },
    };
    let types: Vec<EdgeType> = match edge_label {
        Some(label) => match find_type(&flat_graph.edge_types, label) {
            Some(kind) => {
                let ghost view = (kind.0@, (kind.1.0@, kind.1.1@));
                let mut types: Vec<EdgeType> = Vec::new();
                types.push(kind);
                assert(type_views(types@) =~= seq![view]);
                types
            },
            None => {
                return Err(InsertError::UnknownEdgeLabel(label.to_owned()));
            },
        },
        None => copy_types(&flat_graph.edge_types),
    };
    Ok((labels, types))
}

/// The sum of the first `n` numbers.
pub open spec fn sum_of(counts: Seq<usize>, n: int) -> int
    decreases n,
{
    if n <= 0 {
        0
    } else {
        sum_of(counts, n - 1) + counts[n - 1]
    }
}

proof fn lemma_sum_grows(counts: Seq<usize>, n: int, m: int)
    requires
        0 <= n <= m,
    ensures
        sum_of(counts, n) <= sum_of(counts, m),
    decreases m,
{
    if n < m {
        lemma_sum_grows(counts, n, m - 1);
    }
}

proof fn lemma_sum_same(a: Seq<usize>, b: Seq<usize>, n: int)
    requires
        n <= a.len(),
        n <= b.len(),
        forall|i: int| 0 <= i < n ==> a[i] == b[i],
    ensures
        sum_of(a, n) == sum_of(b, n),
    decreases n,
{
    if n > 0 {
        lemma_sum_same(a, b, n - 1);
    }
}

/// The first id that is larger than all others.
pub open spec fn next_id(ids: Seq<u64>) -> int {
    if ids.len() == 0 {
        1
    } else {
        largest(ids) + 1
    }
}

/// Whether there are not so many ids, or too many insertions.
pub open spec fn is_too_many(first: int, count: int) -> bool {
    first + count > u64::MAX || count > MAX_INSERTIONS
}

fn find_next_id(ids: &Vec<u64>) -> (result: Option<u64>)
    ensures
        match result {
            Some(id) => id == next_id(ids@),
            None => is_too_many(next_id(ids@), 0),
        },
{
    if ids.len() == 0 {
        return Some(1);
    }
    let last: u64 = find_largest(ids);
    if last == 0xffff_ffff_ffff_ffffu64 {
        None
    } else {
        Some(last + 1)
    }
}

/// The ids of the vertices.
pub open spec fn vertex_ids_of(vertices: Seq<FlatVertexView>) -> Seq<VertexId> {
    vertices.map_values(|v: FlatVertexView| v.id)
}

fn all_vertex_ids(flat_graph: &FlatGraph) -> (result: Vec<VertexId>)
    ensures
        result@ == vertex_ids_of(flat_graph@.vertices),
{
    let mut ids: Vec<VertexId> = Vec::new();
    let mut i: usize = 0;
    while i < flat_graph.vertices.len()
        invariant
            i <= flat_graph.vertices@.len(),
            ids@ == vertex_ids_of(flat_graph@.vertices).take(i as int),
        decreases flat_graph.vertices.len() - i,
    {
        ids.push(flat_graph.vertices[i].id);
        assert(ids@ =~= vertex_ids_of(flat_graph@.vertices).take(i + 1));
        i = i + 1;
    }
    assert(vertex_ids_of(flat_graph@.vertices).take(i as int) =~= vertex_ids_of(
        flat_graph@.vertices,
    ));
    ids
}

/// The label of the vertex at a place, where so many vertices are inserted for each label.
pub open spec fn label_at(labels: Seq<Seq<char>>, counts: Seq<usize>, n: int, place: int) -> Seq<char>
    decreases n,
{
    if n <= 0 {
        Seq::empty()
    } else if place >= sum_of(counts, n - 1) {
        labels[n - 1]
    } else {
        label_at(labels, counts, n - 1, place)
    }
}

/// Whether so many vertices are inserted for the first `n` labels as another function says of how
/// many there are.
pub open spec fn are_vertex_counts<F: Fn(usize) -> usize>(
    data: FlatView,
    labels: Seq<Seq<char>>,
    share: F,
    counts: Seq<usize>,
    n: int,
) -> bool {
    &&& counts.len() >= n
    &&& forall|i: int|
        #![trigger counts[i]]
        0 <= i < n ==> share.ensures((data.labelled(labels[i]).len() as usize,), counts[i])
}

/// Whether vertices are those to insert for the first `n` labels: so many for each of them, with
/// ids one after the other.
pub open spec fn is_vertex_plan(
    labels: Seq<Seq<char>>,
    counts: Seq<usize>,
    n: int,
    first: int,
    vertices: Seq<NewVertex>,
) -> bool {
    &&& vertices.len() == sum_of(counts, n)
    &&& forall|k: int|
        #![trigger vertices[k]]
        0 <= k < vertices.len() ==> vertices[k].id == first + k && vertices[k].label@ == label_at(
            labels,
            counts,
            n,
            k,
        )
}

/// The vertices to insert.
pub fn plan_vertices<F: Fn(usize) -> usize>(
    flat_graph: &FlatGraph,
    labels: &Vec<String>,
    share: &F,
) -> (result: Result<Vec<NewVertex>, InsertError>)
    requires
        forall|n: usize| #[trigger] share.requires((n,)),
    ensures
        ({
            let data = flat_graph@;
            let names = label_views(labels@);
            let first = next_id(vertex_ids_of(data.vertices));
            match result {
                Ok(vertices) => exists|counts: Seq<usize>| #[trigger]
                    are_vertex_counts(data, names, *share, counts, names.len() as int)
                        && is_vertex_plan(names, counts, names.len() as int, first, vertices@)
                        && !is_too_many(first, vertices@.len() as int),
                Err(error) => error is TooMany && exists|counts: Seq<usize>, n: int| #[trigger]
                    are_vertex_counts(data, names, *share, counts, n) && 0 <= n <= names.len()
                        && is_too_many(first, sum_of(counts, n)),
            }
        }),
{
    let ghost data = flat_graph@;
    let ghost names = label_views(labels@);
    let ids: Vec<VertexId> = all_vertex_ids(flat_graph);
    let ghost first = next_id(vertex_ids_of(data.vertices));
    let mut vertices: Vec<NewVertex> = Vec::new();
    let ghost mut counts: Seq<usize> = Seq::empty();
    let mut next: u64 = match find_next_id(&ids) {
        Some(id) => id,
        None => {
            assert(are_vertex_counts(data, names, *share, counts, 0));
            return Err(InsertError::TooMany);
        },
    };
    let mut i: usize = 0;
    while i < labels.len()
        invariant
            data == flat_graph@,
            names == label_views(labels@),
            names.len() == labels@.len(),
            forall|n: usize| #[trigger] share.requires((n,)),
            first == next_id(vertex_ids_of(data.vertices)),
            i <= labels@.len(),
            counts.len() == i,
            are_vertex_counts(data, names, *share, counts, i as int),
            is_vertex_plan(names, counts, i as int, first, vertices@),
            next == first + vertices@.len(),
            !is_too_many(first, vertices@.len() as int),
        decreases labels.len() - i,
    {
        let label: &String = &labels[i];
        assert(names[i as int] == label@);
        let current: usize = flat_graph.vertex_count_by_label(label.as_str());
        let count: usize = share(current);
        let ghost before = vertices@;
        let ghost before_counts = counts;
        proof {
            counts = counts.push(count);
            lemma_sum_same(before_counts, counts, i as int);
            assert(are_vertex_counts(data, names, *share, counts, i + 1)) by {
                assert forall|j: int|
                    #![trigger counts[j]]
                    0 <= j < i + 1 implies share.ensures(
                    (data.labelled(names[j]).len() as usize,),
                    counts[j],
                ) by {
                    if j < i {
                        assert(counts[j] == before_counts[j]);
                    }
                }
            }
            assert forall|k: int|
                #![trigger before[k]]
                0 <= k < before.len() implies label_at(names, counts, i + 1, k) == before[k].label@ by {
                lemma_label_at_same(names, before_counts, counts, i as int, k);
            }
        }
        let mut k: usize = 0;
        while k < count
            invariant
                names == label_views(labels@),
                i < labels@.len(),
                label@ == names[i as int],
                k <= count,
                counts.len() == i + 1,
                counts[i as int] == count,
                are_vertex_counts(data, names, *share, counts, i + 1),
                before.len() == sum_of(counts, i as int),
                names.len() == labels@.len(),
                vertices@.len() == before.len() + k,
                forall|j: int|
                    #![trigger vertices@[j]]
                    0 <= j < vertices@.len() ==> vertices@[j].id == first + j
                        && vertices@[j].label@ == label_at(names, counts, i + 1, j),
                next == first + vertices@.len(),
                !is_too_many(first, vertices@.len() as int),
                first == next_id(vertex_ids_of(data.vertices)),
                data == flat_graph@,
            decreases count - k,
        {
            if next == 0xffff_ffff_ffff_ffffu64 || vertices.len() as u64 == MAX_INSERTIONS {
                assert(is_too_many(first, sum_of(counts, i + 1)));
                return Err(InsertError::TooMany);
            }
            vertices.push(NewVertex { id: next, label: label.as_str().to_owned() });
            next = next + 1;
            k = k + 1;
        }
        i = i + 1;
    }
    Ok(vertices)
}

proof fn lemma_label_at_same(
    labels: Seq<Seq<char>>,
    a: Seq<usize>,
    b: Seq<usize>,
    n: int,
    place: int,
)
    requires
        0 <= n <= a.len(),
        n < b.len(),
        forall|i: int| 0 <= i < n ==> a[i] == b[i],
        0 <= place < sum_of(a, n),
    ensures
        label_at(labels, b, n + 1, place) == label_at(labels, a, n, place),
{
    lemma_sum_same(a, b, n);
    lemma_label_at_prefix(labels, a, b, n, place);
}

proof fn lemma_label_at_prefix(
    labels: Seq<Seq<char>>,
    a: Seq<usize>,
    b: Seq<usize>,
    n: int,
    place: int,
)
    requires
        0 <= n <= a.len(),
        n <= b.len(),
        forall|i: int| 0 <= i < n ==> a[i] == b[i],
    ensures
        label_at(labels, b, n, place) == label_at(labels, a, n, place),
    decreases n,
{
    if n > 0 {
        lemma_sum_same(a, b, n - 1);
        lemma_label_at_prefix(labels, a, b, n - 1, place);
    }
}

/// The ids of the vertices with a label among those to insert.
pub open spec fn planned_ids(vertices: Seq<NewVertex>, label: Seq<char>) -> Seq<VertexId>
    decreases vertices.len(),
{
    if vertices.len() == 0 {
        Seq::empty()
    } else {
        let before = planned_ids(vertices.drop_last(), label);
        if vertices.last().label@ == label {
            before.push(vertices.last().id)
        } else {
            before
        }
    }
}

/// The ends that a new edge may have: the vertices with a label, those that come already, and
/// those to insert. A label that no vertex has offers none.
pub open spec fn ends_for(
    data: FlatView,
    pending: PendingView,
    vertices: Seq<NewVertex>,
    label: Seq<char>,
) -> Seq<VertexId> {
    if data.labelled(label).len() == 0 {
        Seq::empty()
    } else {
        data.labelled(label) + labelled_ids(pending.inserted_vertices, label) + planned_ids(
            vertices,
            label,
        )
    }
}

fn collect_ends(flat_graph: &FlatGraph, vertices: &Vec<NewVertex>, label: &str) -> (result: Vec<
    VertexId,
>)
    ensures
        result@ == ends_for(flat_graph@, flat_graph.pending@, vertices@, label@),
{
    let mut ids: Vec<VertexId> = flat_graph.all_vertex_ids_by_label(label);
    if ids.len() == 0 {
        assert(ids@ =~= Seq::empty());
        return ids;
    }
    let ghost base = ids@;
    let ghost coming = flat_graph.pending@.inserted_vertices;
    let mut i: usize = 0;
    assert(base + labelled_ids(coming.take(0), label@) =~= base);
    while i < flat_graph.pending.inserted_vertices.len()
        invariant
            coming == flat_graph.pending@.inserted_vertices,
            coming.len() == flat_graph.pending.inserted_vertices@.len(),
            i <= coming.len(),
            ids@ == base + labelled_ids(coming.take(i as int), label@),
        decreases flat_graph.pending.inserted_vertices.len() - i,
    {
        assert(coming.take(i + 1).drop_last() =~= coming.take(i as int));
        assert(coming[i as int] == flat_graph.pending.inserted_vertices@[i as int]@);
        let ghost before = labelled_ids(coming.take(i as int), label@);
        if is_text(flat_graph.pending.inserted_vertices[i].label.as_str(), label) {
            ids.push(flat_graph.pending.inserted_vertices[i].id);
            assert(ids@ =~= base + before.push(coming[i as int].id));
        }
        i = i + 1;
    }
    assert(coming.take(i as int) =~= coming);
    let ghost both = base + labelled_ids(coming, label@);
    let mut j: usize = 0;
    assert(both + planned_ids(vertices@.take(0), label@) =~= both);
    while j < vertices.len()
        invariant
            j <= vertices@.len(),
            ids@ == both + planned_ids(vertices@.take(j as int), label@),
        decreases vertices.len() - j,
    {
        assert(vertices@.take(j + 1).drop_last() =~= vertices@.take(j as int));
        let ghost before = planned_ids(vertices@.take(j as int), label@);
        if is_text(vertices[j].label.as_str(), label) {
            ids.push(vertices[j].id);
            assert(ids@ =~= both + before.push(vertices@[j as int].id));
        }
        j = j + 1;
    }
    assert(vertices@.take(j as int) =~= vertices@);
    ids
}

/// Whether edges of a type can be inserted: there are ends for them.
pub open spec fn is_usable(
    data: FlatView,
    pending: PendingView,
    vertices: Seq<NewVertex>,
    kind: EdgeTypeView,
) -> bool {
    ends_for(data, pending, vertices, kind.1.0).len() > 0 && ends_for(
        data,
        pending,
        vertices,
        kind.1.1,
    ).len() > 0
}

/// Whether so many edges are inserted for the first `n` types as another function says of how
/// many there are.
pub open spec fn are_edge_counts<F: Fn(usize) -> usize>(
    data: FlatView,
    pending: PendingView,
    vertices: Seq<NewVertex>,
    types: Seq<EdgeTypeView>,
    share: F,
    counts: Seq<usize>,
    n: int,
) -> bool {
    &&& counts.len() >= n
    &&& forall|i: int|
        #![trigger counts[i]]
        0 <= i < n ==> if is_usable(data, pending, vertices, types[i]) {
            share.ensures((data.edges_labelled(types[i].0).len() as usize,), counts[i])
        } else {
            counts[i] == 0
        }
}

/// Whether an edge is of a type, between ends that it may have.
pub open spec fn is_edge_of(
    data: FlatView,
    pending: PendingView,
    vertices: Seq<NewVertex>,
    kind: EdgeTypeView,
    edge: NewEdge,
) -> bool {
    &&& edge.label@ == kind.0
    &&& edge.src_label@ == kind.1.0
    &&& edge.dst_label@ == kind.1.1
    &&& ends_for(data, pending, vertices, kind.1.0).contains(edge.src)
    &&& ends_for(data, pending, vertices, kind.1.1).contains(edge.dst)
}

/// Whether edges are those to insert for the first `n` types: so many for each of them, with ids
/// one after the other.
pub open spec fn is_edge_plan(
    data: FlatView,
    pending: PendingView,
    vertices: Seq<NewVertex>,
    types: Seq<EdgeTypeView>,
    counts: Seq<usize>,
    n: int,
    first: int,
    edges: Seq<NewEdge>,
) -> bool {
    &&& edges.len() == sum_of(counts, n)
    &&& forall|k: int|
        #![trigger edges[k]]
        0 <= k < edges.len() ==> edges[k].id == first + k
    &&& forall|i: int, j: int|
        #![trigger edges[sum_of(counts, i) + j]]
        0 <= i < n && 0 <= j < counts[i] ==> is_edge_of(
            data,
            pending,
            vertices,
            types[i],
            edges[sum_of(counts, i) + j],
        )
}

/// Draws edges of a type until there are so many.
fn draw_edges(
    kind: &EdgeType,
    sources: &Vec<VertexId>,
    targets: &Vec<VertexId>,
    count: usize,
    first: u64,
    edges: &mut Vec<NewEdge>,
    rng: &mut StdRng,
) -> (result: bool)
    requires
        sources@.len() > 0,
        targets@.len() > 0,
        !is_too_many(first as int, old(edges)@.len() as int),
    ensures
        old(edges)@.len() <= final(edges)@.len(),
        forall|k: int|
            #![trigger final(edges)@[k]]
            0 <= k < old(edges)@.len() ==> final(edges)@[k] == old(edges)@[k],
        forall|k: int|
            #![trigger final(edges)@[k]]
            old(edges)@.len() <= k < final(edges)@.len() ==> {
                let e = final(edges)@[k];
                &&& e.id == first + k
                &&& e.label@ == kind.0@
                &&& e.src_label@ == kind.1.0@
                &&& e.dst_label@ == kind.1.1@
                &&& sources@.contains(e.src)
                &&& targets@.contains(e.dst)
            },
        if result {
            final(edges)@.len() == old(edges)@.len() + count && !is_too_many(
                first as int,
                final(edges)@.len() as int,
            )
        } else {
            is_too_many(first as int, old(edges)@.len() + count)
        },
{
    let ghost begun = edges@;
    let mut k: usize = 0;
    while k < count
        invariant
            sources@.len() > 0,
            targets@.len() > 0,
            k <= count,
            edges@.len() == begun.len() + k,
            !is_too_many(first as int, edges@.len() as int),
            forall|j: int|
                #![trigger edges@[j]]
                0 <= j < begun.len() ==> edges@[j] == begun[j],
            forall|j: int|
                #![trigger edges@[j]]
                begun.len() <= j < edges@.len() ==> {
                    let e = edges@[j];
                    &&& e.id == first + j
                    &&& e.label@ == kind.0@
                    &&& e.src_label@ == kind.1.0@
                    &&& e.dst_label@ == kind.1.1@
                    &&& sources@.contains(e.src)
                    &&& targets@.contains(e.dst)
                },
            begun == old(edges)@,
        decreases count - k,
    {
        if edges.len() as u64 == MAX_INSERTIONS || 0xffff_ffff_ffff_ffffu64 - first
            <= edges.len() as u64 {
            return false;
        }
        let a: usize = index_below(rng, sources.len());
        let b: usize = index_below(rng, targets.len());
        let src: VertexId = sources[a];
        let dst: VertexId = targets[b];
        assert(sources@.contains(src));
        assert(targets@.contains(dst));
        let id: u64 = first + edges.len() as u64;
        edges.push(
            NewEdge {
                id,
                src,
                src_label: kind.1.0.as_str().to_owned(),
                dst,
                dst_label: kind.1.1.as_str().to_owned(),
                label: kind.0.as_str().to_owned(),
            },
        );
        k = k + 1;
    }
    true
}

/// The edges to insert.
pub fn plan_edges<F: Fn(usize) -> usize>(
    flat_graph: &FlatGraph,
    vertices: &Vec<NewVertex>,
    types: &Vec<EdgeType>,
    share: &F,
    rng: &mut StdRng,
) -> (result: Result<Vec<NewEdge>, InsertError>)
    requires
        forall|n: usize| #[trigger] share.requires((n,)),
    ensures
        ({
            let data = flat_graph@;
            let pending = flat_graph.pending@;
            let kinds = type_views(types@);
            let first = next_id(edge_ids_of(data.edges));
            match result {
                Ok(edges) => exists|counts: Seq<usize>| #[trigger]
                    are_edge_counts(
                        data,
                        pending,
                        vertices@,
                        kinds,
                        *share,
                        counts,
                        kinds.len() as int,
                    ) && is_edge_plan(
                        data,
                        pending,
                        vertices@,
                        kinds,
                        counts,
                        kinds.len() as int,
                        first,
                        edges@,
                    ) && !is_too_many(first, edges@.len() as int),
                Err(error) => error is TooMany && exists|counts: Seq<usize>, n: int| #[trigger]
                    are_edge_counts(data, pending, vertices@, kinds, *share, counts, n) && 0 <= n
                        <= kinds.len() && is_too_many(first, sum_of(counts, n)),
            }
        }),
{
    let ghost data = flat_graph@;
    let ghost pending = flat_graph.pending@;
    let ghost kinds = type_views(types@);
    let ghost first_id = next_id(edge_ids_of(data.edges));
    let ids: Vec<EdgeId> = flat_graph.all_edge_ids();
    let ghost mut counts: Seq<usize> = Seq::empty();
    let first: u64 = match find_next_id(&ids) {
        Some(id) => id,
        None => {
            assert(are_edge_counts(data, pending, vertices@, kinds, *share, counts, 0));
            return Err(InsertError::TooMany);
        },
    };
    let mut edges: Vec<NewEdge> = Vec::new();
    let mut i: usize = 0;
    while i < types.len()
        invariant
            data == flat_graph@,
            pending == flat_graph.pending@,
            kinds == type_views(types@),
            kinds.len() == types@.len(),
            first == first_id == next_id(edge_ids_of(data.edges)),
            forall|n: usize| #[trigger] share.requires((n,)),
            i <= types@.len(),
            counts.len() == i,
            are_edge_counts(data, pending, vertices@, kinds, *share, counts, i as int),
            is_edge_plan(
                data,
                pending,
                vertices@,
                kinds,
                counts,
                i as int,
                first_id,
                edges@,
            ),
            !is_too_many(first_id, edges@.len() as int),
        decreases types.len() - i,
    {
        let kind: &EdgeType = &types[i];
        let ghost view = kinds[i as int];
        assert(view == (kind.0@, (kind.1.0@, kind.1.1@)));
        let sources: Vec<VertexId> = collect_ends(flat_graph, vertices, kind.1.0.as_str());
        let targets: Vec<VertexId> = collect_ends(flat_graph, vertices, kind.1.1.as_str());
        let ghost before = edges@;
        let ghost before_counts = counts;
        let usable: bool = sources.len() > 0 && targets.len() > 0;
        let mut count: usize = 0;
        if usable {
            let current: usize = flat_graph.edge_count_by_label(kind.0.as_str());
            count = share(current);
        }
        proof {
            counts = counts.push(count);
            lemma_sum_same(before_counts, counts, i as int);
            assert forall|j: int|
                #![trigger counts[j]]
                0 <= j < i + 1 implies if is_usable(data, pending, vertices@, kinds[j]) {
                share.ensures((data.edges_labelled(kinds[j].0).len() as usize,), counts[j])
            } else {
                counts[j] == 0
            } by {
                if j < i {
                    assert(counts[j] == before_counts[j]);
                }
            }
            assert(are_edge_counts(data, pending, vertices@, kinds, *share, counts, i + 1));
        }
        if usable {
            if !draw_edges(kind, &sources, &targets, count, first, &mut edges, rng) {
                assert(is_too_many(first_id, sum_of(counts, i + 1)));
                return Err(InsertError::TooMany);
            }
        }
        proof {
            let now = edges@;
            assert(now.len() == sum_of(counts, i + 1));
            assert forall|a: int, j: int|
                #![trigger now[sum_of(counts, a) + j]]
                0 <= a < i + 1 && 0 <= j < counts[a] implies is_edge_of(
                data,
                pending,
                vertices@,
                kinds[a],
                now[sum_of(counts, a) + j],
            ) by {
                if a < i {
                    lemma_sum_same(before_counts, counts, a);
                    lemma_sum_same(before_counts, counts, a + 1);
                    lemma_sum_grows(before_counts, a + 1, i as int);
                    assert(counts[a] == before_counts[a]);
                    let k = sum_of(before_counts, a) + j;
                    assert(is_edge_of(data, pending, vertices@, kinds[a], before[k]));
                    assert(0 <= k) by {
                        lemma_sum_grows(before_counts, 0, a);
                    }
                    assert(now[k] == before[k]);
                } else {
                    assert(before.len() <= sum_of(counts, a) + j < now.len());
                }
            }
            assert forall|k: int|
                #![trigger now[k]]
                0 <= k < now.len() implies now[k].id == first_id + k by {
                if k < before.len() {
                    assert(now[k] == before[k]);
                }
            }
        }
        i = i + 1;
    }
    Ok(edges)
}

/// Properties without values, one for each that a label has.
pub open spec fn empty_props(
    schemas: Seq<(Seq<char>, Seq<Seq<char>>)>,
    label: Seq<char>,
) -> Seq<ScalarValue> {
    Seq::new(
        match schema_of(schemas, label) {
            Some(names) => names.len(),
            None => 0,
        },
        |i: int| ScalarValue::Null,
    )
}

fn null_props(schemas: &Vec<(String, Vec<String>)>, label: &str) -> (result: Vec<ScalarValue>)
    ensures
        result@ == empty_props(schema_views(schemas@), label@),
{
    let ghost views = schema_views(schemas@);
    let mut props: Vec<ScalarValue> = Vec::new();
    let mut i: usize = 0;
    assert(views.skip(0) =~= views);
    while i < schemas.len()
        invariant
            views == schema_views(schemas@),
            views.len() == schemas@.len(),
            i <= schemas@.len(),
            schema_of(views, label@) == schema_of(views.skip(i as int), label@),
            props@.len() == 0,
        decreases schemas.len() - i,
    {
        assert(views.skip(i as int).first() == views[i as int]);
        assert(views.skip(i as int).drop_first() =~= views.skip(i + 1));
        if is_text(schemas[i].0.as_str(), label) {
            let ghost names = label_views(schemas@[i as int].1@);
            let mut j: usize = 0;
            while j < schemas[i].1.len()
                invariant
                    i < schemas@.len(),
                    j <= schemas@[i as int].1@.len(),
                    props@.len() == j,
                    forall|k: int|
                        #![trigger props@[k]]
                        0 <= k < j ==> props@[k] == ScalarValue::Null,
                decreases schemas@[i as int].1@.len() - j,
            {
                props.push(ScalarValue::Null);
                j = j + 1;
            }
            assert(schema_of(views, label@) == Some(names));
            assert(props@ =~= empty_props(views, label@));
            return props;
        }
        i = i + 1;
    }
    assert(views.skip(i as int).len() == 0);
    assert(props@ =~= empty_props(views, label@));
    props
}

/// The vertices that a plan inserts.
pub open spec fn vertices_planned(data: FlatView, vertices: Seq<NewVertex>) -> Seq<FlatVertexView> {
    vertices.map_values(
        |v: NewVertex|
            FlatVertexView {
                id: v.id,
                label: v.label@,
                props: empty_props(data.vertex_schemas, v.label@),
            },
    )
}

/// The edges that a plan inserts.
pub open spec fn edges_planned(data: FlatView, edges: Seq<NewEdge>) -> Seq<FlatEdgeView> {
    edges.map_values(
        |e: NewEdge|
            FlatEdgeView {
                id: e.id,
                src: e.src,
                src_label: e.src_label@,
                dst: e.dst,
                dst_label: e.dst_label@,
                label: e.label@,
                props: empty_props(data.edge_schemas, e.label@),
            },
    )
}

/// How the first `n` edges change what is logged.
pub open spec fn edge_changes(
    edges: Seq<NewEdge>,
    n: int,
    path: Seq<Seq<char>>,
    label: Seq<char>,
    v: VertexId,
) -> int
    decreases n,
{
    if n <= 0 {
        0
    } else {
        let e = edges[n - 1];
        edge_changes(edges, n - 1, path, label, v) + edge_change(
            path,
            label,
            v,
            e.src,
            e.src_label@,
            e.dst,
            e.dst_label@,
            e.label@,
            1,
        )
    }
}

/// What there are entries for with those for the first `n` edges.
pub open spec fn with_heads_of_edges(
    before: Seq<Head>,
    edges: Seq<NewEdge>,
    n: int,
    res_len: nat,
) -> Seq<Head>
    decreases n,
{
    if n <= 0 {
        before
    } else {
        let e = edges[n - 1];
        with_edge_heads(
            with_heads_of_edges(before, edges, n - 1, res_len),
            e.src_label@,
            e.dst_label@,
            e.label@,
            res_len,
        )
    }
}

/// Whether insertions were noted in a data graph and logged.
pub open spec fn is_insertion_noted(
    before: FlatGraph,
    log_before: GCardUpdateLog,
    plan: InsertPlan,
    after: FlatGraph,
    log_after: GCardUpdateLog,
) -> bool {
    &&& after@ == before@
    &&& after.pending@ == (PendingView {
        inserted_vertices: before.pending@.inserted_vertices + vertices_planned(
            before@,
            plan.vertices@,
        ),
        inserted_edges: before.pending@.inserted_edges + edges_planned(before@, plan.edges@),
        ..before.pending@
    })
    &&& log_after.max_k == log_before.max_k
    &&& log_after.deleted_vertices == log_before.deleted_vertices
    &&& forall|p: Seq<Seq<char>>, l: Seq<char>, r: nat, x: VertexId| #[trigger]
        log_after.change(p, l, r, x) == log_before.change(p, l, r, x) + (if r
            == log_before.growth() {
            edge_changes(plan.edges@, plan.edges@.len() as int, p, l, x)
        } else {
            0
        })
    &&& heads(log_after.entries@) == with_heads_of_edges(
        heads(log_before.entries@),
        plan.edges@,
        plan.edges@.len() as int,
        log_before.growth(),
    )
}

/// Notes insertions in a data graph, and logs them.
pub fn note_insertions(flat_graph: &mut FlatGraph, log: &mut GCardUpdateLog, plan: &InsertPlan)
    requires
        old(log).wf(),
        old(log).has_room(2 * plan.edges@.len()),
        2 * plan.edges@.len() <= i64::MAX,
    ensures
        final(log).wf(),
        is_insertion_noted(*old(flat_graph), *old(log), *plan, *final(flat_graph), *final(log)),
{
    let ghost start = *flat_graph;
    let ghost log_start = *log;
    let ghost data = start@;
    let ghost vertices = vertices_planned(data, plan.vertices@);
    let ghost edges = edges_planned(data, plan.edges@);
    let mut i: usize = 0;
    assert(start.pending@.inserted_vertices + vertices.take(0)
        =~= start.pending@.inserted_vertices);
    while i < plan.vertices.len()
        invariant
            data == start@,
            vertices == vertices_planned(data, plan.vertices@),
            flat_graph@ == data,
            i <= plan.vertices@.len(),
            flat_graph.pending@ == (PendingView {
                inserted_vertices: start.pending@.inserted_vertices + vertices.take(i as int),
                ..start.pending@
            }),
        decreases plan.vertices.len() - i,
    {
        let ghost before = flat_graph.pending@.inserted_vertices;
        let props: Vec<ScalarValue> = null_props(
            &flat_graph.vertex_schemas,
            plan.vertices[i].label.as_str(),
        );
        flat_graph.record_insert_vertex(
            plan.vertices[i].id,
            plan.vertices[i].label.as_str(),
            props,
        );
        assert(flat_graph.pending@.inserted_vertices =~= start.pending@.inserted_vertices
            + vertices.take(i + 1));
        i = i + 1;
    }
    assert(vertices.take(i as int) =~= vertices);
    let mut j: usize = 0;
    assert(start.pending@.inserted_edges + edges.take(0) =~= start.pending@.inserted_edges);
    proof {
        assert forall|p: Seq<Seq<char>>, l: Seq<char>, r: nat, x: VertexId| #[trigger]
            log.change(p, l, r, x) == log_start.change(p, l, r, x) + (if r
                == log_start.growth() {
                edge_changes(plan.edges@, 0, p, l, x)
            } else {
                0
            }) by {}
    }
    while j < plan.edges.len()
        invariant
            data == start@,
            vertices == vertices_planned(data, plan.vertices@),
            edges == edges_planned(data, plan.edges@),
            2 * plan.edges@.len() <= i64::MAX,
            flat_graph@ == data,
            j <= plan.edges@.len(),
            flat_graph.pending@ == (PendingView {
                inserted_vertices: start.pending@.inserted_vertices + vertices,
                inserted_edges: start.pending@.inserted_edges + edges.take(j as int),
                ..start.pending@
            }),
            log.wf(),
            log.max_k == log_start.max_k,
            log.deleted_vertices == log_start.deleted_vertices,
            log.has_room((2 * (plan.edges@.len() - j)) as nat),
            forall|p: Seq<Seq<char>>, l: Seq<char>, r: nat, x: VertexId| #[trigger]
                log.change(p, l, r, x) == log_start.change(p, l, r, x) + (if r
                    == log_start.growth() {
                    edge_changes(plan.edges@, j as int, p, l, x)
                } else {
                    0
                }),
            heads(log.entries@) == with_heads_of_edges(
                heads(log_start.entries@),
                plan.edges@,
                j as int,
                log_start.growth(),
            ),
        decreases plan.edges.len() - j,
    {
        let e: &NewEdge = &plan.edges[j];
        let ghost log_before = *log;
        let props: Vec<ScalarValue> = null_props(&flat_graph.edge_schemas, e.label.as_str());
        flat_graph.record_insert_edge(
            e.id,
            e.src,
            e.src_label.as_str(),
            e.dst,
            e.dst_label.as_str(),
            e.label.as_str(),
            props,
        );
        proof {
            rooms_shrink(*log, (2 * (plan.edges@.len() - j)) as nat, 2);
        }
        log.record_insert_edge(
            e.src,
            e.src_label.as_str(),
            e.dst,
            e.dst_label.as_str(),
            e.label.as_str(),
        );
        proof {
            assert(flat_graph.pending@.inserted_edges =~= start.pending@.inserted_edges
                + edges.take(j + 1));
            let n = (2 * (plan.edges@.len() - (j + 1))) as nat;
            assert(n + 2 == (2 * (plan.edges@.len() - j)) as nat);
            assert(log.has_room(n));
            assert forall|p: Seq<Seq<char>>, l: Seq<char>, r: nat, x: VertexId| #[trigger]
                log.change(p, l, r, x) == log_start.change(p, l, r, x) + (if r
                    == log_start.growth() {
                    edge_changes(plan.edges@, j + 1, p, l, x)
                } else {
                    0
                }) by {
                assert(log_before.change(p, l, r, x) == log_start.change(p, l, r, x) + (if r
                    == log_start.growth() {
                    edge_changes(plan.edges@, j as int, p, l, x)
                } else {
                    0
                }));
            }
        }
        j = j + 1;
    }
    assert(edges.take(j as int) =~= edges);
}

/// A log with much room has less room as well.
pub proof fn rooms_shrink(log: GCardUpdateLog, more: nat, less: nat)
    requires
        log.has_room(more),
        less <= more,
    ensures
        log.has_room(less),
{
    assert forall|p: Seq<Seq<char>>, l: Seq<char>, r: nat, x: VertexId|
        -i64::MAX + less <= #[trigger] log.change(p, l, r, x) <= i64::MAX - less by {
        assert(-i64::MAX + more <= log.change(p, l, r, x) <= i64::MAX - more);
    }
}

/// Whether vertices are those to insert for labels, as many as another function says.
pub open spec fn are_planned<F: Fn(usize) -> usize>(
    data: FlatView,
    labels: Seq<Seq<char>>,
    share: F,
    vertices: Seq<NewVertex>,
) -> bool {
    exists|counts: Seq<usize>| #[trigger]
        are_vertex_counts(data, labels, share, counts, labels.len() as int) && is_vertex_plan(
            labels,
            counts,
            labels.len() as int,
            next_id(vertex_ids_of(data.vertices)),
            vertices,
        )
}

/// Whether a plan inserts for labels and types as many vertices and edges as another function
/// says.
pub open spec fn is_insert_plan<F: Fn(usize) -> usize>(
    graph: FlatGraph,
    labels: Seq<Seq<char>>,
    types: Seq<EdgeTypeView>,
    share: F,
    plan: InsertPlan,
) -> bool {
    &&& are_planned(graph@, labels, share, plan.vertices@)
    &&& exists|counts: Seq<usize>| #[trigger]
        are_edge_counts(
            graph@,
            graph.pending@,
            plan.vertices@,
            types,
            share,
            counts,
            types.len() as int,
        ) && is_edge_plan(
            graph@,
            graph.pending@,
            plan.vertices@,
            types,
            counts,
            types.len() as int,
            next_id(edge_ids_of(graph@.edges)),
            plan.edges@,
        )
}

/// Whether more vertices are to be inserted than can be.
pub open spec fn vertices_are_too_many<F: Fn(usize) -> usize>(
    data: FlatView,
    labels: Seq<Seq<char>>,
    share: F,
) -> bool {
    exists|counts: Seq<usize>, n: int| #[trigger]
        are_vertex_counts(data, labels, share, counts, n) && 0 <= n <= labels.len() && is_too_many(
            next_id(vertex_ids_of(data.vertices)),
            sum_of(counts, n),
        )
}

/// Whether more edges are to be inserted than can be.
pub open spec fn edges_are_too_many<F: Fn(usize) -> usize>(
    graph: FlatGraph,
    vertices: Seq<NewVertex>,
    types: Seq<EdgeTypeView>,
    share: F,
) -> bool {
    exists|counts: Seq<usize>, n: int| #[trigger]
        are_edge_counts(graph@, graph.pending@, vertices, types, share, counts, n) && 0 <= n
            <= types.len() && is_too_many(next_id(edge_ids_of(graph@.edges)), sum_of(counts, n))
}

/// What came of an insertion: how many edges and vertices are new, and which paths have other
/// degrees, each with a label.
#[derive(Debug)]
pub struct InsertReport {
    pub inserted_edges: usize,
    pub inserted_vertices: usize,
    pub dirty: Vec<PathKey>,
}

/// Inserts random vertices and edges, and brings the degrees up to date. Another function says of
/// how many there are how many are to be inserted.
pub fn do_random_insert<F: Fn(usize) -> usize>(
    flat_graph: &mut FlatGraph,
    log: &mut GCardUpdateLog,
    statistic: &mut Statistic,
    share: &F,
    seed: u64,
    target_vertex_label: Option<&str>,
    target_edge_label: Option<&str>,
) -> (result: Result<InsertReport, InsertError>)
    requires
        old(log).wf(),
        old(log).has_room(2 * MAX_INSERTIONS as nat),
        old(statistic).wf(),
        forall|n: usize| #[trigger] share.requires((n,)),
    ensures
        final(log).wf(),
        final(statistic).wf(),
        old(statistic).index_is_complete() ==> final(statistic).index_is_complete(),
        match targets(
            old(flat_graph)@,
            label_view_of(target_vertex_label),
            label_view_of(target_edge_label),
        ) {
            Targets::Unknown { vertex } => {
                &&& *final(flat_graph) == *old(flat_graph) && *final(log) == *old(log)
                    && *final(statistic) == *old(statistic)
                &&& if vertex {
                    result matches Err(InsertError::UnknownVertexLabel(label)) && Some(label@)
                        == label_view_of(target_vertex_label)
                } else {
                    result matches Err(InsertError::UnknownEdgeLabel(label)) && Some(label@)
                        == label_view_of(target_edge_label)
                }
            },
            Targets::Known { labels, types } => match result {
                Ok(report) => exists|plan: InsertPlan, graph: FlatGraph, noted: GCardUpdateLog|
                    #[trigger]
                    is_insertion_noted(*old(flat_graph), *old(log), plan, graph, noted)
                        && is_insert_plan(*old(flat_graph), labels, types, *share, plan)
                        && report.inserted_edges == plan.edges@.len() && report.inserted_vertices
                        == plan.vertices@.len() && is_caught_up(
                        old(statistic).labels(),
                        leaves_of(
                            world_for(graph, noted),
                            noted.entries@,
                            noted.entries@.len() as int,
                        ),
                        noted.deleted_vertices@,
                        final(statistic).labels(),
                        report.dirty@,
                    ) && final(flat_graph)@ == with_changes(graph@, graph.pending@)
                        && final(flat_graph).pending@ == PendingView::nothing()
                        && final(log).entries@.len() == 0
                        && final(log).deleted_vertices@.len() == 0,
                Err(error) => {
                    ||| error is TooMany && *final(flat_graph) == *old(flat_graph) && *final(log)
                        == *old(log) && *final(statistic) == *old(statistic) && (
                    vertices_are_too_many(old(flat_graph)@, labels, *share) || exists|
                        vertices: Vec<NewVertex>,
                    | #[trigger]
                        edges_are_too_many(*old(flat_graph), vertices@, types, *share)
                            && are_planned(old(flat_graph)@, labels, *share, vertices@))
                    ||| error is Overflow && *final(statistic) == *old(statistic) && exists|
                        plan: InsertPlan,
                    | #[trigger]
                        is_insertion_noted(
                            *old(flat_graph),
                            *old(log),
                            plan,
                            *final(flat_graph),
                            *final(log),
                        ) && is_insert_plan(*old(flat_graph), labels, types, *share, plan)
                            && compaction_overflows(
                            world_for(*final(flat_graph), *final(log)),
                            final(log).entries@,
                        )
                },
            },
        },
{
    let ghost graph_start = *flat_graph;
    let ghost log_start = *log;
    let ghost statistic_start = *statistic;
    let mut rng: StdRng = seeded(seed);
    let (labels, types) = match choose_targets(
        flat_graph,
        target_vertex_label,
        target_edge_label,
    ) {
        Ok(found) => found,
        Err(error) => {
            return Err(error);
        },
    };
    let vertices: Vec<NewVertex> = match plan_vertices(flat_graph, &labels, share) {
        Ok(vertices) => vertices,
        Err(error) => {
            return Err(error);
        },
    };
    let edges: Vec<NewEdge> = match plan_edges(flat_graph, &vertices, &types, share, &mut rng) {
        Ok(edges) => edges,
        Err(error) => {
            assert(edges_are_too_many(graph_start, vertices@, type_views(types@), *share));
            assert(are_planned(graph_start@, label_views(labels@), *share, vertices@));
            return Err(error);
        },
    };
    let plan = InsertPlan { vertices, edges };
    let inserted_edges: usize = plan.edges.len();
    let inserted_vertices: usize = plan.vertices.len();
    proof {
        assert(is_insert_plan(
            graph_start,
            label_views(labels@),
            type_views(types@),
            *share,
            plan,
        ));
        rooms_shrink(log_start, 2 * MAX_INSERTIONS as nat, 2 * plan.edges@.len());
    }
    note_insertions(flat_graph, log, &plan);
    let ghost graph = *flat_graph;
    let ghost noted = *log;
    assert(is_insertion_noted(graph_start, log_start, plan, graph, noted));
    match log.compact_and_apply_flat(flat_graph, statistic) {
        Ok(dirty) => {
            flat_graph.apply_pending();
            let report = InsertReport { inserted_edges, inserted_vertices, dirty };
            Ok(report)
        },
        Err(error) => Err(InsertError::Overflow),
    }
}

proof fn lemma_largest(ids: Seq<u64>, i: int)
    requires
        0 <= i < ids.len(),
    ensures
        ids[i] <= largest(ids),
    decreases ids.len(),
{
    if ids.len() > 1 && i < ids.len() - 1 {
        lemma_largest(ids.drop_last(), i);
    }
}

/// No vertex that is inserted has the id of another one.
pub proof fn new_vertices_have_new_ids(
    data: FlatView,
    labels: Seq<Seq<char>>,
    counts: Seq<usize>,
    n: int,
    vertices: Seq<NewVertex>,
    k: int,
)
    requires
        is_vertex_plan(labels, counts, n, next_id(vertex_ids_of(data.vertices)), vertices),
        0 <= k < vertices.len(),
    ensures
        !vertex_ids_of(data.vertices).contains(vertices[k].id),
        forall|j: int|
            0 <= j < vertices.len() && j != k ==> (#[trigger] vertices[j]).id != vertices[k].id,
{
    let ids = vertex_ids_of(data.vertices);
    if ids.contains(vertices[k].id) {
        let i = choose|i: int| 0 <= i < ids.len() && ids[i] == vertices[k].id;
        lemma_largest(ids, i);
    }
}

/// No edge that is inserted has the id of another one.
pub proof fn new_edges_have_new_ids(
    data: FlatView,
    pending: PendingView,
    vertices: Seq<NewVertex>,
    types: Seq<EdgeTypeView>,
    counts: Seq<usize>,
    n: int,
    edges: Seq<NewEdge>,
    k: int,
)
    requires
        is_edge_plan(
            data,
            pending,
            vertices,
            types,
            counts,
            n,
            next_id(edge_ids_of(data.edges)),
            edges,
        ),
        0 <= k < edges.len(),
    ensures
        !edge_ids_of(data.edges).contains(edges[k].id),
        forall|j: int| 0 <= j < edges.len() && j != k ==> (#[trigger] edges[j]).id != edges[k].id,
{
    let ids = edge_ids_of(data.edges);
    if ids.contains(edges[k].id) {
        let i = choose|i: int| 0 <= i < ids.len() && ids[i] == edges[k].id;
        lemma_largest(ids, i);
    }
}

} // verus!
