//! What is found in a data graph: the vertices and edges that were asked for, all of them, and
//! nothing else.
use crate::counting::places;
use crate::embeddings::{far_end_of, is_at};
use crate::flat::{
    hops_along, labelled_edge_ids, labelled_ids, passes, position_of, resolution, schema_of,
    FlatEdgeView, FlatVertexView, FlatView, ResolvedView,
};
use crate::query::{EdgeId, PredicateView, VertexId};
use crate::value::{meets, ScalarValue};
use vstd::prelude::*;

verus! {

/// Whether places are all those below a bound that are wanted, one after the other.
pub open spec fn lists_places(at: Seq<int>, bound: int, wanted: spec_fn(int) -> bool) -> bool {
    &&& forall|i: int, j: int|
        #![trigger at[i], at[j]]
        0 <= i < j < at.len() ==> at[i] < at[j]
    &&& forall|i: int| #![trigger at[i]] 0 <= i < at.len() ==> 0 <= at[i] < bound && wanted(at[i])
    &&& forall|p: int| 0 <= p < bound && #[trigger] wanted(p) ==> at.contains(p)
}

/// A list of places stays one when one more place is looked at, and is put at its end if wanted.
pub proof fn lemma_one_more_place(at: Seq<int>, bound: int, wanted: spec_fn(int) -> bool)
    requires
        bound > 0,
        lists_places(at, bound - 1, wanted),
    ensures
        wanted(bound - 1) ==> lists_places(at.push(bound - 1), bound, wanted),
        !wanted(bound - 1) ==> lists_places(at, bound, wanted),
{
    let more = at.push(bound - 1);
    assert forall|p: int| 0 <= p < bound && #[trigger] wanted(p) implies more.contains(p) by {
        if p < bound - 1 {
            assert(at.contains(p));
            let i = choose|i: int| 0 <= i < at.len() && at[i] == p;
            assert(more[i] == p);
        } else {
            assert(more[at.len() as int] == p);
        }
    }
    assert forall|i: int| #![trigger more[i]] 0 <= i < more.len() && wanted(bound - 1) implies 0
        <= more[i] < bound && wanted(more[i]) by {
        if i < at.len() {
            assert(more[i] == at[i]);
        }
    }
}

/// As many places are listed as are wanted.
pub proof fn lemma_listed_count(at: Seq<int>, bound: int, wanted: spec_fn(int) -> bool)
    requires
        lists_places(at, bound, wanted),
    ensures
        places(bound, wanted).finite(),
        places(bound, wanted).len() == at.len(),
{
    assert forall|i: int, j: int| 0 <= i < at.len() && 0 <= j < at.len() && i != j implies at[i]
        != at[j] by {
        if i < j {
            assert(at[i] < at[j]);
        } else {
            assert(at[j] < at[i]);
        }
    }
    at.unique_seq_to_set();
    assert(at.to_set() =~= places(bound, wanted)) by {
        assert forall|p: int| at.to_set().contains(p) <==> #[trigger] places(
            bound,
            wanted,
        ).contains(p) by {
            if at.contains(p) {
                let i = choose|i: int| 0 <= i < at.len() && at[i] == p;
                assert(wanted(at[i]));
            }
        }
    }
}

/// The vertices with a label are listed, each once and in their order.
pub proof fn labelled_vertices_are_listed(vertices: Seq<FlatVertexView>, label: Seq<char>) -> (at:
    Seq<int>)
    ensures
        lists_places(at, vertices.len() as int, |p: int| vertices[p].label == label),
        labelled_ids(vertices, label) == at.map_values(|p: int| vertices[p].id),
    decreases vertices.len(),
{
    let wanted = |p: int| vertices[p].label == label;
    if vertices.len() == 0 {
        let at = Seq::<int>::empty();
        assert(at.map_values(|p: int| vertices[p].id) =~= labelled_ids(vertices, label));
        at
    } else {
        let n = vertices.len() as int;
        let fewer = vertices.drop_last();
        let before = labelled_vertices_are_listed(fewer, label);
        assert(lists_places(before, n - 1, wanted)) by {
            assert forall|p: int| 0 <= p < n - 1 && #[trigger] wanted(p) implies before.contains(
                p,
            ) by {
                assert((|q: int| fewer[q].label == label)(p));
            }
        }
        lemma_one_more_place(before, n, wanted);
        let at = if wanted(n - 1) {
            before.push(n - 1)
        } else {
            before
        };
        assert(at.map_values(|p: int| vertices[p].id) =~= labelled_ids(vertices, label)) by {
            assert(before.map_values(|p: int| vertices[p].id) =~= before.map_values(
                |p: int| fewer[p].id,
            ));
        }
        at
    }
}

/// The edges with a label are listed, each once and in their order.
pub proof fn labelled_edges_are_listed(edges: Seq<FlatEdgeView>, label: Seq<char>) -> (at: Seq<int>)
    ensures
        lists_places(at, edges.len() as int, |p: int| edges[p].label == label),
        labelled_edge_ids(edges, label) == at.map_values(|p: int| edges[p].id),
    decreases edges.len(),
{
    let wanted = |p: int| edges[p].label == label;
    if edges.len() == 0 {
        let at = Seq::<int>::empty();
        assert(at.map_values(|p: int| edges[p].id) =~= labelled_edge_ids(edges, label));
        at
    } else {
        let n = edges.len() as int;
        let fewer = edges.drop_last();
        let before = labelled_edges_are_listed(fewer, label);
        assert(lists_places(before, n - 1, wanted)) by {
            assert forall|p: int| 0 <= p < n - 1 && #[trigger] wanted(p) implies before.contains(
                p,
            ) by {
                assert((|q: int| fewer[q].label == label)(p));
            }
        }
        lemma_one_more_place(before, n, wanted);
        let at = if wanted(n - 1) {
            before.push(n - 1)
        } else {
            before
        };
        assert(at.map_values(|p: int| edges[p].id) =~= labelled_edge_ids(edges, label)) by {
            assert(before.map_values(|p: int| edges[p].id) =~= before.map_values(
                |p: int| fewer[p].id,
            ));
        }
        at
    }
}

/// The neighbors of a vertex are the other ends of its edges with a label: one for each such edge,
/// in their order.
pub proof fn neighbors_are_other_ends(
    edges: Seq<FlatEdgeView>,
    label: Seq<char>,
    edge_label: Seq<char>,
    outgoing: bool,
    v: VertexId,
) -> (at: Seq<int>)
    ensures
        lists_places(
            at,
            edges.len() as int,
            |p: int| is_at(edges[p], label, edge_label, outgoing, v),
        ),
        hops_along(edges, label, edge_label, outgoing, v) == at.map_values(
            |p: int| (far_end_of(edges[p], outgoing), edges[p].id),
        ),
    decreases edges.len(),
{
    let wanted = |p: int| is_at(edges[p], label, edge_label, outgoing, v);
    let hop = |p: int| (far_end_of(edges[p], outgoing), edges[p].id);
    let hops = hops_along(edges, label, edge_label, outgoing, v);
    if edges.len() == 0 {
        let at = Seq::<int>::empty();
        assert(at.map_values(hop) =~= hops);
        at
    } else {
        let n = edges.len() as int;
        let fewer = edges.drop_last();
        let before = neighbors_are_other_ends(fewer, label, edge_label, outgoing, v);
        assert(lists_places(before, n - 1, wanted)) by {
            assert forall|p: int| 0 <= p < n - 1 && #[trigger] wanted(p) implies before.contains(
                p,
            ) by {
                assert((|q: int| is_at(fewer[q], label, edge_label, outgoing, v))(p));
            }
        }
        lemma_one_more_place(before, n, wanted);
        let at = if wanted(n - 1) {
            before.push(n - 1)
        } else {
            before
        };
        assert(before.map_values(hop) =~= before.map_values(
            |p: int| (far_end_of(fewer[p], outgoing), fewer[p].id),
        ));
        assert(at.map_values(hop) =~= hops);
        at
    }
}

/// Whether a vertex is the first with a label and an id.
pub open spec fn is_first_vertex(
    vertices: Seq<FlatVertexView>,
    label: Seq<char>,
    id: VertexId,
    place: int,
) -> bool {
    &&& 0 <= place < vertices.len()
    &&& vertices[place].label == label && vertices[place].id == id
    &&& forall|j: int|
        #![trigger vertices[j]]
        0 <= j < place ==> !(vertices[j].label == label && vertices[j].id == id)
}

proof fn lemma_vertex_found(data: FlatView, label: Seq<char>, id: VertexId, n: int)
    requires
        0 <= n <= data.vertices.len(),
    ensures
        match data.vertex_among(label, id, n) {
            Some(v) => exists|p: int| #[trigger]
                is_first_vertex(data.vertices, label, id, p) && p < n && v == data.vertices[p],
            None => forall|p: int|
                #![trigger data.vertices[p]]
                0 <= p < n ==> !(data.vertices[p].label == label && data.vertices[p].id == id),
        },
    decreases n,
{
    if n > 0 {
        lemma_vertex_found(data, label, id, n - 1);
        if data.vertex_among(label, id, n - 1) is None && data.vertices[n - 1].label == label
            && data.vertices[n - 1].id == id {
            assert(is_first_vertex(data.vertices, label, id, n - 1));
        }
    }
}

/// The properties of a vertex are those of the first one with the label and the id, and there are
/// none exactly where there is no such vertex.
pub proof fn vertex_properties_are_found(data: FlatView, label: Seq<char>, id: VertexId)
    ensures
        match data.vertex_props(label, id) {
            Some(props) => exists|p: int| #[trigger]
                is_first_vertex(data.vertices, label, id, p) && props == data.vertices[p].props,
            None => forall|p: int|
                #![trigger data.vertices[p]]
                0 <= p < data.vertices.len() ==> !(data.vertices[p].label == label
                    && data.vertices[p].id == id),
        },
{
    lemma_vertex_found(data, label, id, data.vertices.len() as int);
}

/// Whether an edge is the first with an id.
pub open spec fn is_first_edge(edges: Seq<FlatEdgeView>, id: EdgeId, place: int) -> bool {
    &&& 0 <= place < edges.len()
    &&& edges[place].id == id
    &&& forall|j: int| #![trigger edges[j]] 0 <= j < place ==> edges[j].id != id
}

proof fn lemma_edge_found(data: FlatView, id: EdgeId, n: int)
    requires
        0 <= n <= data.edges.len(),
    ensures
        match data.edge_among(id, n) {
            Some(e) => exists|p: int| #[trigger]
                is_first_edge(data.edges, id, p) && p < n && e == data.edges[p],
            None => forall|p: int|
                #![trigger data.edges[p]]
                0 <= p < n ==> data.edges[p].id != id,
        },
    decreases n,
{
    if n > 0 {
        lemma_edge_found(data, id, n - 1);
        if data.edge_among(id, n - 1) is None && data.edges[n - 1].id == id {
            assert(is_first_edge(data.edges, id, n - 1));
        }
    }
}

/// An edge that is found is the first one with the id, and so are its properties; nothing is
/// found exactly where there is no such edge.
pub proof fn edges_are_found(data: FlatView, id: EdgeId)
    ensures
        match data.edge(id) {
            Some(e) => exists|p: int| #[trigger]
                is_first_edge(data.edges, id, p) && e == data.edges[p] && data.edge_props(id)
                    == Some(data.edges[p].props),
            None => data.edge_props(id) is None && forall|p: int|
                #![trigger data.edges[p]]
                0 <= p < data.edges.len() ==> data.edges[p].id != id,
        },
{
    lemma_edge_found(data, id, data.edges.len() as int);
}

/// Properties meet conditions exactly where every condition is met by the property that it is on.
/// Where there are no properties, they meet exactly no conditions at all.
pub proof fn conditions_are_met_one_by_one(
    props: Option<Seq<ScalarValue>>,
    conditions: Seq<ResolvedView>,
)
    ensures
        passes(props, conditions) <==> forall|i: int|
            #![trigger conditions[i]]
            0 <= i < conditions.len() ==> {
                let c = conditions[i];
                &&& props is Some
                &&& 0 <= c.prop_index < props->0.len()
                &&& meets(props->0[c.prop_index], c.op, c.value, c.values)
            },
{
    if conditions.len() > 0 {
        assert(conditions[0] == conditions[0]);
    }
}

/// Whether a name is at a place for the first time.
pub open spec fn is_first_at(names: Seq<Seq<char>>, name: Seq<char>, place: int) -> bool {
    &&& 0 <= place < names.len()
    &&& names[place] == name
    &&& forall|j: int| #![trigger names[j]] 0 <= j < place ==> names[j] != name
}

proof fn lemma_first_position(names: Seq<Seq<char>>, name: Seq<char>)
    ensures
        match position_of(names, name) {
            Some(k) => is_first_at(names, name, k),
            None => !names.contains(name),
        },
    decreases names.len(),
{
    if names.len() > 0 {
        let fewer = names.drop_last();
        lemma_first_position(fewer, name);
        match position_of(fewer, name) {
            Some(k) => {
                assert forall|j: int| #![trigger names[j]] 0 <= j < k implies names[j] != name by {
                    assert(fewer[j] == names[j]);
                }
                assert(fewer[k] == names[k]);
            },
            None => {
                assert forall|j: int| #![trigger names[j]] 0 <= j < fewer.len() implies names[j]
                    != name by {
                    assert(fewer[j] == names[j]);
                    assert(fewer.contains(fewer[j]));
                }
            },
        }
    }
}

/// Whether names are those of the properties of a label.
pub open spec fn are_names_of(
    schemas: Seq<(Seq<char>, Seq<Seq<char>>)>,
    label: Seq<char>,
    names: Seq<Seq<char>>,
) -> bool {
    exists|i: int|
        #![trigger schemas[i]]
        0 <= i < schemas.len() && schemas[i] == (label, names) && forall|j: int|
            #![trigger schemas[j]]
            0 <= j < i ==> schemas[j].0 != label
}

proof fn lemma_schema(
    schemas: Seq<(Seq<char>, Seq<Seq<char>>)>,
    label: Seq<char>,
    names: Seq<Seq<char>>,
    i: int,
)
    requires
        0 <= i < schemas.len(),
        schemas[i] == (label, names),
        forall|j: int| #![trigger schemas[j]] 0 <= j < i ==> schemas[j].0 != label,
    ensures
        schema_of(schemas, label) == Some(names),
    decreases i,
{
    if i > 0 {
        let rest = schemas.drop_first();
        assert(schemas[0].0 != label);
        assert(rest[i - 1] == schemas[i]);
        assert forall|j: int| #![trigger rest[j]] 0 <= j < i - 1 implies rest[j].0 != label by {
            assert(rest[j] == schemas[j + 1]);
        }
        lemma_schema(rest, label, names, i - 1);
    }
}

/// Whether the property that a predicate names is there and meets what it says.
pub open spec fn property_meets(
    names: Seq<Seq<char>>,
    props: Seq<ScalarValue>,
    p: PredicateView,
) -> bool {
    exists|k: int| #[trigger]
        is_first_at(names, p.property, k) && k < props.len() && meets(
            props[k],
            p.op,
            p.value,
            p.values,
        )
}

proof fn lemma_resolved(
    schemas: Seq<(Seq<char>, Seq<Seq<char>>)>,
    label: Seq<char>,
    names: Seq<Seq<char>>,
    predicates: Seq<PredicateView>,
)
    requires
        schema_of(schemas, label) == Some(names),
    ensures
        match resolution(schemas, label, predicates) {
            Ok(conditions) => conditions.len() == predicates.len() && forall|i: int|
                #![trigger conditions[i]]
                0 <= i < predicates.len() ==> {
                    let (c, p) = (conditions[i], predicates[i]);
                    is_first_at(names, p.property, c.prop_index) && c.op == p.op && c.value
                        == p.value && c.values == p.values
                },
            Err(name) => !names.contains(name) && exists|i: int|
                0 <= i < predicates.len() && (#[trigger] predicates[i]).property == name,
        },
    decreases predicates.len(),
{
    if predicates.len() > 0 {
        let fewer = predicates.drop_last();
        let p = predicates.last();
        lemma_resolved(schemas, label, names, fewer);
        lemma_first_position(names, p.property);
        match resolution(schemas, label, fewer) {
            Ok(before) => {
                match position_of(names, p.property) {
                    Some(k) => {
                        let conditions = resolution(schemas, label, predicates)->Ok_0;
                        assert forall|i: int|
                            #![trigger conditions[i]]
                            0 <= i < predicates.len() implies {
                            let (c, p) = (conditions[i], predicates[i]);
                            is_first_at(names, p.property, c.prop_index) && c.op == p.op && c.value
                                == p.value && c.values == p.values
                        } by {
                            if i < fewer.len() {
                                assert(conditions[i] == before[i] && predicates[i] == fewer[i]);
                            }
                        }
                    },
                    None => {
                        assert(predicates[predicates.len() - 1].property == p.property);
                    },
                }
            },
            Err(name) => {
                let i = choose|i: int|
                    0 <= i < fewer.len() && (#[trigger] fewer[i]).property == name;
                assert(predicates[i].property == name);
            },
        }
    }
}

/// Properties of a label meet the conditions of predicates exactly where every predicate is met
/// by the property that it names. There are such conditions exactly where the label has all these
/// properties; otherwise one that is missing is named.
pub proof fn conditions_say_what_predicates_say(
    schemas: Seq<(Seq<char>, Seq<Seq<char>>)>,
    label: Seq<char>,
    names: Seq<Seq<char>>,
    predicates: Seq<PredicateView>,
    props: Seq<ScalarValue>,
)
    requires
        are_names_of(schemas, label, names),
    ensures
        resolution(schemas, label, predicates) is Ok <==> forall|i: int|
            #![trigger predicates[i]]
            0 <= i < predicates.len() ==> names.contains(predicates[i].property),
        match resolution(schemas, label, predicates) {
            Ok(conditions) => passes(Some(props), conditions) <==> forall|i: int|
                #![trigger predicates[i]]
                0 <= i < predicates.len() ==> property_meets(names, props, predicates[i]),
            Err(name) => !names.contains(name) && exists|i: int|
                0 <= i < predicates.len() && (#[trigger] predicates[i]).property == name,
        },
{
    let at = choose|i: int|
        #![trigger schemas[i]]
        0 <= i < schemas.len() && schemas[i] == (label, names) && forall|j: int|
            #![trigger schemas[j]]
            0 <= j < i ==> schemas[j].0 != label;
    lemma_schema(schemas, label, names, at);
    lemma_resolved(schemas, label, names, predicates);
    match resolution(schemas, label, predicates) {
        Ok(conditions) => {
            assert forall|i: int|
                #![trigger predicates[i]]
                0 <= i < predicates.len() implies names.contains(predicates[i].property) by {
                let c = conditions[i];
                assert(names[c.prop_index] == predicates[i].property);
            }
            conditions_are_met_one_by_one(Some(props), conditions);
            if passes(Some(props), conditions) {
                assert forall|i: int|
                    #![trigger predicates[i]]
                    0 <= i < predicates.len() implies property_meets(
                    names,
                    props,
                    predicates[i],
                ) by {
                    let c = conditions[i];
                    assert(is_first_at(names, predicates[i].property, c.prop_index));
                }
            }
            if forall|i: int|
                #![trigger predicates[i]]
                0 <= i < predicates.len() ==> property_meets(names, props, predicates[i]) {
                assert forall|i: int|
                    #![trigger conditions[i]]
                    0 <= i < conditions.len() implies {
                    let c = conditions[i];
                    &&& 0 <= c.prop_index < props.len()
                    &&& meets(props[c.prop_index], c.op, c.value, c.values)
                } by {
                    let p = predicates[i];
                    assert(property_meets(names, props, p));
                    let k = choose|k: int| #[trigger]
                        is_first_at(names, p.property, k) && k < props.len() && meets(
                            props[k],
                            p.op,
                            p.value,
                            p.values,
                        );
                    let c = conditions[i];
                    assert(is_first_at(names, p.property, c.prop_index));
                    if k < c.prop_index {
                        assert(names[k] != p.property);
                    }
                    if c.prop_index < k {
                        assert(names[c.prop_index] != p.property);
                    }
                }
            }
        },
        Err(name) => {},
    }
}

} // verus!
