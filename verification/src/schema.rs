//! Edge types of a graph schema: their endpoints and cardinalities.
use crate::text::{
    append_decimal, ascii_lower_label, decimal, eq_ignore_ascii_case, is_text, to_ascii_lowercase,
};
use vstd::prelude::*;
use vstd::string::*;

verus! {

/// How many vertices an edge type joins on either side.
#[derive(Debug, Clone, Copy, PartialEq, Eq, Hash, Structural)]
pub enum EdgeCardinality {
    ManyToMany,
    ManyToOne,
    OneToMany,
}

/// Source and destination labels of one edge type, with its cardinality.
#[derive(Debug, Clone, PartialEq, Eq, Hash)]
pub struct EdgeEndpoints {
    pub src_label: String,
    pub dst_label: String,
    pub cardinality: EdgeCardinality,
}

impl EdgeEndpoints {
    fn copy(&self) -> (result: EdgeEndpoints)
        ensures
            result == *self,
    {
        EdgeEndpoints {
            src_label: self.src_label.clone(),
            dst_label: self.dst_label.clone(),
            cardinality: self.cardinality,
        }
    }
}

/// Whether a label in lower case names an edge type that has one destination per source.
pub open spec fn is_many_to_one(label: Seq<char>) -> bool {
    ||| label == "city_ispartof_country"@
    ||| label == "comment_hascreator_person"@
    ||| label == "comment_islocatedin_country"@
    ||| label == "comment_replyof_comment"@
    ||| label == "comment_replyof_post"@
    ||| label == "company_islocatedin_country"@
    ||| label == "country_ispartof_continent"@
    ||| label == "forum_hasmoderator_person"@
    ||| label == "person_islocatedin_city"@
    ||| label == "post_hascreator_person"@
    ||| label == "post_islocatedin_country"@
    ||| label == "tag_hastype_tagclass"@
    ||| label == "tagclass_issubclassof_tagclass"@
    ||| label == "university_islocatedin_city"@
}

/// The cardinality that the schema defines for an edge label, whatever the case of its letters.
pub open spec fn manual_cardinality(label: Seq<char>) -> EdgeCardinality {
    let lower = ascii_lower_label(label);
    if is_many_to_one(lower) {
        EdgeCardinality::ManyToOne
    } else if lower == "forum_containerof_post"@ {
        EdgeCardinality::OneToMany
    } else {
        EdgeCardinality::ManyToMany
    }
}

/// The cardinality that the schema defines for an edge label.
pub fn manual_edge_cardinality(edge_label: &str) -> (result: EdgeCardinality)
    ensures
        result == manual_cardinality(edge_label@),
{
    let lower = to_ascii_lowercase(edge_label);
    let label: &str = lower.as_str();
    if is_text(label, "city_ispartof_country") || is_text(label, "comment_hascreator_person")
        || is_text(label, "comment_islocatedin_country") || is_text(
        label,
        "comment_replyof_comment",
    ) || is_text(label, "comment_replyof_post") || is_text(label, "company_islocatedin_country")
        || is_text(label, "country_ispartof_continent") || is_text(
        label,
        "forum_hasmoderator_person",
    ) || is_text(label, "person_islocatedin_city") || is_text(label, "post_hascreator_person")
        || is_text(label, "post_islocatedin_country") || is_text(label, "tag_hastype_tagclass")
        || is_text(label, "tagclass_issubclassof_tagclass") || is_text(
        label,
        "university_islocatedin_city",
    ) {
        EdgeCardinality::ManyToOne
    } else if is_text(label, "forum_containerof_post") {
        EdgeCardinality::OneToMany
    } else {
        EdgeCardinality::ManyToMany
    }
}

/// The name under which a cardinality is written.
pub open spec fn cardinality_name(cardinality: EdgeCardinality) -> Seq<char> {
    match cardinality {
        EdgeCardinality::ManyToMany => "ManyToMany"@,
        EdgeCardinality::ManyToOne => "ManyToOne"@,
        EdgeCardinality::OneToMany => "OneToMany"@,
    }
}

/// The cardinality that is written under a name, where there is one.
pub open spec fn named_cardinality(name: Seq<char>) -> Option<EdgeCardinality> {
    if name == "ManyToMany"@ {
        Some(EdgeCardinality::ManyToMany)
    } else if name == "ManyToOne"@ {
        Some(EdgeCardinality::ManyToOne)
    } else if name == "OneToMany"@ {
        Some(EdgeCardinality::OneToMany)
    } else {
        None
    }
}

/// The name of a cardinality.
pub fn edge_cardinality_name(cardinality: EdgeCardinality) -> (result: &'static str)
    ensures
        result@ == cardinality_name(cardinality),
{
    match cardinality {
        EdgeCardinality::ManyToMany => "ManyToMany",
        EdgeCardinality::ManyToOne => "ManyToOne",
        EdgeCardinality::OneToMany => "OneToMany",
    }
}

/// The cardinality of a name; `None` for any text that is no name of one.
pub fn edge_cardinality_from_name(value: &str) -> (result: Option<EdgeCardinality>)
    ensures
        result == named_cardinality(value@),
{
    if is_text(value, "ManyToMany") {
        Some(EdgeCardinality::ManyToMany)
    } else if is_text(value, "ManyToOne") {
        Some(EdgeCardinality::ManyToOne)
    } else if is_text(value, "OneToMany") {
        Some(EdgeCardinality::OneToMany)
    } else {
        None
    }
}

/// Reading back the name of a cardinality gives that cardinality.
pub proof fn cardinality_names_read_back(cardinality: EdgeCardinality)
    ensures
        named_cardinality(cardinality_name(cardinality)) == Some(cardinality),
{
    reveal_strlit("ManyToMany");
    reveal_strlit("ManyToOne");
    reveal_strlit("OneToMany");
    assert("ManyToMany"@.len() == 10);
    assert("ManyToOne"@[0] == 'M');
    assert("OneToMany"@[0] == 'O');
}

/// The edge types of a schema: edge labels with their endpoints.
pub type SchemaEdges = Vec<(String, EdgeEndpoints)>;

/// Every edge label with the name of its cardinality.
pub fn edge_cardinalities_to_names(edges: &SchemaEdges) -> (result: Vec<(String, String)>)
    ensures
        result@.len() == edges@.len(),
        forall|i: int|
            #![trigger result@[i]]
            0 <= i < edges@.len() ==> result@[i].0 == edges@[i].0 && result@[i].1@
                == cardinality_name(edges@[i].1.cardinality),
{
    let mut result: Vec<(String, String)> = Vec::new();
    let mut i: usize = 0;
    while i < edges.len()
        invariant
            i <= edges@.len(),
            result@.len() == i,
            forall|j: int|
                #![trigger result@[j]]
                0 <= j < i ==> result@[j].0 == edges@[j].0 && result@[j].1@ == cardinality_name(
                    edges@[j].1.cardinality,
                ),
        decreases edges.len() - i,
    {
        let name = edge_cardinality_name(edges[i].1.cardinality).to_owned();
        result.push((edges[i].0.clone(), name));
        i = i + 1;
    }
    result
}

/// The labels whose value names a cardinality, in their order, with that cardinality.
pub open spec fn named_cardinalities(values: Seq<(String, String)>) -> Seq<
    (String, EdgeCardinality),
>
    decreases values.len(),
{
    if values.len() == 0 {
        Seq::empty()
    } else {
        let rest = named_cardinalities(values.drop_last());
        match named_cardinality(values.last().1@) {
            Some(cardinality) => rest.push((values.last().0, cardinality)),
            None => rest,
        }
    }
}

/// Reads cardinalities back from their names, leaving out every value that names none.
pub fn edge_cardinalities_from_names(values: &Vec<(String, String)>) -> (result: Vec<
    (String, EdgeCardinality),
>)
    ensures
        result@ == named_cardinalities(values@),
{
    let mut result: Vec<(String, EdgeCardinality)> = Vec::new();
    let mut i: usize = 0;
    assert(values@.take(0) =~= Seq::empty());
    while i < values.len()
        invariant
            i <= values@.len(),
            result@ == named_cardinalities(values@.take(i as int)),
        decreases values.len() - i,
    {
        assert(values@.take(i + 1).drop_last() =~= values@.take(i as int));
        match edge_cardinality_from_name(values[i].1.as_str()) {
            Some(cardinality) => {
                result.push((values[i].0.clone(), cardinality));
            },
            None => {},
        }
        i = i + 1;
    }
    assert(values@.take(values@.len() as int) =~= values@);
    result
}

/// Writing the cardinalities of a schema as names and reading them back gives the
/// cardinality of every edge label.
pub proof fn cardinalities_survive_naming(
    edges: Seq<(String, EdgeEndpoints)>,
    names: Seq<(String, String)>,
)
    requires
        names.len() == edges.len(),
        forall|i: int|
            #![trigger names[i]]
            0 <= i < edges.len() ==> names[i].0 == edges[i].0 && names[i].1@ == cardinality_name(
                edges[i].1.cardinality,
            ),
    ensures
        named_cardinalities(names) == edges.map_values(
            |e: (String, EdgeEndpoints)| (e.0, e.1.cardinality),
        ),
    decreases edges.len(),
{
    if edges.len() > 0 {
        assert forall|i: int|
            #![trigger names.drop_last()[i]]
            0 <= i < edges.drop_last().len() implies names.drop_last()[i].0
            == edges.drop_last()[i].0 && names.drop_last()[i].1@ == cardinality_name(
            edges.drop_last()[i].1.cardinality,
        ) by {
            assert(names[i].0 == edges[i].0);
        }
        cardinalities_survive_naming(edges.drop_last(), names.drop_last());
        cardinality_names_read_back(edges.last().1.cardinality);
        assert(names[edges.len() - 1].0 == edges.last().0);
    }
    assert(named_cardinalities(names) =~= edges.map_values(
        |e: (String, EdgeEndpoints)| (e.0, e.1.cardinality),
    ));
}

/// The cardinality of every edge label of a schema.
pub fn edge_cardinalities_from_schema(edges: &SchemaEdges) -> (result: Vec<
    (String, EdgeCardinality),
>)
    ensures
        result@ == edges@.map_values(|e: (String, EdgeEndpoints)| (e.0, e.1.cardinality)),
{
    let mut result: Vec<(String, EdgeCardinality)> = Vec::new();
    let mut i: usize = 0;
    while i < edges.len()
        invariant
            i <= edges@.len(),
            result@.len() == i,
            forall|j: int|
                #![trigger result@[j]]
                0 <= j < i ==> result@[j] == (edges@[j].0, edges@[j].1.cardinality),
        decreases edges.len() - i,
    {
        result.push((edges[i].0.clone(), edges[i].1.cardinality));
        i = i + 1;
    }
    assert(result@ =~= edges@.map_values(|e: (String, EdgeEndpoints)| (e.0, e.1.cardinality)));
    result
}

/// The labels of an edge type by their numbers, as a catalog lists it.
#[derive(Debug)]
pub struct EdgeTypeRecord {
    pub edge_labels: Vec<u32>,
    pub src_labels: Vec<u32>,
    pub dst_labels: Vec<u32>,
}

/// Why the edge types of a catalog could not be read.
#[derive(Debug, Clone, Copy, PartialEq, Eq, Structural)]
pub enum CatalogError {
    EdgeTypeNotFound,
    EmptySrcLabelSet,
    EmptyDstLabelSet,
    EmptyEdgeLabelSet,
}

/// The name of a label number: that of its last entry, or `Unknown_` and the number.
pub open spec fn label_name(names: Seq<(u32, String)>, id: u32) -> Seq<char>
    decreases names.len(),
{
    if names.len() == 0 {
        "Unknown_"@ + decimal(id as nat)
    } else if names.last().0 == id {
        names.last().1@
    } else {
        label_name(names.drop_last(), id)
    }
}

fn name_of_label(names: &Vec<(u32, String)>, id: u32) -> (result: String)
    ensures
        result@ == label_name(names@, id),
{
    let mut i: usize = names.len();
    assert(names@.take(names@.len() as int) =~= names@);
    while i > 0
        invariant
            i <= names@.len(),
            label_name(names@, id) == label_name(names@.take(i as int), id),
        decreases i,
    {
        assert(names@.take(i as int).drop_last() =~= names@.take(i - 1));
        assert(names@.take(i as int).last() == names@[i - 1]);
        i = i - 1;
        if names[i].0 == id {
            return names[i].1.clone();
        }
    }
    let mut result: String = "Unknown_".to_owned();
    append_decimal(&mut result, id as u64);
    result
}

/// What a catalog's list of edge types says of each edge label, or why it says nothing. A
/// label that is listed again takes its later endpoints.
pub open spec fn catalog_edges(
    names: Seq<(u32, String)>,
    types: Seq<Option<EdgeTypeRecord>>,
) -> Result<Seq<(Seq<char>, (Seq<char>, Seq<char>, EdgeCardinality))>, CatalogError>
    decreases types.len(),
{
    if types.len() == 0 {
        Ok(Seq::empty())
    } else {
        match catalog_edges(names, types.drop_last()) {
            Err(error) => Err(error),
            Ok(edges) => match types.last() {
                None => Err(CatalogError::EdgeTypeNotFound),
                Some(record) => if record.src_labels@.len() == 0 {
                    Err(CatalogError::EmptySrcLabelSet)
                } else if record.dst_labels@.len() == 0 {
                    Err(CatalogError::EmptyDstLabelSet)
                } else if record.edge_labels@.len() == 0 {
                    Err(CatalogError::EmptyEdgeLabelSet)
                } else {
                    let name = label_name(names, record.edge_labels@[0]);
                    Ok(
                        put_edge(
                            edges,
                            name,
                            (
                                label_name(names, record.src_labels@[0]),
                                label_name(names, record.dst_labels@[0]),
                                manual_cardinality(name),
                            ),
                        ),
                    )
                },
            },
        }
    }
}

/// The edge types as labels and endpoints.
pub open spec fn edge_views(edges: Seq<(String, EdgeEndpoints)>) -> Seq<
    (Seq<char>, (Seq<char>, Seq<char>, EdgeCardinality)),
> {
    edges.map_values(
        |e: (String, EdgeEndpoints)|
            (e.0@, (e.1.src_label@, e.1.dst_label@, e.1.cardinality)),
    )
}

/// The list in which `label` stands for `value`: in its old place, or at the end.
pub open spec fn put_edge<V>(edges: Seq<(Seq<char>, V)>, label: Seq<char>, value: V) -> Seq<
    (Seq<char>, V),
>
    decreases edges.len(),
{
    if edges.len() == 0 {
        seq![(label, value)]
    } else if edges[0].0 == label {
        edges.update(0, (label, value))
    } else {
        seq![edges[0]] + put_edge(edges.drop_first(), label, value)
    }
}

proof fn lemma_put_edge<V>(edges: Seq<(Seq<char>, V)>, label: Seq<char>, value: V, i: int)
    requires
        0 <= i <= edges.len(),
        forall|j: int| 0 <= j < i ==> (#[trigger] edges[j]).0 != label,
        i < edges.len() ==> edges[i].0 == label,
    ensures
        put_edge(edges, label, value) == (if i < edges.len() {
            edges.update(i, (label, value))
        } else {
            edges.push((label, value))
        }),
    decreases edges.len(),
{
    if edges.len() > 0 && i > 0 {
        assert(edges[0].0 != label);
        assert forall|j: int| 0 <= j < i - 1 implies (#[trigger] edges.drop_first()[j]).0
            != label by {
            assert(edges[j + 1].0 != label);
        }
        lemma_put_edge(edges.drop_first(), label, value, i - 1);
    }
    assert(put_edge(edges, label, value) =~= (if i < edges.len() {
        edges.update(i, (label, value))
    } else {
        edges.push((label, value))
    }));
}

/// Keeping one entry per label keeps the labels distinct.
pub proof fn put_edge_keeps_labels_distinct<V>(
    edges: Seq<(Seq<char>, V)>,
    label: Seq<char>,
    value: V,
)
    requires
        forall|i: int, j: int|
            #![trigger edges[i], edges[j]]
            0 <= i < j < edges.len() ==> edges[i].0 != edges[j].0,
    ensures
        ({
            let after = put_edge(edges, label, value);
            forall|i: int, j: int|
                #![trigger after[i], after[j]]
                0 <= i < j < after.len() ==> after[i].0 != after[j].0
        }),
{
    if exists|i: int| 0 <= i < edges.len() && (#[trigger] edges[i]).0 == label {
        let i = choose|i: int| 0 <= i < edges.len() && (#[trigger] edges[i]).0 == label;
        assert forall|j: int| 0 <= j < i implies (#[trigger] edges[j]).0 != label by {
            assert(edges[j].0 != edges[i].0);
        }
        lemma_put_edge(edges, label, value, i);
    } else {
        lemma_put_edge(edges, label, value, edges.len() as int);
    }
}

/// The edge types of a catalog, given as label names and edge types by label numbers.
pub fn get_edges_from_catalog(
    names: &Vec<(u32, String)>,
    types: &Vec<Option<EdgeTypeRecord>>,
) -> (result: Result<SchemaEdges, CatalogError>)
    ensures
        match result {
            Ok(edges) => catalog_edges(names@, types@) == Ok::<
                Seq<(Seq<char>, (Seq<char>, Seq<char>, EdgeCardinality))>,
                CatalogError,
            >(edge_views(edges@)),
            Err(error) => catalog_edges(names@, types@) == Err::<
                Seq<(Seq<char>, (Seq<char>, Seq<char>, EdgeCardinality))>,
                CatalogError,
            >(error),
        },
{
    let mut edges: SchemaEdges = Vec::new();
    let mut i: usize = 0;
    assert(types@.take(0) =~= Seq::empty());
    assert(edge_views(edges@) =~= Seq::empty());
    while i < types.len()
        invariant
            i <= types@.len(),
            catalog_edges(names@, types@.take(i as int)) == Ok::<
                Seq<(Seq<char>, (Seq<char>, Seq<char>, EdgeCardinality))>,
                CatalogError,
            >(edge_views(edges@)),
        decreases types.len() - i,
    {
        proof {
            assert(types@.take(i + 1).drop_last() =~= types@.take(i as int));
            assert(types@.take(i + 1).last() == types@[i as int]);
        }
        let failure: Option<CatalogError> = match &types[i] {
            None => Some(CatalogError::EdgeTypeNotFound),
            Some(record) => if record.src_labels.len() == 0 {
                Some(CatalogError::EmptySrcLabelSet)
            } else if record.dst_labels.len() == 0 {
                Some(CatalogError::EmptyDstLabelSet)
            } else if record.edge_labels.len() == 0 {
                Some(CatalogError::EmptyEdgeLabelSet)
            } else {
                None
            },
        };
        if let Some(error) = failure {
            proof {
                lemma_catalog_error(names@, types@, i + 1);
            }
            return Err(error);
        }
        if let Some(record) = &types[i] {
            let edge_name = name_of_label(names, record.edge_labels[0]);
            let endpoints = EdgeEndpoints {
                src_label: name_of_label(names, record.src_labels[0]),
                dst_label: name_of_label(names, record.dst_labels[0]),
                cardinality: manual_edge_cardinality(edge_name.as_str()),
            };
            put_schema_edge(&mut edges, edge_name, endpoints);
        }
        i = i + 1;
    }
    assert(types@.take(types@.len() as int) =~= types@);
    Ok(edges)
}

proof fn lemma_catalog_error(
    names: Seq<(u32, String)>,
    types: Seq<Option<EdgeTypeRecord>>,
    i: int,
)
    requires
        0 <= i <= types.len(),
        catalog_edges(names, types.take(i)) is Err,
    ensures
        catalog_edges(names, types) == catalog_edges(names, types.take(i)),
    decreases types.len() - i,
{
    if i < types.len() {
        assert(types.take(i + 1).drop_last() =~= types.take(i));
        lemma_catalog_error(names, types, i + 1);
    } else {
        assert(types.take(i) =~= types);
    }
}

fn put_schema_edge(edges: &mut SchemaEdges, label: String, endpoints: EdgeEndpoints)
    ensures
        edge_views(final(edges)@) == put_edge(
            edge_views(old(edges)@),
            label@,
            (endpoints.src_label@, endpoints.dst_label@, endpoints.cardinality),
        ),
{
    let ghost value = (endpoints.src_label@, endpoints.dst_label@, endpoints.cardinality);
    let ghost views = edge_views(edges@);
    let mut i: usize = 0;
    while i < edges.len()
        invariant
            edges@ == old(edges)@,
            views == edge_views(edges@),
            value == (endpoints.src_label@, endpoints.dst_label@, endpoints.cardinality),
            i <= edges@.len(),
            forall|j: int| 0 <= j < i ==> (#[trigger] edges@[j]).0@ != label@,
        decreases edges.len() - i,
    {
        if edges[i].0 == label {
            proof {
                assert forall|j: int| 0 <= j < i implies (#[trigger] views[j]).0 != label@ by {
                    assert(edges@[j].0@ != label@);
                }
                lemma_put_edge(views, label@, value, i as int);
            }
            edges.set(i, (label, endpoints));
            assert(edge_views(edges@) =~= views.update(i as int, (label@, value)));
            return;
        }
        i = i + 1;
    }
    proof {
        assert forall|j: int| 0 <= j < i implies (#[trigger] views[j]).0 != label@ by {
            assert(edges@[j].0@ != label@);
        }
        lemma_put_edge(views, label@, value, i as int);
    }
    edges.push((label, endpoints));
    assert(edge_views(edges@) =~= views.push((label@, value)));
}

/// The first entry whose label is `label`, whatever the case of the letters.
pub open spec fn first_match<V>(entries: Seq<(String, V)>, label: Seq<char>) -> Option<int>
    decreases entries.len(),
{
    if entries.len() == 0 {
        None
    } else {
        match first_match(entries.drop_last(), label) {
            Some(i) => Some(i),
            None => if ascii_lower_label(entries.last().0@) == ascii_lower_label(label) {
                Some(entries.len() - 1)
            } else {
                None
            },
        }
    }
}

/// The first match is an entry whose label matches, and none before it does; there is no
/// first match exactly where no entry matches.
pub proof fn first_match_is_first<V>(entries: Seq<(String, V)>, label: Seq<char>)
    ensures
        match first_match(entries, label) {
            Some(i) => 0 <= i < entries.len() && ascii_lower_label(entries[i].0@)
                == ascii_lower_label(label) && forall|j: int|
                0 <= j < i ==> ascii_lower_label((#[trigger] entries[j]).0@) != ascii_lower_label(
                    label,
                ),
            None => forall|j: int|
                0 <= j < entries.len() ==> ascii_lower_label((#[trigger] entries[j]).0@)
                    != ascii_lower_label(label),
        },
    decreases entries.len(),
{
    if entries.len() > 0 {
        first_match_is_first(entries.drop_last(), label);
        assert(forall|j: int|
            0 <= j < entries.len() - 1 ==> #[trigger] entries[j] == entries.drop_last()[j]);
    }
}

proof fn lemma_first_match<V>(entries: Seq<(String, V)>, label: Seq<char>, i: int)
    requires
        0 <= i <= entries.len(),
        forall|j: int|
            0 <= j < i ==> ascii_lower_label((#[trigger] entries[j]).0@) != ascii_lower_label(
                label,
            ),
        i < entries.len() ==> ascii_lower_label(entries[i].0@) == ascii_lower_label(label),
    ensures
        first_match(entries, label) == (if i < entries.len() {
            Some(i)
        } else {
            None::<int>
        }),
{
    first_match_is_first(entries, label);
    match first_match(entries, label) {
        Some(k) => {
            if k < i {
                assert(ascii_lower_label(entries[k].0@) != ascii_lower_label(label));
            }
            if i < k {
                assert(ascii_lower_label(entries[i].0@) != ascii_lower_label(label));
            }
        },
        None => {
            if i < entries.len() {
                assert(ascii_lower_label(entries[i].0@) != ascii_lower_label(label));
            }
        },
    }
}

/// The endpoints of an edge type under the cardinalities of a list of overrides.
pub open spec fn overridden(
    overrides: Seq<(String, EdgeCardinality)>,
    edge: (String, EdgeEndpoints),
) -> EdgeCardinality {
    match first_match(overrides, edge.0@) {
        Some(i) => overrides[i].1,
        None => edge.1.cardinality,
    }
}

/// Gives every edge type the cardinality that the overrides list for its label, whatever the
/// case of the letters; where they list several the first one holds, where they list none the
/// edge type keeps its own.
pub fn override_cardinalities(
    edges: &SchemaEdges,
    overrides: &Vec<(String, EdgeCardinality)>,
) -> (result: SchemaEdges)
    ensures
        result@.len() == edges@.len(),
        forall|i: int|
            #![trigger result@[i]]
            0 <= i < edges@.len() ==> result@[i].0 == edges@[i].0 && result@[i].1 == (
            EdgeEndpoints { cardinality: overridden(overrides@, edges@[i]), ..edges@[i].1 }),
{
    let mut result: SchemaEdges = Vec::new();
    let mut i: usize = 0;
    while i < edges.len()
        invariant
            i <= edges@.len(),
            result@.len() == i,
            forall|j: int|
                #![trigger result@[j]]
                0 <= j < i ==> result@[j].0 == edges@[j].0 && result@[j].1 == (EdgeEndpoints {
                    cardinality: overridden(overrides@, edges@[j]),
                    ..edges@[j].1
                }),
        decreases edges.len() - i,
    {
        let mut k: usize = 0;
        while k < overrides.len() && !eq_ignore_ascii_case(
            overrides[k].0.as_str(),
            edges[i].0.as_str(),
        )
            invariant
                i < edges@.len(),
                k <= overrides@.len(),
                forall|j: int|
                    0 <= j < k ==> ascii_lower_label((#[trigger] overrides@[j]).0@)
                        != ascii_lower_label(edges@[i as int].0@),
            decreases overrides.len() - k,
        {
            k = k + 1;
        }
        proof {
            lemma_first_match(overrides@, edges@[i as int].0@, k as int);
        }
        let mut endpoints = edges[i].1.copy();
        if k < overrides.len() {
            endpoints.cardinality = overrides[k].1;
        }
        result.push((edges[i].0.clone(), endpoints));
        i = i + 1;
    }
    result
}

/// The edge types of a catalog under the cardinalities of a list of overrides.
pub fn get_edges_from_catalog_with_cardinalities(
    names: &Vec<(u32, String)>,
    types: &Vec<Option<EdgeTypeRecord>>,
    overrides: &Vec<(String, EdgeCardinality)>,
) -> (result: Result<SchemaEdges, CatalogError>)
    ensures
        match catalog_edges(names@, types@) {
            Ok(plain) => result matches Ok(edges) && edges@.len() == plain.len() && forall|i: int|
                #![trigger edges@[i]]
                0 <= i < plain.len() ==> edge_views(edges@)[i] == (
                    plain[i].0,
                    (
                        plain[i].1.0,
                        plain[i].1.1,
                        match first_match(overrides@, plain[i].0) {
                            Some(k) => overrides@[k].1,
                            None => plain[i].1.2,
                        },
                    ),
                ),
            Err(error) => result == Err::<SchemaEdges, CatalogError>(error),
        },
{
    match get_edges_from_catalog(names, types) {
        Ok(plain) => {
            let edges = override_cardinalities(&plain, overrides);
            assert forall|i: int| #![trigger edges@[i]] 0 <= i < plain@.len() implies edge_views(
                edges@,
            )[i] == (
                edge_views(plain@)[i].0,
                (
                    edge_views(plain@)[i].1.0,
                    edge_views(plain@)[i].1.1,
                    match first_match(overrides@, edge_views(plain@)[i].0) {
                        Some(k) => overrides@[k].1,
                        None => edge_views(plain@)[i].1.2,
                    },
                ),
            ) by {
                assert(edges@[i].0 == plain@[i].0);
            }
            Ok(edges)
        },
        Err(error) => Err(error),
    }
}

/// Why a description of edge cardinalities does not fit a schema. The numbers are positions
/// in the schema and in the description.
#[derive(Debug, Clone, Copy, PartialEq, Eq, Structural)]
pub enum SidecarError {
    /// The edge type at this position of the schema is not described.
    Missing(usize),
    /// The description gives this edge type other endpoints.
    EndpointMismatch(usize, usize),
    /// The description has an entry for an edge type that is not in the schema.
    Unknown(usize),
}

/// Whether a described edge type has the endpoints of one in the schema.
pub open spec fn same_endpoints(a: EdgeEndpoints, b: EdgeEndpoints) -> bool {
    ascii_lower_label(a.src_label@) == ascii_lower_label(b.src_label@) && ascii_lower_label(
        a.dst_label@,
    ) == ascii_lower_label(b.dst_label@)
}

/// Whether the edge type at a position of the schema is described, with its endpoints.
pub open spec fn described(
    edges: Seq<(String, EdgeEndpoints)>,
    sidecar: Seq<(String, EdgeEndpoints)>,
    i: int,
) -> bool {
    match first_match(sidecar, edges[i].0@) {
        Some(k) => same_endpoints(sidecar[k].1, edges[i].1),
        None => false,
    }
}

/// Gives every edge type of a schema the cardinality that a description says. The description
/// must cover the schema, with the same endpoints, and nothing else.
pub fn apply_sidecar(edges: &SchemaEdges, sidecar: &SchemaEdges) -> (result: Result<
    SchemaEdges,
    SidecarError,
>)
    ensures
        match result {
            Ok(described_edges) => {
                &&& described_edges@.len() == edges@.len()
                &&& forall|i: int|
                    #![trigger described_edges@[i]]
                    0 <= i < edges@.len() ==> described(edges@, sidecar@, i)
                        && described_edges@[i].0 == edges@[i].0 && described_edges@[i].1 == (
                    EdgeEndpoints {
                        cardinality: sidecar@[first_match(sidecar@, edges@[i].0@)->0].1.cardinality,
                        ..edges@[i].1
                    })
                &&& forall|k: int|
                    0 <= k < sidecar@.len() ==> first_match(
                        edges@,
                        (#[trigger] sidecar@[k]).0@,
                    ) is Some
            },
            Err(SidecarError::Missing(i)) => {
                &&& i < edges@.len()
                &&& forall|j: int| 0 <= j < i ==> #[trigger] described(edges@, sidecar@, j)
                &&& first_match(sidecar@, edges@[i as int].0@) is None
            },
            Err(SidecarError::EndpointMismatch(i, k)) => {
                &&& i < edges@.len()
                &&& forall|j: int| 0 <= j < i ==> #[trigger] described(edges@, sidecar@, j)
                &&& first_match(sidecar@, edges@[i as int].0@) == Some(k as int)
                &&& !same_endpoints(sidecar@[k as int].1, edges@[i as int].1)
            },
            Err(SidecarError::Unknown(k)) => {
                &&& k < sidecar@.len()
                &&& forall|i: int|
                    0 <= i < edges@.len() ==> #[trigger] described(edges@, sidecar@, i)
                &&& first_match(edges@, sidecar@[k as int].0@) is None
                &&& forall|j: int|
                    0 <= j < k ==> first_match(edges@, (#[trigger] sidecar@[j]).0@) is Some
            },
        },
{
    let mut result: SchemaEdges = Vec::new();
    let mut i: usize = 0;
    while i < edges.len()
        invariant
            i <= edges@.len(),
            result@.len() == i,
            forall|j: int| 0 <= j < i ==> #[trigger] described(edges@, sidecar@, j),
            forall|j: int|
                #![trigger result@[j]]
                0 <= j < i ==> result@[j].0 == edges@[j].0 && result@[j].1 == (EdgeEndpoints {
                    cardinality: sidecar@[first_match(sidecar@, edges@[j].0@)->0].1.cardinality,
                    ..edges@[j].1
                }),
        decreases edges.len() - i,
    {
        match find_entry(sidecar, edges[i].0.as_str()) {
            None => {
                return Err(SidecarError::Missing(i));
            },
            Some(k) => {
                proof {
                    first_match_is_first(sidecar@, edges@[i as int].0@);
                }
                if !eq_ignore_ascii_case(
                    sidecar[k].1.src_label.as_str(),
                    edges[i].1.src_label.as_str(),
                ) || !eq_ignore_ascii_case(
                    sidecar[k].1.dst_label.as_str(),
                    edges[i].1.dst_label.as_str(),
                ) {
                    return Err(SidecarError::EndpointMismatch(i, k));
                }
                let mut endpoints = edges[i].1.copy();
                endpoints.cardinality = sidecar[k].1.cardinality;
                result.push((edges[i].0.clone(), endpoints));
            },
        }
        assert(described(edges@, sidecar@, i as int));
        i = i + 1;
    }
    let mut k: usize = 0;
    while k < sidecar.len()
        invariant
            k <= sidecar@.len(),
            forall|j: int| 0 <= j < edges@.len() ==> #[trigger] described(edges@, sidecar@, j),
            forall|j: int| 0 <= j < k ==> first_match(edges@, (#[trigger] sidecar@[j]).0@) is Some,
        decreases sidecar.len() - k,
    {
        if find_entry(edges, sidecar[k].0.as_str()).is_none() {
            return Err(SidecarError::Unknown(k));
        }
        k = k + 1;
    }
    Ok(result)
}

fn find_entry(entries: &SchemaEdges, label: &str) -> (result: Option<usize>)
    ensures
        match result {
            Some(i) => first_match(entries@, label@) == Some(i as int) && i < entries@.len(),
            None => first_match(entries@, label@) is None,
        },
{
    let mut i: usize = 0;
    while i < entries.len() && !eq_ignore_ascii_case(entries[i].0.as_str(), label)
        invariant
            i <= entries@.len(),
            forall|j: int|
                0 <= j < i ==> ascii_lower_label((#[trigger] entries@[j]).0@) != ascii_lower_label(
                    label@,
                ),
        decreases entries.len() - i,
    {
        i = i + 1;
    }
    proof {
        lemma_first_match(entries@, label@, i as int);
    }
    if i < entries.len() {
        Some(i)
    } else {
        None
    }
}

/// The steps that lead from a vertex label to a neighbouring one: every edge type at the
/// label, with the label at its other end. An edge type can be walked both ways.
pub open spec fn steps_from(edges: Seq<(String, EdgeEndpoints)>, label: Seq<char>) -> Seq<
    (String, String),
>
    decreases edges.len(),
{
    if edges.len() == 0 {
        Seq::empty()
    } else {
        let before = steps_from(edges.drop_last(), label);
        let (edge, endpoints) = edges.last();
        let forth = if endpoints.src_label@ == label {
            before.push((edge, endpoints.dst_label))
        } else {
            before
        };
        if endpoints.dst_label@ == label {
            forth.push((edge, endpoints.src_label))
        } else {
            forth
        }
    }
}

/// Whether a vertex label is an endpoint of one of the edge types.
pub open spec fn is_endpoint(edges: Seq<(String, EdgeEndpoints)>, label: Seq<char>) -> bool {
    exists|i: int|
        0 <= i < edges.len() && ((#[trigger] edges[i]).1.src_label@ == label
            || edges[i].1.dst_label@ == label)
}

/// A list of steps for each vertex label.
pub type Adjacency = Vec<(String, Vec<(String, String)>)>;

/// Whether an adjacency list has exactly the endpoints of the edge types, each once, with the
/// steps that lead from it.
pub open spec fn is_adjacency(
    adjacency: Seq<(String, Vec<(String, String)>)>,
    edges: Seq<(String, EdgeEndpoints)>,
) -> bool {
    &&& forall|i: int, j: int|
        #![trigger adjacency[i], adjacency[j]]
        0 <= i < j < adjacency.len() ==> adjacency[i].0@ != adjacency[j].0@
    &&& forall|i: int|
        #![trigger adjacency[i]]
        0 <= i < adjacency.len() ==> adjacency[i].1@ == steps_from(edges, adjacency[i].0@)
            && is_endpoint(edges, adjacency[i].0@)
    &&& forall|label: Seq<char>| #[trigger]
        is_endpoint(edges, label) ==> listed(adjacency, label)
}

/// Whether a label has an entry in an adjacency list.
pub open spec fn listed(
    adjacency: Seq<(String, Vec<(String, String)>)>,
    label: Seq<char>,
) -> bool {
    exists|i: int| 0 <= i < adjacency.len() && (#[trigger] adjacency[i]).0@ == label
}

/// Adds a step to the list of a label, which gets one where it has none yet.
fn add_step(adjacency: &mut Adjacency, label: &String, edge: &String, other: &String)
    requires
        forall|i: int, j: int|
            #![trigger old(adjacency)@[i], old(adjacency)@[j]]
            0 <= i < j < old(adjacency)@.len() ==> old(adjacency)@[i].0@ != old(adjacency)@[j].0@,
    ensures
        forall|i: int, j: int|
            #![trigger final(adjacency)@[i], final(adjacency)@[j]]
            0 <= i < j < final(adjacency)@.len() ==> final(adjacency)@[i].0@
                != final(adjacency)@[j].0@,
        final(adjacency)@.len() >= old(adjacency)@.len(),
        final(adjacency)@.len() <= old(adjacency)@.len() + 1,
        forall|i: int|
            #![trigger final(adjacency)@[i]]
            0 <= i < old(adjacency)@.len() ==> final(adjacency)@[i].0 == old(adjacency)@[i].0
                && final(adjacency)@[i].1@ == (if old(adjacency)@[i].0@ == label@ {
                old(adjacency)@[i].1@.push((*edge, *other))
            } else {
                old(adjacency)@[i].1@
            }),
        listed(old(adjacency)@, label@) ==> final(adjacency)@.len() == old(adjacency)@.len(),
        !listed(old(adjacency)@, label@) ==> final(adjacency)@.len() == old(adjacency)@.len() + 1
            && final(adjacency)@[old(adjacency)@.len() as int].0 == *label
            && final(adjacency)@[old(adjacency)@.len() as int].1@ == seq![(*edge, *other)],
{
    let mut i: usize = 0;
    while i < adjacency.len()
        invariant
            adjacency@ == old(adjacency)@,
            forall|i: int, j: int|
                #![trigger old(adjacency)@[i], old(adjacency)@[j]]
                0 <= i < j < old(adjacency)@.len() ==> old(adjacency)@[i].0@
                    != old(adjacency)@[j].0@,
            i <= adjacency@.len(),
            forall|j: int| 0 <= j < i ==> (#[trigger] adjacency@[j]).0@ != label@,
        decreases adjacency.len() - i,
    {
        if adjacency[i].0 == *label {
            adjacency[i].1.push((edge.clone(), other.clone()));
            assert(listed(old(adjacency)@, label@)) by {
                assert(old(adjacency)@[i as int].0@ == label@);
            }
            assert forall|k: int| #![trigger adjacency@[k]] 0 <= k < adjacency@.len() implies (
            adjacency@[k].0 == old(adjacency)@[k].0) by {
                assert(k == i || adjacency@[k] == old(adjacency)@[k]);
            }
            assert forall|k: int|
                #![trigger adjacency@[k]]
                0 <= k < adjacency@.len() && k != i implies old(adjacency)@[k].0@ != label@ by {
                if k > i {
                    assert(old(adjacency)@[i as int].0@ != old(adjacency)@[k].0@);
                } else {
                    assert(old(adjacency)@[k].0@ != label@);
                }
            }
            return;
        }
        i = i + 1;
    }
    assert(!listed(old(adjacency)@, label@));
    let mut steps: Vec<(String, String)> = Vec::new();
    steps.push((edge.clone(), other.clone()));
    assert(steps@ =~= seq![(*edge, *other)]);
    adjacency.push((label.clone(), steps));
}

proof fn lemma_no_steps(edges: Seq<(String, EdgeEndpoints)>, label: Seq<char>)
    requires
        !is_endpoint(edges, label),
    ensures
        steps_from(edges, label) == Seq::<(String, String)>::empty(),
    decreases edges.len(),
{
    if edges.len() > 0 {
        assert(edges[edges.len() - 1].1.src_label@ != label);
        assert forall|i: int| 0 <= i < edges.drop_last().len() implies !((
        #[trigger] edges.drop_last()[i]).1.src_label@ == label || edges.drop_last()[i].1.dst_label@
            == label) by {
            assert(edges[i].1.src_label@ != label);
        }
        lemma_no_steps(edges.drop_last(), label);
    }
}

proof fn lemma_more_endpoints(
    done: Seq<(String, EdgeEndpoints)>,
    more: Seq<(String, EdgeEndpoints)>,
    label: Seq<char>,
)
    requires
        more.len() == done.len() + 1,
        more.drop_last() == done,
    ensures
        is_endpoint(more, label) <==> is_endpoint(done, label) || more.last().1.src_label@ == label
            || more.last().1.dst_label@ == label,
{
    if is_endpoint(done, label) {
        let i = choose|i: int|
            0 <= i < done.len() && ((#[trigger] done[i]).1.src_label@ == label
                || done[i].1.dst_label@ == label);
        assert(more[i] == done[i]);
    }
    if more.last().1.src_label@ == label || more.last().1.dst_label@ == label {
        assert(more[more.len() - 1] == more.last());
    }
    if is_endpoint(more, label) {
        let i = choose|i: int|
            0 <= i < more.len() && ((#[trigger] more[i]).1.src_label@ == label
                || more[i].1.dst_label@ == label);
        if i < done.len() {
            assert(more[i] == done[i]);
        }
    }
}

/// The neighbours of every vertex label, over edge types walked in both directions.
pub fn build_undirected_adj(edges: &SchemaEdges) -> (result: Adjacency)
    ensures
        is_adjacency(result@, edges@),
{
    let mut adjacency: Adjacency = Vec::new();
    let mut i: usize = 0;
    assert(edges@.take(0) =~= Seq::empty());
    while i < edges.len()
        invariant
            i <= edges@.len(),
            is_adjacency(adjacency@, edges@.take(i as int)),
        decreases edges.len() - i,
    {
        let ghost before = adjacency@;
        let ghost done = edges@.take(i as int);
        let ghost more = edges@.take(i + 1);
        proof {
            assert(more.drop_last() =~= done);
            assert(more.last() == edges@[i as int]);
        }
        add_step(&mut adjacency, &edges[i].1.src_label, &edges[i].0, &edges[i].1.dst_label);
        let ghost half = adjacency@;
        add_step(&mut adjacency, &edges[i].1.dst_label, &edges[i].0, &edges[i].1.src_label);
        proof {
            let src = edges@[i as int].1.src_label@;
            let dst = edges@[i as int].1.dst_label@;
            if !listed(before, src) {
                assert(!is_endpoint(done, src));
                lemma_no_steps(done, src);
            }
            if !listed(half, dst) {
                assert(!listed(before, dst)) by {
                    if listed(before, dst) {
                        let k = choose|k: int| 0 <= k < before.len() && (#[trigger] before[k]).0@ == dst;
                        assert(half[k].0@ == dst);
                    }
                }
                assert(!is_endpoint(done, dst));
                lemma_no_steps(done, dst);
                assert(src != dst) by {
                    if listed(before, src) {
                        let k = choose|k: int| 0 <= k < before.len() && (#[trigger] before[k]).0@ == src;
                        assert(half[k].0@ == src);
                    } else {
                        assert(half[before.len() as int].0@ == src);
                    }
                }
            }
            assert forall|k: int| #![trigger adjacency@[k]] 0 <= k < adjacency@.len() implies (
            adjacency@[k].1@ == steps_from(more, adjacency@[k].0@) && is_endpoint(
                more,
                adjacency@[k].0@,
            )) by {
                lemma_more_endpoints(done, more, adjacency@[k].0@);
                if k < before.len() {
                    assert(half[k].0 == before[k].0);
                } else if k < half.len() {
                    assert(half[k].0@ == src);
                }
                assert(adjacency@[k].1@ =~= steps_from(more, adjacency@[k].0@));
            }
            assert forall|label: Seq<char>| #[trigger] is_endpoint(more, label) implies listed(
                adjacency@,
                label,
            ) by {
                lemma_more_endpoints(done, more, label);
                if is_endpoint(done, label) {
                    let k = choose|k: int| 0 <= k < before.len() && (#[trigger] before[k]).0@ == label;
                    assert(half[k].0@ == label);
                    assert(adjacency@[k].0@ == label);
                } else if label == src {
                    if listed(before, src) {
                        let k = choose|k: int| 0 <= k < before.len() && (#[trigger] before[k]).0@ == src;
                        assert(half[k].0@ == label);
                        assert(adjacency@[k].0@ == label);
                    } else {
                        assert(half[before.len() as int].0@ == src);
                        assert(adjacency@[before.len() as int].0@ == src);
                    }
                } else {
                    if listed(half, dst) {
                        let k = choose|k: int| 0 <= k < half.len() && (#[trigger] half[k]).0@ == dst;
                        assert(adjacency@[k].0@ == label);
                    } else {
                        assert(adjacency@[half.len() as int].0@ == dst);
                    }
                }
            }
        }
        i = i + 1;
    }
    assert(edges@.take(edges@.len() as int) =~= edges@);
    adjacency
}

/// The name of a label number is that of the last entry with it; where there is none, it holds the
/// number.
pub proof fn labels_are_named_last(names: Seq<(u32, String)>, id: u32)
    ensures
        (exists|i: int| #[trigger]
            is_last_name(names, id, i) && label_name(names, id) == names[i].1@) || ((forall|i: int|
            #![trigger names[i]]
            0 <= i < names.len() ==> names[i].0 != id) && label_name(names, id) == "Unknown_"@
            + decimal(id as nat)),
    decreases names.len(),
{
    if names.len() > 0 {
        let n = names.len() - 1;
        let fewer = names.drop_last();
        if names[n].0 == id {
            assert(is_last_name(names, id, n));
        } else {
            labels_are_named_last(fewer, id);
            if exists|i: int| #[trigger]
                is_last_name(fewer, id, i) && label_name(fewer, id) == fewer[i].1@ {
                let i = choose|i: int| #[trigger]
                    is_last_name(fewer, id, i) && label_name(fewer, id) == fewer[i].1@;
                assert forall|j: int| #![trigger names[j]] i < j < names.len() implies names[j].0
                    != id by {
                    if j < n {
                        assert(fewer[j] == names[j]);
                    }
                }
                assert(is_last_name(names, id, i));
            } else {
                assert forall|j: int| #![trigger names[j]] 0 <= j < names.len() implies names[j].0
                    != id by {
                    if j < n {
                        assert(fewer[j] == names[j]);
                    }
                }
            }
        }
    }
}

/// Whether an entry is the last for a label number.
pub open spec fn is_last_name(names: Seq<(u32, String)>, id: u32, i: int) -> bool {
    &&& 0 <= i < names.len()
    &&& names[i].0 == id
    &&& forall|j: int| #![trigger names[j]] i < j < names.len() ==> names[j].0 != id
}

/// A value that is put under a label is then there, once where no label was there twice; what is
/// under any other label stays.
pub proof fn put_edges_replace_only_their_label<V>(
    edges: Seq<(Seq<char>, V)>,
    label: Seq<char>,
    value: V,
    other: (Seq<char>, V),
)
    ensures
        put_edge(edges, label, value).contains((label, value)),
        other.0 != label ==> (put_edge(edges, label, value).contains(other) <==> edges.contains(
            other,
        )),
    decreases edges.len(),
{
    let all = put_edge(edges, label, value);
    if edges.len() == 0 {
        assert(all[0] == (label, value));
    } else if edges[0].0 == label {
        assert(all[0] == (label, value));
        if other.0 != label {
            if edges.contains(other) {
                let i = choose|i: int| 0 <= i < edges.len() && edges[i] == other;
                assert(all[i] == other);
            }
            if all.contains(other) {
                let i = choose|i: int| 0 <= i < all.len() && all[i] == other;
                assert(edges[i] == other);
            }
        }
    } else {
        let rest = edges.drop_first();
        let after = put_edge(rest, label, value);
        put_edges_replace_only_their_label(rest, label, value, other);
        let k = choose|k: int| 0 <= k < after.len() && after[k] == (label, value);
        assert(all[k + 1] == (label, value));
        if other.0 != label {
            if edges.contains(other) {
                let i = choose|i: int| 0 <= i < edges.len() && edges[i] == other;
                if i == 0 {
                    assert(all[0] == other);
                } else {
                    assert(rest[i - 1] == other);
                    assert(after.contains(other));
                    let j = choose|j: int| 0 <= j < after.len() && after[j] == other;
                    assert(all[j + 1] == other);
                }
            }
            if all.contains(other) {
                let i = choose|i: int| 0 <= i < all.len() && all[i] == other;
                if i == 0 {
                    assert(edges[0] == other);
                } else {
                    assert(after[i - 1] == other);
                    assert(rest.contains(other));
                    let j = choose|j: int| 0 <= j < rest.len() && rest[j] == other;
                    assert(edges[j + 1] == other);
                }
            }
        }
    }
}

/// The steps from a vertex label are along the edge types that start at it, to where they end, and
/// along those that end at it, to where they start.
pub proof fn steps_lead_to_the_other_end(
    edges: Seq<(String, EdgeEndpoints)>,
    label: Seq<char>,
    step: (String, String),
)
    ensures
        steps_from(edges, label).contains(step) <==> exists|i: int|
            0 <= i < edges.len() && (#[trigger] edges[i]).0 == step.0 && ((edges[i].1.src_label@
                == label && edges[i].1.dst_label == step.1) || (edges[i].1.dst_label@ == label
                && edges[i].1.src_label == step.1)),
    decreases edges.len(),
{
    if edges.len() > 0 {
        let n = edges.len() - 1;
        let fewer = edges.drop_last();
        let before = steps_from(fewer, label);
        let all = steps_from(edges, label);
        steps_lead_to_the_other_end(fewer, label, step);
        assert(forall|k: int| 0 <= k < before.len() ==> all[k] == before[k]);
        if all.contains(step) {
            if before.contains(step) {
                let i = choose|i: int|
                    0 <= i < fewer.len() && (#[trigger] fewer[i]).0 == step.0 && ((
                    fewer[i].1.src_label@ == label && fewer[i].1.dst_label == step.1) || (
                    fewer[i].1.dst_label@ == label && fewer[i].1.src_label == step.1));
                assert(edges[i] == fewer[i]);
            } else {
                let k = choose|k: int| 0 <= k < all.len() && all[k] == step;
                if k < before.len() {
                    assert(before[k] == step);
                }
                assert(edges[n].0 == step.0);
            }
        }
        if exists|i: int|
            0 <= i < edges.len() && (#[trigger] edges[i]).0 == step.0 && ((edges[i].1.src_label@
                == label && edges[i].1.dst_label == step.1) || (edges[i].1.dst_label@ == label
                && edges[i].1.src_label == step.1)) {
            let i = choose|i: int|
                0 <= i < edges.len() && (#[trigger] edges[i]).0 == step.0 && ((
                edges[i].1.src_label@ == label && edges[i].1.dst_label == step.1) || (
                edges[i].1.dst_label@ == label && edges[i].1.src_label == step.1));
            if i < n {
                assert(fewer[i] == edges[i]);
                assert(before.contains(step));
                let k = choose|k: int| 0 <= k < before.len() && before[k] == step;
                assert(all[k] == step);
            } else if edges[i].1.src_label@ == label && edges[i].1.dst_label == step.1 {
                assert(all[before.len() as int] == step);
            } else {
                assert(all[all.len() - 1] == step);
            }
        }
    }
}

} // verus!
