use dashmap::DashMap;
use gcard::branches::StarError;
use gcard::catalog::{DegreeSeqGraph, PathAlias};
use gcard::decompositions::{BuildError, Decompositions, QueryDecomposition};
use gcard::estimate::VertexEstimate;
use gcard::flat::{FlatError, FlatGraph, FlatGraphBuilder};
use gcard::matching::find_matching_star;
use gcard::path_query::{
    EdgeDirection, FlatCompiledPathQuery, FlatCompiledStep, PathElement, PathQuery,
};
use gcard::paths::Path;
use gcard::pattern::{make_alt_key, PathPattern, StarStatKey};
use gcard::query::{
    AbstractEdgeDef, EdgeDef, PredicateDef, Query, QueryGraph, VertexDef,
};
use gcard::raw_stars::{Extraction, PredicateApplyType};
use gcard::sampling::CenterSample;
use gcard::schema::EdgeCardinality;
use gcard::value::{ComparisonOp, ScalarValue};
use std::collections::{HashMap, HashSet};

fn vertex(id: u64, label: &str) -> VertexDef {
    VertexDef { id, label: label.to_string() }
}

fn edge(id: u64, label: &str, src: u64, dst: u64) -> EdgeDef {
    EdgeDef { id, label: label.to_string(), src, dst }
}

fn predicate(target: &str, id: u32, property: &str, op: ComparisonOp, value: ScalarValue) -> PredicateDef {
    PredicateDef {
        predicate_id: None,
        target: target.to_string(),
        id,
        property: property.to_string(),
        op,
        value,
        values: Vec::new(),
    }
}

fn texts(labels: &[&str]) -> Vec<String> {
    labels.iter().map(|l| l.to_string()).collect()
}

fn arm(center: &str, leaf: &str, edge: &str) -> PathPattern {
    PathPattern::new_without_reverse(texts(&[center, leaf]), texts(&[edge]))
}

fn pivots_of(graph: &QueryGraph) -> Vec<u64> {
    let mut ids: Vec<u64> =
        graph.vertices.iter().map(|v| v.id).filter(|&v| graph.get_degree(v) != 2).collect();
    ids.sort_unstable();
    ids
}

fn build(
    graph: &QueryGraph,
    k: usize,
    tree_num: usize,
    catalog: &DegreeSeqGraph,
    data: Option<&FlatGraph>,
    sample_size: usize,
    mode: PredicateApplyType,
) -> QueryDecomposition {
    let cardinalities: HashMap<u64, u64> = HashMap::new();
    let mut cache: DashMap<String, Vec<u64>> = DashMap::new();
    graph
        .build_abstract_graph_flat(
            k,
            tree_num,
            &cardinalities,
            catalog,
            data,
            sample_size,
            mode,
            catalog.max_star_degree(),
            true,
            16,
            &pivots_of,
            "description",
            &mut cache,
        )
        .unwrap()
}

fn vertex_estimate(graph: &QueryGraph, data: &FlatGraph, sample_size: usize) -> VertexEstimate {
    match build(
        graph,
        2,
        10,
        &DegreeSeqGraph::new(),
        Some(data),
        sample_size,
        PredicateApplyType::INNER,
    ) {
        QueryDecomposition::SingleVertex { estimate, .. } => estimate,
        QueryDecomposition::Trees(_) => panic!("a query of one vertex has no trees"),
    }
}

fn exact(estimate: VertexEstimate) -> u64 {
    match estimate {
        VertexEstimate::Exact(n) => n,
        VertexEstimate::Sampled { .. } => panic!("all vertices are looked at"),
    }
}

fn only_tree(found: QueryDecomposition) -> Decompositions {
    match found {
        QueryDecomposition::Trees(mut trees) => {
            assert_eq!(trees.len(), 1);
            let (found, cost) = trees.remove(0);
            assert_eq!(cost, 0);
            found
        }
        QueryDecomposition::SingleVertex { .. } => panic!("the query has edges"),
    }
}

/// The rows that a sample of centers stands for.
fn rows(sample: &CenterSample, population: usize) -> f64 {
    match sample {
        CenterSample::Uniform { degrees, .. } => {
            let expansion = population as f64 / degrees.len() as f64;
            degrees.iter().map(|&d| d as f64 * expansion).sum()
        }
        CenterSample::Anchored { anchor_population, draws, observations, .. } => {
            let weights: Vec<(f64, f64)> = observations
                .iter()
                .map(|&(degree, anchor)| {
                    (
                        degree as f64,
                        *anchor_population as f64 / (draws.len() as f64 * anchor as f64),
                    )
                })
                .collect();
            let support: f64 = weights.iter().map(|w| w.1).sum();
            let scale = if support > population as f64 { population as f64 / support } else { 1.0 };
            weights.iter().map(|w| w.0 * w.1 * scale).sum()
        }
    }
}

fn star_rows(found: &Decompositions, population: usize) -> f64 {
    match &found.extraction {
        Some(Extraction::Stars(done)) => {
            assert_eq!(done.factors.len(), 1);
            rows(done.samples[0].as_ref().unwrap(), population)
        }
        _ => panic!("a star is taken out"),
    }
}

#[test]
fn single_vertex_query_uses_label_cardinality() {
    let query = Query {
        vertices: vec![vertex(1, "person")],
        edges: Vec::new(),
        predicates: Vec::new(),
    };
    let query_graph = query.build_graph().unwrap();
    let mut builder = FlatGraphBuilder::new();
    builder.add_vertex(1, "person", vec![]);
    builder.add_vertex(2, "person", vec![]);
    builder.add_vertex(3, "person", vec![]);
    let flat_graph = builder.build();
    assert_eq!(exact(vertex_estimate(&query_graph, &flat_graph, 100)), 3);
}

#[test]
fn single_vertex_query_applies_predicate_selectivity() {
    let query = Query {
        vertices: vec![vertex(1, "person")],
        edges: Vec::new(),
        predicates: vec![predicate(
            "vertex",
            1,
            "age",
            ComparisonOp::Eq,
            ScalarValue::Int64(Some(20)),
        )],
    };
    let query_graph = query.build_graph().unwrap();
    let mut builder = FlatGraphBuilder::new();
    builder.set_vertex_prop_schema("person", texts(&["age"]));
    builder.add_vertex(1, "person", vec![ScalarValue::Int64(Some(20))]);
    builder.add_vertex(2, "person", vec![ScalarValue::Int64(Some(20))]);
    builder.add_vertex(3, "person", vec![ScalarValue::Int64(Some(30))]);
    builder.add_vertex(4, "person", vec![ScalarValue::Int64(Some(30))]);
    let flat_graph = builder.build();
    assert_eq!(exact(vertex_estimate(&query_graph, &flat_graph, 100)), 2);
}

#[test]
fn single_vertex_query_samples_inclusive_boundary_predicate() {
    let query = Query {
        vertices: vec![vertex(1, "person")],
        edges: Vec::new(),
        predicates: vec![predicate(
            "vertex",
            1,
            "downvotes",
            ComparisonOp::Le,
            ScalarValue::Int64(Some(0)),
        )],
    };
    let query_graph = query.build_graph().unwrap();
    let mut builder = FlatGraphBuilder::new();
    builder.set_vertex_prop_schema("person", texts(&["downvotes"]));
    for vid in 0..98 {
        builder.add_vertex(vid, "person", vec![ScalarValue::Int64(Some(0))]);
    }
    builder.add_vertex(98, "person", vec![ScalarValue::Int64(Some(1))]);
    builder.add_vertex(99, "person", vec![ScalarValue::Int64(Some(1920))]);
    let flat_graph = builder.build();
    assert_eq!(exact(vertex_estimate(&query_graph, &flat_graph, 100)), 98);
}

#[test]
fn single_vertex_query_samples_predicates_jointly() {
    let query = Query {
        vertices: vec![vertex(1, "person")],
        edges: Vec::new(),
        predicates: vec![
            predicate("vertex", 1, "age", ComparisonOp::Eq, ScalarValue::Int64(Some(20))),
            predicate("vertex", 1, "downvotes", ComparisonOp::Eq, ScalarValue::Int64(Some(0))),
        ],
    };
    let query_graph = query.build_graph().unwrap();
    let mut builder = FlatGraphBuilder::new();
    builder.set_vertex_prop_schema("person", texts(&["age", "downvotes"]));
    for vid in 0..9u64 {
        let group = vid / 3;
        builder.add_vertex(
            vid,
            "person",
            vec![
                ScalarValue::Int64(Some(20 + group as i64 * 10)),
                ScalarValue::Int64(Some(group as i64)),
            ],
        );
    }
    let flat_graph = builder.build();
    assert_eq!(exact(vertex_estimate(&query_graph, &flat_graph, 9)), 3);
}

#[test]
fn single_vertex_predicate_preserves_middle_null_alignment() {
    let query = Query {
        vertices: vec![vertex(1, "person")],
        edges: Vec::new(),
        predicates: vec![predicate(
            "vertex",
            1,
            "city",
            ComparisonOp::Eq,
            ScalarValue::String(Some("Beijing".to_string())),
        )],
    };
    let query_graph = query.build_graph().unwrap();
    let mut builder = FlatGraphBuilder::new();
    builder.set_vertex_prop_schema("person", texts(&["name", "age", "city"]));
    builder.add_vertex(
        1,
        "person",
        vec![
            ScalarValue::String(Some("Alice".to_string())),
            ScalarValue::Null,
            ScalarValue::String(Some("Beijing".to_string())),
        ],
    );
    let flat_graph = builder.build();
    assert_eq!(exact(vertex_estimate(&query_graph, &flat_graph, 1)), 1);
}

#[test]
fn null_value_ne_predicate_is_not_true() {
    let query = Query {
        vertices: vec![vertex(1, "person")],
        edges: Vec::new(),
        predicates: vec![predicate(
            "vertex",
            1,
            "age",
            ComparisonOp::Ne,
            ScalarValue::Int64(Some(20)),
        )],
    };
    let query_graph = query.build_graph().unwrap();
    let mut builder = FlatGraphBuilder::new();
    builder.set_vertex_prop_schema("person", texts(&["age"]));
    builder.add_vertex(1, "person", vec![]);
    let flat_graph = builder.build();
    assert_eq!(exact(vertex_estimate(&query_graph, &flat_graph, 1)), 0);
}

fn single_vertex_string_predicate_cardinality(predicate: PredicateDef) -> u64 {
    let query = Query {
        vertices: vec![vertex(1, "cast_info")],
        edges: Vec::new(),
        predicates: vec![predicate],
    };
    let query_graph = query.build_graph().unwrap();
    let mut builder = FlatGraphBuilder::new();
    builder.set_vertex_prop_schema("cast_info", texts(&["note"]));
    builder.add_vertex(
        1,
        "cast_info",
        vec![ScalarValue::String(Some("(voice) (uncredited)".to_string()))],
    );
    builder.add_vertex(2, "cast_info", vec![ScalarValue::String(Some("producer".to_string()))]);
    builder.add_vertex(3, "cast_info", vec![ScalarValue::String(Some("Money".to_string()))]);
    builder.add_vertex(4, "cast_info", vec![ScalarValue::String(None)]);
    let flat_graph = builder.build();
    exact(vertex_estimate(&query_graph, &flat_graph, 100))
}

fn string_predicate(op: ComparisonOp, value: ScalarValue, values: Vec<ScalarValue>) -> PredicateDef {
    PredicateDef {
        predicate_id: None,
        target: "vertex".to_string(),
        id: 1,
        property: "note".to_string(),
        op,
        value,
        values,
    }
}

#[test]
fn single_vertex_query_supports_job_m_filter_operators() {
    assert_eq!(
        single_vertex_string_predicate_cardinality(string_predicate(
            ComparisonOp::In,
            ScalarValue::Null,
            vec![
                ScalarValue::String(Some("producer".to_string())),
                ScalarValue::String(Some("Money".to_string())),
            ],
        )),
        2
    );
    assert_eq!(
        single_vertex_string_predicate_cardinality(string_predicate(
            ComparisonOp::Like,
            ScalarValue::String(Some("%(voice)%".to_string())),
            Vec::new(),
        )),
        1
    );
    assert_eq!(
        single_vertex_string_predicate_cardinality(string_predicate(
            ComparisonOp::NotLike,
            ScalarValue::String(Some("%(voice)%".to_string())),
            Vec::new(),
        )),
        2
    );
    assert_eq!(
        single_vertex_string_predicate_cardinality(string_predicate(
            ComparisonOp::IsNull,
            ScalarValue::Null,
            Vec::new(),
        )),
        1
    );
    assert_eq!(
        single_vertex_string_predicate_cardinality(string_predicate(
            ComparisonOp::IsNotNull,
            ScalarValue::Null,
            Vec::new(),
        )),
        3
    );
}

fn scalar_of(value: &serde_json::Value) -> ScalarValue {
    match value.get("String").and_then(|v| v.as_str()) {
        Some(text) => ScalarValue::String(Some(text.to_string())),
        None => ScalarValue::Null,
    }
}

fn query_of(text: &str) -> Query {
    let json: serde_json::Value = serde_json::from_str(text).unwrap();
    let list = |key: &str| json[key].as_array().unwrap().clone();
    let number = |v: &serde_json::Value, key: &str| v[key].as_u64().unwrap();
    let string = |v: &serde_json::Value, key: &str| v[key].as_str().unwrap().to_string();
    Query {
        vertices: list("vertices")
            .iter()
            .map(|v| VertexDef { id: number(v, "id"), label: string(v, "label") })
            .collect(),
        edges: list("edges")
            .iter()
            .map(|e| EdgeDef {
                id: number(e, "id"),
                label: string(e, "label"),
                src: number(e, "src"),
                dst: number(e, "dst"),
            })
            .collect(),
        predicates: list("predicates")
            .iter()
            .map(|p| PredicateDef {
                predicate_id: None,
                target: string(p, "target"),
                id: number(p, "id") as u32,
                property: string(p, "property"),
                op: match string(p, "op").as_str() {
                    "in" => ComparisonOp::In,
                    "like" => ComparisonOp::Like,
                    "is_not_null" => ComparisonOp::IsNotNull,
                    _ => ComparisonOp::Eq,
                },
                value: scalar_of(&p["value"]),
                values: match p["values"].as_array() {
                    Some(values) => values.iter().map(scalar_of).collect(),
                    None => Vec::new(),
                },
            })
            .collect(),
    }
}

#[test]
fn job_m_predicate_json_contract_is_validated() {
    let query = query_of(
        r#"{
            "vertices":[{"id":1,"label":"cast_info"}],
            "edges":[],
            "predicates":[
                {"target":"vertex","id":1,"property":"note","op":"in",
                 "values":[{"String":"producer"},{"String":"Money"}]},
                {"target":"vertex","id":1,"property":"note","op":"like",
                 "value":{"String":"%(voice)%"}},
                {"target":"vertex","id":1,"property":"note","op":"is_not_null"}
            ]
        }"#,
    );
    assert!(query.build_graph().is_ok());
    let invalid = query_of(
        r#"{
            "vertices":[{"id":1,"label":"cast_info"}],
            "edges":[],
            "predicates":[
                {"target":"vertex","id":1,"property":"note","op":"in","values":[]}
            ]
        }"#,
    );
    assert!(invalid.build_graph().is_err());
}

#[test]
fn single_vertex_partial_sample_zero_hit_uses_upper_bound() {
    let query = Query {
        vertices: vec![vertex(1, "person")],
        edges: Vec::new(),
        predicates: vec![predicate(
            "vertex",
            1,
            "age",
            ComparisonOp::Eq,
            ScalarValue::Int64(Some(20)),
        )],
    };
    let query_graph = query.build_graph().unwrap();
    let mut builder = FlatGraphBuilder::new();
    builder.set_vertex_prop_schema("person", texts(&["age"]));
    for vid in 0..100 {
        builder.add_vertex(vid, "person", vec![ScalarValue::Int64(Some(30))]);
    }
    let flat_graph = builder.build();
    match vertex_estimate(&query_graph, &flat_graph, 10) {
        VertexEstimate::Sampled { hits, evaluated, total } => {
            assert_eq!((hits, evaluated, total), (0, 80, 100));
            let upper = 1.0 - 0.05f64.powf(1.0 / evaluated as f64);
            assert!((total as f64 * upper).ceil() > 0.0);
        }
        VertexEstimate::Exact(_) => panic!("not all vertices are looked at"),
    }
    assert_eq!(exact(vertex_estimate(&query_graph, &flat_graph, 100)), 0);
}

#[test]
fn single_edge_query_builds_and_reduces_directly() {
    let query = Query {
        vertices: vec![vertex(1, "a"), vertex(2, "b")],
        edges: vec![edge(10, "e", 1, 2)],
        predicates: Vec::new(),
    };
    let query_graph = query.build_graph().unwrap();
    let path_key = make_alt_key(&texts(&["a", "b"]), &texts(&["e"]));
    let mut catalog = DegreeSeqGraph::new();
    catalog.edge_set_to_endpoints.push((
        path_key,
        vec![("a".to_string(), vec![2, 1]), ("b".to_string(), vec![1, 1, 1])],
    ));
    let found = only_tree(build(
        &query_graph,
        2,
        10,
        &catalog,
        None,
        100,
        PredicateApplyType::IGNORE,
    ));
    assert_eq!(found.plain.len(), 1);
    assert!(found.extraction.is_none());
    assert!(found.residual.is_empty());
    let filled = query_graph
        .build_abstract_graph_from_edges_flat(
            &found.plain[0],
            &Vec::new(),
            &catalog,
            false,
            PredicateApplyType::IGNORE,
            true,
            0,
            0,
        )
        .unwrap();
    assert_eq!(filled.graph.edges.len(), 1);
    assert_eq!(filled.fills[0].src_degrees.as_ref().unwrap().iter().sum::<u64>(), 3);
    assert_eq!(filled.fills[0].dst_degrees.as_ref().unwrap().iter().sum::<u64>(), 3);
    assert!(!filled.fills[0].samples);
    assert_eq!(filled.graph.edges[0].1.path_str, "a -> e ->b -> ");
}

#[test]
fn compiled_walk_plan_resolves_forward_and_reverse_csr_handles() {
    let mut builder = FlatGraphBuilder::new();
    builder.add_vertex(1, "a", vec![]);
    builder.add_vertex(2, "b", vec![]);
    builder.add_edge(100, 1, "a", 2, "b", "e", vec![]);
    let flat_graph = builder.build();
    let path_query = PathQuery {
        path_elements: vec![
            PathElement::Vertex { label: "a".to_string(), position: 0 },
            PathElement::Edge {
                label: "e".to_string(),
                position: 0,
                direction: EdgeDirection::Outgoing,
            },
            PathElement::Vertex { label: "b".to_string(), position: 1 },
        ],
        vertex_predicates: HashMap::new(),
        edge_predicates: HashMap::new(),
    };
    let plans = FlatCompiledPathQuery::compile_all(&path_query, &flat_graph).unwrap();
    let FlatCompiledStep::Edge { label, edge_label, outgoing, .. } = &plans[0].right_segment[0]
    else {
        panic!("right segment must begin with an edge");
    };
    assert_eq!(flat_graph.neighbors(label, edge_label, *outgoing, 1), vec![(2, 100)]);
    let FlatCompiledStep::Edge { label, edge_label, outgoing, .. } = &plans[1].left_segment[0]
    else {
        panic!("left segment must begin with an edge");
    };
    assert_eq!(flat_graph.neighbors(label, edge_label, *outgoing, 2), vec![(1, 100)]);
}

#[test]
fn compiled_walk_rejects_unknown_predicate_property() {
    let mut builder = FlatGraphBuilder::new();
    builder.set_vertex_prop_schema("person", texts(&["age"]));
    builder.add_vertex(1, "person", vec![ScalarValue::Int64(Some(20))]);
    let flat_graph = builder.build();
    let path_query = PathQuery {
        path_elements: vec![PathElement::Vertex { label: "person".to_string(), position: 0 }],
        vertex_predicates: HashMap::from([(
            0,
            vec![predicate(
                "vertex",
                1,
                "missing",
                ComparisonOp::Eq,
                ScalarValue::Int64(Some(1)),
            )],
        )]),
        edge_predicates: HashMap::new(),
    };
    assert!(FlatCompiledPathQuery::compile_all(&path_query, &flat_graph).is_err());
}

#[test]
fn star_degree_sequence_is_applied_as_center_local_pcf() {
    let query = Query {
        vertices: vec![vertex(1, "center"), vertex(2, "a"), vertex(3, "b"), vertex(4, "c")],
        edges: vec![edge(10, "e1", 1, 2), edge(11, "e2", 1, 3), edge(12, "e3", 1, 4)],
        predicates: Vec::new(),
    };
    let query_graph = query.build_graph().unwrap();
    let star_key = StarStatKey::new(
        "center".to_string(),
        vec![arm("center", "a", "e1"), arm("center", "b", "e2"), arm("center", "c", "e3")],
    );
    let mut catalog = DegreeSeqGraph::new();
    catalog.star_stats.push((star_key, vec![7; 6]));
    let found = only_tree(build(
        &query_graph,
        1,
        1,
        &catalog,
        None,
        0,
        PredicateApplyType::IGNORE,
    ));
    assert!(found.residual.iter().any(|edges| edges.is_empty()));
    let Some(Extraction::Stars(done)) = &found.extraction else {
        panic!("star-covered leaf arms should produce a local star");
    };
    assert_eq!(done.factors.len(), 1);
    assert_eq!(done.factors[0].center, 1);
    let place = catalog.find_star(&done.factors[0].star).unwrap();
    assert_eq!(catalog.star_stats[place].1.iter().sum::<u64>(), 42);
}

fn two_armed_star() -> StarStatKey {
    StarStatKey::new(
        "center".to_string(),
        vec![arm("center", "a", "to_a"), arm("center", "b", "to_b")],
    )
}

fn two_armed_query(predicates: Vec<PredicateDef>) -> QueryGraph {
    Query {
        vertices: vec![vertex(1, "center"), vertex(2, "a"), vertex(3, "b")],
        edges: vec![edge(10, "to_a", 1, 2), edge(11, "to_b", 1, 3)],
        predicates,
    }
    .build_graph()
    .unwrap()
}

#[test]
fn predicate_star_samples_leaf_filter_jointly_at_the_center() {
    let query_graph = two_armed_query(vec![predicate(
        "vertex",
        3,
        "keep",
        ComparisonOp::Eq,
        ScalarValue::Int64(Some(1)),
    )]);
    let mut builder = FlatGraphBuilder::new();
    builder.set_vertex_prop_schema("b", texts(&["keep"]));
    builder.add_vertex(100, "center", vec![]);
    builder.add_vertex(101, "center", vec![]);
    builder.add_vertex(200, "a", vec![]);
    builder.add_vertex(201, "a", vec![]);
    builder.add_vertex(202, "a", vec![]);
    builder.add_vertex(300, "b", vec![ScalarValue::Int64(Some(1))]);
    builder.add_vertex(301, "b", vec![ScalarValue::Int64(Some(0))]);
    builder.add_vertex(302, "b", vec![ScalarValue::Int64(Some(0))]);
    for vid in 200..=202 {
        builder.add_vertex(vid, "shadow_a", vec![]);
    }
    for vid in 300..=302 {
        builder.add_vertex(vid, "shadow_b", vec![]);
    }
    builder.add_edge(1000, 100, "center", 200, "a", "to_a", vec![]);
    builder.add_edge(1001, 100, "center", 201, "a", "to_a", vec![]);
    builder.add_edge(1002, 101, "center", 202, "a", "to_a", vec![]);
    builder.add_edge(1003, 100, "center", 300, "b", "to_b", vec![]);
    builder.add_edge(1004, 100, "center", 301, "b", "to_b", vec![]);
    builder.add_edge(1005, 101, "center", 302, "b", "to_b", vec![]);
    let flat_graph = builder.build();
    let mut catalog = DegreeSeqGraph::new();
    catalog.star_stats.push((two_armed_star(), vec![4, 1]));
    let found = only_tree(build(
        &query_graph,
        1,
        10,
        &catalog,
        Some(&flat_graph),
        10,
        PredicateApplyType::SCALE,
    ));
    assert!(found.residual.iter().any(|edges| edges.is_empty()));
    assert_eq!(star_rows(&found, 2), 2.0);
}

#[test]
fn predicate_star_edge_anchor_recovers_the_center_population() {
    let query_graph = two_armed_query(vec![predicate(
        "vertex",
        3,
        "keep",
        ComparisonOp::Eq,
        ScalarValue::Int64(Some(1)),
    )]);
    let mut builder = FlatGraphBuilder::new();
    builder.set_vertex_prop_schema("b", texts(&["keep"]));
    for offset in 0..20u64 {
        let center_id = 100 + offset;
        let a_id = 200 + offset;
        let b_id = 300 + offset;
        builder.add_vertex(center_id, "center", vec![]);
        builder.add_vertex(a_id, "a", vec![]);
        builder.add_vertex(b_id, "b", vec![ScalarValue::Int64(Some(1))]);
        builder.add_edge(1000 + offset, center_id, "center", a_id, "a", "to_a", vec![]);
        builder.add_edge(2000 + offset, center_id, "center", b_id, "b", "to_b", vec![]);
    }
    let flat_graph = builder.build();
    let mut catalog = DegreeSeqGraph::new();
    catalog.star_stats.push((two_armed_star(), vec![1; 20]));
    let found = only_tree(build(
        &query_graph,
        1,
        10,
        &catalog,
        Some(&flat_graph),
        5,
        PredicateApplyType::SCALE,
    ));
    assert!(found.residual.iter().any(|edges| edges.is_empty()));
    assert_eq!(star_rows(&found, 20), 20.0);
}

#[test]
fn predicate_star_applies_center_and_edge_filters_in_the_joint_sample() {
    let query_graph = two_armed_query(vec![
        predicate("vertex", 1, "active", ComparisonOp::Eq, ScalarValue::Int64(Some(1))),
        predicate("edge", 11, "allowed", ComparisonOp::Eq, ScalarValue::Int64(Some(1))),
    ]);
    let mut builder = FlatGraphBuilder::new();
    builder.set_vertex_prop_schema("center", texts(&["active"]));
    builder.set_edge_prop_schema("to_b", texts(&["allowed"]));
    builder.add_vertex(100, "center", vec![ScalarValue::Int64(Some(1))]);
    builder.add_vertex(101, "center", vec![ScalarValue::Int64(Some(0))]);
    builder.add_vertex(200, "a", vec![]);
    builder.add_vertex(201, "a", vec![]);
    builder.add_vertex(202, "a", vec![]);
    builder.add_vertex(300, "b", vec![]);
    builder.add_vertex(301, "b", vec![]);
    builder.add_vertex(302, "b", vec![]);
    builder.add_edge(1000, 100, "center", 200, "a", "to_a", vec![]);
    builder.add_edge(1001, 100, "center", 201, "a", "to_a", vec![]);
    builder.add_edge(1002, 101, "center", 202, "a", "to_a", vec![]);
    builder.add_edge(1003, 100, "center", 300, "b", "to_b", vec![ScalarValue::Int64(Some(1))]);
    builder.add_edge(1004, 100, "center", 301, "b", "to_b", vec![ScalarValue::Int64(Some(0))]);
    builder.add_edge(1005, 101, "center", 302, "b", "to_b", vec![ScalarValue::Int64(Some(1))]);
    let flat_graph = builder.build();
    let mut catalog = DegreeSeqGraph::new();
    catalog.star_stats.push((two_armed_star(), vec![4, 1]));
    let found = only_tree(build(
        &query_graph,
        1,
        10,
        &catalog,
        Some(&flat_graph),
        10,
        PredicateApplyType::SCALE,
    ));
    assert!(found.residual.iter().any(|edges| edges.is_empty()));
    assert_eq!(star_rows(&found, 2), 2.0);
}

#[test]
fn predicate_star_zero_hit_does_not_create_a_zero_candidate() {
    let query_graph = two_armed_query(vec![predicate(
        "vertex",
        3,
        "keep",
        ComparisonOp::Eq,
        ScalarValue::Int64(Some(1)),
    )]);
    let mut builder = FlatGraphBuilder::new();
    builder.set_vertex_prop_schema("b", texts(&["keep"]));
    builder.add_vertex(100, "center", vec![]);
    builder.add_vertex(200, "a", vec![]);
    builder.add_vertex(300, "b", vec![ScalarValue::Int64(Some(0))]);
    builder.add_edge(1000, 100, "center", 200, "a", "to_a", vec![]);
    builder.add_edge(1001, 100, "center", 300, "b", "to_b", vec![]);
    let flat_graph = builder.build();
    let mut catalog = DegreeSeqGraph::new();
    catalog.star_stats.push((two_armed_star(), vec![1]));
    let found = only_tree(build(
        &query_graph,
        1,
        10,
        &catalog,
        Some(&flat_graph),
        10,
        PredicateApplyType::SCALE,
    ));
    assert!(found.extraction.is_none());
    assert!(found.plain.iter().chain(found.residual.iter()).all(|edges| !edges.is_empty()));
}

#[test]
fn raw_star_does_not_consume_non_leaf_arms() {
    let query = Query {
        vertices: vec![
            vertex(1, "center"),
            vertex(2, "leaf"),
            vertex(3, "mid"),
            vertex(4, "tail"),
        ],
        edges: vec![
            edge(10, "e_leaf", 1, 2),
            edge(11, "e_mid", 1, 3),
            edge(12, "e_tail", 3, 4),
        ],
        predicates: Vec::new(),
    };
    let query_graph = query.build_graph().unwrap();
    let star_key = StarStatKey::new(
        "center".to_string(),
        vec![arm("center", "leaf", "e_leaf"), arm("center", "mid", "e_mid")],
    );
    let mut catalog = DegreeSeqGraph::new();
    catalog.star_stats.push((star_key, vec![7; 6]));
    let mut cache: DashMap<String, Vec<u64>> = DashMap::new();
    assert!(query_graph
        .extract_raw_star_local(
            &catalog,
            None,
            0,
            PredicateApplyType::IGNORE,
            catalog.max_star_degree(),
            &mut cache,
        )
        .unwrap()
        .is_none());
}

#[test]
fn predicate_star_transfers_partial_center_predicate_ownership() {
    let query = Query {
        vertices: vec![
            vertex(1, "center"),
            vertex(2, "a"),
            vertex(3, "b"),
            vertex(4, "mid"),
            vertex(5, "tail"),
        ],
        edges: vec![
            edge(10, "to_a", 1, 2),
            edge(11, "to_b", 1, 3),
            edge(12, "to_mid", 1, 4),
            edge(13, "to_tail", 4, 5),
        ],
        predicates: vec![predicate(
            "vertex",
            1,
            "keep",
            ComparisonOp::Eq,
            ScalarValue::Int64(Some(1)),
        )],
    };
    let query_graph = query.build_graph().unwrap();
    let mut builder = FlatGraphBuilder::new();
    builder.set_vertex_prop_schema("center", texts(&["keep"]));
    for offset in 0..5 {
        let center = 100 + offset;
        let a = 200 + offset;
        let b = 300 + offset;
        let mid = 400 + offset;
        let tail = 500 + offset;
        builder.add_vertex(center, "center", vec![ScalarValue::Int64(Some(1))]);
        builder.add_vertex(a, "a", vec![]);
        builder.add_vertex(b, "b", vec![]);
        builder.add_vertex(mid, "mid", vec![]);
        builder.add_vertex(tail, "tail", vec![]);
        builder.add_edge(1000 + offset, center, "center", a, "a", "to_a", vec![]);
        builder.add_edge(2000 + offset, center, "center", b, "b", "to_b", vec![]);
        builder.add_edge(3000 + offset, center, "center", mid, "mid", "to_mid", vec![]);
        builder.add_edge(4000 + offset, mid, "mid", tail, "tail", "to_tail", vec![]);
    }
    let flat_graph = builder.build();
    let mut catalog = DegreeSeqGraph::new();
    catalog.star_stats.push((two_armed_star(), vec![1, 1, 1, 1, 1]));
    let mut cache: DashMap<String, Vec<u64>> = DashMap::new();
    let extraction = query_graph
        .extract_raw_star_local(
            &catalog,
            Some(&flat_graph),
            5,
            PredicateApplyType::SCALE,
            catalog.max_star_degree(),
            &mut cache,
        )
        .unwrap();
    let Some(Extraction::Stars(done)) = extraction else {
        panic!("the two leaf arms should form a local predicate star");
    };
    let consumed = done.consumed_edges();
    assert_eq!(consumed.iter().copied().collect::<HashSet<u64>>(), HashSet::from([10, 11]));
    assert_eq!(
        done.owned_predicate_vertices.iter().copied().collect::<HashSet<u64>>(),
        HashSet::from([1])
    );
    let residual = query_graph.subgraph_without_edges(&consumed, &done.owned_predicate_vertices);
    assert!(residual.get_vertex(1).unwrap().predicates.is_empty());
    assert!(residual.get_edge(12).is_some());
    assert!(residual.get_edge(13).is_some());
}

#[test]
fn predicate_n1_branch_is_anchored_at_parent() {
    let one = || ScalarValue::Int64(Some(1));
    let query = Query {
        vertices: vec![
            vertex(1, "title"),
            vertex(2, "movie_companies"),
            vertex(3, "company_name"),
            vertex(4, "company_type"),
            vertex(5, "aka_title"),
        ],
        edges: vec![
            edge(10, "title_to_mc", 1, 2),
            edge(11, "cn_to_mc", 3, 2),
            edge(12, "ct_to_mc", 4, 2),
            edge(13, "title_to_aka", 1, 5),
        ],
        predicates: vec![
            predicate("vertex", 1, "keep", ComparisonOp::Eq, one()),
            predicate("vertex", 2, "keep", ComparisonOp::Eq, one()),
            predicate(
                "vertex",
                3,
                "country",
                ComparisonOp::Eq,
                ScalarValue::String(Some("us".to_string())),
            ),
            predicate("vertex", 5, "keep", ComparisonOp::Eq, one()),
        ],
    };
    let query_graph = query.build_graph().unwrap();
    let mut builder = FlatGraphBuilder::new();
    builder.set_vertex_prop_schema("title", texts(&["keep"]));
    builder.set_vertex_prop_schema("movie_companies", texts(&["keep"]));
    builder.set_vertex_prop_schema("company_name", texts(&["country"]));
    builder.set_vertex_prop_schema("company_type", vec![]);
    builder.set_vertex_prop_schema("aka_title", texts(&["keep"]));
    for offset in 0..5u64 {
        let title = 100 + offset;
        let mc = 200 + offset;
        let cn = 300 + offset;
        let ct = 400 + offset;
        let aka = 500 + offset;
        builder.add_vertex(title, "title", vec![one()]);
        builder.add_vertex(mc, "movie_companies", vec![one()]);
        builder.add_vertex(cn, "company_name", vec![ScalarValue::String(Some("us".to_string()))]);
        builder.add_vertex(ct, "company_type", vec![]);
        builder.add_vertex(
            aka,
            "aka_title",
            vec![ScalarValue::Int64(Some(i64::from(offset != 4)))],
        );
        builder.add_edge(
            1000 + offset,
            title,
            "title",
            mc,
            "movie_companies",
            "title_to_mc",
            vec![],
        );
        builder.add_edge(
            2000 + offset,
            cn,
            "company_name",
            mc,
            "movie_companies",
            "cn_to_mc",
            vec![],
        );
        builder.add_edge(
            3000 + offset,
            ct,
            "company_type",
            mc,
            "movie_companies",
            "ct_to_mc",
            vec![],
        );
        builder.add_edge(
            4000 + offset,
            title,
            "title",
            aka,
            "aka_title",
            "title_to_aka",
            vec![],
        );
    }
    let flat_graph = builder.build();
    let mut catalog = DegreeSeqGraph::new();
    catalog.edge_cardinalities.push(("title_to_mc".to_string(), EdgeCardinality::OneToMany));
    catalog.edge_cardinalities.push(("cn_to_mc".to_string(), EdgeCardinality::OneToMany));
    catalog.edge_cardinalities.push(("ct_to_mc".to_string(), EdgeCardinality::OneToMany));
    catalog.star_stats.push((
        StarStatKey::new(
            "unused".to_string(),
            vec![arm("unused", "leaf", "unused_edge"), arm("unused", "leaf2", "unused_edge2")],
        ),
        vec![1, 1],
    ));
    let mut cache: DashMap<String, Vec<u64>> = DashMap::new();
    let extraction = query_graph
        .extract_raw_star_local(
            &catalog,
            Some(&flat_graph),
            5,
            PredicateApplyType::SCALE,
            catalog.max_star_degree(),
            &mut cache,
        )
        .unwrap();
    let Some(Extraction::Branch(taken)) = extraction else {
        panic!("the filtered branch should be sampled");
    };
    let consumed = query_graph.consumed_by_branch(&taken.branch);
    assert_eq!(
        consumed.iter().copied().collect::<HashSet<u64>>(),
        HashSet::from([10, 11, 12, 13])
    );
    let owned = query_graph.owned_by_branch(&taken.branch);
    assert_eq!(owned.iter().copied().collect::<HashSet<u64>>(), HashSet::from([1, 2]));
    assert_eq!(taken.branch.center, 1);
    assert_eq!(rows(&taken.sample, 5), 4.0);
}

#[test]
fn star_matching_deduplicates_repeated_leaf_arms_like_pathce() {
    let query = Query {
        vertices: vec![vertex(1, "center"), vertex(2, "a"), vertex(3, "a"), vertex(4, "b")],
        edges: vec![edge(10, "e1", 1, 2), edge(11, "e1", 1, 3), edge(12, "e2", 1, 4)],
        predicates: Vec::new(),
    };
    let query_graph = query.build_graph().unwrap();
    let dedup_key = StarStatKey::new(
        "center".to_string(),
        vec![arm("center", "a", "e1"), arm("center", "b", "e2")],
    );
    let repeated_key = StarStatKey::new(
        "center".to_string(),
        vec![arm("center", "a", "e1"), arm("center", "a", "e1"), arm("center", "b", "e2")],
    );
    let mut catalog = DegreeSeqGraph::new();
    catalog.star_stats.push((dedup_key, vec![7; 6]));
    catalog.star_stats.push((repeated_key, vec![11; 9]));
    let found = only_tree(build(
        &query_graph,
        1,
        1,
        &catalog,
        None,
        0,
        PredicateApplyType::IGNORE,
    ));
    let filled = query_graph
        .build_abstract_graph_from_edges_flat(
            &found.plain[0],
            &Vec::new(),
            &catalog,
            false,
            PredicateApplyType::IGNORE,
            true,
            catalog.max_star_degree(),
            catalog.max_star_length(),
        )
        .unwrap();
    assert_eq!(filled.factors.len(), 1);
    assert_eq!(filled.factors[0].center, 1);
    let place = catalog.find_star(&filled.factors[0].star).unwrap();
    assert_eq!(catalog.star_stats[place].1.iter().sum::<u64>(), 42);
    assert_eq!(filled.graph.edges.len(), 1);
}

#[test]
fn unit_path_queries_split_abstract_edge_into_length_one_hops() {
    let with_id = |n: u32, target: &str, id: u32, property: &str, value: i32| PredicateDef {
        predicate_id: Some(n),
        target: target.to_string(),
        id,
        property: property.to_string(),
        op: ComparisonOp::Eq,
        value: ScalarValue::Int32(Some(value)),
        values: Vec::new(),
    };
    let query = Query {
        vertices: vec![vertex(1, "a"), vertex(2, "b"), vertex(3, "c")],
        edges: vec![edge(10, "ab", 1, 2), edge(11, "bc", 2, 3)],
        predicates: vec![
            with_id(1, "vertex", 1, "p", 1),
            with_id(2, "vertex", 2, "p", 2),
            with_id(3, "vertex", 3, "p", 3),
            with_id(4, "edge", 10, "q", 10),
            with_id(5, "edge", 11, "q", 11),
        ],
    };
    let query_graph = query.build_graph().unwrap();
    let abstract_edge = query_graph
        .build_abstract_edge_from_def(&AbstractEdgeDef {
            path_vertices: vec![1, 2, 3],
            original_edge_ids: vec![10, 11],
        })
        .unwrap();
    let unit_queries = query_graph.build_unit_path_queries(&abstract_edge).unwrap();
    assert_eq!(unit_queries.len(), 2);
    assert_eq!(unit_queries[0].path_elements.len(), 3);
    assert_eq!(unit_queries[1].path_elements.len(), 3);
    let mut hop0_vertex_positions: Vec<_> =
        unit_queries[0].vertex_predicates.keys().copied().collect();
    let mut hop1_vertex_positions: Vec<_> =
        unit_queries[1].vertex_predicates.keys().copied().collect();
    hop0_vertex_positions.sort_unstable();
    hop1_vertex_positions.sort_unstable();
    assert_eq!(hop0_vertex_positions, vec![0]);
    assert_eq!(hop1_vertex_positions, vec![0, 2]);
    assert_eq!(unit_queries[0].edge_predicates.get(&1).unwrap().len(), 1);
    assert_eq!(unit_queries[1].edge_predicates.get(&1).unwrap().len(), 1);
}

fn four_arms() -> Vec<PathPattern> {
    vec![
        arm("center", "a", "e1"),
        arm("center", "b", "e2"),
        arm("center", "c", "e3"),
        arm("center", "d", "e4"),
    ]
}

fn last_three() -> StarStatKey {
    let mut arms = four_arms();
    arms.remove(0);
    StarStatKey::new("center".to_string(), arms)
}

#[test]
fn star_matching_falls_back_to_smaller_available_degree() {
    let mut catalog = DegreeSeqGraph::new();
    catalog.star_stats.push((last_three(), vec![99]));
    let arms = four_arms();
    let selected = find_matching_star("center", &arms, 4, &catalog)
        .expect("d4 miss should fall back to an available d3 star");
    assert_eq!(selected, vec![1, 2, 3]);
    let chosen: Vec<PathPattern> = selected.iter().map(|&i| arms[i].copy()).collect();
    let place = catalog.find_star(&StarStatKey::new("center".to_string(), chosen)).unwrap();
    assert_eq!(catalog.star_stats[place].1.iter().sum::<u64>(), 99);
}

#[test]
fn star_matching_searches_beyond_first_max_degree_arms() {
    let mut catalog = DegreeSeqGraph::new();
    catalog.star_stats.push((last_three(), vec![17, 17]));
    let arms = four_arms();
    let selected = find_matching_star("center", &arms, 3, &catalog)
        .expect("matching should search all degree-3 arm combinations, not just a/b/c");
    assert_eq!(selected, vec![1, 2, 3]);
    let chosen: Vec<PathPattern> = selected.iter().map(|&i| arms[i].copy()).collect();
    let place = catalog.find_star(&StarStatKey::new("center".to_string(), chosen)).unwrap();
    assert_eq!(catalog.star_stats[place].1.iter().sum::<u64>(), 34);
}

#[test]
fn functional_alias_does_not_contract_k_boundary_without_two_ended_pcf() {
    let query = Query {
        vertices: vec![
            vertex(1, "person"),
            vertex(2, "person"),
            vertex(3, "city"),
            vertex(4, "city"),
            vertex(5, "country"),
            vertex(6, "person"),
        ],
        edges: vec![
            edge(1, "person_knows_person", 1, 2),
            edge(2, "person_knows_person", 6, 2),
            edge(3, "person_islocatedin_city", 1, 3),
            edge(4, "city_ispartof_country", 3, 5),
            edge(5, "city_ispartof_country", 4, 5),
        ],
        predicates: Vec::new(),
    };
    let query_graph = query.build_graph().unwrap();
    let path = Path {
        start: 4,
        end: 6,
        vertices: vec![4, 5, 3, 1, 2, 6],
        edges: vec![5, 4, 3, 1, 2],
    };
    let core_key = make_alt_key(
        &texts(&["person", "person", "person"]),
        &texts(&["person_knows_person", "person_knows_person"]),
    );
    let alias_key = make_alt_key(
        &texts(&["country", "city", "person", "person", "person"]),
        &texts(&[
            "city_ispartof_country",
            "person_islocatedin_city",
            "person_knows_person",
            "person_knows_person",
        ]),
    );
    let mut catalog = DegreeSeqGraph::new();
    catalog.edge_set_to_endpoints.push((core_key.copy(), vec![("person".to_string(), vec![2; 3])]));
    catalog.path_aliases.push((
        alias_key.copy(),
        PathAlias {
            source: core_key,
            endpoint_map: vec![
                ("country".to_string(), "person".to_string()),
                ("person".to_string(), "person".to_string()),
            ],
        },
    ));
    catalog
        .edge_cardinalities
        .push(("city_ispartof_country".to_string(), EdgeCardinality::ManyToOne));
    catalog
        .edge_cardinalities
        .push(("person_islocatedin_city".to_string(), EdgeCardinality::ManyToOne));
    catalog
        .edge_cardinalities
        .push(("person_knows_person".to_string(), EdgeCardinality::ManyToMany));
    assert!(catalog.path_has_endpoint_pair(&alias_key, "country", "person"));
    assert!(!catalog.path_has_materialized_endpoint_pair(&alias_key, "country", "person"));
    let candidates = query_graph.build_abstract_edge_candidates_for_path(&path, 2, &catalog, true);
    assert_eq!(candidates.len(), 3);
    assert!(candidates.iter().flatten().all(|edge| edge.original_edge_ids.len() <= 2));
    assert!(candidates.iter().any(|edges| {
        edges
            .iter()
            .map(|edge| edge.original_edge_ids.as_slice())
            .eq([&[5][..], &[4, 3][..], &[1, 2][..]])
    }));
}

#[test]
fn stars_need_the_properties_that_they_are_asked_for() {
    let value = || ScalarValue::Int64(Some(1));
    let mut builder = FlatGraphBuilder::new();
    builder.add_vertex(100, "center", vec![]);
    builder.add_vertex(200, "a", vec![]);
    builder.add_vertex(300, "b", vec![]);
    builder.add_edge(1000, 100, "center", 200, "a", "to_a", vec![]);
    builder.add_edge(1001, 100, "center", 300, "b", "to_b", vec![]);
    let flat_graph = builder.build();
    let mut catalog = DegreeSeqGraph::new();
    catalog.star_stats.push((two_armed_star(), vec![1]));
    let mut cache: DashMap<String, Vec<u64>> = DashMap::new();
    let mut extract = |query_graph: &QueryGraph| {
        query_graph.extract_raw_star_local(
            &catalog,
            Some(&flat_graph),
            5,
            PredicateApplyType::SCALE,
            catalog.max_star_degree(),
            &mut cache,
        )
    };
    let on_leaf = two_armed_query(vec![predicate("vertex", 3, "keep", ComparisonOp::Eq, value())]);
    assert!(matches!(
        extract(&on_leaf),
        Err(StarError::Property(FlatError::NoVertexProperty { label, property }))
            if label == "b" && property == "keep"
    ));
    let on_edge = two_armed_query(vec![predicate("edge", 11, "keep", ComparisonOp::Eq, value())]);
    assert!(matches!(
        extract(&on_edge),
        Err(StarError::Property(FlatError::NoEdgeProperty { label, property }))
            if label == "to_b" && property == "keep"
    ));
    let whole = on_leaf.build_abstract_graph_flat(
        1,
        10,
        &HashMap::new(),
        &catalog,
        Some(&flat_graph),
        10,
        PredicateApplyType::SCALE,
        catalog.max_star_degree(),
        false,
        16,
        &pivots_of,
        "",
        &mut cache,
    );
    assert!(matches!(whole, Err(BuildError::Star(StarError::Property(_)))));
}
