use gcard::schema::{
    apply_sidecar, build_undirected_adj, edge_cardinalities_from_names,
    edge_cardinalities_from_schema, edge_cardinalities_to_names, edge_cardinality_from_name,
    edge_cardinality_name, get_edges_from_catalog, get_edges_from_catalog_with_cardinalities,
    manual_edge_cardinality, CatalogError, EdgeCardinality, EdgeEndpoints, EdgeTypeRecord,
    SidecarError,
};

#[test]
fn ldbc_edge_cardinality_is_schema_defined() {
    assert_eq!(manual_edge_cardinality("comment_replyof_comment"), EdgeCardinality::ManyToOne);
    assert_eq!(manual_edge_cardinality("forum_containerof_post"), EdgeCardinality::OneToMany);
    assert_eq!(manual_edge_cardinality("person_knows_person"), EdgeCardinality::ManyToMany);
}

#[test]
fn cardinality_names_are_read_back() {
    for cardinality in
        [EdgeCardinality::OneToMany, EdgeCardinality::ManyToOne, EdgeCardinality::ManyToMany]
    {
        assert_eq!(
            edge_cardinality_from_name(edge_cardinality_name(cardinality)),
            Some(cardinality)
        );
    }
    assert_eq!(edge_cardinality_from_name("some_to_some"), None);
}

fn names() -> Vec<(u32, String)> {
    vec![(1, "person".to_string()), (2, "city".to_string()), (3, "lives_in".to_string())]
}

fn record(edge: Vec<u32>, src: Vec<u32>, dst: Vec<u32>) -> Option<EdgeTypeRecord> {
    Some(EdgeTypeRecord { edge_labels: edge, src_labels: src, dst_labels: dst })
}

fn endpoints(src: &str, dst: &str, cardinality: EdgeCardinality) -> EdgeEndpoints {
    EdgeEndpoints { src_label: src.to_string(), dst_label: dst.to_string(), cardinality }
}

#[test]
fn edges_are_read_from_a_catalog() {
    let edges = get_edges_from_catalog(&names(), &vec![record(vec![3], vec![1], vec![2])]).unwrap();
    assert_eq!(
        edges,
        vec![("lives_in".to_string(), endpoints("person", "city", EdgeCardinality::ManyToMany))]
    );
    let overrides = vec![("lives_in".to_string(), EdgeCardinality::ManyToOne)];
    let edges = get_edges_from_catalog_with_cardinalities(
        &names(),
        &vec![record(vec![3], vec![1], vec![2])],
        &overrides,
    )
    .unwrap();
    assert_eq!(edge_cardinalities_from_schema(&edges), overrides);
}

#[test]
fn incomplete_edge_types_are_refused() {
    let read = |kind| get_edges_from_catalog(&names(), &vec![kind]).unwrap_err();
    assert_eq!(read(None), CatalogError::EdgeTypeNotFound);
    assert_eq!(read(record(vec![3], vec![], vec![2])), CatalogError::EmptySrcLabelSet);
    assert_eq!(read(record(vec![3], vec![1], vec![])), CatalogError::EmptyDstLabelSet);
    assert_eq!(read(record(vec![], vec![1], vec![2])), CatalogError::EmptyEdgeLabelSet);
}

#[test]
fn cardinalities_survive_their_names() {
    let edges = vec![
        ("lives_in".to_string(), endpoints("person", "city", EdgeCardinality::ManyToOne)),
        ("knows".to_string(), endpoints("person", "person", EdgeCardinality::ManyToMany)),
    ];
    let listed = edge_cardinalities_from_schema(&edges);
    assert_eq!(edge_cardinalities_from_names(&edge_cardinalities_to_names(&edges)), listed);
    assert_eq!(listed.len(), 2);
}

#[test]
fn sidecars_must_fit_the_schema() {
    let edges =
        vec![("lives_in".to_string(), endpoints("person", "city", EdgeCardinality::ManyToMany))];
    let told =
        vec![("lives_in".to_string(), endpoints("person", "city", EdgeCardinality::ManyToOne))];
    assert_eq!(apply_sidecar(&edges, &told).unwrap(), told);
    assert_eq!(apply_sidecar(&edges, &vec![]).unwrap_err(), SidecarError::Missing(0));
    let wrong =
        vec![("lives_in".to_string(), endpoints("city", "person", EdgeCardinality::ManyToOne))];
    assert_eq!(apply_sidecar(&edges, &wrong).unwrap_err(), SidecarError::EndpointMismatch(0, 0));
    let mut more = told;
    more.push(("likes".to_string(), endpoints("person", "post", EdgeCardinality::ManyToOne)));
    assert_eq!(apply_sidecar(&edges, &more).unwrap_err(), SidecarError::Unknown(1));
}

#[test]
fn edges_lead_both_ways() {
    let edges =
        vec![("lives_in".to_string(), endpoints("person", "city", EdgeCardinality::ManyToOne))];
    let adjacency = build_undirected_adj(&edges);
    let from = |label: &str| {
        adjacency.iter().find(|entry| entry.0 == label).map(|entry| entry.1.clone()).unwrap()
    };
    assert_eq!(from("person"), vec![("lives_in".to_string(), "city".to_string())]);
    assert_eq!(from("city"), vec![("lives_in".to_string(), "person".to_string())]);
}
