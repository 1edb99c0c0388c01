use dashmap::DashMap;
use gcard::catalog::DegreeSeqGraph;
use gcard::estimate::{
    compute_selectivity_flat_for_path_query, estimate_single_vertex_cardinality, FlatWalk,
    SegmentMeasure, SelectivityEvidence, StartSample, VertexEstimate,
};
use gcard::filling::SelectivityError;
use gcard::flat::{FlatError, FlatGraph, FlatGraphBuilder};
use gcard::path_query::{FlatCompiledPathQuery, FlatCompiledStep, PathQueryError};
use gcard::pattern::{PathPattern, StarStatKey};
use gcard::query::{AbstractEdgeDef, EdgeDef, PredicateDef, Query, QueryGraph, VertexDef};
use gcard::raw_stars::{Extraction, PredicateApplyType};
use gcard::sampling::{
    degree_groups, degree_steps, describe_branch, describe_star, uniform_steps, CenterSample,
};
use gcard::stars::saturating_product;
use gcard::value::{ComparisonOp, ScalarValue};
use gcard::walks::{compute_segment_reachable_count, walk_segment_branched, Walk};
use rand::rngs::StdRng;
use rand::SeedableRng;

fn texts(labels: &[&str]) -> Vec<String> {
    labels.iter().map(|l| l.to_string()).collect()
}

fn predicate(target: &str, id: u32, property: &str, value: i64) -> PredicateDef {
    PredicateDef {
        predicate_id: None,
        target: target.to_string(),
        id,
        property: property.to_string(),
        op: ComparisonOp::Eq,
        value: ScalarValue::Int64(Some(value)),
        values: Vec::new(),
    }
}

fn data() -> FlatGraph {
    let mut builder = FlatGraphBuilder::new();
    builder.set_vertex_prop_schema("b", texts(&["keep"]));
    builder.add_vertex(1, "a", vec![]);
    builder.add_vertex(2, "a", vec![]);
    for b in 10..13 {
        builder.add_vertex(b, "b", vec![ScalarValue::Int64(Some(i64::from(b == 10)))]);
    }
    builder.add_vertex(20, "c", vec![]);
    builder.add_edge(100, 1, "a", 10, "b", "ab", vec![]);
    builder.add_edge(101, 1, "a", 11, "b", "ab", vec![]);
    builder.add_edge(102, 2, "a", 12, "b", "ab", vec![]);
    builder.add_edge(200, 10, "b", 20, "c", "bc", vec![]);
    builder.add_edge(201, 11, "b", 20, "c", "bc", vec![]);
    builder.build()
}

fn line(predicates: Vec<PredicateDef>) -> QueryGraph {
    Query {
        vertices: vec![
            VertexDef { id: 1, label: "a".to_string() },
            VertexDef { id: 2, label: "b".to_string() },
            VertexDef { id: 3, label: "c".to_string() },
        ],
        edges: vec![
            EdgeDef { id: 1, label: "ab".to_string(), src: 1, dst: 2 },
            EdgeDef { id: 2, label: "bc".to_string(), src: 2, dst: 3 },
        ],
        predicates,
    }
    .build_graph()
    .unwrap()
}

fn whole() -> AbstractEdgeDef {
    AbstractEdgeDef { path_vertices: vec![1, 2, 3], original_edge_ids: vec![1, 2] }
}

fn plans(predicates: Vec<PredicateDef>) -> Vec<FlatCompiledPathQuery> {
    let graph = line(predicates);
    let edge = graph.build_abstract_edge_from_def(&whole()).unwrap();
    let query = graph.build_path_query(&edge).unwrap();
    FlatCompiledPathQuery::compile_all(&query, &data()).unwrap()
}

#[test]
fn reachable_ends_are_counted() {
    let all = plans(vec![]);
    assert_eq!(all.len(), 3);
    assert_eq!(all[0].start_label, "a");
    assert_eq!(compute_segment_reachable_count(&data(), 1, &all[0].right_segment), Some(2));
    assert_eq!(compute_segment_reachable_count(&data(), 2, &all[0].right_segment), Some(0));
    assert_eq!(compute_segment_reachable_count(&data(), 20, &all[2].left_segment), Some(2));
}

#[test]
fn walks_follow_the_steps() {
    let all = plans(vec![predicate("vertex", 2, "keep", 1)]);
    let mut rng = StdRng::seed_from_u64(4);
    let walk = walk_segment_branched(&data(), &all[0].right_segment, 0, 1, &mut rng);
    let Walk::Edges { degree, branches } = &walk else {
        panic!("the first step is an edge");
    };
    assert_eq!((*degree, branches.len()), (2, 1));
    assert!(walk.is_alive());
    let dead = walk_segment_branched(&data(), &all[0].right_segment, 0, 2, &mut rng);
    assert!(!dead.is_alive());
    let nowhere: Vec<FlatCompiledStep> = Vec::new();
    assert!(matches!(walk_segment_branched(&data(), &nowhere, 0, 2, &mut rng), Walk::End));
}

fn even(_: &Vec<FlatWalk>) -> bool {
    false
}

fn never(_: &Vec<StartSample>) -> bool {
    false
}

fn first_plan(_: &Vec<FlatCompiledPathQuery>) -> Option<usize> {
    Some(0)
}

fn no_plan(_: &Vec<FlatCompiledPathQuery>) -> Option<usize> {
    None
}

#[test]
fn evidence_comes_from_walks() {
    let graph = line(vec![]);
    let edge = graph.build_abstract_edge_from_def(&whole()).unwrap();
    let mut cache: DashMap<String, Vec<u64>> = DashMap::new();
    let mut rng = StdRng::seed_from_u64(4);
    let evidence = graph
        .compute_selectivity_flat(
            &data(),
            &edge,
            10,
            &mut cache,
            &first_plan,
            &even,
            &never,
            &mut rng,
        )
        .unwrap();
    let SelectivityEvidence::Walked(run) = evidence else {
        panic!("there are starts");
    };
    assert_eq!(run.samples.len(), 1);
    assert_eq!(run.samples[0].start, 1);
    assert!(matches!(
        &run.samples[0].walks[0],
        FlatWalk::Complete { start_passes: true, left: None, right: Some(SegmentMeasure::Counted(2)) }
    ));
    let mut starts = cache.get("a").unwrap().clone();
    starts.sort_unstable();
    assert_eq!(starts, vec![1, 2]);
}

#[test]
fn remembered_starts_are_used() {
    let graph = line(vec![]);
    let edge = graph.build_abstract_edge_from_def(&whole()).unwrap();
    let mut cache: DashMap<String, Vec<u64>> = DashMap::new();
    cache.insert("a".to_string(), vec![2]);
    let mut rng = StdRng::seed_from_u64(4);
    let all = graph
        .compute_selectivity_flat_unit_paths(
            &data(),
            &edge,
            10,
            &mut cache,
            &first_plan,
            &even,
            &never,
            &mut rng,
        )
        .unwrap();
    assert_eq!(all.len(), 2);
    let SelectivityEvidence::Walked(run) = &all[0] else {
        panic!("there are starts");
    };
    assert_eq!(run.samples.iter().map(|s| s.start).collect::<Vec<u64>>(), vec![2]);
}

#[test]
fn without_a_plan_nothing_is_known() {
    let graph = line(vec![]);
    let edge = graph.build_abstract_edge_from_def(&whole()).unwrap();
    let query = graph.build_path_query(&edge).unwrap();
    let mut cache: DashMap<String, Vec<u64>> = DashMap::new();
    let mut rng = StdRng::seed_from_u64(4);
    let evidence = compute_selectivity_flat_for_path_query(
        &data(),
        &query,
        10,
        &mut cache,
        &no_plan,
        &even,
        &never,
        &mut rng,
    );
    assert!(matches!(evidence, Ok(SelectivityEvidence::Unknown)));
    let empty = FlatGraphBuilder::new().build();
    let evidence = compute_selectivity_flat_for_path_query(
        &empty,
        &query,
        10,
        &mut cache,
        &first_plan,
        &even,
        &never,
        &mut rng,
    );
    assert!(matches!(evidence, Ok(SelectivityEvidence::Impossible)));
}

#[test]
fn missing_properties_stop_an_estimate() {
    let graph = line(vec![predicate("vertex", 2, "missing", 1)]);
    let edge = graph.build_abstract_edge_from_def(&whole()).unwrap();
    let mut cache: DashMap<String, Vec<u64>> = DashMap::new();
    let mut rng = StdRng::seed_from_u64(4);
    let result = graph.compute_selectivity_flat(
        &data(),
        &edge,
        10,
        &mut cache,
        &first_plan,
        &even,
        &never,
        &mut rng,
    );
    assert!(matches!(
        result,
        Err(SelectivityError::Data(FlatError::NoVertexProperty { label, property }))
            if label == "b" && property == "missing"
    ));
    let mut broken = edge.copy();
    broken.original_edge_ids = vec![2, 1];
    let result = graph.compute_selectivity_flat(
        &data(),
        &broken,
        10,
        &mut cache,
        &first_plan,
        &even,
        &never,
        &mut rng,
    );
    assert!(matches!(
        result,
        Err(SelectivityError::Path(PathQueryError::NotIncident { edge: 2, vertex: 1 }))
    ));
    assert!(estimate_single_vertex_cardinality(
        &data(),
        "b",
        &vec![predicate("vertex", 2, "missing", 1)],
        5,
        "b"
    )
    .is_err());
}

#[test]
fn samples_do_not_repeat_vertices() {
    let mut builder = FlatGraphBuilder::new();
    for id in 0..30 {
        builder.add_vertex(id, "a", vec![]);
    }
    builder.add_edge(7, 1, "a", 2, "a", "e", vec![]);
    let data = builder.build();
    let mut rng = StdRng::seed_from_u64(9);
    let mut picked = data.sample_vertices_by_label("a", 12, &mut rng);
    assert_eq!(picked.len(), 12);
    assert!(picked.iter().all(|&id| id < 30));
    let in_order: Vec<u64> = (0..12).collect();
    assert_ne!(picked, in_order);
    picked.sort_unstable();
    picked.dedup();
    assert_eq!(picked.len(), 12);
    assert_eq!(data.sample_vertices_by_label("a", 99, &mut rng).len(), 30);
    assert_eq!(data.sample_edge_id_by_label("e", &mut rng), Some(7));
    assert_eq!(data.sample_edge_id_by_label("f", &mut rng), None);
}

#[test]
fn large_labels_are_sampled_step_by_step() {
    let mut builder = FlatGraphBuilder::new();
    builder.set_vertex_prop_schema("a", texts(&["keep"]));
    for id in 0..1000 {
        builder.add_vertex(id, "a", vec![ScalarValue::Int64(Some(1))]);
    }
    let estimate = estimate_single_vertex_cardinality(
        &builder.build(),
        "a",
        &vec![predicate("vertex", 1, "keep", 1)],
        10,
        "a",
    )
    .unwrap();
    assert!(matches!(estimate, VertexEstimate::Sampled { hits: 10, evaluated: 10, total: 1000 }));
}

#[test]
fn degrees_are_grouped() {
    assert_eq!(degree_steps(&vec![2, 5, 0, 2]), vec![(5, 1), (2, 2)]);
    assert_eq!(uniform_steps(&vec![2, 5, 0, 2], 4), Some(vec![(5, 1), (2, 2)]));
    assert_eq!(uniform_steps(&vec![0, 0], 2), None);
    assert_eq!(uniform_steps(&vec![2, 5], 100), None);
    assert_eq!(degree_groups(&vec![(2, 7), (5, 1), (2, 3)]), vec![(5, vec![1]), (2, vec![7, 3])]);
    assert_eq!(saturating_product(u64::MAX, 2), u64::MAX);
    assert_eq!(saturating_product(6, 7), 42);
}

#[test]
fn arms_with_faults_cannot_be_sampled() {
    let graph = line(vec![predicate("vertex", 2, "missing", 1)]);
    let arms = graph.arms_along(2, &vec![1, 2]);
    assert_eq!(arms.len(), 2);
    assert_eq!(describe_star("b", &arms), "predicate-star:b:[1, 2]");
    let mut cache: DashMap<String, Vec<u64>> = DashMap::new();
    assert!(graph.sample_filtered_raw_star(2, &arms, &data(), 5, &mut cache).is_err());
    assert!(graph.sample_filtered_raw_star(9, &arms, &data(), 5, &mut cache).is_err());
    let mut catalog = DegreeSeqGraph::new();
    catalog.star_stats.push((
        StarStatKey::new(
            "b".to_string(),
            vec![
                PathPattern::new_without_reverse(texts(&["b", "a"]), texts(&["ab"])),
                PathPattern::new_without_reverse(texts(&["b", "c"]), texts(&["bc"])),
            ],
        ),
        vec![1],
    ));
    let taken = graph.extract_raw_star_local(
        &catalog,
        Some(&data()),
        5,
        PredicateApplyType::INNER,
        2,
        &mut cache,
    );
    assert!(taken.is_err());
    let plain = line(vec![]).extract_raw_star_local(
        &catalog,
        Some(&data()),
        5,
        PredicateApplyType::INNER,
        2,
        &mut cache,
    );
    assert!(matches!(plain, Ok(Some(Extraction::Stars(done))) if done.samples[0].is_none()));
}

#[test]
fn branches_are_described_by_their_edges() {
    let graph = line(vec![]);
    let branch = gcard::branches::RawN1Branch {
        center: 1,
        root_edge_id: 1,
        intermediate: 2,
        leaf_arms: graph.arms_along(2, &vec![2]),
        center_leaf_arms: vec![],
    };
    assert_eq!(describe_branch("a", &branch), "predicate-n1-branch:a:1:[2]");
}

#[test]
fn centers_are_remembered() {
    let graph = line(vec![predicate("vertex", 2, "keep", 1)]);
    let arms = graph.arms_along(2, &vec![1, 2]);
    let mut cache: DashMap<String, Vec<u64>> = DashMap::new();
    let mut sample = || -> (Vec<u64>, bool, Vec<u64>) {
        match graph.sample_filtered_raw_star(2, &arms, &data(), 5, &mut cache).unwrap() {
            Some(CenterSample::Uniform { centers, remembered, degrees }) => {
                (centers, remembered, degrees)
            }
            _ => panic!("all centers are taken"),
        }
    };
    let (centers, remembered, degrees) = sample();
    assert!(!remembered);
    for (center, degree) in centers.iter().zip(&degrees) {
        assert_eq!(*degree, u64::from(*center == 10));
    }
    assert_eq!(sample(), (centers.clone(), true, degrees));
    assert_eq!(cache.len(), 1);
    let key = cache.iter().next().unwrap().key().clone();
    assert_eq!(cache.get(&key).unwrap().clone(), centers);
    let mut all = centers;
    all.sort_unstable();
    assert_eq!(all, vec![10, 11, 12]);
}

#[test]
fn stars_are_tried_before_they_are_taken() {
    let mut catalog = DegreeSeqGraph::new();
    let arm = |to: &str, over: &str| {
        PathPattern::new_without_reverse(texts(&["b", to]), texts(&[over]))
    };
    catalog.star_stats.push((
        StarStatKey::new("b".to_string(), vec![arm("a", "ab"), arm("c", "bc")]),
        vec![1],
    ));
    let mut cache: DashMap<String, Vec<u64>> = DashMap::new();
    let taken = line(vec![predicate("vertex", 2, "keep", 1)]).extract_raw_star_local(
        &catalog,
        Some(&data()),
        5,
        PredicateApplyType::INNER,
        2,
        &mut cache,
    );
    let Ok(Some(Extraction::Stars(done))) = taken else {
        panic!("the star is known");
    };
    assert_eq!(done.tried.len(), done.trials.len());
    assert_eq!(done.trials, vec![true]);
    assert_eq!(done.factors.len(), 1);
    assert!(done.samples[0].is_some());
}
