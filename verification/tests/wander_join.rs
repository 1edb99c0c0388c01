use gcard::flat::{FlatGraph, FlatGraphBuilder};
use gcard::query::{EdgeDef, PredicateDef, Query, QueryGraph, VertexDef};
use gcard::value::{ComparisonOp, ScalarValue};
use gcard::wander_join::{build_wander_join_constraints, compile_wander_join};
use gcard::wander_plans::{
    build_wander_join_plans, enumerate_wander_join_plans, WanderJoinJoin, WanderJoinPlan,
    WanderJoinPlanStep,
};
use gcard::wander_sampling::{
    average_population, estimate_cardinality_wander_join_flat, execute_wander_join_sample,
    WanderJoinBinding, WanderJoinTurn,
};
use rand::rngs::StdRng;
use rand::SeedableRng;

fn vertex(id: u64, label: &str) -> VertexDef {
    VertexDef { id, label: label.to_string() }
}

fn edge(id: u64, label: &str, src: u64, dst: u64) -> EdgeDef {
    EdgeDef { id, label: label.to_string(), src, dst }
}

fn eq_pred(target: &str, id: u32, property: &str, value: ScalarValue) -> PredicateDef {
    PredicateDef {
        predicate_id: None,
        target: target.to_string(),
        id,
        property: property.to_string(),
        op: ComparisonOp::Eq,
        value,
        values: Vec::new(),
    }
}

fn first_candidate(_: &Vec<WanderJoinTurn>, candidates: &Vec<usize>) -> Option<usize> {
    candidates.first().copied()
}

/// The mean of the walks, each of which counts for the product of its factors where it is a match.
fn estimate(query: &QueryGraph, data: &FlatGraph, sample_size: usize, seed: Option<u64>) -> f64 {
    let turns =
        estimate_cardinality_wander_join_flat(query, data, sample_size, seed, &first_candidate)
            .unwrap();
    assert!(turns.is_empty() || turns.len() == sample_size);
    let total: f64 = turns
        .iter()
        .map(|turn| {
            if turn.sample.complete {
                turn.sample.draws.iter().map(|d| d.factor as f64).product()
            } else {
                0.0
            }
        })
        .sum();
    if sample_size == 0 {
        0.0
    } else {
        total / sample_size as f64
    }
}

fn path_data() -> FlatGraph {
    let mut builder = FlatGraphBuilder::new();
    builder.set_vertex_prop_schema("a", vec!["flag".to_string()]);
    builder.set_vertex_prop_schema("b", vec!["flag".to_string()]);
    builder.set_edge_type_schema("ab", "a", "b");
    builder.add_vertex(1, "a", vec![ScalarValue::Int64(Some(1))]);
    builder.add_vertex(2, "b", vec![ScalarValue::Int64(Some(7))]);
    builder.add_edge(10, 1, "a", 2, "b", "ab", vec![]);
    builder.build()
}

fn path_query(predicates: Vec<PredicateDef>) -> QueryGraph {
    Query {
        vertices: vec![vertex(1, "a"), vertex(2, "b")],
        edges: vec![edge(10, "ab", 1, 2)],
        predicates,
    }
    .build_graph()
    .unwrap()
}

#[test]
fn wander_join_handles_single_path_with_predicate() {
    let query = path_query(vec![eq_pred("vertex", 2, "flag", ScalarValue::Int64(Some(7)))]);
    assert_eq!(estimate(&query, &path_data(), 8, Some(0)), 1.0);
}

fn cycle_query() -> QueryGraph {
    Query {
        vertices: vec![vertex(1, "a"), vertex(2, "b"), vertex(3, "c")],
        edges: vec![edge(10, "ab", 1, 2), edge(11, "bc", 2, 3), edge(12, "ca", 3, 1)],
        predicates: Vec::new(),
    }
    .build_graph()
    .unwrap()
}

fn cycle_data(closed: bool) -> FlatGraph {
    let mut builder = FlatGraphBuilder::new();
    builder.set_edge_type_schema("ab", "a", "b");
    builder.set_edge_type_schema("bc", "b", "c");
    builder.set_edge_type_schema("ca", "c", "a");
    builder.add_vertex(1, "a", vec![]);
    builder.add_vertex(2, "b", vec![]);
    builder.add_vertex(3, "c", vec![]);
    builder.add_vertex(4, "a", vec![]);
    builder.add_edge(10, 1, "a", 2, "b", "ab", vec![]);
    builder.add_edge(11, 2, "b", 3, "c", "bc", vec![]);
    builder.add_edge(12, 3, "c", if closed { 1 } else { 4 }, "a", "ca", vec![]);
    builder.build()
}

#[test]
fn wander_join_handles_cycle_query() {
    let mut builder = FlatGraphBuilder::new();
    builder.set_edge_type_schema("ab", "a", "b");
    builder.set_edge_type_schema("bc", "b", "c");
    builder.set_edge_type_schema("ca", "c", "a");
    builder.add_vertex(1, "a", vec![]);
    builder.add_vertex(2, "b", vec![]);
    builder.add_vertex(3, "c", vec![]);
    builder.add_edge(10, 1, "a", 2, "b", "ab", vec![]);
    builder.add_edge(11, 2, "b", 3, "c", "bc", vec![]);
    builder.add_edge(12, 3, "c", 1, "a", "ca", vec![]);
    let flat_graph = builder.build();
    assert_eq!(estimate(&cycle_query(), &flat_graph, 8, Some(0)), 1.0);
}

#[test]
fn open_cycles_do_not_match() {
    assert_eq!(estimate(&cycle_query(), &cycle_data(false), 50, Some(3)), 0.0);
    assert!(estimate(&cycle_query(), &cycle_data(true), 50, Some(3)) > 0.0);
}

#[test]
fn no_sample_means_no_walk() {
    assert_eq!(estimate(&cycle_query(), &cycle_data(true), 0, None), 0.0);
}

#[test]
fn unmet_conditions_end_walks() {
    let query = path_query(vec![eq_pred("vertex", 2, "flag", ScalarValue::Int64(Some(8)))]);
    assert_eq!(estimate(&query, &path_data(), 8, None), 0.0);
}

#[test]
fn unknown_properties_are_reported() {
    let query = path_query(vec![eq_pred("vertex", 2, "missing", ScalarValue::Int64(Some(8)))]);
    assert!(estimate_cardinality_wander_join_flat(
        &query,
        &path_data(),
        8,
        None,
        &first_candidate
    )
    .is_err());
}

#[test]
fn joins_go_both_ways() {
    let query = compile_wander_join(&path_query(vec![]), &path_data(), 100).unwrap();
    let joins: Vec<(usize, usize, usize, usize)> = build_wander_join_constraints(&query.nodes)
        .iter()
        .map(|j| (j.from_node, j.from_col, j.to_node, j.to_col))
        .collect();
    assert_eq!(joins, vec![(0, 0, 2, 0), (2, 0, 0, 0), (1, 0, 2, 1), (2, 1, 1, 0)]);
    assert_eq!(query.plans.len(), 4);
    let first = &query.plans[0];
    assert_eq!(first.start_node_idx, 0);
    assert_eq!(first.steps.iter().map(|s| s.node_idx).collect::<Vec<usize>>(), vec![2, 1]);
}

#[test]
fn plans_are_limited() {
    let join = |a: usize, b: usize| WanderJoinJoin { from_node: a, from_col: 0, to_node: b, to_col: 0 };
    let joins = vec![join(0, 1), join(1, 0), join(1, 2), join(2, 1)];
    assert_eq!(build_wander_join_plans(3, &joins, 100).len(), 4);
    assert_eq!(build_wander_join_plans(3, &joins, 3).len(), 3);
    assert!(build_wander_join_plans(3, &vec![join(0, 1)], 100).is_empty());
}

fn step(join: &WanderJoinJoin) -> WanderJoinPlanStep {
    WanderJoinPlanStep {
        node_idx: join.to_node,
        counterpart_node_idx: join.from_node,
        counterpart_col: join.from_col,
        node_col: join.to_col,
    }
}

#[test]
fn plans_go_on_from_what_is_visited() {
    let join = |a: usize, b: usize| WanderJoinJoin { from_node: a, from_col: 0, to_node: b, to_col: 0 };
    let joins = vec![join(0, 1), join(1, 0), join(1, 2), join(2, 1)];
    let known = || WanderJoinPlan { start_node_idx: 2, steps: vec![] };
    let begun = vec![step(&joins[0])];

    let mut visited = vec![true, true, false];
    let mut steps = begun.clone();
    let mut plans = vec![known()];
    enumerate_wander_join_plans(&joins, &mut visited, 0, &mut steps, &mut plans, 9);
    assert_eq!((visited, &steps), (vec![true, true, false], &begun));
    assert_eq!(plans.len(), 2);
    assert_eq!(plans[0].start_node_idx, 2);
    assert_eq!(plans[1].start_node_idx, 0);
    assert_eq!(plans[1].steps, vec![step(&joins[0]), step(&joins[2])]);

    let mut visited = vec![true, false, false];
    let mut plans = vec![known(), known(), known()];
    enumerate_wander_join_plans(&joins, &mut visited, 0, &mut Vec::new(), &mut plans, 2);
    assert_eq!(plans.len(), 3);

    let mut steps = vec![begun[0], begun[0], begun[0], begun[0]];
    let mut plans = Vec::new();
    enumerate_wander_join_plans(&joins, &mut visited, 0, &mut steps, &mut plans, 9);
    assert!(plans.is_empty());
    assert_eq!(steps.len(), 4);
    enumerate_wander_join_plans(&vec![], &mut Vec::new(), 0, &mut Vec::new(), &mut plans, 9);
    assert!(plans.is_empty());
}

#[test]
fn connected_joins_have_a_plan() {
    let query = compile_wander_join(&cycle_query(), &cycle_data(true), 1).unwrap();
    assert_eq!(query.plans.len(), 1);
    assert_eq!(query.plans[0].steps.len() + 1, query.nodes.len());
}

#[test]
fn walks_bind_every_node() {
    let query = compile_wander_join(&path_query(vec![]), &path_data(), 100).unwrap();
    let mut rng = StdRng::seed_from_u64(1);
    let sample = execute_wander_join_sample(
        &path_data(),
        &query.nodes,
        &query.joins,
        &query.plans[0],
        &mut rng,
    );
    assert!(sample.complete);
    assert_eq!(sample.lookups, 3);
    assert_eq!(sample.draws.len(), 3);
    assert!(matches!(sample.draws[0].binding, WanderJoinBinding::Vertex(1)));
    assert!(matches!(
        sample.draws[1].binding,
        WanderJoinBinding::Edge { src: 1, dst: 2, edge_id: 10 }
    ));
    assert!(matches!(sample.draws[2].binding, WanderJoinBinding::Vertex(2)));
    assert_eq!(sample.draws[1].binding.value_at(1), Some(2));
    assert_eq!(sample.draws[1].binding.value_at(2), None);
}

#[test]
fn a_plan_is_chosen_after_enough_matches() {
    let turns = estimate_cardinality_wander_join_flat(
        &path_query(vec![]),
        &path_data(),
        450,
        Some(5),
        &first_candidate,
    )
    .unwrap();
    assert_eq!(turns.len(), 450);
    assert_eq!((turns[0].current, turns[1].current, turns[4].current), (0, 1, 0));
    assert!(turns[396].chosen.is_none());
    assert_eq!(turns[397].chosen, Some(0));
    assert_eq!(turns[449].chosen, Some(0));
}

#[test]
fn populations_are_averaged() {
    assert_eq!(average_population(&path_query(vec![]), &path_data()), Some(1));
    assert_eq!(average_population(&cycle_query(), &cycle_data(true)), Some(1));
    let empty =
        Query { vertices: vec![], edges: vec![], predicates: vec![] }.build_graph().unwrap();
    assert_eq!(average_population(&empty, &path_data()), None);
}
