use gcard::catch_up::UpdateError;
use gcard::csv::{csv_snapshot, scalar_to_csv, write_edge_csv, write_vertex_csv};
use gcard::deltas::Deltas;
use gcard::flat::{FlatGraph, FlatGraphBuilder};
use gcard::pattern::{AltKey, PathPattern, StarStatKey};
use gcard::random_insert::{do_random_insert, InsertError};
use gcard::random_update::do_random_update;
use gcard::statistic::{PathKey, Statistic};
use gcard::table::Table;
use gcard::update_log::GCardUpdateLog;
use gcard::value::{evaluate, matches_like, ComparisonOp, ScalarValue};

fn texts(labels: &[&str]) -> Vec<String> {
    labels.iter().map(|l| l.to_string()).collect()
}

fn key(labels: &[&str]) -> AltKey {
    AltKey::new(texts(labels))
}

fn degree(statistic: &Statistic, label: &str, path: &AltKey, v: u64) -> Option<u64> {
    let known = statistic.label_statistic(label)?;
    let rank = known.rank_of(v)?;
    known.path_statistic.get(path)?.recover_upper_bound_at_rank(rank)
}

/// A line of persons 1 - 2 - 3, of whom 3 lives in 9.
fn data() -> FlatGraph {
    let mut builder = FlatGraphBuilder::new();
    builder.set_edge_type_schema("knows", "person", "person");
    builder.set_edge_type_schema("lives", "person", "city");
    for id in 1..=3 {
        builder.add_vertex(id, "person", vec![]);
    }
    builder.add_vertex(9, "city", vec![]);
    builder.add_edge(1, 1, "person", 2, "person", "knows", vec![]);
    builder.add_edge(2, 2, "person", 3, "person", "knows", vec![]);
    builder.add_edge(3, 3, "person", 9, "city", "lives", vec![]);
    builder.build()
}

fn lives() -> AltKey {
    key(&["person", "lives", "city"])
}

fn knows() -> AltKey {
    key(&["person", "knows", "person"])
}

fn friend_lives() -> AltKey {
    key(&["person", "knows", "person", "lives", "city"])
}

fn statistic() -> Statistic {
    let mut statistic = Statistic::new();
    let persons = vec![1, 2, 3];
    statistic.insert_or_update("person", &persons, lives(), &vec![0, 0, 1]).unwrap();
    statistic.insert_or_update("person", &persons, knows(), &vec![1, 2, 1]).unwrap();
    statistic.insert_or_update("person", &persons, friend_lives(), &vec![0, 1, 0]).unwrap();
    statistic.insert_or_update("city", &vec![9], lives(), &vec![1]).unwrap();
    statistic.insert_or_update("city", &vec![9], friend_lives(), &vec![1]).unwrap();
    statistic
}

#[test]
fn edges_are_logged_at_both_ends() {
    let mut log = GCardUpdateLog::new(2);
    log.record_insert_edge(1, "person", 9, "city", "lives");
    assert_eq!(log.entries.len(), 2);
    assert_eq!(log.entries[0].label, "person");
    assert_eq!(log.entries[0].nodes.entries, vec![(1, 1)]);
    assert_eq!(log.entries[0].res_len, 1);
    assert_eq!(log.entries[1].label, "city");
    assert_eq!(log.entries[1].nodes.entries, vec![(9, 1)]);
    log.record_delete_edge(2, "person", 9, "city", "lives");
    assert_eq!(log.entries.len(), 2);
    assert_eq!(log.entries[0].nodes.entries, vec![(1, 1), (2, -1)]);
    assert!(log.entries[1].nodes.entries.is_empty());
}

#[test]
fn logged_paths_begin_at_their_label() {
    let mut log = GCardUpdateLog::new(2);
    log.record_insert_edge(1, "person", 9, "city", "lives");
    assert_eq!(log.entries[0].template.raw, texts(&["person", "lives", "city"]));
    assert_eq!(log.entries[1].template.raw, texts(&["city", "lives", "person"]));
    let neighbors = vec![(5, "dog".to_string(), "has".to_string())];
    log.record_delete_vertex(1, "person", &neighbors);
    assert_eq!(log.entries.len(), 3);
    assert_eq!(log.entries[2].label, "dog");
    assert_eq!(log.entries[2].template.raw, texts(&["dog", "has", "person"]));
    assert_eq!(log.entries[2].res_len, 1);
}

#[test]
fn coming_and_going_leave_no_trace() {
    let mut log = GCardUpdateLog::new(3);
    log.record_insert_edge(1, "person", 9, "city", "lives");
    log.record_delete_edge(1, "person", 9, "city", "lives");
    assert!(log.entries.iter().all(|e| e.nodes.entries.is_empty()));
    assert_eq!(GCardUpdateLog::new(0).max_k, 0);
}

#[test]
fn deleted_vertices_are_logged_with_their_neighbors() {
    let mut log = GCardUpdateLog::new(2);
    let neighbors = vec![
        (1, "person".to_string(), "knows".to_string()),
        (3, "person".to_string(), "knows".to_string()),
    ];
    log.record_delete_vertex(2, "person", &neighbors);
    assert_eq!(log.deleted_vertices, vec![2]);
    assert_eq!(log.entries.len(), 1);
    assert_eq!(log.entries[0].nodes.entries, vec![(1, -1), (3, -1)]);
}

#[test]
fn logged_edges_change_paths_of_the_full_length() {
    let mut graph = data();
    let mut known = statistic();
    let mut log = GCardUpdateLog::new(2);
    graph.record_insert_edge(4, 1, "person", 9, "city", "lives", vec![]);
    log.record_insert_edge(1, "person", 9, "city", "lives");
    let dirty = log.compact_and_apply_flat(&graph, &mut known).unwrap();
    graph.apply_pending();
    assert_eq!(degree(&known, "person", &friend_lives(), 2), Some(2));
    assert_eq!(degree(&known, "person", &friend_lives(), 1), Some(0));
    assert_eq!(degree(&known, "person", &lives(), 1), Some(0));
    assert_eq!(degree(&known, "city", &lives(), 9), Some(1));
    assert!(log.entries.is_empty());
    assert!(dirty.iter().any(|k| k.label == "person" && k.path.same_as(&friend_lives())));
    assert!(!dirty.iter().any(|k| k.label == "person" && k.path.same_as(&lives())));
    assert_eq!(graph.edge_count_by_label("lives"), 2);
}

#[test]
fn logged_edges_change_both_ends() {
    let mut known = statistic();
    let mut log = GCardUpdateLog::new(1);
    log.record_insert_edge(1, "person", 9, "city", "lives");
    log.record_insert_edge(2, "person", 9, "city", "lives");
    log.record_delete_edge(3, "person", 9, "city", "lives");
    log.compact_and_apply_flat(&data(), &mut known).unwrap();
    assert_eq!(degree(&known, "person", &lives(), 1), Some(1));
    assert_eq!(degree(&known, "person", &lives(), 2), Some(1));
    assert_eq!(degree(&known, "person", &lives(), 3), Some(0));
    assert_eq!(degree(&known, "city", &lives(), 9), Some(2));
}

#[test]
fn degrees_do_not_go_below_zero() {
    let mut known = statistic();
    let mut log = GCardUpdateLog::new(1);
    log.record_delete_edge(1, "person", 9, "city", "lives");
    log.compact_and_apply_flat(&data(), &mut known).unwrap();
    assert_eq!(degree(&known, "person", &lives(), 1), Some(0));
}

#[test]
fn an_empty_log_changes_nothing() {
    let mut known = statistic();
    let before = format!("{:?}", known.label_path_statistic.entries[0].1.path_statistic);
    let dirty = GCardUpdateLog::new(2).compact_and_apply_flat(&data(), &mut known).unwrap();
    assert!(dirty.is_empty());
    assert_eq!(before, format!("{:?}", known.label_path_statistic.entries[0].1.path_statistic));
}

#[test]
fn deleted_vertices_leave_the_statistic() {
    let mut graph = data();
    let mut known = statistic();
    let mut log = GCardUpdateLog::new(1);
    let neighbors: Vec<(u64, String, String)> = graph
        .incident_edges(3)
        .iter()
        .map(|e| (e.neighbor, e.neighbor_label.clone(), e.label.clone()))
        .collect();
    assert_eq!(neighbors.len(), 2);
    log.record_delete_vertex(3, "person", &neighbors);
    graph.record_delete_edge(2);
    graph.record_delete_edge(3);
    graph.record_delete_vertex(3);
    log.compact_and_apply_flat(&graph, &mut known).unwrap();
    graph.apply_pending();
    assert_eq!(degree(&known, "person", &knows(), 3), None);
    assert_eq!(degree(&known, "person", &knows(), 2), Some(1));
    assert_eq!(degree(&known, "city", &lives(), 9), Some(0));
    assert!(log.deleted_vertices.is_empty());
    assert_eq!(graph.vertex_count_by_label("person"), 2);
    assert_eq!(graph.vertex_label(3), None);
}

#[test]
fn stars_wait_for_their_own_update() {
    let mut graph = data();
    let mut known = statistic();
    let star = StarStatKey::new(
        "person".to_string(),
        vec![
            PathPattern::new_without_reverse(texts(&["person", "city"]), texts(&["lives"])),
            PathPattern::new_without_reverse(texts(&["person", "person"]), texts(&["knows"])),
        ],
    );
    known.insert_or_update_star("person", &vec![1, 2, 3], star.copy(), &vec![0, 0, 1]).unwrap();
    let mut log = GCardUpdateLog::new(1);
    graph.record_insert_edge(4, 2, "person", 9, "city", "lives", vec![]);
    log.record_insert_edge(2, "person", 9, "city", "lives");
    log.compact_and_apply_flat(&graph, &mut known).unwrap();
    let label = known.label_statistic("person").unwrap();
    assert_eq!(label.star_statistic.get(&star).unwrap().degrees, vec![0, 0, 1]);
    let mut changed: Table<PathKey, Deltas> = Table::new();
    let mut nodes = Deltas::new();
    assert!(nodes.add_to(2, 1));
    changed.insert(PathKey { label: "person".to_string(), path: lives() }, nodes);
    let touched = known.apply_star_updates_from_path_dirty(&changed);
    assert_eq!(touched.len(), 1);
    assert!(touched[0].same_as(&star));
    let label = known.label_statistic("person").unwrap();
    assert_eq!(label.star_statistic.get(&star).unwrap().degrees, vec![0, 2, 1]);
}

fn half(n: usize) -> usize {
    n / 2
}

fn all(n: usize) -> usize {
    n
}

#[test]
fn insertions_get_new_ids() {
    let mut graph = data();
    let mut known = statistic();
    let mut log = GCardUpdateLog::new(1);
    let report =
        do_random_insert(&mut graph, &mut log, &mut known, &all, 7, None, None).unwrap();
    assert_eq!(report.inserted_vertices, 4);
    assert_eq!(report.inserted_edges, 3);
    assert_eq!(graph.vertex_count_by_label("person"), 6);
    assert_eq!(graph.vertex_count_by_label("city"), 2);
    assert_eq!(graph.edge_count_by_label("knows"), 4);
    let mut ids = graph.all_edge_ids();
    ids.sort_unstable();
    assert_eq!(ids, vec![1, 2, 3, 4, 5, 6]);
    let mut persons = graph.all_vertex_ids_by_label("person");
    persons.extend(graph.all_vertex_ids_by_label("city"));
    persons.sort_unstable();
    assert_eq!(persons, vec![1, 2, 3, 9, 10, 11, 12, 13]);
}

#[test]
fn insertions_can_be_for_one_label() {
    let mut graph = data();
    let mut known = statistic();
    let mut log = GCardUpdateLog::new(1);
    let report =
        do_random_insert(&mut graph, &mut log, &mut known, &all, 7, None, Some("lives")).unwrap();
    assert_eq!((report.inserted_vertices, report.inserted_edges), (0, 1));
    let report = do_random_insert(
        &mut graph,
        &mut log,
        &mut known,
        &all,
        7,
        Some("city"),
        Some("lives"),
    )
    .unwrap();
    assert_eq!((report.inserted_vertices, report.inserted_edges), (1, 2));
    let fault = do_random_insert(&mut graph, &mut log, &mut known, &all, 7, Some("dog"), None);
    assert!(matches!(fault, Err(InsertError::UnknownVertexLabel(l)) if l == "dog"));
    let fault = do_random_insert(&mut graph, &mut log, &mut known, &all, 7, None, Some("bites"));
    assert!(matches!(fault, Err(InsertError::UnknownEdgeLabel(l)) if l == "bites"));
}

#[test]
fn insertions_need_ids_that_are_free() {
    let mut builder = FlatGraphBuilder::new();
    builder.add_vertex(u64::MAX, "a", vec![]);
    let mut graph = builder.build();
    let mut log = GCardUpdateLog::new(1);
    let fault =
        do_random_insert(&mut graph, &mut log, &mut Statistic::new(), &all, 7, None, None);
    assert!(matches!(fault, Err(InsertError::TooMany)));
    assert_eq!(graph.vertex_count_by_label("a"), 1);
}

#[test]
fn changes_that_do_not_fit_are_refused() {
    let mut known = statistic();
    let mut log = GCardUpdateLog::new(2);
    log.record_insert_edge(1, "person", 9, "city", "lives");
    log.entries[0].nodes.entries = vec![(1, i64::MAX), (3, i64::MAX)];
    let fault = log.compact_and_apply_flat(&data(), &mut known);
    assert_eq!(fault.unwrap_err(), UpdateError::Overflow);
}

#[test]
fn deletions_leave_no_loose_edges() {
    let mut graph = data();
    let mut known = statistic();
    let mut log = GCardUpdateLog::new(1);
    let report = do_random_update(&mut graph, &mut log, &mut known, &half, 3).unwrap();
    assert_eq!(report.deleted_vertices, 2);
    let left: Vec<u64> = graph
        .all_labels()
        .iter()
        .flat_map(|l| graph.all_vertex_ids_by_label(l))
        .collect();
    assert_eq!(left.len(), 2);
    for id in graph.all_edge_ids() {
        let edge = graph.edge_endpoints(id).unwrap();
        assert!(left.contains(&edge.src) && left.contains(&edge.dst));
    }
    assert_eq!(graph.all_edge_ids().len() + report.deleted_edges, 3);
    let mut everything = data();
    let report =
        do_random_update(&mut everything, &mut log, &mut statistic(), &all, 3).unwrap();
    assert_eq!((report.deleted_vertices, report.deleted_edges), (4, 3));
    assert!(everything.all_edge_ids().is_empty());
}

#[test]
fn deletions_are_drawn_in_some_order() {
    let mut builder = FlatGraphBuilder::new();
    for id in 0..40 {
        builder.add_vertex(id, "a", vec![]);
    }
    let mut graph = builder.build();
    let mut log = GCardUpdateLog::new(1);
    do_random_update(&mut graph, &mut log, &mut Statistic::new(), &half, 3).unwrap();
    let left = graph.all_vertex_ids_by_label("a");
    assert_eq!(left.len(), 20);
    let last: Vec<u64> = (20..40).collect();
    assert_ne!(left, last);
}

#[test]
fn pending_changes_wait() {
    let mut graph = data();
    graph.record_insert_vertex(20, "city", vec![]);
    graph.record_delete_edge(1);
    assert_eq!(graph.vertex_count_by_label("city"), 1);
    assert_eq!(graph.edge_count_by_label("knows"), 2);
    graph.apply_pending();
    assert_eq!(graph.vertex_count_by_label("city"), 2);
    assert_eq!(graph.edge_count_by_label("knows"), 1);
    let steps = graph.edge_extensions_for_label("city");
    assert_eq!(steps.len(), 1);
    assert_eq!((steps[0].edge_label.as_str(), steps[0].outgoing), ("lives", false));
}

fn float_text(_: &ScalarValue) -> String {
    "1.5".to_string()
}

#[test]
fn fields_are_quoted_where_needed() {
    let field = |v: ScalarValue| scalar_to_csv(&v, &float_text);
    let text = |s: &str| ScalarValue::String(Some(s.to_string()));
    assert_eq!(field(text("plain")), "plain");
    assert_eq!(field(text("a,b")), "\"a,b\"");
    assert_eq!(field(text("say \"hi\"")), "\"say \"\"hi\"\"\"");
    assert_eq!(field(text("two\nlines")), "\"two\nlines\"");
    assert_eq!(field(ScalarValue::Int64(Some(-7))), "-7");
    assert_eq!(field(ScalarValue::UInt64(Some(u64::MAX))), "18446744073709551615");
    assert_eq!(field(ScalarValue::Boolean(Some(true))), "true");
    assert_eq!(field(ScalarValue::Float64(Some(3))), "1.5");
    assert_eq!(field(ScalarValue::Null), "");
    assert_eq!(field(ScalarValue::Int64(None)), "");
}

#[test]
fn snapshots_have_one_table_per_label() {
    let mut builder = FlatGraphBuilder::new();
    builder.set_vertex_prop_schema("a", texts(&["name", "age"]));
    builder.set_edge_prop_schema("e", texts(&["since"]));
    builder.add_vertex(1, "a", vec![ScalarValue::String(Some("x,y".to_string()))]);
    builder.add_vertex(2, "a", vec![]);
    builder.add_edge(8, 2, "a", 1, "a", "e", vec![]);
    builder.add_edge(7, 1, "a", 2, "a", "e", vec![ScalarValue::Int32(Some(5))]);
    let graph = builder.build();
    assert_eq!(write_vertex_csv(&graph, "a", &float_text), "id,name,age\n1,\"x,y\",\n2,,\n");
    assert_eq!(
        write_edge_csv(&graph, "e", &vec![7, 8], &float_text),
        "src,dst,since\n1,2,5\n2,1,\n"
    );
    let tables = csv_snapshot(&graph, &float_text);
    assert_eq!(tables.len(), 2);
    assert_eq!(tables[0].label, "a");
    assert_eq!(tables[1].label, "e");
    assert_eq!(tables[1].text, "src,dst,since\n1,2,5\n2,1,\n");
}

#[test]
fn patterns_match_with_wildcards() {
    assert!(matches_like("producer", "pro%"));
    assert!(matches_like("producer", "%duc%"));
    assert!(matches_like("abc", "a_c"));
    assert!(!matches_like("abc", "a_"));
    assert!(matches_like("", "%"));
    assert!(!matches_like("Abc", "abc"));
}

#[test]
fn values_of_one_kind_are_compared() {
    let int = |n: i64| ScalarValue::Int64(Some(n));
    let holds = |a: &ScalarValue, op: ComparisonOp, b: &ScalarValue| evaluate(a, op, b, &vec![]);
    assert!(holds(&int(3), ComparisonOp::Lt, &int(4)));
    assert!(holds(&int(4), ComparisonOp::Ge, &int(4)));
    assert!(holds(&int(3), ComparisonOp::Ne, &int(4)));
    assert!(!holds(&int(5), ComparisonOp::Le, &int(4)));
    assert!(holds(&int(5), ComparisonOp::Gt, &int(4)));
    let null = ScalarValue::Int64(None);
    assert!(holds(&null, ComparisonOp::IsNull, &int(1)));
    for op in [ComparisonOp::Eq, ComparisonOp::Ne, ComparisonOp::Lt, ComparisonOp::IsNotNull] {
        assert!(!holds(&null, op, &int(1)));
    }
    assert!(evaluate(&int(2), ComparisonOp::In, &ScalarValue::Null, &vec![int(1), int(2)]));
}
