use gcard::deltas::Deltas;
use gcard::pattern::{AltKey, PathPattern, StarStatKey};
use gcard::statistic::{shift, PathKey, Statistic, StatisticError};
use gcard::table::Table;

fn texts(labels: &[&str]) -> Vec<String> {
    labels.iter().map(|l| l.to_string()).collect()
}

fn path_key(label: &str, path: AltKey) -> PathKey {
    PathKey { label: label.to_string(), path }
}

fn changes(entries: &[(u64, i64)]) -> Deltas {
    let mut deltas = Deltas::new();
    for &(v, delta) in entries {
        assert!(deltas.add_to(v, delta));
    }
    deltas
}

fn grouped(label: &str, path: AltKey, deltas: Deltas) -> Table<String, Vec<(AltKey, Deltas)>> {
    let mut table: Table<String, Vec<(AltKey, Deltas)>> = Table::new();
    table.insert(label.to_string(), vec![(path, deltas)]);
    table
}

fn lists_star(statistic: &Statistic, key: &PathKey, star: &StarStatKey) -> bool {
    match statistic.arm_to_star_keys.get(key) {
        Some(stars) => stars.iter().any(|s| s.same_as(star)),
        None => false,
    }
}

#[test]
fn star_statistic_is_stored_once_for_center_vertices() {
    let star_key = StarStatKey::new(
        "person".to_string(),
        vec![PathPattern::new_without_reverse(texts(&["person", "post"]), texts(&["created"]))],
    );
    let mut statistic = Statistic::new();
    statistic
        .insert_or_update_star("person", &vec![1, 2, 3], star_key.copy(), &vec![4, 5, 6])
        .unwrap();
    let person_stats = statistic.label_statistic("person").unwrap();
    assert_eq!(person_stats.star_statistic.len(), 1);
    assert_eq!(person_stats.vertex_ids, vec![1, 2, 3]);
    let compressed = statistic.to_degree_seq_graph_compressed();
    assert_eq!(compressed.star_stats.len(), 1);
    assert!(compressed.find_star(&star_key).is_some());
    assert!(compressed.edge_set_to_endpoints.is_empty());
}

#[test]
fn star_update_recomputes_product_from_current_path_degrees() {
    let arm_a = PathPattern::new(texts(&["person", "person"]), texts(&["knows"]));
    let arm_b = PathPattern::new(texts(&["person", "city"]), texts(&["livesin"]));
    let star_key = StarStatKey::new("person".to_string(), vec![arm_a.copy(), arm_b.copy()]);
    let mut statistic = Statistic::new();
    let vids = vec![10u64, 20, 30, 40];
    let arm_a_seq = vec![2u64, 1, 0, 0];
    let arm_b_seq = vec![1u64, 1, 1, 0];
    statistic.insert_or_update("person", &vids, arm_a.to_alt_key(), &arm_a_seq).unwrap();
    statistic.insert_or_update("person", &vids, arm_b.to_alt_key(), &arm_b_seq).unwrap();
    let star_seq: Vec<u64> = arm_a_seq.iter().zip(&arm_b_seq).map(|(a, b)| a * b).collect();
    statistic.insert_or_update_star("person", &vids, star_key.copy(), &star_seq).unwrap();
    let arm_a_alt = arm_a.to_alt_key();
    let arm_b_alt = arm_b.to_alt_key();
    assert!(lists_star(&statistic, &path_key("person", arm_a_alt.copy()), &star_key));
    assert!(lists_star(&statistic, &path_key("person", arm_b_alt.copy()), &star_key));
    statistic.apply_grouped_deltas(&grouped("person", arm_a_alt.copy(), changes(&[(30, 1)])));
    let mut path_dirty: Table<PathKey, Deltas> = Table::new();
    path_dirty.insert(path_key("person", arm_a_alt.copy()), changes(&[(30, 1)]));
    let dirty_star_keys = statistic.apply_star_updates_from_path_dirty(&path_dirty);
    assert!(dirty_star_keys.iter().any(|s| s.same_as(&star_key)));
    let ls = statistic.label_statistic("person").unwrap();
    let rank_30 = ls.rank_of(30).unwrap();
    let star_bs = ls.star_statistic.get(&star_key).unwrap();
    let arm_a_bs = ls.path_statistic.get(&arm_a_alt).unwrap();
    let arm_b_bs = ls.path_statistic.get(&arm_b_alt).unwrap();
    let d_a = arm_a_bs.recover_upper_bound_at_rank(rank_30).unwrap();
    let d_b = arm_b_bs.recover_upper_bound_at_rank(rank_30).unwrap();
    let star_val = star_bs.recover_upper_bound_at_rank(rank_30).unwrap();
    assert_eq!(d_a, 1);
    assert_eq!(d_b, 1);
    assert_eq!(star_val, d_a * d_b);
}

#[test]
fn rebuild_indexes_restores_arm_to_star_index() {
    let arm = PathPattern::new(texts(&["person", "post"]), texts(&["created"]));
    let star_key = StarStatKey::new("person".to_string(), vec![arm.copy()]);
    let mut statistic = Statistic::new();
    statistic
        .insert_or_update("person", &vec![1, 2, 3], arm.to_alt_key(), &vec![1, 1, 1])
        .unwrap();
    statistic
        .insert_or_update_star("person", &vec![1, 2, 3], star_key.copy(), &vec![1, 1, 1])
        .unwrap();
    statistic.arm_to_star_keys = Table::new();
    statistic.rebuild_indexes();
    assert!(lists_star(&statistic, &path_key("person", arm.to_alt_key()), &star_key));
}

fn knows() -> AltKey {
    PathPattern::new(texts(&["person", "person"]), texts(&["knows"])).to_alt_key()
}

fn degrees(statistic: &Statistic) -> Vec<u64> {
    statistic.label_statistic("person").unwrap().path_statistic.get(&knows()).unwrap().degrees.clone()
}

#[test]
fn vertices_are_put_in_order() {
    let mut statistic = Statistic::new();
    statistic.insert_or_update("person", &vec![30, 10, 20], knows(), &vec![3, 1, 2]).unwrap();
    assert_eq!(statistic.label_statistic("person").unwrap().vertex_ids, vec![10, 20, 30]);
    assert_eq!(degrees(&statistic), vec![1, 2, 3]);
}

#[test]
fn degrees_that_do_not_fit_are_refused() {
    let mut statistic = Statistic::new();
    assert_eq!(
        statistic.insert_or_update("person", &vec![1, 2], knows(), &vec![1]).unwrap_err(),
        StatisticError::LengthMismatch
    );
    statistic.insert_or_update("person", &vec![1, 2], knows(), &vec![1, 1]).unwrap();
    assert_eq!(
        statistic.insert_or_update("person", &vec![1, 2, 3], knows(), &vec![1, 1, 1]).unwrap_err(),
        StatisticError::LengthDiffers
    );
    assert_eq!(
        statistic.insert_or_update("person", &vec![1, 3], knows(), &vec![1, 1]).unwrap_err(),
        StatisticError::RangeDiffers
    );
}

#[test]
fn changes_stop_at_zero() {
    assert_eq!(shift(3, -5), 0);
    assert_eq!(shift(3, -2), 1);
    assert_eq!(shift(3, 2), 5);
    let mut statistic = Statistic::new();
    statistic.insert_or_update("person", &vec![1, 2], knows(), &vec![1, 4]).unwrap();
    statistic.apply_delta("person", &knows(), 1, -3);
    statistic.apply_delta("person", &knows(), 2, 2);
    statistic.apply_delta("person", &knows(), 9, 2);
    assert_eq!(degrees(&statistic), vec![0, 6]);
}

#[test]
fn deleting_keeps_the_others_in_line() {
    let mut statistic = Statistic::new();
    statistic.insert_or_update("person", &vec![1, 2, 3], knows(), &vec![7, 8, 9]).unwrap();
    let keys = statistic.keys_for_vertex(2);
    assert_eq!(keys.len(), 1);
    assert_eq!(keys[0].1, "person");
    statistic.delete_vertex(2);
    let label = statistic.label_statistic("person").unwrap();
    assert_eq!(label.vertex_ids, vec![1, 3]);
    assert_eq!(label.rank_of(3), Some(1));
    assert_eq!(label.rank_of(2), None);
    assert_eq!(degrees(&statistic), vec![7, 9]);
    assert!(statistic.keys_for_vertex(2).is_empty());
}

#[test]
fn equal_changes_are_listed_equally() {
    let a = changes(&[(3, 2), (1, 5), (3, -1)]);
    let b = changes(&[(1, 5), (3, 1)]);
    assert_eq!(a.entries, vec![(1, 5), (3, 1)]);
    assert_eq!(a.entries, b.entries);
    let mut c = changes(&[(1, 5)]);
    assert!(c.add_to(1, -5));
    assert!(c.entries.is_empty());
    let mut d = changes(&[(1, i64::MAX)]);
    assert!(!d.add_to(1, 1));
    assert_eq!(d.get(1), i64::MAX);
}

#[test]
fn deltas_along_a_path_are_counted() {
    let mut statistic = Statistic::new();
    statistic.insert_or_update("person", &vec![1, 2, 3], knows(), &vec![1, 1, 1]).unwrap();
    let applied = statistic.apply_deltas("person", &knows(), &changes(&[(1, 2), (3, -1), (8, 4)]));
    assert_eq!(applied, 2);
    assert_eq!(degrees(&statistic), vec![3, 1, 0]);
    let catalog = statistic.to_degree_seq_graph_compressed();
    assert_eq!(catalog.materialized_degrees(&knows(), "person").unwrap(), &vec![3, 1, 0]);
    assert!(catalog.materialized_degrees(&knows(), "city").is_none());
}

#[test]
fn sequences_are_listed_by_label() {
    let mut statistic = Statistic::new();
    let lives = PathPattern::new(texts(&["person", "city"]), texts(&["lives"])).to_alt_key();
    statistic.insert_or_update("person", &vec![1, 2], lives.copy(), &vec![1, 1]).unwrap();
    statistic.insert_or_update("city", &vec![9], lives.copy(), &vec![2]).unwrap();
    statistic.insert_or_update("person", &vec![1, 2], knows(), &vec![0, 3]).unwrap();
    let catalog = statistic.to_degree_seq_graph_compressed();
    assert_eq!(catalog.edge_set_to_endpoints.len(), 2);
    for (path, listed) in &catalog.edge_set_to_endpoints {
        assert_eq!(listed.len(), if path.same_as(&lives) { 2 } else { 1 });
    }
    assert_eq!(catalog.materialized_degrees(&lives, "city").unwrap(), &vec![2]);
    assert_eq!(catalog.materialized_degrees(&lives, "person").unwrap(), &vec![1, 1]);
}
