use dashmap::DashMap;
use gcard::abstraction::abstract_edge_range_variants;
use gcard::catalog::DegreeSeqGraph;
use gcard::decompose::{residual_share, AbstractGraph, DecompositionError, QueryShape};
use gcard::decompositions::{BuildError, QueryDecomposition};
use gcard::flat::FlatGraphBuilder;
use gcard::path_query::PathQueryError;
use gcard::paths::Path;
use gcard::query::{
    AbstractEdgeDef, DecompositionDef, EdgeDef, PredicateDef, PredicateLocation, Query, QueryEdge,
    QueryError, QueryGraph, QueryVertex, VertexDef,
};
use gcard::raw_stars::PredicateApplyType;
use gcard::value::{ComparisonOp, ScalarValue};
use std::collections::HashMap;

fn vertex(id: u64, label: &str) -> VertexDef {
    VertexDef { id, label: label.to_string() }
}

fn edge(id: u64, src: u64, dst: u64) -> EdgeDef {
    EdgeDef { id, label: format!("e{}", id), src, dst }
}

fn predicate(target: &str, id: u32) -> PredicateDef {
    PredicateDef {
        predicate_id: None,
        target: target.to_string(),
        id,
        property: "p".to_string(),
        op: ComparisonOp::Eq,
        value: ScalarValue::Int64(Some(1)),
        values: Vec::new(),
    }
}

fn query(vertices: u64, edges: &[(u64, u64, u64)]) -> Query {
    Query {
        vertices: (1..=vertices).map(|v| vertex(v, &format!("v{}", v))).collect(),
        edges: edges.iter().map(|&(id, src, dst)| edge(id, src, dst)).collect(),
        predicates: Vec::new(),
    }
}

fn graph(vertices: u64, edges: &[(u64, u64, u64)]) -> QueryGraph {
    query(vertices, edges).build_graph().unwrap()
}

fn costs(list: &[(u64, u64)]) -> HashMap<u64, u64> {
    list.iter().copied().collect()
}

fn square() -> QueryGraph {
    graph(4, &[(1, 1, 2), (2, 2, 3), (3, 3, 4), (4, 4, 1)])
}

#[test]
fn queries_with_faults_are_refused() {
    let fault = |q: Query| q.build_graph().unwrap_err();
    let mut twice = query(1, &[]);
    twice.vertices.push(vertex(1, "again"));
    assert_eq!(fault(twice), QueryError::DuplicateVertexId(1));
    assert_eq!(fault(query(2, &[(5, 1, 2), (5, 2, 1)])), QueryError::DuplicateEdgeId(5));
    assert_eq!(fault(query(2, &[(5, 9, 2)])), QueryError::NoSuchSource(5, 9));
    assert_eq!(fault(query(2, &[(5, 1, 9)])), QueryError::NoSuchDestination(5, 9));
    let mut nowhere = query(2, &[(5, 1, 2)]);
    nowhere.predicates.push(predicate("vertex", 7));
    assert_eq!(fault(nowhere), QueryError::NoSuchVertex(7));
    let mut nowhere = query(2, &[(5, 1, 2)]);
    nowhere.predicates.push(predicate("edge", 6));
    assert_eq!(fault(nowhere), QueryError::NoSuchEdge(6));
    let mut odd = query(1, &[]);
    odd.predicates.push(predicate("path", 1));
    assert_eq!(fault(odd), QueryError::InvalidTarget(0));
    let mut empty = query(1, &[]);
    empty.predicates.push(PredicateDef { op: ComparisonOp::In, ..predicate("vertex", 1) });
    assert_eq!(fault(empty), QueryError::EmptyValueList(0));
    let mut same = query(1, &[]);
    same.predicates.push(PredicateDef { predicate_id: Some(4), ..predicate("vertex", 1) });
    same.predicates.push(PredicateDef { predicate_id: Some(4), ..predicate("vertex", 1) });
    assert_eq!(fault(same), QueryError::DuplicatePredicateId(4));
}

#[test]
fn predicates_are_found_where_they_are() {
    let mut q = query(2, &[(5, 1, 2)]);
    q.predicates.push(PredicateDef { predicate_id: Some(9), ..predicate("edge", 5) });
    q.predicates.push(PredicateDef { predicate_id: Some(3), ..predicate("vertex", 2) });
    let g = q.build_graph().unwrap();
    assert_eq!(g.get_predicate_location(9), Some(PredicateLocation::Edge(5)));
    assert_eq!(g.get_predicate_location(3), Some(PredicateLocation::Vertex(2)));
    assert_eq!(g.get_predicate_location(4), None);
    assert_eq!(g.get_predicate(3).unwrap().target, "vertex");
    assert_eq!(g.get_predicates(PredicateLocation::Edge(5)).len(), 1);
    assert!(g.get_predicates(PredicateLocation::Vertex(1)).is_empty());
}

#[test]
fn labels_are_taken_in_lower_case() {
    let mut q = query(1, &[]);
    q.vertices[0].label = "Person".to_string();
    assert_eq!(q.build_graph().unwrap().get_vertex(1).unwrap().label, "person");
}

#[test]
fn cycles_are_seen() {
    assert!(square().has_cycle());
    assert!(!graph(3, &[(1, 1, 2), (2, 2, 3)]).has_cycle());
    assert!(graph(2, &[(1, 1, 2), (2, 2, 1)]).has_cycle());
}

#[test]
fn the_cheapest_tree_leaves_the_dearest_edge() {
    let tree = square()
        .build_best_spanning_tree(&costs(&[(1, 5), (2, 1), (3, 9), (4, 2)]))
        .unwrap();
    let mut ids = tree.edge_ids.clone();
    ids.sort_unstable();
    assert_eq!(ids, vec![1, 2, 4]);
    assert_eq!(tree.total_score, 8);
}

#[test]
fn the_cheapest_tree_comes_first_then_the_dearest() {
    let trees = square().build_k_best_trees(&costs(&[(1, 5), (2, 1), (3, 9), (4, 2)]), 10);
    let scores: Vec<u64> = trees.iter().map(|t| t.1).collect();
    assert_eq!(scores, vec![8, 16, 15, 12]);
    assert!(trees.iter().all(|t| t.0.edges.len() == 3 && !t.0.has_cycle()));
    assert_eq!(square().build_k_best_trees(&costs(&[]), 2).len(), 2);
}

#[test]
fn ways_through_a_tree_are_found() {
    let g = square();
    assert_eq!(g.find_path_edges_in_tree(&vec![1, 2, 4], 3, 4), Some(vec![2, 1, 4]));
    assert_eq!(g.find_path_edges_in_tree(&vec![1], 1, 3), None);
    assert!(g.is_tree(&vec![1, 2, 4]));
    assert!(!g.is_tree(&vec![1, 2, 3, 4]));
}

#[test]
fn paths_of_a_length_are_found() {
    let mut found = square().find_paths_with_length(1, 3, 2);
    found.sort();
    assert_eq!(found, vec![vec![1, 2], vec![4, 3]]);
    assert!(square().find_paths_with_length(1, 3, 1).is_empty());
    let mut near = square().find_k_path_edges_between_predicates(&vec![1, 3], 2);
    near.sort_unstable();
    assert_eq!(near, vec![1, 2, 3, 4]);
}

#[test]
fn shorter_ways_between_predicates_count_too() {
    let pair = graph(2, &[(7, 1, 2)]);
    assert_eq!(pair.find_k_path_edges_between_predicates(&vec![1, 2], 2), vec![7]);
    assert_eq!(pair.find_k_path_edges_between_predicates(&vec![1, 2], 9), vec![7]);
    assert!(pair.find_k_path_edges_between_predicates(&vec![1, 2], 0).is_empty());
    assert!(pair.find_k_path_edges_between_predicates(&vec![1], 2).is_empty());
    let g = graph(4, &[(1, 1, 2), (2, 2, 3), (3, 3, 4)]);
    let mut near = g.find_k_path_edges_between_predicates(&vec![1, 2, 4], 2);
    near.sort_unstable();
    assert_eq!(near, vec![1, 2, 3]);
    assert_eq!(g.find_k_path_edges_between_predicates(&vec![1, 2, 4], 1), vec![1]);
}

#[test]
fn long_paths_are_cut() {
    let g = graph(6, &[(1, 1, 2), (2, 2, 3), (3, 3, 4), (4, 4, 5), (5, 5, 6)]);
    let paths = g.find_paths_from_pivots(&vec![1, 6]);
    assert_eq!(paths.len(), 1);
    assert_eq!(paths[0].edges, vec![1, 2, 3, 4, 5]);
    let edges = g.build_abstract_edges_for_path(&paths[0], 2);
    assert_eq!(edges.len(), 3);
    assert!(edges.iter().all(|e| e.original_edge_ids.len() <= 2));
    let all: Vec<u64> = edges.iter().flat_map(|e| e.original_edge_ids.clone()).collect();
    assert_eq!(all, vec![1, 2, 3, 4, 5]);
    assert_eq!(
        abstract_edge_range_variants(5, 2),
        vec![
            vec![(0, 1), (1, 3), (3, 5)],
            vec![(0, 2), (2, 3), (3, 5)],
            vec![(0, 2), (2, 4), (4, 5)],
        ]
    );
    assert_eq!(abstract_edge_range_variants(4, 2), vec![vec![(0, 2), (2, 4)]]);
}

#[test]
fn user_decompositions_are_checked() {
    let g = graph(3, &[(1, 1, 2), (2, 2, 3)]);
    let def = |vertices: &[u64], edges: &[u64]| AbstractEdgeDef {
        path_vertices: vertices.to_vec(),
        original_edge_ids: edges.to_vec(),
    };
    let fault = |d: AbstractEdgeDef| g.build_abstract_edge_from_def(&d).unwrap_err();
    assert_eq!(fault(def(&[1], &[])), DecompositionError::TooFewVertices);
    assert_eq!(
        fault(def(&[1, 2], &[1, 2])),
        DecompositionError::LengthMismatch { edges: 2, vertices: 2 }
    );
    assert_eq!(fault(def(&[1, 9], &[1])), DecompositionError::VertexNotFound(9));
    assert_eq!(fault(def(&[1, 2], &[9])), DecompositionError::EdgeNotFound(9));
    let whole = DecompositionDef { abstract_edges: vec![def(&[1, 2, 3], &[1, 2])] };
    let graphs = g.build_abstract_graph_flat_from_decomposition(&whole).unwrap();
    assert_eq!(graphs.len(), 1);
    assert_eq!(graphs[0].1, 0);
    assert_eq!(graphs[0].0.edges.len(), 1);
    assert_eq!(graphs[0].0.edges[0].0, 1);
    assert_eq!(graphs[0].0.vertices.iter().map(|v| v.id).collect::<Vec<u64>>(), vec![1, 3]);
    let twice = vec![
        g.build_abstract_edge_from_def(&def(&[1, 2], &[1])).unwrap(),
        g.build_abstract_edge_from_def(&def(&[1, 2], &[1])).unwrap(),
    ];
    assert!(matches!(
        g.build_abstract_graph_from_edges(twice, &vec![]),
        Err(DecompositionError::DuplicateEdge(1))
    ));
    assert!(matches!(
        g.build_abstract_graph_from_edges(vec![], &vec![8]),
        Err(DecompositionError::VertexNotFound(8))
    ));
}

#[test]
fn paths_with_faults_cannot_be_asked_for() {
    let g = graph(3, &[(1, 1, 2), (2, 2, 3)]);
    let ask = |vertices: &[u64], edges: &[u64]| {
        g.build_path_query_from_parts(&vertices.to_vec(), &edges.to_vec(), &vec![])
    };
    assert_eq!(ask(&[1, 9], &[1]).unwrap_err(), PathQueryError::VertexNotFound(9));
    assert_eq!(ask(&[1, 2], &[9]).unwrap_err(), PathQueryError::EdgeNotFound(9));
    assert_eq!(
        ask(&[1, 2], &[2]).unwrap_err(),
        PathQueryError::NotIncident { edge: 2, vertex: 1 }
    );
    assert_eq!(ask(&[1, 2, 3], &[1, 2]).unwrap().path_elements.len(), 5);
}

#[test]
fn shares_keep_the_limit() {
    assert_eq!(residual_share(3, 10, 5), 2);
    assert_eq!(residual_share(5, 10, 5), 1);
    assert_eq!(residual_share(0, 2, 5), 2);
    assert_eq!(residual_share(4, 0, 5), 0);
}

fn pivots(g: &QueryGraph) -> Vec<u64> {
    g.vertices.iter().map(|v| v.id).filter(|&v| g.get_degree(v) != 2).collect()
}

fn build(g: &QueryGraph, trees: usize, cardinalities: &[(u64, u64)]) -> Result<QueryDecomposition, BuildError> {
    let mut cache: DashMap<String, Vec<u64>> = DashMap::new();
    g.build_abstract_graph_flat(
        2,
        trees,
        &costs(cardinalities),
        &DegreeSeqGraph::new(),
        None,
        0,
        PredicateApplyType::IGNORE,
        0,
        true,
        16,
        &pivots,
        "",
        &mut cache,
    )
}

#[test]
fn edge_free_queries_need_one_vertex_and_data() {
    assert!(matches!(
        build(&graph(2, &[]), 1, &[]),
        Err(BuildError::Shape(DecompositionError::EdgeFree { vertices: 2 }))
    ));
    assert!(matches!(build(&graph(1, &[]), 1, &[]), Err(BuildError::NoData)));
    assert!(matches!(graph(1, &[]).shape(), Ok(QueryShape::SingleVertex(1))));
    assert!(matches!(square().shape(), Ok(QueryShape::Cyclic)));
    assert!(matches!(graph(2, &[(1, 1, 2)]).shape(), Ok(QueryShape::Acyclic)));
}

#[test]
fn cyclic_queries_are_decomposed_tree_by_tree() {
    let Ok(QueryDecomposition::Trees(trees)) =
        build(&square(), 3, &[(1, 5), (2, 1), (3, 9), (4, 2)])
    else {
        panic!("the query can be decomposed");
    };
    assert_eq!(trees.iter().map(|t| t.1).collect::<Vec<u64>>(), vec![8, 16, 15]);
    for (found, _) in &trees {
        for edges in &found.plain {
            let mut used: Vec<u64> =
                edges.iter().flat_map(|e| e.original_edge_ids.clone()).collect();
            used.sort_unstable();
            let mut distinct = used.clone();
            distinct.dedup();
            assert_eq!(used, distinct);
            assert_eq!(used.len(), 3);
        }
    }
    assert!(matches!(build(&square(), 0, &[]), Ok(QueryDecomposition::Trees(t)) if t.len() == 1));
}

#[test]
fn whole_graphs_are_walked_where_there_is_no_pivot() {
    let g = graph(3, &[(1, 1, 2), (2, 2, 3), (3, 3, 1)]);
    let paths: Vec<Path> = g.find_paths_from_pivots(&vec![]);
    let mut used: Vec<u64> = paths.iter().flat_map(|p| p.edges.clone()).collect();
    used.sort_unstable();
    assert_eq!(used, vec![1, 2]);
}

fn covering(graph: &QueryGraph, edges: &[(u64, u64, u64)]) -> AbstractGraph {
    let decomposition = DecompositionDef {
        abstract_edges: edges
            .iter()
            .map(|&(id, src, dst)| AbstractEdgeDef {
                path_vertices: vec![src, dst],
                original_edge_ids: vec![id],
            })
            .collect(),
    };
    let mut graphs = graph.build_abstract_graph_flat_from_decomposition(&decomposition).unwrap();
    assert_eq!(graphs.len(), 1);
    graphs.remove(0).0
}

#[test]
fn edges_left_out_close_triangles() {
    let g = graph(3, &[(7, 1, 2), (5, 2, 3), (6, 3, 1)]);
    let open = g.find_open_triangles(&covering(&g, &[(7, 1, 2), (5, 2, 3)]));
    assert_eq!(open.len(), 1);
    let found: Vec<(u64, [u64; 3], [u64; 2])> =
        open[0].iter().map(|c| (c.edge, c.path_vertices, c.path_edges)).collect();
    assert_eq!(
        found,
        vec![
            (5, [3, 1, 2], [6, 7]),
            (6, [1, 2, 3], [7, 5]),
            (7, [2, 3, 1], [5, 6]),
        ]
    );
}

#[test]
fn nothing_is_closed_without_a_triangle() {
    let g = square();
    assert!(g.find_open_triangles(&covering(&g, &[(1, 1, 2), (2, 2, 3), (3, 3, 4)])).is_empty());
    let g = graph(3, &[(1, 1, 2), (2, 2, 3), (3, 3, 1)]);
    assert!(g.find_open_triangles(&covering(&g, &[(1, 1, 2)])).is_empty());
    let all = [(1, 1, 2), (2, 2, 3), (3, 3, 1)];
    assert!(g.find_open_triangles(&covering(&g, &all)).is_empty());
    assert!(g.find_closings(&g.edges[2], &vec![1]).is_none());
}

#[test]
fn edges_are_expected_to_match_what_their_label_has() {
    let halved = |base: u64, edge: &QueryEdge, src: &QueryVertex, dst: &QueryVertex| -> u64 {
        assert_eq!((edge.src_vertex_id, edge.dst_vertex_id), (src.id, dst.id));
        base / 2
    };
    let mut builder = FlatGraphBuilder::new();
    builder.set_edge_type_schema("e1", "v1", "v2");
    builder.add_vertex(1, "v1", vec![]);
    builder.add_vertex(2, "v2", vec![]);
    for id in 0..6 {
        builder.add_edge(id, 1, "v1", 2, "v2", "e1", vec![]);
    }
    let data = builder.build();
    let plain = graph(3, &[(1, 1, 2), (2, 2, 3)]);
    assert_eq!(plain.estimate_edge_cardinalities(None, &halved), costs(&[(1, 1), (2, 1)]));
    assert_eq!(plain.estimate_edge_cardinalities(Some(&data), &halved), costs(&[(1, 6), (2, 1)]));
    for target in [("edge", 1), ("vertex", 1), ("vertex", 2)] {
        let mut narrow = query(3, &[(1, 1, 2), (2, 2, 3)]);
        narrow.predicates.push(predicate(target.0, target.1));
        let g = narrow.build_graph().unwrap();
        assert_eq!(g.estimate_edge_cardinalities(None, &halved), costs(&[(1, 1), (2, 1)]));
        assert_eq!(g.estimate_edge_cardinalities(Some(&data), &halved), costs(&[(1, 3), (2, 1)]));
    }
}

#[test]
fn no_spanning_tree_is_cheaper() {
    let g = graph(4, &[(1, 1, 2), (2, 2, 3), (3, 3, 4), (4, 4, 1), (5, 1, 3)]);
    let prices = costs(&[(1, 4), (2, 7), (3, 3), (4, 9), (5, 5)]);
    let best = g.build_best_spanning_tree(&prices).unwrap().total_score;
    assert_eq!(best, 12);
    assert!(g.build_k_best_trees(&prices, 20).iter().all(|t| t.1 >= best));
}
