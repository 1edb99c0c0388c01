use gcard::checkpoint::GraphCheckpoint;
use gcard::memory_graph::{Edge, MemoryGraph, Vertex, VersionedEdge, VersionedVertex};
use gcard::value::ScalarValue;

const PERSON: u32 = 1;
const FRIEND: u32 = 1;
const FOLLOW: u32 = 2;

fn text(value: &str) -> ScalarValue {
    ScalarValue::String(Some(value.to_string()))
}

fn add_vertex(graph: &mut MemoryGraph, vid: u64, name: &str, age: i32) {
    let data = Vertex {
        vid,
        label_id: PERSON,
        properties: vec![text(name), ScalarValue::Int32(Some(age))],
    };
    graph.vertices.insert(vid, VersionedVertex::new(data, 10 + vid));
}

fn add_edge(graph: &mut MemoryGraph, eid: u64, src_id: u64, dst_id: u64, label_id: u32, since: &str) {
    let data = Edge { eid, src_id, dst_id, label_id, properties: vec![text(since)] };
    graph.edges.insert(eid, VersionedEdge::new(data, 20 + eid));
}

fn mock_graph() -> MemoryGraph {
    let mut graph = MemoryGraph::new();
    add_vertex(&mut graph, 1, "Alice", 25);
    add_vertex(&mut graph, 2, "Bob", 28);
    add_vertex(&mut graph, 3, "Carol", 24);
    add_vertex(&mut graph, 4, "David", 27);
    add_edge(&mut graph, 1, 1, 2, FRIEND, "2020-01-01");
    add_edge(&mut graph, 2, 2, 3, FRIEND, "2021-03-15");
    add_edge(&mut graph, 3, 1, 3, FOLLOW, "2022-06-01");
    add_edge(&mut graph, 4, 4, 1, FOLLOW, "2022-09-01");
    graph.latest_commit_ts = 30;
    graph
}

#[test]
fn test_checkpoint_creation() {
    let graph = mock_graph();
    let checkpoint = GraphCheckpoint::new(&graph, 7, 1000);
    assert!(checkpoint.vertices.len() == 4);
    assert!(checkpoint.edges.len() == 4);
    let alice_vid: u64 = 1;
    let alice_serialized = checkpoint.vertices.get(&alice_vid).unwrap();
    assert_eq!(alice_serialized.data.vid, alice_vid);
    assert!(matches!(&alice_serialized.data.properties[0],
        ScalarValue::String(Some(name)) if name == "Alice"));
    assert_eq!(alice_serialized.commit_ts, 11);
    assert_eq!(checkpoint.metadata.lsn, 7);
    assert_eq!(checkpoint.metadata.timestamp, 1000);
    assert_eq!(checkpoint.metadata.latest_commit_ts, 30);
    assert_eq!(checkpoint.metadata.version, 1);
}

fn properties(values: &[ScalarValue]) -> String {
    format!("{:?}", values)
}

#[test]
fn test_checkpoint_restore() {
    let original_graph = mock_graph();
    let checkpoint = GraphCheckpoint::new(&original_graph, 7, 1000);
    let mut restored_graph = MemoryGraph::new();
    checkpoint.restore(&mut restored_graph);
    for vid in [1u64, 2] {
        let original = &original_graph.vertices.get(&vid).unwrap().current;
        let restored = &restored_graph.vertices.get(&vid).unwrap().current;
        assert_eq!(original.vid, restored.vid);
        assert_eq!(properties(&original.properties), properties(&restored.properties));
    }
    for eid in [1u64, 3] {
        let original = &original_graph.edges.get(&eid).unwrap().current;
        let restored = &restored_graph.edges.get(&eid).unwrap().current;
        assert_eq!(original.eid, restored.eid);
        assert_eq!(properties(&original.properties), properties(&restored.properties));
    }
    let restored_alice_adj = restored_graph.adjacency_list.get(&1).unwrap();
    assert_eq!(restored_alice_adj.outgoing.len(), 2);
    assert_eq!(restored_alice_adj.incoming.len(), 1);
}

#[test]
fn restored_graphs_go_on_where_the_checkpoint_was() {
    let mut graph = MemoryGraph::new();
    GraphCheckpoint::new(&mock_graph(), 7, 1000).restore(&mut graph);
    assert_eq!(graph.next_lsn, 8);
    assert_eq!(graph.latest_commit_ts, 30);
    assert_eq!(graph.vertices_by_label.get(&PERSON).unwrap(), &vec![1, 2, 3, 4]);
    assert_eq!(graph.vertices.get(&3).unwrap().commit_ts, 13);
    assert!(graph.vertices.get(&3).unwrap().older.is_empty());
    assert_eq!(graph.edges.get(&4).unwrap().commit_ts, 24);
    let david = graph.adjacency_list.get(&4).unwrap();
    assert_eq!(david.outgoing.len(), 1);
    assert_eq!((david.outgoing[0].neighbor_id, david.outgoing[0].eid), (1, 4));
    assert_eq!(david.outgoing[0].label_id, FOLLOW);
    assert!(david.incoming.is_empty());
}

#[test]
fn checkpoints_of_restored_graphs_are_the_same() {
    let first = GraphCheckpoint::new(&mock_graph(), 7, 1000);
    let mut graph = MemoryGraph::new();
    GraphCheckpoint::new(&mock_graph(), 7, 1000).restore(&mut graph);
    let second = GraphCheckpoint::new(&graph, 7, 1000);
    assert_eq!(format!("{:?}", first), format!("{:?}", second));
}

#[test]
fn restored_vertices_take_the_place_of_others() {
    let mut graph = MemoryGraph::new();
    add_vertex(&mut graph, 1, "Eve", 40);
    add_vertex(&mut graph, 9, "Zoe", 41);
    GraphCheckpoint::new(&mock_graph(), 0, 1).restore(&mut graph);
    assert_eq!(graph.vertices.len(), 5);
    assert!(matches!(&graph.vertices.get(&1).unwrap().current.properties[0],
        ScalarValue::String(Some(name)) if name == "Alice"));
    assert!(matches!(&graph.vertices.get(&9).unwrap().current.properties[0],
        ScalarValue::String(Some(name)) if name == "Zoe"));
    assert_eq!(graph.next_lsn, 1);
}

#[test]
fn restoring_twice_lists_every_edge_once() {
    let mut graph = MemoryGraph::new();
    GraphCheckpoint::new(&mock_graph(), 7, 1000).restore(&mut graph);
    GraphCheckpoint::new(&mock_graph(), 8, 1001).restore(&mut graph);
    let alice = graph.adjacency_list.get(&1).unwrap();
    let mut leaving: Vec<u64> = alice.outgoing.iter().map(|n| n.eid).collect();
    leaving.sort_unstable();
    assert_eq!(leaving, vec![1, 3]);
    assert_eq!(alice.incoming.iter().map(|n| n.eid).collect::<Vec<u64>>(), vec![4]);
    assert_eq!(graph.next_lsn, 9);
}

#[test]
fn restored_versions_have_no_older_ones() {
    let mut graph = mock_graph();
    let before = graph.vertices.get(&1).unwrap().current.copy();
    let mut known = VersionedVertex::new(before.copy(), 11);
    known.older.push((before, 5));
    graph.vertices.insert(1, known);
    GraphCheckpoint::new(&graph, 7, 1000).restore(&mut graph);
    assert!(graph.vertices.get(&1).unwrap().older.is_empty());
    assert!(graph.edges.get(&1).unwrap().older.is_empty());
}
