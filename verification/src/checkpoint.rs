//! Checkpoints: the state of a graph in memory at one time, and how a graph gets it back.
use crate::memory_graph::{
    all_listed_once, Adjacency, AdjacencyContainer, Committed, Edge, LabelId, MemoryGraph,
    MemoryView, Neighbor, StoredEdge, StoredVertex, Timestamp, Vertex, VersionedEdge,
    VersionedVertex,
};
use crate::query::{contains_id, EdgeId, VertexId};
use crate::table::{has_key, Table};
use vstd::prelude::*;

verus! {

/// The version of the format of checkpoints.
pub const CHECKPOINT_VERSION: u32 = 1;

/// When and where a checkpoint was made.
#[derive(Debug, Clone, Copy)]
pub struct CheckpointMetadata {
    /// When it was made, in seconds.
    pub timestamp: u64,
    /// The last log record that it covers.
    pub lsn: u64,
    /// The time of the last commit that it covers.
    pub latest_commit_ts: u64,
    /// The version of its format.
    pub version: u32,
}

/// The current version of a vertex.
#[derive(Debug)]
pub struct SerializedVertex {
    pub data: Vertex,
    pub commit_ts: Timestamp,
}

/// The current version of an edge.
#[derive(Debug)]
pub struct SerializedEdge {
    pub data: Edge,
    pub commit_ts: Timestamp,
}

impl View for SerializedVertex {
    type V = Committed<StoredVertex>;

    open spec fn view(&self) -> Committed<StoredVertex> {
        Committed { data: self.data@, commit_ts: self.commit_ts }
    }
}

impl View for SerializedEdge {
    type V = Committed<StoredEdge>;

    open spec fn view(&self) -> Committed<StoredEdge> {
        Committed { data: self.data@, commit_ts: self.commit_ts }
    }
}

/// The state of a graph at one time: the current versions of its vertices and edges.
#[derive(Debug)]
pub struct GraphCheckpoint {
    pub metadata: CheckpointMetadata,
    pub vertices: Table<VertexId, SerializedVertex>,
    pub edges: Table<EdgeId, SerializedEdge>,
}

/// What a checkpoint holds; the vertices also in their order.
#[verifier::ext_equal]
pub struct CheckpointView {
    pub metadata: CheckpointMetadata,
    pub vertex_ids: Seq<VertexId>,
    pub vertices: Map<VertexId, Committed<StoredVertex>>,
    pub edges: Map<EdgeId, Committed<StoredEdge>>,
}

impl View for GraphCheckpoint {
    type V = CheckpointView;

    open spec fn view(&self) -> CheckpointView {
        CheckpointView {
            metadata: self.metadata,
            vertex_ids: self.vertices.keys(),
            vertices: self.vertices@.map_values(|v: SerializedVertex| v@),
            edges: self.edges@.map_values(|e: SerializedEdge| e@),
        }
    }
}

impl CheckpointView {
    /// The vertices are those with the ids, none of them twice.
    pub open spec fn wf(self) -> bool {
        &&& self.vertex_ids.no_duplicates()
        &&& self.vertices.dom() =~= self.vertex_ids.to_set()
    }
}

/// A map with the values that another map has for the first `n` of some keys.
pub open spec fn filled<K, V>(start: Map<K, V>, keys: Seq<K>, values: Map<K, V>, n: int) -> Map<K, V>
    decreases n,
{
    if n <= 0 {
        start
    } else {
        filled(start, keys, values, n - 1).insert(keys[n - 1], values[keys[n - 1]])
    }
}

proof fn lemma_filled<K, V>(start: Map<K, V>, keys: Seq<K>, values: Map<K, V>, n: int)
    requires
        0 <= n <= keys.len(),
    ensures
        forall|key: K| #[trigger]
            filled(start, keys, values, n).contains_key(key) <==> start.contains_key(key)
                || keys.take(n).contains(key),
        forall|key: K|
            #![trigger filled(start, keys, values, n)[key]]
            filled(start, keys, values, n).contains_key(key) ==> filled(start, keys, values, n)[key]
                == (if keys.take(n).contains(key) {
                values[key]
            } else {
                start[key]
            }),
    decreases n,
{
    if n > 0 {
        lemma_filled(start, keys, values, n - 1);
        let last = keys[n - 1];
        assert(keys.take(n)[n - 1] == last);
        assert forall|key: K| #[trigger] keys.take(n).contains(key) <==> keys.take(n - 1).contains(
            key,
        ) || key == last by {
            if keys.take(n).contains(key) {
                let all = keys.take(n);
                let i = choose|i: int| 0 <= i < all.len() && all[i] == key;
                if i < n - 1 {
                    assert(keys.take(n - 1)[i] == key);
                }
            }
            if keys.take(n - 1).contains(key) {
                let before = keys.take(n - 1);
                let i = choose|i: int| 0 <= i < before.len() && before[i] == key;
                assert(keys.take(n)[i] == key);
            }
        }
        let before = filled(start, keys, values, n - 1);
        let after = filled(start, keys, values, n);
        assert(after == before.insert(last, values[last]));
        assert forall|key: K| #[trigger] after.contains_key(key) <==> start.contains_key(key)
            || keys.take(n).contains(key) by {
            assert(before.contains_key(key) <==> start.contains_key(key) || keys.take(
                n - 1,
            ).contains(key));
        }
        assert forall|key: K| #![trigger after[key]] after.contains_key(key) implies after[key] == (
        if keys.take(n).contains(key) {
            values[key]
        } else {
            start[key]
        }) by {
            assert(keys.take(n).contains(key) <==> keys.take(n - 1).contains(key) || key == last);
            if key != last {
                assert(after[key] == before[key]);
            }
        }
    } else {
        assert(keys.take(n).len() == 0);
    }
}

proof fn lemma_filled_is_union<K, V>(start: Map<K, V>, keys: Seq<K>, values: Map<K, V>)
    requires
        values.dom() =~= keys.to_set(),
    ensures
        filled(start, keys, values, keys.len() as int) == start.union_prefer_right(values),
{
    let all = filled(start, keys, values, keys.len() as int);
    lemma_filled(start, keys, values, keys.len() as int);
    assert(keys.take(keys.len() as int) =~= keys);
    assert forall|key: K| #[trigger] all.contains_key(key) <==> start.union_prefer_right(
        values,
    ).contains_key(key) by {
        assert(values.contains_key(key) <==> keys.contains(key));
    }
    assert forall|key: K| all.contains_key(key) implies #[trigger] all[key]
        == start.union_prefer_right(values)[key] by {
        assert(values.contains_key(key) <==> keys.contains(key));
    }
    assert(all =~= start.union_prefer_right(values));
}

/// Lists of vertices by label, with the first `n` of some vertices put at the end of theirs.
pub open spec fn labels_with(
    start: Map<LabelId, Seq<VertexId>>,
    ids: Seq<VertexId>,
    vertices: Map<VertexId, Committed<StoredVertex>>,
    n: int,
) -> Map<LabelId, Seq<VertexId>>
    decreases n,
{
    if n <= 0 {
        start
    } else {
        let before = labels_with(start, ids, vertices, n - 1);
        let label = vertices[ids[n - 1]].data.label_id;
        let listed = if before.contains_key(label) {
            before[label]
        } else {
            Seq::empty()
        };
        before.insert(label, listed.push(ids[n - 1]))
    }
}

/// Whether an edge leaves or enters a vertex.
pub open spec fn touches(edges: Map<EdgeId, Committed<StoredEdge>>, v: VertexId) -> bool {
    exists|id: EdgeId|
        #![trigger edges[id]]
        edges.contains_key(id) && (edges[id].data.src_id == v || edges[id].data.dst_id == v)
}

/// The other ends of the edges that leave a vertex.
pub open spec fn leaving(edges: Map<EdgeId, Committed<StoredEdge>>, v: VertexId) -> Set<Neighbor> {
    Set::new(
        |n: Neighbor|
            edges.contains_key(n.eid) && edges[n.eid].data.src_id == v && n.neighbor_id
                == edges[n.eid].data.dst_id && n.label_id == edges[n.eid].data.label_id,
    )
}

/// The other ends of the edges that enter a vertex.
pub open spec fn entering(edges: Map<EdgeId, Committed<StoredEdge>>, v: VertexId) -> Set<Neighbor> {
    Set::new(
        |n: Neighbor|
            edges.contains_key(n.eid) && edges[n.eid].data.dst_id == v && n.neighbor_id
                == edges[n.eid].data.src_id && n.label_id == edges[n.eid].data.label_id,
    )
}

/// What is at the vertices, with that of every vertex at an edge made anew.
pub open spec fn adjacency_with(
    start: Map<VertexId, Adjacency>,
    edges: Map<EdgeId, Committed<StoredEdge>>,
) -> Map<VertexId, Adjacency> {
    Map::new(
        |v: VertexId| start.contains_key(v) || touches(edges, v),
        |v: VertexId|
            if touches(edges, v) {
                Adjacency { outgoing: leaving(edges, v), incoming: entering(edges, v) }
            } else {
                start[v]
            },
    )
}

/// A graph after a checkpoint was brought back into it.
pub open spec fn restored(graph: MemoryView, checkpoint: CheckpointView) -> MemoryView {
    let edges = graph.edges.union_prefer_right(checkpoint.edges);
    MemoryView {
        next_lsn: (checkpoint.metadata.lsn + 1) as u64,
        latest_commit_ts: checkpoint.metadata.latest_commit_ts,
        vertices: graph.vertices.union_prefer_right(checkpoint.vertices),
        edges,
        vertices_by_label: labels_with(
            graph.vertices_by_label,
            checkpoint.vertex_ids,
            checkpoint.vertices,
            checkpoint.vertex_ids.len() as int,
        ),
        adjacency_list: adjacency_with(graph.adjacency_list, edges),
    }
}

proof fn lemma_keys<V>(table: Table<u64, V>)
    requires
        table.wf(),
    ensures
        table.keys().no_duplicates(),
        table@.dom() =~= table.keys().to_set(),
{
    assert forall|i: int, j: int|
        0 <= i < table.keys().len() && 0 <= j < table.keys().len() && i != j implies table.keys()[i]
        != table.keys()[j] by {
        if i < j {
            assert(table.entries@[i].0@ != table.entries@[j].0@);
        } else {
            assert(table.entries@[j].0@ != table.entries@[i].0@);
        }
    }
    assert forall|key: u64| #[trigger] table@.dom().contains(key) <==> table.keys().contains(
        key,
    ) by {
        if table@.contains_key(key) {
            let i = table.lemma_key(key);
            assert(table.keys()[i] == key);
        }
        if table.keys().contains(key) {
            let keys = table.keys();
            let i = choose|i: int| 0 <= i < keys.len() && keys[i] == key;
            assert(table.entries@[i].0@ == key);
            assert(has_key(table.entries@, key));
        }
    }
}

impl GraphCheckpoint {
    /// No id occurs twice.
    pub open spec fn wf(self) -> bool {
        &&& self.vertices.wf()
        &&& self.edges.wf()
    }

    fn save_vertices(graph: &MemoryGraph) -> (result: Table<VertexId, SerializedVertex>)
        requires
            graph.wf(),
        ensures
            result.wf(),
            result.keys() == graph.vertices.keys(),
            result@.map_values(|v: SerializedVertex| v@) == graph@.vertices,
    {
        let ghost keys = graph.vertices.keys();
        let ghost values = graph@.vertices;
        let ghost none = Map::<VertexId, Committed<StoredVertex>>::empty();
        let mut saved: Table<VertexId, SerializedVertex> = Table::new();
        assert(saved@.map_values(|v: SerializedVertex| v@) =~= none);
        assert(saved.keys() =~= keys.take(0));
        let mut i: usize = 0;
        while i < graph.vertices.entries.len()
            invariant
                graph.wf(),
                keys == graph.vertices.keys(),
                keys.len() == graph.vertices.entries@.len(),
                values == graph@.vertices,
                none == Map::<VertexId, Committed<StoredVertex>>::empty(),
                i <= keys.len(),
                saved.wf(),
                saved.keys() == keys.take(i as int),
                saved@.map_values(|v: SerializedVertex| v@) == filled(none, keys, values, i as int),
            decreases graph.vertices.entries.len() - i,
        {
            let entry: &(VertexId, VersionedVertex) = &graph.vertices.entries[i];
            let ghost before = saved;
            proof {
                lemma_keys(graph.vertices);
                lemma_keys(saved);
                graph.vertices.lemma_entry(i as int);
                if saved@.contains_key(entry.0) {
                    assert(saved.keys().contains(entry.0));
                    let taken = keys.take(i as int);
                    let j = choose|j: int| 0 <= j < taken.len() && taken[j] == entry.0;
                    assert(keys[j] == keys[i as int]);
                }
            }
            saved.append(
                entry.0,
                SerializedVertex { data: entry.1.current.copy(), commit_ts: entry.1.commit_ts },
            );
            proof {
                let f = |v: SerializedVertex| v@;
                assert(saved@.map_values(f) =~= before@.map_values(f).insert(
                    entry.0,
                    values[entry.0],
                ));
                assert(saved.keys() =~= keys.take(i + 1));
            }
            i = i + 1;
        }
        proof {
            lemma_keys(graph.vertices);
            lemma_filled_is_union(none, keys, values);
            assert(none.union_prefer_right(values) =~= values);
            assert(keys.take(i as int) =~= keys);
        }
        saved
    }

    fn save_edges(graph: &MemoryGraph) -> (result: Table<EdgeId, SerializedEdge>)
        requires
            graph.wf(),
        ensures
            result.wf(),
            result.keys() == graph.edges.keys(),
            result@.map_values(|e: SerializedEdge| e@) == graph@.edges,
    {
        let ghost keys = graph.edges.keys();
        let ghost values = graph@.edges;
        let ghost none = Map::<EdgeId, Committed<StoredEdge>>::empty();
        let mut saved: Table<EdgeId, SerializedEdge> = Table::new();
        assert(saved@.map_values(|e: SerializedEdge| e@) =~= none);
        assert(saved.keys() =~= keys.take(0));
        let mut i: usize = 0;
        while i < graph.edges.entries.len()
            invariant
                graph.wf(),
                keys == graph.edges.keys(),
                keys.len() == graph.edges.entries@.len(),
                values == graph@.edges,
                none == Map::<EdgeId, Committed<StoredEdge>>::empty(),
                i <= keys.len(),
                saved.wf(),
                saved.keys() == keys.take(i as int),
                saved@.map_values(|e: SerializedEdge| e@) == filled(none, keys, values, i as int),
            decreases graph.edges.entries.len() - i,
        {
            let entry: &(EdgeId, VersionedEdge) = &graph.edges.entries[i];
            let ghost before = saved;
            proof {
                lemma_keys(graph.edges);
                lemma_keys(saved);
                graph.edges.lemma_entry(i as int);
                if saved@.contains_key(entry.0) {
                    assert(saved.keys().contains(entry.0));
                    let taken = keys.take(i as int);
                    let j = choose|j: int| 0 <= j < taken.len() && taken[j] == entry.0;
                    assert(keys[j] == keys[i as int]);
                }
            }
            saved.append(
                entry.0,
                SerializedEdge { data: entry.1.current.copy(), commit_ts: entry.1.commit_ts },
            );
            proof {
                let f = |e: SerializedEdge| e@;
                assert(saved@.map_values(f) =~= before@.map_values(f).insert(
                    entry.0,
                    values[entry.0],
                ));
                assert(saved.keys() =~= keys.take(i + 1));
            }
            i = i + 1;
        }
        proof {
            lemma_keys(graph.edges);
            lemma_filled_is_union(none, keys, values);
            assert(none.union_prefer_right(values) =~= values);
            assert(keys.take(i as int) =~= keys);
        }
        saved
    }

    /// A checkpoint of a graph, made at a time and after a log record.
    pub fn new(graph: &MemoryGraph, lsn: u64, timestamp: u64) -> (result: GraphCheckpoint)
        requires
            graph.wf(),
        ensures
            result.wf(),
            result@ == checkpoint_of(graph@, graph.vertices.keys(), lsn, timestamp),
    {
        let metadata = CheckpointMetadata {
            timestamp,
            lsn,
            latest_commit_ts: graph.latest_commit_ts,
            version: CHECKPOINT_VERSION,
        };
        let vertices: Table<VertexId, SerializedVertex> = GraphCheckpoint::save_vertices(graph);
        let edges: Table<EdgeId, SerializedEdge> = GraphCheckpoint::save_edges(graph);
        GraphCheckpoint { metadata, vertices, edges }
    }
}

impl GraphCheckpoint {
    fn bring_vertices(&self, vertices: &mut Table<VertexId, VersionedVertex>)
        requires
            self.wf(),
            old(vertices).wf(),
        ensures
            final(vertices).wf(),
            final(vertices)@.map_values(|v: VersionedVertex| v@) == old(vertices)@.map_values(
                |v: VersionedVertex| v@,
            ).union_prefer_right(self@.vertices),
            forall|id: VertexId| #[trigger]
                self@.vertices.contains_key(id) ==> final(vertices)@[id].older@.len() == 0,
    {
        let ghost keys = self@.vertex_ids;
        let ghost values = self@.vertices;
        let ghost f = |v: VersionedVertex| v@;
        let ghost start = vertices@.map_values(f);
        let mut i: usize = 0;
        while i < self.vertices.entries.len()
            invariant
                self.wf(),
                keys == self@.vertex_ids,
                keys.len() == self.vertices.entries@.len(),
                values == self@.vertices,
                f == (|v: VersionedVertex| v@),
                i <= keys.len(),
                vertices.wf(),
                vertices@.map_values(f) == filled(start, keys, values, i as int),
                forall|j: int|
                    #![trigger keys[j]]
                    0 <= j < i ==> vertices@[keys[j]].older@.len() == 0,
            decreases self.vertices.entries.len() - i,
        {
            let entry: &(VertexId, SerializedVertex) = &self.vertices.entries[i];
            let ghost before = vertices@;
            proof {
                self.vertices.lemma_entry(i as int);
            }
            let restored: VersionedVertex = VersionedVertex::new(
                entry.1.data.copy(),
                entry.1.commit_ts,
            );
            vertices.insert(entry.0, restored);
            proof {
                assert(keys[i as int] == entry.0);
                assert(vertices@.map_values(f) =~= before.map_values(f).insert(
                    entry.0,
                    values[entry.0],
                ));
            }
            i = i + 1;
        }
        proof {
            lemma_keys(self.vertices);
            lemma_filled_is_union(start, keys, values);
            assert forall|id: VertexId| #[trigger] self@.vertices.contains_key(
                id,
            ) implies vertices@[id].older@.len() == 0 by {
                assert(self.vertices@.dom().contains(id));
                assert(keys.to_set().contains(id));
                let j = choose|j: int| 0 <= j < keys.len() && keys[j] == id;
                assert(keys[j] == id);
            }
        }
    }

    fn bring_edges(&self, edges: &mut Table<EdgeId, VersionedEdge>)
        requires
            self.wf(),
            old(edges).wf(),
        ensures
            final(edges).wf(),
            final(edges)@.map_values(|e: VersionedEdge| e@) == old(edges)@.map_values(
                |e: VersionedEdge| e@,
            ).union_prefer_right(self@.edges),
            forall|id: EdgeId| #[trigger]
                self@.edges.contains_key(id) ==> final(edges)@[id].older@.len() == 0,
    {
        let ghost keys = self.edges.keys();
        let ghost values = self@.edges;
        let ghost f = |e: VersionedEdge| e@;
        let ghost start = edges@.map_values(f);
        let mut i: usize = 0;
        while i < self.edges.entries.len()
            invariant
                self.wf(),
                keys == self.edges.keys(),
                keys.len() == self.edges.entries@.len(),
                values == self@.edges,
                f == (|e: VersionedEdge| e@),
                i <= keys.len(),
                edges.wf(),
                edges@.map_values(f) == filled(start, keys, values, i as int),
                forall|j: int|
                    #![trigger keys[j]]
                    0 <= j < i ==> edges@[keys[j]].older@.len() == 0,
            decreases self.edges.entries.len() - i,
        {
            let entry: &(EdgeId, SerializedEdge) = &self.edges.entries[i];
            let ghost before = edges@;
            proof {
                self.edges.lemma_entry(i as int);
            }
            let restored: VersionedEdge = VersionedEdge::new(
                entry.1.data.copy(),
                entry.1.commit_ts,
            );
            edges.insert(entry.0, restored);
            proof {
                assert(keys[i as int] == entry.0);
                assert(edges@.map_values(f) =~= before.map_values(f).insert(
                    entry.0,
                    values[entry.0],
                ));
            }
            i = i + 1;
        }
        proof {
            lemma_keys(self.edges);
            lemma_filled_is_union(start, keys, values);
            assert forall|id: EdgeId| #[trigger] self@.edges.contains_key(
                id,
            ) implies edges@[id].older@.len() == 0 by {
                assert(self.edges@.dom().contains(id));
                assert(keys.to_set().contains(id));
                let j = choose|j: int| 0 <= j < keys.len() && keys[j] == id;
                assert(keys[j] == id);
            }
        }
    }

    fn list_vertices(&self, lists: &mut Table<LabelId, Vec<VertexId>>)
        requires
            self.wf(),
            old(lists).wf(),
        ensures
            final(lists).wf(),
            final(lists)@.map_values(|ids: Vec<VertexId>| ids@) == labels_with(
                old(lists)@.map_values(|ids: Vec<VertexId>| ids@),
                self@.vertex_ids,
                self@.vertices,
                self@.vertex_ids.len() as int,
            ),
    {
        let ghost keys = self@.vertex_ids;
        let ghost values = self@.vertices;
        let ghost f = |ids: Vec<VertexId>| ids@;
        let ghost start = lists@.map_values(f);
        let mut i: usize = 0;
        while i < self.vertices.entries.len()
            invariant
                self.wf(),
                keys == self@.vertex_ids,
                keys.len() == self.vertices.entries@.len(),
                values == self@.vertices,
                f == (|ids: Vec<VertexId>| ids@),
                i <= keys.len(),
                lists.wf(),
                lists@.map_values(f) == labels_with(start, keys, values, i as int),
            decreases self.vertices.entries.len() - i,
        {
            let entry: &(VertexId, SerializedVertex) = &self.vertices.entries[i];
            let label: LabelId = entry.1.data.label_id;
            let ghost before = lists@;
            proof {
                self.vertices.lemma_entry(i as int);
                assert(keys[i as int] == entry.0);
                assert(values[entry.0].data.label_id == label);
            }
            match lists.position(&label) {
                Some(place) => {
                    let mut listed: Vec<VertexId> = lists.exchange(place, Vec::new());
                    let ghost ids = listed@;
                    listed.push(entry.0);
                    assert(before[label]@ == ids);
                    lists.replace(place, listed);
                    assert(lists@.map_values(f) =~= before.map_values(f).insert(
                        label,
                        ids.push(entry.0),
                    ));
                },
                None => {
                    let mut listed: Vec<VertexId> = Vec::new();
                    listed.push(entry.0);
                    assert(listed@ =~= Seq::<VertexId>::empty().push(entry.0));
                    lists.append(label, listed);
                    assert(lists@.map_values(f) =~= before.map_values(f).insert(
                        label,
                        Seq::<VertexId>::empty().push(entry.0),
                    ));
                },
            }
            i = i + 1;
        }
    }
}

/// Whether an edge of a table leaves or enters a vertex, among the first `n`.
spec fn touches_among(entries: Seq<(EdgeId, VersionedEdge)>, v: VertexId, n: int) -> bool {
    exists|i: int|
        #![trigger entries[i]]
        0 <= i < n && (entries[i].1.current.src_id == v || entries[i].1.current.dst_id == v)
}

proof fn lemma_touches(edges: Table<EdgeId, VersionedEdge>, v: VertexId)
    requires
        edges.wf(),
    ensures
        touches(edges@.map_values(|e: VersionedEdge| e@), v) == touches_among(
            edges.entries@,
            v,
            edges.entries@.len() as int,
        ),
{
    let map = edges@.map_values(|e: VersionedEdge| e@);
    let entries = edges.entries@;
    if touches(map, v) {
        let id = choose|id: EdgeId|
            #![trigger map[id]]
            map.contains_key(id) && (map[id].data.src_id == v || map[id].data.dst_id == v);
        assert(edges@.contains_key(id));
        let i = edges.lemma_key(id);
        assert(entries[i].1.current.src_id == v || entries[i].1.current.dst_id == v);
    }
    if touches_among(entries, v, entries.len() as int) {
        let i = choose|i: int|
            #![trigger entries[i]]
            0 <= i < entries.len() && (entries[i].1.current.src_id == v
                || entries[i].1.current.dst_id == v);
        edges.lemma_entry(i);
        assert(map.contains_key(entries[i].0));
        assert(map[entries[i].0].data.src_id == v || map[entries[i].0].data.dst_id == v);
    }
}

/// The vertices that edges leave or enter.
fn collect_endpoints(edges: &Table<EdgeId, VersionedEdge>) -> (result: Vec<VertexId>)
    requires
        edges.wf(),
    ensures
        forall|v: VertexId| #[trigger]
            result@.contains(v) <==> touches(edges@.map_values(|e: VersionedEdge| e@), v),
{
    let ghost entries = edges.entries@;
    let mut ids: Vec<VertexId> = Vec::new();
    let mut i: usize = 0;
    while i < edges.entries.len()
        invariant
            entries == edges.entries@,
            i <= entries.len(),
            forall|v: VertexId| #[trigger]
                ids@.contains(v) <==> touches_among(entries, v, i as int),
        decreases edges.entries.len() - i,
    {
        let src: VertexId = edges.entries[i].1.current.src_id;
        let dst: VertexId = edges.entries[i].1.current.dst_id;
        let ghost before = ids@;
        if !contains_id(&ids, src) {
            ids.push(src);
        }
        let ghost between = ids@;
        if !contains_id(&ids, dst) {
            ids.push(dst);
        }
        proof {
            lemma_with(before, between, src);
            lemma_with(between, ids@, dst);
            assert forall|v: VertexId| #[trigger] ids@.contains(v) <==> touches_among(
                entries,
                v,
                i + 1,
            ) by {
                assert(before.contains(v) <==> touches_among(entries, v, i as int));
                if touches_among(entries, v, i + 1) && v != src && v != dst {
                    let j = choose|j: int|
                        #![trigger entries[j]]
                        0 <= j < i + 1 && (entries[j].1.current.src_id == v
                            || entries[j].1.current.dst_id == v);
                    assert(0 <= j < i);
                }
                if v == src || v == dst {
                    assert(entries[i as int].1.current.src_id == v
                        || entries[i as int].1.current.dst_id == v);
                }
                if touches_among(entries, v, i as int) {
                    let j = choose|j: int|
                        #![trigger entries[j]]
                        0 <= j < i && (entries[j].1.current.src_id == v
                            || entries[j].1.current.dst_id == v);
                    assert(entries[j].1.current.src_id == v || entries[j].1.current.dst_id == v);
                }
            }
        }
        i = i + 1;
    }
    proof {
        assert forall|v: VertexId| #[trigger] ids@.contains(v) <==> touches(
            edges@.map_values(|e: VersionedEdge| e@),
            v,
        ) by {
            lemma_touches(*edges, v);
        }
    }
    ids
}

proof fn lemma_with(before: Seq<VertexId>, after: Seq<VertexId>, id: VertexId)
    requires
        after == (if before.contains(id) {
            before
        } else {
            before.push(id)
        }),
    ensures
        forall|v: VertexId| #[trigger] after.contains(v) <==> before.contains(v) || v == id,
{
    assert forall|v: VertexId| #[trigger] after.contains(v) <==> before.contains(v) || v == id by {
        if !before.contains(id) {
            if before.contains(v) {
                let i = choose|i: int| 0 <= i < before.len() && before[i] == v;
                assert(after[i] == v);
            }
            assert(after[before.len() as int] == id);
        }
    }
}

/// The edges at a vertex.
fn collect_adjacency(edges: &Table<EdgeId, VersionedEdge>, v: VertexId) -> (result:
    AdjacencyContainer)
    requires
        edges.wf(),
    ensures
        result@ == (Adjacency {
            outgoing: leaving(edges@.map_values(|e: VersionedEdge| e@), v),
            incoming: entering(edges@.map_values(|e: VersionedEdge| e@), v),
        }),
        result.wf(),
{
    let ghost entries = edges.entries@;
    let ghost map = edges@.map_values(|e: VersionedEdge| e@);
    let mut outgoing: Vec<Neighbor> = Vec::new();
    let mut incoming: Vec<Neighbor> = Vec::new();
    let mut i: usize = 0;
    while i < edges.entries.len()
        invariant
            edges.wf(),
            entries == edges.entries@,
            i <= entries.len(),
            outgoing@.no_duplicates(),
            incoming@.no_duplicates(),
            forall|n: Neighbor| #[trigger]
                outgoing@.contains(n) <==> exists|j: int|
                    #![trigger entries[j]]
                    0 <= j < i && entries[j].1.current.src_id == v && n == far_end(entries[j]),
            forall|n: Neighbor| #[trigger]
                incoming@.contains(n) <==> exists|j: int|
                    #![trigger entries[j]]
                    0 <= j < i && entries[j].1.current.dst_id == v && n == near_end(entries[j]),
        decreases edges.entries.len() - i,
    {
        let eid: EdgeId = edges.entries[i].0;
        let edge: &Edge = &edges.entries[i].1.current;
        let ghost out_before = outgoing@;
        let ghost in_before = incoming@;
        proof {
            assert forall|j: int| 0 <= j < i implies (#[trigger] entries[j]).0 != eid by {
                assert(entries[i as int].0@ != entries[j].0@);
            }
            assert(!out_before.contains(far_end(entries[i as int])));
            assert(!in_before.contains(near_end(entries[i as int])));
        }
        if edge.src_id == v {
            outgoing.push(Neighbor { label_id: edge.label_id, neighbor_id: edge.dst_id, eid });
            assert(outgoing@.last() == far_end(entries[i as int]));
        }
        if edge.dst_id == v {
            incoming.push(Neighbor { label_id: edge.label_id, neighbor_id: edge.src_id, eid });
            assert(incoming@.last() == near_end(entries[i as int]));
        }
        proof {
            lemma_pushed_neighbor(out_before, far_end(entries[i as int]));
            lemma_pushed_neighbor(in_before, near_end(entries[i as int]));
            assert forall|n: Neighbor| #[trigger] outgoing@.contains(n) <==> exists|j: int|
                #![trigger entries[j]]
                0 <= j < i + 1 && entries[j].1.current.src_id == v && n == far_end(entries[j]) by {
                assert(out_before.contains(n) <==> exists|j: int|
                    #![trigger entries[j]]
                    0 <= j < i && entries[j].1.current.src_id == v && n == far_end(entries[j]));
                assert(entries[i as int].1.current == *edge);
            }
            assert forall|n: Neighbor| #[trigger] incoming@.contains(n) <==> exists|j: int|
                #![trigger entries[j]]
                0 <= j < i + 1 && entries[j].1.current.dst_id == v && n == near_end(entries[j]) by {
                assert(in_before.contains(n) <==> exists|j: int|
                    #![trigger entries[j]]
                    0 <= j < i && entries[j].1.current.dst_id == v && n == near_end(entries[j]));
                assert(entries[i as int].1.current == *edge);
            }
        }
        i = i + 1;
    }
    proof {
        assert forall|n: Neighbor| #[trigger] outgoing@.to_set().contains(n) <==> leaving(
            map,
            v,
        ).contains(n) by {
            if outgoing@.contains(n) {
                let j = choose|j: int|
                    #![trigger entries[j]]
                    0 <= j < i && entries[j].1.current.src_id == v && n == far_end(entries[j]);
                edges.lemma_entry(j);
            }
            if leaving(map, v).contains(n) {
                assert(edges@.contains_key(n.eid));
                let j = edges.lemma_key(n.eid);
                assert(n == far_end(entries[j]));
            }
        }
        assert forall|n: Neighbor| #[trigger] incoming@.to_set().contains(n) <==> entering(
            map,
            v,
        ).contains(n) by {
            if incoming@.contains(n) {
                let j = choose|j: int|
                    #![trigger entries[j]]
                    0 <= j < i && entries[j].1.current.dst_id == v && n == near_end(entries[j]);
                edges.lemma_entry(j);
            }
            if entering(map, v).contains(n) {
                assert(edges@.contains_key(n.eid));
                let j = edges.lemma_key(n.eid);
                assert(n == near_end(entries[j]));
            }
        }
        assert(outgoing@.to_set() =~= leaving(map, v));
        assert(incoming@.to_set() =~= entering(map, v));
    }
    AdjacencyContainer { outgoing, incoming }
}

spec fn far_end(entry: (EdgeId, VersionedEdge)) -> Neighbor {
    Neighbor {
        label_id: entry.1.current.label_id,
        neighbor_id: entry.1.current.dst_id,
        eid: entry.0,
    }
}

spec fn near_end(entry: (EdgeId, VersionedEdge)) -> Neighbor {
    Neighbor {
        label_id: entry.1.current.label_id,
        neighbor_id: entry.1.current.src_id,
        eid: entry.0,
    }
}

proof fn lemma_pushed_neighbor(before: Seq<Neighbor>, last: Neighbor)
    ensures
        forall|n: Neighbor| #[trigger]
            before.push(last).contains(n) <==> before.contains(n) || n == last,
{
    let after = before.push(last);
    assert forall|n: Neighbor| #[trigger] after.contains(n) <==> before.contains(n) || n == last by {
        if before.contains(n) {
            let i = choose|i: int| 0 <= i < before.len() && before[i] == n;
            assert(after[i] == n);
        }
        assert(after[before.len() as int] == last);
    }
}

/// Makes what is at every vertex at an edge anew.
fn rebuild_adjacency(
    edges: &Table<EdgeId, VersionedEdge>,
    adjacency: &mut Table<VertexId, AdjacencyContainer>,
)
    requires
        edges.wf(),
        old(adjacency).wf(),
        all_listed_once(old(adjacency)@),
    ensures
        final(adjacency).wf(),
        final(adjacency)@.map_values(|a: AdjacencyContainer| a@) == adjacency_with(
            old(adjacency)@.map_values(|a: AdjacencyContainer| a@),
            edges@.map_values(|e: VersionedEdge| e@),
        ),
        all_listed_once(final(adjacency)@),
{
    let ghost f = |a: AdjacencyContainer| a@;
    let ghost start = adjacency@.map_values(f);
    let ghost map = edges@.map_values(|e: VersionedEdge| e@);
    let ghost goal = adjacency_with(start, map);
    let ids: Vec<VertexId> = collect_endpoints(edges);
    let mut i: usize = 0;
    while i < ids.len()
        invariant
            edges.wf(),
            f == (|a: AdjacencyContainer| a@),
            map == edges@.map_values(|e: VersionedEdge| e@),
            goal == adjacency_with(start, map),
            forall|v: VertexId| #[trigger] ids@.contains(v) <==> touches(map, v),
            i <= ids@.len(),
            adjacency.wf(),
            adjacency@.map_values(f) == filled(start, ids@, goal, i as int),
            all_listed_once(adjacency@),
        decreases ids.len() - i,
    {
        let v: VertexId = ids[i];
        let ghost before = adjacency@;
        proof {
            assert(ids@[i as int] == v);
            assert(ids@.contains(v));
            assert(goal.contains_key(v));
        }
        let rebuilt: AdjacencyContainer = collect_adjacency(edges, v);
        adjacency.insert(v, rebuilt);
        assert(adjacency@.map_values(f) =~= before.map_values(f).insert(v, goal[v]));
        i = i + 1;
    }
    proof {
        lemma_filled(start, ids@, goal, i as int);
        let all = filled(start, ids@, goal, i as int);
        assert(ids@.take(i as int) =~= ids@);
        assert forall|v: VertexId| #[trigger] all.contains_key(v) <==> goal.contains_key(v) by {
            assert(ids@.contains(v) <==> touches(map, v));
        }
        assert forall|v: VertexId| all.contains_key(v) implies #[trigger] all[v] == goal[v] by {
            assert(ids@.contains(v) <==> touches(map, v));
        }
        assert(all =~= goal);
    }
}

impl GraphCheckpoint {
    /// Brings the state of a checkpoint back into a graph. What it holds takes the place of what
    /// the graph has under the same id, without versions before it; the edges at the vertices are
    /// made anew from the edges, each listed once.
    pub fn restore(self, graph: &mut MemoryGraph)
        requires
            self.wf(),
            old(graph).wf(),
            self.metadata.lsn < u64::MAX,
        ensures
            final(graph).wf(),
            final(graph)@ == restored(old(graph)@, self@),
            forall|id: VertexId| #[trigger]
                self@.vertices.contains_key(id) ==> final(graph).vertices@[id].older@.len() == 0,
            forall|id: EdgeId| #[trigger]
                self@.edges.contains_key(id) ==> final(graph).edges@[id].older@.len() == 0,
    {
        graph.next_lsn = self.metadata.lsn + 1;
        graph.latest_commit_ts = self.metadata.latest_commit_ts;
        self.bring_vertices(&mut graph.vertices);
        self.list_vertices(&mut graph.vertices_by_label);
        self.bring_edges(&mut graph.edges);
        rebuild_adjacency(&graph.edges, &mut graph.adjacency_list);
    }
}

/// What a checkpoint of a graph holds.
pub open spec fn checkpoint_of(
    graph: MemoryView,
    vertex_ids: Seq<VertexId>,
    lsn: u64,
    timestamp: u64,
) -> CheckpointView {
    CheckpointView {
        metadata: CheckpointMetadata {
            timestamp,
            lsn,
            latest_commit_ts: graph.latest_commit_ts,
            version: CHECKPOINT_VERSION,
        },
        vertex_ids,
        vertices: graph.vertices,
        edges: graph.edges,
    }
}

/// A graph that gets a checkpoint back while it is empty has the vertices and edges of the graph
/// that the checkpoint was made of, at every vertex the same edges as a graph of these edges has,
/// and the log goes on after the last record that the checkpoint covers.
pub proof fn restoring_gives_back(
    graph: MemoryView,
    vertex_ids: Seq<VertexId>,
    lsn: u64,
    timestamp: u64,
)
    requires
        lsn < u64::MAX,
    ensures
        ({
            let after = restored(
                MemoryView::empty(),
                checkpoint_of(graph, vertex_ids, lsn, timestamp),
            );
            &&& after.vertices == graph.vertices
            &&& after.edges == graph.edges
            &&& after.latest_commit_ts == graph.latest_commit_ts
            &&& after.next_lsn == lsn + 1
            &&& after.adjacency_list == adjacency_with(Map::empty(), graph.edges)
        }),
{
    let none = MemoryView::empty();
    assert(none.vertices.union_prefer_right(graph.vertices) =~= graph.vertices);
    assert(none.edges.union_prefer_right(graph.edges) =~= graph.edges);
}

/// A checkpoint of a graph that has just got a checkpoint back while it was empty is the same
/// checkpoint, made at the same time.
pub proof fn checkpoints_last(checkpoint: CheckpointView)
    requires
        checkpoint.metadata.lsn < u64::MAX,
        checkpoint.metadata.version == CHECKPOINT_VERSION,
    ensures
        ({
            let after = restored(MemoryView::empty(), checkpoint);
            checkpoint_of(
                after,
                checkpoint.vertex_ids,
                (after.next_lsn - 1) as u64,
                checkpoint.metadata.timestamp,
            ) == checkpoint
        }),
{
    let none = MemoryView::empty();
    assert(none.vertices.union_prefer_right(checkpoint.vertices) =~= checkpoint.vertices);
    assert(none.edges.union_prefer_right(checkpoint.edges) =~= checkpoint.edges);
    let after = restored(none, checkpoint);
    assert(checkpoint_of(
        after,
        checkpoint.vertex_ids,
        (after.next_lsn - 1) as u64,
        checkpoint.metadata.timestamp,
    ) =~= checkpoint);
}

/// The vertices with a label among the first `n`.
pub open spec fn labelled_among(
    ids: Seq<VertexId>,
    vertices: Map<VertexId, Committed<StoredVertex>>,
    label: LabelId,
    n: int,
) -> Seq<VertexId>
    decreases n,
{
    if n <= 0 {
        Seq::empty()
    } else {
        let before = labelled_among(ids, vertices, label, n - 1);
        if vertices[ids[n - 1]].data.label_id == label {
            before.push(ids[n - 1])
        } else {
            before
        }
    }
}

/// In a graph that got a checkpoint back while it was empty, the list of a label holds the
/// vertices of the checkpoint with that label, and there is no list for a label without vertices.
pub proof fn lists_hold_labelled_vertices(checkpoint: CheckpointView, n: int, label: LabelId)
    requires
        0 <= n <= checkpoint.vertex_ids.len(),
    ensures
        ({
            let lists = labels_with(
                Map::empty(),
                checkpoint.vertex_ids,
                checkpoint.vertices,
                n,
            );
            let expected = labelled_among(checkpoint.vertex_ids, checkpoint.vertices, label, n);
            if expected.len() == 0 {
                !lists.contains_key(label)
            } else {
                lists.contains_key(label) && lists[label] == expected
            }
        }),
    decreases n,
{
    if n > 0 {
        lists_hold_labelled_vertices(checkpoint, n - 1, label);
        assert(labelled_among(checkpoint.vertex_ids, checkpoint.vertices, label, n - 1).len() == 0
            ==> labelled_among(checkpoint.vertex_ids, checkpoint.vertices, label, n - 1) =~= Seq::<
            VertexId,
        >::empty());
    }
}

} // verus!
