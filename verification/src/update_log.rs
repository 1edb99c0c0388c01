//! A log of edges and vertices that came or went. What follows for degrees along longer paths is
//! found out later, for all of them together.
use crate::deltas::{change_among, fits, lemma_listed, lemma_where, Deltas};
use crate::pattern::{first_direction, AltKey};
use crate::query::VertexId;
use crate::text::{is_text, label_views};
use vstd::prelude::*;
use vstd::string::*;

verus! {

/// Changes of degrees along a path, at the vertices that it begins with, and how many edges the
/// path may still grow by.
#[derive(Debug)]
pub struct UpdateEntry {
    pub template: AltKey,
    pub label: String,
    pub nodes: Deltas,
    pub res_len: usize,
}

impl UpdateEntry {
    /// Whether this is the entry for a path, a label and a number of edges.
    pub open spec fn is_for(self, path: Seq<Seq<char>>, label: Seq<char>, res_len: nat) -> bool {
        self.template@ == path && self.label@ == label && self.res_len == res_len
    }
}

/// The log: its entries, the length of the longest paths, and the vertices that went.
#[derive(Debug)]
pub struct GCardUpdateLog {
    pub entries: Vec<UpdateEntry>,
    pub max_k: usize,
    pub deleted_vertices: Vec<VertexId>,
}

/// The change of a vertex among entries: that of the entry for a path, a label and a number of
/// edges.
pub open spec fn logged(
    entries: Seq<UpdateEntry>,
    path: Seq<Seq<char>>,
    label: Seq<char>,
    res_len: nat,
    v: VertexId,
) -> int
    decreases entries.len(),
{
    if entries.len() == 0 {
        0
    } else if entries.last().is_for(path, label, res_len) {
        entries.last().nodes.at(v)
    } else {
        logged(entries.drop_last(), path, label, res_len, v)
    }
}

/// What an entry is for: the labels of its path from the vertices on that change, the label of
/// these vertices, and how many edges the path may still grow by.
#[verifier::ext_equal]
pub struct Head {
    pub path: Seq<Seq<char>>,
    pub label: Seq<char>,
    pub res_len: nat,
}

/// What entries are for.
pub open spec fn heads(entries: Seq<UpdateEntry>) -> Seq<Head> {
    entries.map_values(
        |e: UpdateEntry|
            Head {
                path: label_views(e.template.raw@),
                label: e.label@,
                res_len: e.res_len as nat,
            },
    )
}

/// Whether one of the heads is for the same path, in either direction, label and number of edges.
pub open spec fn has_head(heads: Seq<Head>, head: Head) -> bool {
    exists|i: int|
        0 <= i < heads.len() && first_direction((#[trigger] heads[i]).path) == first_direction(
            head.path,
        ) && heads[i].label == head.label && heads[i].res_len == head.res_len
}

/// Heads with one more, where none of them is for the same.
pub open spec fn with_head(heads: Seq<Head>, head: Head) -> Seq<Head> {
    if has_head(heads, head) {
        heads
    } else {
        heads.push(head)
    }
}

/// The head for a path of one edge, seen from its first vertex.
pub open spec fn edge_head(
    first: Seq<char>,
    edge: Seq<char>,
    last: Seq<char>,
    res_len: nat,
) -> Head {
    Head { path: seq![first, edge, last], label: first, res_len }
}

/// Heads with those for an edge, seen from both of its ends.
pub open spec fn with_edge_heads(
    heads: Seq<Head>,
    u_label: Seq<char>,
    v_label: Seq<char>,
    edge_label: Seq<char>,
    res_len: nat,
) -> Seq<Head> {
    with_head(
        with_head(heads, edge_head(u_label, edge_label, v_label, res_len)),
        edge_head(v_label, edge_label, u_label, res_len),
    )
}

/// Heads with those for the edges to the first `n` neighbors of a vertex, seen from the neighbors.
pub open spec fn with_neighbor_heads(
    heads: Seq<Head>,
    neighbors: Seq<(VertexId, String, String)>,
    n: int,
    u_label: Seq<char>,
    res_len: nat,
) -> Seq<Head>
    decreases n,
{
    if n <= 0 {
        heads
    } else {
        with_head(
            with_neighbor_heads(heads, neighbors, n - 1, u_label, res_len),
            edge_head(neighbors[n - 1].1@, neighbors[n - 1].2@, u_label, res_len),
        )
    }
}

proof fn lemma_neighbor_has_head(
    heads: Seq<Head>,
    neighbors: Seq<(VertexId, String, String)>,
    n: int,
    u_label: Seq<char>,
    res_len: nat,
    j: int,
)
    requires
        0 <= j < n,
    ensures
        has_head(
            with_neighbor_heads(heads, neighbors, n, u_label, res_len),
            edge_head(neighbors[j].1@, neighbors[j].2@, u_label, res_len),
        ),
    decreases n,
{
    let head = edge_head(neighbors[j].1@, neighbors[j].2@, u_label, res_len);
    let before = with_neighbor_heads(heads, neighbors, n - 1, u_label, res_len);
    let after = with_neighbor_heads(heads, neighbors, n, u_label, res_len);
    if j < n - 1 {
        lemma_neighbor_has_head(heads, neighbors, n - 1, u_label, res_len, j);
        let i = choose|i: int|
            0 <= i < before.len() && first_direction((#[trigger] before[i]).path)
                == first_direction(head.path) && before[i].label == head.label
                && before[i].res_len == head.res_len;
        assert(after[i] == before[i]);
    } else if !has_head(before, head) {
        assert(after[before.len() as int] == head);
    }
}

/// Whether the changes of entries are listed as they should be, the path of each begins with its
/// label, and no two entries are for the same.
pub open spec fn entries_wf(entries: Seq<UpdateEntry>) -> bool {
    &&& forall|i: int|
        0 <= i < entries.len() ==> (#[trigger] entries[i]).nodes.wf() && entries[i].template.wf()
            && begins_with_label(entries[i])
    &&& forall|i: int, j: int|
        #![trigger entries[i], entries[j]]
        0 <= i < j < entries.len() ==> !entries[j].is_for(
            entries[i].template@,
            entries[i].label@,
            entries[i].res_len as nat,
        )
}

/// Whether the path of an entry begins with the label of its vertices.
pub open spec fn begins_with_label(entry: UpdateEntry) -> bool {
    entry.template.raw@.len() > 0 && entry.template.raw@[0]@ == entry.label@
}

proof fn lemma_logged_at(entries: Seq<UpdateEntry>, i: int, v: VertexId)
    requires
        entries_wf(entries),
        0 <= i < entries.len(),
    ensures
        logged(
            entries,
            entries[i].template@,
            entries[i].label@,
            entries[i].res_len as nat,
            v,
        ) == entries[i].nodes.at(v),
    decreases entries.len(),
{
    if i < entries.len() - 1 {
        assert(!entries[entries.len() - 1].is_for(
            entries[i].template@,
            entries[i].label@,
            entries[i].res_len as nat,
        ));
        let shorter = entries.drop_last();
        assert forall|a: int, b: int|
            #![trigger shorter[a], shorter[b]]
            0 <= a < b < shorter.len() implies !shorter[b].is_for(
            shorter[a].template@,
            shorter[a].label@,
            shorter[a].res_len as nat,
        ) by {
            assert(!entries[b].is_for(
                entries[a].template@,
                entries[a].label@,
                entries[a].res_len as nat,
            ));
        }
        assert forall|a: int| 0 <= a < shorter.len() implies (#[trigger] shorter[a]).nodes.wf()
            && shorter[a].template.wf() && begins_with_label(shorter[a]) by {
            assert(entries[a].nodes.wf());
        }
        lemma_logged_at(shorter, i, v);
    }
}

/// Where no entry is for a path, no change is logged for it.
pub proof fn lemma_logged_nowhere(
    entries: Seq<UpdateEntry>,
    path: Seq<Seq<char>>,
    label: Seq<char>,
    res_len: nat,
    v: VertexId,
)
    requires
        forall|i: int|
            0 <= i < entries.len() ==> !(#[trigger] entries[i]).is_for(path, label, res_len),
    ensures
        logged(entries, path, label, res_len, v) == 0,
    decreases entries.len(),
{
    if entries.len() > 0 {
        assert(!entries[entries.len() - 1].is_for(path, label, res_len));
        assert forall|i: int| 0 <= i < entries.drop_last().len() implies !(
        #[trigger] entries.drop_last()[i]).is_for(path, label, res_len) by {
            assert(!entries[i].is_for(path, label, res_len));
        }
        lemma_logged_nowhere(entries.drop_last(), path, label, res_len, v);
    }
}

/// How a merge changes what is logged.
pub open spec fn merged(
    before: Seq<UpdateEntry>,
    after: Seq<UpdateEntry>,
    path: Seq<Seq<char>>,
    label: Seq<char>,
    res_len: nat,
    nodes: Deltas,
) -> bool {
    forall|p: Seq<Seq<char>>, l: Seq<char>, r: nat, v: VertexId| #[trigger]
        logged(after, p, l, r, v) == logged(before, p, l, r, v) + (if p == path && l == label && r
            == res_len {
            nodes.at(v)
        } else {
            0
        })
}

proof fn lemma_logged_update(
    before: Seq<UpdateEntry>,
    after: Seq<UpdateEntry>,
    i: int,
    p: Seq<Seq<char>>,
    l: Seq<char>,
    r: nat,
    v: VertexId,
)
    requires
        entries_wf(before),
        entries_wf(after),
        0 <= i < before.len(),
        after.len() == before.len(),
        forall|j: int|
            #![trigger after[j]]
            0 <= j < after.len() ==> after[j].template@ == before[j].template@ && after[j].label@
                == before[j].label@ && after[j].res_len == before[j].res_len && (j != i
                ==> after[j].nodes == before[j].nodes),
    ensures
        logged(after, p, l, r, v) == (if before[i].is_for(p, l, r) {
            after[i].nodes.at(v)
        } else {
            logged(before, p, l, r, v)
        }),
{
    if exists|j: int| 0 <= j < before.len() && (#[trigger] before[j]).is_for(p, l, r) {
        let j = choose|j: int| 0 <= j < before.len() && (#[trigger] before[j]).is_for(p, l, r);
        lemma_logged_at(before, j, v);
        lemma_logged_at(after, j, v);
        assert(after[j].is_for(p, l, r));
        if before[i].is_for(p, l, r) && i != j {
            if i < j {
                assert(!before[j].is_for(
                    before[i].template@,
                    before[i].label@,
                    before[i].res_len as nat,
                ));
            } else {
                assert(!before[i].is_for(
                    before[j].template@,
                    before[j].label@,
                    before[j].res_len as nat,
                ));
            }
        }
    } else {
        assert forall|j: int| 0 <= j < after.len() implies !(#[trigger] after[j]).is_for(
            p,
            l,
            r,
        ) by {
            assert(!before[j].is_for(p, l, r));
        }
        lemma_logged_nowhere(before, p, l, r, v);
        lemma_logged_nowhere(after, p, l, r, v);
    }
}

fn pour(into: &mut Deltas, from: &Deltas)
    requires
        old(into).wf(),
        from.wf(),
        forall|v: VertexId| fits(#[trigger] old(into).at(v) + from.at(v)),
    ensures
        final(into).wf(),
        forall|v: VertexId| #[trigger] final(into).at(v) == old(into).at(v) + from.at(v),
{
    let ghost start = *into;
    let ghost entries = from.entries@;
    let mut i: usize = 0;
    while i < from.entries.len()
        invariant
            entries == from.entries@,
            from.wf(),
            forall|v: VertexId| fits(#[trigger] start.at(v) + from.at(v)),
            i <= entries.len(),
            into.wf(),
            forall|v: VertexId| #[trigger]
                into.at(v) == start.at(v) + change_among(entries.take(i as int), v),
        decreases from.entries.len() - i,
    {
        let (v, delta) = from.entries[i];
        let ghost before = *into;
        proof {
            let shorter = entries.take(i as int);
            assert(entries.take(i + 1).drop_last() =~= shorter);
            if change_among(shorter, v) != 0 {
                let j = lemma_where(shorter, v);
                assert(entries[j].0 < entries[i as int].0);
            }
            lemma_listed(entries, i as int);
            assert(from.at(v) == delta);
            assert(into.at(v) == start.at(v) + change_among(shorter, v));
            assert(fits(start.at(v) + from.at(v)));
        }
        let added: bool = into.add_to(v, delta);
        proof {
            assert(added);
            assert forall|w: VertexId| #[trigger]
                into.at(w) == start.at(w) + change_among(entries.take(i + 1), w) by {
                assert(into.at(w) == before.at(w) + (if w == v {
                    delta as int
                } else {
                    0
                }));
                assert(before.at(w) == start.at(w) + change_among(entries.take(i as int), w));
            }
        }
        i = i + 1;
    }
    assert(entries.take(i as int) =~= entries);
}

impl GCardUpdateLog {
    /// The changes are listed as they should be, no two entries are for the same, and no vertex
    /// is listed twice.
    pub open spec fn wf(self) -> bool {
        entries_wf(self.entries@) && self.deleted_vertices@.no_duplicates()
    }

    /// Whether no change is so large that so much more would not fit.
    pub open spec fn has_room(self, room: nat) -> bool {
        forall|path: Seq<Seq<char>>, label: Seq<char>, res_len: nat, v: VertexId|
            -i64::MAX + room <= #[trigger] self.change(path, label, res_len, v) <= i64::MAX - room
    }

    /// How many edges a path of one edge may grow by.
    pub open spec fn growth(self) -> nat {
        if self.max_k == 0 {
            0
        } else {
            (self.max_k - 1) as nat
        }
    }

    /// The change of a vertex that is logged for a path and a label.
    pub open spec fn change(
        self,
        path: Seq<Seq<char>>,
        label: Seq<char>,
        res_len: nat,
        v: VertexId,
    ) -> int {
        logged(self.entries@, path, label, res_len, v)
    }

    /// An empty log.
    pub fn new(max_k: usize) -> (result: GCardUpdateLog)
        ensures
            result.wf(),
            result.entries@.len() == 0,
            result.deleted_vertices@.len() == 0,
            result.max_k == max_k,
            result.has_room(i64::MAX as nat),
    {
        GCardUpdateLog { entries: Vec::new(), max_k, deleted_vertices: Vec::new() }
    }

    /// Where the entry for a path, a label and a number of edges is.
    fn find_entry(&self, template: &AltKey, label: &str, res_len: usize) -> (result: Option<usize>)
        ensures
            match result {
                Some(i) => i < self.entries@.len() && self.entries@[i as int].is_for(
                    template@,
                    label@,
                    res_len as nat,
                ),
                None => forall|i: int|
                    0 <= i < self.entries@.len() ==> !(#[trigger] self.entries@[i]).is_for(
                        template@,
                        label@,
                        res_len as nat,
                    ),
            },
    {
        let mut i: usize = 0;
        while i < self.entries.len()
            invariant
                i <= self.entries@.len(),
                forall|j: int|
                    0 <= j < i ==> !(#[trigger] self.entries@[j]).is_for(
                        template@,
                        label@,
                        res_len as nat,
                    ),
            decreases self.entries.len() - i,
        {
            if self.entries[i].res_len == res_len && self.entries[i].template.same_as(template)
                && is_text(self.entries[i].label.as_str(), label) {
                return Some(i);
            }
            i = i + 1;
        }
        None
    }

    /// Adds changes to the entry they belong to, or makes one.
    fn push_or_merge_entry(
        &mut self,
        template: AltKey,
        label: String,
        nodes: Deltas,
        res_len: usize,
    )
        requires
            old(self).wf(),
            template.wf(),
            template.raw@.len() > 0,
            template.raw@[0]@ == label@,
            nodes.wf(),
            forall|v: VertexId|
                fits(
                    old(self).change(template@, label@, res_len as nat, v) + #[trigger] nodes.at(v),
                ),
        ensures
            final(self).wf(),
            final(self).max_k == old(self).max_k,
            final(self).deleted_vertices == old(self).deleted_vertices,
            merged(
                old(self).entries@,
                final(self).entries@,
                template@,
                label@,
                res_len as nat,
                nodes,
            ),
            heads(final(self).entries@) == with_head(
                heads(old(self).entries@),
                (Head { path: label_views(template.raw@), label: label@, res_len: res_len as nat }),
            ),
    {
        let ghost before = self.entries@;
        let ghost head = Head {
            path: label_views(template.raw@),
            label: label@,
            res_len: res_len as nat,
        };
        if let Some(i) = self.find_entry(&template, label.as_str(), res_len) {
            let mut changes = Deltas::new();
            assert(before[i as int].nodes.wf());
            std::mem::swap(&mut changes, &mut self.entries[i].nodes);
            let ghost old_changes = changes;
            proof {
                assert forall|v: VertexId| fits(#[trigger] changes.at(v) + nodes.at(v)) by {
                    lemma_logged_at(before, i as int, v);
                    assert(fits(
                        old(self).change(template@, label@, res_len as nat, v) + nodes.at(v),
                    ));
                }
            }
            pour(&mut changes, &nodes);
            self.entries[i].nodes = changes;
            proof {
                let after = self.entries@;
                assert forall|a: int, b: int|
                    #![trigger after[a], after[b]]
                    0 <= a < b < after.len() implies !after[b].is_for(
                    after[a].template@,
                    after[a].label@,
                    after[a].res_len as nat,
                ) by {
                    assert(!before[b].is_for(
                        before[a].template@,
                        before[a].label@,
                        before[a].res_len as nat,
                    ));
                }
                assert forall|a: int| 0 <= a < after.len() implies (
                #[trigger] after[a]).nodes.wf() && after[a].template.wf() && begins_with_label(
                    after[a],
                ) by {
                    assert(before[a].nodes.wf());
                }
                assert(heads(after) =~= heads(before));
                assert(heads(before)[i as int].label == head.label);
                assert(before[i as int].template.wf());
                assert(has_head(heads(before), head));
                assert forall|p: Seq<Seq<char>>, l: Seq<char>, r: nat, v: VertexId| #[trigger]
                    logged(after, p, l, r, v) == logged(before, p, l, r, v) + (if p
                        == template@ && l == label@ && r == res_len {
                        nodes.at(v)
                    } else {
                        0
                    }) by {
                    lemma_logged_update(before, after, i as int, p, l, r, v);
                    lemma_logged_at(before, i as int, v);
                    assert(changes.at(v) == old_changes.at(v) + nodes.at(v));
                }
            }
            return;
        }
        let entry = UpdateEntry { template, label, nodes, res_len };
        self.entries.push(entry);
        proof {
            let after = self.entries@;
            let n = before.len() as int;
            assert(heads(after) =~= heads(before).push(head));
            if has_head(heads(before), head) {
                let i = choose|i: int|
                    0 <= i < heads(before).len() && first_direction(
                        (#[trigger] heads(before)[i]).path,
                    ) == first_direction(head.path) && heads(before)[i].label == head.label
                        && heads(before)[i].res_len == head.res_len;
                assert(before[i].template.wf());
                assert(before[i].is_for(template@, label@, res_len as nat));
            }
            assert(after.drop_last() =~= before);
            assert forall|a: int, b: int|
                #![trigger after[a], after[b]]
                0 <= a < b < after.len() implies !after[b].is_for(
                after[a].template@,
                after[a].label@,
                after[a].res_len as nat,
            ) by {
                if b < n {
                    assert(!before[b].is_for(
                        before[a].template@,
                        before[a].label@,
                        before[a].res_len as nat,
                    ));
                } else {
                    assert(!before[a].is_for(template@, label@, res_len as nat));
                }
            }
            assert forall|a: int| 0 <= a < after.len() implies (#[trigger] after[a]).nodes.wf()
                && after[a].template.wf() && begins_with_label(after[a]) by {
                if a < n {
                    assert(before[a].nodes.wf());
                }
            }
            assert forall|p: Seq<Seq<char>>, l: Seq<char>, r: nat, v: VertexId| #[trigger]
                logged(after, p, l, r, v) == logged(before, p, l, r, v) + (if p == template@ && l
                    == label@ && r == res_len {
                    nodes.at(v)
                } else {
                    0
                }) by {
                if p == template@ && l == label@ && r == res_len {
                    lemma_logged_nowhere(before, p, l, r, v);
                }
            }
        }
    }
}

/// The labels of a path of one edge.
pub open spec fn one_edge(first: Seq<char>, edge: Seq<char>, last: Seq<char>) -> Seq<Seq<char>> {
    first_direction(seq![first, edge, last])
}

fn one_edge_key(first: &str, edge: &str, last: &str) -> (result: AltKey)
    ensures
        result.wf(),
        label_views(result.raw@) == seq![first@, edge@, last@],
        result@ == one_edge(first@, edge@, last@),
        result.raw@.len() == 3,
        result.raw@[0]@ == first@,
{
    let mut raw: Vec<String> = Vec::new();
    raw.push(first.to_owned());
    raw.push(edge.to_owned());
    raw.push(last.to_owned());
    assert(label_views(raw@) =~= seq![first@, edge@, last@]);
    assert(raw@[0]@ == first@);
    AltKey::new(raw)
}

fn one_change(v: VertexId, delta: i64) -> (result: Deltas)
    ensures
        result.wf(),
        forall|w: VertexId| #[trigger]
            result.at(w) == (if w == v {
                delta as int
            } else {
                0
            }),
{
    let mut result = Deltas::new();
    let added: bool = result.add_to(v, delta);
    result
}

/// How an edge changes what is logged, seen from both of its ends.
pub open spec fn edge_change(
    path: Seq<Seq<char>>,
    label: Seq<char>,
    v: VertexId,
    u: VertexId,
    u_label: Seq<char>,
    w: VertexId,
    w_label: Seq<char>,
    edge_label: Seq<char>,
    delta: int,
) -> int {
    (if path == one_edge(u_label, edge_label, w_label) && label == u_label && v == u {
        delta
    } else {
        0
    }) + (if path == one_edge(w_label, edge_label, u_label) && label == w_label && v == w {
        delta
    } else {
        0
    })
}

impl GCardUpdateLog {
    /// Logs an edge that came or went, from both of its ends.
    fn push_edge_entries(
        &mut self,
        u: VertexId,
        u_label: &str,
        v: VertexId,
        v_label: &str,
        edge_label: &str,
        delta: i64,
    )
        requires
            old(self).wf(),
            old(self).has_room(2),
            -1 <= delta <= 1,
        ensures
            final(self).wf(),
            final(self).max_k == old(self).max_k,
            final(self).deleted_vertices == old(self).deleted_vertices,
            forall|p: Seq<Seq<char>>, l: Seq<char>, r: nat, x: VertexId| #[trigger]
                final(self).change(p, l, r, x) == old(self).change(p, l, r, x) + (if r == old(self).growth() {
                    edge_change(p, l, x, u, u_label@, v, v_label@, edge_label@, delta as int)
                } else {
                    0
                }),
            heads(final(self).entries@) == with_edge_heads(
                heads(old(self).entries@),
                u_label@,
                v_label@,
                edge_label@,
                old(self).growth(),
            ),
            forall|n: nat|
                n + 2 <= i64::MAX && old(self).has_room(n + 2) ==> #[trigger] final(self).has_room(
                    n,
                ),
    {
        let ghost start = *self;
        let res_len: usize = if self.max_k == 0 {
            0
        } else {
            self.max_k - 1
        };
        let first: Deltas = one_change(u, delta);
        let second: Deltas = one_change(v, delta);
        proof {
            let p = one_edge(u_label@, edge_label@, v_label@);
            assert forall|x: VertexId|
                fits(self.change(p, u_label@, res_len as nat, x) + #[trigger] first.at(x)) by {
                assert(-i64::MAX + 2nat <= self.change(p, u_label@, res_len as nat, x) <= i64::MAX
                    - 2nat);
            }
        }
        self.push_or_merge_entry(
            one_edge_key(u_label, edge_label, v_label),
            u_label.to_owned(),
            first,
            res_len,
        );
        let ghost middle = *self;
        proof {
            let p = one_edge(v_label@, edge_label@, u_label@);
            assert forall|x: VertexId|
                fits(self.change(p, v_label@, res_len as nat, x) + #[trigger] second.at(x)) by {
                assert(-i64::MAX + 2nat <= start.change(p, v_label@, res_len as nat, x) <= i64::MAX
                    - 2nat);
                assert(logged(self.entries@, p, v_label@, res_len as nat, x) == self.change(
                    p,
                    v_label@,
                    res_len as nat,
                    x,
                ));
                assert(logged(start.entries@, p, v_label@, res_len as nat, x) == start.change(
                    p,
                    v_label@,
                    res_len as nat,
                    x,
                ));
                assert(-1 <= first.at(x) <= 1);
            }
        }
        self.push_or_merge_entry(
            one_edge_key(v_label, edge_label, u_label),
            v_label.to_owned(),
            second,
            res_len,
        );
        proof {
            assert forall|p: Seq<Seq<char>>, l: Seq<char>, r: nat, x: VertexId| #[trigger]
                self.change(p, l, r, x) == start.change(p, l, r, x) + (if r == start.growth() {
                    edge_change(p, l, x, u, u_label@, v, v_label@, edge_label@, delta as int)
                } else {
                    0
                }) by {
                assert(logged(middle.entries@, p, l, r, x) == middle.change(p, l, r, x));
                assert(logged(self.entries@, p, l, r, x) == self.change(p, l, r, x));
            }
            assert forall|n: nat|
                n + 2 <= i64::MAX && start.has_room(n + 2) implies #[trigger] self.has_room(n) by {
                assert forall|p: Seq<Seq<char>>, l: Seq<char>, r: nat, x: VertexId|
                    -i64::MAX + n <= #[trigger] self.change(p, l, r, x) <= i64::MAX - n by {
                    assert(-i64::MAX + (n + 2) <= start.change(p, l, r, x) <= i64::MAX - (n + 2));
                }
            }
        }
    }

    /// Logs an edge that came.
    pub fn record_insert_edge(
        &mut self,
        u: VertexId,
        u_label: &str,
        v: VertexId,
        v_label: &str,
        edge_label: &str,
    )
        requires
            old(self).wf(),
            old(self).has_room(2),
        ensures
            final(self).wf(),
            final(self).max_k == old(self).max_k,
            final(self).deleted_vertices == old(self).deleted_vertices,
            forall|p: Seq<Seq<char>>, l: Seq<char>, r: nat, x: VertexId| #[trigger]
                final(self).change(p, l, r, x) == old(self).change(p, l, r, x) + (if r == old(self).growth() {
                    edge_change(p, l, x, u, u_label@, v, v_label@, edge_label@, 1)
                } else {
                    0
                }),
            heads(final(self).entries@) == with_edge_heads(
                heads(old(self).entries@),
                u_label@,
                v_label@,
                edge_label@,
                old(self).growth(),
            ),
            forall|n: nat|
                n + 2 <= i64::MAX && old(self).has_room(n + 2) ==> #[trigger] final(self).has_room(
                    n,
                ),
    {
        self.push_edge_entries(u, u_label, v, v_label, edge_label, 1);
    }

    /// Logs an edge that went.
    pub fn record_delete_edge(
        &mut self,
        u: VertexId,
        u_label: &str,
        v: VertexId,
        v_label: &str,
        edge_label: &str,
    )
        requires
            old(self).wf(),
            old(self).has_room(2),
        ensures
            final(self).wf(),
            final(self).max_k == old(self).max_k,
            final(self).deleted_vertices == old(self).deleted_vertices,
            forall|p: Seq<Seq<char>>, l: Seq<char>, r: nat, x: VertexId| #[trigger]
                final(self).change(p, l, r, x) == old(self).change(p, l, r, x) + (if r == old(self).growth() {
                    edge_change(p, l, x, u, u_label@, v, v_label@, edge_label@, -1)
                } else {
                    0
                }),
            heads(final(self).entries@) == with_edge_heads(
                heads(old(self).entries@),
                u_label@,
                v_label@,
                edge_label@,
                old(self).growth(),
            ),
            forall|n: nat|
                n + 2 <= i64::MAX && old(self).has_room(n + 2) ==> #[trigger] final(self).has_room(
                    n,
                ),
    {
        self.push_edge_entries(u, u_label, v, v_label, edge_label, -1);
    }
}

proof fn lemma_one_edge_middle(first: Seq<char>, edge: Seq<char>, last: Seq<char>)
    ensures
        one_edge(first, edge, last)[1] == edge,
{
    let labels = seq![first, edge, last];
    assert(labels.reverse()[1] == labels[1]);
}

/// Whether a vertex is among the first `n` neighbors, along a path of one edge.
pub open spec fn is_neighbor(
    neighbors: Seq<(VertexId, String, String)>,
    n: int,
    path: Seq<Seq<char>>,
    label: Seq<char>,
    v: VertexId,
    u_label: Seq<char>,
) -> bool {
    exists|i: int|
        0 <= i < n && (#[trigger] neighbors[i]).0 == v && neighbors[i].1@ == label && path
            == one_edge(label, neighbors[i].2@, u_label)
}

/// How a vertex that goes changes what is logged of its neighbors. Several edges with one label
/// to one neighbor count once.
pub open spec fn vertex_change(
    neighbors: Seq<(VertexId, String, String)>,
    n: int,
    path: Seq<Seq<char>>,
    label: Seq<char>,
    v: VertexId,
    u_label: Seq<char>,
) -> int {
    if is_neighbor(neighbors, n, path, label, v, u_label) {
        -1
    } else {
        0
    }
}

fn seen_before(neighbors: &Vec<(VertexId, String, String)>, n: usize, Ghost(u_label): Ghost<Seq<char>>) -> (result:
    bool)
    requires
        n < neighbors@.len(),
    ensures
        result == is_neighbor(
            neighbors@,
            n as int,
            one_edge(neighbors@[n as int].1@, neighbors@[n as int].2@, u_label),
            neighbors@[n as int].1@,
            neighbors@[n as int].0,
            u_label,
        ),
{
    let ghost label = neighbors@[n as int].1@;
    let ghost edge = neighbors@[n as int].2@;
    let mut i: usize = 0;
    while i < n
        invariant
            i <= n < neighbors@.len(),
            label == neighbors@[n as int].1@,
            edge == neighbors@[n as int].2@,
            forall|j: int|
                0 <= j < i ==> !((#[trigger] neighbors@[j]).0 == neighbors@[n as int].0
                    && neighbors@[j].1@ == label && one_edge(label, edge, u_label) == one_edge(
                    label,
                    neighbors@[j].2@,
                    u_label,
                )),
        decreases n - i,
    {
        proof {
            lemma_one_edge_middle(label, edge, u_label);
            lemma_one_edge_middle(label, neighbors@[i as int].2@, u_label);
        }
        if neighbors[i].0 == neighbors[n].0 && is_text(
            neighbors[i].1.as_str(),
            neighbors[n].1.as_str(),
        ) && is_text(neighbors[i].2.as_str(), neighbors[n].2.as_str()) {
            return true;
        }
        i = i + 1;
    }
    false
}

impl GCardUpdateLog {
    /// Logs a vertex that went. Its neighbors are given with their labels and those of the edges.
    pub fn record_delete_vertex(
        &mut self,
        u: VertexId,
        u_label: &str,
        neighbors: &Vec<(VertexId, String, String)>,
    )
        requires
            old(self).wf(),
            old(self).has_room(1),
        ensures
            final(self).wf(),
            final(self).max_k == old(self).max_k,
            final(self).deleted_vertices@ == (if old(self).deleted_vertices@.contains(u) {
                old(self).deleted_vertices@
            } else {
                old(self).deleted_vertices@.push(u)
            }),
            forall|p: Seq<Seq<char>>, l: Seq<char>, r: nat, x: VertexId| #[trigger]
                final(self).change(p, l, r, x) == old(self).change(p, l, r, x) + (if r == old(self).growth() {
                    vertex_change(
                        neighbors@,
                        neighbors@.len() as int,
                        p,
                        l,
                        x,
                        u_label@,
                    )
                } else {
                    0
                }),
            heads(final(self).entries@) == with_neighbor_heads(
                heads(old(self).entries@),
                neighbors@,
                neighbors@.len() as int,
                u_label@,
                old(self).growth(),
            ),
            forall|n: nat|
                n + 1 <= i64::MAX && old(self).has_room(n + 1) ==> #[trigger] final(self).has_room(n),
    {
        let ghost start = *self;
        self.note_deleted(u);
        let ghost noted = self.deleted_vertices;
        let res_len: usize = if self.max_k == 0 {
            0
        } else {
            self.max_k - 1
        };
        let mut i: usize = 0;
        while i < neighbors.len()
            invariant
                start.has_room(1),
                self.wf(),
                self.max_k == start.max_k,
                self.deleted_vertices == noted,
                res_len == start.growth(),
                i <= neighbors@.len(),
                forall|p: Seq<Seq<char>>, l: Seq<char>, r: nat, x: VertexId| #[trigger]
                    self.change(p, l, r, x) == start.change(p, l, r, x) + (if r
                        == start.growth() {
                        vertex_change(neighbors@, i as int, p, l, x, u_label@)
                    } else {
                        0
                    }),
                heads(self.entries@) == with_neighbor_heads(
                    heads(start.entries@),
                    neighbors@,
                    i as int,
                    u_label@,
                    start.growth(),
                ),
            decreases neighbors.len() - i,
        {
            let ghost before = *self;
            let neighbor: &(VertexId, String, String) = &neighbors[i];
            let ghost path = one_edge(neighbor.1@, neighbor.2@, u_label@);
            let ghost label = neighbor.1@;
            let again: bool = seen_before(neighbors, i, Ghost(u_label@));
            proof {
                if again {
                    let j = choose|j: int|
                        0 <= j < i && (#[trigger] neighbors@[j]).0 == neighbor.0 && neighbors@[j].1@
                            == label && path == one_edge(label, neighbors@[j].2@, u_label@);
                    lemma_one_edge_middle(label, neighbor.2@, u_label@);
                    lemma_one_edge_middle(label, neighbors@[j].2@, u_label@);
                    lemma_neighbor_has_head(
                        heads(start.entries@),
                        neighbors@,
                        i as int,
                        u_label@,
                        start.growth(),
                        j,
                    );
                }
            }
            if !again {
                let change: Deltas = one_change(neighbor.0, -1);
                proof {
                    assert forall|x: VertexId|
                        fits(self.change(path, label, res_len as nat, x) + #[trigger] change.at(
                            x,
                        )) by {
                        assert(-i64::MAX + 1nat <= start.change(path, label, res_len as nat, x)
                            <= i64::MAX - 1nat);
                    }
                }
                self.push_or_merge_entry(
                    one_edge_key(neighbor.1.as_str(), neighbor.2.as_str(), u_label),
                    neighbor.1.as_str().to_owned(),
                    change,
                    res_len,
                );
                proof {
                    assert forall|p: Seq<Seq<char>>, l: Seq<char>, r: nat, x: VertexId| #[trigger]
                        self.change(p, l, r, x) == before.change(p, l, r, x) + (if p == path && l
                            == label && r == res_len && x == neighbor.0 {
                            -1int
                        } else {
                            0
                        }) by {
                        assert(logged(self.entries@, p, l, r, x) == self.change(p, l, r, x));
                        assert(change.at(x) == (if x == neighbor.0 {
                            -1int
                        } else {
                            0
                        }));
                    }
                }
            }
            proof {
                assert forall|p: Seq<Seq<char>>, l: Seq<char>, r: nat, x: VertexId| #[trigger]
                    self.change(p, l, r, x) == start.change(p, l, r, x) + (if r == start.growth() {
                        vertex_change(neighbors@, i + 1, p, l, x, u_label@)
                    } else {
                        0
                    }) by {
                    let here = neighbors@[i as int].0 == x && neighbors@[i as int].1@ == l && p
                        == one_edge(l, neighbors@[i as int].2@, u_label@);
                    assert(is_neighbor(neighbors@, i + 1, p, l, x, u_label@) == (is_neighbor(
                        neighbors@,
                        i as int,
                        p,
                        l,
                        x,
                        u_label@,
                    ) || here)) by {
                        if is_neighbor(neighbors@, i + 1, p, l, x, u_label@) {
                            let j = choose|j: int|
                                0 <= j < i + 1 && (#[trigger] neighbors@[j]).0 == x
                                    && neighbors@[j].1@ == l && p == one_edge(
                                    l,
                                    neighbors@[j].2@,
                                    u_label@,
                                );
                            if j < i {
                                assert(is_neighbor(neighbors@, i as int, p, l, x, u_label@));
                            }
                        }
                        if is_neighbor(neighbors@, i as int, p, l, x, u_label@) {
                            let j = choose|j: int|
                                0 <= j < i && (#[trigger] neighbors@[j]).0 == x
                                    && neighbors@[j].1@ == l && p == one_edge(
                                    l,
                                    neighbors@[j].2@,
                                    u_label@,
                                );
                            assert(neighbors@[j].0 == x);
                        }
                    }
                    assert(before.change(p, l, r, x) == before.change(p, l, r, x));
                }
            }
            i = i + 1;
        }
        proof {
            assert forall|n: nat|
                n + 1 <= i64::MAX && start.has_room(n + 1) implies #[trigger] self.has_room(n) by {
                assert forall|p: Seq<Seq<char>>, l: Seq<char>, r: nat, x: VertexId|
                    -i64::MAX + n <= #[trigger] self.change(p, l, r, x) <= i64::MAX - n by {
                    assert(-i64::MAX + (n + 1) <= start.change(p, l, r, x) <= i64::MAX - (n + 1));
                }
            }
        }
    }

    fn note_deleted(&mut self, u: VertexId)
        requires
            old(self).wf(),
        ensures
            final(self).wf(),
            final(self).max_k == old(self).max_k,
            final(self).entries == old(self).entries,
            final(self).deleted_vertices@ == (if old(self).deleted_vertices@.contains(u) {
                old(self).deleted_vertices@
            } else {
                old(self).deleted_vertices@.push(u)
            }),
    {
        let mut i: usize = 0;
        while i < self.deleted_vertices.len()
            invariant
                *self == *old(self),
                self.wf(),
                i <= self.deleted_vertices@.len(),
                forall|j: int| 0 <= j < i ==> self.deleted_vertices@[j] != u,
            decreases self.deleted_vertices.len() - i,
        {
            if self.deleted_vertices[i] == u {
                assert(self.deleted_vertices@[i as int] == u);
                return;
            }
            i = i + 1;
        }
        self.deleted_vertices.push(u);
    }
}

/// An edge that comes and goes again leaves no change: what is logged for its coming and for its
/// going cancels out.
pub proof fn coming_and_going_cancel(
    before: GCardUpdateLog,
    between: GCardUpdateLog,
    after: GCardUpdateLog,
    u: VertexId,
    u_label: Seq<char>,
    v: VertexId,
    v_label: Seq<char>,
    edge_label: Seq<char>,
)
    requires
        between.max_k == before.max_k,
        forall|p: Seq<Seq<char>>, l: Seq<char>, r: nat, x: VertexId| #[trigger]
            between.change(p, l, r, x) == before.change(p, l, r, x) + (if r == before.growth() {
                edge_change(p, l, x, u, u_label, v, v_label, edge_label, 1)
            } else {
                0
            }),
        forall|p: Seq<Seq<char>>, l: Seq<char>, r: nat, x: VertexId| #[trigger]
            after.change(p, l, r, x) == between.change(p, l, r, x) + (if r == between.growth() {
                edge_change(p, l, x, u, u_label, v, v_label, edge_label, -1)
            } else {
                0
            }),
    ensures
        forall|p: Seq<Seq<char>>, l: Seq<char>, r: nat, x: VertexId| #[trigger]
            after.change(p, l, r, x) == before.change(p, l, r, x),
{
    assert forall|p: Seq<Seq<char>>, l: Seq<char>, r: nat, x: VertexId| #[trigger]
        after.change(p, l, r, x) == before.change(p, l, r, x) by {
        assert(between.change(p, l, r, x) == between.change(p, l, r, x));
    }
}

/// In a log that is as it should be, the changes of an entry are those that are logged for what
/// it is for.
pub proof fn entries_hold_what_is_logged(log: GCardUpdateLog, i: int, v: VertexId)
    requires
        log.wf(),
        0 <= i < log.entries@.len(),
    ensures
        log.entries@[i].nodes.at(v) == log.change(
            first_direction(heads(log.entries@)[i].path),
            heads(log.entries@)[i].label,
            heads(log.entries@)[i].res_len,
            v,
        ),
{
    lemma_logged_at(log.entries@, i, v);
    assert(log.entries@[i].template.wf());
}

} // verus!
