//! Changes of degrees, by vertex.
use crate::query::VertexId;
use vstd::prelude::*;

verus! {

/// By how much the degrees of vertices change: ascending vertices, each with a change that is not
/// zero.
#[derive(Debug)]
pub struct Deltas {
    pub entries: Vec<(VertexId, i64)>,
}

/// The change of a vertex among entries.
pub open spec fn change_among(entries: Seq<(VertexId, i64)>, v: VertexId) -> int
    decreases entries.len(),
{
    if entries.len() == 0 {
        0
    } else if entries.last().0 == v {
        entries.last().1 as int
    } else {
        change_among(entries.drop_last(), v)
    }
}

/// Whether vertices ascend.
pub open spec fn ascends(entries: Seq<(VertexId, i64)>) -> bool {
    forall|i: int, j: int|
        #![trigger entries[i], entries[j]]
        0 <= i < j < entries.len() ==> entries[i].0 < entries[j].0
}

proof fn lemma_absent(entries: Seq<(VertexId, i64)>, v: VertexId)
    requires
        forall|i: int| 0 <= i < entries.len() ==> (#[trigger] entries[i]).0 != v,
    ensures
        change_among(entries, v) == 0,
    decreases entries.len(),
{
    if entries.len() > 0 {
        assert(entries[entries.len() - 1].0 != v);
        assert forall|i: int| 0 <= i < entries.drop_last().len() implies (
        #[trigger] entries.drop_last()[i]).0 != v by {
            assert(entries[i].0 != v);
        }
        lemma_absent(entries.drop_last(), v);
    }
}

/// The change of a vertex that is listed.
pub proof fn lemma_listed(entries: Seq<(VertexId, i64)>, i: int)
    requires
        ascends(entries),
        0 <= i < entries.len(),
    ensures
        change_among(entries, entries[i].0) == entries[i].1,
    decreases entries.len(),
{
    if i < entries.len() - 1 {
        assert(entries[i].0 < entries[entries.len() - 1].0);
        lemma_listed(entries.drop_last(), i);
    }
}

/// A change that is not zero is listed.
pub proof fn lemma_where(entries: Seq<(VertexId, i64)>, v: VertexId) -> (i: int)
    requires
        change_among(entries, v) != 0,
    ensures
        0 <= i < entries.len(),
        entries[i].0 == v,
        entries[i].1 == change_among(entries, v),
    decreases entries.len(),
{
    if entries.last().0 == v {
        entries.len() - 1
    } else {
        lemma_where(entries.drop_last(), v)
    }
}

/// Whether a number fits into a change.
pub open spec fn fits(n: int) -> bool {
    i64::MIN <= n <= i64::MAX
}

impl Deltas {
    /// The vertices ascend, and no change is zero.
    pub open spec fn wf(self) -> bool {
        &&& ascends(self.entries@)
        &&& forall|i: int| 0 <= i < self.entries@.len() ==> (#[trigger] self.entries@[i]).1 != 0
    }

    /// The change of a vertex; zero where none is listed.
    pub open spec fn at(self, v: VertexId) -> int {
        change_among(self.entries@, v)
    }

    /// Whether no change is so large that so much more would not fit.
    pub open spec fn has_room(self, room: nat) -> bool {
        forall|v: VertexId| -i64::MAX + room <= #[trigger] self.at(v) <= i64::MAX - room
    }

    /// No changes.
    pub fn new() -> (result: Deltas)
        ensures
            result.wf(),
            result.entries@.len() == 0,
            forall|v: VertexId| #[trigger] result.at(v) == 0,
    {
        Deltas { entries: Vec::new() }
    }

    /// Where a vertex is listed or belongs.
    fn place_of(&self, v: VertexId) -> (result: usize)
        requires
            self.wf(),
        ensures
            result <= self.entries@.len(),
            forall|i: int| 0 <= i < result ==> (#[trigger] self.entries@[i]).0 < v,
            forall|i: int| result <= i < self.entries@.len() ==> (#[trigger] self.entries@[i]).0
                >= v,
    {
        let mut low: usize = 0;
        let mut high: usize = self.entries.len();
        while low < high
            invariant
                self.wf(),
                low <= high <= self.entries@.len(),
                forall|i: int| 0 <= i < low ==> (#[trigger] self.entries@[i]).0 < v,
                forall|i: int|
                    high <= i < self.entries@.len() ==> (#[trigger] self.entries@[i]).0 >= v,
            decreases high - low,
        {
            let middle: usize = low + (high - low) / 2;
            assert(forall|i: int|
                0 <= i < middle ==> (#[trigger] self.entries@[i]).0
                    < self.entries@[middle as int].0);
            assert(forall|i: int|
                middle < i < self.entries@.len() ==> self.entries@[middle as int].0 < (
                #[trigger] self.entries@[i]).0);
            if self.entries[middle].0 < v {
                low = middle + 1;
            } else {
                high = middle;
            }
        }
        low
    }

    /// The change of a vertex; zero where none is listed.
    pub fn get(&self, v: VertexId) -> (result: i64)
        requires
            self.wf(),
        ensures
            result == self.at(v),
    {
        let i: usize = self.place_of(v);
        if i < self.entries.len() && self.entries[i].0 == v {
            proof {
                lemma_listed(self.entries@, i as int);
            }
            self.entries[i].1
        } else {
            proof {
                assert forall|j: int| 0 <= j < self.entries@.len() implies (
                #[trigger] self.entries@[j]).0 != v by {
                    if i < self.entries@.len() && j > i {
                        assert(self.entries@[i as int].0 < self.entries@[j].0);
                    }
                }
                lemma_absent(self.entries@, v);
            }
            0
        }
    }

    /// Adds to the change of a vertex; nothing happens where the sum does not fit.
    #[verifier::rlimit(60)]
    pub fn add_to(&mut self, v: VertexId, delta: i64) -> (result: bool)
        requires
            old(self).wf(),
        ensures
            final(self).wf(),
            result == fits(old(self).at(v) + delta),
            result ==> forall|w: VertexId| #[trigger]
                final(self).at(w) == old(self).at(w) + (if w == v {
                    delta as int
                } else {
                    0
                }),
            !result ==> *final(self) == *old(self),
    {
        let before: i64 = self.get(v);
        let sum: i64 = match before.checked_add(delta) {
            Some(sum) => sum,
            None => {
                return false;
            },
        };
        let i: usize = self.place_of(v);
        let ghost entries = self.entries@;
        let listed: bool = i < self.entries.len() && self.entries[i].0 == v;
        if listed {
            if sum == 0 {
                self.entries.remove(i);
            } else {
                self.entries[i] = (v, sum);
            }
        } else if sum != 0 {
            self.entries.insert(i, (v, sum));
        }
        proof {
            let now = self.entries@;
            if listed {
                lemma_listed(entries, i as int);
            } else {
                assert forall|j: int| 0 <= j < entries.len() implies (#[trigger] entries[j]).0
                    != v by {
                    if i < entries.len() && j > i {
                        assert(entries[i as int].0 < entries[j].0);
                    }
                }
                lemma_absent(entries, v);
            }
            assert(ascends(now)) by {
                assert forall|a: int, b: int|
                    #![trigger now[a], now[b]]
                    0 <= a < b < now.len() implies now[a].0 < now[b].0 by {
                    if listed && sum == 0 {
                        let x = if a < i {
                            a
                        } else {
                            a + 1
                        };
                        let y = if b < i {
                            b
                        } else {
                            b + 1
                        };
                        assert(now[a] == entries[x] && now[b] == entries[y]);
                        assert(entries[x].0 < entries[y].0);
                    } else if listed {
                        assert(entries[a].0 < entries[b].0);
                    } else if sum != 0 {
                        if a < i && b > i {
                            assert(now[b] == entries[b - 1]);
                            assert(entries[a].0 < entries[b - 1].0);
                        } else if a > i {
                            assert(now[a] == entries[a - 1]);
                            assert(now[b] == entries[b - 1]);
                            assert(entries[a - 1].0 < entries[b - 1].0);
                        } else if b < i {
                            assert(entries[a].0 < entries[b].0);
                        } else if a == i {
                            assert(now[b] == entries[b - 1]);
                            assert(entries[b - 1].0 >= v);
                            assert(entries[b - 1].0 != v);
                        }
                    } else {
                        assert(entries[a].0 < entries[b].0);
                    }
                }
            }
            assert forall|a: int| 0 <= a < now.len() implies (#[trigger] now[a]).1 != 0 by {
                if listed && sum == 0 && a >= i {
                    assert(now[a] == entries[a + 1]);
                } else if !listed && sum != 0 && a > i {
                    assert(now[a] == entries[a - 1]);
                } else if a != i || (!listed && sum == 0) {
                    assert(now[a] == entries[a]);
                }
            }
            assert forall|w: VertexId| #[trigger] change_among(now, w) == change_among(entries, w)
                + (if w == v {
                delta as int
            } else {
                0
            }) by {
                if w == v {
                    if sum != 0 {
                        lemma_listed(now, i as int);
                    } else {
                        assert forall|j: int| 0 <= j < now.len() implies (#[trigger] now[j]).0
                            != v by {
                            if listed && j >= i {
                                assert(now[j] == entries[j + 1]);
                                assert(entries[i as int].0 < entries[j + 1].0);
                            } else {
                                assert(now[j] == entries[j]);
                            }
                        }
                        lemma_absent(now, v);
                    }
                } else if change_among(entries, w) != 0 {
                    let k = lemma_where(entries, w);
                    let x = if listed && sum == 0 && k > i {
                        k - 1
                    } else if !listed && sum != 0 && k >= i {
                        k + 1
                    } else {
                        k
                    };
                    assert(now[x] == entries[k]);
                    lemma_listed(now, x);
                } else if change_among(now, w) != 0 {
                    let k = lemma_where(now, w);
                    let x = if listed && sum == 0 && k >= i {
                        k + 1
                    } else if !listed && sum != 0 && k > i {
                        k - 1
                    } else {
                        k
                    };
                    assert(now[k] == entries[x]);
                    lemma_listed(entries, x);
                    assert(entries[x].1 != 0);
                }
            }
        }
        true
    }
}

/// Two lists of changes are the same where they change every vertex alike.
pub proof fn changes_are_unique(a: Deltas, b: Deltas)
    requires
        a.wf(),
        b.wf(),
        forall|v: VertexId| #[trigger] a.at(v) == b.at(v),
    ensures
        a.entries@ == b.entries@,
{
    assert forall|v: VertexId| #[trigger]
        change_among(a.entries@, v) == change_among(b.entries@, v) by {
        assert(a.at(v) == b.at(v));
    }
    lemma_same_entries(a.entries@, b.entries@);
}

proof fn lemma_same_entries(s: Seq<(VertexId, i64)>, t: Seq<(VertexId, i64)>)
    requires
        ascends(s),
        ascends(t),
        forall|i: int| 0 <= i < s.len() ==> (#[trigger] s[i]).1 != 0,
        forall|i: int| 0 <= i < t.len() ==> (#[trigger] t[i]).1 != 0,
        forall|v: VertexId| #[trigger] change_among(s, v) == change_among(t, v),
    ensures
        s == t,
    decreases s.len(),
{
    if s.len() == 0 {
        if t.len() > 0 {
            lemma_listed(t, 0);
            assert(change_among(s, t[0].0) == 0);
        }
        assert(s =~= t);
    } else {
        let v = s.last().0;
        lemma_listed(s, s.len() - 1);
        let k = lemma_where(t, v);
        if k < t.len() - 1 {
            let w = t.last().0;
            assert(t[k].0 < t[t.len() - 1].0);
            lemma_listed(t, t.len() - 1);
            let j = lemma_where(s, w);
            if j < s.len() - 1 {
                assert(s[j].0 < s[s.len() - 1].0);
            }
            assert(false);
        }
        assert(t.last() == s.last());
        let a = s.drop_last();
        let b = t.drop_last();
        assert forall|x: VertexId| #[trigger] change_among(a, x) == change_among(b, x) by {
            assert(change_among(s, x) == change_among(t, x));
            if x == v {
                assert forall|i: int| 0 <= i < a.len() implies (#[trigger] a[i]).0 != v by {
                    assert(s[i].0 < s[s.len() - 1].0);
                }
                assert forall|i: int| 0 <= i < b.len() implies (#[trigger] b[i]).0 != v by {
                    assert(t[i].0 < t[t.len() - 1].0);
                }
                lemma_absent(a, v);
                lemma_absent(b, v);
            }
        }
        assert forall|i: int| 0 <= i < a.len() implies (#[trigger] a[i]).1 != 0 by {
            assert(s[i].1 != 0);
        }
        assert forall|i: int| 0 <= i < b.len() implies (#[trigger] b[i]).1 != 0 by {
            assert(t[i].1 != 0);
        }
        lemma_same_entries(a, b);
        assert(s =~= a.push(s.last()));
        assert(t =~= b.push(t.last()));
    }
}

} // verus!
