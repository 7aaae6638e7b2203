//! Segment-match aggregation, ordering and coverage classification.
//!
//! A [`SegmentMatches`] maps each directed road-network edge (a pair of
//! adjacent node ids from some leg's path) to the trace locations attributed
//! to it. The aggregator builds the mapping from a map-matching result, the
//! orderer sorts each edge's locations along the edge, and the classifier
//! keeps the edges whose consecutive ordered locations never gap by more than
//! a distance threshold.

use vstd::prelude::*;
use std::collections::HashMap;
use crate::geometry::{
    Coord,
    covered,
    dist_sq,
    dist_sq_exec,
    line_pos,
    line_pos_exec,
    sorted_along,
};
use crate::osrm::{OsrmResponse, Tracepoint};

verus! {

broadcast use vstd::std_specs::hash::group_hash_axioms;

/// A directed road-network edge, identified by its endpoint node ids.
pub type Segment = (u64, u64);

/// Mapping from segment to the trace locations attributed to it, kept as an
/// association list in first-observation order with pairwise-distinct keys.
pub struct SegmentMatches(pub Vec<(Segment, Vec<Coord>)>);

/// The mathematical mapping an association list stands for: later entries
/// would shadow earlier ones, though a well-formed list has distinct keys.
pub open spec fn entries_map(s: Seq<(Segment, Vec<Coord>)>) -> Map<Segment, Seq<Coord>>
    decreases s.len(),
{
    if s.len() == 0 {
        Map::empty()
    } else {
        entries_map(s.drop_last()).insert(s.last().0, s.last().1@)
    }
}

/// No two entries share a key.
pub open spec fn keys_distinct(s: Seq<(Segment, Vec<Coord>)>) -> bool {
    forall|i: int, j: int| 0 <= i < j < s.len() ==> (#[trigger] s[i]).0 != (#[trigger] s[j]).0
}

impl SegmentMatches {
    /// The mapping this value represents.
    pub open spec fn as_map(self) -> Map<Segment, Seq<Coord>> {
        entries_map(self.0@)
    }

    /// Keys are pairwise distinct, so each key's list is unambiguous.
    pub open spec fn wf(self) -> bool {
        keys_distinct(self.0@)
    }

    /// Every attributed location is within coordinate limits.
    pub open spec fn coords_wf(self) -> bool {
        forall|i: int, j: int|
            0 <= i < self.0@.len() && 0 <= j < (#[trigger] self.0@[i]).1@.len()
                ==> (#[trigger] self.0@[i].1@[j]).wf()
    }
}

/// A key is in the represented map exactly when some entry holds it.
pub proof fn lemma_entries_map_contains(s: Seq<(Segment, Vec<Coord>)>, k: Segment)
    ensures
        entries_map(s).contains_key(k) <==> exists|i: int| 0 <= i < s.len() && (#[trigger] s[i]).0 == k,
    decreases s.len(),
{
    if s.len() > 0 {
        lemma_entries_map_contains(s.drop_last(), k);
        if s.last().0 == k {
            assert(s[s.len() - 1].0 == k);
        } else if entries_map(s).contains_key(k) {
            let i = choose|i: int| 0 <= i < s.drop_last().len() && (#[trigger] s.drop_last()[i]).0 == k;
            assert(s[i].0 == k);
        } else {
            assert forall|i: int| 0 <= i < s.len() implies (#[trigger] s[i]).0 != k by {
                if i < s.len() - 1 {
                    assert(s.drop_last()[i].0 != k);
                }
            }
        }
    }
}

/// Distinct keys stay distinct after dropping the last entry.
proof fn lemma_keys_distinct_drop_last(s: Seq<(Segment, Vec<Coord>)>)
    requires
        keys_distinct(s),
        s.len() > 0,
    ensures
        keys_distinct(s.drop_last()),
{
    assert forall|p: int, q: int| 0 <= p < q < s.drop_last().len() implies (#[trigger] s.drop_last()[p]).0
        != (#[trigger] s.drop_last()[q]).0 by {
        assert(s[p].0 != s[q].0);
    }
}

/// With distinct keys, the represented map sends each entry's key to that
/// entry's list.
pub proof fn lemma_entries_map_index(s: Seq<(Segment, Vec<Coord>)>, i: int)
    requires
        keys_distinct(s),
        0 <= i < s.len(),
    ensures
        entries_map(s).contains_key(s[i].0),
        entries_map(s)[s[i].0] == s[i].1@,
    decreases s.len(),
{
    if i == s.len() - 1 {
    } else {
        lemma_keys_distinct_drop_last(s);
        lemma_entries_map_index(s.drop_last(), i);
        assert(s.drop_last()[i] == s[i]);
        assert(s[i].0 != s.last().0);
    }
}

/// Replacing the list of the entry at `i` updates the represented map at that
/// entry's key and nothing else.
proof fn lemma_entries_map_update(s: Seq<(Segment, Vec<Coord>)>, i: int, v: Vec<Coord>)
    requires
        keys_distinct(s),
        0 <= i < s.len(),
    ensures
        entries_map(s.update(i, (s[i].0, v))) =~= entries_map(s).insert(s[i].0, v@),
    decreases s.len(),
{
    let t = s.update(i, (s[i].0, v));
    if i == s.len() - 1 {
        assert(t.drop_last() =~= s.drop_last());
        assert(t.last() == (s[i].0, v));
    } else {
        lemma_keys_distinct_drop_last(s);
        lemma_entries_map_update(s.drop_last(), i, v);
        assert(t.drop_last() =~= s.drop_last().update(i, (s[i].0, v)));
        assert(t.last() == s.last());
        assert(s[i].0 != s.last().0);
    }
}

/// One observation appended to one segment's list (the list starts empty when
/// the key is new).
pub open spec fn append_obs(
    m: Map<Segment, Seq<Coord>>,
    k: Segment,
    c: Coord,
) -> Map<Segment, Seq<Coord>> {
    m.insert(k, (if m.contains_key(k) { m[k] } else { Seq::empty() }).push(c))
}

/// One observation applied to the first `j` adjacent node pairs of a leg's
/// path, in path order.
pub open spec fn apply_leg_prefix(
    m: Map<Segment, Seq<Coord>>,
    path: Seq<u64>,
    c: Coord,
    j: int,
) -> Map<Segment, Seq<Coord>>
    decreases j,
{
    if j <= 0 {
        m
    } else {
        append_obs(apply_leg_prefix(m, path, c, j - 1), (path[j - 1], path[j]), c)
    }
}

/// One observation applied to every adjacent node pair of a leg's path.
pub open spec fn apply_leg(m: Map<Segment, Seq<Coord>>, path: Seq<u64>, c: Coord) -> Map<
    Segment,
    Seq<Coord>,
> {
    apply_leg_prefix(m, path, c, path.len() - 1)
}

/// Whether a tracepoint names a matching and a leg the result holds.
pub open spec fn tracepoint_resolves(resp: OsrmResponse, t: Tracepoint) -> bool {
    t.matchings_index < resp.matchings@.len() && t.waypoint_index
        < resp.matchings@[t.matchings_index as int].legs@.len()
}

/// The node path of the leg a resolving tracepoint names.
pub open spec fn leg_path(resp: OsrmResponse, t: Tracepoint) -> Seq<u64> {
    resp.matchings@[t.matchings_index as int].legs@[t.waypoint_index as int].annotation.nodes@
}

/// One optional tracepoint applied to the mapping: an absent one, or one
/// naming an out-of-range matching or leg, is discarded.
pub open spec fn apply_tracepoint(
    m: Map<Segment, Seq<Coord>>,
    resp: OsrmResponse,
    ot: Option<Tracepoint>,
) -> Map<Segment, Seq<Coord>> {
    match ot {
        None => m,
        Some(t) => if tracepoint_resolves(resp, t) {
            apply_leg(m, leg_path(resp, t), t.location)
        } else {
            m
        },
    }
}

/// The mapping built from the first `i` tracepoints of a result.
pub open spec fn aggregate_prefix(resp: OsrmResponse, i: int) -> Map<Segment, Seq<Coord>>
    decreases i,
{
    if i <= 0 {
        Map::empty()
    } else {
        apply_tracepoint(aggregate_prefix(resp, i - 1), resp, resp.tracepoints@[i - 1])
    }
}

/// The segment-observations mapping of a whole map-matching result: every
/// present, resolving tracepoint's location appended, in tracepoint order, to
/// the list of every adjacent node pair of its leg's path.
pub open spec fn segment_observations(resp: OsrmResponse) -> Map<Segment, Seq<Coord>> {
    aggregate_prefix(resp, resp.tracepoints@.len() as int)
}

impl SegmentMatches {
    /// Index of the entry holding `k`, if any.
    fn find_index(&self, k: Segment) -> (r: Option<usize>)
        ensures
            match r {
                Some(i) => i < self.0@.len() && self.0@[i as int].0 == k,
                None => forall|i: int| 0 <= i < self.0@.len() ==> (#[trigger] self.0@[i]).0 != k,
            },
    {
        let mut i: usize = 0;
        while i < self.0.len()
            invariant
                i <= self.0@.len(),
                forall|p: int| 0 <= p < i ==> (#[trigger] self.0@[p]).0 != k,
            decreases self.0@.len() - i,
        {
            let e = &self.0[i];
            if e.0.0 == k.0 && e.0.1 == k.1 {
                return Some(i);
            }
            i = i + 1;
        }
        None
    }

    /// Append one observed location to one segment's list, creating the list
    /// on first observation for that key.
    fn add_observation(&mut self, k: Segment, c: Coord)
        requires
            old(self).wf(),
        ensures
            final(self).wf(),
            final(self).as_map() == append_obs(old(self).as_map(), k, c),
            old(self).coords_wf() && c.wf() ==> final(self).coords_wf(),
    {
        proof {
            lemma_entries_map_contains(self.0@, k);
        }
        match self.find_index(k) {
            Some(i) => {
                proof {
                    lemma_entries_map_index(self.0@, i as int);
                }
                let ghost s0 = self.0@;
                self.0[i].1.push(c);
                proof {
                    assert(self.0@ =~= s0.update(i as int, (s0[i as int].0, self.0@[i as int].1)));
                    lemma_entries_map_update(s0, i as int, self.0@[i as int].1);
                }
            },
            None => {
                let mut list: Vec<Coord> = Vec::new();
                list.push(c);
                let ghost s0 = self.0@;
                self.0.push((k, list));
                proof {
                    assert(self.0@.drop_last() =~= s0);
                    assert(entries_map(self.0@) =~= append_obs(entries_map(s0), k, c));
                }
            },
        }
    }
}

/// Every coordinate in the sequence is within limits.
pub open spec fn all_wf(s: Seq<Coord>) -> bool {
    forall|i: int| 0 <= i < s.len() ==> (#[trigger] s[i]).wf()
}

/// `c` inserted behind every location whose position does not exceed its
/// own: a location at an equal position stays in front of `c`, so ties keep
/// their existing order.
pub open spec fn insert_sorted(a: Coord, b: Coord, s: Seq<Coord>, c: Coord) -> Seq<Coord>
    decreases s.len(),
{
    if s.len() == 0 {
        seq![c]
    } else if line_pos(a, b, s.last()) <= line_pos(a, b, c) {
        s.push(c)
    } else {
        insert_sorted(a, b, s.drop_last(), c).push(s.last())
    }
}

/// The stable sort of locations by position along the reference line from
/// `a` to `b`: each location in input order inserted behind every location
/// already placed at a position not beyond its own. Equal-position locations
/// therefore keep their input order, and the result is a function of the
/// input alone.
pub open spec fn stable_sort_by_pos(a: Coord, b: Coord, s: Seq<Coord>) -> Seq<Coord>
    decreases s.len(),
{
    if s.len() == 0 {
        Seq::empty()
    } else {
        insert_sorted(a, b, stable_sort_by_pos(a, b, s.drop_last()), s.last())
    }
}

/// Splicing `c` in at the position found by scanning from the back (past
/// every location strictly beyond `c`'s position) realizes `insert_sorted`.
proof fn lemma_insert_sorted_at(a: Coord, b: Coord, s: Seq<Coord>, c: Coord, idx: int)
    requires
        0 <= idx <= s.len(),
        forall|q: int| idx <= q < s.len() ==> line_pos(a, b, #[trigger] s[q]) > line_pos(a, b, c),
        idx > 0 ==> line_pos(a, b, s[idx - 1]) <= line_pos(a, b, c),
    ensures
        insert_sorted(a, b, s, c) == s.take(idx) + seq![c] + s.skip(idx),
    decreases s.len(),
{
    if s.len() == 0 {
        assert(s.take(idx) + seq![c] + s.skip(idx) =~= seq![c]);
    } else if line_pos(a, b, s.last()) <= line_pos(a, b, c) {
        assert(idx == s.len());
        assert(s.take(idx) + seq![c] + s.skip(idx) =~= s.push(c));
    } else {
        assert(idx < s.len()) by {
            if idx == s.len() {
                assert(line_pos(a, b, s[idx - 1]) <= line_pos(a, b, c));
            }
        }
        let d = s.drop_last();
        assert forall|q: int| idx <= q < d.len() implies line_pos(a, b, #[trigger] d[q])
            > line_pos(a, b, c) by {
            assert(d[q] == s[q]);
        }
        if idx > 0 {
            assert(d[idx - 1] == s[idx - 1]);
        }
        lemma_insert_sorted_at(a, b, d, c, idx);
        assert((d.take(idx) + seq![c] + d.skip(idx)).push(s.last()) =~= s.take(idx) + seq![c]
            + s.skip(idx)) by {
            assert(d.take(idx) =~= s.take(idx));
        }
    }
}

/// Sort locations by position along the reference line from `a` to `b`. The
/// result is exactly the stable sort `stable_sort_by_pos`: equal-position
/// locations keep their input order, so an already-sorted list comes back
/// unchanged.
pub fn sort_coords(a: &Coord, b: &Coord, v: Vec<Coord>) -> (r: Vec<Coord>)
    requires
        a.wf(),
        b.wf(),
        all_wf(v@),
    ensures
        r@ == stable_sort_by_pos(*a, *b, v@),
        r@.to_multiset() == v@.to_multiset(),
        r@.len() == v@.len(),
        all_wf(r@),
        sorted_along(*a, *b, r@),
        sorted_along(*a, *b, v@) ==> r@ == v@,
{
    broadcast use vstd::seq_lib::group_to_multiset_ensures;
    broadcast use vstd::multiset::group_multiset_axioms;

    let mut out: Vec<Coord> = Vec::new();
    let mut i: usize = 0;
    proof {
        assert(v@.take(0) =~= Seq::<Coord>::empty());
    }
    while i < v.len()
        invariant
            a.wf(),
            b.wf(),
            all_wf(v@),
            i <= v@.len(),
            out@ == stable_sort_by_pos(*a, *b, v@.take(i as int)),
            out@.to_multiset() == v@.take(i as int).to_multiset(),
            out@.len() == i as int,
            all_wf(out@),
            sorted_along(*a, *b, out@),
            sorted_along(*a, *b, v@) ==> out@ == v@.take(i as int),
        decreases v@.len() - i,
    {
        let c = v[i];
        let cpos = line_pos_exec(a, b, &c);
        let mut idx: usize = out.len();
        let mut searching = true;
        while idx > 0 && searching
            invariant
                a.wf(),
                b.wf(),
                all_wf(out@),
                c.wf(),
                idx <= out@.len(),
                cpos == line_pos(*a, *b, c),
                forall|q: int|
                    idx <= q < out@.len() ==> line_pos(*a, *b, #[trigger] out@[q]) > line_pos(
                        *a,
                        *b,
                        c,
                    ),
                !searching ==> idx > 0 && line_pos(*a, *b, out@[idx - 1]) <= line_pos(*a, *b, c),
            decreases
                    idx + (if searching {
                        1int
                    } else {
                        0int
                    }),
        {
            let p = line_pos_exec(a, b, &out[idx - 1]);
            if p <= cpos {
                searching = false;
            } else {
                idx = idx - 1;
            }
        }
        let ghost out0 = out@;
        out.insert(idx, c);
        proof {
            out0.insert_ensures(idx as int, c);
            lemma_insert_sorted_at(*a, *b, out0, c, idx as int);
            assert(out@ =~= out0.take(idx as int) + seq![c] + out0.skip(idx as int));
            assert(out@ == insert_sorted(*a, *b, out0, c));
            assert(v@.take(i + 1).drop_last() =~= v@.take(i as int));
            assert(v@.take(i + 1).last() == v@[i as int]);
            vstd::seq_lib::to_multiset_insert(out0, idx as int, c);
            assert(out@.to_multiset() == out0.to_multiset().insert(c)) by {
                assert(out@ == out0.insert(idx as int, c));
            }
            assert(v@.take(i + 1).to_multiset() == v@.take(i as int).to_multiset().insert(c)) by {
                assert(v@.take(i + 1) =~= v@.take(i as int).push(c));
                vstd::seq_lib::to_multiset_build(v@.take(i as int), c);
            }
            assert forall|s1: int, s2: int| 0 <= s1 <= s2 < out@.len() implies line_pos(
                *a,
                *b,
                out@[s1],
            ) <= line_pos(*a, *b, out@[s2]) by {
                if s1 < idx && s2 > idx {
                    assert(out@[s1] == out0[s1]);
                    assert(out@[s2] == out0[s2 - 1]);
                }
            }
            if sorted_along(*a, *b, v@) {
                assert(idx == out0.len()) by {
                    if idx < out0.len() {
                        assert(out0[out0.len() - 1] == v@[i - 1]);
                        assert(line_pos(*a, *b, out0[out0.len() - 1]) > line_pos(*a, *b, c));
                        assert(line_pos(*a, *b, v@[i - 1 as int]) <= line_pos(*a, *b, v@[i as int]));
                    }
                }
                assert(out@ =~= v@.take(i + 1)) by {
                    assert(out@ =~= out0.push(c));
                }
            }
        }
        i = i + 1;
    }
    proof {
        assert(v@.take(v@.len() as int) =~= v@);
    }
    out
}

/// Every coordinate the node index holds is within limits.
pub open spec fn node_map_wf(m: Map<u64, Coord>) -> bool {
    forall|k: u64| m.contains_key(k) ==> (#[trigger] m[k]).wf()
}

/// The first node id, in entry order (from-node before to-node), that some
/// segment references but the index does not hold.
pub open spec fn first_unresolved(s: Seq<(Segment, Vec<Coord>)>, m: Map<u64, Coord>) -> Option<u64>
    decreases s.len(),
{
    if s.len() == 0 {
        None
    } else if !m.contains_key(s[0].0.0) {
        Some(s[0].0.0)
    } else if !m.contains_key(s[0].0.1) {
        Some(s[0].0.1)
    } else {
        first_unresolved(s.drop_first(), m)
    }
}

impl SegmentMatches {
    /// Order every segment's locations along that segment's own reference
    /// line, whose endpoints are the segment's node coordinates looked up in
    /// the index. A node id absent from the index is a data inconsistency
    /// that makes the geometry meaningless: the whole pass is abandoned, the
    /// mapping is left untouched, and the unresolvable node id is returned.
    /// Each list becomes exactly its stable sort, so equal-position locations
    /// keep their order and re-running on an already-sorted mapping leaves it
    /// identical.
    pub fn sort(&mut self, map_nodes: &HashMap<u64, Coord>) -> (r: Result<(), u64>)
        requires
            old(self).wf(),
            old(self).coords_wf(),
            node_map_wf(map_nodes@),
        ensures
            match r {
                Ok(_) => {
                    &&& first_unresolved(old(self).0@, map_nodes@) is None
                    &&& final(self).wf()
                    &&& final(self).coords_wf()
                    &&& final(self).0@.len() == old(self).0@.len()
                    &&& forall|i: int|
                        0 <= i < final(self).0@.len() ==> (#[trigger] final(self).0@[i]).0
                            == old(self).0@[i].0
                    &&& forall|i: int|
                        0 <= i < final(self).0@.len() ==> (#[trigger] final(self).0@[i]).1@.to_multiset()
                            == old(self).0@[i].1@.to_multiset()
                    &&& forall|i: int|
                        0 <= i < final(self).0@.len() ==> {
                            let k = (#[trigger] final(self).0@[i]).0;
                            &&& map_nodes@.contains_key(k.0)
                            &&& map_nodes@.contains_key(k.1)
                            &&& sorted_along(
                                map_nodes@[k.0],
                                map_nodes@[k.1],
                                final(self).0@[i].1@,
                            )
                        }
                    &&& forall|i: int|
                        0 <= i < final(self).0@.len() ==> {
                            let k = (#[trigger] old(self).0@[i]).0;
                            final(self).0@[i].1@ == stable_sort_by_pos(
                                map_nodes@[k.0],
                                map_nodes@[k.1],
                                old(self).0@[i].1@,
                            )
                        }
                    &&& forall|i: int|
                        0 <= i < final(self).0@.len() ==> {
                            let k = (#[trigger] old(self).0@[i]).0;
                            sorted_along(map_nodes@[k.0], map_nodes@[k.1], old(self).0@[i].1@)
                                ==> final(self).0@[i].1@ == old(self).0@[i].1@
                        }
                },
                Err(n) => {
                    &&& *final(self) == *old(self)
                    &&& first_unresolved(old(self).0@, map_nodes@) == Some(n)
                },
            },
    {
        let ghost s0 = self.0@;

        // resolve every segment's endpoints first, so that an unresolvable
        // node id leaves the mapping untouched
        let mut eps: Vec<(Coord, Coord)> = Vec::new();
        let mut i: usize = 0;
        proof {
            assert(s0.skip(0) =~= s0);
        }
        while i < self.0.len()
            invariant
                self.0@ == s0,
                i <= s0.len(),
                eps@.len() == i as int,
                node_map_wf(map_nodes@),
                first_unresolved(s0, map_nodes@) == first_unresolved(
                    s0.skip(i as int),
                    map_nodes@,
                ),
                forall|p: int|
                    0 <= p < i ==> {
                        let k = (#[trigger] s0[p]).0;
                        &&& map_nodes@.contains_key(k.0)
                        &&& map_nodes@.contains_key(k.1)
                        &&& eps@[p] == (map_nodes@[k.0], map_nodes@[k.1])
                    },
            decreases s0.len() - i,
        {
            proof {
                assert(s0.skip(i as int)[0] == s0[i as int]);
            }
            let k0 = self.0[i].0.0;
            let k1 = self.0[i].0.1;
            let a = match map_nodes.get(&k0) {
                Some(c) => *c,
                None => {
                    return Err(k0);
                },
            };
            let b = match map_nodes.get(&k1) {
                Some(c) => *c,
                None => {
                    return Err(k1);
                },
            };
            eps.push((a, b));
            proof {
                assert(s0.skip(i as int).drop_first() =~= s0.skip(i as int + 1));
            }
            i = i + 1;
        }

        // every endpoint resolved: sort each segment's locations in place
        let mut work: Vec<(Segment, Vec<Coord>)> = Vec::new();
        core::mem::swap(&mut work, &mut self.0);
        let mut j: usize = 0;
        while work.len() > 0
            invariant
                j as int + work@.len() == s0.len(),
                s0.len() <= usize::MAX,
                work@ == s0.skip(j as int),
                eps@.len() == s0.len(),
                node_map_wf(map_nodes@),
                keys_distinct(s0),
                forall|p: int, q: int|
                    0 <= p < s0.len() && 0 <= q < (#[trigger] s0[p]).1@.len()
                        ==> (#[trigger] s0[p].1@[q]).wf(),
                forall|p: int|
                    0 <= p < s0.len() ==> {
                        let k = (#[trigger] s0[p]).0;
                        &&& map_nodes@.contains_key(k.0)
                        &&& map_nodes@.contains_key(k.1)
                        &&& eps@[p] == (map_nodes@[k.0], map_nodes@[k.1])
                    },
                self.0@.len() == j as int,
                forall|p: int| 0 <= p < j ==> (#[trigger] self.0@[p]).0 == s0[p].0,
                forall|p: int|
                    0 <= p < j ==> (#[trigger] self.0@[p]).1@.to_multiset()
                        == s0[p].1@.to_multiset(),
                forall|p: int|
                    0 <= p < j ==> {
                        let k = (#[trigger] self.0@[p]).0;
                        sorted_along(map_nodes@[k.0], map_nodes@[k.1], self.0@[p].1@)
                    },
                forall|p: int|
                    0 <= p < j ==> {
                        let k = (#[trigger] s0[p]).0;
                        self.0@[p].1@ == stable_sort_by_pos(
                            map_nodes@[k.0],
                            map_nodes@[k.1],
                            s0[p].1@,
                        )
                    },
                forall|p: int|
                    0 <= p < j ==> {
                        let k = (#[trigger] s0[p]).0;
                        sorted_along(map_nodes@[k.0], map_nodes@[k.1], s0[p].1@)
                            ==> self.0@[p].1@ == s0[p].1@
                    },
                forall|p: int, q: int|
                    0 <= p < j && 0 <= q < (#[trigger] self.0@[p]).1@.len()
                        ==> (#[trigger] self.0@[p].1@[q]).wf(),
            decreases work@.len(),
        {
            proof {
                assert(work@[0] == s0[j as int]);
            }
            let (k, lst) = work.remove(0);
            let ab = eps[j];
            proof {
                assert(all_wf(lst@)) by {
                    assert forall|q: int| 0 <= q < lst@.len() implies (#[trigger] lst@[q]).wf() by {
                        assert(s0[j as int].1@[q] == lst@[q]);
                    }
                }
            }
            let sorted_list = sort_coords(&ab.0, &ab.1, lst);
            self.0.push((k, sorted_list));
            proof {
                assert(s0.skip(j as int).drop_first() =~= s0.skip(j as int + 1));
            }
            j = j + 1;
        }
        proof {
            assert(s0.skip(s0.len() as int) =~= Seq::<(Segment, Vec<Coord>)>::empty());
        }
        Ok(())
    }
}

impl SegmentMatches {
    /// Sort every segment's locations along its reference line, then keep
    /// exactly the segments whose consecutive ordered locations never lie
    /// further apart than the threshold (a gap of exactly the threshold still
    /// counts as covered); segments with fewer than two locations are
    /// vacuously covered. An unresolvable node id aborts the whole pass,
    /// leaving the mapping untouched and returning that id: no partial result
    /// is produced.
    pub fn get_complete_segments(&mut self, map_nodes: &HashMap<u64, Coord>, threshold: i64) -> (r:
        Result<Vec<Segment>, u64>)
        requires
            old(self).wf(),
            old(self).coords_wf(),
            node_map_wf(map_nodes@),
            threshold >= 0,
        ensures
            match r {
                Ok(segs) => {
                    &&& first_unresolved(old(self).0@, map_nodes@) is None
                    &&& final(self).wf()
                    &&& final(self).coords_wf()
                    &&& final(self).0@.len() == old(self).0@.len()
                    &&& forall|i: int|
                        0 <= i < final(self).0@.len() ==> (#[trigger] final(self).0@[i]).0
                            == old(self).0@[i].0
                    &&& forall|i: int|
                        0 <= i < final(self).0@.len()
                            ==> (#[trigger] final(self).0@[i]).1@.to_multiset()
                            == old(self).0@[i].1@.to_multiset()
                    &&& forall|i: int|
                        0 <= i < final(self).0@.len() ==> {
                            let k = (#[trigger] final(self).0@[i]).0;
                            &&& map_nodes@.contains_key(k.0)
                            &&& map_nodes@.contains_key(k.1)
                            &&& sorted_along(
                                map_nodes@[k.0],
                                map_nodes@[k.1],
                                final(self).0@[i].1@,
                            )
                        }
                    &&& forall|i: int|
                        0 <= i < final(self).0@.len() ==> {
                            let k = (#[trigger] old(self).0@[i]).0;
                            final(self).0@[i].1@ == stable_sort_by_pos(
                                map_nodes@[k.0],
                                map_nodes@[k.1],
                                old(self).0@[i].1@,
                            )
                        }
                    &&& forall|k: Segment|
                        #[trigger] segs@.contains(k) <==> (final(self).as_map().contains_key(k)
                            && covered(final(self).as_map()[k], threshold as int))
                    &&& forall|i: int|
                        0 <= i < final(self).0@.len() ==> (segs@.contains(
                            (#[trigger] final(self).0@[i]).0,
                        ) <==> covered(final(self).0@[i].1@, threshold as int))
                    &&& segs@.no_duplicates()
                },
                Err(n) => {
                    &&& *final(self) == *old(self)
                    &&& first_unresolved(old(self).0@, map_nodes@) == Some(n)
                },
            },
    {
        match self.sort(map_nodes) {
            Ok(_) => {},
            Err(n) => {
                return Err(n);
            },
        }
        let ghost s1 = self.0@;
        proof {
            assert((threshold as int) * (threshold as int)
                < 0x8000_0000_0000_0000_0000_0000_0000_0000) by (nonlinear_arith)
                requires
                    0 <= threshold <= 0x7fff_ffff_ffff_ffff,
            ;
        }
        let t2: i128 = (threshold as i128) * (threshold as i128);
        let mut result: Vec<Segment> = Vec::new();
        let mut i: usize = 0;
        while i < self.0.len()
            invariant
                self.0@ == s1,
                keys_distinct(s1),
                forall|p: int, q: int|
                    0 <= p < s1.len() && 0 <= q < (#[trigger] s1[p]).1@.len()
                        ==> (#[trigger] s1[p].1@[q]).wf(),
                i <= s1.len(),
                threshold >= 0,
                t2 == threshold * threshold,
                forall|k: Segment|
                    #[trigger] result@.contains(k) <==> exists|p: int|
                        0 <= p < i && (#[trigger] s1[p]).0 == k && covered(
                            s1[p].1@,
                            threshold as int,
                        ),
                result@.no_duplicates(),
            decreases s1.len() - i,
        {
            let lst = &self.0[i].1;
            let n_obs = lst.len();
            let mut ok = true;
            if n_obs >= 1 {
                let mut q: usize = 0;
                while q < n_obs - 1
                    invariant
                        n_obs == lst@.len(),
                        n_obs >= 1,
                        q <= n_obs - 1,
                        all_wf(lst@),
                        t2 == threshold * threshold,
                        ok <==> forall|g: int|
                            0 <= g < q ==> #[trigger] dist_sq(lst@[g], lst@[g + 1]) <= threshold
                                * threshold,
                    decreases n_obs - q,
                {
                    let d = dist_sq_exec(&lst[q], &lst[q + 1]);
                    if d > t2 {
                        ok = false;
                    }
                    q = q + 1;
                }
            }
            proof {
                assert(ok <==> covered(s1[i as int].1@, threshold as int));
            }
            if ok {
                let k = self.0[i].0;
                proof {
                    if result@.contains(k) {
                        let p = choose|p: int|
                            0 <= p < i && (#[trigger] s1[p]).0 == k && covered(
                                s1[p].1@,
                                threshold as int,
                            );
                        assert(s1[p].0 == s1[i as int].0);
                        assert(false);
                    }
                }
                let ghost r0 = result@;
                result.push(k);
                proof {
                    assert forall|kk: Segment| #[trigger] result@.contains(kk) implies exists|p: int|
                        0 <= p < i + 1 && (#[trigger] s1[p]).0 == kk && covered(
                            s1[p].1@,
                            threshold as int,
                        ) by {
                        let w = choose|w: int| 0 <= w < result@.len() && result@[w] == kk;
                        if w < r0.len() {
                            assert(r0[w] == kk);
                            assert(r0.contains(kk));
                        } else {
                            assert(s1[i as int].0 == kk);
                        }
                    }
                    assert forall|kk: Segment|
                        (exists|p: int|
                            0 <= p < i + 1 && (#[trigger] s1[p]).0 == kk && covered(
                                s1[p].1@,
                                threshold as int,
                            )) implies #[trigger] result@.contains(kk) by {
                        let p = choose|p: int|
                            0 <= p < i + 1 && (#[trigger] s1[p]).0 == kk && covered(
                                s1[p].1@,
                                threshold as int,
                            );
                        if p < i {
                            assert(r0.contains(kk));
                            let w = choose|w: int| 0 <= w < r0.len() && r0[w] == kk;
                            assert(result@[w] == kk);
                        } else {
                            assert(result@[r0.len() as int] == kk);
                        }
                    }
                }
            } else {
                proof {
                    assert forall|kk: Segment|
                        (exists|p: int|
                            0 <= p < i + 1 && (#[trigger] s1[p]).0 == kk && covered(
                                s1[p].1@,
                                threshold as int,
                            )) implies #[trigger] result@.contains(kk) by {
                        let p = choose|p: int|
                            0 <= p < i + 1 && (#[trigger] s1[p]).0 == kk && covered(
                                s1[p].1@,
                                threshold as int,
                            );
                        assert(p < i);
                    }
                }
            }
            i = i + 1;
        }
        proof {
            assert forall|k: Segment|
                #[trigger] result@.contains(k) <==> (entries_map(s1).contains_key(k) && covered(
                    entries_map(s1)[k],
                    threshold as int,
                )) by {
                lemma_entries_map_contains(s1, k);
                if result@.contains(k) {
                    let p = choose|p: int|
                        0 <= p < s1.len() && (#[trigger] s1[p]).0 == k && covered(
                            s1[p].1@,
                            threshold as int,
                        );
                    lemma_entries_map_index(s1, p);
                }
                if entries_map(s1).contains_key(k) {
                    let p = choose|p: int| 0 <= p < s1.len() && (#[trigger] s1[p]).0 == k;
                    lemma_entries_map_index(s1, p);
                    if covered(entries_map(s1)[k], threshold as int) {
                        assert(exists|q: int|
                            0 <= q < s1.len() && (#[trigger] s1[q]).0 == k && covered(
                                s1[q].1@,
                                threshold as int,
                            ));
                    }
                }
            }
            assert forall|i2: int| 0 <= i2 < s1.len() implies (result@.contains(
                (#[trigger] s1[i2]).0,
            ) <==> covered(s1[i2].1@, threshold as int)) by {
                if result@.contains(s1[i2].0) {
                    let p = choose|p: int|
                        0 <= p < s1.len() && (#[trigger] s1[p]).0 == s1[i2].0 && covered(
                            s1[p].1@,
                            threshold as int,
                        );
                    assert(p == i2);
                }
                if covered(s1[i2].1@, threshold as int) {
                    assert(exists|q: int|
                        0 <= q < s1.len() && (#[trigger] s1[q]).0 == s1[i2].0 && covered(
                            s1[q].1@,
                            threshold as int,
                        ));
                }
            }
        }
        Ok(result)
    }
}

/// The first node id, in list order (from-node before to-node), that a
/// segment list references but the index does not hold.
pub open spec fn first_missing_node(segs: Seq<Segment>, m: Map<u64, Coord>) -> Option<u64>
    decreases segs.len(),
{
    if segs.len() == 0 {
        None
    } else if !m.contains_key(segs[0].0) {
        Some(segs[0].0)
    } else if !m.contains_key(segs[0].1) {
        Some(segs[0].1)
    } else {
        first_missing_node(segs.drop_first(), m)
    }
}

/// Map each segment back to its endpoint coordinates: a two-point line, from
/// the from-node's coordinate to the to-node's, ready for rendering. A node
/// id the index does not hold aborts the whole projection and is returned.
pub fn project_segments(segments: &Vec<Segment>, map_nodes: &HashMap<u64, Coord>) -> (r: Result<
    Vec<(Coord, Coord)>,
    u64,
>)
    ensures
        match r {
            Ok(lines) => {
                &&& first_missing_node(segments@, map_nodes@) is None
                &&& lines@.len() == segments@.len()
                &&& forall|i: int|
                    0 <= i < segments@.len() ==> {
                        let k = #[trigger] segments@[i];
                        &&& map_nodes@.contains_key(k.0)
                        &&& map_nodes@.contains_key(k.1)
                        &&& lines@[i] == (map_nodes@[k.0], map_nodes@[k.1])
                    }
            },
            Err(n) => first_missing_node(segments@, map_nodes@) == Some(n),
        },
{
    let mut lines: Vec<(Coord, Coord)> = Vec::new();
    let mut i: usize = 0;
    proof {
        assert(segments@.skip(0) =~= segments@);
    }
    while i < segments.len()
        invariant
            i <= segments@.len(),
            lines@.len() == i as int,
            first_missing_node(segments@, map_nodes@) == first_missing_node(
                segments@.skip(i as int),
                map_nodes@,
            ),
            forall|p: int|
                0 <= p < i ==> {
                    let k = #[trigger] segments@[p];
                    &&& map_nodes@.contains_key(k.0)
                    &&& map_nodes@.contains_key(k.1)
                    &&& lines@[p] == (map_nodes@[k.0], map_nodes@[k.1])
                },
        decreases segments@.len() - i,
    {
        proof {
            assert(segments@.skip(i as int)[0] == segments@[i as int]);
        }
        let k = segments[i];
        let a = match map_nodes.get(&k.0) {
            Some(c) => *c,
            None => {
                return Err(k.0);
            },
        };
        let b = match map_nodes.get(&k.1) {
            Some(c) => *c,
            None => {
                return Err(k.1);
            },
        };
        lines.push((a, b));
        proof {
            assert(segments@.skip(i as int).drop_first() =~= segments@.skip(i as int + 1));
        }
        i = i + 1;
    }
    proof {
        assert(segments@.skip(segments@.len() as int) =~= Seq::<Segment>::empty());
    }
    Ok(lines)
}

impl OsrmResponse {
    /// Build the segment-observations mapping: every present tracepoint that
    /// names a matching and leg within bounds contributes its snapped location
    /// to every adjacent node pair of that leg's path; out-of-range references
    /// are discarded.
    pub fn get_segment_matches(&self) -> (r: SegmentMatches)
        ensures
            r.wf(),
            r.as_map() == segment_observations(*self),
            self.wf() ==> r.coords_wf(),
    {
        let mut sm = SegmentMatches(Vec::new());
        let mut ti: usize = 0;
        while ti < self.tracepoints.len()
            invariant
                ti <= self.tracepoints@.len(),
                sm.wf(),
                sm.as_map() == aggregate_prefix(*self, ti as int),
                self.wf() ==> sm.coords_wf(),
            decreases self.tracepoints@.len() - ti,
        {
            match &self.tracepoints[ti] {
                Some(t) => {
                    if t.matchings_index < self.matchings.len() {
                        let m = &self.matchings[t.matchings_index];
                        if t.waypoint_index < m.legs.len() {
                            let nodes = &m.legs[t.waypoint_index].annotation.nodes;
                            let ghost base = aggregate_prefix(*self, ti as int);
                            let n = nodes.len();
                            if n >= 1 {
                                let mut j: usize = 0;
                                while j < n - 1
                                    invariant
                                        j <= n - 1,
                                        n == nodes@.len(),
                                        n >= 1,
                                        sm.wf(),
                                        sm.as_map() == apply_leg_prefix(
                                            base,
                                            nodes@,
                                            t.location,
                                            j as int,
                                        ),
                                        self.wf() ==> sm.coords_wf(),
                                        self.wf() ==> t.location.wf(),
                                    decreases nodes@.len() - j,
                                {
                                    sm.add_observation((nodes[j], nodes[j + 1]), t.location);
                                    j = j + 1;
                                }
                            }
                            proof {
                                assert(sm.as_map() == apply_leg(base, nodes@, t.location));
                            }
                        }
                    }
                },
                None => {},
            }
            ti = ti + 1;
        }
        sm
    }
}

/// Appending an observation elsewhere never removes a key or an attributed
/// location.
proof fn lemma_append_obs_preserves(
    m: Map<Segment, Seq<Coord>>,
    k: Segment,
    c: Coord,
    k0: Segment,
    x: Coord,
)
    requires
        m.contains_key(k0),
        m[k0].contains(x),
    ensures
        append_obs(m, k, c).contains_key(k0),
        append_obs(m, k, c)[k0].contains(x),
{
    if k0 == k {
        let s = m[k0];
        let p = choose|p: int| 0 <= p < s.len() && s[p] == x;
        assert(s.push(c)[p] == x);
    }
}

/// A leg application never removes a key or an attributed location.
proof fn lemma_apply_leg_prefix_preserves(
    m: Map<Segment, Seq<Coord>>,
    path: Seq<u64>,
    c: Coord,
    j: int,
    k0: Segment,
    x: Coord,
)
    requires
        m.contains_key(k0),
        m[k0].contains(x),
    ensures
        apply_leg_prefix(m, path, c, j).contains_key(k0),
        apply_leg_prefix(m, path, c, j)[k0].contains(x),
    decreases j,
{
    if j > 0 {
        lemma_apply_leg_prefix_preserves(m, path, c, j - 1, k0, x);
        lemma_append_obs_preserves(
            apply_leg_prefix(m, path, c, j - 1),
            (path[j - 1], path[j]),
            c,
            k0,
            x,
        );
    }
}

/// After a leg application, every window it walked holds the observation.
proof fn lemma_apply_leg_prefix_adds(
    m: Map<Segment, Seq<Coord>>,
    path: Seq<u64>,
    c: Coord,
    j: int,
    w: int,
)
    requires
        0 <= w < j,
    ensures
        apply_leg_prefix(m, path, c, j).contains_key((path[w], path[w + 1])),
        apply_leg_prefix(m, path, c, j)[(path[w], path[w + 1])].contains(c),
    decreases j,
{
    let prev = apply_leg_prefix(m, path, c, j - 1);
    let k = (path[j - 1], path[j]);
    if w == j - 1 {
        let s = if prev.contains_key(k) {
            prev[k]
        } else {
            Seq::<Coord>::empty()
        };
        assert(s.push(c)[s.len() as int] == c);
    } else {
        lemma_apply_leg_prefix_adds(m, path, c, j - 1, w);
        lemma_append_obs_preserves(prev, k, c, (path[w], path[w + 1]), c);
    }
}

/// Processing further tracepoints never removes a key or an attributed
/// location.
proof fn lemma_aggregate_prefix_preserves(
    resp: OsrmResponse,
    i1: int,
    i2: int,
    k0: Segment,
    x: Coord,
)
    requires
        0 <= i1 <= i2,
        aggregate_prefix(resp, i1).contains_key(k0),
        aggregate_prefix(resp, i1)[k0].contains(x),
    ensures
        aggregate_prefix(resp, i2).contains_key(k0),
        aggregate_prefix(resp, i2)[k0].contains(x),
    decreases i2 - i1,
{
    if i2 > i1 {
        lemma_aggregate_prefix_preserves(resp, i1, i2 - 1, k0, x);
        let prev = aggregate_prefix(resp, i2 - 1);
        match resp.tracepoints@[i2 - 1] {
            Some(t) => {
                if tracepoint_resolves(resp, t) {
                    lemma_apply_leg_prefix_preserves(
                        prev,
                        leg_path(resp, t),
                        t.location,
                        leg_path(resp, t).len() - 1,
                        k0,
                        x,
                    );
                }
            },
            None => {},
        }
    }
}

/// The adjacent node pairs of a leg's path, in path order: the segment keys
/// that leg contributes.
pub open spec fn window_seq(path: Seq<u64>) -> Seq<Segment> {
    if path.len() == 0 {
        Seq::empty()
    } else {
        Seq::new((path.len() - 1) as nat, |w: int| (path[w], path[w + 1]))
    }
}

/// A leg whose path holds `n` nodes contributes one segment key per adjacent
/// node pair: `n - 1` of them, each present in the aggregated mapping, and
/// each of their lists holds the snapped location of every tracepoint that
/// resolves to that leg. When the pairs are pairwise distinct they are
/// exactly `n - 1` distinct keys.
pub proof fn lemma_leg_contribution(resp: OsrmResponse, ti: int, t: Tracepoint)
    requires
        0 <= ti < resp.tracepoints@.len(),
        resp.tracepoints@[ti] == Some(t),
        tracepoint_resolves(resp, t),
    ensures
        leg_path(resp, t).len() >= 1 ==> window_seq(leg_path(resp, t)).len() == leg_path(
            resp,
            t,
        ).len() - 1,
        forall|w: int|
            0 <= w < window_seq(leg_path(resp, t)).len() ==> segment_observations(
                resp,
            ).contains_key(#[trigger] window_seq(leg_path(resp, t))[w]),
        forall|w: int|
            0 <= w < window_seq(leg_path(resp, t)).len() ==> segment_observations(
                resp,
            )[#[trigger] window_seq(leg_path(resp, t))[w]].contains(t.location),
        window_seq(leg_path(resp, t)).no_duplicates() ==> window_seq(
            leg_path(resp, t),
        ).to_set().len() == window_seq(leg_path(resp, t)).len(),
{
    let path = leg_path(resp, t);
    let n = resp.tracepoints@.len() as int;
    assert(aggregate_prefix(resp, ti + 1) == apply_leg(
        aggregate_prefix(resp, ti),
        path,
        t.location,
    ));
    assert forall|w: int| 0 <= w < window_seq(path).len() implies {
        &&& segment_observations(resp).contains_key(#[trigger] window_seq(path)[w])
        &&& segment_observations(resp)[window_seq(path)[w]].contains(t.location)
    } by {
        let k = window_seq(path)[w];
        assert(k == (path[w], path[w + 1]));
        lemma_apply_leg_prefix_adds(aggregate_prefix(resp, ti), path, t.location, path.len() - 1, w);
        lemma_aggregate_prefix_preserves(resp, ti + 1, n, k, t.location);
    }
    if window_seq(path).no_duplicates() {
        window_seq(path).unique_seq_to_set();
    }
}

/// A leg application adds no key beyond its own windows.
proof fn lemma_apply_leg_prefix_dom(
    m: Map<Segment, Seq<Coord>>,
    path: Seq<u64>,
    c: Coord,
    j: int,
    k: Segment,
)
    requires
        apply_leg_prefix(m, path, c, j).contains_key(k),
    ensures
        m.contains_key(k) || exists|w: int| 0 <= w < j && k == (#[trigger] path[w], path[w + 1]),
    decreases j,
{
    if j > 0 {
        if k == (path[j - 1], path[j]) {
            assert(0 <= j - 1 < j && k == (path[j - 1], path[j - 1 + 1]));
        } else {
            lemma_apply_leg_prefix_dom(m, path, c, j - 1, k);
        }
    }
}

/// Every key of the aggregated mapping comes from some present, resolving
/// tracepoint's leg: together with `lemma_leg_contribution`, the keys are
/// exactly the adjacent node pairs of the resolved legs' paths.
pub proof fn lemma_aggregate_keys_from_legs(resp: OsrmResponse, k: Segment)
    requires
        segment_observations(resp).contains_key(k),
    ensures
        exists|ti: int|
            0 <= ti < resp.tracepoints@.len() && ((#[trigger] resp.tracepoints@[ti]) matches Some(t)
                && tracepoint_resolves(resp, t) && window_seq(leg_path(resp, t)).contains(k)),
{
    lemma_aggregate_prefix_dom(resp, resp.tracepoints@.len() as int, k);
}

/// Every key of a prefix of the aggregation comes from a tracepoint of that
/// prefix.
proof fn lemma_aggregate_prefix_dom(resp: OsrmResponse, i: int, k: Segment)
    requires
        aggregate_prefix(resp, i).contains_key(k),
    ensures
        exists|ti: int|
            0 <= ti < i && ((#[trigger] resp.tracepoints@[ti]) matches Some(t)
                && tracepoint_resolves(resp, t) && window_seq(leg_path(resp, t)).contains(k)),
    decreases i,
{
    if i <= 0 {
        assert(!Map::<Segment, Seq<Coord>>::empty().contains_key(k));
    } else {
        let prev = aggregate_prefix(resp, i - 1);
        match resp.tracepoints@[i - 1] {
            Some(t) => {
                if tracepoint_resolves(resp, t) {
                    let path = leg_path(resp, t);
                    lemma_apply_leg_prefix_dom(prev, path, t.location, path.len() - 1, k);
                    if prev.contains_key(k) {
                        lemma_aggregate_prefix_dom(resp, i - 1, k);
                    } else {
                        let w = choose|w: int|
                            0 <= w < path.len() - 1 && k == (#[trigger] path[w], path[w + 1]);
                        assert(window_seq(path)[w] == k);
                        assert(window_seq(path).contains(k));
                        assert(resp.tracepoints@[i - 1] matches Some(t2)
                            && tracepoint_resolves(resp, t2) && window_seq(
                            leg_path(resp, t2),
                        ).contains(k));
                    }
                } else {
                    lemma_aggregate_prefix_dom(resp, i - 1, k);
                }
            },
            None => {
                lemma_aggregate_prefix_dom(resp, i - 1, k);
            },
        }
    }
}

} // verus!
