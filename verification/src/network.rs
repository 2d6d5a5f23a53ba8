//! The street network: a routable weighted graph built once from a
//! filtered set of ways, answering repeated shortest-path queries
//! between external node ids, with persistence to a byte blob.

use std::collections::HashMap;

use vstd::prelude::*;

use crate::elements::Node;
use crate::elements::OsmMap;
use crate::elements::NodeView;
use crate::elements::Way;
use crate::elements::WayView;
use crate::queries::views_of;
use crate::queries::QueryBuilder;
use crate::structure::distinct_ids;
use crate::structure::NodeMap;

verus! {

/// `r` is the integer square root of `n`.
pub open spec fn is_isqrt(n: int, r: int) -> bool {
    r >= 0 && r * r <= n < (r + 1) * (r + 1)
}

/// The integer square root: the largest `r` with `r * r <= n`.
pub open spec fn spec_isqrt(n: int) -> int {
    choose|r: int| is_isqrt(n, r)
}

proof fn lemma_isqrt_unique(n: int, r: int)
    requires
        is_isqrt(n, r),
    ensures
        spec_isqrt(n) == r,
{
    assert(exists|q: int| is_isqrt(n, q));
    let q = spec_isqrt(n);
    assert(is_isqrt(n, q));
    assert(q == r) by (nonlinear_arith)
        requires
            is_isqrt(n, q),
            is_isqrt(n, r),
    ;
}

/// Computes the integer square root by binary search.
fn isqrt(n: u128) -> (r: u128)
    ensures
        is_isqrt(n as int, r as int),
        r as int == spec_isqrt(n as int),
{
    let mut lo: u128 = 0;
    let mut hi: u128 = 0x1_0000_0000_0000_0000;
    proof {
        assert((0x1_0000_0000_0000_0000int * 0x1_0000_0000_0000_0000int) > u128::MAX as int)
            by (nonlinear_arith);
    }
    while lo + 1 < hi
        invariant
            lo < hi,
            hi <= 0x1_0000_0000_0000_0000,
            (lo as int) * (lo as int) <= n as int,
            (n as int) < (hi as int) * (hi as int),
        decreases hi - lo,
    {
        let mid: u128 = lo + (hi - lo) / 2;
        proof {
            assert(lo < mid < hi);
            assert((mid as int) * (mid as int) <= (0xFFFF_FFFF_FFFF_FFFFu128 as int)
                * (0xFFFF_FFFF_FFFF_FFFFu128 as int)) by (nonlinear_arith)
                requires
                    0 <= mid as int <= 0xFFFF_FFFF_FFFF_FFFFu128 as int,
            ;
            assert((0xFFFF_FFFF_FFFF_FFFFu128 as int) * (0xFFFF_FFFF_FFFF_FFFFu128 as int)
                <= u128::MAX as int) by (nonlinear_arith);
        }
        if mid * mid <= n {
            lo = mid;
        } else {
            hi = mid;
        }
    }
    proof {
        lemma_isqrt_unique(n as int, lo as int);
    }
    lo
}

/// The largest coordinate delta the weight formula distinguishes: a full
/// circle, 360 degrees, in ten-millionths of a degree. Larger deltas are
/// not geographically meaningful and are capped here so that squaring
/// never overflows.
pub open spec fn max_delta() -> int {
    3_600_000_000
}

/// The absolute coordinate difference, capped at a full circle.
pub open spec fn clamp_delta(a: i64, b: i64) -> int {
    let d = if a >= b {
        a - b
    } else {
        b - a
    };
    if d > max_delta() {
        max_delta()
    } else {
        d
    }
}

/// The weight of the edge between two coordinate points: the planar
/// distance of their fixed-point coordinates scaled to metres by the
/// metres-per-degree constant, truncated to an integer. Deterministic
/// by construction.
pub open spec fn spec_edge_weight(alat: i64, alon: i64, blat: i64, blon: i64) -> int {
    let dlat = clamp_delta(alat, blat);
    let dlon = clamp_delta(alon, blon);
    (spec_isqrt(dlat * dlat + dlon * dlon) * 111_120) / 10_000_000
}

/// The exclusive upper bound of every edge weight the builder derives;
/// decoded blobs are held to it too, so the primitive's internal weight
/// sums stay far from overflow.
pub open spec fn max_edge_weight() -> int {
    0x8000_0000
}

/// Computes the edge weight between two coordinate points.
pub fn edge_weight(alat: i64, alon: i64, blat: i64, blon: i64) -> (r: usize)
    ensures
        r as int == spec_edge_weight(alat, alon, blat, blon),
        r < max_edge_weight(),
{
    let da: i128 = alat as i128 - blat as i128;
    let dlon_s: i128 = alon as i128 - blon as i128;
    let ua0: u128 = if da >= 0 {
        da as u128
    } else {
        (-da) as u128
    };
    let uo0: u128 = if dlon_s >= 0 {
        dlon_s as u128
    } else {
        (-dlon_s) as u128
    };
    let ua: u128 = if ua0 > 3_600_000_000 {
        3_600_000_000
    } else {
        ua0
    };
    let uo: u128 = if uo0 > 3_600_000_000 {
        3_600_000_000
    } else {
        uo0
    };
    proof {
        assert(ua as int == clamp_delta(alat, blat));
        assert(uo as int == clamp_delta(alon, blon));
        assert((ua as int) * (ua as int) + (uo as int) * (uo as int) <= 3_600_000_000
            * 3_600_000_000 + 3_600_000_000 * 3_600_000_000) by (nonlinear_arith)
            requires
                0 <= ua as int <= 3_600_000_000,
                0 <= uo as int <= 3_600_000_000,
        ;
    }
    let d2: u128 = ua * ua + uo * uo;
    let root: u128 = isqrt(d2);
    proof {
        assert(root as int <= 5_091_168_825) by (nonlinear_arith)
            requires
                is_isqrt(d2 as int, root as int),
                d2 as int <= 2 * 3_600_000_000 * 3_600_000_000,
        ;
    }
    let w: u128 = (root * 111_120) / 10_000_000;
    proof {
        assert(w as int == spec_edge_weight(alat, alon, blat, blon));
        assert(w as int <= (5_091_168_825int * 111_120) / 10_000_000) by (nonlinear_arith)
            requires
                w as int == ((root as int) * 111_120) / 10_000_000,
                0 <= root as int <= 5_091_168_825,
        ;
        assert((5_091_168_825int * 111_120) / 10_000_000 < 0x8000_0000) by (nonlinear_arith);
    }
    w as usize
}

/// The first position of `id` among the node-ways entries.
pub open spec fn nw_key_index(nw: Seq<(i64, Seq<WayView>)>, id: i64) -> int {
    choose|k: int| 0 <= k < nw.len() && nw[k].0 == id
}

/// Whether `id` has a node-ways entry.
pub open spec fn nw_has(nw: Seq<(i64, Seq<WayView>)>, id: i64) -> bool {
    exists|k: int| 0 <= k < nw.len() && #[trigger] nw[k].0 == id
}

/// Appends way `w` to `id`'s entry, creating the entry at the end when
/// `id` has none.
pub open spec fn nw_add(nw: Seq<(i64, Seq<WayView>)>, id: i64, w: WayView) -> Seq<
    (i64, Seq<WayView>),
> {
    if nw_has(nw, id) {
        let k = nw_key_index(nw, id);
        nw.update(k, (id, nw[k].1.push(w)))
    } else {
        nw.push((id, seq![w]))
    }
}

/// Folds the node references of one way into the node-ways table: each
/// distinct id of the sequence once, at its first occurrence, so a way
/// is recorded at most once per node it touches.
pub open spec fn nw_add_nodes(
    nw: Seq<(i64, Seq<WayView>)>,
    w: WayView,
    nodes: Seq<i64>,
) -> Seq<(i64, Seq<WayView>)>
    decreases nodes.len(),
{
    if nodes.len() == 0 {
        nw
    } else if nodes.drop_last().contains(nodes.last()) {
        nw_add_nodes(nw, w, nodes.drop_last())
    } else {
        nw_add(nw_add_nodes(nw, w, nodes.drop_last()), nodes.last(), w)
    }
}

/// The node-ways table of a way list: which ways touch which node,
/// each way listed once per node it references, however many times the
/// node occurs in its sequence.
pub open spec fn nodeways_after(ways: Seq<WayView>) -> Seq<(i64, Seq<WayView>)>
    decreases ways.len(),
{
    if ways.len() == 0 {
        Seq::empty()
    } else {
        nw_add_nodes(nodeways_after(ways.drop_last()), ways.last(), ways.last().nodes)
    }
}

/// Associates each external node id with the ways that reference it.
/// A node referenced by more than one way is a street intersection.
pub(crate) struct WayIndex {
    pub(crate) entries: Vec<(i64, Vec<Way>)>,
    pub(crate) index: HashMap<i64, usize>,
}

impl WayIndex {
    /// The table as id/way-view pairs, in entry-creation order.
    pub open(crate) spec fn spec_entries(&self) -> Seq<(i64, Seq<WayView>)> {
        self.entries@.map_values(|p: (i64, Vec<Way>)| (p.0, views_of(p.1@)))
    }

    /// The index maps exactly the stored ids, each to its position.
    pub open(crate) spec fn wf(&self) -> bool {
        &&& forall|i: int|
            0 <= i < self.entries@.len() ==> {
                &&& self.index@.contains_key(#[trigger] self.entries@[i].0)
                &&& self.index@[self.entries@[i].0] == i
            }
        &&& forall|k: i64|
            #[trigger] self.index@.contains_key(k) ==> self.index@[k] < self.entries@.len()
                && self.entries@[self.index@[k] as int].0 == k
    }

    pub(crate) fn new() -> (r: WayIndex)
        ensures
            r.wf(),
            r.spec_entries() == Seq::<(i64, Seq<WayView>)>::empty(),
    {
        let r = WayIndex { entries: Vec::new(), index: HashMap::new() };
        proof {
            assert(r.spec_entries() =~= Seq::<(i64, Seq<WayView>)>::empty());
        }
        r
    }

    /// Appends `way` to `id`'s entry, creating the entry when `id` has
    /// none yet.
    pub(crate) fn add(&mut self, id: i64, way: &Way)
        requires
            old(self).wf(),
            old(self).spec_entries().len() < usize::MAX,
        ensures
            final(self).wf(),
            final(self).spec_entries() == nw_add(old(self).spec_entries(), id, way@),
    {
        broadcast use vstd::std_specs::hash::group_hash_axioms;

        let ghost nw0 = self.spec_entries();
        let found: Option<usize> = match self.index.get(&id) {
            Some(p) => Some(*p),
            None => None,
        };
        match found {
            Some(pos) => {
                proof {
                    assert(nw0[pos as int].0 == id);
                    assert(nw_has(nw0, id));
                    assert forall|i: int, j: int|
                        0 <= i < j < nw0.len() implies #[trigger] nw0[i].0 != #[trigger] nw0[j].0
                    by {
                        assert(self.index@[self.entries@[i].0] == i);
                        assert(self.index@[self.entries@[j].0] == j);
                    }
                    assert(nw_key_index(nw0, id) == pos as int);
                }
                let old_entry_id = self.entries[pos].0;
                let mut ways = crate::queries::dup_items(&self.entries[pos].1);
                ways.push(way.clone());
                let ghost wayscopy = ways;
                self.entries.set(pos, (id, ways));
                proof {
                    assert(views_of(wayscopy@) =~= nw0[pos as int].1.push(way@));
                    assert(self.spec_entries() =~= nw0.update(
                        pos as int,
                        (id, nw0[pos as int].1.push(way@)),
                    ));
                }
            },
            None => {
                proof {
                    if nw_has(nw0, id) {
                        let k = choose|k: int| 0 <= k < nw0.len() && nw0[k].0 == id;
                        assert(self.index@.contains_key(self.entries@[k].0));
                        assert(false);
                    }
                }
                let pos = self.entries.len();
                let mut ways: Vec<Way> = Vec::new();
                ways.push(way.clone());
                let ghost wayscopy = ways;
                self.entries.push((id, ways));
                self.index.insert(id, pos);
                proof {
                    assert(views_of(wayscopy@) =~= seq![way@]);
                    assert(self.spec_entries() =~= nw0.push((id, seq![way@])));
                }
            },
        }
    }

    /// Rebuilds a table from entries in creation order; fails iff a key
    /// repeats.
    pub(crate) fn from_entries(entries: Vec<(i64, Vec<Way>)>) -> (r: Option<WayIndex>)
        ensures
            (match r {
                Some(t) => t.wf() && t.spec_entries() == entries@.map_values(
                    |p: (i64, Vec<Way>)| (p.0, views_of(p.1@)),
                ) && distinct_ids(entries@.map_values(|p: (i64, Vec<Way>)| p.0)),
                None => !distinct_ids(entries@.map_values(|p: (i64, Vec<Way>)| p.0)),
            }),
    {
        broadcast use vstd::std_specs::hash::group_hash_axioms;

        let ghost keys = entries@.map_values(|p: (i64, Vec<Way>)| p.0);
        let mut index: HashMap<i64, usize> = HashMap::new();
        for n in 0..entries.len()
            invariant
                keys == entries@.map_values(|p: (i64, Vec<Way>)| p.0),
                forall|i: int|
                    0 <= i < n ==> {
                        &&& index@.contains_key(#[trigger] entries@[i].0)
                        &&& index@[entries@[i].0] == i
                    },
                forall|k: i64|
                    #[trigger] index@.contains_key(k) ==> index@[k] < n
                        && entries@[index@[k] as int].0 == k,
                distinct_ids(keys.take(n as int)),
        {
            let id = entries[n].0;
            match index.get(&id) {
                Some(_p) => {
                    proof {
                        let q = index@[id] as int;
                        assert(index@.contains_key(id));
                        assert(0 <= q < n && entries@[q].0 == id);
                        assert(keys[q] == keys[n as int]);
                    }
                    return None;
                },
                None => {
                    index.insert(id, n);
                    proof {
                        assert forall|i: int, j: int|
                            0 <= i < j < n as int + 1 implies #[trigger] keys.take(n as int + 1)[i]
                            != #[trigger] keys.take(n as int + 1)[j] by {
                            if j < n as int {
                                assert(keys.take(n as int)[i] != keys.take(n as int)[j]);
                            } else {
                                if keys[i] == keys[j] {
                                    assert(index@.contains_key(entries@[i].0));
                                }
                            }
                        }
                    }
                },
            }
        }
        proof {
            assert(keys.take(keys.len() as int) =~= keys);
        }
        Some(WayIndex { entries, index })
    }
}

/// One way's consecutive node-id pairs, in order; fewer than two nodes
/// make none.
pub open spec fn pairs_of_way(w: WayView) -> Seq<(i64, i64)> {
    if w.nodes.len() < 2 {
        Seq::empty()
    } else {
        Seq::new((w.nodes.len() - 1) as nat, |i: int| (w.nodes[i], w.nodes[i + 1]))
    }
}

/// The consecutive node-id pairs of a way list, way by way.
pub open spec fn pairs_of_ways(ways: Seq<WayView>) -> Seq<(i64, i64)>
    decreases ways.len(),
{
    if ways.len() == 0 {
        Seq::empty()
    } else {
        pairs_of_ways(ways.drop_last()) + pairs_of_way(ways.last())
    }
}

proof fn lemma_pairs_push(ways: Seq<WayView>, w: WayView)
    ensures
        pairs_of_ways(ways.push(w)) == pairs_of_ways(ways) + pairs_of_way(w),
{
    assert(ways.push(w).drop_last() =~= ways);
    assert(ways.push(w).last() == w);
}

/// Assigns `id` the next free index unless it has one.
pub open spec fn assign_id(ids: Seq<i64>, id: i64) -> Seq<i64> {
    if ids.contains(id) {
        ids
    } else {
        ids.push(id)
    }
}

/// The id-to-index assignment after processing `pairs` in order,
/// first-seen-wins.
pub open spec fn ids_after(pairs: Seq<(i64, i64)>) -> Seq<i64>
    decreases pairs.len(),
{
    if pairs.len() == 0 {
        Seq::empty()
    } else {
        assign_id(assign_id(ids_after(pairs.drop_last()), pairs.last().0), pairs.last().1)
    }
}

/// The index assigned to `id`.
pub open spec fn spec_index_of(ids: Seq<i64>, id: i64) -> int {
    choose|p: int| 0 <= p < ids.len() && ids[p] == id
}

proof fn lemma_index_of(ids: Seq<i64>, id: i64, p: int)
    requires
        distinct_ids(ids),
        0 <= p < ids.len(),
        ids[p] == id,
    ensures
        spec_index_of(ids, id) == p,
{
    let q = spec_index_of(ids, id);
    assert(0 <= q < ids.len() && ids[q] == id);
}

/// Whether both ids of every pair resolve to a node of the collection.
pub open spec fn all_pairs_resolve(pairs: Seq<(i64, i64)>, nodes: Seq<NodeView>) -> bool {
    forall|k: int|
        0 <= k < pairs.len() ==> {
            &&& crate::queries::find_by_id::<Node>(nodes, #[trigger] pairs[k].0) is Some
            &&& crate::queries::find_by_id::<Node>(nodes, pairs[k].1) is Some
        }
}

/// The accepted edge list after processing `pairs` in order: for each
/// resolvable pair, the indices of its ids and the weight of their
/// coordinates; self-loops and zero weights contribute nothing.
pub open spec fn edges_after(pairs: Seq<(i64, i64)>, nodes: Seq<NodeView>) -> Seq<
    (usize, usize, usize),
>
    decreases pairs.len(),
{
    if pairs.len() == 0 {
        Seq::empty()
    } else {
        let prev = edges_after(pairs.drop_last(), nodes);
        let u = pairs.last().0;
        let v = pairs.last().1;
        let ids = ids_after(pairs);
        match (crate::queries::find_by_id::<Node>(nodes, u), crate::queries::find_by_id::<
            Node,
        >(nodes, v)) {
            (Some(na), Some(nb)) => {
                let ia = spec_index_of(ids, u);
                let ib = spec_index_of(ids, v);
                let w = spec_edge_weight(na.lat, na.lon, nb.lat, nb.lon);
                if ia == ib || w == 0 {
                    prev
                } else {
                    prev.push((ia as usize, ib as usize, w as usize))
                }
            },
            _ => prev,
        }
    }
}

/// Each directed edge followed by its reverse, as the graph stores a
/// bidirectional insertion.
pub open spec fn bidir_expand(edges: Seq<(usize, usize, usize)>) -> Seq<(usize, usize, usize)>
    decreases edges.len(),
{
    if edges.len() == 0 {
        Seq::empty()
    } else {
        let e = edges.last();
        bidir_expand(edges.drop_last()).push((e.0, e.1, e.2)).push((e.1, e.0, e.2))
    }
}

/// One past the largest node index of an edge list; 0 when empty.
pub open spec fn nn_of(edges: Seq<(usize, usize, usize)>) -> usize
    decreases edges.len(),
{
    if edges.len() == 0 {
        0
    } else {
        let e = edges.last();
        let m = if e.0 > e.1 {
            e.0
        } else {
            e.1
        };
        if nn_of(edges.drop_last()) > m + 1 {
            nn_of(edges.drop_last())
        } else {
            (m + 1) as usize
        }
    }
}

/// Every endpoint of `edges` is below `bound`, no edge is a self-loop,
/// and every weight is positive and below the builder's weight bound.
pub open spec fn edges_ok(edges: Seq<(usize, usize, usize)>, bound: int) -> bool {
    forall|k: int|
        0 <= k < edges.len() ==> {
            &&& (#[trigger] edges[k]).0 != edges[k].1
            &&& 0 < edges[k].2 < max_edge_weight()
            &&& edges[k].0 < bound
            &&& edges[k].1 < bound
        }
}

/// A bound on the endpoints weakens to any larger one.
proof fn lemma_edges_ok_weaken(edges: Seq<(usize, usize, usize)>, b1: int, b2: int)
    requires
        edges_ok(edges, b1),
        b1 <= b2,
    ensures
        edges_ok(edges, b2),
{
}

proof fn lemma_nn_bound(edges: Seq<(usize, usize, usize)>, bound: int)
    requires
        edges_ok(edges, bound),
        0 <= bound <= usize::MAX,
    ensures
        nn_of(edges) <= bound,
    decreases edges.len(),
{
    if edges.len() > 0 {
        assert(edges_ok(edges.drop_last(), bound));
        lemma_nn_bound(edges.drop_last(), bound);
        assert(edges[edges.len() - 1].0 < bound);
    }
}

/// Feeds the accepted edges to a fresh graph, freezes it, and prepares
/// it for queries.
fn prepare_from_edges(edges: &Vec<(usize, usize, usize)>) -> (r: (
    fast_paths::InputGraph,
    fast_paths::FastGraph,
    usize,
))
    requires
        edges_ok(edges@, usize::MAX as int),
    ensures
        crate::fastpath::ig_frozen(r.0),
        crate::fastpath::ig_edges(r.0) == crate::fastpath::frozen_form(bidir_expand(edges@)),
        crate::fastpath::ig_num_nodes(r.0) == nn_of(edges@),
        crate::fastpath::fg_edges(r.1) == crate::fastpath::frozen_form(bidir_expand(edges@)),
        crate::fastpath::fg_num_nodes(r.1) == nn_of(edges@),
        r.2 == nn_of(edges@),
{
    let mut g = crate::fastpath::new_input_graph();
    let mut nn: usize = 0;
    proof {
        assert(bidir_expand(edges@.take(0)) =~= Seq::<(usize, usize, usize)>::empty());
        assert(crate::fastpath::ig_edges(g) =~= bidir_expand(edges@.take(0)));
    }
    for i in 0..edges.len()
        invariant
            edges_ok(edges@, usize::MAX as int),
            !crate::fastpath::ig_frozen(g),
            crate::fastpath::ig_edges(g) == bidir_expand(edges@.take(i as int)),
            crate::fastpath::ig_num_nodes(g) == nn_of(edges@.take(i as int)),
            nn == nn_of(edges@.take(i as int)),
    {
        let (u, v, w) = edges[i];
        crate::fastpath::add_edge_bidir(&mut g, u, v, w);
        let m: usize = if u > v {
            u
        } else {
            v
        };
        if m + 1 > nn {
            nn = m + 1;
        }
        proof {
            assert(edges@.take(i as int + 1).drop_last() =~= edges@.take(i as int));
            assert(edges@.take(i as int + 1).last() == edges@[i as int]);
        }
    }
    proof {
        assert(edges@.take(edges@.len() as int) =~= edges@);
    }
    crate::fastpath::freeze(&mut g);
    let fg = crate::fastpath::prepare(&g);
    (g, fg, nn)
}

proof fn lemma_pairs_append(a: Seq<WayView>, b: Seq<WayView>)
    ensures
        pairs_of_ways(a + b) == pairs_of_ways(a) + pairs_of_ways(b),
    decreases b.len(),
{
    if b.len() == 0 {
        assert(a + b =~= a);
        assert(pairs_of_ways(a) + pairs_of_ways(b) =~= pairs_of_ways(a));
    } else {
        assert((a + b).drop_last() =~= a + b.drop_last());
        assert((a + b).last() == b.last());
        lemma_pairs_append(a, b.drop_last());
        assert(pairs_of_ways(a) + pairs_of_ways(b.drop_last()) + pairs_of_way(b.last())
            =~= pairs_of_ways(a) + (pairs_of_ways(b.drop_last()) + pairs_of_way(b.last())));
        assert(b.drop_last().push(b.last()) =~= b);
        lemma_pairs_push(b.drop_last(), b.last());
    }
}

/// The total count of node references across a way list.
pub open spec fn total_refs(ways: Seq<WayView>) -> nat
    decreases ways.len(),
{
    if ways.len() == 0 {
        0
    } else {
        total_refs(ways.drop_last()) + ways.last().nodes.len()
    }
}

proof fn lemma_total_refs_take(ways: Seq<WayView>, n: int)
    requires
        0 <= n <= ways.len(),
    ensures
        total_refs(ways.take(n)) + pending_refs(ways, n) == total_refs(ways),
    decreases ways.len() - n,
{
    if n == ways.len() {
        assert(ways.take(n) =~= ways);
    } else {
        lemma_total_refs_take(ways, n + 1);
        assert(ways.take(n + 1).drop_last() =~= ways.take(n));
        assert(ways.take(n + 1).last() == ways[n]);
    }
}

/// The node references of the ways not yet processed.
pub open spec fn pending_refs(ways: Seq<WayView>, n: int) -> nat
    decreases ways.len() - n,
{
    if n < 0 || n >= ways.len() {
        0
    } else {
        ways[n].nodes.len() + pending_refs(ways, n + 1)
    }
}

proof fn lemma_pairs_len_le_refs(ways: Seq<WayView>)
    ensures
        pairs_of_ways(ways).len() <= total_refs(ways),
    decreases ways.len(),
{
    if ways.len() > 0 {
        lemma_pairs_len_le_refs(ways.drop_last());
    }
}

/// The ways selected for the street network: all of them when the type
/// list is empty, else those whose `highway` tag is one of the types.
pub open spec fn spec_selected(ways: Seq<WayView>, types: Seq<Seq<char>>) -> Seq<WayView> {
    if types.len() == 0 {
        ways
    } else {
        crate::queries::filtered_by::<Way>(
            ways,
            seq![crate::queries::FilterQueryView::ByTag("highway"@, types)],
        )
    }
}

/// The routable street network: a prepared weighted graph over dense
/// internal indices, the id/index mapping, the accepted edge list it
/// was prepared from, and the node-to-ways association.
///
/// Built once and then read-only; the graph is prepared eagerly at
/// build time, so queries need no further preprocessing.
pub struct StreetNetwork {
    pub(crate) inner: fast_paths::InputGraph,
    pub(crate) prepared: fast_paths::FastGraph,
    pub(crate) edges: Vec<(usize, usize, usize)>,
    pub(crate) graph_nodes: usize,
    pub(crate) node_idx: NodeMap,
    pub(crate) nodeways_idx: WayIndex,
}

impl StreetNetwork {
    /// The external ids in index order.
    pub open(crate) spec fn spec_ids(&self) -> Seq<i64> {
        self.node_idx.spec_ids()
    }

    /// The accepted edges `(index, index, weight)` in insertion order.
    pub open(crate) spec fn spec_edges(&self) -> Seq<(usize, usize, usize)> {
        self.edges@
    }

    /// The node-to-ways association, in entry-creation order.
    pub open(crate) spec fn spec_nodeways(&self) -> Seq<(i64, Seq<WayView>)> {
        self.nodeways_idx.spec_entries()
    }

    pub open(crate) spec fn wf(&self) -> bool {
        &&& self.node_idx.wf()
        &&& self.nodeways_idx.wf()
        &&& edges_ok(self.edges@, self.node_idx.spec_ids().len() as int)
        &&& self.graph_nodes == nn_of(self.edges@)
        &&& self.graph_nodes <= self.node_idx.spec_ids().len()
        &&& crate::fastpath::ig_frozen(self.inner)
        &&& crate::fastpath::ig_edges(self.inner) == crate::fastpath::frozen_form(
            bidir_expand(self.edges@),
        )
        &&& crate::fastpath::ig_num_nodes(self.inner) == self.graph_nodes
        &&& crate::fastpath::fg_edges(self.prepared) == crate::fastpath::frozen_form(
            bidir_expand(self.edges@),
        )
        &&& crate::fastpath::fg_num_nodes(self.prepared) == self.graph_nodes
    }

    /// Builds the network from the map's ways whose `highway` tag is one
    /// of `street_types` (all ways when the list is empty): every
    /// consecutive node pair of a selected way becomes a bidirectional
    /// edge between the dense indices of its ids, weighted by the nodes'
    /// coordinate distance, and every node a way references records
    /// that way once, however often it occurs in the way's sequence.
    /// A way referencing an unknown node id aborts the build.
    #[verifier::rlimit(100)]
    pub fn new(map: &OsmMap, street_types: Vec<&str>) -> (r: Result<StreetNetwork, crate::Error>)
        requires
            map.wf(),
            2 * total_refs(
                spec_selected(map.spec_ways(), street_types@.map_values(|s: &str| s@)),
            ) + 2 <= usize::MAX,
        ensures
            (match r {
                Ok(n) => {
                    let sel = spec_selected(
                        map.spec_ways(),
                        street_types@.map_values(|s: &str| s@),
                    );
                    let pairs = pairs_of_ways(sel);
                    &&& n.wf()
                    &&& all_pairs_resolve(pairs, map.spec_nodes())
                    &&& n.spec_ids() == ids_after(pairs)
                    &&& n.spec_edges() == edges_after(pairs, map.spec_nodes())
                    &&& n.spec_nodeways() == nodeways_after(sel)
                },
                Err(e) => {
                    &&& e == crate::Error::MalformedInput
                    &&& !all_pairs_resolve(
                        pairs_of_ways(
                            spec_selected(
                                map.spec_ways(),
                                street_types@.map_values(|s: &str| s@),
                            ),
                        ),
                        map.spec_nodes(),
                    )
                },
            }),
    {
        let ghost tviews = street_types@.map_values(|s: &str| s@);
        let ghost selviews = spec_selected(map.spec_ways(), tviews);
        let ghost nviews = map.spec_nodes();
        let ghost allpairs = pairs_of_ways(selviews);

        let selected: Vec<Way> = if street_types.len() > 0 {
            let q = map.ways().by_tag_in("highway", street_types);
            proof {
                assert(q.q_conditions() =~= seq![
                    crate::queries::FilterQueryView::ByTag("highway"@, tviews),
                ]);
            }
            q.get()
        } else {
            let q = map.ways();
            proof {
                crate::queries::lemma_filtered_by_no_conditions::<Way>(map.spec_ways());
                assert(q.q_conditions() =~= Seq::<crate::queries::FilterQueryView>::empty());
            }
            q.get()
        };
        proof {
            assert(crate::queries::views_of(selected@) == selviews);
            lemma_pairs_len_le_refs(selviews);
        }

        let qnodes = map.nodes();
        let mut node_idx = NodeMap::new();
        let mut nodeways = WayIndex::new();
        let mut edges: Vec<(usize, usize, usize)> = Vec::new();

        proof {
            assert(selviews.take(0) =~= Seq::<WayView>::empty());
            assert(Seq::<WayView>::empty() + selviews =~= selviews);
            lemma_pairs_append(Seq::<WayView>::empty(), selviews);
            lemma_total_refs_take(selviews, 0);
        }
        for wi in 0..selected.len()
            invariant
                crate::queries::views_of(selected@) == selviews,
                selviews.len() == selected@.len(),
                nviews == map.spec_nodes(),
                tviews == street_types@.map_values(|s: &str| s@),
                selviews == spec_selected(map.spec_ways(), tviews),
                allpairs == pairs_of_ways(selviews),
                2 * total_refs(selviews) + 2 <= usize::MAX,
                allpairs.len() <= total_refs(selviews),
                qnodes.q_wf(),
                qnodes.q_items() == nviews,
                node_idx.wf(),
                nodeways.wf(),
                node_idx.spec_ids() == ids_after(pairs_of_ways(selviews.take(wi as int))),
                edges@ == edges_after(pairs_of_ways(selviews.take(wi as int)), nviews),
                nodeways.spec_entries() == nodeways_after(selviews.take(wi as int)),
                all_pairs_resolve(pairs_of_ways(selviews.take(wi as int)), nviews),
                node_idx.spec_ids().len() <= 2 * pairs_of_ways(selviews.take(wi as int)).len(),
                pairs_of_ways(selviews.take(wi as int)).len() <= allpairs.len(),
                edges_ok(edges@, node_idx.spec_ids().len() as int),
                nodeways.spec_entries().len() <= total_refs(selviews.take(wi as int)),
                total_refs(selviews.take(wi as int)) <= total_refs(selviews),
        {
            let way = &selected[wi];
            let ghost base_pairs = pairs_of_ways(selviews.take(wi as int));
            let ghost wpairs = pairs_of_way(way@);
            let ghost nwbase = nodeways.spec_entries();
            proof {
                assert(way@ == selviews[wi as int]);
                assert(selviews.take(wi as int).push(way@) =~= selviews.take(wi as int + 1));
                lemma_pairs_push(selviews.take(wi as int), way@);
                assert(selviews.take(wi as int + 1) + selviews.skip(wi as int + 1) =~= selviews);
                lemma_pairs_append(selviews.take(wi as int + 1), selviews.skip(wi as int + 1));
                lemma_total_refs_take(selviews, wi as int);
                lemma_total_refs_take(selviews, wi as int + 1);
                assert(total_refs(selviews.take(wi as int + 1)) == total_refs(
                    selviews.take(wi as int),
                ) + way@.nodes.len());
            }
            match process_way(way, &qnodes, &mut node_idx, &mut nodeways, &mut edges, Ghost(base_pairs)) {
                Ok(()) => {},
                Err(e) => {
                    proof {
                        let bad = choose|k: int|
                            0 <= k < (base_pairs + wpairs).len() && !{
                                &&& crate::queries::find_by_id::<Node>(
                                    nviews,
                                    #[trigger] (base_pairs + wpairs)[k].0,
                                ) is Some
                                &&& crate::queries::find_by_id::<Node>(
                                    nviews,
                                    (base_pairs + wpairs)[k].1,
                                ) is Some
                            };
                        assert(allpairs[bad] == (base_pairs + wpairs)[bad]);
                        assert(!all_pairs_resolve(allpairs, nviews));
                    }
                    return Err(e);
                },
            }
            proof {
                assert(pairs_of_ways(selviews.take(wi as int + 1)) =~= base_pairs + wpairs);
                assert(selviews.take(wi as int + 1).drop_last() =~= selviews.take(wi as int));
                assert(selviews.take(wi as int + 1).last() == way@);
                assert(nodeways.spec_entries() == nodeways_after(selviews.take(wi as int + 1)));
            }
        }
        proof {
            assert(selviews.take(selviews.len() as int) =~= selviews);
        }
        proof {
            lemma_edges_ok_weaken(
                edges@,
                node_idx.spec_ids().len() as int,
                usize::MAX as int,
            );
        }
        let (g, fg, nn) = prepare_from_edges(&edges);
        proof {
            lemma_nn_bound(edges@, node_idx.spec_ids().len() as int);
        }
        Ok(
            StreetNetwork {
                inner: g,
                prepared: fg,
                edges,
                graph_nodes: nn,
                node_idx,
                nodeways_idx: nodeways,
            },
        )
    }
}

/// The ordered ids of the shortest path from `a` to `b`: empty when
/// either id has no index, has no edges, or no route exists.
pub open spec fn spec_shortest_path(
    ids: Seq<i64>,
    edges: Seq<(usize, usize, usize)>,
    nn: usize,
    a: i64,
    b: i64,
) -> Seq<i64> {
    if !ids.contains(a) || !ids.contains(b) {
        Seq::empty()
    } else {
        let ia = spec_index_of(ids, a);
        let ib = spec_index_of(ids, b);
        if ia >= nn || ib >= nn {
            Seq::empty()
        } else {
            match crate::fastpath::path_query(
                crate::fastpath::frozen_form(bidir_expand(edges)),
                nn,
                ia as usize,
                ib as usize,
            ) {
                Some(p) => p.map_values(|x: usize| ids[x as int]),
                None => Seq::empty(),
            }
        }
    }
}

/// The ids whose entries list two or more ways, in entry order.
pub open spec fn spec_intersections(nw: Seq<(i64, Seq<WayView>)>) -> Seq<i64> {
    nw.filter(|p: (i64, Seq<WayView>)| p.1.len() >= 2).map_values(|p: (i64, Seq<WayView>)| p.0)
}

impl StreetNetwork {
    /// The dense internal node count of the prepared graph.
    pub open(crate) spec fn spec_graph_nodes(&self) -> usize {
        self.graph_nodes
    }

    /// Answers a shortest-path query between two external node ids,
    /// returning the path as external ids in traversal order, or an
    /// empty sequence when the ids are unknown or no route exists.
    /// The prepared graph is reused; no preprocessing happens here.
    pub fn shortest_path(&self, a: i64, b: i64) -> (r: Vec<i64>)
        requires
            self.wf(),
        ensures
            r@ == spec_shortest_path(
                self.spec_ids(),
                self.spec_edges(),
                self.spec_graph_nodes(),
                a,
                b,
            ),
    {
        let ghost ids = self.spec_ids();
        let ia = match self.node_idx.get(a) {
            Some(i) => i,
            None => {
                proof {
                    assert(Seq::<i64>::empty() =~= spec_shortest_path(
                        ids,
                        self.spec_edges(),
                        self.spec_graph_nodes(),
                        a,
                        b,
                    ));
                }
                return Vec::new();
            },
        };
        let ib = match self.node_idx.get(b) {
            Some(i) => i,
            None => {
                proof {
                    assert(Seq::<i64>::empty() =~= spec_shortest_path(
                        ids,
                        self.spec_edges(),
                        self.spec_graph_nodes(),
                        a,
                        b,
                    ));
                }
                return Vec::new();
            },
        };
        proof {
            self.node_idx.lemma_wf_distinct();
            lemma_index_of(ids, a, ia as int);
            lemma_index_of(ids, b, ib as int);
        }
        if ia >= self.graph_nodes || ib >= self.graph_nodes {
            return Vec::new();
        }
        match crate::fastpath::calc_path_nodes(&self.prepared, ia, ib) {
            Some(p) => {
                match self.node_idx.translate(&p) {
                    Some(v) => {
                        proof {
                            assert(v@ =~= (crate::fastpath::path_query(
                                crate::fastpath::frozen_form(bidir_expand(self.spec_edges())),
                                self.spec_graph_nodes(),
                                ia,
                                ib,
                            )->Some_0).map_values(|x: usize| ids[x as int]));
                        }
                        v
                    },
                    None => {
                        proof {
                            assert(false);
                        }
                        Vec::new()
                    },
                }
            },
            None => Vec::new(),
        }
    }

    /// The external ids of the street intersections: nodes referenced
    /// by more than one way.
    pub fn intersections(&self) -> (r: Vec<i64>)
        requires
            self.wf(),
        ensures
            r@ == spec_intersections(self.spec_nodeways()),
    {
        let ghost nw = self.spec_nodeways();
        let mut out: Vec<i64> = Vec::new();
        proof {
            reveal_with_fuel(Seq::filter, 2);
            assert(nw.take(0) =~= Seq::<(i64, Seq<WayView>)>::empty());
            assert(out@ =~= spec_intersections(nw.take(0)));
        }
        for i in 0..self.nodeways_idx.entries.len()
            invariant
                nw == self.spec_nodeways(),
                nw.len() == self.nodeways_idx.entries@.len(),
                out@ == spec_intersections(nw.take(i as int)),
        {
            proof {
                reveal_with_fuel(Seq::filter, 2);
                assert(nw.take(i as int + 1).drop_last() =~= nw.take(i as int));
                assert(nw.take(i as int + 1).last() == nw[i as int]);
            }
            if self.nodeways_idx.entries[i].1.len() >= 2 {
                out.push(self.nodeways_idx.entries[i].0);
                proof {
                    assert(nw[i as int].1.len() >= 2);
                    assert(out@ =~= spec_intersections(nw.take(i as int + 1)));
                }
            } else {
                proof {
                    assert(!(nw[i as int].1.len() >= 2));
                    assert(out@ =~= spec_intersections(nw.take(i as int + 1)));
                }
            }
        }
        proof {
            assert(nw.take(nw.len() as int) =~= nw);
        }
        out
    }
}

impl WayIndex {
    pub proof fn lemma_wf_distinct_keys(&self)
        requires
            self.wf(),
        ensures
            distinct_ids(self.spec_entries().map_values(|p: (i64, Seq<WayView>)| p.0)),
    {
        let keys = self.spec_entries().map_values(|p: (i64, Seq<WayView>)| p.0);
        assert forall|i: int, j: int| 0 <= i < j < keys.len() implies keys[i] != keys[j] by {
            assert(self.index@[self.entries@[i].0] == i);
            assert(self.index@[self.entries@[j].0] == j);
        }
    }
}

impl StreetNetwork {
    /// Serializes the finalized network: the accepted edge list, the
    /// full id/index mapping in index order, and the node-to-ways
    /// table, behind a format version word.
    pub fn serialize(&self) -> (r: Vec<u8>)
        requires
            self.wf(),
        ensures
            r@ == crate::codec::spec_blob(self.spec_edges(), self.spec_ids(), self.spec_nodeways()),
    {
        let mut ws: Vec<u64> = Vec::new();
        ws.push(1u64);
        let ghost w0 = ws@;
        crate::codec::e_edges(&mut ws, &self.edges);
        crate::codec::e_i64s(&mut ws, &self.node_idx.ids);
        crate::codec::e_nodeways(&mut ws, &self.nodeways_idx.entries);
        proof {
            assert(w0 =~= seq![crate::codec::format_version()]);
            assert(ws@ =~= crate::codec::wo_model(
                self.spec_edges(),
                self.spec_ids(),
                self.spec_nodeways(),
            ));
        }
        crate::codec::words_to_bytes(&ws)
    }

    /// Restores a network from a serialized blob; a corrupt or
    /// truncated blob, a version mismatch, or inadmissible contents
    /// are reported, and the graph is prepared anew from the decoded
    /// edge list.
    pub fn deserialize(state: Vec<u8>) -> (r: Result<StreetNetwork, crate::Error>)
        ensures
            (match r {
                Ok(n) => {
                    &&& n.wf()
                    &&& crate::codec::spec_parse_network(state@) == Some(
                        (n.spec_edges(), n.spec_ids(), n.spec_nodeways()),
                    )
                },
                Err(e) => e == crate::Error::SerializationFailure
                    && crate::codec::spec_parse_network(state@) is None,
            }),
    {
        let decoded = match crate::codec::decode_network(&state) {
            Some(t) => t,
            None => {
                return Err(crate::Error::SerializationFailure);
            },
        };
        let (edges, ids, nw) = decoded;
        let ghost edgesv = edges@;
        let ghost idsv = ids@;
        let ghost nwv = nw@.map_values(|q: (i64, Vec<Way>)| (q.0, views_of(q.1@)));
        let node_idx = match NodeMap::from_ids(ids) {
            Some(m) => m,
            None => {
                return Err(crate::Error::SerializationFailure);
            },
        };
        let nodeways_idx = match WayIndex::from_entries(nw) {
            Some(t) => t,
            None => {
                proof {
                    assert(nwv.map_values(|p: (i64, Seq<WayView>)| p.0) =~= nw@.map_values(
                        |p: (i64, Vec<Way>)| p.0,
                    ));
                }
                return Err(crate::Error::SerializationFailure);
            },
        };
        proof {
            assert(nwv.map_values(|p: (i64, Seq<WayView>)| p.0) =~= nw@.map_values(
                |p: (i64, Vec<Way>)| p.0,
            ));
            assert(nodeways_idx.spec_entries() == nwv);
        }
        let idlen = node_idx.len();
        for i in 0..edges.len()
            invariant
                state@.len() % 8 == 0,
                crate::codec::p_model(crate::codec::words_of_bytes(state@)) == Some(
                    (edgesv, idsv, nwv),
                ),
                edgesv == edges@,
                idlen == idsv.len(),
                idlen == node_idx.spec_ids().len(),
                forall|k: int|
                    0 <= k < i ==> {
                        &&& (#[trigger] edges@[k]).0 != edges@[k].1
                        &&& 0 < edges@[k].2 < max_edge_weight()
                        &&& edges@[k].0 < idlen
                        &&& edges@[k].1 < idlen
                    },
        {
            let (u, v, w) = edges[i];
            if u == v || w == 0 || w >= 0x8000_0000 || u >= idlen || v >= idlen {
                proof {
                    assert(!edges_ok(edgesv, idsv.len() as int));
                }
                return Err(crate::Error::SerializationFailure);
            }
        }
        proof {
            assert(edges_ok(edgesv, idsv.len() as int));
            lemma_edges_ok_weaken(edgesv, idsv.len() as int, usize::MAX as int);
        }
        let (g, fg, nn) = prepare_from_edges(&edges);
        proof {
            lemma_nn_bound(edgesv, idsv.len() as int);
        }
        Ok(
            StreetNetwork {
                inner: g,
                prepared: fg,
                edges,
                graph_nodes: nn,
                node_idx,
                nodeways_idx,
            },
        )
    }
}

/// Serializing a well-formed network and parsing the blob back yields
/// the network's model exactly: the round-trip law of persistence.
/// (The encodability hypothesis holds of all data an executable
/// network can hold; it is stated because sequence views do not carry
/// it.)
pub proof fn lemma_serialize_parse_roundtrip(n: StreetNetwork)
    requires
        n.wf(),
        crate::codec::model_encodable(n.spec_edges(), n.spec_ids(), n.spec_nodeways()),
    ensures
        crate::codec::spec_parse_network(
            crate::codec::spec_blob(n.spec_edges(), n.spec_ids(), n.spec_nodeways()),
        ) == Some((n.spec_edges(), n.spec_ids(), n.spec_nodeways())),
{
    n.node_idx.lemma_wf_distinct();
    n.nodeways_idx.lemma_wf_distinct_keys();
    crate::codec::lemma_parse_blob(n.spec_edges(), n.spec_ids(), n.spec_nodeways());
}

/// Two networks with the same edge list and id assignment answer every
/// shortest-path query identically; in particular a deserialized
/// network answers exactly as the one it was serialized from.
pub proof fn lemma_equal_models_answer_alike(
    n1: StreetNetwork,
    n2: StreetNetwork,
    a: i64,
    b: i64,
)
    requires
        n1.wf(),
        n2.wf(),
        n1.spec_edges() == n2.spec_edges(),
        n1.spec_ids() == n2.spec_ids(),
    ensures
        spec_shortest_path(n1.spec_ids(), n1.spec_edges(), n1.spec_graph_nodes(), a, b)
            == spec_shortest_path(n2.spec_ids(), n2.spec_edges(), n2.spec_graph_nodes(), a, b),
{
}

/// Building twice from the same map and the same street-type filter
/// yields the same edge list, the same id assignment, and the same
/// node count: the network model is a function of its inputs.
pub proof fn lemma_build_idempotent(
    m: OsmMap,
    types: Seq<Seq<char>>,
    n1: StreetNetwork,
    n2: StreetNetwork,
)
    requires
        n1.wf(),
        n2.wf(),
        n1.spec_ids() == ids_after(pairs_of_ways(spec_selected(m.spec_ways(), types))),
        n1.spec_edges() == edges_after(
            pairs_of_ways(spec_selected(m.spec_ways(), types)),
            m.spec_nodes(),
        ),
        n2.spec_ids() == ids_after(pairs_of_ways(spec_selected(m.spec_ways(), types))),
        n2.spec_edges() == edges_after(
            pairs_of_ways(spec_selected(m.spec_ways(), types)),
            m.spec_nodes(),
        ),
    ensures
        n1.spec_edges() == n2.spec_edges(),
        n1.spec_ids() == n2.spec_ids(),
        n1.spec_graph_nodes() == n2.spec_graph_nodes(),
{
}

/// Whether `x` occurs among the first `upto` entries of `nodes`.
fn id_in_prefix(nodes: &Vec<i64>, upto: usize, x: i64) -> (r: bool)
    requires
        upto <= nodes@.len(),
    ensures
        r == nodes@.take(upto as int).contains(x),
{
    for i in 0..upto
        invariant
            upto <= nodes@.len(),
            forall|j: int| 0 <= j < i ==> nodes@[j] != x,
    {
        if nodes[i] == x {
            proof {
                assert(nodes@.take(upto as int)[i as int] == x);
            }
            return true;
        }
    }
    proof {
        if nodes@.take(upto as int).contains(x) {
            let j = choose|j: int|
                0 <= j < nodes@.take(upto as int).len() && nodes@.take(upto as int)[j] == x;
            assert(nodes@[j] == x);
        }
    }
    false
}

/// Folds one way into the growing network state: indices and edges for
/// its consecutive pairs, and a node-ways record for each distinct
/// node id the way references.
#[verifier::rlimit(100)]
fn process_way(
    way: &Way,
    qnodes: &crate::queries::Builder<Node>,
    node_idx: &mut NodeMap,
    nodeways: &mut WayIndex,
    edges: &mut Vec<(usize, usize, usize)>,
    Ghost(base_pairs): Ghost<Seq<(i64, i64)>>,
) -> (r: Result<(), crate::Error>)
    requires
        qnodes.q_wf(),
        old(node_idx).wf(),
        old(nodeways).wf(),
        old(node_idx).spec_ids() == ids_after(base_pairs),
        old(edges)@ == edges_after(base_pairs, qnodes.q_items()),
        all_pairs_resolve(base_pairs, qnodes.q_items()),
        old(node_idx).spec_ids().len() <= 2 * base_pairs.len(),
        2 * (base_pairs.len() + pairs_of_way(way@).len()) + 2 <= usize::MAX,
        edges_ok(old(edges)@, old(node_idx).spec_ids().len() as int),
        old(nodeways).spec_entries().len() + way@.nodes.len() < usize::MAX,
    ensures
        (match r {
            Ok(()) => {
                let done = base_pairs + pairs_of_way(way@);
                &&& final(node_idx).wf()
                &&& final(nodeways).wf()
                &&& final(node_idx).spec_ids() == ids_after(done)
                &&& final(edges)@ == edges_after(done, qnodes.q_items())
                &&& final(nodeways).spec_entries() == nw_add_nodes(
                    old(nodeways).spec_entries(),
                    way@,
                    way@.nodes,
                )
                &&& all_pairs_resolve(done, qnodes.q_items())
                &&& final(node_idx).spec_ids().len() <= 2 * done.len()
                &&& edges_ok(final(edges)@, final(node_idx).spec_ids().len() as int)
                &&& final(nodeways).spec_entries().len() <= old(nodeways).spec_entries().len()
                    + way@.nodes.len()
            },
            Err(e) => e == crate::Error::MalformedInput && !all_pairs_resolve(
                base_pairs + pairs_of_way(way@),
                qnodes.q_items(),
            ),
        }),
{
    let ghost nviews = qnodes.q_items();
    let ghost wpairs = pairs_of_way(way@);
    let ghost nwbase = nodeways.spec_entries();
    if way.nodes.len() >= 2 {
        let npairs = way.nodes.len() - 1;
        proof {
            assert(wpairs.len() == npairs);
            assert(wpairs.take(0) =~= Seq::<(i64, i64)>::empty());
            assert(base_pairs + wpairs.take(0) =~= base_pairs);
        }
        for pi in 0..npairs
            invariant
                qnodes.q_wf(),
                qnodes.q_items() == nviews,
                node_idx.wf(),
                nodeways.wf(),
                nodeways.spec_entries() == nwbase,
                way@.nodes.len() == npairs + 1,
                wpairs == pairs_of_way(way@),
                npairs == wpairs.len(),
                2 * (base_pairs.len() + wpairs.len()) + 2 <= usize::MAX,
                node_idx.spec_ids() == ids_after(base_pairs + wpairs.take(pi as int)),
                edges@ == edges_after(base_pairs + wpairs.take(pi as int), nviews),
                all_pairs_resolve(base_pairs + wpairs.take(pi as int), nviews),
                node_idx.spec_ids().len() <= 2 * (base_pairs.len() + pi),
                edges_ok(edges@, node_idx.spec_ids().len() as int),
        {
            let u = way.nodes[pi];
            let v = way.nodes[pi + 1];
            let ghost done = base_pairs + wpairs.take(pi as int);
            proof {
                assert(wpairs[pi as int] == (way@.nodes[pi as int], way@.nodes[pi as int + 1]));
                assert(wpairs.take(pi as int).push(wpairs[pi as int]) =~= wpairs.take(
                    pi as int + 1,
                ));
                assert(done.push((u, v)) =~= base_pairs + wpairs.take(pi as int + 1));
                assert(node_idx.spec_ids().len() < usize::MAX);
            }
            let ia = node_idx.get_or_insert(u);
            proof {
                assert(node_idx.spec_ids().len() < usize::MAX);
            }
            let ib = node_idx.get_or_insert(v);
            let ghost ids2 = node_idx.spec_ids();
            proof {
                assert((done.push((u, v))).drop_last() =~= done);
                assert(ids2 == ids_after(done.push((u, v))));
            }
            let node_a = match qnodes.by_id(u) {
                Ok(n) => n,
                Err(_) => {
                    proof {
                        let k = done.len();
                        assert((base_pairs + wpairs)[k as int] == wpairs[pi as int]);
                        assert(!all_pairs_resolve(base_pairs + wpairs, nviews));
                    }
                    return Err(crate::Error::MalformedInput);
                },
            };
            let node_b = match qnodes.by_id(v) {
                Ok(n) => n,
                Err(_) => {
                    proof {
                        let k = done.len();
                        assert((base_pairs + wpairs)[k as int] == wpairs[pi as int]);
                        assert(!all_pairs_resolve(base_pairs + wpairs, nviews));
                    }
                    return Err(crate::Error::MalformedInput);
                },
            };
            let w = edge_weight(node_a.lat, node_a.lon, node_b.lat, node_b.lon);
            proof {
                node_idx.lemma_wf_distinct();
                assert(ids2[ia as int] == u);
                assert(ids2[ib as int] == v);
                lemma_index_of(ids2, u, ia as int);
                lemma_index_of(ids2, v, ib as int);
            }
            if ia != ib && w > 0 {
                let ghost epre = edges@;
                edges.push((ia, ib, w));
                proof {
                    assert(edges@ =~= epre.push((ia, ib, w)));
                }
            }
            proof {
                assert(edges@ == edges_after(done.push((u, v)), nviews));
                assert(all_pairs_resolve(done.push((u, v)), nviews));
            }
        }
        proof {
            assert(wpairs.take(npairs as int) =~= wpairs);
        }
    } else {
        proof {
            assert(wpairs =~= Seq::<(i64, i64)>::empty());
            assert(base_pairs + wpairs =~= base_pairs);
        }
    }
    proof {
        assert(way@.nodes.take(0) =~= Seq::<i64>::empty());
    }
    for ni in 0..way.nodes.len()
        invariant
            nodeways.wf(),
            nodeways.spec_entries() == nw_add_nodes(nwbase, way@, way@.nodes.take(ni as int)),
            nodeways.spec_entries().len() <= nwbase.len() + ni,
            nwbase.len() + way@.nodes.len() < usize::MAX,
            ni <= way@.nodes.len(),
    {
        proof {
            assert(nodeways.spec_entries().len() < usize::MAX);
            assert(way@.nodes.take(ni as int).push(way@.nodes[ni as int]) =~= way@.nodes.take(
                ni as int + 1,
            ));
            assert((way@.nodes.take(ni as int + 1)).drop_last() =~= way@.nodes.take(ni as int));
        }
        if !id_in_prefix(&way.nodes, ni, way.nodes[ni]) {
            nodeways.add(way.nodes[ni], way);
        }
    }
    proof {
        assert(way@.nodes.take(way@.nodes.len() as int) =~= way@.nodes);
    }
    Ok(())
}


} // verus!
